use mdreader::reader::{
    check_size, file_label, label_from_name, shortcut_actions, signals_change, AppAction, Document, KeysPressed,
    LoadError, Theme, WatchEventKind, MAX_FILE_BYTES,
};

fn no_keys() -> KeysPressed {
    KeysPressed {
        command: false,
        o: false,
        plus: false,
        equals: false,
        minus: false,
        num0: false,
        t: false,
        f5: false,
    }
}

#[test]
fn theme_toggles_back_and_forth() {
    assert_eq!(Theme::Light.toggled(), Theme::Dark);
    assert_eq!(Theme::Dark.toggled(), Theme::Light);
    assert_eq!(Theme::Light.toggled().toggled(), Theme::Light);
}

#[test]
fn file_label_is_name_or_placeholder() {
    assert_eq!(label_from_name(Some("README.md".to_string())), "README.md");
    assert_eq!(label_from_name(None), "archivo");
}

#[test]
fn file_label_keeps_only_the_file_name() {
    let path = std::path::PathBuf::from("/home/usuario/docs/README.md");
    assert_eq!(file_label(&path), "README.md");
    assert_eq!(file_label(&std::path::PathBuf::from("notas.md")), "notas.md");
    assert_eq!(file_label(&std::path::PathBuf::from("/")), "archivo");
    assert_eq!(file_label(&std::path::PathBuf::from("docs/..")), "archivo");
}

#[test]
fn size_limit_is_25_mib() {
    assert_eq!(MAX_FILE_BYTES, 25 * 1024 * 1024);
    assert!(check_size("a.md".to_string(), Ok(0)).is_ok());
    assert!(check_size("a.md".to_string(), Ok(MAX_FILE_BYTES)).is_ok());
    match check_size("a.md".to_string(), Ok(MAX_FILE_BYTES + 1)) {
        Err(LoadError::TooLarge { label, size }) => {
            assert_eq!(label, "a.md");
            assert_eq!(size, MAX_FILE_BYTES + 1);
        }
        _ => panic!("a file over the limit is refused"),
    }
}

#[test]
fn inaccessible_file_is_refused() {
    match check_size("b.md".to_string(), Err("sin permiso".to_string())) {
        Err(LoadError::Inaccessible { label, reason }) => {
            assert_eq!(label, "b.md");
            assert_eq!(reason, "sin permiso");
        }
        _ => panic!("missing metadata refuses the file"),
    }
}

#[test]
fn successful_load_replaces_document_and_clears_error() {
    let mut doc: Document<u32> = Document::new();
    doc.refuse(LoadError::Inaccessible { label: "x".to_string(), reason: "r".to_string() });
    assert!(doc.error.is_some());
    assert!(doc.finish_load(7, "x".to_string(), Ok("# Hola".to_string())));
    assert_eq!(doc.content, "# Hola");
    assert_eq!(doc.current_file, Some(7));
    assert!(doc.error.is_none());
}

#[test]
fn failed_load_keeps_open_document() {
    let mut doc: Document<u32> = Document::new();
    assert!(doc.finish_load(1, "a".to_string(), Ok("texto".to_string())));
    assert!(!doc.finish_load(2, "b".to_string(), Err("no es UTF-8".to_string())));
    assert_eq!(doc.content, "texto");
    assert_eq!(doc.current_file, Some(1));
    match &doc.error {
        Some(LoadError::Unreadable { label, reason }) => {
            assert_eq!(label, "b");
            assert_eq!(reason, "no es UTF-8");
        }
        _ => panic!("the read error is recorded"),
    }
}

#[test]
fn refused_file_keeps_open_document() {
    let mut doc: Document<u32> = Document::new();
    assert!(doc.finish_load(1, "a".to_string(), Ok("texto".to_string())));
    doc.refuse(LoadError::TooLarge { label: "grande".to_string(), size: MAX_FILE_BYTES + 1 });
    assert_eq!(doc.content, "texto");
    assert_eq!(doc.current_file, Some(1));
    assert!(matches!(doc.error, Some(LoadError::TooLarge { .. })));
}

#[test]
fn shortcuts_map_to_actions_in_order() {
    let mut k = no_keys();
    assert!(shortcut_actions(&k).is_empty());
    k.f5 = true;
    assert_eq!(shortcut_actions(&k), vec![AppAction::Reload]);
    k.o = true;
    k.t = true;
    assert_eq!(shortcut_actions(&k), vec![AppAction::Reload]);
    k.command = true;
    assert_eq!(
        shortcut_actions(&k),
        vec![AppAction::OpenDialog, AppAction::ToggleTheme, AppAction::Reload]
    );
    let all = KeysPressed {
        command: true,
        o: true,
        plus: true,
        equals: true,
        minus: true,
        num0: true,
        t: true,
        f5: true,
    };
    assert_eq!(
        shortcut_actions(&all),
        vec![
            AppAction::OpenDialog,
            AppAction::ZoomIn,
            AppAction::ZoomOut,
            AppAction::ZoomReset,
            AppAction::ToggleTheme,
            AppAction::Reload
        ]
    );
}

#[test]
fn zoom_in_accepts_plus_or_equals() {
    let mut k = no_keys();
    k.command = true;
    k.equals = true;
    assert_eq!(shortcut_actions(&k), vec![AppAction::ZoomIn]);
    k.plus = true;
    assert_eq!(shortcut_actions(&k), vec![AppAction::ZoomIn]);
}

#[test]
fn only_modify_and_create_signal_change() {
    assert!(signals_change(WatchEventKind::Modify));
    assert!(signals_change(WatchEventKind::Create));
    assert!(!signals_change(WatchEventKind::Access));
    assert!(!signals_change(WatchEventKind::Remove));
    assert!(!signals_change(WatchEventKind::Any));
    assert!(!signals_change(WatchEventKind::Other));
}
