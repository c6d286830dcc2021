//! The reader's own rules, apart from drawing and I/O: the theme, the label
//! shown for a file, the size limit and the outcome of opening a file, the
//! keyboard shortcuts, and which file-system events call for a reload.

use vstd::prelude::*;
use crate::chars::push_char;

verus! {

/// Visual theme of the reader.
#[derive(Clone, Copy, Debug, PartialEq, Eq, Structural)]
pub enum Theme {
    Light,
    Dark,
}

/// The theme after a toggle: light becomes dark and dark becomes light.
pub open spec fn toggled_spec(t: Theme) -> Theme {
    match t {
        Theme::Light => Theme::Dark,
        Theme::Dark => Theme::Light,
    }
}

impl Theme {
    /// The other theme (see `toggled_spec`).
    pub fn toggled(self) -> (r: Theme)
        ensures
            r == toggled_spec(self),
    {
        match self {
            Theme::Light => Theme::Dark,
            Theme::Dark => Theme::Light,
        }
    }
}

/// A toggle always changes the theme, and toggling twice gives it back.
pub proof fn law_toggle_involution(t: Theme)
    ensures
        toggled_spec(t) != t,
        toggled_spec(toggled_spec(t)) == t,
{
}

/// The label shown for a file that has no file name of its own.
pub open spec fn unnamed_file_label() -> Seq<char> {
    seq!['a', 'r', 'c', 'h', 'i', 'v', 'o']
}

/// A file-system path, carried through to `Path::file_name`.
#[verifier::external_type_specification]
#[verifier::external_body]
pub struct ExPathBuf(std::path::PathBuf);

/// `Path::file_name`, with the name converted by `OsStr::to_string_lossy`:
/// the final component of the path, if it has one. The contract claims what
/// std documents of it: a file name, when there is one, is a non-empty
/// component (and the lossy conversion keeps it non-empty). Which part of
/// the path it is depends on the platform's separators and prefixes and is
/// left unsaid.
#[verifier::external_body]
fn path_file_name(path: &std::path::PathBuf) -> (r: Option<String>)
    ensures
        r matches Some(n) ==> n@.len() > 0,
{
    match path.file_name() {
        Some(n) => Some(n.to_string_lossy().to_string()),
        None => None,
    }
}

/// The label shown for a file whose file name is `file_name` (`None` when
/// the path has none): the name itself, or `archivo`.
pub fn label_from_name(file_name: Option<String>) -> (r: String)
    ensures
        r@ == match file_name {
            Some(n) => n@,
            None => unnamed_file_label(),
        },
{
    match file_name {
        Some(n) => n,
        None => {
            let mut s = String::new();
            push_char(&mut s, 'a');
            push_char(&mut s, 'r');
            push_char(&mut s, 'c');
            push_char(&mut s, 'h');
            push_char(&mut s, 'i');
            push_char(&mut s, 'v');
            push_char(&mut s, 'o');
            assert(s@ =~= unnamed_file_label());
            s
        },
    }
}

/// The label shown for a file: its file name only, never the directories
/// around it (so that messages do not expose the user's directory layout),
/// or `archivo` when the path has no file name. The label is never empty.
pub fn file_label(path: &std::path::PathBuf) -> (r: String)
    ensures
        r@.len() > 0,
{
    let name = path_file_name(path);
    label_from_name(name)
}

/// The largest file, in bytes, that the reader loads into memory (25 MiB),
/// so that opening a huge file by accident cannot exhaust memory.
pub const MAX_FILE_BYTES: u64 = 25 * 1024 * 1024;

/// Why a file could not be opened. Each error names the file by its label
/// only (see `file_label`).
#[derive(Debug)]
pub enum LoadError {
    /// The file is larger than `MAX_FILE_BYTES`; `size` is its size in bytes.
    TooLarge { label: String, size: u64 },
    /// The file's metadata could not be read; `reason` describes why.
    Inaccessible { label: String, reason: String },
    /// The file's contents could not be read as text; `reason` describes why.
    Unreadable { label: String, reason: String },
}

/// Decides, from the size that the file's metadata gives (or the reason it
/// could not be read), whether the file may be read: files over
/// `MAX_FILE_BYTES` and files whose metadata cannot be read are refused.
pub fn check_size(label: String, size: Result<u64, String>) -> (r: Result<(), LoadError>)
    ensures
        match size {
            Ok(n) => if n > MAX_FILE_BYTES {
                r == Err::<(), LoadError>(LoadError::TooLarge { label, size: n })
            } else {
                r is Ok
            },
            Err(reason) => r == Err::<(), LoadError>(LoadError::Inaccessible { label, reason }),
        },
{
    match size {
        Ok(n) => if n > MAX_FILE_BYTES {
            Err(LoadError::TooLarge { label, size: n })
        } else {
            Ok(())
        },
        Err(reason) => Err(LoadError::Inaccessible { label, reason }),
    }
}

/// The open document: the file shown (identified by `P`, a path), its raw
/// Markdown text, and the error of the last attempt to open a file.
pub struct Document<P> {
    pub current_file: Option<P>,
    pub content: String,
    pub error: Option<LoadError>,
}

impl<P> Document<P> {
    /// No file open, no text, no error.
    pub fn new() -> (d: Document<P>)
        ensures
            d.current_file is None,
            d.content@ == Seq::<char>::empty(),
            d.error is None,
    {
        Document { current_file: None, content: String::new(), error: None }
    }

    /// Records that opening a file failed: the error is shown, and the
    /// document that was open stays open.
    pub fn refuse(&mut self, err: LoadError)
        ensures
            final(self).error == Some(err),
            final(self).current_file == old(self).current_file,
            final(self).content == old(self).content,
    {
        self.error = Some(err);
    }

    /// Takes in the result of reading the file at `path` (whose label is
    /// `label`): its text becomes the document and clears any error; a
    /// failure is recorded as `Unreadable` and keeps the document that was
    /// open. Returns whether the file is now the open one.
    pub fn finish_load(&mut self, path: P, label: String, read: Result<String, String>) -> (loaded: bool)
        ensures
            loaded == read is Ok,
            match read {
                Ok(text) => {
                    &&& final(self).content == text
                    &&& final(self).error is None
                    &&& final(self).current_file == Some(path)
                },
                Err(reason) => {
                    &&& final(self).error == Some(LoadError::Unreadable { label, reason })
                    &&& final(self).current_file == old(self).current_file
                    &&& final(self).content == old(self).content
                },
            },
    {
        match read {
            Ok(text) => {
                self.content = text;
                self.error = None;
                self.current_file = Some(path);
                true
            },
            Err(reason) => {
                self.error = Some(LoadError::Unreadable { label, reason });
                false
            },
        }
    }
}

/// The keys of a frame that the reader's shortcuts look at: whether the
/// command modifier (Ctrl, or Cmd on macOS) is held, and which keys were
/// pressed.
#[derive(Clone, Copy, Debug)]
pub struct KeysPressed {
    pub command: bool,
    pub o: bool,
    pub plus: bool,
    pub equals: bool,
    pub minus: bool,
    pub num0: bool,
    pub t: bool,
    pub f5: bool,
}

/// An action that a shortcut asks for.
#[derive(Clone, Copy, Debug, PartialEq, Eq, Structural)]
pub enum AppAction {
    OpenDialog,
    ZoomIn,
    ZoomOut,
    ZoomReset,
    ToggleTheme,
    Reload,
}

/// `s` with `a` added at the end when `cond` holds.
pub open spec fn push_if(s: Seq<AppAction>, cond: bool, a: AppAction) -> Seq<AppAction> {
    if cond {
        s.push(a)
    } else {
        s
    }
}

/// The actions that the keys of a frame ask for, in the order they are
/// carried out: Ctrl+O opens a file, Ctrl and `+` or `=` zooms in, Ctrl+-
/// zooms out, Ctrl+0 resets the zoom, Ctrl+T toggles the theme, and F5
/// (without modifier) reloads.
pub open spec fn spec_shortcut_actions(k: KeysPressed) -> Seq<AppAction> {
    let s0 = push_if(Seq::empty(), k.command && k.o, AppAction::OpenDialog);
    let s1 = push_if(s0, k.command && (k.plus || k.equals), AppAction::ZoomIn);
    let s2 = push_if(s1, k.command && k.minus, AppAction::ZoomOut);
    let s3 = push_if(s2, k.command && k.num0, AppAction::ZoomReset);
    let s4 = push_if(s3, k.command && k.t, AppAction::ToggleTheme);
    push_if(s4, k.f5, AppAction::Reload)
}

/// The actions that the keys of a frame ask for (see
/// `spec_shortcut_actions`).
pub fn shortcut_actions(k: &KeysPressed) -> (r: Vec<AppAction>)
    ensures
        r@ == spec_shortcut_actions(*k),
{
    let mut r: Vec<AppAction> = Vec::new();
    if k.command && k.o {
        r.push(AppAction::OpenDialog);
    }
    if k.command && (k.plus || k.equals) {
        r.push(AppAction::ZoomIn);
    }
    if k.command && k.minus {
        r.push(AppAction::ZoomOut);
    }
    if k.command && k.num0 {
        r.push(AppAction::ZoomReset);
    }
    if k.command && k.t {
        r.push(AppAction::ToggleTheme);
    }
    if k.f5 {
        r.push(AppAction::Reload);
    }
    r
}

/// Without the command modifier, only F5 does anything: it reloads.
pub proof fn law_shortcuts_need_command(k: KeysPressed)
    requires
        !k.command,
    ensures
        spec_shortcut_actions(k) == (if k.f5 {
            seq![AppAction::Reload]
        } else {
            Seq::<AppAction>::empty()
        }),
{
    assert(Seq::<AppAction>::empty().push(AppAction::Reload) =~= seq![AppAction::Reload]);
}

/// The place of an action in the order in which a frame carries them out.
pub open spec fn action_rank(a: AppAction) -> int {
    match a {
        AppAction::OpenDialog => 0,
        AppAction::ZoomIn => 1,
        AppAction::ZoomOut => 2,
        AppAction::ZoomReset => 3,
        AppAction::ToggleTheme => 4,
        AppAction::Reload => 5,
    }
}

/// Actions in strictly increasing order, all ranked below `bound`.
pub open spec fn ordered_below(s: Seq<AppAction>, bound: int) -> bool {
    &&& forall|i: int, j: int|
        0 <= i < j < s.len() ==> action_rank(#[trigger] s[i]) < action_rank(#[trigger] s[j])
    &&& forall|i: int| 0 <= i < s.len() ==> action_rank(#[trigger] s[i]) < bound
}

proof fn lemma_push_if_ordered(s: Seq<AppAction>, cond: bool, a: AppAction, bound: int)
    requires
        ordered_below(s, bound),
        bound <= action_rank(a),
    ensures
        ordered_below(push_if(s, cond, a), action_rank(a) + 1),
{
    let t = push_if(s, cond, a);
    if cond {
        assert forall|i: int, j: int| 0 <= i < j < t.len() implies action_rank(#[trigger] t[i])
            < action_rank(#[trigger] t[j]) by {
            if j < s.len() {
                assert(t[i] == s[i] && t[j] == s[j]);
            } else {
                assert(t[i] == s[i]);
            }
        }
    }
}

/// The actions of a frame come in a fixed order, so no frame asks for the
/// same action twice.
pub proof fn law_shortcut_actions_distinct(k: KeysPressed, i: int, j: int)
    requires
        0 <= i < j < spec_shortcut_actions(k).len(),
    ensures
        spec_shortcut_actions(k)[i] != spec_shortcut_actions(k)[j],
{
    let s0 = push_if(Seq::empty(), k.command && k.o, AppAction::OpenDialog);
    let s1 = push_if(s0, k.command && (k.plus || k.equals), AppAction::ZoomIn);
    let s2 = push_if(s1, k.command && k.minus, AppAction::ZoomOut);
    let s3 = push_if(s2, k.command && k.num0, AppAction::ZoomReset);
    let s4 = push_if(s3, k.command && k.t, AppAction::ToggleTheme);
    lemma_push_if_ordered(Seq::empty(), k.command && k.o, AppAction::OpenDialog, 0);
    lemma_push_if_ordered(s0, k.command && (k.plus || k.equals), AppAction::ZoomIn, 1);
    lemma_push_if_ordered(s1, k.command && k.minus, AppAction::ZoomOut, 2);
    lemma_push_if_ordered(s2, k.command && k.num0, AppAction::ZoomReset, 3);
    lemma_push_if_ordered(s3, k.command && k.t, AppAction::ToggleTheme, 4);
    lemma_push_if_ordered(s4, k.f5, AppAction::Reload, 5);
    let s = spec_shortcut_actions(k);
    assert(action_rank(s[i]) < action_rank(s[j]));
}

proof fn lemma_push_if_contains(s: Seq<AppAction>, cond: bool, a: AppAction, b: AppAction)
    ensures
        push_if(s, cond, a).contains(b) <==> (s.contains(b) || (cond && a == b)),
{
    if cond {
        if s.contains(b) {
            let i = choose|i: int| 0 <= i < s.len() && s[i] == b;
            assert(push_if(s, cond, a)[i] == b);
        }
        if a == b {
            assert(push_if(s, cond, a)[s.len() as int] == b);
        }
        if push_if(s, cond, a).contains(b) {
            let i = choose|i: int| 0 <= i < s.len() + 1 && push_if(s, cond, a)[i] == b;
            if i < s.len() {
                assert(s[i] == b);
            }
        }
    }
}

/// Each action is asked for exactly when its own keys are pressed: Ctrl+O
/// opens a file, Ctrl with `+` or `=` zooms in, Ctrl+- zooms out, Ctrl+0
/// resets the zoom, Ctrl+T toggles the theme, and F5 reloads.
pub proof fn law_shortcut_keys(k: KeysPressed)
    ensures
        spec_shortcut_actions(k).contains(AppAction::OpenDialog) <==> (k.command && k.o),
        spec_shortcut_actions(k).contains(AppAction::ZoomIn) <==> (k.command && (k.plus
            || k.equals)),
        spec_shortcut_actions(k).contains(AppAction::ZoomOut) <==> (k.command && k.minus),
        spec_shortcut_actions(k).contains(AppAction::ZoomReset) <==> (k.command && k.num0),
        spec_shortcut_actions(k).contains(AppAction::ToggleTheme) <==> (k.command && k.t),
        spec_shortcut_actions(k).contains(AppAction::Reload) <==> k.f5,
{
    let e = Seq::<AppAction>::empty();
    let c0 = k.command && k.o;
    let c1 = k.command && (k.plus || k.equals);
    let c2 = k.command && k.minus;
    let c3 = k.command && k.num0;
    let c4 = k.command && k.t;
    let c5 = k.f5;
    let s0 = push_if(e, c0, AppAction::OpenDialog);
    let s1 = push_if(s0, c1, AppAction::ZoomIn);
    let s2 = push_if(s1, c2, AppAction::ZoomOut);
    let s3 = push_if(s2, c3, AppAction::ZoomReset);
    let s4 = push_if(s3, c4, AppAction::ToggleTheme);
    let acts = seq![
        AppAction::OpenDialog,
        AppAction::ZoomIn,
        AppAction::ZoomOut,
        AppAction::ZoomReset,
        AppAction::ToggleTheme,
        AppAction::Reload,
    ];
    assert forall|i: int| 0 <= i < 6 implies {
        let b = #[trigger] acts[i];
        &&& push_if(s4, c5, AppAction::Reload).contains(b) <==> ((c0 && b == AppAction::OpenDialog)
            || (c1 && b == AppAction::ZoomIn) || (c2 && b == AppAction::ZoomOut) || (c3 && b
            == AppAction::ZoomReset) || (c4 && b == AppAction::ToggleTheme) || (c5 && b
            == AppAction::Reload))
    } by {
        let b = acts[i];
        assert(!e.contains(b));
        lemma_push_if_contains(e, c0, AppAction::OpenDialog, b);
        lemma_push_if_contains(s0, c1, AppAction::ZoomIn, b);
        lemma_push_if_contains(s1, c2, AppAction::ZoomOut, b);
        lemma_push_if_contains(s2, c3, AppAction::ZoomReset, b);
        lemma_push_if_contains(s3, c4, AppAction::ToggleTheme, b);
        lemma_push_if_contains(s4, c5, AppAction::Reload, b);
    }
    assert(acts[0] == AppAction::OpenDialog);
    assert(acts[1] == AppAction::ZoomIn);
    assert(acts[2] == AppAction::ZoomOut);
    assert(acts[3] == AppAction::ZoomReset);
    assert(acts[4] == AppAction::ToggleTheme);
    assert(acts[5] == AppAction::Reload);
}

/// The kind of a file-system event on the watched file.
#[derive(Clone, Copy, Debug, PartialEq, Eq, Structural)]
pub enum WatchEventKind {
    Any,
    Access,
    Create,
    Modify,
    Remove,
    Other,
}

/// Whether an event on the watched file calls for a reload: modifications,
/// and creations too (some editors save by writing a new file).
pub fn signals_change(kind: WatchEventKind) -> (r: bool)
    ensures
        r == (kind == WatchEventKind::Modify || kind == WatchEventKind::Create),
{
    match kind {
        WatchEventKind::Modify | WatchEventKind::Create => true,
        _ => false,
    }
}

} // verus!
