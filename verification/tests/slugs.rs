use mdreader::registry::{make_unique, SlugRegistry};
use mdreader::slug::{ascii_tables_agree, classify_char, slug_from_classes, slugify, CharClass};

#[test]
fn slugify_lowercases_and_joins_words() {
    assert_eq!(slugify("Hola Mundo"), "hola-mundo");
    assert_eq!(slugify("Características (MVP)"), "características-mvp");
}

#[test]
fn slugify_collapses_separators() {
    assert_eq!(slugify("  a  -- b__c  "), "a-b-c");
    assert_eq!(slugify("--x"), "x");
}

#[test]
fn slugify_drops_trailing_dashes() {
    assert_eq!(slugify("fin - "), "fin");
    assert_eq!(slugify("uno _"), "uno");
}

#[test]
fn slugify_drops_punctuation_and_symbols() {
    assert_eq!(slugify("¿Qué es?"), "qué-es");
    assert_eq!(slugify("C++ & Rust!"), "c-rust");
}

#[test]
fn slugify_falls_back_on_empty_result() {
    assert_eq!(slugify(""), "seccion");
    assert_eq!(slugify("!!! ???"), "seccion");
    assert_eq!(slugify("🚀"), "seccion");
}

#[test]
fn slugify_keeps_digits_and_unicode_letters() {
    assert_eq!(slugify("Versión 2.0"), "versión-20");
    assert_eq!(slugify("ÀÉÎ"), "àéî");
}

#[test]
fn classify_char_uses_lowercase_and_separators() {
    match classify_char('Q') {
        CharClass::Alphanumeric(lc) => assert_eq!(lc, vec!['q']),
        _ => panic!("'Q' is alphanumeric"),
    }
    assert!(matches!(classify_char(' '), CharClass::Separator));
    assert!(matches!(classify_char('\u{3000}'), CharClass::Separator));
    assert!(matches!(classify_char('_'), CharClass::Separator));
    assert!(matches!(classify_char('-'), CharClass::Separator));
    assert!(matches!(classify_char('!'), CharClass::Other));
}

#[test]
fn slug_from_classes_exact() {
    let classes = vec![
        CharClass::Separator,
        CharClass::Alphanumeric(vec!['a', 'b']),
        CharClass::Separator,
        CharClass::Separator,
        CharClass::Other,
        CharClass::Alphanumeric(vec!['c']),
        CharClass::Separator,
    ];
    assert_eq!(slug_from_classes(&classes), "ab-c");
    assert_eq!(slug_from_classes(&[]), "seccion");
    assert_eq!(slug_from_classes(&[CharClass::Other, CharClass::Separator]), "seccion");
}

#[test]
fn make_unique_numbers_repeats() {
    let mut used = SlugRegistry::new();
    assert_eq!(make_unique("uso", &mut used), "uso");
    assert_eq!(make_unique("uso", &mut used), "uso-1");
    assert_eq!(make_unique("otro", &mut used), "otro");
    assert_eq!(make_unique("uso", &mut used), "uso-2");
    assert_eq!(make_unique("otro", &mut used), "otro-1");
}

#[test]
fn make_unique_counts_past_nine() {
    let mut used = SlugRegistry::new();
    let mut last = String::new();
    for _ in 0..13 {
        last = make_unique("a", &mut used);
    }
    assert_eq!(last, "a-12");
}

#[test]
fn make_unique_repeated_results_distinct() {
    let mut used = SlugRegistry::new();
    let mut seen: Vec<String> = Vec::new();
    for _ in 0..30 {
        let s = make_unique("x", &mut used);
        assert!(!seen.contains(&s));
        seen.push(s);
    }
}

#[test]
fn make_unique_records_numbered_slugs() {
    let mut used = SlugRegistry::new();
    assert_eq!(make_unique("a", &mut used), "a");
    assert_eq!(make_unique("a", &mut used), "a-1");
    assert_eq!(make_unique("a-1", &mut used), "a-1-1");
    assert_eq!(make_unique("a", &mut used), "a-2");
}

#[test]
fn reserved_slugs_are_skipped() {
    let mut used = SlugRegistry::new();
    used.reserve("b");
    used.reserve("b-1");
    assert_eq!(make_unique("b", &mut used), "b-2");
    assert_eq!(make_unique("b", &mut used), "b-3");
}

#[test]
fn classify_char_agrees_with_std() {
    for u in 0u32..0x30000 {
        if let Some(c) = char::from_u32(u) {
            let expected_sep = !c.is_alphanumeric() && (c.is_whitespace() || c == '-' || c == '_');
            let is_sep = matches!(classify_char(c), CharClass::Separator);
            assert_eq!(is_sep, expected_sep, "{:?}", c);
        }
    }
}

#[test]
fn slugify_is_stable_on_ascii_slugs() {
    for text in ["Hola Mundo", "  a  -- b__c  ", "C++ & Rust!", "!!!", "Uso 1", "fin - ", "A-B-C"] {
        let s = slugify(text);
        assert_eq!(slugify(&s), s);
    }
}

#[test]
fn slug_holds_only_lowercase_alphanumerics_and_dashes() {
    for text in ["Características (MVP)", "¿Qué es?", "Versión 2.0", "ÀÉÎ ÕÜ", "x_y z"] {
        let s = slugify(text);
        assert!(s.chars().all(|c| c == '-' || (c.is_alphanumeric() && !c.is_uppercase())), "{}", s);
    }
}

#[test]
fn std_agrees_with_the_ascii_tables() {
    assert!(ascii_tables_agree());
}
