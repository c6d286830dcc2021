use mdreader::toc::{parse_atx_heading, process, split_existing_id};

fn chars(s: &str) -> Vec<char> {
    s.chars().collect()
}

#[test]
fn keeps_line_count_and_plain_lines() {
    let md = "intro\n\n# A\ntexto *normal*\n";
    let r = process(md);
    assert_eq!(r.rendered_markdown, "intro\n\n# A {#a}\ntexto *normal*");
    assert_eq!(r.rendered_markdown.lines().count(), md.lines().count());
}

#[test]
fn empty_document() {
    let r = process("");
    assert_eq!(r.rendered_markdown, "");
    assert!(r.headings.is_empty());
}

#[test]
fn crlf_lines_are_split() {
    let r = process("# Uno\r\ntexto\r\n## Dos");
    assert_eq!(r.rendered_markdown, "# Uno {#uno}\ntexto\n## Dos {#dos}");
    assert_eq!(r.headings.len(), 2);
}

#[test]
fn indentation_is_kept_in_rewritten_line() {
    let r = process("   ## Sangrado   ");
    assert_eq!(r.rendered_markdown, "   ## Sangrado {#sangrado}");
    assert_eq!(r.headings[0].text, "Sangrado");
    assert_eq!(r.headings[0].level, 2);
}

#[test]
fn needs_space_after_hashes_and_at_most_six() {
    let r = process("#NoTitulo\n####### Siete\n###### Seis\n#");
    assert_eq!(r.headings.len(), 2);
    assert_eq!(r.headings[0].level, 6);
    assert_eq!(r.headings[0].text, "Seis");
    assert_eq!(r.headings[1].level, 1);
    assert_eq!(r.headings[1].text, "");
    assert_eq!(r.headings[1].slug, "seccion");
    assert_eq!(
        r.rendered_markdown,
        "#NoTitulo\n####### Siete\n###### Seis {#seis}\n#  {#seccion}"
    );
}

#[test]
fn tilde_fences_and_mismatched_markers() {
    let md = "~~~\n# dentro\n```\n# sigue dentro\n~~~\n# fuera";
    let r = process(md);
    assert_eq!(r.headings.len(), 1);
    assert_eq!(r.headings[0].text, "fuera");
    assert_eq!(r.rendered_markdown, "~~~\n# dentro\n```\n# sigue dentro\n~~~\n# fuera {#fuera}");
}

#[test]
fn unclosed_fence_hides_the_rest() {
    let r = process("# A\n  ```rust\n# b\n");
    assert_eq!(r.headings.len(), 1);
    assert_eq!(r.rendered_markdown, "# A {#a}\n  ```rust\n# b");
}

#[test]
fn existing_ids_are_kept_and_reserved() {
    let r = process("# Uso {#uso}\n# Uso");
    assert_eq!(r.headings[0].slug, "uso");
    assert_eq!(r.headings[1].slug, "uso-1");
    assert_eq!(r.rendered_markdown, "# Uso {#uso}\n# Uso {#uso-1}");
}

#[test]
fn later_explicit_id_is_reserved_too() {
    let r = process("#\n# x {#seccion}");
    let slugs: Vec<&str> = r.headings.iter().map(|h| h.slug.as_str()).collect();
    assert_eq!(slugs, vec!["seccion-1", "seccion"]);
    assert_eq!(r.rendered_markdown, "#  {#seccion-1}\n# x {#seccion}");
}

#[test]
fn empty_id_is_not_an_id() {
    let r = process("# Hola {#}");
    assert_eq!(r.headings[0].text, "Hola {#}");
    assert_eq!(r.headings[0].slug, "hola");
    assert_eq!(r.rendered_markdown, "# Hola {#} {#hola}");
}

#[test]
fn generated_slugs_never_meet_a_numbered_text() {
    let r = process("# Uso\n# Uso\n# Uso 1");
    let slugs: Vec<&str> = r.headings.iter().map(|h| h.slug.as_str()).collect();
    assert_eq!(slugs, vec!["uso", "uso-1", "uso-1-1"]);
}

#[test]
fn every_slug_is_the_anchor_of_its_line() {
    let md = "# Uno\n## Dos {#segundo}\n### Uno";
    let r = process(md);
    let lines: Vec<&str> = r.rendered_markdown.lines().collect();
    for (h, line) in r.headings.iter().zip(lines.iter()) {
        assert!(line.trim_end().ends_with(&format!("{{#{}}}", h.slug)));
    }
}

#[test]
fn reprocessing_keeps_the_headings() {
    let md = "# Uno\ntexto\n## Dos\n```\n# no\n```\n## Dos";
    let first = process(md);
    let second = process(&first.rendered_markdown);
    assert_eq!(first.headings.len(), second.headings.len());
    for (a, b) in first.headings.iter().zip(second.headings.iter()) {
        assert_eq!(a.level, b.level);
        assert_eq!(a.text, b.text);
        assert_eq!(a.slug, b.slug);
    }
    assert_eq!(first.rendered_markdown, second.rendered_markdown);
}

#[test]
fn parse_atx_heading_levels_and_rest() {
    assert_eq!(parse_atx_heading(&chars("## hola")), Some((2, 3)));
    assert_eq!(parse_atx_heading(&chars("#")), Some((1, 1)));
    assert_eq!(parse_atx_heading(&chars("#\tx")), None);
    assert_eq!(parse_atx_heading(&chars("x")), None);
    assert_eq!(parse_atx_heading(&chars("####### x")), None);
    assert_eq!(parse_atx_heading(&chars("#   x")), Some((1, 4)));
}

#[test]
fn split_existing_id_cases() {
    let (v, id) = split_existing_id(&chars("Título {#personalizado}  "));
    assert_eq!(v, chars("Título"));
    assert_eq!(id, Some(chars("personalizado")));
    let (v, id) = split_existing_id(&chars("a {#x} b"));
    assert_eq!(v, chars("a {#x} b"));
    assert_eq!(id, None);
    let (v, id) = split_existing_id(&chars("a {#x} {#y}"));
    assert_eq!(v, chars("a {#x}"));
    assert_eq!(id, Some(chars("y")));
    let (v, id) = split_existing_id(&chars("{#}"));
    assert_eq!(v, chars("{#}"));
    assert_eq!(id, None);
}

#[test]
fn unicode_white_space_is_trimmed() {
    let r = process("\u{3000}# T\u{a0}\u{2003}\n# \u{200b}x");
    assert_eq!(r.headings[0].text, "T");
    assert_eq!(r.headings[0].slug, "t");
    assert_eq!(r.headings[1].text, "\u{200b}x");
    assert_eq!(r.rendered_markdown, "\u{3000}# T {#t}\n# \u{200b}x {#x}");
}

#[test]
fn lines_split_like_str_lines() {
    for md in ["a\r", "a\r\r\nb", "x\n\ny\n", "\n", "a\rb\nc"] {
        let r = process(md);
        let expected: Vec<&str> = md.lines().collect();
        assert_eq!(r.rendered_markdown, expected.join("\n"));
    }
}

#[test]
fn reprocessing_can_differ_after_a_doubled_carriage_return() {
    let md = "#\r\r\nx";
    let first = process(md);
    assert!(first.headings.is_empty());
    assert_eq!(first.rendered_markdown, "#\r\nx");
    let second = process(&first.rendered_markdown);
    assert_eq!(second.headings.len(), 1);
}

#[test]
fn split_existing_id_undoes_a_written_anchor() {
    let (v, id) = split_existing_id(&chars("Notas finales {#id-x}"));
    assert_eq!(v.iter().collect::<String>(), "Notas finales");
    assert_eq!(id.map(|i| i.iter().collect::<String>()), Some("id-x".to_string()));
    let (v, id) = split_existing_id(&chars(" {#a}b}"));
    assert_eq!(v.iter().collect::<String>(), "");
    assert_eq!(id.map(|i| i.iter().collect::<String>()), Some("a}b".to_string()));
}

#[test]
fn reprocessing_keeps_headings_across_carriage_returns() {
    let md = "texto\r\r\n# A\r\n```\r\n## no\r\n```\r\nfin\r\r\n## B";
    let first = process(md);
    let second = process(&first.rendered_markdown);
    assert_eq!(first.headings.len(), 2);
    assert_eq!(second.headings.len(), 2);
    for (a, b) in first.headings.iter().zip(second.headings.iter()) {
        assert_eq!(a.level, b.level);
        assert_eq!(a.text, b.text);
        assert_eq!(a.slug, b.slug);
    }
}

#[test]
fn marks_then_carriage_return_become_a_heading_when_read_again() {
    let first = process("#\r\r\nx");
    assert_eq!(first.headings.len(), 0);
    let second = process(&first.rendered_markdown);
    assert_eq!(second.headings.len(), 1);
}

#[test]
fn every_slug_is_unique_with_distinct_explicit_ids() {
    let r = process("# A\n# A {#a-1}\n# A\n# a 1\n## A-1");
    let slugs: Vec<&str> = r.headings.iter().map(|h| h.slug.as_str()).collect();
    assert_eq!(slugs, vec!["a", "a-1", "a-2", "a-1-1", "a-1-2"]);
}
