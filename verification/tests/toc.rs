use mdreader::toc::process;

#[test]
fn extrae_encabezados_con_nivel_y_texto() {
    let md = "# Título\n\ntexto\n\n## Sub sección\n\n### Detalle";
    let r = process(md);
    assert_eq!(r.headings.len(), 3);
    assert_eq!(r.headings[0].level, 1);
    assert_eq!(r.headings[0].text, "Título");
    assert_eq!(r.headings[1].level, 2);
    assert_eq!(r.headings[1].text, "Sub sección");
    assert_eq!(r.headings[2].level, 3);
}

#[test]
fn genera_slugs_correctos() {
    let md = "# Hola Mundo\n## Características (MVP)";
    let r = process(md);
    assert_eq!(r.headings[0].slug, "hola-mundo");
    assert_eq!(r.headings[1].slug, "características-mvp");
}

#[test]
fn inyecta_id_en_la_linea_de_encabezado() {
    let md = "# Título";
    let r = process(md);
    assert!(r.rendered_markdown.contains("{#título}"));
}

#[test]
fn respeta_id_existente() {
    let md = "# Título {#personalizado}";
    let r = process(md);
    assert_eq!(r.headings[0].slug, "personalizado");
    assert_eq!(r.headings[0].text, "Título");
}

#[test]
fn ignora_almohadillas_en_bloques_de_codigo() {
    let md = "# Real\n\n```bash\n# esto es un comentario, no un encabezado\n```\n\n## Otra";
    let r = process(md);
    assert_eq!(r.headings.len(), 2);
    assert_eq!(r.headings[0].text, "Real");
    assert_eq!(r.headings[1].text, "Otra");
}

#[test]
fn desambigua_slugs_duplicados() {
    let md = "# Uso\n## Uso\n### Uso";
    let r = process(md);
    assert_eq!(r.headings[0].slug, "uso");
    assert_eq!(r.headings[1].slug, "uso-1");
    assert_eq!(r.headings[2].slug, "uso-2");
}
