use lib::{parse_pml, render_blocks, PmlBlock, PmlBuilder, PmlError, PmlErrorKind};

fn block(name: &str, ty: &str, content: &str, paired: bool) -> PmlBlock {
    PmlBlock {
        name: name.to_string(),
        ty: ty.to_string(),
        content: content.to_string(),
        paired,
    }
}

#[test]
fn renders_short_block() {
    assert_eq!(render_blocks(&[block("A", "text", "x", false)]), "[A]\nx\n");
}

#[test]
fn renders_type_unless_text() {
    assert_eq!(
        render_blocks(&[block("A", "yaml", "k: v", false), block("B", "text", "", false)]),
        "[A:yaml]\nk: v\n[B]\n"
    );
}

#[test]
fn renders_paired_block() {
    assert_eq!(render_blocks(&[block("A", "text", "x", true)]), "[A]\nx\n[/A]\n");
    assert_eq!(render_blocks(&[block("A", "text", "", true)]), "[A]\n[/A]\n");
}

#[test]
fn body_with_control_line_is_rendered_paired() {
    assert_eq!(render_blocks(&[block("A", "text", "[B]\ny", false)]), "[A]\n[B]\ny\n[/A]\n");
    assert_eq!(render_blocks(&[block("A", "text", "q\r[/C]", false)]), "[A]\nq\r[/C]\n[/A]\n");
    assert_eq!(render_blocks(&[block("A", "text", "[not a header", false)]), "[A]\n[not a header\n");
}

#[test]
fn renders_nothing_for_no_blocks() {
    assert_eq!(render_blocks(&[]), "");
}

#[test]
fn builder_readme_example() {
    let mut builder = PmlBuilder::new();
    builder
        .push_paired("SYSTEM", None, "You are a rigorous assistant.")
        .unwrap()
        .push_paired("CONFIG", Some("yaml"), "lang: en\ntone: concise")
        .unwrap();
    assert_eq!(
        builder.build(),
        "[SYSTEM]\nYou are a rigorous assistant.\n[/SYSTEM]\n[CONFIG:yaml]\nlang: en\ntone: concise\n[/CONFIG]\n"
    );
}

#[test]
fn builder_normalizes_type_and_newlines() {
    let mut builder = PmlBuilder::default();
    builder.push_short("NOTES", Some("MD"), "a\r\nb\rc").unwrap();
    assert_eq!(builder.build(), "[NOTES:markdown]\na\nb\nc\n");
}

#[test]
fn builder_rejects_invalid_name() {
    let mut builder = PmlBuilder::new();
    let r = builder.push_short("bad name", None, "x").map(|_| ());
    assert_eq!(r, Err(PmlError { line: 0, kind: PmlErrorKind::InvalidName("bad name".to_string()) }));
    assert_eq!(builder.build(), "");
}

#[test]
fn builder_rejects_invalid_type() {
    let mut builder = PmlBuilder::new();
    let r = builder.push_paired("A", Some("x y"), "x").map(|_| ());
    assert_eq!(r, Err(PmlError { line: 0, kind: PmlErrorKind::InvalidType("x y".to_string()) }));
    assert_eq!(builder.build(), "");
}

#[test]
fn builder_output_reads_back() {
    let mut builder = PmlBuilder::new();
    builder.push_short("A.B#t", Some("json"), "{\"k\": 1}\n").unwrap();
    builder.push_short("NESTED", None, "[INNER]\nbody").unwrap();
    builder.push_paired("C", None, "").unwrap();
    builder.push_short("D", None, "last").unwrap();
    let text = builder.build();
    assert_eq!(
        parse_pml(&text).unwrap(),
        vec![
            block("A.B#t", "json", "{\"k\": 1}\n", false),
            block("NESTED", "text", "[INNER]\nbody", true),
            block("C", "text", "", true),
            block("D", "text", "last", false),
        ]
    );
}

#[test]
fn render_then_parse_keeps_blocks() {
    let blocks = vec![
        block("SYSTEM", "text", "You are a rigorous assistant.\n", false),
        block("CONFIG", "yaml", "lang: en\ntone: concise", true),
        block("EMPTY", "text", "", false),
    ];
    assert_eq!(parse_pml(&render_blocks(&blocks)).unwrap(), blocks);
}
