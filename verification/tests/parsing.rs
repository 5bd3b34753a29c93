use lib::{parse_pml, PmlBlock, PmlError, PmlErrorKind};

fn block(name: &str, ty: &str, content: &str, paired: bool) -> PmlBlock {
    PmlBlock {
        name: name.to_string(),
        ty: ty.to_string(),
        content: content.to_string(),
        paired,
    }
}

fn err(line: usize, kind: PmlErrorKind) -> PmlError {
    PmlError { line, kind }
}

#[test]
fn parses_minimal_example() {
    let source = "[SYSTEM]\nYou are a rigorous assistant.\n\n[CONFIG:yaml]\nlang: en\ntone: concise\n";
    let blocks = parse_pml(source).unwrap();
    assert_eq!(
        blocks,
        vec![
            block("SYSTEM", "text", "You are a rigorous assistant.\n", false),
            block("CONFIG", "yaml", "lang: en\ntone: concise", false),
        ]
    );
}

#[test]
fn paired_body_excludes_separator_newline() {
    assert_eq!(parse_pml("[A]\nhello\n[/A]").unwrap(), vec![block("A", "text", "hello", true)]);
}

#[test]
fn paired_body_keeps_blank_line() {
    assert_eq!(parse_pml("[A]\nhello\n\n[/A]").unwrap(), vec![block("A", "text", "hello\n", true)]);
}

#[test]
fn paired_empty_body() {
    assert_eq!(parse_pml("[A]\n[/A]").unwrap(), vec![block("A", "text", "", true)]);
}

#[test]
fn paired_blank_line_body() {
    assert_eq!(parse_pml("[A]\n\n[/A]").unwrap(), vec![block("A", "text", "\n", true)]);
    assert_eq!(parse_pml("[A]\n\n").unwrap(), vec![block("A", "text", "\n", false)]);
    assert_eq!(parse_pml("[A]\n\n\n[/A]").unwrap(), vec![block("A", "text", "\n", true)]);
}

#[test]
fn short_body_at_eof() {
    assert_eq!(parse_pml("[A]\nhello").unwrap(), vec![block("A", "text", "hello", false)]);
    assert_eq!(parse_pml("[A]\nhello\n").unwrap(), vec![block("A", "text", "hello", false)]);
}

#[test]
fn short_body_with_trailing_blank_line() {
    assert_eq!(parse_pml("[A]\nhello\n\n").unwrap(), vec![block("A", "text", "hello\n", false)]);
}

#[test]
fn header_only_document() {
    assert_eq!(parse_pml("[A]").unwrap(), vec![block("A", "text", "", false)]);
    assert_eq!(parse_pml("").unwrap(), vec![]);
}

#[test]
fn types_are_normalized() {
    let blocks = parse_pml("[A:MD]\nx\n[B:Yaml]\ny\n[C:prompt-template]\nz").unwrap();
    assert_eq!(
        blocks,
        vec![
            block("A", "markdown", "x", false),
            block("B", "yaml", "y", false),
            block("C", "prompt-template", "z", false),
        ]
    );
}

#[test]
fn closing_type_is_checked_after_normalization() {
    assert_eq!(parse_pml("[A:md]\nx\n[/A:Markdown]").unwrap(), vec![block("A", "markdown", "x", true)]);
    assert_eq!(
        parse_pml("[A:yaml]\nx\n[/A:json]"),
        Err(err(3, PmlErrorKind::TypeMismatch { expected: "yaml".to_string(), found: "json".to_string() }))
    );
}

#[test]
fn explicit_boundary_has_priority() {
    let source = "[OUTER#outer]\n[INNER]\nbody\n[/INNER]\n[/OUTER#outer]\n[NEXT]\nn";
    assert_eq!(
        parse_pml(source).unwrap(),
        vec![
            block("OUTER#outer", "text", "[INNER]\nbody\n[/INNER]", true),
            block("NEXT", "text", "n", false),
        ]
    );
}

#[test]
fn short_block_ends_at_next_opening_line() {
    let source = "[A]\none\n[B.C#t:json]\n{}\n";
    assert_eq!(
        parse_pml(source).unwrap(),
        vec![block("A", "text", "one", false), block("B.C#t", "json", "{}", false)]
    );
}

#[test]
fn closing_line_of_another_name_is_an_error() {
    assert_eq!(
        parse_pml("[A#x]\nbody\n[/A#y]"),
        Err(err(3, PmlErrorKind::StrayClosingBlock("A#y".to_string())))
    );
    assert_eq!(
        parse_pml("[A]\nx\n[/B]\n[C]\ny"),
        Err(err(3, PmlErrorKind::StrayClosingBlock("B".to_string())))
    );
}

#[test]
fn closing_line_of_another_name_stays_in_paired_body() {
    assert_eq!(parse_pml("[A]\n[/B]\n[/A]").unwrap(), vec![block("A", "text", "[/B]", true)]);
}

#[test]
fn empty_type_after_colon() {
    assert_eq!(parse_pml("[A:]\nx").unwrap(), vec![block("A", "", "x", false)]);
    assert_eq!(parse_pml("[A:]\nx\n[/A]").unwrap(), vec![block("A", "", "x", true)]);
}

#[test]
fn newlines_are_normalized() {
    assert_eq!(parse_pml("[A]\r\nx\r\ny\rz").unwrap(), vec![block("A", "text", "x\ny\nz", false)]);
}

#[test]
fn blank_lines_between_blocks_are_skipped() {
    assert_eq!(
        parse_pml("\n  \t\n[A]\nx\n[/A]\n\n \n[B]\ny").unwrap(),
        vec![block("A", "text", "x", true), block("B", "text", "y", false)]
    );
}

#[test]
fn unicode_names() {
    assert_eq!(parse_pml("[章节.一]\n内容").unwrap(), vec![block("章节.一", "text", "内容", false)]);
}

#[test]
fn text_before_first_header_is_an_error() {
    assert_eq!(parse_pml("hello\n[A]"), Err(err(1, PmlErrorKind::ExpectedBlockHeader)));
}

#[test]
fn empty_control_line_is_an_error() {
    assert_eq!(parse_pml("[]"), Err(err(1, PmlErrorKind::InvalidControlLine("[]".to_string()))));
}

#[test]
fn half_control_line_is_an_error() {
    assert_eq!(parse_pml("\n[A"), Err(err(2, PmlErrorKind::InvalidControlLine("[A".to_string()))));
    assert_eq!(parse_pml("A]"), Err(err(1, PmlErrorKind::InvalidControlLine("A]".to_string()))));
}

#[test]
fn attributes_are_not_names() {
    assert_eq!(
        parse_pml("[A key=\"value\"]"),
        Err(err(1, PmlErrorKind::InvalidName("A key=\"value\"".to_string())))
    );
    assert_eq!(parse_pml("[/A extra]"), Err(err(1, PmlErrorKind::InvalidName("A extra".to_string()))));
}

#[test]
fn malformed_names_are_errors() {
    assert_eq!(parse_pml("[A..B]"), Err(err(1, PmlErrorKind::InvalidName("A..B".to_string()))));
    assert_eq!(parse_pml("[.A]"), Err(err(1, PmlErrorKind::InvalidName(".A".to_string()))));
    assert_eq!(parse_pml("[A#]"), Err(err(1, PmlErrorKind::InvalidName("A#".to_string()))));
    assert_eq!(parse_pml("[A#b#c]"), Err(err(1, PmlErrorKind::InvalidName("A#b#c".to_string()))));
    assert_eq!(parse_pml("[#b]"), Err(err(1, PmlErrorKind::InvalidName("#b".to_string()))));
}

#[test]
fn invalid_types_are_errors() {
    assert_eq!(parse_pml("[A:ya ml]"), Err(err(1, PmlErrorKind::InvalidType("ya ml".to_string()))));
    assert_eq!(parse_pml("[A:b:c]"), Err(err(1, PmlErrorKind::InvalidType("b:c".to_string()))));
}

#[test]
fn stray_closing_line_is_an_error() {
    assert_eq!(parse_pml("[/A]"), Err(err(1, PmlErrorKind::StrayClosingBlock("A".to_string()))));
    assert_eq!(
        parse_pml("[A]\nx\n[/A]\n[/A]"),
        Err(err(4, PmlErrorKind::StrayClosingBlock("A".to_string())))
    );
}

#[test]
fn error_messages_name_the_line() {
    assert_eq!(
        err(12, PmlErrorKind::TypeMismatch { expected: "yaml".to_string(), found: "json".to_string() }).message(),
        "line 12: closing type `json` does not match opening type `yaml`"
    );
    assert_eq!(err(1, PmlErrorKind::ExpectedBlockHeader).message(), "line 1: expected a PML block header");
    assert_eq!(
        err(0, PmlErrorKind::StrayClosingBlock("A".to_string())).message(),
        "line 0: stray closing block `/A`"
    );
    assert_eq!(
        err(105, PmlErrorKind::InvalidTree("root must be an object".to_string())).message(),
        "line 105: invalid PML tree: root must be an object"
    );
}

#[test]
fn unicode_white_space_lines_are_blank() {
    assert_eq!(parse_pml("\u{3000}\u{00A0}\t\n[A]\nx").unwrap(), vec![block("A", "text", "x", false)]);
    assert_eq!(parse_pml("\u{200B}\n[A]"), Err(err(1, PmlErrorKind::ExpectedBlockHeader)));
}

#[test]
fn combining_marks_follow_a_segment_start() {
    assert_eq!(parse_pml("[e\u{301}.x\u{300}#t\u{301}]\nv").unwrap(), vec![block("e\u{301}.x\u{300}#t\u{301}", "text", "v", false)]);
    assert_eq!(parse_pml("[\u{301}e]"), Err(err(1, PmlErrorKind::InvalidName("\u{301}e".to_string()))));
    assert_eq!(parse_pml("[A.\u{301}]"), Err(err(1, PmlErrorKind::InvalidName("A.\u{301}".to_string()))));
    assert_eq!(parse_pml("[A#\u{301}]"), Err(err(1, PmlErrorKind::InvalidName("A#\u{301}".to_string()))));
}
