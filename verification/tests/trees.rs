use lib::{
    blocks_to_tree, parse_pml, parse_pml_tree, render_pml_tree, tree_to_blocks, PmlBlock, PmlError,
    PmlErrorKind, PmlObject, PmlTreeOptions, PmlTreeValue,
};

fn block(name: &str, ty: &str, content: &str) -> PmlBlock {
    PmlBlock {
        name: name.to_string(),
        ty: ty.to_string(),
        content: content.to_string(),
        paired: false,
    }
}

fn obj(entries: Vec<(&str, PmlTreeValue)>) -> PmlTreeValue {
    let mut o = PmlObject::new();
    for (k, v) in entries {
        o.insert(k.to_string(), v);
    }
    PmlTreeValue::Object(o)
}

fn s(x: &str) -> PmlTreeValue {
    PmlTreeValue::String(x.to_string())
}

fn leaf(ty: &str, content: &str, order: i64) -> Vec<(&'static str, PmlTreeValue)> {
    vec![("$type", s(ty)), ("$content", s(content)), ("$order", PmlTreeValue::Integer(order))]
}

fn with(mut entries: Vec<(&'static str, PmlTreeValue)>, more: Vec<(&'static str, PmlTreeValue)>) -> Vec<(&'static str, PmlTreeValue)> {
    entries.extend(more);
    entries
}

fn tree_of(source: &str) -> PmlTreeValue {
    parse_pml_tree(source, &PmlTreeOptions::default()).unwrap()
}

fn tree_err(detail: &str) -> PmlError {
    PmlError { line: 0, kind: PmlErrorKind::InvalidTree(detail.to_string()) }
}

#[test]
fn default_prefix_is_dollar() {
    assert_eq!(PmlTreeOptions::default().meta_prefix, "$");
}

#[test]
fn minimal_example_tree() {
    let tree = tree_of("[SYSTEM]\nYou are a rigorous assistant.\n[CONFIG:yaml]\nlang: en\ntone: concise\n");
    let expected = obj(vec![
        ("SYSTEM", obj(leaf("text", "You are a rigorous assistant.", 0))),
        ("CONFIG", obj(leaf("yaml", "lang: en\ntone: concise", 1))),
    ]);
    assert_eq!(tree, expected);
}

#[test]
fn child_joins_parent() {
    let tree = tree_of("[A]\nroot\n[A.B]\nchild");
    let expected = obj(vec![("A", obj(with(leaf("text", "root", 0), vec![("B", obj(leaf("text", "child", 1)))])))]);
    assert_eq!(tree, expected);
}

#[test]
fn siblings_share_implicit_parent() {
    let tree = tree_of("[A.B]\nb\n[A.C]\nc");
    let expected = obj(vec![("A", obj(vec![("B", obj(leaf("text", "b", 0))), ("C", obj(leaf("text", "c", 1)))]))]);
    assert_eq!(tree, expected);
}

#[test]
fn repeated_key_becomes_array() {
    let tree = tree_of("[A]\none\n[A]\ntwo");
    let expected = obj(vec![(
        "A",
        PmlTreeValue::Array(vec![obj(leaf("text", "one", 0)), obj(leaf("text", "two", 1))]),
    )]);
    assert_eq!(tree, expected);
}

#[test]
fn repeated_nested_key_becomes_array() {
    let tree = tree_of("[A.B]\none\n[A.B]\ntwo");
    let expected = obj(vec![(
        "A",
        obj(vec![("B", PmlTreeValue::Array(vec![obj(leaf("text", "one", 0)), obj(leaf("text", "two", 1))]))]),
    )]);
    assert_eq!(tree, expected);
}

#[test]
fn ambiguous_parent_starts_new_branch() {
    let tree = tree_of("[A]\none\n[A]\ntwo\n[A.B]\nthree");
    let expected = obj(vec![(
        "A",
        PmlTreeValue::Array(vec![
            obj(leaf("text", "one", 0)),
            obj(leaf("text", "two", 1)),
            obj(vec![("B", obj(leaf("text", "three", 2)))]),
        ]),
    )]);
    assert_eq!(tree, expected);
}

#[test]
fn numeric_segments_are_plain_keys() {
    let tree = tree_of("[A.1]\nx\n[A.2]\ny");
    let expected = obj(vec![("A", obj(vec![("1", obj(leaf("text", "x", 0))), ("2", obj(leaf("text", "y", 1)))]))]);
    assert_eq!(tree, expected);
}

#[test]
fn tag_is_a_meta_field() {
    let tree = tree_of("[A#outer:toml]\nk = 1");
    let expected = obj(vec![("A", obj(with(leaf("toml", "k = 1", 0), vec![("$tag", s("outer"))])))]);
    assert_eq!(tree, expected);
}

#[test]
fn later_parent_fills_implicit_object() {
    let tree = tree_of("[A.B]\nchild\n[A]\nroot");
    let expected = obj(vec![("A", obj(with(leaf("text", "root", 1), vec![("B", obj(leaf("text", "child", 0)))])))]);
    assert_eq!(tree, expected);
    let options = PmlTreeOptions::default();
    assert_eq!(
        tree_to_blocks(&tree, &options).unwrap(),
        vec![block("A.B", "text", "child"), block("A", "text", "root")]
    );
}

#[test]
fn tree_reads_back_to_blocks() {
    let source = "[A]\none\n[A]\ntwo\n[A.B#t:json]\n{}\n[C.D.E]\ndeep\n[C.D]\nmid\n[C]\ntop\n";
    let blocks = parse_pml(source).unwrap();
    let options = PmlTreeOptions::default();
    let tree = blocks_to_tree(&blocks, &options).unwrap();
    assert_eq!(tree_to_blocks(&tree, &options).unwrap(), blocks);
}

#[test]
fn custom_prefix() {
    let options = PmlTreeOptions { meta_prefix: "@".to_string() };
    let tree = parse_pml_tree("[A]\nx", &options).unwrap();
    let expected = obj(vec![(
        "A",
        obj(vec![("@type", s("text")), ("@content", s("x")), ("@order", PmlTreeValue::Integer(0))]),
    )]);
    assert_eq!(tree, expected);
    assert_eq!(render_pml_tree(&tree, &options).unwrap(), "[A]\nx\n");
}

#[test]
fn empty_prefix_rejects_meta_named_child() {
    let options = PmlTreeOptions { meta_prefix: String::new() };
    assert_eq!(
        parse_pml_tree("[A.type]\nx", &options),
        Err(PmlError { line: 0, kind: PmlErrorKind::MetaFieldConflict("type".to_string()) })
    );
}

#[test]
fn parse_errors_pass_through() {
    assert_eq!(
        parse_pml_tree("oops", &PmlTreeOptions::default()),
        Err(PmlError { line: 1, kind: PmlErrorKind::ExpectedBlockHeader })
    );
}

#[test]
fn root_must_be_an_object() {
    let options = PmlTreeOptions::default();
    assert_eq!(tree_to_blocks(&PmlTreeValue::Null, &options), Err(tree_err("root must be an object")));
    assert_eq!(render_pml_tree(&s("x"), &options), Err(tree_err("root must be an object")));
}

#[test]
fn root_cannot_hold_meta_fields() {
    let tree = obj(vec![("$type", s("text"))]);
    assert_eq!(
        tree_to_blocks(&tree, &PmlTreeOptions::default()),
        Err(tree_err("root object cannot contain meta field `$type`"))
    );
}

#[test]
fn meta_fields_must_have_their_types() {
    let options = PmlTreeOptions::default();
    let t1 = obj(vec![("A", obj(vec![("$type", PmlTreeValue::Integer(1))]))]);
    assert_eq!(tree_to_blocks(&t1, &options), Err(tree_err("meta field `$type` must be a string")));
    let t2 = obj(vec![("A", obj(vec![("$order", PmlTreeValue::Integer(-1))]))]);
    assert_eq!(tree_to_blocks(&t2, &options), Err(tree_err("meta field `$order` must be a non-negative integer")));
    let t3 = obj(vec![("A", obj(vec![("$order", s("1"))]))]);
    assert_eq!(tree_to_blocks(&t3, &options), Err(tree_err("meta field `$order` must be an integer")));
    let t4 = obj(vec![("A", obj(vec![("$tag", PmlTreeValue::Boolean(true))]))]);
    assert_eq!(tree_to_blocks(&t4, &options), Err(tree_err("meta field `$tag` must be a string")));
}

#[test]
fn values_must_be_objects_or_arrays() {
    let options = PmlTreeOptions::default();
    let t1 = obj(vec![("A", obj(vec![("B", s("x"))]))]);
    assert_eq!(tree_to_blocks(&t1, &options), Err(tree_err("path `A.B` must resolve to an object or array")));
    let t2 = obj(vec![("A", PmlTreeValue::Array(vec![PmlTreeValue::Null]))]);
    assert_eq!(tree_to_blocks(&t2, &options), Err(tree_err("array at `A` must contain objects")));
}

#[test]
fn tree_names_must_be_valid() {
    let tree = obj(vec![("bad key", obj(vec![("$content", s("x"))]))]);
    assert_eq!(
        tree_to_blocks(&tree, &PmlTreeOptions::default()),
        Err(PmlError { line: 0, kind: PmlErrorKind::InvalidName("bad key".to_string()) })
    );
}

#[test]
fn tree_blocks_default_type_and_order() {
    let tree = obj(vec![
        ("A", obj(vec![("$content", s("a\r\nb"))])),
        ("B", obj(vec![("$content", s("y")), ("$order", PmlTreeValue::Integer(5)), ("$type", s("MD"))])),
        ("C", PmlTreeValue::Array(vec![PmlTreeValue::Array(vec![obj(vec![("$tag", s("t"))])])])),
    ]);
    assert_eq!(
        tree_to_blocks(&tree, &PmlTreeOptions::default()).unwrap(),
        vec![block("B", "markdown", "y"), block("A", "text", "a\nb"), block("C#t", "text", "")]
    );
}

#[test]
fn renders_tree_as_text() {
    let tree = tree_of("[A]\nroot\n[A.B:json]\n{}\n");
    assert_eq!(render_pml_tree(&tree, &PmlTreeOptions::default()).unwrap(), "[A]\nroot\n[A.B:json]\n{}\n");
}

#[test]
fn object_keeps_keys_in_order() {
    let mut o = PmlObject::new();
    assert_eq!(o.insert("b".to_string(), s("2")), None);
    assert_eq!(o.insert("a".to_string(), s("1")), None);
    assert_eq!(o.insert("b".to_string(), s("3")), Some(s("2")));
    assert_eq!(o.len(), 2);
    assert_eq!(o.key_at(0), "a");
    assert_eq!(o.value_at(1), &s("3"));
    assert_eq!(o.get("a"), Some(&s("1")));
    assert_eq!(o.remove("a"), Some(s("1")));
    assert_eq!(o.get("a"), None);
    assert_eq!(o.len(), 1);
}

#[test]
fn blocks_read_back_from_tree_without_closing_lines() {
    let source = "[A]\nx\n[/A]\n[B.C#k]\ny\n[B.C#k]\nz\n[B]\nw\n[B.C.D]\nv\n";
    let blocks = parse_pml(source).unwrap();
    assert!(blocks[0].paired);
    let options = PmlTreeOptions { meta_prefix: "@".to_string() };
    let tree = blocks_to_tree(&blocks, &options).unwrap();
    let expected: Vec<PmlBlock> = blocks.iter().map(|b| PmlBlock { paired: false, ..b.clone() }).collect();
    assert_eq!(tree_to_blocks(&tree, &options).unwrap(), expected);
}

#[test]
fn tree_values_clone_all_the_way_down() {
    let tree = tree_of("[A]\nx\n[A]\ny\n[A.B#t]\nz\n[C.1]\nw");
    let copy = tree.clone();
    assert_eq!(copy, tree);
    assert_eq!(tree_to_blocks(&copy, &PmlTreeOptions::default()).unwrap(), tree_to_blocks(&tree, &PmlTreeOptions::default()).unwrap());
}
