use bash_parser::ast::{AstNode, FieldValue};
use bash_parser::session::{new_parser, new_parser_with_size, parse_bash, AppendError};

fn walk_collect<'a>(n: &'a AstNode, out: &mut Vec<&'a AstNode>) {
    out.push(n);
    for (_, fv) in &n.fields {
        match fv {
            FieldValue::Single(b) => walk_collect(b, out),
            FieldValue::Multiple(l) => {
                for c in l {
                    walk_collect(c, out);
                }
            }
        }
    }
    for c in &n.unnamed_children {
        walk_collect(c, out);
    }
}

fn any_error_mark(n: &AstNode) -> bool {
    let mut nodes = Vec::new();
    walk_collect(n, &mut nodes);
    nodes.iter().any(|m| m.flags.is_error || m.flags.has_error)
}

#[test]
fn first_parse_reports_program() {
    let mut s = new_parser().unwrap();
    let out = s.parse_incremental(&b"echo hi\n".to_vec()).unwrap();
    assert_eq!(out.root.kind, b"program".to_vec());
    assert_eq!(out.root.text, b"echo hi\n".to_vec());
    assert!(out.changed_ranges.is_empty());
    assert!(!out.root.unnamed_children.is_empty());
    assert_eq!(out.changed_nodes, out.root.unnamed_children);
    assert!(!out.has_errors);
}

#[test]
fn buffer_accumulates_in_call_order() {
    let mut s = new_parser().unwrap();
    s.parse_incremental(&b"echo 1\n".to_vec()).unwrap();
    s.parse_incremental(&b"echo 2\n".to_vec()).unwrap();
    assert_eq!(s.get_accumulated_input(), b"echo 1\necho 2\n".to_vec());
    assert_eq!(s.get_buffer_size(), 14);
}

#[test]
fn overflow_leaves_buffer_unchanged() {
    let mut s = new_parser_with_size(10).unwrap();
    s.parse_incremental(&b"echo hi\n".to_vec()).unwrap();
    assert_eq!(s.get_buffer_size(), 8);
    let r = s.parse_incremental(&b"echo again\n".to_vec());
    match r {
        Err(AppendError::Overflow(e)) => {
            assert_eq!(e.current_size, 8);
            assert_eq!(e.fragment_size, 11);
            assert_eq!(e.max_size, 10);
        }
        _ => panic!("expected an overflow rejection"),
    }
    assert_eq!(s.get_buffer_size(), 8);
    assert_eq!(s.get_accumulated_input(), b"echo hi\n".to_vec());
}

#[test]
fn overflow_on_fresh_session() {
    let mut s = new_parser_with_size(4).unwrap();
    let r = s.parse_incremental(&b"echo hi\n".to_vec());
    match r {
        Err(AppendError::Overflow(e)) => {
            assert_eq!(e.current_size, 0);
            assert_eq!(e.fragment_size, 8);
            assert_eq!(e.max_size, 4);
        }
        _ => panic!("expected an overflow rejection"),
    }
    assert_eq!(s.get_buffer_size(), 0);
}

#[test]
fn second_append_reports_only_the_new_statement() {
    let mut s = new_parser().unwrap();
    let first = s.parse_incremental(&b"echo 1\n".to_vec()).unwrap();
    assert_eq!(first.changed_nodes.len(), 1);
    let out = s.parse_incremental(&b"echo 2\n".to_vec()).unwrap();
    assert_eq!(out.changed_nodes.len(), 1);
    assert_eq!(out.changed_nodes[0].text, b"echo 2".to_vec());
    assert!(out.changed_nodes[0].text != b"echo 1".to_vec());
}

#[test]
fn reset_then_append_matches_fresh_session() {
    let mut s1 = new_parser().unwrap();
    s1.parse_incremental(&b"echo other\n".to_vec()).unwrap();
    s1.reset_parser();
    assert_eq!(s1.get_buffer_size(), 0);
    let r1 = s1.parse_incremental(&b"echo hi\n".to_vec()).unwrap();
    let mut s2 = new_parser().unwrap();
    let r2 = s2.parse_incremental(&b"echo hi\n".to_vec()).unwrap();
    assert_eq!(r1.root, r2.root);
    assert_eq!(r1.changed_nodes, r2.changed_nodes);
    assert_eq!(r1.changed_ranges.len(), r2.changed_ranges.len());
    assert_eq!(r1.has_errors, r2.has_errors);
    assert_eq!(s1.get_accumulated_input(), s2.get_accumulated_input());
}

#[test]
fn has_errors_reflects_error_marks() {
    let mut s = new_parser().unwrap();
    let ok = s.parse_incremental(&b"echo hi\n".to_vec()).unwrap();
    assert!(!s.has_errors());
    assert!(!ok.has_errors);
    assert_eq!(any_error_mark(&ok.root), s.has_errors());
    s.reset_parser();
    let bad = s.parse_incremental(&b"if then ((\n".to_vec()).unwrap();
    assert!(s.has_errors());
    assert!(bad.has_errors);
    assert_eq!(any_error_mark(&bad.root), s.has_errors());
}

#[test]
fn span_text_roundtrip_over_every_node() {
    let mut s = new_parser().unwrap();
    let out = s
        .parse_incremental(&b"if true; then\n  echo yes\nfi\nfor x in a b; do echo $x; done\n".to_vec())
        .unwrap();
    let src = s.get_accumulated_input();
    let mut nodes = Vec::new();
    walk_collect(&out.root, &mut nodes);
    assert!(nodes.len() > 5);
    for n in nodes {
        assert!(n.start_byte <= n.end_byte && n.end_byte <= src.len());
        assert_eq!(n.text, src[n.start_byte..n.end_byte].to_vec());
    }
}

#[test]
fn empty_fragment_parses_empty_program() {
    let mut s = new_parser().unwrap();
    let out = s.parse_incremental(&b"".to_vec()).unwrap();
    assert_eq!(out.root.kind, b"program".to_vec());
    assert_eq!(out.root.text, b"".to_vec());
    assert!(out.changed_ranges.is_empty());
    assert!(out.changed_nodes.is_empty());
    assert_eq!(s.get_buffer_size(), 0);
}

#[test]
fn current_ast_before_and_after_parse() {
    let mut s = new_parser().unwrap();
    assert!(s.get_current_ast().is_err());
    let out = s.parse_incremental(&b"echo hi\n".to_vec()).unwrap();
    let stored = s.get_current_ast().unwrap();
    assert_eq!(stored, out.root);
}

#[test]
fn parse_bash_whole_text() {
    let root = parse_bash(&b"echo hi\n".to_vec()).unwrap();
    assert_eq!(root.kind, b"program".to_vec());
    assert_eq!(root.text, b"echo hi\n".to_vec());
    assert!(!any_error_mark(&root));
}

#[test]
fn parse_bash_surfaces_errors_in_flags() {
    let root = parse_bash(&b"if then ((\n".to_vec()).unwrap();
    assert_eq!(root.kind, b"program".to_vec());
    assert!(any_error_mark(&root));
}

#[test]
fn multiline_spans_report_rows() {
    let mut s = new_parser().unwrap();
    let out = s.parse_incremental(&b"echo one\necho two\n".to_vec()).unwrap();
    assert_eq!(out.root.span.start_row, 0);
    assert_eq!(out.root.span.end_row, 2);
    assert_eq!(out.root.unnamed_children.len(), 2);
    let second = &out.root.unnamed_children[1];
    assert_eq!(second.span.start_row, 1);
    assert_eq!(second.text, b"echo two".to_vec());
}

#[test]
fn command_fields_are_named() {
    let root = parse_bash(&b"echo hi\n".to_vec()).unwrap();
    let cmd = &root.unnamed_children[0];
    assert_eq!(cmd.kind, b"command".to_vec());
    let name_field = cmd
        .fields
        .iter()
        .find(|(k, _)| k == &b"name".to_vec())
        .expect("a command has a name field");
    match &name_field.1 {
        FieldValue::Single(n) => assert_eq!(n.text, b"echo".to_vec()),
        FieldValue::Multiple(_) => panic!("a single name must not come back as a run"),
    }
}

#[test]
fn parse_bash_is_deterministic_in_content() {
    let a = parse_bash(&b"for x in a b; do echo $x; done\n".to_vec()).unwrap();
    let b = parse_bash(&b"for x in a b; do echo $x; done\n".to_vec()).unwrap();
    assert_eq!(a, b);
}
