use bash_parser::ast::{FieldValue, NodeFlags, Span};
use bash_parser::changes::{extract_changed_nodes, find_smallest, ChangedRange};
use bash_parser::normalize::normalize;
use bash_parser::raw::RawNode;

fn flags() -> NodeFlags {
    NodeFlags { is_missing: false, is_extra: false, is_error: false, has_error: false }
}

fn leaf(kind: &str, named: bool, field: Option<&str>, start: usize, end: usize) -> RawNode {
    RawNode {
        kind: kind.as_bytes().to_vec(),
        start_byte: start,
        end_byte: end,
        span: Span { start_row: 0, start_col: start, end_row: 0, end_col: end },
        named,
        flags: flags(),
        field: field.map(|f| f.as_bytes().to_vec()),
        children: Vec::new(),
    }
}

fn with_children(mut n: RawNode, cs: Vec<RawNode>) -> RawNode {
    n.children = cs;
    n
}

fn range(start: usize, end: usize) -> ChangedRange {
    ChangedRange {
        start_byte: start,
        end_byte: end,
        start_row: 0,
        start_col: start,
        end_row: 0,
        end_col: end,
    }
}

#[test]
fn normalize_groups_fields_and_drops_anonymous() {
    let src = b"abcdefgh".to_vec();
    let raw = with_children(
        leaf("node", true, None, 0, 8),
        vec![
            leaf("w", true, Some("arg"), 0, 1),
            leaf("w", true, Some("arg"), 1, 2),
            leaf("w", true, Some("name"), 2, 3),
            leaf(";", false, None, 3, 4),
            leaf("w", true, None, 4, 5),
        ],
    );
    let a = normalize(&raw, &src);
    assert_eq!(a.kind, b"node".to_vec());
    assert_eq!(a.text, b"abcdefgh".to_vec());
    assert_eq!(a.fields.len(), 2);
    assert_eq!(a.fields[0].0, b"arg".to_vec());
    match &a.fields[0].1 {
        FieldValue::Multiple(l) => {
            assert_eq!(l.len(), 2);
            assert_eq!(l[0].text, b"a".to_vec());
            assert_eq!(l[1].text, b"b".to_vec());
        }
        FieldValue::Single(_) => panic!("a repeated field must come back as a run"),
    }
    assert_eq!(a.fields[1].0, b"name".to_vec());
    match &a.fields[1].1 {
        FieldValue::Single(n) => assert_eq!(n.text, b"c".to_vec()),
        FieldValue::Multiple(_) => panic!("a once-bound field must come back single"),
    }
    assert_eq!(a.unnamed_children.len(), 1);
    assert_eq!(a.unnamed_children[0].text, b"e".to_vec());
}

#[test]
fn normalize_degrades_bad_span_to_empty_text() {
    let src = b"ab".to_vec();
    let raw = leaf("node", true, None, 1, 9);
    let a = normalize(&raw, &src);
    assert_eq!(a.text, b"".to_vec());
    assert_eq!(a.start_byte, 1);
    assert_eq!(a.end_byte, 9);
}

#[test]
fn find_smallest_prefers_the_deepest_named_node() {
    let src_len = 14;
    let inner = leaf("word", true, None, 7, 9);
    let cmd_b = with_children(leaf("command", true, None, 7, 13), vec![inner]);
    let cmd_a = leaf("command", true, None, 0, 6);
    let root = with_children(leaf("program", true, None, 0, src_len), vec![cmd_a, cmd_b]);
    let hit = find_smallest(&root, &range(8, 9)).expect("a containing node exists");
    assert_eq!(hit.kind, b"word".to_vec());
    let hit2 = find_smallest(&root, &range(5, 9)).expect("only the root spans both");
    assert_eq!(hit2.kind, b"program".to_vec());
    assert!(find_smallest(&root, &range(13, 20)).is_none());
}

#[test]
fn changed_nodes_from_ranges_dedupe() {
    let src = b"echo 1\necho 2\n".to_vec();
    let cmd_a = leaf("command", true, None, 0, 6);
    let cmd_b = leaf("command", true, None, 7, 13);
    let root = with_children(leaf("program", true, None, 0, 14), vec![cmd_a, cmd_b]);
    let ranges = vec![range(7, 9), range(10, 12)];
    let changed = extract_changed_nodes(&root, &ranges, 0, &src);
    assert_eq!(changed.len(), 1);
    assert_eq!(changed[0].text, b"echo 2".to_vec());
}

#[test]
fn changed_nodes_fallback_on_growth() {
    let src = b"echo 1\necho 2\n".to_vec();
    let cmd_a = leaf("command", true, None, 0, 6);
    let semi = leaf(";", false, None, 6, 7);
    let cmd_b = leaf("command", true, None, 7, 13);
    let root = with_children(leaf("program", true, None, 0, 14), vec![cmd_a, semi, cmd_b]);
    let no_ranges: Vec<ChangedRange> = Vec::new();
    let changed = extract_changed_nodes(&root, &no_ranges, 1, &src);
    assert_eq!(changed.len(), 1);
    assert_eq!(changed[0].text, b"echo 2".to_vec());
    let unchanged = extract_changed_nodes(&root, &no_ranges, 2, &src);
    assert!(unchanged.is_empty());
}

#[test]
fn changed_nodes_dedupe_is_global() {
    let src = b"echo 1\necho 2\n".to_vec();
    let cmd_a = leaf("command", true, None, 0, 6);
    let cmd_b = leaf("command", true, None, 7, 13);
    let root = with_children(leaf("program", true, None, 0, 14), vec![cmd_a, cmd_b]);
    let ranges = vec![range(1, 2), range(8, 9), range(3, 4)];
    let changed = extract_changed_nodes(&root, &ranges, 0, &src);
    assert_eq!(changed.len(), 2);
    assert_eq!(changed[0].text, b"echo 1".to_vec());
    assert_eq!(changed[1].text, b"echo 2".to_vec());
}

#[test]
fn growth_fallback_dedupes_repeated_extents() {
    let src = b"echo 1\necho 2\n".to_vec();
    let cmd_a = leaf("command", true, None, 0, 6);
    let cmd_b = leaf("command", true, None, 7, 13);
    let ghost_b = leaf("comment", true, None, 7, 13);
    let root = with_children(leaf("program", true, None, 0, 14), vec![cmd_a, cmd_b, ghost_b]);
    let no_ranges: Vec<ChangedRange> = Vec::new();
    let changed = extract_changed_nodes(&root, &no_ranges, 0, &src);
    assert_eq!(changed.len(), 2);
    assert_eq!(changed[0].text, b"echo 1".to_vec());
    assert_eq!(changed[1].kind, b"command".to_vec());
}
