//! The trusted boundary: declarations of the parsing engine's types, names
//! for what its deterministic calls return, and thin wrappers around the
//! engine calls the library makes. Verus believes what is stated here; every
//! other function in the crate is verified against it.

use vstd::prelude::*;
use crate::ast::{NodeFlags, Span};
use crate::buffer::{EditDescriptor, append_edit_spec};
use crate::changes::ChangedRange;
use crate::raw::{RawNode, raw_extents_within};

verus! {

#[verifier::external_type_specification]
#[verifier::external_body]
pub struct ExParser(tree_sitter::Parser);

#[verifier::external_type_specification]
#[verifier::external_body]
pub struct ExTree(tree_sitter::Tree);

#[verifier::external_type_specification]
#[verifier::external_body]
pub struct ExNode<'tree>(tree_sitter::Node<'tree>);

/// The model of the engine's parse of a text. The engine is deterministic —
/// no randomness, time, or environment enters a parse — so the tree, and
/// the model the walk below reads out of it, is a function of the grammar
/// and the text alone.
pub uninterp spec fn bash_raw_of(text: Seq<u8>) -> RawNode;

/// Whether an engine handle is as `new_bash_parser` returns it: the shell
/// grammar configured, no cancellation or timeout set.
pub uninterp spec fn bash_ready(p: tree_sitter::Parser) -> bool;

/// Whether a tree handle's bookkeeping stands for exactly this text: the
/// tree came from parsing the text, or from such a tree by recording, via
/// `tree_edit`, each append that led to this text. The engine conditions
/// reuse correctness on edits that track the source like this.
pub uninterp spec fn tree_models(t: tree_sitter::Tree, text: Seq<u8>) -> bool;

/// Relies on tree_sitter::Parser::new and Parser::set_language with
/// tree_sitter_bash::LANGUAGE: set_language performs a deterministic
/// version-range check, and the vendored grammar's version lies in the
/// vendored engine's supported range (the grammar crate's own test loads it
/// exactly so), so configuration succeeds.
#[verifier::external_body]
pub(crate) fn new_bash_parser() -> (r: Option<tree_sitter::Parser>)
    ensures
        r is Some,
        bash_ready(r->0),
{
    let mut p = tree_sitter::Parser::new();
    match p.set_language(&tree_sitter_bash::LANGUAGE.into()) {
        Ok(()) => Some(p),
        Err(_) => None,
    }
}

/// Relies on tree_sitter::Parser::parse and the node walk below. A parser
/// with a language set and no cancellation always returns a tree. The
/// engine reuses subtrees of `prev` and is faithful only when the old
/// tree's recorded edits exactly track the text — its documented
/// condition — so the reuse seed must be None or a tree standing for this
/// very text; the reparse then matches the from-scratch parse, a function
/// of the text alone, and every node's byte extent lies within the text.
#[verifier::external_body]
pub(crate) fn parse_to_raw(
    p: &mut tree_sitter::Parser,
    text: &Vec<u8>,
    prev: Option<&tree_sitter::Tree>,
) -> (r: Option<(tree_sitter::Tree, RawNode)>)
    requires
        bash_ready(*old(p)),
        prev matches Some(t) ==> tree_models(*t, text@),
    ensures
        bash_ready(*final(p)),
        r is Some,
        (r->0).1 == bash_raw_of(text@),
        tree_models((r->0).0, text@),
        raw_extents_within((r->0).1, text@.len()),
{
    p.parse(text.as_slice(), prev).map(
        |t| {
            let raw = raw_of_node(&t.root_node(), None);
            (t, raw)
        },
    )
}

/// Relies on tree_sitter::Node::{child_count, child, field_name_for_child}:
/// reads a whole subtree into the library's model, every child in document
/// order, converting one node at a time and deciding nothing.
#[verifier::external_body]
fn raw_of_node(n: &tree_sitter::Node<'_>, field: Option<Vec<u8>>) -> RawNode {
    let mut children = Vec::new();
    for i in 0..n.child_count() {
        if let Some(c) = n.child(i) {
            let f = n.field_name_for_child(i).map(|s| s.as_bytes().to_vec());
            children.push(raw_of_node(&c, f));
        }
    }
    node_record(n, field, children)
}

/// Relies on tree_sitter::Node::{kind, start_byte, end_byte, is_named}: one
/// node's own attributes, moved into the model record.
#[verifier::external_body]
fn node_record(
    n: &tree_sitter::Node<'_>,
    field: Option<Vec<u8>>,
    children: Vec<RawNode>,
) -> RawNode {
    RawNode {
        kind: n.kind().as_bytes().to_vec(),
        start_byte: n.start_byte(),
        end_byte: n.end_byte(),
        span: node_span(n),
        named: n.is_named(),
        flags: node_flags(n),
        field,
        children,
    }
}

/// Relies on tree_sitter::Node::{start_position, end_position}: the
/// zero-based (row, column) rectangle the node covers.
#[verifier::external_body]
fn node_span(n: &tree_sitter::Node<'_>) -> Span {
    let s = n.start_position();
    let e = n.end_position();
    Span { start_row: s.row, start_col: s.column, end_row: e.row, end_col: e.column }
}

/// Relies on tree_sitter::Node::{is_missing, is_extra, is_error, has_error}:
/// the four error-recovery flags.
#[verifier::external_body]
fn node_flags(n: &tree_sitter::Node<'_>) -> NodeFlags {
    NodeFlags {
        is_missing: n.is_missing(),
        is_extra: n.is_extra(),
        is_error: n.is_error(),
        has_error: n.has_error(),
    }
}

/// Relies on Clone for tree_sitter::Tree: an independent copy of the whole
/// handle, bookkeeping included — it stands for whatever the original
/// stands for, and editing it leaves the original untouched.
#[verifier::external_body]
pub(crate) fn tree_clone(t: &tree_sitter::Tree) -> (r: tree_sitter::Tree)
    ensures
        forall|text: Seq<u8>| #[trigger] tree_models(*t, text) ==> tree_models(r, text),
{
    t.clone()
}

/// Relies on tree_sitter::Tree::edit: records one append in the tree's
/// bookkeeping so a reparse can tell which subtrees are stale. A tree
/// standing for the old text then stands for the new one, provided the new
/// text extends the old and the descriptor is exactly the one an append
/// computes — column-0 position approximation included, which thereby is
/// the recorded edit the engine's reuse goes by.
#[verifier::external_body]
pub(crate) fn tree_edit(t: &mut tree_sitter::Tree, e: &EditDescriptor)
    ensures
        forall|old_text: Seq<u8>, new_text: Seq<u8>|
            #![trigger tree_models(*old(t), old_text), append_edit_spec(old_text, new_text)]
            tree_models(*old(t), old_text) && old_text.len() <= new_text.len() && new_text.take(
                old_text.len() as int,
            ) == old_text && *e == append_edit_spec(old_text, new_text) ==> tree_models(
                *final(t),
                new_text,
            ),
{
    t.edit(&tree_sitter::InputEdit {
        start_byte: e.start_byte,
        old_end_byte: e.old_end_byte,
        new_end_byte: e.new_end_byte,
        start_position: tree_sitter::Point { row: e.start_row, column: e.start_col },
        old_end_position: tree_sitter::Point { row: e.old_end_row, column: e.old_end_col },
        new_end_position: tree_sitter::Point { row: e.new_end_row, column: e.new_end_col },
    });
}

/// Relies on tree_sitter::Tree::changed_ranges: the regions, in order, where
/// the new tree's structure differs from the edited previous tree's.
#[verifier::external_body]
pub(crate) fn changed_ranges(
    new_tree: &tree_sitter::Tree,
    old_tree: &tree_sitter::Tree,
) -> Vec<ChangedRange> {
    new_tree.changed_ranges(old_tree).map(
        |r| ChangedRange::new(
            r.start_byte,
            r.end_byte,
            r.start_point.row,
            r.start_point.column,
            r.end_point.row,
            r.end_point.column,
        ),
    ).collect()
}

} // verus!
