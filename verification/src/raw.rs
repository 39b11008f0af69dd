//! The library's own model of a native parse-tree node: everything the
//! normalizer and the change tracker read, held as plain values. The trusted
//! boundary reads one out of the engine's tree; all logic over it is
//! verified for every possible value.

use vstd::prelude::*;
use crate::ast::{NodeFlags, Span};

verus! {

/// One native node: its kind tag, byte and position extents, classification
/// flags, the grammar field it occupies in its parent (if any), and all its
/// children, named or not, in document order.
#[derive(Debug, PartialEq, Eq)]
pub struct RawNode {
    pub kind: Vec<u8>,
    pub start_byte: usize,
    pub end_byte: usize,
    pub span: Span,
    pub named: bool,
    pub flags: NodeFlags,
    pub field: Option<Vec<u8>>,
    pub children: Vec<RawNode>,
}

/// The named children among a run of siblings, in document order.
pub open spec fn named_children(cs: Seq<RawNode>) -> Seq<RawNode> {
    cs.filter(|c: RawNode| c.named)
}

/// How many top-level named children the tree has.
pub open spec fn named_top_count(r: RawNode) -> nat {
    named_children(r.children@).len()
}

pub broadcast proof fn lemma_named_children_push(cs: Seq<RawNode>, c: RawNode)
    ensures
        #[trigger] named_children(cs.push(c)) == if c.named {
            named_children(cs).push(c)
        } else {
            named_children(cs)
        },
{
    reveal(Seq::filter);
    assert(cs.push(c).drop_last() =~= cs);
    assert(cs.push(c).last() == c);
}

/// Whether every byte extent in the tree is well-formed and lies within a
/// source of this length.
pub open spec fn raw_extents_within(r: RawNode, len: nat) -> bool
    decreases r,
{
    r.start_byte <= r.end_byte && r.end_byte <= len && forall|i: int|
        0 <= i < r.children@.len() ==> raw_extents_within(#[trigger] r.children@[i], len)
}

/// The named children of in-range siblings are in range themselves.
pub proof fn lemma_named_children_within(cs: Seq<RawNode>, len: nat)
    requires
        forall|j: int| 0 <= j < cs.len() ==> raw_extents_within(#[trigger] cs[j], len),
    ensures
        forall|i: int|
            0 <= i < named_children(cs).len() ==> raw_extents_within(
                #[trigger] named_children(cs)[i],
                len,
            ),
    decreases cs.len(),
{
    reveal(Seq::filter);
    if cs.len() > 0 {
        lemma_named_children_within(cs.drop_last(), len);
        let pre = named_children(cs.drop_last());
        assert forall|i: int|
            0 <= i < named_children(cs).len() implies raw_extents_within(
                #[trigger] named_children(cs)[i],
                len,
            ) by {
            if cs.last().named {
                assert(named_children(cs) == pre.push(cs.last()));
                if i < pre.len() {
                    assert(named_children(cs)[i] == pre[i]);
                } else {
                    assert(named_children(cs)[i] == cs[cs.len() - 1]);
                }
            } else {
                assert(named_children(cs) == pre);
            }
        };
    }
}

/// Count the named nodes in a run of siblings.
pub fn count_named(cs: &Vec<RawNode>) -> (r: usize)
    ensures
        r == named_children(cs@).len(),
{
    let mut n: usize = 0;
    let mut i: usize = 0;
    while i < cs.len()
        invariant
            i <= cs@.len(),
            n == named_children(cs@.take(i as int)).len(),
            n <= i,
        decreases cs@.len() - i,
    {
        proof {
            lemma_named_children_push(cs@.take(i as int), cs@[i as int]);
            assert(cs@.take(i as int + 1) =~= cs@.take(i as int).push(cs@[i as int]));
        }
        if cs[i].named {
            n += 1;
        }
        i += 1;
    }
    proof {
        assert(cs@.take(cs@.len() as int) =~= cs@);
    }
    n
}

} // verus!
