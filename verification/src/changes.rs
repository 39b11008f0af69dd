//! The change tracker: resolves the engine's changed ranges to the smallest
//! named nodes that contain them, deduplicates repeats, and falls back to
//! counting top-level statements when a pure append surfaces no ranges.

use vstd::prelude::*;
use crate::ast::{AstNode, AstView, ast_view, ast_views, lemma_ast_views_push, lemma_ast_views_len};
use crate::raw::{RawNode, named_children, named_top_count, count_named, lemma_named_children_push};
use crate::normalize::{normalize, normalize_spec, norm_list, lemma_norm_list_push};

verus! {

/// A contiguous region the diff reports as structurally different between
/// the previous and the new tree, in bytes and in (row, column) positions.
#[derive(Clone, Copy, Debug, PartialEq, Eq)]
pub struct ChangedRange {
    pub start_byte: usize,
    pub end_byte: usize,
    pub start_row: usize,
    pub start_col: usize,
    pub end_row: usize,
    pub end_col: usize,
}

impl ChangedRange {
    /// Assemble a range from its six coordinates.
    pub fn new(
        start_byte: usize,
        end_byte: usize,
        start_row: usize,
        start_col: usize,
        end_row: usize,
        end_col: usize,
    ) -> (r: ChangedRange)
        ensures
            r == (ChangedRange { start_byte, end_byte, start_row, start_col, end_row, end_col }),
    {
        ChangedRange { start_byte, end_byte, start_row, start_col, end_row, end_col }
    }
}

/// A node contains a range when its byte span covers it entirely.
pub open spec fn node_contains_range(n: RawNode, r: ChangedRange) -> bool {
    n.start_byte <= r.start_byte && n.end_byte >= r.end_byte
}

/// The smallest named node whose span fully contains the range: descend into
/// the first child (in document order) that still contains it; when no child
/// does, the node itself answers if it is named.
pub open spec fn find_smallest_spec(n: RawNode, r: ChangedRange) -> Option<RawNode>
    decreases n,
{
    if !node_contains_range(n, r) {
        None
    } else {
        match find_in_children(n.children@, r) {
            Option::Some(m) => Option::Some(m),
            Option::None => if n.named {
                Option::Some(n)
            } else {
                Option::None
            },
        }
    }
}

/// The first hit among a run of siblings, scanning left to right.
pub open spec fn find_in_children(cs: Seq<RawNode>, r: ChangedRange) -> Option<RawNode>
    decreases cs,
{
    if cs.len() == 0 {
        Option::None
    } else {
        match find_smallest_spec(cs.first(), r) {
            Option::Some(m) => Option::Some(m),
            Option::None => find_in_children(cs.drop_first(), r),
        }
    }
}

proof fn lemma_find_in_children_skip(cs: Seq<RawNode>, r: ChangedRange, i: int)
    requires
        0 <= i <= cs.len(),
        find_in_children(cs.take(i), r) is None,
    ensures
        find_in_children(cs, r) == find_in_children(cs.skip(i), r),
    decreases i,
{
    if i == 0 {
        assert(cs.skip(0) =~= cs);
    } else {
        let t = cs.take(i);
        assert(t.len() == i);
        assert(t.first() == cs.first());
        assert(find_smallest_spec(cs.first(), r) is None);
        assert(find_in_children(t.drop_first(), r) is None);
        assert(t.drop_first() =~= cs.drop_first().take(i - 1));
        lemma_find_in_children_skip(cs.drop_first(), r, i - 1);
        assert(cs.drop_first().skip(i - 1) =~= cs.skip(i));
        assert(find_in_children(cs, r) == find_in_children(cs.drop_first(), r));
    }
}

/// Find the smallest named node of this tree containing the range.
pub fn find_smallest<'a>(n: &'a RawNode, r: &ChangedRange) -> (res: Option<&'a RawNode>)
    ensures
        match res {
            Option::Some(m) => find_smallest_spec(*n, *r) == Option::Some(*m),
            Option::None => find_smallest_spec(*n, *r) is None,
        },
    decreases *n,
{
    if !(n.start_byte <= r.start_byte && n.end_byte >= r.end_byte) {
        return None;
    }
    let mut i: usize = 0;
    while i < n.children.len()
        invariant
            i <= n.children@.len(),
            node_contains_range(*n, *r),
            find_in_children(n.children@.take(i as int), *r) is None,
        decreases n.children@.len() - i,
    {
        let hit = find_smallest(&n.children[i], r);
        match hit {
            Option::Some(m) => {
                proof {
                    lemma_find_in_children_skip(n.children@, *r, i as int);
                    assert(n.children@.skip(i as int).len() > 0);
                    assert(n.children@.skip(i as int).first() == n.children@[i as int]);
                }
                return Some(m);
            },
            Option::None => {
                proof {
                    let c = n.children@[i as int];
                    let t = n.children@.take(i as int + 1);
                    assert(t.take(i as int) =~= n.children@.take(i as int));
                    lemma_find_in_children_skip(t, *r, i as int);
                    assert(t.skip(i as int) =~= seq![c]);
                    assert(find_in_children(seq![c], *r) is None) by {
                        assert(find_smallest_spec(c, *r) is None);
                        assert(seq![c].first() == c);
                        assert(seq![c].drop_first() =~= Seq::<RawNode>::empty());
                        assert(find_in_children(Seq::<RawNode>::empty(), *r) is None);
                    };
                }
            },
        }
        i += 1;
    }
    proof {
        assert(n.children@.take(n.children@.len() as int) =~= n.children@);
    }
    if n.named {
        Some(n)
    } else {
        None
    }
}

/// Two attributed nodes repeat when their byte extents coincide.
pub open spec fn view_same_extent(a: AstView, b: AstView) -> bool {
    a.start_byte == b.start_byte && a.end_byte == b.end_byte
}

/// Whether some node before position i in the run shares i's byte extent.
pub open spec fn extent_repeats(s: Seq<AstView>, i: int) -> bool {
    exists|j: int| 0 <= j < i && view_same_extent(#[trigger] s[j], s[i])
}

/// Keep the first node of each byte extent, in order; drop every later
/// node whose extent occurred before, wherever it occurred.
pub open spec fn dedup_views(s: Seq<AstView>) -> Seq<AstView>
    decreases s.len(),
{
    if s.len() == 0 {
        Seq::empty()
    } else if extent_repeats(s, s.len() - 1) {
        dedup_views(s.drop_last())
    } else {
        dedup_views(s.drop_last()).push(s.last())
    }
}

/// Whether a kept node with exactly this byte extent exists already.
fn extent_seen(out: &Vec<AstNode>, sb: usize, eb: usize) -> (r: bool)
    ensures
        r == exists|k: int|
            0 <= k < out@.len() && (#[trigger] out@[k]).start_byte == sb && out@[k].end_byte
                == eb,
{
    let mut k: usize = 0;
    while k < out.len()
        invariant
            k <= out@.len(),
            forall|j: int|
                0 <= j < k ==> !((#[trigger] out@[j]).start_byte == sb && out@[j].end_byte
                    == eb),
        decreases out@.len() - k,
    {
        if out[k].start_byte == sb && out[k].end_byte == eb {
            return true;
        }
        k += 1;
    }
    false
}

/// Every reported node is one of the collected ones.
pub proof fn lemma_dedup_views_elements(s: Seq<AstView>)
    ensures
        forall|k: int|
            0 <= k < dedup_views(s).len() ==> exists|j: int|
                0 <= j < s.len() && (#[trigger] dedup_views(s)[k]) == #[trigger] s[j],
    decreases s.len(),
{
    if s.len() > 0 {
        lemma_dedup_views_elements(s.drop_last());
        let out = dedup_views(s);
        let pre = dedup_views(s.drop_last());
        assert forall|k: int|
            0 <= k < out.len() implies exists|j: int|
                0 <= j < s.len() && (#[trigger] out[k]) == #[trigger] s[j] by {
            if extent_repeats(s, s.len() - 1) || k < out.len() - 1 {
                let j = choose|j: int|
                    0 <= j < s.drop_last().len() && (#[trigger] pre[k]) == #[trigger] s.drop_last()[j];
                assert(out[k] == s[j]);
            } else {
                assert(out[k] == s[s.len() - 1]);
            }
        };
    }
}

/// Deduplication keeps exactly the byte extents of its input: some kept
/// node shares an extent with `x` exactly when some collected node does.
proof fn lemma_dedup_extent_set(s: Seq<AstView>, x: AstView)
    ensures
        (exists|j: int| 0 <= j < s.len() && view_same_extent(#[trigger] s[j], x)) <==> (exists|
        k: int|
            0 <= k < dedup_views(s).len() && view_same_extent(#[trigger] dedup_views(s)[k], x)),
    decreases s.len(),
{
    if s.len() > 0 {
        lemma_dedup_extent_set(s.drop_last(), x);
        let out = dedup_views(s);
        let pre = dedup_views(s.drop_last());
        let last = s[s.len() - 1];
        if exists|j: int| 0 <= j < s.len() && view_same_extent(#[trigger] s[j], x) {
            let j = choose|j: int| 0 <= j < s.len() && view_same_extent(#[trigger] s[j], x);
            if j < s.len() - 1 || extent_repeats(s, s.len() - 1) {
                assert(exists|j2: int|
                    0 <= j2 < s.drop_last().len() && view_same_extent(
                        #[trigger] s.drop_last()[j2],
                        x,
                    )) by {
                    if j < s.len() - 1 {
                        assert(view_same_extent(s.drop_last()[j], x));
                    } else {
                        let m = choose|m: int|
                            0 <= m < s.len() - 1 && view_same_extent(#[trigger] s[m], last);
                        assert(view_same_extent(s.drop_last()[m], x));
                    }
                };
                let k = choose|k: int|
                    0 <= k < pre.len() && view_same_extent(#[trigger] pre[k], x);
                if extent_repeats(s, s.len() - 1) {
                    assert(view_same_extent(out[k], x));
                } else {
                    assert(out[k] == pre[k]);
                    assert(view_same_extent(out[k], x));
                }
            } else {
                assert(out == pre.push(last));
                assert(view_same_extent(out[out.len() - 1], x));
            }
        }
        if exists|k: int| 0 <= k < out.len() && view_same_extent(#[trigger] out[k], x) {
            let k = choose|k: int| 0 <= k < out.len() && view_same_extent(#[trigger] out[k], x);
            if extent_repeats(s, s.len() - 1) {
                assert(view_same_extent(pre[k], x));
                let j = choose|j: int|
                    0 <= j < s.drop_last().len() && view_same_extent(#[trigger] s.drop_last()[j], x);
                assert(view_same_extent(s[j], x));
            } else if k < out.len() - 1 {
                assert(out[k] == pre[k]);
                let j = choose|j: int|
                    0 <= j < s.drop_last().len() && view_same_extent(#[trigger] s.drop_last()[j], x);
                assert(view_same_extent(s[j], x));
            } else {
                assert(out[k] == last);
                assert(view_same_extent(s[s.len() - 1], x));
            }
        }
    }
}

/// Remove every node whose byte extent repeats that of an earlier one.
#[verifier::rlimit(30)]
fn dedup_nodes(nodes: Vec<AstNode>) -> (r: Vec<AstNode>)
    ensures
        ast_views(r@) == dedup_views(ast_views(nodes@)),
{
    let ghost orig = nodes@;
    let mut v = nodes;
    let mut out: Vec<AstNode> = Vec::new();
    let ghost mut i: int = 0;
    proof {
        lemma_ast_views_len(orig);
    }
    while v.len() > 0
        invariant
            0 <= i,
            i + v@.len() == orig.len(),
            v@ == orig.skip(i),
            out@.len() <= i,
            ast_views(out@) == dedup_views(ast_views(orig.take(i))),
        decreases v@.len(),
    {
        let x = v.remove(0);
        let ghost pre_out = out@;
        let ghost prev = ast_views(orig.take(i));
        let ghost tv = ast_views(orig.take(i + 1));
        proof {
            assert(x == orig[i]);
            assert(v@ =~= orig.skip(i + 1));
            lemma_ast_views_push(orig.take(i), orig[i]);
            assert(orig.take(i + 1) =~= orig.take(i).push(orig[i]));
            lemma_ast_views_len(orig.take(i));
            lemma_ast_views_len(pre_out);
            assert(tv == prev.push(ast_view(x)));
            assert(tv.drop_last() =~= prev);
            assert(tv.last() == ast_view(x));
            assert(ast_view(x).start_byte == x.start_byte && ast_view(x).end_byte == x.end_byte);
            assert forall|k: int|
                0 <= k < pre_out.len() implies (#[trigger] ast_views(pre_out)[k]).start_byte
                    == pre_out[k].start_byte && ast_views(pre_out)[k].end_byte
                    == pre_out[k].end_byte by {
                crate::ast::lemma_ast_views_index(pre_out, k);
            };
        }
        let seen = extent_seen(&out, x.start_byte, x.end_byte);
        proof {
            lemma_dedup_extent_set(prev, ast_view(x));
            if seen {
                let k = choose|k: int|
                    0 <= k < pre_out.len() && (#[trigger] pre_out[k]).start_byte == x.start_byte
                        && pre_out[k].end_byte == x.end_byte;
                assert(view_same_extent(ast_views(pre_out)[k], ast_view(x)));
                let j = choose|j: int|
                    0 <= j < prev.len() && view_same_extent(#[trigger] prev[j], ast_view(x));
                assert(view_same_extent(tv[j], tv[i]));
                assert(extent_repeats(tv, i));
                assert(dedup_views(tv) == dedup_views(prev));
            } else {
                if extent_repeats(tv, i) {
                    let j = choose|j: int|
                        0 <= j < i && view_same_extent(#[trigger] tv[j], tv[i]);
                    assert(view_same_extent(prev[j], ast_view(x)));
                    let k = choose|k: int|
                        0 <= k < dedup_views(prev).len() && view_same_extent(
                            #[trigger] dedup_views(prev)[k],
                            ast_view(x),
                        );
                    assert(view_same_extent(ast_views(pre_out)[k], ast_view(x)));
                    assert(pre_out[k].start_byte == x.start_byte && pre_out[k].end_byte
                        == x.end_byte);
                    assert(false);
                }
                assert(dedup_views(tv) == dedup_views(prev).push(ast_view(x)));
            }
        }
        if !seen {
            out.push(x);
            proof {
                lemma_ast_views_push(pre_out, x);
            }
        }
        proof {
            i = i + 1;
        }
    }
    proof {
        assert(orig.take(orig.len() as int) =~= orig);
    }
    out
}

/// Normalize each range's smallest containing named node, in range order.
pub open spec fn collect_hits(root: RawNode, ranges: Seq<ChangedRange>, src: Seq<u8>) -> Seq<
    AstView,
>
    decreases ranges.len(),
{
    if ranges.len() == 0 {
        Seq::empty()
    } else {
        let pre = collect_hits(root, ranges.drop_last(), src);
        match find_smallest_spec(root, ranges.last()) {
            Option::Some(m) => pre.push(normalize_spec(m, src)),
            Option::None => pre,
        }
    }
}

/// What the change tracker reports: with ranges, the deduplicated smallest
/// containing nodes; without, the top-level named children past the old
/// count, deduplicated likewise; otherwise nothing. Either way no byte
/// extent occurs twice.
pub open spec fn changed_nodes_spec(
    root: RawNode,
    ranges: Seq<ChangedRange>,
    old_count: nat,
    src: Seq<u8>,
) -> Seq<AstView> {
    if ranges.len() > 0 {
        dedup_views(collect_hits(root, ranges, src))
    } else if named_top_count(root) > old_count {
        dedup_views(norm_list(named_children(root.children@).skip(old_count as int), src))
    } else {
        Seq::empty()
    }
}

/// Normalize the top-level named children from the given named index on.
fn normalize_named_from(root: &RawNode, from: usize, src: &Vec<u8>) -> (r: Vec<AstNode>)
    requires
        from <= named_children(root.children@).len(),
    ensures
        ast_views(r@) == norm_list(named_children(root.children@).skip(from as int), src@),
{
    let mut out: Vec<AstNode> = Vec::new();
    let mut named_seen: usize = 0;
    let mut i: usize = 0;
    while i < root.children.len()
        invariant
            i <= root.children@.len(),
            named_seen <= i,
            named_seen == named_children(root.children@.take(i as int)).len(),
            from <= named_seen ==> ast_views(out@) == norm_list(
                named_children(root.children@.take(i as int)).skip(from as int),
                src@,
            ),
            named_seen < from ==> out@.len() == 0,
        decreases root.children@.len() - i,
    {
        let ghost pre_named = named_children(root.children@.take(i as int));
        proof {
            lemma_named_children_push(root.children@.take(i as int), root.children@[i as int]);
            assert(root.children@.take(i as int + 1) =~= root.children@.take(i as int).push(
                root.children@[i as int],
            ));
        }
        let c = &root.children[i];
        if c.named {
            if named_seen >= from {
                let a = normalize(c, src);
                let ghost pre_out = out@;
                out.push(a);
                proof {
                    lemma_ast_views_push(pre_out, a);
                    lemma_norm_list_push(pre_named.skip(from as int), *c, src@);
                    assert(pre_named.push(*c).skip(from as int) =~= pre_named.skip(
                        from as int,
                    ).push(*c));
                }
            } else {
                proof {
                    if from <= named_seen + 1 {
                        assert(pre_named.push(*c).skip(from as int) =~= Seq::<RawNode>::empty());
                        assert(out@ =~= Seq::<AstNode>::empty());
                    }
                }
            }
            named_seen += 1;
        }
        i += 1;
    }
    proof {
        assert(root.children@.take(root.children@.len() as int) =~= root.children@);
    }
    out
}

/// Resolve the engine's changed ranges (or the growth fallback) to the
/// attributed nodes that changed.
pub fn extract_changed_nodes(
    root: &RawNode,
    ranges: &Vec<ChangedRange>,
    old_count: usize,
    src: &Vec<u8>,
) -> (r: Vec<AstNode>)
    ensures
        ast_views(r@) == changed_nodes_spec(*root, ranges@, old_count as nat, src@),
{
    if ranges.len() > 0 {
        let mut hits: Vec<AstNode> = Vec::new();
        let mut k: usize = 0;
        while k < ranges.len()
            invariant
                k <= ranges@.len(),
                ast_views(hits@) == collect_hits(*root, ranges@.take(k as int), src@),
            decreases ranges@.len() - k,
        {
            proof {
                assert(ranges@.take(k as int + 1).drop_last() =~= ranges@.take(k as int));
            }
            match find_smallest(root, &ranges[k]) {
                Option::Some(m) => {
                    let a = normalize(m, src);
                    let ghost pre = hits@;
                    hits.push(a);
                    proof {
                        lemma_ast_views_push(pre, a);
                    }
                },
                Option::None => {},
            }
            k += 1;
        }
        proof {
            assert(ranges@.take(ranges@.len() as int) =~= ranges@);
        }
        dedup_nodes(hits)
    } else {
        let total = count_named(&root.children);
        if total > old_count {
            dedup_nodes(normalize_named_from(root, old_count, src))
        } else {
            let r: Vec<AstNode> = Vec::new();
            proof {
                assert(ast_views(r@) =~= Seq::<AstView>::empty());
            }
            r
        }
    }
}

} // verus!
