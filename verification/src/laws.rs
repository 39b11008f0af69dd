//! The library's general laws, stated over the same spec functions its
//! contracts use and proved once and for all.

use vstd::prelude::*;
use crate::ast::{AstView, FieldViewValue};
use crate::changes::{
    ChangedRange, changed_nodes_spec, collect_hits, dedup_views, extent_repeats,
    find_in_children, find_smallest_spec, lemma_dedup_views_elements, node_contains_range,
    view_same_extent,
};
use crate::normalize::{
    slice_text, normalize_spec, norm_list, lemma_norm_list_index, lemma_norm_list_len,
    group_children, group_insert, extend_entry,
};
use crate::raw::{
    RawNode, named_children, named_top_count, raw_extents_within, lemma_named_children_within,
};
use crate::session::ParserResource;

verus! {

/// The concatenation of fragments in call order.
pub open spec fn concat_all(frags: Seq<Seq<u8>>) -> Seq<u8>
    decreases frags.len(),
{
    if frags.len() == 0 {
        Seq::empty()
    } else {
        concat_all(frags.drop_last()) + frags.last()
    }
}

/// The buffer after attempting each append in order under the bound: an
/// append that fits extends the buffer by exactly the fragment, one that
/// would overflow leaves it untouched — the per-call behavior that
/// `ParserResource::parse_incremental` ensures.
pub open spec fn run_appends(frags: Seq<Seq<u8>>, max: nat) -> Seq<u8>
    decreases frags.len(),
{
    if frags.len() == 0 {
        Seq::empty()
    } else {
        let pre = run_appends(frags.drop_last(), max);
        if pre.len() + frags.last().len() <= max {
            pre + frags.last()
        } else {
            pre
        }
    }
}

/// Law: one more append takes the modeled buffer of a fragment history to
/// the modeled buffer of the extended history — growing by exactly the
/// fragment when it fits, staying put when it would overflow. This is, step
/// for step, what `ParserResource::parse_incremental` ensures of the
/// session's buffer, so a chain of calls walks this model.
pub proof fn lemma_append_step(frags: Seq<Seq<u8>>, f: Seq<u8>, max: nat)
    ensures
        run_appends(frags.push(f), max) == (if run_appends(frags, max).len() + f.len() <= max {
            run_appends(frags, max) + f
        } else {
            run_appends(frags, max)
        }),
{
    assert(frags.push(f).drop_last() =~= frags);
    assert(frags.push(f).last() == f);
}

/// Law: whenever the fragments' concatenated length fits the bound, the
/// buffer after all appends is their exact concatenation in call order.
pub proof fn lemma_buffer_accumulates(frags: Seq<Seq<u8>>, max: nat)
    requires
        concat_all(frags).len() <= max,
    ensures
        run_appends(frags, max) == concat_all(frags),
    decreases frags.len(),
{
    if frags.len() > 0 {
        assert(concat_all(frags) == concat_all(frags.drop_last()) + frags.last());
        lemma_buffer_accumulates(frags.drop_last(), max);
    }
}

/// Law: any two sessions in the fresh state with the same bound — one just
/// created, one just reset — have identical observable state. Appending a
/// fragment to either is then pinned by the contracts alone: on a first
/// parse the reported model is the engine's parse of the fragment, the
/// range list is empty, and root, changed nodes and error flag are
/// functions of that model — so a reset session behaves exactly as a
/// brand-new one, up to the engine's internal tree-reuse bookkeeping.
pub proof fn lemma_reset_is_fresh(s: ParserResource, t: ParserResource, max: nat)
    requires
        s.is_fresh(max),
        t.is_fresh(max),
    ensures
        s.state() == t.state(),
{
}

/// Law: a node the change tracker resolves a range to is named, and its
/// byte span fully contains the range.
pub proof fn lemma_found_node_named_and_containing(n: RawNode, r: ChangedRange)
    ensures
        find_smallest_spec(n, r) matches Some(m) ==> m.named && node_contains_range(m, r),
    decreases n,
{
    if node_contains_range(n, r) {
        lemma_find_in_children_named_containing(n.children@, r);
    }
}

proof fn lemma_find_in_children_named_containing(cs: Seq<RawNode>, r: ChangedRange)
    ensures
        find_in_children(cs, r) matches Some(m) ==> m.named && node_contains_range(m, r),
    decreases cs,
{
    if cs.len() > 0 {
        lemma_found_node_named_and_containing(cs.first(), r);
        lemma_find_in_children_named_containing(cs.drop_first(), r);
    }
}

/// Law: after deduplication no byte extent occurs twice anywhere in the
/// report — the changed-node set is minimal in that sense.
pub proof fn lemma_dedup_views_no_repeat(s: Seq<AstView>)
    ensures
        forall|i: int, j: int|
            0 <= i < j < dedup_views(s).len() ==> !view_same_extent(
                #[trigger] dedup_views(s)[i],
                #[trigger] dedup_views(s)[j],
            ),
    decreases s.len(),
{
    if s.len() > 0 {
        lemma_dedup_views_no_repeat(s.drop_last());
        let out = dedup_views(s);
        let pre = dedup_views(s.drop_last());
        if extent_repeats(s, s.len() - 1) {
            assert(out == pre);
            assert forall|i: int, j: int|
                0 <= i < j < out.len() implies !view_same_extent(
                    #[trigger] out[i],
                    #[trigger] out[j],
                ) by {
                assert(out[i] == pre[i] && out[j] == pre[j]);
            };
        } else {
            lemma_dedup_views_elements(s.drop_last());
            assert(out == pre.push(s.last()));
            assert forall|i: int, j: int|
                0 <= i < j < out.len() implies !view_same_extent(
                    #[trigger] out[i],
                    #[trigger] out[j],
                ) by {
                if j < out.len() - 1 {
                    assert(out[i] == pre[i] && out[j] == pre[j]);
                } else {
                    assert(0 <= i < pre.len());
                    assert(out[i] == pre[i]);
                    let m = choose|m: int|
                        0 <= m < s.drop_last().len() && pre[i] == #[trigger] s.drop_last()[m];
                    assert(!view_same_extent(s[m], s[s.len() - 1]));
                    assert(out[j] == s[s.len() - 1]);
                }
            };
        }
    }
}

/// A report entry within its source: the byte span lies inside the text
/// and the entry's text is exactly the source bytes at that span.
pub open spec fn view_in_source(a: AstView, src: Seq<u8>) -> bool {
    a.start_byte <= a.end_byte && a.end_byte <= src.len() && a.text == src.subrange(
        a.start_byte as int,
        a.end_byte as int,
    )
}

proof fn lemma_find_smallest_within(n: RawNode, rg: ChangedRange, len: nat)
    requires
        raw_extents_within(n, len),
    ensures
        find_smallest_spec(n, rg) matches Some(m) ==> raw_extents_within(m, len),
    decreases n,
{
    if node_contains_range(n, rg) {
        lemma_find_in_children_within(n.children@, rg, len);
    }
}

proof fn lemma_find_in_children_within(cs: Seq<RawNode>, rg: ChangedRange, len: nat)
    requires
        forall|j: int| 0 <= j < cs.len() ==> raw_extents_within(#[trigger] cs[j], len),
    ensures
        find_in_children(cs, rg) matches Some(m) ==> raw_extents_within(m, len),
    decreases cs,
{
    if cs.len() > 0 {
        assert(cs.first() == cs[0]);
        lemma_find_smallest_within(cs.first(), rg, len);
        assert forall|j: int|
            0 <= j < cs.drop_first().len() implies raw_extents_within(
                #[trigger] cs.drop_first()[j],
                len,
            ) by {
            assert(cs.drop_first()[j] == cs[j + 1]);
        };
        lemma_find_in_children_within(cs.drop_first(), rg, len);
    }
}

proof fn lemma_collect_hits_in_source(root: RawNode, ranges: Seq<ChangedRange>, src: Seq<u8>)
    requires
        raw_extents_within(root, src.len()),
    ensures
        forall|i: int|
            0 <= i < collect_hits(root, ranges, src).len() ==> view_in_source(
                #[trigger] collect_hits(root, ranges, src)[i],
                src,
            ),
    decreases ranges.len(),
{
    if ranges.len() > 0 {
        lemma_collect_hits_in_source(root, ranges.drop_last(), src);
        let out = collect_hits(root, ranges, src);
        let pre = collect_hits(root, ranges.drop_last(), src);
        match find_smallest_spec(root, ranges.last()) {
            Option::Some(m) => {
                lemma_find_smallest_within(root, ranges.last(), src.len());
                assert(view_in_source(normalize_spec(m, src), src));
                assert forall|i: int|
                    0 <= i < out.len() implies view_in_source(#[trigger] out[i], src) by {
                    if i < pre.len() {
                        assert(out[i] == pre[i]);
                    } else {
                        assert(out[i] == normalize_spec(m, src));
                    }
                };
            },
            Option::None => {},
        }
    }
}

/// Law: when the tree's byte extents lie within the source — as the engine
/// boundary ensures of every parse — every node of the change report has
/// its span inside the source and carries exactly the source bytes there.
pub proof fn lemma_changed_report_in_source(
    root: RawNode,
    ranges: Seq<ChangedRange>,
    old_count: nat,
    src: Seq<u8>,
)
    requires
        raw_extents_within(root, src.len()),
    ensures
        forall|i: int|
            0 <= i < changed_nodes_spec(root, ranges, old_count, src).len() ==> view_in_source(
                #[trigger] changed_nodes_spec(root, ranges, old_count, src)[i],
                src,
            ),
{
    let out = changed_nodes_spec(root, ranges, old_count, src);
    if ranges.len() > 0 {
        let hits = collect_hits(root, ranges, src);
        lemma_collect_hits_in_source(root, ranges, src);
        lemma_dedup_views_elements(hits);
        assert forall|i: int| 0 <= i < out.len() implies view_in_source(#[trigger] out[i], src) by {
            let j = choose|j: int| 0 <= j < hits.len() && out[i] == #[trigger] hits[j];
            assert(view_in_source(hits[j], src));
        };
    } else if named_top_count(root) > old_count {
        let named = named_children(root.children@);
        let tail = named.skip(old_count as int);
        assert(forall|j: int|
            0 <= j < root.children@.len() ==> raw_extents_within(
                #[trigger] root.children@[j],
                src.len(),
            ));
        lemma_named_children_within(root.children@, src.len());
        let nl = norm_list(tail, src);
        lemma_norm_list_len(tail, src);
        assert forall|i: int| 0 <= i < nl.len() implies view_in_source(#[trigger] nl[i], src) by {
            lemma_norm_list_index(tail, src, i);
            assert(tail[i] == named[i + old_count]);
            assert(raw_extents_within(named[i + old_count], src.len()));
            assert(view_in_source(normalize_spec(tail[i], src), src));
        };
        lemma_dedup_views_elements(nl);
        assert forall|i: int| 0 <= i < out.len() implies view_in_source(#[trigger] out[i], src) by {
            let j = choose|j: int| 0 <= j < nl.len() && out[i] == #[trigger] nl[j];
            assert(view_in_source(nl[j], src));
        };
    }
}

/// Law: no byte extent occurs twice anywhere in the change report, on
/// either path — the range path and the growth fallback both deduplicate.
pub proof fn lemma_changed_report_no_repeat(
    root: RawNode,
    ranges: Seq<ChangedRange>,
    old_count: nat,
    src: Seq<u8>,
)
    ensures
        forall|i: int, j: int|
            0 <= i < j < changed_nodes_spec(root, ranges, old_count, src).len()
                ==> !view_same_extent(
                #[trigger] changed_nodes_spec(root, ranges, old_count, src)[i],
                #[trigger] changed_nodes_spec(root, ranges, old_count, src)[j],
            ),
{
    if ranges.len() > 0 {
        lemma_dedup_views_no_repeat(collect_hits(root, ranges, src));
    } else if named_top_count(root) > old_count {
        lemma_dedup_views_no_repeat(
            norm_list(named_children(root.children@).skip(old_count as int), src),
        );
    }
}

/// Every node of the tree carries as text the exact source bytes its span
/// covers; a span outside the source degrades to the empty string.
pub open spec fn view_roundtrip(a: AstView, src: Seq<u8>) -> bool
    decreases a,
{
    a.text == slice_text(src, a.start_byte, a.end_byte) && (forall|i: int|
        0 <= i < a.fields.len() ==> fvv_roundtrip(#[trigger] a.fields[i].1, src)) && (forall|
        i: int,
    |
        0 <= i < a.unnamed_children.len() ==> view_roundtrip(
            #[trigger] a.unnamed_children[i],
            src,
        ))
}

pub open spec fn fvv_roundtrip(v: FieldViewValue, src: Seq<u8>) -> bool
    decreases v,
{
    match v {
        FieldViewValue::One(a) => view_roundtrip(a, src),
        FieldViewValue::Many(l) => forall|i: int|
            0 <= i < l.len() ==> view_roundtrip(#[trigger] l[i], src),
    }
}

proof fn lemma_group_insert_roundtrip(
    fs: Seq<(Seq<u8>, FieldViewValue)>,
    nm: Seq<u8>,
    v: AstView,
    src: Seq<u8>,
)
    requires
        forall|i: int| 0 <= i < fs.len() ==> fvv_roundtrip((#[trigger] fs[i]).1, src),
        view_roundtrip(v, src),
    ensures
        forall|i: int|
            0 <= i < group_insert(fs, nm, v).len() ==> fvv_roundtrip(
                (#[trigger] group_insert(fs, nm, v)[i]).1,
                src,
            ),
    decreases fs.len(),
{
    let out = group_insert(fs, nm, v);
    if fs.len() == 0 {
        assert(out[0].1 == FieldViewValue::One(v));
    } else if fs.first().0 == nm {
        assert(fvv_roundtrip(extend_entry(fs.first().1, v), src)) by {
            match fs.first().1 {
                FieldViewValue::One(x) => {
                    assert(fvv_roundtrip(fs[0].1, src));
                    assert(seq![x, v][0] == x && seq![x, v][1] == v);
                },
                FieldViewValue::Many(l) => {
                    assert(fvv_roundtrip(fs[0].1, src));
                    assert(forall|i: int|
                        0 <= i < l.push(v).len() ==> view_roundtrip(#[trigger] l.push(v)[i], src));
                },
            }
        }
        assert(forall|i: int| 0 <= i < out.len() ==> fvv_roundtrip((#[trigger] out[i]).1, src))
            by {
            assert(forall|i: int|
                1 <= i < out.len() ==> (#[trigger] out[i]) == fs[i] && fvv_roundtrip(
                    fs[i].1,
                    src,
                ));
        }
    } else {
        assert(forall|i: int|
            0 <= i < fs.drop_first().len() ==> fvv_roundtrip(
                (#[trigger] fs.drop_first()[i]).1,
                src,
            ));
        lemma_group_insert_roundtrip(fs.drop_first(), nm, v, src);
        let rec = group_insert(fs.drop_first(), nm, v);
        assert(forall|i: int| 0 <= i < out.len() ==> fvv_roundtrip((#[trigger] out[i]).1, src))
            by {
            assert(out[0] == fs[0]);
            assert(forall|i: int| 1 <= i < out.len() ==> (#[trigger] out[i]) == rec[i - 1]);
        }
    }
}

proof fn lemma_group_children_roundtrip(cs: Seq<RawNode>, src: Seq<u8>)
    ensures
        forall|i: int|
            0 <= i < group_children(cs, src).0.len() ==> fvv_roundtrip(
                (#[trigger] group_children(cs, src).0[i]).1,
                src,
            ),
        forall|i: int|
            0 <= i < group_children(cs, src).1.len() ==> view_roundtrip(
                #[trigger] group_children(cs, src).1[i],
                src,
            ),
    decreases cs,
{
    if cs.len() > 0 {
        lemma_group_children_roundtrip(cs.drop_last(), src);
        let prev = group_children(cs.drop_last(), src);
        let c = cs.last();
        if c.named {
            lemma_normalize_roundtrip(c, src);
            match c.field {
                Option::Some(nm) => {
                    lemma_group_insert_roundtrip(prev.0, nm@, normalize_spec(c, src), src);
                },
                Option::None => {
                    assert(forall|i: int|
                        0 <= i < prev.1.push(normalize_spec(c, src)).len() ==> view_roundtrip(
                            #[trigger] prev.1.push(normalize_spec(c, src))[i],
                            src,
                        ));
                },
            }
        }
    }
}

/// Law: what normalization produces satisfies the span-to-text round trip
/// at the root and at every descendant.
pub proof fn lemma_normalize_roundtrip(r: RawNode, src: Seq<u8>)
    ensures
        view_roundtrip(normalize_spec(r, src), src),
    decreases r,
{
    lemma_group_children_roundtrip(r.children@, src);
    let a = normalize_spec(r, src);
    assert(a.fields == group_children(r.children@, src).0);
    assert(a.unnamed_children == group_children(r.children@, src).1);
    assert(a.text == slice_text(src, a.start_byte, a.end_byte));
    assert(forall|i: int| 0 <= i < a.fields.len() ==> fvv_roundtrip((#[trigger] a.fields[i]).1, src));
    assert(forall|i: int|
        0 <= i < a.unnamed_children.len() ==> view_roundtrip(#[trigger] a.unnamed_children[i], src));
}

} // verus!
