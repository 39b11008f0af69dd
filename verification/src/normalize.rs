//! The tree normalizer: turns a native node into an attributed tree node.
//! Named children group under their grammar field names in the order the
//! names are first encountered; named fieldless children keep document order;
//! anonymous tokens are dropped at every level.

use vstd::prelude::*;
use crate::ast::{
    AstNode, AstView, FieldValue, FieldViewValue, ast_view, ast_views, fields_view,
    field_value_view, lemma_ast_views_push, lemma_ast_views_index, lemma_ast_views_len,
    clone_bytes,
};
use crate::raw::RawNode;

verus! {

/// The exact bytes between two offsets; an unresolvable span degrades to an
/// empty string instead of failing.
pub open spec fn slice_text(src: Seq<u8>, start: usize, end: usize) -> Seq<u8> {
    if start <= end && end <= src.len() {
        src.subrange(start as int, end as int)
    } else {
        Seq::empty()
    }
}

/// Copy the bytes a span covers out of the source.
pub fn slice_bytes(src: &Vec<u8>, start: usize, end: usize) -> (r: Vec<u8>)
    ensures
        r@ == slice_text(src@, start, end),
{
    let mut out: Vec<u8> = Vec::new();
    if start <= end && end <= src.len() {
        let mut i = start;
        while i < end
            invariant
                start <= i <= end <= src@.len(),
                out@ == src@.subrange(start as int, i as int),
            decreases end - i,
        {
            out.push(src[i]);
            proof {
                assert(src@.subrange(start as int, i as int + 1) =~= src@.subrange(
                    start as int,
                    i as int,
                ).push(src@[i as int]));
            }
            i += 1;
        }
    }
    out
}

/// A single child under a name extends to a run when the name repeats.
pub open spec fn extend_entry(e: FieldViewValue, v: AstView) -> FieldViewValue {
    match e {
        FieldViewValue::One(x) => FieldViewValue::Many(seq![x, v]),
        FieldViewValue::Many(l) => FieldViewValue::Many(l.push(v)),
    }
}

/// Insert one normalized child under its field name: a name seen before
/// extends that entry in place, a new name opens an entry at the end.
pub open spec fn group_insert(
    fs: Seq<(Seq<u8>, FieldViewValue)>,
    nm: Seq<u8>,
    v: AstView,
) -> Seq<(Seq<u8>, FieldViewValue)>
    decreases fs.len(),
{
    if fs.len() == 0 {
        seq![(nm, FieldViewValue::One(v))]
    } else if fs.first().0 == nm {
        seq![(nm, extend_entry(fs.first().1, v))] + fs.drop_first()
    } else {
        seq![fs.first()] + group_insert(fs.drop_first(), nm, v)
    }
}

/// Fold the children left to right into (fields, unnamed run).
pub open spec fn group_children(cs: Seq<RawNode>, src: Seq<u8>) -> (
    Seq<(Seq<u8>, FieldViewValue)>,
    Seq<AstView>,
)
    decreases cs,
{
    if cs.len() == 0 {
        (Seq::empty(), Seq::empty())
    } else {
        let prev = group_children(cs.drop_last(), src);
        let c = cs.last();
        if !c.named {
            prev
        } else {
            match c.field {
                Option::Some(nm) => (group_insert(prev.0, nm@, normalize_spec(c, src)), prev.1),
                Option::None => (prev.0, prev.1.push(normalize_spec(c, src))),
            }
        }
    }
}

/// What normalization produces for a native node over the given source.
pub open spec fn normalize_spec(r: RawNode, src: Seq<u8>) -> AstView
    decreases r,
{
    AstView {
        kind: r.kind@,
        start_byte: r.start_byte,
        end_byte: r.end_byte,
        span: r.span,
        text: slice_text(src, r.start_byte, r.end_byte),
        flags: r.flags,
        fields: group_children(r.children@, src).0,
        unnamed_children: group_children(r.children@, src).1,
    }
}

/// Normalize a run of nodes in order.
pub open spec fn norm_list(cs: Seq<RawNode>, src: Seq<u8>) -> Seq<AstView>
    decreases cs,
{
    if cs.len() == 0 {
        Seq::empty()
    } else {
        norm_list(cs.drop_last(), src).push(normalize_spec(cs.last(), src))
    }
}

pub broadcast proof fn lemma_norm_list_len(cs: Seq<RawNode>, src: Seq<u8>)
    ensures
        #[trigger] norm_list(cs, src).len() == cs.len(),
    decreases cs,
{
    if cs.len() > 0 {
        lemma_norm_list_len(cs.drop_last(), src);
    }
}

pub broadcast proof fn lemma_norm_list_index(cs: Seq<RawNode>, src: Seq<u8>, i: int)
    requires
        0 <= i < cs.len(),
    ensures
        #[trigger] norm_list(cs, src)[i] == normalize_spec(cs[i], src),
        norm_list(cs, src).len() == cs.len(),
    decreases cs,
{
    lemma_norm_list_len(cs, src);
    if cs.len() > 0 {
        lemma_norm_list_len(cs.drop_last(), src);
        if i < cs.len() - 1 {
            lemma_norm_list_index(cs.drop_last(), src, i);
        }
    }
}

pub broadcast proof fn lemma_norm_list_push(cs: Seq<RawNode>, c: RawNode, src: Seq<u8>)
    ensures
        #[trigger] norm_list(cs.push(c), src) == norm_list(cs, src).push(normalize_spec(c, src)),
{
    assert(cs.push(c).drop_last() =~= cs);
    assert(cs.push(c).last() == c);
}

proof fn lemma_group_insert_present(
    fs: Seq<(Seq<u8>, FieldViewValue)>,
    nm: Seq<u8>,
    v: AstView,
    j: int,
)
    requires
        0 <= j < fs.len(),
        fs[j].0 == nm,
        forall|k: int| 0 <= k < j ==> (#[trigger] fs[k]).0 != nm,
    ensures
        group_insert(fs, nm, v) == fs.update(j, (nm, extend_entry(fs[j].1, v))),
    decreases fs.len(),
{
    if j == 0 {
        assert(seq![(nm, extend_entry(fs.first().1, v))] + fs.drop_first() =~= fs.update(
            0,
            (nm, extend_entry(fs[0].1, v)),
        ));
    } else {
        lemma_group_insert_present(fs.drop_first(), nm, v, j - 1);
        assert(seq![fs.first()] + fs.drop_first().update(
            j - 1,
            (nm, extend_entry(fs[j].1, v)),
        ) =~= fs.update(j, (nm, extend_entry(fs[j].1, v))));
    }
}

proof fn lemma_group_insert_absent(fs: Seq<(Seq<u8>, FieldViewValue)>, nm: Seq<u8>, v: AstView)
    requires
        forall|k: int| 0 <= k < fs.len() ==> (#[trigger] fs[k]).0 != nm,
    ensures
        group_insert(fs, nm, v) == fs.push((nm, FieldViewValue::One(v))),
    decreases fs.len(),
{
    if fs.len() == 0 {
        assert(seq![(nm, FieldViewValue::One(v))] =~= fs.push((nm, FieldViewValue::One(v))));
    } else {
        lemma_group_insert_absent(fs.drop_first(), nm, v);
        assert(seq![fs.first()] + fs.drop_first().push((nm, FieldViewValue::One(v))) =~= fs.push(
            (nm, FieldViewValue::One(v)),
        ));
    }
}

/// The view of one in-progress group: one collected child is a single,
/// more are a run.
pub open spec fn group_entry_view(e: (Vec<u8>, Vec<AstNode>)) -> (Seq<u8>, FieldViewValue) {
    (
        e.0@,
        if e.1@.len() == 1 {
            FieldViewValue::One(ast_view(e.1@[0]))
        } else {
            FieldViewValue::Many(ast_views(e.1@))
        },
    )
}

pub open spec fn groups_view(gs: Seq<(Vec<u8>, Vec<AstNode>)>) -> Seq<(Seq<u8>, FieldViewValue)> {
    Seq::new(gs.len(), |i: int| group_entry_view(gs[i]))
}

/// Compare two byte strings by content.
pub fn bytes_eq(a: &Vec<u8>, b: &Vec<u8>) -> (r: bool)
    ensures
        r == (a@ == b@),
{
    if a.len() != b.len() {
        return false;
    }
    let mut i: usize = 0;
    while i < a.len()
        invariant
            i <= a@.len(),
            a@.len() == b@.len(),
            forall|j: int| 0 <= j < i ==> a@[j] == b@[j],
        decreases a@.len() - i,
    {
        if a[i] != b[i] {
            return false;
        }
        i += 1;
    }
    proof {
        assert(a@ =~= b@);
    }
    true
}

/// The first group carrying this field name, if one is open already.
fn find_group(groups: &Vec<(Vec<u8>, Vec<AstNode>)>, nm: &Vec<u8>) -> (r: Option<usize>)
    ensures
        match r {
            Option::Some(j) => j < groups@.len() && groups@[j as int].0@ == nm@ && forall|k: int|
                0 <= k < j ==> (#[trigger] groups@[k]).0@ != nm@,
            Option::None => forall|k: int|
                0 <= k < groups@.len() ==> (#[trigger] groups@[k]).0@ != nm@,
        },
{
    let mut i: usize = 0;
    while i < groups.len()
        invariant
            i <= groups@.len(),
            forall|k: int| 0 <= k < i ==> (#[trigger] groups@[k]).0@ != nm@,
        decreases groups@.len() - i,
    {
        if bytes_eq(&groups[i].0, nm) {
            return Some(i);
        }
        i += 1;
    }
    None
}

/// Normalize a native node against the full source text.
pub fn normalize(r: &RawNode, src: &Vec<u8>) -> (a: AstNode)
    ensures
        ast_view(a) == normalize_spec(*r, src@),
    decreases *r,
{
    let text = slice_bytes(src, r.start_byte, r.end_byte);
    let mut groups: Vec<(Vec<u8>, Vec<AstNode>)> = Vec::new();
    let mut unnamed: Vec<AstNode> = Vec::new();
    let mut i: usize = 0;
    while i < r.children.len()
        invariant
            i <= r.children@.len(),
            group_children(r.children@.take(i as int), src@).0 == groups_view(groups@),
            group_children(r.children@.take(i as int), src@).1 == ast_views(unnamed@),
            forall|j: int| 0 <= j < groups@.len() ==> (#[trigger] groups@[j]).1@.len() >= 1,
            forall|j: int, k: int|
                0 <= j < k < groups@.len() ==> (#[trigger] groups@[j]).0@ != (
                #[trigger] groups@[k]).0@,
        decreases r.children@.len() - i,
    {
        let ghost pre_groups = groups@;
        let ghost pre_unnamed = unnamed@;
        let c = &r.children[i];
        if c.named {
            match &c.field {
                Option::Some(nm) => {
                    let a = normalize(c, src);
                    match find_group(&groups, nm) {
                        Option::Some(j) => {
                            let mut entry = groups.remove(j);
                            let ghost old_entry = pre_groups[j as int];
                            entry.1.push(a);
                            groups.insert(j, entry);
                            proof {
                                assert(groups@ =~= pre_groups.update(j as int, groups@[j as int]));
                                lemma_group_insert_present(
                                    groups_view(pre_groups),
                                    nm@,
                                    ast_view(a),
                                    j as int,
                                );
                                lemma_ast_views_push(old_entry.1@, a);
                                if old_entry.1@.len() == 1 {
                                    lemma_ast_views_index(old_entry.1@, 0);
                                    assert(ast_views(old_entry.1@.push(a)) =~= seq![
                                        ast_view(old_entry.1@[0]),
                                        ast_view(a),
                                    ]);
                                }
                                assert(groups_view(groups@) =~= group_insert(
                                    groups_view(pre_groups),
                                    nm@,
                                    ast_view(a),
                                ));
                            }
                        },
                        Option::None => {
                            let nmc = clone_bytes(nm);
                            groups.push((nmc, vec![a]));
                            proof {
                                lemma_group_insert_absent(
                                    groups_view(pre_groups),
                                    nm@,
                                    ast_view(a),
                                );
                                lemma_ast_views_len(groups@[groups@.len() - 1].1@);
                                lemma_ast_views_index(groups@[groups@.len() - 1].1@, 0);
                                assert(groups_view(groups@) =~= group_insert(
                                    groups_view(pre_groups),
                                    nm@,
                                    ast_view(a),
                                ));
                            }
                        },
                    }
                },
                Option::None => {
                    let a = normalize(c, src);
                    unnamed.push(a);
                    proof {
                        lemma_ast_views_push(pre_unnamed, a);
                    }
                },
            }
        }
        proof {
            assert(r.children@.take(i as int + 1) =~= r.children@.take(i as int).push(
                r.children@[i as int],
            ));
            assert(r.children@.take(i as int + 1).drop_last() =~= r.children@.take(i as int));
        }
        i += 1;
    }
    proof {
        assert(r.children@.take(r.children@.len() as int) =~= r.children@);
    }
    let mut fields: Vec<(Vec<u8>, FieldValue)> = Vec::new();
    let mut t: usize = 0;
    while t < groups.len()
        invariant
            t <= groups@.len(),
            fields_view(fields@) == groups_view(groups@).take(t as int),
            forall|j: int| 0 <= j < groups@.len() ==> (#[trigger] groups@[j]).1@.len() >= 1,
        decreases groups@.len() - t,
    {
        let nm = clone_bytes(&groups[t].0);
        let fv = if groups[t].1.len() == 1 {
            FieldValue::Single(Box::new(groups[t].1[0].deep_clone()))
        } else {
            FieldValue::Multiple(crate::ast::clone_ast_list(&groups[t].1))
        };
        let ghost pre = fields@;
        fields.push((nm, fv));
        proof {
            assert(fields@.drop_last() =~= pre);
            if groups@[t as int].1@.len() == 1 {
                lemma_ast_views_index(groups@[t as int].1@, 0);
                lemma_ast_views_len(groups@[t as int].1@);
            }
            assert(field_value_view(fields@.last().1) == group_entry_view(groups@[t as int]).1);
            assert(groups_view(groups@).take(t as int + 1) =~= groups_view(groups@).take(
                t as int,
            ).push(group_entry_view(groups@[t as int])));
        }
        t += 1;
    }
    proof {
        assert(groups_view(groups@).take(groups@.len() as int) =~= groups_view(groups@));
    }
    let a = AstNode {
        kind: clone_bytes(&r.kind),
        start_byte: r.start_byte,
        end_byte: r.end_byte,
        span: r.span,
        text,
        flags: r.flags,
        fields,
        unnamed_children: unnamed,
    };
    a
}

} // verus!
