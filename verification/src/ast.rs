//! The attributed tree model: the generic, grammar-agnostic representation
//! that every parse produces, together with its mathematical view.

use vstd::prelude::*;

verus! {

/// Error-recovery flags surfaced from the native parse tree.
#[derive(Clone, Copy, Debug, PartialEq, Eq)]
pub struct NodeFlags {
    pub is_missing: bool,
    pub is_extra: bool,
    pub is_error: bool,
    pub has_error: bool,
}

/// The (row, column) rectangle a node covers, rows and columns zero-based.
#[derive(Clone, Copy, Debug, PartialEq, Eq)]
pub struct Span {
    pub start_row: usize,
    pub start_col: usize,
    pub end_row: usize,
    pub end_col: usize,
}

/// The value of a grammar field on a node: a field the grammar binds exactly
/// once holds a single child, a repeated field holds an ordered run of
/// children. Consumers branch on this distinction, so it is kept explicit.
#[derive(Debug, PartialEq, Eq)]
pub enum FieldValue {
    Single(Box<AstNode>),
    Multiple(Vec<AstNode>),
}

/// A normalized, field-aware tree node. `fields` maps grammar field names,
/// in the order first encountered, to the named children bound to them;
/// `unnamed_children` holds the named but fieldless children in document
/// order. Purely syntactic tokens are dropped at every level.
#[derive(Debug, PartialEq, Eq)]
pub struct AstNode {
    pub kind: Vec<u8>,
    pub start_byte: usize,
    pub end_byte: usize,
    pub span: Span,
    pub text: Vec<u8>,
    pub flags: NodeFlags,
    pub fields: Vec<(Vec<u8>, FieldValue)>,
    pub unnamed_children: Vec<AstNode>,
}

/// The mathematical shape of a field value: the single-versus-run
/// distinction is part of the model, since consumers branch on it.
pub enum FieldViewValue {
    One(AstView),
    Many(Seq<AstView>),
}

/// The mathematical shape of an attributed node: byte strings as sequences,
/// and every field value as the children bound to that field.
pub struct AstView {
    pub kind: Seq<u8>,
    pub start_byte: usize,
    pub end_byte: usize,
    pub span: Span,
    pub text: Seq<u8>,
    pub flags: NodeFlags,
    pub fields: Seq<(Seq<u8>, FieldViewValue)>,
    pub unnamed_children: Seq<AstView>,
}

pub open spec fn ast_view(n: AstNode) -> AstView
    decreases n,
{
    AstView {
        kind: n.kind@,
        start_byte: n.start_byte,
        end_byte: n.end_byte,
        span: n.span,
        text: n.text@,
        flags: n.flags,
        fields: fields_view(n.fields@),
        unnamed_children: ast_views(n.unnamed_children@),
    }
}

pub open spec fn ast_views(l: Seq<AstNode>) -> Seq<AstView>
    decreases l,
{
    if l.len() == 0 {
        Seq::empty()
    } else {
        ast_views(l.drop_last()).push(ast_view(l.last()))
    }
}

pub open spec fn field_value_view(v: FieldValue) -> FieldViewValue
    decreases v,
{
    match v {
        FieldValue::Single(n) => FieldViewValue::One(ast_view(*n)),
        FieldValue::Multiple(l) => FieldViewValue::Many(ast_views(l@)),
    }
}

pub open spec fn fields_view(fs: Seq<(Vec<u8>, FieldValue)>) -> Seq<(Seq<u8>, FieldViewValue)>
    decreases fs,
{
    if fs.len() == 0 {
        Seq::empty()
    } else {
        fields_view(fs.drop_last()).push((fs.last().0@, field_value_view(fs.last().1)))
    }
}

pub broadcast proof fn lemma_ast_views_index(l: Seq<AstNode>, i: int)
    requires
        0 <= i < l.len(),
    ensures
        #[trigger] ast_views(l)[i] == ast_view(l[i]),
        ast_views(l).len() == l.len(),
    decreases l,
{
    if l.len() > 0 {
        lemma_ast_views_len(l.drop_last());
        if i < l.len() - 1 {
            lemma_ast_views_index(l.drop_last(), i);
        }
    }
}

pub broadcast proof fn lemma_ast_views_len(l: Seq<AstNode>)
    ensures
        #[trigger] ast_views(l).len() == l.len(),
    decreases l,
{
    if l.len() > 0 {
        lemma_ast_views_len(l.drop_last());
    }
}

/// Whether this node itself carries an error mark.
pub open spec fn node_error_flagged(n: AstNode) -> bool {
    n.flags.is_error || n.flags.has_error
}

/// Whether the node or any descendant carries `is_error` or `has_error`.
pub open spec fn subtree_has_error(n: AstNode) -> bool
    decreases n,
{
    node_error_flagged(n) || (exists|i: int|
        0 <= i < n.fields@.len() && field_value_has_error(#[trigger] n.fields@[i].1)) || (
    exists|i: int|
        0 <= i < n.unnamed_children@.len() && subtree_has_error(
            #[trigger] n.unnamed_children@[i],
        ))
}

pub open spec fn field_value_has_error(v: FieldValue) -> bool
    decreases v,
{
    match v {
        FieldValue::Single(n) => subtree_has_error(*n),
        FieldValue::Multiple(l) => exists|i: int|
            0 <= i < l@.len() && subtree_has_error(#[trigger] l@[i]),
    }
}

pub broadcast proof fn lemma_ast_views_push(s: Seq<AstNode>, x: AstNode)
    ensures
        #[trigger] ast_views(s.push(x)) == ast_views(s).push(ast_view(x)),
{
    assert(s.push(x).drop_last() =~= s);
    assert(s.push(x).last() == x);
}

pub broadcast proof fn lemma_fields_view_push(s: Seq<(Vec<u8>, FieldValue)>, x: (Vec<u8>, FieldValue))
    ensures
        #[trigger] fields_view(s.push(x)) == fields_view(s).push((x.0@, field_value_view(x.1))),
{
    assert(s.push(x).drop_last() =~= s);
    assert(s.push(x).last() == x);
}

/// Copy a byte string; the copy reads back as the same sequence.
pub fn clone_bytes(v: &Vec<u8>) -> (r: Vec<u8>)
    ensures
        r@ == v@,
{
    let r = v.clone();
    assert(r@ =~= v@);
    r
}

impl AstNode {
    /// Whether this node or any descendant carries an error mark.
    pub fn has_error_anywhere(&self) -> (r: bool)
        ensures
            r == subtree_has_error(*self),
        decreases *self,
    {
        if self.flags.is_error || self.flags.has_error {
            return true;
        }
        let mut i: usize = 0;
        while i < self.fields.len()
            invariant
                i <= self.fields@.len(),
                forall|j: int| 0 <= j < i ==> !field_value_has_error(#[trigger] self.fields@[j].1),
            decreases self.fields@.len() - i,
        {
            let hit = match &self.fields[i].1 {
                FieldValue::Single(b) => b.has_error_anywhere(),
                FieldValue::Multiple(l) => list_has_error(l),
            };
            if hit {
                assert(field_value_has_error(self.fields@[i as int].1));
                return true;
            }
            i += 1;
        }
        let mut k: usize = 0;
        while k < self.unnamed_children.len()
            invariant
                k <= self.unnamed_children@.len(),
                forall|j: int|
                    0 <= j < k ==> !subtree_has_error(#[trigger] self.unnamed_children@[j]),
            decreases self.unnamed_children@.len() - k,
        {
            if self.unnamed_children[k].has_error_anywhere() {
                return true;
            }
            k += 1;
        }
        false
    }
}

impl AstNode {
    /// A value copy of the whole node; the copy has the same view.
    pub fn deep_clone(&self) -> (r: AstNode)
        ensures
            ast_view(r) == ast_view(*self),
        decreases *self,
    {
        AstNode {
            kind: clone_bytes(&self.kind),
            start_byte: self.start_byte,
            end_byte: self.end_byte,
            span: self.span,
            text: clone_bytes(&self.text),
            flags: self.flags,
            fields: clone_fields(&self.fields),
            unnamed_children: clone_ast_list(&self.unnamed_children),
        }
    }
}

/// A value copy of a list of nodes, with the same views in the same order.
pub fn clone_ast_list(l: &Vec<AstNode>) -> (r: Vec<AstNode>)
    ensures
        ast_views(r@) == ast_views(l@),
    decreases *l,
{
    let mut out: Vec<AstNode> = Vec::new();
    let mut i: usize = 0;
    while i < l.len()
        invariant
            i <= l@.len(),
            ast_views(out@) == ast_views(l@.take(i as int)),
        decreases l@.len() - i,
    {
        let c = l[i].deep_clone();
        let ghost pre = out@;
        out.push(c);
        proof {
            lemma_ast_views_push(pre, c);
            lemma_ast_views_push(l@.take(i as int), l@[i as int]);
            assert(l@.take(i as int + 1) =~= l@.take(i as int).push(l@[i as int]));
        }
        i += 1;
    }
    proof {
        assert(l@.take(l@.len() as int) =~= l@);
    }
    out
}

fn clone_field_value(v: &FieldValue) -> (r: FieldValue)
    ensures
        field_value_view(r) == field_value_view(*v),
    decreases *v,
{
    match v {
        FieldValue::Single(b) => FieldValue::Single(Box::new(b.deep_clone())),
        FieldValue::Multiple(l) => FieldValue::Multiple(clone_ast_list(l)),
    }
}

fn clone_fields(fs: &Vec<(Vec<u8>, FieldValue)>) -> (r: Vec<(Vec<u8>, FieldValue)>)
    ensures
        fields_view(r@) == fields_view(fs@),
    decreases *fs,
{
    let mut out: Vec<(Vec<u8>, FieldValue)> = Vec::new();
    let mut i: usize = 0;
    while i < fs.len()
        invariant
            i <= fs@.len(),
            fields_view(out@) == fields_view(fs@.take(i as int)),
        decreases fs@.len() - i,
    {
        let name = clone_bytes(&fs[i].0);
        let fv = clone_field_value(&fs[i].1);
        let ghost pre = out@;
        out.push((name, fv));
        proof {
            lemma_fields_view_push(pre, (name, fv));
            lemma_fields_view_push(fs@.take(i as int), fs@[i as int]);
            assert(fs@.take(i as int + 1) =~= fs@.take(i as int).push(fs@[i as int]));
        }
        i += 1;
    }
    proof {
        assert(fs@.take(fs@.len() as int) =~= fs@);
    }
    out
}

fn list_has_error(l: &Vec<AstNode>) -> (r: bool)
    ensures
        r == exists|i: int| 0 <= i < l@.len() && subtree_has_error(#[trigger] l@[i]),
    decreases *l,
{
    let mut i: usize = 0;
    while i < l.len()
        invariant
            i <= l@.len(),
            forall|j: int| 0 <= j < i ==> !subtree_has_error(#[trigger] l@[j]),
        decreases l@.len() - i,
    {
        if l[i].has_error_anywhere() {
            return true;
        }
        i += 1;
    }
    false
}

} // verus!
