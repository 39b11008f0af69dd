//! The parse session: owns the grammar-configured engine, the accumulated
//! source, and the previous tree, and orchestrates one append-reparse-report
//! step. Operations take the session by exclusive reference, so a whole
//! logical operation runs serialized and no caller observes a half-done step.

use vstd::prelude::*;
use crate::ast::{AstNode, ast_view, ast_views, subtree_has_error};
use crate::buffer::{BufferOverflow, buffer_append};
use crate::changes::{ChangedRange, changed_nodes_spec, extract_changed_nodes};
use crate::normalize::{normalize, normalize_spec};
use crate::raw::{RawNode, named_top_count, count_named, raw_extents_within};
use crate::engine::{bash_raw_of, new_bash_parser, parse_to_raw, tree_models};

verus! {

/// The grammar engine could not be configured; no session is produced.
#[derive(Clone, Copy, Debug, PartialEq, Eq)]
pub struct InitError;

/// No parse has succeeded yet, so there is no tree to report.
#[derive(Clone, Copy, Debug, PartialEq, Eq)]
pub struct NoTreeYet;

/// Why an append-reparse step failed. Either way the session's observable
/// state is exactly as it was before the call.
#[derive(Clone, Copy, Debug, PartialEq, Eq)]
pub enum AppendError {
    Overflow(BufferOverflow),
    ParseFailure,
}

/// Why a one-shot parse produced nothing.
#[derive(Clone, Copy, Debug, PartialEq, Eq)]
pub enum ParseBashError {
    LanguageRefused,
    NoTree,
}

/// What one successful append-reparse step reports: the normalized root,
/// the regions the diff surfaced, the changed nodes they resolve to, and
/// whether anything in the tree carries an error mark. The ghost field holds
/// the engine tree's model, which the contracts are stated over.
pub struct ParseOutcome {
    pub root: AstNode,
    pub changed_ranges: Vec<ChangedRange>,
    pub changed_nodes: Vec<AstNode>,
    pub has_errors: bool,
    pub raw: Ghost<RawNode>,
}

/// The observable state of a session.
pub struct SessionView {
    pub buf: Seq<u8>,
    pub max: nat,
    pub ast: Option<AstNode>,
    pub prev_named: nat,
}

/// One incremental parsing session: the reusable engine handle, the tree of
/// the last successful parse, the accumulated source, and the size bound.
pub struct ParserResource {
    parser: tree_sitter::Parser,
    old_tree: Option<tree_sitter::Tree>,
    accumulated_input: Vec<u8>,
    max_buffer_size: usize,
    current_ast: Option<AstNode>,
    prev_named_count: usize,
    last_raw: Ghost<RawNode>,
}

pub const DEFAULT_MAX_BUFFER_SIZE: usize = 10 * 1024 * 1024;

impl ParserResource {
    /// The session's observable state.
    pub closed spec fn state(self) -> SessionView {
        SessionView {
            buf: self.accumulated_input@,
            max: self.max_buffer_size as nat,
            ast: self.current_ast,
            prev_named: self.prev_named_count as nat,
        }
    }

    /// The session invariant: the engine handle stays configured with the
    /// grammar; the buffer respects the bound; a stored tree and its
    /// normalized form exist together; and what is stored is the
    /// normalization of the engine's parse of exactly the accumulated input
    /// as it stands — never a prefix or a superset.
    pub closed spec fn wf(self) -> bool {
        crate::engine::bash_ready(self.parser) && self.accumulated_input@.len()
            <= self.max_buffer_size && (self.old_tree is Some <==> self.current_ast is Some) && (
        self.old_tree matches Some(t) ==> tree_models(t, self.accumulated_input@)) && (
        self.current_ast is Some ==> ast_view(self.current_ast->0) == normalize_spec(
            self.last_raw@,
            self.accumulated_input@,
        ) && self.last_raw@ == bash_raw_of(self.accumulated_input@))
    }

    /// A session that has parsed nothing yet, bounded by `max`.
    pub open spec fn is_fresh(self, max: nat) -> bool {
        self.state().buf == Seq::<u8>::empty() && self.state().max == max && self.state().ast
            is None && self.state().prev_named == 0
    }

    /// Configure a session around a fresh engine instance. An InitError
    /// would mean the engine refused the grammar; the engine boundary
    /// warrants that the vendored grammar is accepted, so creation succeeds.
    pub fn new(max_buffer_size: usize) -> (r: Result<ParserResource, InitError>)
        ensures
            r is Ok,
            match r {
                Ok(s) => s.wf() && s.is_fresh(max_buffer_size as nat),
                Err(_) => true,
            },
    {
        match new_bash_parser() {
            Option::Some(parser) => Ok(
                ParserResource {
                    parser,
                    old_tree: None,
                    accumulated_input: Vec::new(),
                    max_buffer_size,
                    current_ast: None,
                    prev_named_count: 0,
                    last_raw: Ghost(arbitrary()),
                },
            ),
            Option::None => Err(InitError),
        }
    }

    /// Append a fragment, reparse the whole buffer reusing unchanged
    /// subtrees, and report the new tree with what changed. An overflowing
    /// fragment is rejected with the sizes involved; a parse failure leaves
    /// buffer and tree exactly as they were. On a first parse (and after a
    /// reset) the range list is empty and every top-level named child is
    /// reported as changed; that policy is part of the contract below.
    pub fn parse_incremental(&mut self, fragment: &Vec<u8>) -> (r: Result<
        ParseOutcome,
        AppendError,
    >)
        requires
            old(self).wf(),
        ensures
            final(self).wf(),
            final(self).state().max == old(self).state().max,
            (old(self).state().buf.len() + fragment@.len() > old(self).state().max) <==> (r
                matches Err(AppendError::Overflow(_))),
            (old(self).state().buf.len() + fragment@.len() <= old(self).state().max) ==> r
                is Ok,
            match r {
                Err(AppendError::Overflow(e)) => final(self).state() == old(self).state()
                    && e.current_size == old(self).state().buf.len() && e.fragment_size
                    == fragment@.len() && e.max_size == old(self).state().max,
                Err(AppendError::ParseFailure) => final(self).state() == old(self).state(),
                Ok(out) => {
                    &&& final(self).state().buf == old(self).state().buf + fragment@
                    &&& out.raw@ == bash_raw_of(final(self).state().buf)
                    &&& raw_extents_within(out.raw@, final(self).state().buf.len())
                    &&& ast_view(out.root) == normalize_spec(out.raw@, final(self).state().buf)
                    &&& final(self).state().ast is Some
                    &&& ast_view(final(self).state().ast->0) == ast_view(out.root)
                    &&& out.has_errors == subtree_has_error(out.root)
                    &&& ast_views(out.changed_nodes@) == changed_nodes_spec(
                        out.raw@,
                        out.changed_ranges@,
                        if old(self).state().ast is Some {
                            old(self).state().prev_named
                        } else {
                            0nat
                        },
                        final(self).state().buf,
                    )
                    &&& (old(self).state().ast is None ==> out.changed_ranges@ == Seq::<
                        ChangedRange,
                    >::empty())
                    &&& final(self).state().prev_named == named_top_count(out.raw@)
                },
            },
    {
        let max = self.max_buffer_size;
        let old_len = self.accumulated_input.len();
        let edit = match buffer_append(&mut self.accumulated_input, fragment, max) {
            Ok(ed) => ed,
            Err(e) => {
                return Err(AppendError::Overflow(e));
            },
        };
        let ghost old_buf = old(self).accumulated_input@;
        let ghost new_buf = self.accumulated_input@;
        let edited: Option<tree_sitter::Tree> = match &self.old_tree {
            Option::Some(t) => {
                let mut c = crate::engine::tree_clone(t);
                proof {
                    assert(tree_models(*t, old_buf));
                    assert(tree_models(c, old_buf));
                }
                crate::engine::tree_edit(&mut c, &edit);
                proof {
                    assert(new_buf.take(old_buf.len() as int) =~= old_buf);
                    assert(edit == crate::buffer::append_edit_spec(old_buf, new_buf));
                    assert(tree_models(c, new_buf));
                }
                Some(c)
            },
            Option::None => None,
        };
        proof {
            if edited is Some {
                assert(tree_models(edited->0, new_buf));
            }
        }
        let parsed = parse_to_raw(&mut self.parser, &self.accumulated_input, edited.as_ref());
        match parsed {
            Option::None => {
                self.accumulated_input.truncate(old_len);
                proof {
                    assert(self.accumulated_input@ =~= old(self).accumulated_input@);
                }
                Err(AppendError::ParseFailure)
            },
            Option::Some((new_tree, root_raw)) => {
                let root_ast = normalize(&root_raw, &self.accumulated_input);
                let ranges: Vec<ChangedRange> = match &edited {
                    Option::Some(ot) => crate::engine::changed_ranges(&new_tree, ot),
                    Option::None => Vec::new(),
                };
                let old_count = if edited.is_some() {
                    self.prev_named_count
                } else {
                    0
                };
                let changed = extract_changed_nodes(
                    &root_raw,
                    &ranges,
                    old_count,
                    &self.accumulated_input,
                );
                let has_errors = root_ast.has_error_anywhere();
                self.prev_named_count = count_named(&root_raw.children);
                self.old_tree = Some(new_tree);
                self.current_ast = Some(root_ast.deep_clone());
                self.last_raw = Ghost(root_raw);
                Ok(
                    ParseOutcome {
                        root: root_ast,
                        changed_ranges: ranges,
                        changed_nodes: changed,
                        has_errors,
                        raw: Ghost(root_raw),
                    },
                )
            },
        }
    }

    /// Clear the accumulated text and drop the previous tree; the next
    /// append behaves as a first parse on the same warm engine.
    pub fn reset_parser(&mut self)
        requires
            old(self).wf(),
        ensures
            final(self).wf(),
            final(self).is_fresh(old(self).state().max),
    {
        self.accumulated_input.clear();
        self.old_tree = None;
        self.current_ast = None;
        self.prev_named_count = 0;
    }

    /// The normalized form of the last stored tree, without reparsing: the
    /// normalization of the engine's parse of the accumulated input.
    pub fn get_current_ast(&self) -> (r: Result<AstNode, NoTreeYet>)
        requires
            self.wf(),
        ensures
            match r {
                Ok(a) => self.state().ast is Some && ast_view(a) == ast_view(self.state().ast->0)
                    && ast_view(a) == normalize_spec(
                    bash_raw_of(self.state().buf),
                    self.state().buf,
                ),
                Err(_) => self.state().ast is None,
            },
    {
        match &self.current_ast {
            Option::Some(a) => {
                let copy = a.deep_clone();
                proof {
                    assert(ast_view(copy) == normalize_spec(self.last_raw@, self.state().buf));
                }
                Ok(copy)
            },
            Option::None => Err(NoTreeYet),
        }
    }

    /// Whether the current tree's root or any descendant carries an error
    /// mark; false while no tree has been produced.
    pub fn has_errors(&self) -> (r: bool)
        ensures
            r == match self.state().ast {
                Option::Some(a) => subtree_has_error(a),
                Option::None => false,
            },
    {
        match &self.current_ast {
            Option::Some(a) => a.has_error_anywhere(),
            Option::None => false,
        }
    }

    /// The accumulated byte length.
    pub fn get_buffer_size(&self) -> (r: usize)
        ensures
            r == self.state().buf.len(),
    {
        self.accumulated_input.len()
    }

    /// The full accumulated source.
    pub fn get_accumulated_input(&self) -> (r: Vec<u8>)
        ensures
            r@ == self.state().buf,
    {
        crate::ast::clone_bytes(&self.accumulated_input)
    }
}

/// A session with the default buffer bound.
pub fn new_parser() -> (r: Result<ParserResource, InitError>)
    ensures
        r is Ok,
        match r {
            Ok(s) => s.wf() && s.is_fresh(DEFAULT_MAX_BUFFER_SIZE as nat),
            Err(_) => true,
        },
{
    ParserResource::new(DEFAULT_MAX_BUFFER_SIZE)
}

/// A session with a caller-chosen buffer bound.
pub fn new_parser_with_size(max_buffer_size: usize) -> (r: Result<ParserResource, InitError>)
    ensures
        r is Ok,
        match r {
            Ok(s) => s.wf() && s.is_fresh(max_buffer_size as nat),
            Err(_) => true,
        },
{
    ParserResource::new(max_buffer_size)
}

/// One-shot parse of a whole text with a fresh engine: a pure function of
/// the content. It succeeds, even on syntactically invalid input, whose
/// errors the node flags surface; its error variants would mean the engine
/// refused the grammar or produced no tree, which the engine boundary
/// warrants not to happen.
pub fn parse_bash(content: &Vec<u8>) -> (r: Result<AstNode, ParseBashError>)
    ensures
        r is Ok,
        match r {
            Ok(a) => ast_view(a) == normalize_spec(bash_raw_of(content@), content@)
                && raw_extents_within(bash_raw_of(content@), content@.len()),
            Err(_) => true,
        },
{
    let mut parser = match new_bash_parser() {
        Option::Some(p) => p,
        Option::None => {
            return Err(ParseBashError::LanguageRefused);
        },
    };
    match parse_to_raw(&mut parser, content, None) {
        Option::Some((_, raw)) => {
            let a = normalize(&raw, content);
            Ok(a)
        },
        Option::None => Err(ParseBashError::NoTree),
    }
}

} // verus!
