//! AST nodes allocated in a `bumpalo` arena, and the builder that allocates them.

use vstd::prelude::*;
use bumpalo::Bump;
use crate::parser::ast::span::Span;
use crate::parser::ast::types::NodeKind;

verus! {

/// `bumpalo::Bump`, the arena the nodes live in.
#[verifier::external_type_specification]
#[verifier::external_body]
pub struct ExBump<const MIN_ALIGN: usize>(bumpalo::Bump<MIN_ALIGN>);

/// AST node with arena lifetime: a kind, an optional source span and child nodes.
#[derive(Debug)]
pub struct AstNode<'a> {
    /// The kind/type of this AST node
    kind: NodeKind,
    /// Source code span for error reporting
    span: Option<Span>,
    /// Child nodes stored as references to the arena
    children: Vec<&'a AstNode<'a>>,
}

impl<'a> AstNode<'a> {
    /// The kind of the node.
    pub closed spec fn spec_kind(self) -> NodeKind {
        self.kind
    }

    /// The span of the node.
    pub closed spec fn spec_span(self) -> Option<Span> {
        self.span
    }

    /// The children of the node.
    pub closed spec fn spec_children(self) -> Seq<&'a AstNode<'a>> {
        self.children@
    }

    /// A child of a node is smaller than the node, for recursion over trees.
    pub proof fn lemma_child_decreases(self, i: int)
        requires
            0 <= i < self.spec_children().len(),
        ensures
            decreases_to!(self => self.spec_children()[i]),
    {
        assert(decreases_to!(self => self.children));
        assert(decreases_to!(self.children => self.children@[i]));
    }

    /// The children of a node are smaller than the node, for recursion over trees.
    pub proof fn lemma_children_decrease(self)
        ensures
            decreases_to!(self => self.spec_children()),
    {
        assert(decreases_to!(self => self.children));
        assert(decreases_to!(self.children => self.children@));
    }

    /// A node of kind `kind` with no span and no children.
    pub fn new(kind: NodeKind) -> (r: Self)
        ensures
            r.spec_kind() == kind,
            r.spec_span() is None,
            r.spec_children().len() == 0,
    {
        AstNode { kind, span: None, children: Vec::new() }
    }

    /// The kind of this node.
    pub fn kind(&self) -> (r: &NodeKind)
        ensures
            *r == self.spec_kind(),
    {
        &self.kind
    }

    /// Mutable access to the kind of this node.
    pub fn kind_mut(&mut self) -> (r: &mut NodeKind)
        ensures
            *r == old(self).spec_kind(),
            final(self).spec_kind() == *final(r),
            final(self).spec_span() == old(self).spec_span(),
            final(self).spec_children() == old(self).spec_children(),
    {
        &mut self.kind
    }

    /// The span of this node.
    pub fn span(&self) -> (r: Option<Span>)
        ensures
            r == self.spec_span(),
    {
        self.span
    }

    /// Sets the span of this node.
    pub fn set_span(&mut self, span: Span)
        ensures
            final(self).spec_span() == Some(span),
            final(self).spec_kind() == old(self).spec_kind(),
            final(self).spec_children() == old(self).spec_children(),
    {
        self.span = Some(span);
    }

    /// The children of this node.
    pub fn children(&self) -> (r: &[&'a AstNode<'a>])
        ensures
            r@ == self.spec_children(),
    {
        self.children.as_slice()
    }

    /// Appends `child` to the children.
    pub fn add_child(&mut self, child: &'a AstNode<'a>)
        ensures
            final(self).spec_children() == old(self).spec_children().push(child),
            final(self).spec_kind() == old(self).spec_kind(),
            final(self).spec_span() == old(self).spec_span(),
    {
        self.children.push(child);
    }

    /// Appends `children` to the children, in order.
    pub fn extend_children(&mut self, children: Vec<&'a AstNode<'a>>)
        ensures
            final(self).spec_children() == old(self).spec_children() + children@,
            final(self).spec_kind() == old(self).spec_kind(),
            final(self).spec_span() == old(self).spec_span(),
    {
        let mut i: usize = 0;
        let ghost c0 = self.children@;
        while i < children.len()
            invariant
                i <= children@.len(),
                self.children@ == c0 + children@.take(i as int),
                self.kind == old(self).kind,
                self.span == old(self).span,
            decreases children@.len() - i,
        {
            self.children.push(children[i]);
            proof {
                assert(c0 + children@.take(i + 1) =~= (c0 + children@.take(i as int)).push(children@[i as int]));
            }
            i = i + 1;
        }
        proof {
            assert(children@.take(children@.len() as int) =~= children@);
        }
    }
}

/// Moves `node` into `arena`: `Bump::alloc`, whose reference lives as long as the
/// arena.
#[verifier::external_body]
fn arena_alloc<'a>(arena: &'a Bump, node: AstNode<'a>) -> (r: &'a AstNode<'a>)
    ensures
        *r == node,
{
    arena.alloc(node)
}

/// Builds nodes in an arena.
pub struct NodeBuilder<'a> {
    arena: &'a Bump,
}

impl<'a> NodeBuilder<'a> {
    /// A builder for `arena`.
    pub fn new(arena: &'a Bump) -> (r: Self)
        ensures
            r.spec_arena() == arena,
    {
        NodeBuilder { arena }
    }

    /// The arena of the builder.
    pub closed spec fn spec_arena(self) -> &'a Bump {
        self.arena
    }

    /// A node of kind `kind`, no span and no children, in the arena.
    pub fn alloc_node(&self, kind: NodeKind) -> (r: &'a AstNode<'a>)
        ensures
            r.spec_kind() == kind,
            r.spec_span() is None,
            r.spec_children().len() == 0,
    {
        arena_alloc(self.arena, AstNode::new(kind))
    }

    /// A node of kind `kind` with span `span` and no children, in the arena.
    pub fn alloc_with_span(&self, kind: NodeKind, span: Span) -> (r: &'a AstNode<'a>)
        ensures
            r.spec_kind() == kind,
            r.spec_span() == Some(span),
            r.spec_children().len() == 0,
    {
        let mut node = AstNode::new(kind);
        node.set_span(span);
        arena_alloc(self.arena, node)
    }

    /// A node of kind `kind` with children `children` and no span, in the arena.
    pub fn alloc_with_children(&self, kind: NodeKind, children: Vec<&'a AstNode<'a>>) -> (r: &'a AstNode<'a>)
        ensures
            r.spec_kind() == kind,
            r.spec_span() is None,
            r.spec_children() == children@,
    {
        let mut node = AstNode::new(kind);
        node.extend_children(children);
        proof {
            assert(Seq::<&'a AstNode<'a>>::empty() + children@ =~= children@);
        }
        arena_alloc(self.arena, node)
    }

    /// A node of kind `kind` with span `span` and children `children`, in the arena.
    pub fn alloc_complete(&self, kind: NodeKind, span: Span, children: Vec<&'a AstNode<'a>>) -> (r: &'a AstNode<'a>)
        ensures
            r.spec_kind() == kind,
            r.spec_span() == Some(span),
            r.spec_children() == children@,
    {
        let mut node = AstNode::new(kind);
        node.set_span(span);
        node.extend_children(children);
        proof {
            assert(Seq::<&'a AstNode<'a>>::empty() + children@ =~= children@);
        }
        arena_alloc(self.arena, node)
    }

    /// The arena of the builder.
    pub fn arena(&self) -> (r: &'a Bump)
        ensures
            r == self.spec_arena(),
    {
        self.arena
    }
}

/// A fresh arena: `Bump::new`.
#[verifier::external_body]
fn bump_new() -> (r: Bump)
{
    Bump::new()
}

/// Bytes the arena has allocated: `Bump::allocated_bytes`.
#[verifier::external_body]
fn bump_allocated_bytes(arena: &Bump) -> (r: usize)
{
    arena.allocated_bytes()
}

/// An arena holding the nodes of one tree, and the root of the tree once set.
pub struct AstArena<'a> {
    arena: Bump,
    root: Option<&'a AstNode<'a>>,
}

impl<'a> AstArena<'a> {
    /// The root of the tree, if set.
    pub closed spec fn spec_root(self) -> Option<&'a AstNode<'a>> {
        self.root
    }

    /// The arena.
    pub closed spec fn spec_arena(self) -> Bump {
        self.arena
    }

    /// A fresh arena without a root.
    pub fn new() -> (r: Self)
        ensures
            r.spec_root() is None,
    {
        AstArena { arena: bump_new(), root: None }
    }

    /// A builder of nodes in this arena.
    pub fn builder(&self) -> (r: NodeBuilder<'_>)
        ensures
            *r.spec_arena() == self.spec_arena(),
    {
        NodeBuilder::new(&self.arena)
    }

    /// Sets the root of the tree.
    pub fn set_root(&mut self, root: &'a AstNode<'a>)
        ensures
            final(self).spec_root() == Some(root),
    {
        self.root = Some(root);
    }

    /// The root of the tree, if set.
    pub fn root(&self) -> (r: Option<&'a AstNode<'a>>)
        ensures
            r == self.spec_root(),
    {
        self.root
    }

    /// The arena.
    pub fn arena(&self) -> (r: &Bump)
        ensures
            *r == self.spec_arena(),
    {
        &self.arena
    }

    /// Bytes allocated in the arena so far.
    pub fn allocated_bytes(&self) -> (r: usize) {
        bump_allocated_bytes(&self.arena)
    }
}

impl<'a> Default for AstArena<'a> {
    fn default() -> (r: Self)
        ensures
            r.spec_root() is None,
    {
        AstArena::new()
    }
}

} // verus!
