//! Walkers over AST trees: counting nodes, measuring depth, collecting identifiers.

use vstd::prelude::*;
use crate::parser::ast::node::AstNode;
use crate::parser::ast::types::NodeKind;

verus! {

/// The typed visit method a visitor calls for a node, one per kind of node.
#[derive(Clone, Copy, Debug, PartialEq, Eq, Structural)]
pub enum VisitMethod {
    /// `visit_block`
    Block,
    /// `visit_expression_statement`
    ExpressionStatement,
    /// `visit_if`
    If,
    /// `visit_for`
    For,
    /// `visit_for_of`
    ForOf,
    /// `visit_while`
    While,
    /// `visit_do_while`
    DoWhile,
    /// `visit_return`
    Return,
    /// `visit_break`
    Break,
    /// `visit_continue`
    Continue,
    /// `visit_switch`
    Switch,
    /// `visit_try`
    Try,
    /// `visit_throw`
    Throw,
    /// `visit_variable_statement`
    VariableStatement,
    /// `visit_identifier`
    Identifier,
    /// `visit_literal`
    Literal,
    /// `visit_array`
    Array,
    /// `visit_object`
    Object,
    /// `visit_binary`
    Binary,
    /// `visit_unary`
    Unary,
    /// `visit_assignment`
    Assignment,
    /// `visit_conditional`
    Conditional,
    /// `visit_call`
    Call,
    /// `visit_member`
    Member,
    /// `visit_new`
    New,
    /// `visit_arrow_function`
    ArrowFunction,
    /// `visit_function_expression`
    FunctionExpression,
    /// `visit_this`
    This,
    /// `visit_super`
    Super,
    /// `visit_template`
    Template,
    /// `visit_sequence`
    Sequence,
    /// `visit_function_declaration`
    FunctionDeclaration,
    /// `visit_class_declaration`
    ClassDeclaration,
    /// `visit_interface_declaration`
    InterfaceDeclaration,
    /// `visit_type_alias_declaration`
    TypeAliasDeclaration,
    /// `visit_enum_declaration`
    EnumDeclaration,
    /// `visit_import_declaration`
    ImportDeclaration,
    /// `visit_export_declaration`
    ExportDeclaration,
    /// `visit_object_pattern`
    ObjectPattern,
    /// `visit_array_pattern`
    ArrayPattern,
    /// `visit_rest_pattern`
    RestPattern,
    /// `visit_type_reference`
    TypeReference,
    /// `visit_array_type`
    ArrayType,
    /// `visit_union_type`
    UnionType,
    /// `visit_intersection_type`
    IntersectionType,
    /// `visit_tuple_type`
    TupleType,
    /// `visit_function_type`
    FunctionType,
    /// `visit_type_parameter`
    TypeParameter,
    /// `visit_type_annotation`
    TypeAnnotation,
    /// `visit_source_file`
    SourceFile,
    /// `visit_module_declaration`
    ModuleDeclaration,
}

/// The typed visit method for a node of kind `kind`: the method named after the kind.
pub open spec fn visit_method_of(kind: NodeKind) -> VisitMethod {
    match kind {
        NodeKind::Block { .. } => VisitMethod::Block,
        NodeKind::ExpressionStatement { .. } => VisitMethod::ExpressionStatement,
        NodeKind::If { .. } => VisitMethod::If,
        NodeKind::For { .. } => VisitMethod::For,
        NodeKind::ForOf { .. } => VisitMethod::ForOf,
        NodeKind::While { .. } => VisitMethod::While,
        NodeKind::DoWhile { .. } => VisitMethod::DoWhile,
        NodeKind::Return { .. } => VisitMethod::Return,
        NodeKind::Break { .. } => VisitMethod::Break,
        NodeKind::Continue { .. } => VisitMethod::Continue,
        NodeKind::Switch { .. } => VisitMethod::Switch,
        NodeKind::Try { .. } => VisitMethod::Try,
        NodeKind::Throw { .. } => VisitMethod::Throw,
        NodeKind::VariableStatement { .. } => VisitMethod::VariableStatement,
        NodeKind::Identifier { .. } => VisitMethod::Identifier,
        NodeKind::Literal { .. } => VisitMethod::Literal,
        NodeKind::Array { .. } => VisitMethod::Array,
        NodeKind::Object { .. } => VisitMethod::Object,
        NodeKind::Binary { .. } => VisitMethod::Binary,
        NodeKind::Unary { .. } => VisitMethod::Unary,
        NodeKind::Assignment { .. } => VisitMethod::Assignment,
        NodeKind::Conditional { .. } => VisitMethod::Conditional,
        NodeKind::Call { .. } => VisitMethod::Call,
        NodeKind::Member { .. } => VisitMethod::Member,
        NodeKind::New { .. } => VisitMethod::New,
        NodeKind::ArrowFunction { .. } => VisitMethod::ArrowFunction,
        NodeKind::FunctionExpression { .. } => VisitMethod::FunctionExpression,
        NodeKind::This { .. } => VisitMethod::This,
        NodeKind::Super { .. } => VisitMethod::Super,
        NodeKind::Template { .. } => VisitMethod::Template,
        NodeKind::Sequence { .. } => VisitMethod::Sequence,
        NodeKind::FunctionDeclaration { .. } => VisitMethod::FunctionDeclaration,
        NodeKind::ClassDeclaration { .. } => VisitMethod::ClassDeclaration,
        NodeKind::InterfaceDeclaration { .. } => VisitMethod::InterfaceDeclaration,
        NodeKind::TypeAliasDeclaration { .. } => VisitMethod::TypeAliasDeclaration,
        NodeKind::EnumDeclaration { .. } => VisitMethod::EnumDeclaration,
        NodeKind::ImportDeclaration { .. } => VisitMethod::ImportDeclaration,
        NodeKind::ExportDeclaration { .. } => VisitMethod::ExportDeclaration,
        NodeKind::ObjectPattern { .. } => VisitMethod::ObjectPattern,
        NodeKind::ArrayPattern { .. } => VisitMethod::ArrayPattern,
        NodeKind::RestPattern { .. } => VisitMethod::RestPattern,
        NodeKind::TypeReference { .. } => VisitMethod::TypeReference,
        NodeKind::ArrayType { .. } => VisitMethod::ArrayType,
        NodeKind::UnionType { .. } => VisitMethod::UnionType,
        NodeKind::IntersectionType { .. } => VisitMethod::IntersectionType,
        NodeKind::TupleType { .. } => VisitMethod::TupleType,
        NodeKind::FunctionType { .. } => VisitMethod::FunctionType,
        NodeKind::TypeParameter { .. } => VisitMethod::TypeParameter,
        NodeKind::TypeAnnotation { .. } => VisitMethod::TypeAnnotation,
        NodeKind::SourceFile { .. } => VisitMethod::SourceFile,
        NodeKind::ModuleDeclaration { .. } => VisitMethod::ModuleDeclaration,
    }
}

/// The typed visit method a visitor dispatches a node of kind `kind` to.
pub fn visit_method(kind: &NodeKind) -> (r: VisitMethod)
    ensures
        r == visit_method_of(*kind),
{
    match kind {
        NodeKind::Block { .. } => VisitMethod::Block,
        NodeKind::ExpressionStatement { .. } => VisitMethod::ExpressionStatement,
        NodeKind::If { .. } => VisitMethod::If,
        NodeKind::For { .. } => VisitMethod::For,
        NodeKind::ForOf { .. } => VisitMethod::ForOf,
        NodeKind::While { .. } => VisitMethod::While,
        NodeKind::DoWhile { .. } => VisitMethod::DoWhile,
        NodeKind::Return { .. } => VisitMethod::Return,
        NodeKind::Break { .. } => VisitMethod::Break,
        NodeKind::Continue { .. } => VisitMethod::Continue,
        NodeKind::Switch { .. } => VisitMethod::Switch,
        NodeKind::Try { .. } => VisitMethod::Try,
        NodeKind::Throw { .. } => VisitMethod::Throw,
        NodeKind::VariableStatement { .. } => VisitMethod::VariableStatement,
        NodeKind::Identifier { .. } => VisitMethod::Identifier,
        NodeKind::Literal { .. } => VisitMethod::Literal,
        NodeKind::Array { .. } => VisitMethod::Array,
        NodeKind::Object { .. } => VisitMethod::Object,
        NodeKind::Binary { .. } => VisitMethod::Binary,
        NodeKind::Unary { .. } => VisitMethod::Unary,
        NodeKind::Assignment { .. } => VisitMethod::Assignment,
        NodeKind::Conditional { .. } => VisitMethod::Conditional,
        NodeKind::Call { .. } => VisitMethod::Call,
        NodeKind::Member { .. } => VisitMethod::Member,
        NodeKind::New { .. } => VisitMethod::New,
        NodeKind::ArrowFunction { .. } => VisitMethod::ArrowFunction,
        NodeKind::FunctionExpression { .. } => VisitMethod::FunctionExpression,
        NodeKind::This { .. } => VisitMethod::This,
        NodeKind::Super { .. } => VisitMethod::Super,
        NodeKind::Template { .. } => VisitMethod::Template,
        NodeKind::Sequence { .. } => VisitMethod::Sequence,
        NodeKind::FunctionDeclaration { .. } => VisitMethod::FunctionDeclaration,
        NodeKind::ClassDeclaration { .. } => VisitMethod::ClassDeclaration,
        NodeKind::InterfaceDeclaration { .. } => VisitMethod::InterfaceDeclaration,
        NodeKind::TypeAliasDeclaration { .. } => VisitMethod::TypeAliasDeclaration,
        NodeKind::EnumDeclaration { .. } => VisitMethod::EnumDeclaration,
        NodeKind::ImportDeclaration { .. } => VisitMethod::ImportDeclaration,
        NodeKind::ExportDeclaration { .. } => VisitMethod::ExportDeclaration,
        NodeKind::ObjectPattern { .. } => VisitMethod::ObjectPattern,
        NodeKind::ArrayPattern { .. } => VisitMethod::ArrayPattern,
        NodeKind::RestPattern { .. } => VisitMethod::RestPattern,
        NodeKind::TypeReference { .. } => VisitMethod::TypeReference,
        NodeKind::ArrayType { .. } => VisitMethod::ArrayType,
        NodeKind::UnionType { .. } => VisitMethod::UnionType,
        NodeKind::IntersectionType { .. } => VisitMethod::IntersectionType,
        NodeKind::TupleType { .. } => VisitMethod::TupleType,
        NodeKind::FunctionType { .. } => VisitMethod::FunctionType,
        NodeKind::TypeParameter { .. } => VisitMethod::TypeParameter,
        NodeKind::TypeAnnotation { .. } => VisitMethod::TypeAnnotation,
        NodeKind::SourceFile { .. } => VisitMethod::SourceFile,
        NodeKind::ModuleDeclaration { .. } => VisitMethod::ModuleDeclaration,
    }
}

/// Number of nodes in the tree below `node`, `node` included.
pub open spec fn node_count<'a>(node: &'a AstNode<'a>) -> nat
    decreases node,
{
    proof {
        node.lemma_children_decrease();
    }
    1 + nodes_count(node.spec_children())
}

/// Number of nodes in the trees below `s`.
pub open spec fn nodes_count<'a>(s: Seq<&'a AstNode<'a>>) -> nat
    decreases s,
{
    if s.len() == 0 {
        0
    } else {
        nodes_count(s.drop_last()) + node_count(s.last())
    }
}

/// Number of levels of the tree below `node`: 1 for a node without children.
pub open spec fn node_depth<'a>(node: &'a AstNode<'a>) -> nat
    decreases node,
{
    proof {
        node.lemma_children_decrease();
    }
    1 + nodes_depth(node.spec_children())
}

/// Greatest number of levels among the trees below `s`; 0 for none.
pub open spec fn nodes_depth<'a>(s: Seq<&'a AstNode<'a>>) -> nat
    decreases s,
{
    if s.len() == 0 {
        0
    } else {
        let a = nodes_depth(s.drop_last());
        let b = node_depth(s.last());
        if a >= b { a } else { b }
    }
}

/// Names of the identifiers in the tree below `node`, in depth-first order; an
/// identifier node contributes its name and nothing below it.
pub open spec fn node_identifiers<'a>(node: &'a AstNode<'a>) -> Seq<Seq<char>>
    decreases node,
{
    match node.spec_kind() {
        NodeKind::Identifier { name } => seq![name@],
        _ => {
            proof {
                node.lemma_children_decrease();
            }
            nodes_identifiers(node.spec_children())
        },
    }
}

/// Names of the identifiers in the trees below `s`, in order.
pub open spec fn nodes_identifiers<'a>(s: Seq<&'a AstNode<'a>>) -> Seq<Seq<char>>
    decreases s,
{
    if s.len() == 0 {
        Seq::empty()
    } else {
        nodes_identifiers(s.drop_last()) + node_identifiers(s.last())
    }
}

/// The texts of a list of strings.
pub open spec fn texts(v: Seq<String>) -> Seq<Seq<char>> {
    v.map_values(|s: String| s@)
}

proof fn lemma_nodes_count_prefix<'a>(s: Seq<&'a AstNode<'a>>, i: int)
    requires
        0 <= i <= s.len(),
    ensures
        nodes_count(s.take(i)) <= nodes_count(s),
    decreases s.len(),
{
    if i < s.len() {
        lemma_nodes_count_prefix(s.drop_last(), i);
        assert(s.drop_last().take(i) =~= s.take(i));
    } else {
        assert(s.take(i) =~= s);
    }
}

proof fn lemma_nodes_depth_prefix<'a>(s: Seq<&'a AstNode<'a>>, i: int)
    requires
        0 <= i <= s.len(),
    ensures
        nodes_depth(s.take(i)) <= nodes_depth(s),
        forall|k: int| 0 <= k < s.len() ==> node_depth(#[trigger] s[k]) <= nodes_depth(s),
    decreases s.len(),
{
    if s.len() > 0 {
        lemma_nodes_depth_prefix(s.drop_last(), if i < s.len() { i } else { 0 });
        if i < s.len() {
            assert(s.drop_last().take(i) =~= s.take(i));
        } else {
            assert(s.take(i) =~= s);
        }
        assert forall|k: int| 0 <= k < s.len() implies node_depth(#[trigger] s[k]) <= nodes_depth(s) by {
            if k < s.len() - 1 {
                assert(s.drop_last()[k] == s[k]);
            }
        }
    } else {
        assert(s.take(i) =~= s);
    }
}

/// Counts the nodes of a tree.
pub struct NodeCounter {
    /// Total count of visited nodes
    pub count: usize,
}

impl NodeCounter {
    /// A counter at zero.
    pub fn new() -> (r: Self)
        ensures
            r.count == 0,
    {
        NodeCounter { count: 0 }
    }

    /// Number of nodes in the tree below `root`, `root` included.
    pub fn count<'a>(root: &'a AstNode<'a>) -> (r: usize)
        requires
            node_count(root) <= usize::MAX,
        ensures
            r == node_count(root),
    {
        let mut counter = NodeCounter::new();
        counter.visit_node(root);
        counter.count
    }

    /// Sets the count back to zero.
    pub fn reset(&mut self)
        ensures
            final(self).count == 0,
    {
        self.count = 0;
    }

    /// Counts `node` and every node below it.
    pub fn visit_node<'a>(&mut self, node: &'a AstNode<'a>)
        requires
            old(self).count + node_count(node) <= usize::MAX,
        ensures
            final(self).count == old(self).count + node_count(node),
        decreases node, 1nat,
    {
        self.count = self.count + 1;
        self.default_visit_node(node);
    }

    /// Counts every node below `node`.
    pub fn default_visit_node<'a>(&mut self, node: &'a AstNode<'a>)
        requires
            old(self).count + nodes_count(node.spec_children()) <= usize::MAX,
        ensures
            final(self).count == old(self).count + nodes_count(node.spec_children()),
        decreases node, 0nat,
    {
        let children = node.children();
        let ghost s = node.spec_children();
        let ghost c0 = self.count;
        let mut i: usize = 0;
        while i < children.len()
            invariant
                i <= s.len(),
                children@ == s,
                s == node.spec_children(),
                c0 + nodes_count(s) <= usize::MAX,
                self.count == c0 + nodes_count(s.take(i as int)),
            decreases s.len() - i,
        {
            proof {
                node.lemma_child_decreases(i as int);
                assert(s.take(i + 1).drop_last() =~= s.take(i as int));
                lemma_nodes_count_prefix(s, i + 1);
            }
            self.visit_node(children[i]);
            i = i + 1;
        }
        proof {
            assert(s.take(s.len() as int) =~= s);
        }
    }
}

impl Default for NodeCounter {
    fn default() -> (r: Self)
        ensures
            r.count == 0,
    {
        NodeCounter::new()
    }
}

/// Measures the depth of a tree.
pub struct DepthCalculator {
    /// Current depth level
    current_depth: usize,
    /// Maximum depth found
    max_depth: usize,
}

impl DepthCalculator {
    /// The depth reached so far.
    pub closed spec fn spec_current_depth(self) -> usize {
        self.current_depth
    }

    /// The greatest depth seen so far.
    pub closed spec fn spec_max_depth(self) -> usize {
        self.max_depth
    }

    /// A calculator that has seen nothing.
    pub fn new() -> (r: Self)
        ensures
            r.spec_current_depth() == 0,
            r.spec_max_depth() == 0,
    {
        DepthCalculator { current_depth: 0, max_depth: 0 }
    }

    /// Number of levels of the tree below `root`.
    pub fn depth<'a>(root: &'a AstNode<'a>) -> (r: usize)
        requires
            node_depth(root) <= usize::MAX,
        ensures
            r == node_depth(root),
    {
        let mut calculator = DepthCalculator::new();
        calculator.visit_node(root);
        calculator.max_depth
    }

    /// The greatest depth seen so far.
    pub fn max_depth(&self) -> (r: usize)
        ensures
            r == self.spec_max_depth(),
    {
        self.max_depth
    }

    /// Visits `node` one level below the current depth.
    pub fn visit_node<'a>(&mut self, node: &'a AstNode<'a>)
        requires
            old(self).spec_current_depth() + node_depth(node) <= usize::MAX,
        ensures
            final(self).spec_current_depth() == old(self).spec_current_depth(),
            final(self).spec_max_depth() == if old(self).spec_max_depth() >= old(self).spec_current_depth() + node_depth(node) {
                old(self).spec_max_depth() as int
            } else {
                old(self).spec_current_depth() + node_depth(node)
            },
        decreases node, 1nat,
    {
        self.current_depth = self.current_depth + 1;
        if self.current_depth > self.max_depth {
            self.max_depth = self.current_depth;
        }
        self.default_visit_node(node);
        self.current_depth = self.current_depth - 1;
    }

    /// Visits the children of `node` at the current depth, which the greatest depth
    /// seen so far must have reached.
    pub fn default_visit_node<'a>(&mut self, node: &'a AstNode<'a>)
        requires
            old(self).spec_current_depth() + nodes_depth(node.spec_children()) <= usize::MAX,
            old(self).spec_max_depth() >= old(self).spec_current_depth(),
        ensures
            final(self).spec_current_depth() == old(self).spec_current_depth(),
            final(self).spec_max_depth() == if old(self).spec_max_depth() >= old(self).spec_current_depth() + nodes_depth(node.spec_children()) {
                old(self).spec_max_depth() as int
            } else {
                old(self).spec_current_depth() + nodes_depth(node.spec_children())
            },
        decreases node, 0nat,
    {
        let children = node.children();
        let ghost s = node.spec_children();
        let ghost m0 = self.max_depth;
        let ghost d = self.current_depth;
        let mut i: usize = 0;
        proof {
            assert(s.take(0) =~= Seq::<&'a AstNode<'a>>::empty());
        }
        while i < children.len()
            invariant
                i <= s.len(),
                children@ == s,
                s == node.spec_children(),
                d + nodes_depth(s) <= usize::MAX,
                self.current_depth == d,
                self.max_depth == if m0 >= d + nodes_depth(s.take(i as int)) {
                    m0 as int
                } else {
                    d + nodes_depth(s.take(i as int))
                },
            decreases s.len() - i,
        {
            proof {
                node.lemma_child_decreases(i as int);
                assert(s.take(i + 1).drop_last() =~= s.take(i as int));
                assert(s.take(i + 1).last() == s[i as int]);
                lemma_nodes_depth_prefix(s, i + 1);
                lemma_nodes_depth_prefix(s, i as int);
            }
            self.visit_node(children[i]);
            i = i + 1;
        }
        proof {
            assert(s.take(s.len() as int) =~= s);
        }
    }
}

impl Default for DepthCalculator {
    fn default() -> (r: Self)
        ensures
            r.spec_current_depth() == 0,
            r.spec_max_depth() == 0,
    {
        DepthCalculator::new()
    }
}

/// Collects the names of the identifiers of a tree.
pub struct CollectIdentifiers {
    /// Collected identifier names
    identifiers: Vec<String>,
}

impl CollectIdentifiers {
    /// The names collected so far, in order.
    pub closed spec fn spec_identifiers(self) -> Seq<Seq<char>> {
        texts(self.identifiers@)
    }

    /// A collector that has collected nothing.
    pub fn new() -> (r: Self)
        ensures
            r.spec_identifiers().len() == 0,
    {
        CollectIdentifiers { identifiers: Vec::new() }
    }

    /// The names of the identifiers in the tree below `root`, in depth-first order.
    pub fn collect<'a>(root: &'a AstNode<'a>) -> (r: Vec<String>)
        ensures
            texts(r@) == node_identifiers(root),
    {
        let mut collector = CollectIdentifiers::new();
        proof {
            assert(texts(collector.identifiers@) =~= Seq::<Seq<char>>::empty());
        }
        collector.visit_node(root);
        proof {
            assert(Seq::<Seq<char>>::empty() + node_identifiers(root) =~= node_identifiers(root));
        }
        collector.identifiers
    }

    /// The names collected so far, in order.
    pub fn identifiers(&self) -> (r: &Vec<String>)
        ensures
            texts(r@) == self.spec_identifiers(),
    {
        &self.identifiers
    }

    /// Collects the name of an identifier node.
    pub fn visit_identifier<'a>(&mut self, node: &'a AstNode<'a>)
        ensures
            node.spec_kind() matches NodeKind::Identifier { name } ==> final(self).spec_identifiers()
                == old(self).spec_identifiers().push(name@),
            !(node.spec_kind() is Identifier) ==> final(self).spec_identifiers() == old(self).spec_identifiers(),
    {
        if let NodeKind::Identifier { name } = node.kind() {
            let ghost before = self.identifiers@;
            self.identifiers.push(name.clone());
            proof {
                assert(texts(self.identifiers@) =~= texts(before).push(name@));
            }
        }
    }

    /// Collects the identifiers of the tree below `node`.
    pub fn visit_node<'a>(&mut self, node: &'a AstNode<'a>)
        ensures
            final(self).spec_identifiers() == old(self).spec_identifiers() + node_identifiers(node),
        decreases node, 1nat,
    {
        match node.kind() {
            NodeKind::Identifier { .. } => {
                self.visit_identifier(node);
                proof {
                    assert(old(self).spec_identifiers().push(node_identifiers(node)[0]) =~= old(self).spec_identifiers()
                        + node_identifiers(node));
                }
            },
            _ => self.default_visit_node(node),
        }
    }

    /// Collects the identifiers of the trees below the children of `node`.
    pub fn default_visit_node<'a>(&mut self, node: &'a AstNode<'a>)
        ensures
            final(self).spec_identifiers() == old(self).spec_identifiers() + nodes_identifiers(node.spec_children()),
        decreases node, 0nat,
    {
        let children = node.children();
        let ghost s = node.spec_children();
        let ghost i0 = self.spec_identifiers();
        let mut i: usize = 0;
        while i < children.len()
            invariant
                i <= s.len(),
                children@ == s,
                s == node.spec_children(),
                self.spec_identifiers() == i0 + nodes_identifiers(s.take(i as int)),
            decreases s.len() - i,
        {
            proof {
                node.lemma_child_decreases(i as int);
                assert(s.take(i + 1).drop_last() =~= s.take(i as int));
                assert(s.take(i + 1).last() == s[i as int]);
            }
            let ghost before = self.spec_identifiers();
            self.visit_node(children[i]);
            proof {
                assert(i0 + nodes_identifiers(s.take(i + 1)) =~= before + node_identifiers(s[i as int]));
            }
            i = i + 1;
        }
        proof {
            assert(s.take(s.len() as int) =~= s);
        }
    }
}

impl Default for CollectIdentifiers {
    fn default() -> (r: Self)
        ensures
            r.spec_identifiers().len() == 0,
    {
        CollectIdentifiers::new()
    }
}

} // verus!
