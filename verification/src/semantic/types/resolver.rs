//! Resolution of named type references to the types they name, and the pass that
//! records the types of declared variables and functions.

use vstd::prelude::*;
use fxhash::FxHashMap;
use crate::parser::ast::node::AstNode;
use crate::parser::ast::span::Span;
use crate::parser::ast::types::{NodeKind, Parameter, TypeAnnotation, VariableDeclaration};
use crate::semantic::scope::scope::{ScopeId, ScopeTable};
use crate::semantic::symbol::symbol::{Symbol, SymbolId, SymbolKind};
use crate::semantic::symbol::table::{lexical_symbol, SymbolTable};
use crate::semantic::types::interner::{extends, type_at, valid_id, TypeInterner};
use crate::semantic::types::representation::{
    copy_params, copy_type, text_eq, lemma_types_size, type_size, types_size, types_view, type_view, param_view, params_view, opt_view, props_view, ObjectType, ParamView,
    PrimitiveType, PropertyMap, Type, TypeId, TypeParameter, TypeView,
};
use crate::semantic::types::unify::{
    describe, replacements_stored, substitute_type_params, substitution_entries, substitutions_insert, Substitutions,
    substitutions_new,
};

verus! {

/// Error that occurs when type resolution fails.
#[derive(Debug, Clone, PartialEq, Eq)]
pub enum ResolutionError {
    /// Named type was not found in scope
    TypeNotFound(String),
    /// Reference refers to a non-type symbol
    NotAType(String),
    /// Generic reference has wrong number of arguments
    GenericArityMismatch { name: String, expected: usize, actual: usize },
    /// Recursive type reference without proper indirection
    RecursiveReference(String),
    /// The named type could not be stored: the interner holds as many types as
    /// type ids can number
    InternerFull(String),
}

/// Result of a type resolution attempt.
pub type ResolutionResult<T> = Result<T, ResolutionError>;

// ---------------------------------------------------------------------------------
// Caches.
// ---------------------------------------------------------------------------------

/// Resolved references by name and scope.
pub type ResolutionCache = FxHashMap<(String, ScopeId), TypeId>;

/// Names being resolved, with the scope they are resolved from.
pub type ResolvingMap = FxHashMap<String, ScopeId>;

/// What a resolution cache holds.
pub uninterp spec fn cache_entries(m: ResolutionCache) -> Map<(Seq<char>, ScopeId), TypeId>;

/// What a map of names being resolved holds.
pub uninterp spec fn resolving_entries(m: ResolvingMap) -> Map<Seq<char>, ScopeId>;

/// An empty cache: `FxHashMap::default`.
#[verifier::external_body]
fn cache_new() -> (r: ResolutionCache)
    ensures
        cache_entries(r).dom() == Set::<(Seq<char>, ScopeId)>::empty(),
{
    FxHashMap::default()
}

/// `HashMap::get`, copied.
#[verifier::external_body]
fn cache_get(m: &ResolutionCache, name: &String, scope: ScopeId) -> (r: Option<TypeId>)
    ensures
        r == crate::semantic::scope::scope::lookup_opt(cache_entries(*m), (name@, scope)),
{
    m.get(&(name.clone(), scope)).copied()
}

/// `HashMap::insert`.
#[verifier::external_body]
fn cache_insert(m: &mut ResolutionCache, name: String, scope: ScopeId, id: TypeId)
    ensures
        cache_entries(*final(m)) == cache_entries(*old(m)).insert((name@, scope), id),
{
    m.insert((name, scope), id);
}

/// An empty map: `FxHashMap::default`.
#[verifier::external_body]
fn resolving_new() -> (r: ResolvingMap)
    ensures
        resolving_entries(r).dom() == Set::<Seq<char>>::empty(),
{
    FxHashMap::default()
}

/// `HashMap::get`, copied.
#[verifier::external_body]
fn resolving_get(m: &ResolvingMap, name: &String) -> (r: Option<ScopeId>)
    ensures
        r == crate::semantic::scope::scope::lookup_opt(resolving_entries(*m), name@),
{
    m.get(name).copied()
}

/// `HashMap::insert`.
#[verifier::external_body]
fn resolving_insert(m: &mut ResolvingMap, name: String, scope: ScopeId)
    ensures
        resolving_entries(*final(m)) == resolving_entries(*old(m)).insert(name@, scope),
{
    m.insert(name, scope);
}

/// `HashMap::remove`.
#[verifier::external_body]
fn resolving_remove(m: &mut ResolvingMap, name: &String)
    ensures
        resolving_entries(*final(m)) == resolving_entries(*old(m)).remove(name@),
{
    m.remove(name);
}

// ---------------------------------------------------------------------------------
// Annotations.
// ---------------------------------------------------------------------------------

/// The primitive type a keyword names: `string`, `number`, `boolean`, `null`,
/// `undefined`, `void`, `never`, `unknown` and `any`.
pub open spec fn primitive_named(name: Seq<char>) -> Option<PrimitiveType> {
    if name == "string"@ {
        Some(PrimitiveType::String)
    } else if name == "number"@ {
        Some(PrimitiveType::Number)
    } else if name == "boolean"@ {
        Some(PrimitiveType::Boolean)
    } else if name == "null"@ {
        Some(PrimitiveType::Null)
    } else if name == "undefined"@ {
        Some(PrimitiveType::Undefined)
    } else if name == "void"@ {
        Some(PrimitiveType::Void)
    } else if name == "never"@ {
        Some(PrimitiveType::Never)
    } else if name == "unknown"@ {
        Some(PrimitiveType::Unknown)
    } else if name == "any"@ {
        Some(PrimitiveType::Any)
    } else {
        None
    }
}

/// The primitive type a keyword names (see `primitive_named`).
pub fn primitive_keyword(name: &String) -> (r: Option<PrimitiveType>)
    ensures
        r == primitive_named(name@),
{
    if text_eq(name, "string") {
        Some(PrimitiveType::String)
    } else if text_eq(name, "number") {
        Some(PrimitiveType::Number)
    } else if text_eq(name, "boolean") {
        Some(PrimitiveType::Boolean)
    } else if text_eq(name, "null") {
        Some(PrimitiveType::Null)
    } else if text_eq(name, "undefined") {
        Some(PrimitiveType::Undefined)
    } else if text_eq(name, "void") {
        Some(PrimitiveType::Void)
    } else if text_eq(name, "never") {
        Some(PrimitiveType::Never)
    } else if text_eq(name, "unknown") {
        Some(PrimitiveType::Unknown)
    } else if text_eq(name, "any") {
        Some(PrimitiveType::Any)
    } else {
        None
    }
}

/// The type an annotation denotes, before resolution: keywords of primitive types
/// (without type arguments) become those primitives, other names references,
/// arrays, unions and function types keep their shape (a parameter without an
/// annotation is `unknown`), and an unknown annotation is `unknown`.
pub open spec fn annotation_view(a: TypeAnnotation) -> TypeView
    decreases a,
{
    match a {
        TypeAnnotation::TypeReference { name, type_params } => match (primitive_named(name@), type_params) {
            (Some(p), None) => TypeView::Primitive(p),
            _ => TypeView::Reference(
                name@,
                match type_params {
                    Some(ps) => annotations_view(ps@),
                    None => Seq::empty(),
                },
            ),
        },
        TypeAnnotation::ArrayType(e) => TypeView::Array(Box::new(annotation_view(*e))),
        TypeAnnotation::UnionType(ts) => TypeView::Union(annotations_view(ts@)),
        TypeAnnotation::FunctionType { params, return_type } => TypeView::Function(
            param_annotations_view(params@),
            Box::new(annotation_view(*return_type)),
            Seq::<ParamView>::empty(),
        ),
        TypeAnnotation::Unknown => TypeView::Primitive(PrimitiveType::Unknown),
    }
}

/// The types of a list of annotations.
pub open spec fn annotations_view(s: Seq<TypeAnnotation>) -> Seq<TypeView>
    decreases s,
{
    if s.len() == 0 {
        Seq::empty()
    } else {
        annotations_view(s.drop_last()).push(annotation_view(s.last()))
    }
}

/// The types of a list of parameters: their annotations, `unknown` where none.
pub open spec fn param_annotations_view(s: Seq<crate::parser::ast::types::Parameter>) -> Seq<TypeView>
    decreases s,
{
    if s.len() == 0 {
        Seq::empty()
    } else {
        param_annotations_view(s.drop_last()).push(
            match s.last().type_annotation {
                Some(a) => annotation_view(a),
                None => TypeView::Primitive(PrimitiveType::Unknown),
            },
        )
    }
}

/// `v` is a resolution (see `resolved_as`) of the type the annotation `a` denotes.
pub open spec fn annotation_resolved(a: TypeAnnotation, v: TypeView) -> bool {
    exists|ty: Type| ty@ == annotation_view(a) && #[trigger] resolved_as(ty, v)
}

/// Whether a symbol of kind `k` names a type: an interface, a type alias or an enum.
pub open spec fn names_type(k: SymbolKind) -> bool {
    k is Interface || k is TypeAlias || k is Enum
}

/// `a` and `b` are the same symbol, up to its type: same id, name, kind, span, scope
/// and export flag.
pub open spec fn same_identity(a: Symbol, b: Symbol) -> bool {
    &&& a.spec_id() == b.spec_id()
    &&& a.spec_name() == b.spec_name()
    &&& a.spec_kind() == b.spec_kind()
    &&& a.spec_span() == b.spec_span()
    &&& a.spec_scope() == b.spec_scope()
    &&& a.spec_is_export() == b.spec_is_export()
}

/// `after` holds the symbols of `before`, in the same order; only their types may
/// differ.
pub open spec fn same_but_types(after: Seq<Symbol>, before: Seq<Symbol>) -> bool {
    &&& after.len() == before.len()
    &&& forall|i: int| 0 <= i < before.len() ==> same_identity(#[trigger] after[i], before[i])
}

/// Lookups by name see no difference between symbols that differ only in their types.
pub proof fn lemma_latest_same(after: Seq<Symbol>, before: Seq<Symbol>, scope: ScopeId, name: Seq<char>)
    requires
        same_but_types(after, before),
    ensures
        crate::semantic::symbol::table::latest_symbol(after, scope, name)
            == crate::semantic::symbol::table::latest_symbol(before, scope, name),
    decreases before.len(),
{
    if before.len() > 0 {
        assert(same_identity(after[after.len() - 1], before[before.len() - 1]));
        assert forall|i: int| 0 <= i < before.drop_last().len() implies same_identity(
            #[trigger] after.drop_last()[i],
            before.drop_last()[i],
        ) by {
            assert(same_identity(after[i], before[i]));
        }
        lemma_latest_same(after.drop_last(), before.drop_last(), scope, name);
    }
}

/// Lexical lookups see no difference between symbols that differ only in their types.
pub proof fn lemma_lexical_same(after: Seq<Symbol>, before: Seq<Symbol>, scopes: Seq<crate::semantic::scope::Scope>, s: ScopeId, name: Seq<char>)
    requires
        same_but_types(after, before),
    ensures
        lexical_symbol(after, scopes, s, name) == lexical_symbol(before, scopes, s, name),
    decreases s.spec_get(),
{
    lemma_latest_same(after, before, s, name);
    if s.spec_get() < scopes.len() {
        if let Some(p) = scopes[s.spec_get() as int].spec_parent() {
            if p.spec_get() < s.spec_get() {
                lemma_lexical_same(after, before, scopes, p, name);
            }
        }
    }
}

/// Symbol `id` of `r` has a stored type, the `unknown` primitive.
pub open spec fn unknown_typed<'a>(r: TypeResolver<'a>, id: SymbolId) -> bool {
    r.spec_symbols().symbol_at(id).spec_type_id() matches Some(t) && valid_id(r.spec_types(), t)
        && type_at(r.spec_types(), t)@ == TypeView::Primitive(PrimitiveType::Unknown)
}

/// What the type pass records of the declaration `decl` on its symbol `id` of `r`:
/// `unknown` where it has no annotation, and the type its annotation denotes where
/// that type has no reference, union or object in it (see `view_free`).
pub open spec fn declaration_typed<'a>(r: TypeResolver<'a>, id: SymbolId, decl: VariableDeclaration) -> bool {
    declaration_typed_in(r.spec_symbols(), r.spec_types(), id, decl)
}

/// `declaration_typed`, over a symbol table and stored types.
pub open spec fn declaration_typed_in(symbols: SymbolTable, types: Seq<Type>, id: SymbolId, decl: VariableDeclaration) -> bool {
    &&& decl.type_annotation is None ==> (symbols.symbol_at(id).spec_type_id() matches Some(t) && valid_id(types, t)
        && type_at(types, t)@ == TypeView::Primitive(PrimitiveType::Unknown))
    &&& decl.type_annotation matches Some(a) ==> (view_free(annotation_view(a)) ==> (symbols.symbol_at(
        id,
    ).spec_type_id() matches Some(t) && valid_id(types, t) && type_at(types, t)@ == annotation_view(a)))
}

/// What the type pass records of a variable statement `node` walked from a state
/// with the lookups of `e`, as it stands in `r`, where the nodes `later` were walked
/// after it: each declaration whose name no later declaration of the statement,
/// nothing within its children and nothing within `later` declares leaves the symbol
/// its name resolves to from `e` typed as `declaration_typed` says.
pub open spec fn statement_typed<'a>(e: TypeResolver<'a>, r: TypeResolver<'a>, node: &'a AstNode<'a>, later: Seq<&'a AstNode<'a>>) -> bool {
    statement_typed_from(e.spec_symbols(), e.spec_scopes(), e.spec_current_scope(), r, node, later)
}

/// `statement_typed`, with names resolved from `scope` of the tables `symbols` and
/// `scopes`.
pub open spec fn statement_typed_from<'a>(
    symbols: SymbolTable,
    scopes: ScopeTable,
    scope: ScopeId,
    r: TypeResolver<'a>,
    node: &'a AstNode<'a>,
    later: Seq<&'a AstNode<'a>>,
) -> bool {
    node.spec_kind() matches NodeKind::VariableStatement { declarations } ==> (r.spec_types().len() < u32::MAX
        ==> forall|i: int|
        #![trigger unrepeated(declarations@, i, declarations@.len() as int)]
        0 <= i < declarations@.len() && unrepeated(declarations@, i, declarations@.len() as int) && !declares_any(
            node.spec_children(),
            declarations@[i].name@,
        ) && !declares_any(later, declarations@[i].name@) ==> (lexical_symbol(
            symbols.spec_symbols(),
            scopes.spec_scopes(),
            scope,
            declarations@[i].name@,
        ) matches Some(id) ==> declaration_typed(r, id, declarations@[i])))
}

/// The scope id numbered `n`.
pub open spec fn scope_numbered(n: u32) -> ScopeId {
    choose|s: ScopeId| s.spec_get() == n
}

/// No declaration after the `i`-th one and before the `n`-th has its name.
pub open spec fn unrepeated(decls: Seq<VariableDeclaration>, i: int, n: int) -> bool {
    forall|k: int| i < k < n ==> (#[trigger] decls[k]).name@ != decls[i].name@
}

/// Symbol `id` of `r` has a stored function type with a parameter per parameter of
/// `params`, `unknown` for those without annotation and the resolved annotation
/// (see `annotated_as`) for the others, an `unknown` return type where `return_type`
/// is none and the resolved annotation otherwise, and no type parameters.
pub open spec fn function_typed<'a>(r: TypeResolver<'a>, id: SymbolId, params: Seq<Parameter>, return_type: Option<TypeAnnotation>) -> bool {
    function_typed_in(r.spec_symbols(), r.spec_types(), id, params, return_type)
}

/// `function_typed`, over a symbol table and stored types.
pub open spec fn function_typed_in(
    symbols: SymbolTable,
    types: Seq<Type>,
    id: SymbolId,
    params: Seq<Parameter>,
    return_type: Option<TypeAnnotation>,
) -> bool {
    &&& symbols.symbol_at(id).spec_type_id() matches Some(t)
    &&& valid_id(types, t)
    &&& type_at(types, t)@ matches TypeView::Function(ps, ret, tps)
    &&& ps.len() == params.len()
    &&& tps.len() == 0
    &&& forall|i: int| 0 <= i < params.len() && (#[trigger] params[i]).type_annotation is None ==> ps[i] == TypeView::Primitive(PrimitiveType::Unknown)
    &&& forall|i: int|
        0 <= i < params.len() ==> ((#[trigger] params[i]).type_annotation matches Some(a) ==> annotated_as(a, ps[i]))
    &&& return_type is None ==> *ret == TypeView::Primitive(PrimitiveType::Unknown)
    &&& return_type matches Some(a) ==> annotated_as(a, *ret)
}

/// `v` is what an annotation `a` gives once resolved, or `unknown` where it failed
/// to resolve; exactly the type `a` denotes where that type has no reference, union
/// or object in it (a primitive keyword, say).
pub open spec fn annotated_as(a: TypeAnnotation, v: TypeView) -> bool {
    &&& v == TypeView::Primitive(PrimitiveType::Unknown) || annotation_resolved(a, v)
    &&& view_free(annotation_view(a)) ==> v == annotation_view(a)
}

/// The annotation `a` is plain (see `view_plain`) from the state `e`: resolving it
/// there stores at most one type per part of it, and succeeds where there is room.
pub open spec fn annotation_plain<'a>(e: TypeResolver<'a>, a: TypeAnnotation) -> bool {
    view_plain(e.spec_symbols(), e.spec_scopes(), e.spec_current_scope(), e.spec_resolving(), annotation_view(a))
}

/// Symbol `id` of `r` has a stored function type in which each parameter whose
/// annotation is plain from the state `e` (see `annotation_plain`), and the return
/// type where its annotation is, has a resolution of that annotation, not `unknown`
/// for want of one.
pub open spec fn plainly_typed<'a>(e: TypeResolver<'a>, r: TypeResolver<'a>, id: SymbolId, params: Seq<Parameter>, return_type: Option<TypeAnnotation>) -> bool {
    &&& r.spec_symbols().symbol_at(id).spec_type_id() matches Some(t)
    &&& valid_id(r.spec_types(), t)
    &&& type_at(r.spec_types(), t)@ matches TypeView::Function(ps, ret, _)
    &&& ps.len() == params.len()
    &&& forall|i: int|
        0 <= i < params.len() ==> match (#[trigger] params[i]).type_annotation {
            Some(a) => annotation_plain(e, a) ==> annotation_resolved(a, ps[i]),
            None => true,
        }
    &&& match return_type {
        Some(a) => annotation_plain(e, a) ==> annotation_resolved(a, *ret),
        None => true,
    }
}

/// Every symbol's type is a stored type.
pub open spec fn symbol_types_stored(symbols: Seq<Symbol>, types: Seq<Type>) -> bool {
    forall|i: int|
        0 <= i < symbols.len() ==> ((#[trigger] symbols[i]).spec_type_id() matches Some(t) ==> valid_id(types, t))
}

/// Whether a variable statement or a function declaration within `node`, `node`
/// itself included, declares `name`.
pub open spec fn declares<'a>(node: &'a AstNode<'a>, name: Seq<char>) -> bool
    decreases node,
{
    proof {
        node.lemma_children_decrease();
    }
    ||| match node.spec_kind() {
        NodeKind::VariableStatement { declarations } => declared_upto(declarations@, declarations@.len() as int, name),
        NodeKind::FunctionDeclaration { name: n, .. } => n@ == name,
        _ => false,
    }
    ||| declares_any(node.spec_children(), name)
}

/// Whether one of the first `n` declarations declares `name`.
pub open spec fn declared_upto(decls: Seq<VariableDeclaration>, n: int, name: Seq<char>) -> bool {
    exists|k: int| 0 <= k < n && (#[trigger] decls[k]).name@ == name
}

/// Whether `declares` holds of one of the trees `s`.
pub open spec fn declares_any<'a>(s: Seq<&'a AstNode<'a>>, name: Seq<char>) -> bool
    decreases s,
{
    if s.len() == 0 {
        false
    } else {
        declares_any(s.drop_last(), name) || declares(s.last(), name)
    }
}

/// How many scopes the walk of `node` enters: one for each block, loop, function,
/// class and catch clause it goes through. A `try` statement's walk goes through its
/// block and its catch clause only.
pub open spec fn scopes_entered<'a>(node: &'a AstNode<'a>) -> nat
    decreases node,
{
    proof {
        node.lemma_children_decrease();
    }
    let c = node.spec_children();
    match node.spec_kind() {
        NodeKind::FunctionDeclaration { .. } | NodeKind::Block { .. } | NodeKind::For { .. }
        | NodeKind::ForOf { .. } | NodeKind::While { .. } | NodeKind::DoWhile { .. }
        | NodeKind::ArrowFunction { .. } | NodeKind::FunctionExpression { .. }
        | NodeKind::ClassDeclaration { .. } => 1 + scopes_entered_all(c),
        NodeKind::Try { catch_clause, .. } => {
            let first: nat = if c.len() >= 1 { scopes_entered(c[0]) } else { 0 };
            let second: nat = if catch_clause is Some {
                1 + if c.len() >= 2 { scopes_entered(c[1]) } else { 0 }
            } else {
                0
            };
            first + second
        },
        _ => scopes_entered_all(c),
    }
}

/// How many scopes the walks of the trees `s`, one after another, enter.
pub open spec fn scopes_entered_all<'a>(s: Seq<&'a AstNode<'a>>) -> nat
    decreases s,
{
    if s.len() == 0 {
        0
    } else {
        scopes_entered_all(s.drop_last()) + scopes_entered(s.last())
    }
}

/// The scope counter `n` after `k` scopes are entered: it counts up and stays at
/// `u32::MAX` once it gets there.
pub open spec fn scopes_after(n: u32, k: nat) -> u32 {
    if n + k < u32::MAX {
        (n + k) as u32
    } else {
        u32::MAX
    }
}

/// Entering `a` scopes and then `b` more is entering `a + b`.
proof fn lemma_scopes_after_add(n: u32, a: nat, b: nat)
    ensures
        scopes_after(scopes_after(n, a), b) == scopes_after(n, a + b),
{
}

/// A tree among `s` that declares `name` makes `s` declare it.
proof fn lemma_declares_any_elem<'a>(s: Seq<&'a AstNode<'a>>, i: int, name: Seq<char>)
    requires
        0 <= i < s.len(),
        declares(s[i], name),
    ensures
        declares_any(s, name),
    decreases s.len(),
{
    if i < s.len() - 1 {
        assert(s.drop_last()[i] == s[i]);
        lemma_declares_any_elem(s.drop_last(), i, name);
    }
}

/// The symbols `after` are those `before`, but for symbols whose name something
/// within `node` declares.
pub open spec fn untouched<'a>(after: Seq<Symbol>, before: Seq<Symbol>, node: &'a AstNode<'a>) -> bool {
    forall|j: int|
        0 <= j < before.len() && !declares(node, (#[trigger] before[j]).spec_name()) ==> after[j] == before[j]
}

/// The symbols `after` are those `before`, but for symbols whose name something
/// within the children of `node` declares.
pub open spec fn untouched_below<'a>(after: Seq<Symbol>, before: Seq<Symbol>, node: &'a AstNode<'a>) -> bool {
    forall|j: int|
        0 <= j < before.len() && !declares_any(node.spec_children(), (#[trigger] before[j]).spec_name()) ==> after[j]
            == before[j]
}

/// Every cached type is a stored type.
pub open spec fn cache_stored(cache: Map<(Seq<char>, ScopeId), TypeId>, types: Seq<Type>) -> bool {
    forall|k: (Seq<char>, ScopeId)| #[trigger] cache.contains_key(k) ==> valid_id(types, cache[k])
}

/// `v` is a resolution of `ty`, whatever the references within it resolve to: the
/// type keeps its form, primitives and type parameters are kept as they are, and
/// each component is a resolution of the component it stands for. An array, tuple,
/// intersection, function type or generic instantiation keeps its components in
/// order (a type parameter of a function type keeps its name); an object keeps its
/// property names, each with a resolution of a property of that name, and its index
/// signature; a union becomes `never` without members, else either a resolution of
/// each member, or the union of resolutions of its members, each member's resolution
/// among them.
#[verifier::opaque]
pub open spec fn resolved_as(ty: Type, v: TypeView) -> bool
    decreases type_size(ty),
{
    match ty {
        Type::Primitive(_) => v == ty@,
        Type::TypeParameter(_) => v == ty@,
        Type::Reference { .. } => true,
        Type::Array(e) => v matches TypeView::Array(x) && resolved_as(*e, *x),
        Type::Tuple(es) => {
            proof {
                lemma_types_size(es@);
            }
            v matches TypeView::Tuple(xs) && xs.len() == es@.len() && forall|i: int|
                0 <= i < xs.len() ==> resolved_as(#[trigger] es@[i], xs[i])
        },
        Type::Intersection(es) => {
            proof {
                lemma_types_size(es@);
            }
            v matches TypeView::Intersection(xs) && xs.len() == es@.len() && forall|i: int|
                0 <= i < xs.len() ==> resolved_as(#[trigger] es@[i], xs[i])
        },
        Type::Generic { args, .. } => {
            proof {
                lemma_types_size(args@);
            }
            v matches TypeView::Generic(_, xs) && xs.len() == args@.len() && forall|i: int|
                0 <= i < xs.len() ==> resolved_as(#[trigger] args@[i], xs[i])
        },
        Type::Union(es) => {
            proof {
                lemma_members_size(es@);
            }
            &&& es@.len() == 0 ==> v == TypeView::Primitive(PrimitiveType::Never)
            &&& es@.len() > 0 ==> (forall|t: Type| #[trigger] es@.contains(t) ==> resolved_as(t, v)) || (
            v matches TypeView::Union(xs) && (forall|x: TypeView|
                #[trigger] xs.contains(x) ==> exists|t: Type| #[trigger] es@.contains(t) && resolved_as(t, x)) && (forall|t: Type|
                #[trigger] es@.contains(t) ==> exists|x: TypeView| #[trigger] xs.contains(x) && resolved_as(t, x)))
        },
        Type::Object(o) => {
            let entries = o.properties.spec_entries();
            proof {
                crate::semantic::types::representation::lemma_props_size(entries);
            }
            &&& v matches TypeView::Object(m, ix)
            &&& m.dom() == props_view(entries).dom()
            &&& forall|k: Seq<char>| #[trigger] m.dom().contains(k) ==> exists|j: int|
                0 <= j < entries.len() && (#[trigger] entries[j]).0@ == k && resolved_as(entries[j].1, m[k])
            &&& match (o.index_signature, ix) {
                (None, None) => true,
                (Some(x), Some(y)) => {
                    proof {
                        assert(crate::semantic::types::representation::opt_size(o.index_signature) == type_size(*x));
                    }
                    resolved_as(*x, *y)
                },
                _ => false,
            }
        },
        Type::Function { params, return_type, type_params } => {
            proof {
                lemma_types_size(params@);
            }
            &&& v matches TypeView::Function(ps, r, tps)
            &&& ps.len() == params@.len()
            &&& forall|i: int| 0 <= i < ps.len() ==> resolved_as(#[trigger] params@[i], ps[i])
            &&& resolved_as(*return_type, *r)
            &&& tps.len() == type_params@.len()
            &&& forall|i: int|
                0 <= i < tps.len() ==> {
                    &&& (#[trigger] type_params@[i]).name@ == tps[i].name
                    &&& match (type_params@[i].constraint, tps[i].constraint) {
                        (None, None) => true,
                        (Some(x), Some(y)) => {
                            proof {
                                lemma_param_size(type_params@, i);
                            }
                            resolved_as(*x, *y)
                        },
                        _ => false,
                    }
                    &&& match (type_params@[i].default, tps[i].default) {
                        (None, None) => true,
                        (Some(x), Some(y)) => {
                            proof {
                                lemma_param_size(type_params@, i);
                            }
                            resolved_as(*x, *y)
                        },
                        _ => false,
                    }
                }
        },
    }
}

/// Parameter `i` of `pvs` is the last parameter of its form.
pub open spec fn last_param(pvs: Seq<ParamView>, i: int) -> bool {
    &&& 0 <= i < pvs.len()
    &&& forall|j: int| i < j < pvs.len() ==> #[trigger] pvs[j] != pvs[i]
}

/// `m` replaces the stored type parameter of each of the parameters `pvs` by the
/// argument in the same place of `args` (the last such place, where two parameters
/// are alike), and nothing else.
pub open spec fn param_substitution(types: Seq<Type>, pvs: Seq<ParamView>, args: Seq<TypeId>, m: Map<TypeId, TypeId>) -> bool {
    &&& forall|k: TypeId|
        #[trigger] m.contains_key(k) ==> valid_id(types, k) && exists|i: int|
            #[trigger] last_param(pvs, i) && type_at(types, k)@ == TypeView::TypeParameter(pvs[i]) && m[k] == args[i]
    &&& forall|i: int|
        0 <= i < pvs.len() ==> exists|k: TypeId|
            #[trigger] m.contains_key(k) && type_at(types, k)@ == TypeView::TypeParameter(#[trigger] pvs[i])
}

/// One more parameter, stored as `pid`, replaced by `args[n]`.
proof fn lemma_param_substitution_step(
    t0: Seq<Type>,
    t1: Seq<Type>,
    pvs: Seq<ParamView>,
    args: Seq<TypeId>,
    m: Map<TypeId, TypeId>,
    n: int,
    pid: TypeId,
)
    requires
        0 <= n < pvs.len(),
        n < args.len(),
        param_substitution(t0, pvs.take(n), args.take(n), m),
        extends(t1, t0),
        crate::semantic::types::interner::interned(t1),
        valid_id(t1, pid),
        type_at(t1, pid)@ == TypeView::TypeParameter(pvs[n]),
    ensures
        param_substitution(t1, pvs.take(n + 1), args.take(n + 1), m.insert(pid, args[n])),
{
    let p0 = pvs.take(n);
    let p1 = pvs.take(n + 1);
    let a1 = args.take(n + 1);
    let m1 = m.insert(pid, args[n]);
    assert(last_param(p1, n));
    assert forall|k: TypeId| #[trigger] m1.contains_key(k) implies valid_id(t1, k) && exists|i: int|
        #[trigger] last_param(p1, i) && type_at(t1, k)@ == TypeView::TypeParameter(p1[i]) && m1[k] == a1[i] by {
        if k == pid {
            assert(last_param(p1, n) && type_at(t1, k)@ == TypeView::TypeParameter(p1[n]) && m1[k] == a1[n]);
        } else {
            assert(m.contains_key(k));
            lemma_extends_valid_id(t0, t1, k);
            let i = choose|i: int| #[trigger] last_param(p0, i) && type_at(t0, k)@ == TypeView::TypeParameter(p0[i]) && m[k] == args.take(n)[i];
            if p1[n] == p1[i] {
                crate::semantic::types::interner::lemma_equal_types_same_id(t1, k, pid);
            }
            assert forall|j: int| i < j < p1.len() implies #[trigger] p1[j] != p1[i] by {
                if j < n {
                    assert(p0[j] != p0[i]);
                }
            }
            assert(last_param(p1, i) && type_at(t1, k)@ == TypeView::TypeParameter(p1[i]) && m1[k] == a1[i]);
        }
    }
    assert forall|i: int| 0 <= i < p1.len() implies exists|k: TypeId|
        #[trigger] m1.contains_key(k) && type_at(t1, k)@ == TypeView::TypeParameter(#[trigger] p1[i]) by {
        if i == n {
            assert(m1.contains_key(pid) && type_at(t1, pid)@ == TypeView::TypeParameter(p1[i]));
        } else {
            assert(p0[i] == p1[i]);
            let k = choose|k: TypeId| #[trigger] m.contains_key(k) && type_at(t0, k)@ == TypeView::TypeParameter(#[trigger] p0[i]);
            lemma_extends_valid_id(t0, t1, k);
            assert(m1.contains_key(k) && type_at(t1, k)@ == TypeView::TypeParameter(p1[i]));
        }
    }
}

/// Whether `ty` has no reference, union or generic instantiation anywhere in it
/// (the constraints and defaults of a function type's type parameters included), and
/// names each property of each of its object types once. A type parameter counts as
/// free whatever its constraint: it is stored as it is.
pub open spec fn reference_free(ty: Type) -> bool
    decreases type_size(ty),
{
    match ty {
        Type::Primitive(_) => true,
        Type::TypeParameter(_) => true,
        Type::Array(e) => reference_free(*e),
        Type::Tuple(es) => {
            proof {
                lemma_types_size(es@);
            }
            forall|i: int| 0 <= i < es@.len() ==> reference_free(#[trigger] es@[i])
        },
        Type::Intersection(es) => {
            proof {
                lemma_types_size(es@);
            }
            forall|i: int| 0 <= i < es@.len() ==> reference_free(#[trigger] es@[i])
        },
        Type::Object(o) => {
            let entries = o.properties.spec_entries();
            proof {
                crate::semantic::types::representation::lemma_props_size(entries);
            }
            &&& forall|i: int, j: int| 0 <= i < j < entries.len() ==> (#[trigger] entries[i]).0@ != (#[trigger] entries[j]).0@
            &&& forall|j: int| 0 <= j < entries.len() ==> reference_free((#[trigger] entries[j]).1)
            &&& match o.index_signature {
                None => true,
                Some(x) => {
                    proof {
                        assert(crate::semantic::types::representation::opt_size(o.index_signature) == type_size(*x));
                    }
                    reference_free(*x)
                },
            }
        },
        Type::Function { params, return_type, type_params } => {
            proof {
                lemma_types_size(params@);
            }
            &&& forall|i: int| 0 <= i < params@.len() ==> reference_free(#[trigger] params@[i])
            &&& reference_free(*return_type)
            &&& forall|i: int|
                0 <= i < type_params@.len() ==> {
                    &&& match (#[trigger] type_params@[i]).constraint {
                        None => true,
                        Some(x) => {
                            proof {
                                lemma_param_size(type_params@, i);
                            }
                            reference_free(*x)
                        },
                    }
                    &&& match type_params@[i].default {
                        None => true,
                        Some(x) => {
                            proof {
                                lemma_param_size(type_params@, i);
                            }
                            reference_free(*x)
                        },
                    }
                }
        },
        Type::Union(_) => false,
        Type::Generic { .. } => false,
        Type::Reference { .. } => false,
    }
}

/// Whether `ty` is free in the sense of `reference_free`, but for references
/// without type arguments that resolve from `scope`: their name is not being
/// resolved from `scope` and names a type symbol (interface, alias or enum) with a
/// type. Resolving such a type stores no more than one type per part of it.
pub open spec fn refs_plain(
    symbols: SymbolTable,
    scopes: ScopeTable,
    scope: ScopeId,
    resolving: Map<Seq<char>, ScopeId>,
    ty: Type,
) -> bool
    decreases type_size(ty),
{
    match ty {
        Type::Primitive(_) => true,
        Type::TypeParameter(_) => true,
        Type::Array(e) => refs_plain(symbols, scopes, scope, resolving, *e),
        Type::Tuple(es) => {
            proof {
                lemma_types_size(es@);
            }
            forall|i: int| 0 <= i < es@.len() ==> refs_plain(symbols, scopes, scope, resolving, #[trigger] es@[i])
        },
        Type::Intersection(es) => {
            proof {
                lemma_types_size(es@);
            }
            forall|i: int| 0 <= i < es@.len() ==> refs_plain(symbols, scopes, scope, resolving, #[trigger] es@[i])
        },
        Type::Object(o) => {
            let entries = o.properties.spec_entries();
            proof {
                crate::semantic::types::representation::lemma_props_size(entries);
            }
            &&& forall|i: int, j: int| 0 <= i < j < entries.len() ==> (#[trigger] entries[i]).0@ != (#[trigger] entries[j]).0@
            &&& forall|j: int| 0 <= j < entries.len() ==> refs_plain(symbols, scopes, scope, resolving, (#[trigger] entries[j]).1)
            &&& match o.index_signature {
                None => true,
                Some(x) => {
                    proof {
                        assert(crate::semantic::types::representation::opt_size(o.index_signature) == type_size(*x));
                    }
                    refs_plain(symbols, scopes, scope, resolving, *x)
                },
            }
        },
        Type::Function { params, return_type, type_params } => {
            proof {
                lemma_types_size(params@);
            }
            &&& forall|i: int| 0 <= i < params@.len() ==> refs_plain(symbols, scopes, scope, resolving, #[trigger] params@[i])
            &&& refs_plain(symbols, scopes, scope, resolving, *return_type)
            &&& forall|i: int|
                0 <= i < type_params@.len() ==> {
                    &&& match (#[trigger] type_params@[i]).constraint {
                        None => true,
                        Some(x) => {
                            proof {
                                lemma_param_size(type_params@, i);
                            }
                            refs_plain(symbols, scopes, scope, resolving, *x)
                        },
                    }
                    &&& match type_params@[i].default {
                        None => true,
                        Some(x) => {
                            proof {
                                lemma_param_size(type_params@, i);
                            }
                            refs_plain(symbols, scopes, scope, resolving, *x)
                        },
                    }
                }
        },
        Type::Union(_) => false,
        Type::Generic { .. } => false,
        Type::Reference { name, type_args } => type_args@.len() == 0 && plain_reference(symbols, scopes, scope, resolving, name@),
    }
}

/// The name `name` is not being resolved from `scope`, and resolves from there to
/// a type symbol that has a type.
pub open spec fn plain_reference(
    symbols: SymbolTable,
    scopes: ScopeTable,
    scope: ScopeId,
    resolving: Map<Seq<char>, ScopeId>,
    name: Seq<char>,
) -> bool {
    &&& crate::semantic::scope::scope::lookup_opt(resolving, name) != Some(scope)
    &&& lexical_symbol(symbols.spec_symbols(), scopes.spec_scopes(), scope, name) matches Some(id) && names_type(
        symbols.symbol_at(id).spec_kind(),
    ) && symbols.symbol_at(id).spec_type_id() is Some
}

/// A reference-free type is plain from any state.
pub proof fn lemma_free_plain(
    symbols: SymbolTable,
    scopes: ScopeTable,
    scope: ScopeId,
    resolving: Map<Seq<char>, ScopeId>,
    ty: Type,
)
    requires
        reference_free(ty),
    ensures
        refs_plain(symbols, scopes, scope, resolving, ty),
    decreases type_size(ty),
{
    match ty {
        Type::Array(e) => lemma_free_plain(symbols, scopes, scope, resolving, *e),
        Type::Tuple(es) => {
            lemma_types_size(es@);
            assert forall|i: int| 0 <= i < es@.len() implies refs_plain(symbols, scopes, scope, resolving, #[trigger] es@[i]) by {
                lemma_free_plain(symbols, scopes, scope, resolving, es@[i]);
            }
        },
        Type::Intersection(es) => {
            lemma_types_size(es@);
            assert forall|i: int| 0 <= i < es@.len() implies refs_plain(symbols, scopes, scope, resolving, #[trigger] es@[i]) by {
                lemma_free_plain(symbols, scopes, scope, resolving, es@[i]);
            }
        },
        Type::Object(o) => {
            let entries = o.properties.spec_entries();
            crate::semantic::types::representation::lemma_props_size(entries);
            assert forall|j: int| 0 <= j < entries.len() implies refs_plain(symbols, scopes, scope, resolving, (#[trigger] entries[j]).1) by {
                lemma_free_plain(symbols, scopes, scope, resolving, entries[j].1);
            }
            if let Some(x) = o.index_signature {
                assert(crate::semantic::types::representation::opt_size(o.index_signature) == type_size(*x));
                lemma_free_plain(symbols, scopes, scope, resolving, *x);
            }
        },
        Type::Function { params, return_type, type_params } => {
            lemma_types_size(params@);
            assert forall|i: int| 0 <= i < params@.len() implies refs_plain(symbols, scopes, scope, resolving, #[trigger] params@[i]) by {
                lemma_free_plain(symbols, scopes, scope, resolving, params@[i]);
            }
            lemma_free_plain(symbols, scopes, scope, resolving, *return_type);
            assert forall|i: int| 0 <= i < type_params@.len() implies {
                &&& match (#[trigger] type_params@[i]).constraint {
                    None => true,
                    Some(x) => refs_plain(symbols, scopes, scope, resolving, *x),
                }
                &&& match type_params@[i].default {
                    None => true,
                    Some(x) => refs_plain(symbols, scopes, scope, resolving, *x),
                }
            } by {
                lemma_param_size(type_params@, i);
                if let Some(x) = type_params@[i].constraint {
                    lemma_free_plain(symbols, scopes, scope, resolving, *x);
                }
                if let Some(x) = type_params@[i].default {
                    lemma_free_plain(symbols, scopes, scope, resolving, *x);
                }
            }
        },
        _ => {},
    }
}

/// Whether every type of `s` is reference-free.
pub open spec fn types_free(s: Seq<Type>) -> bool {
    forall|i: int| 0 <= i < s.len() ==> reference_free(#[trigger] s[i])
}

/// The sizes of the prefixes of a list of types add up element by element, and stay
/// within the size of the list.
proof fn lemma_types_size_take(s: Seq<Type>, i: int)
    requires
        0 <= i <= s.len(),
    ensures
        types_size(s.take(i)) <= types_size(s),
        i < s.len() ==> types_size(s.take(i + 1)) == types_size(s.take(i)) + type_size(s[i]),
    decreases s.len(),
{
    if i < s.len() {
        assert(s.take(i + 1).drop_last() =~= s.take(i));
        assert(s.take(i + 1).last() == s[i]);
        assert(s.drop_last().take(i) =~= s.take(i));
        lemma_types_size_take(s.drop_last(), i);
    } else {
        assert(s.take(i) =~= s);
    }
}

/// `lemma_types_size_take`, for lists of named properties.
proof fn lemma_props_size_take(s: Seq<(String, Type)>, i: int)
    requires
        0 <= i <= s.len(),
    ensures
        crate::semantic::types::representation::props_size(s.take(i))
            <= crate::semantic::types::representation::props_size(s),
        i < s.len() ==> crate::semantic::types::representation::props_size(s.take(i + 1))
            == crate::semantic::types::representation::props_size(s.take(i)) + type_size(s[i].1),
    decreases s.len(),
{
    if i < s.len() {
        assert(s.take(i + 1).drop_last() =~= s.take(i));
        assert(s.take(i + 1).last() == s[i]);
        assert(s.drop_last().take(i) =~= s.take(i));
        lemma_props_size_take(s.drop_last(), i);
    } else {
        assert(s.take(i) =~= s);
    }
}

/// `lemma_types_size_take`, for lists of type parameters.
proof fn lemma_params_size_take(s: Seq<TypeParameter>, i: int)
    requires
        0 <= i <= s.len(),
    ensures
        crate::semantic::types::representation::params_size(s.take(i))
            <= crate::semantic::types::representation::params_size(s),
        i < s.len() ==> crate::semantic::types::representation::params_size(s.take(i + 1))
            == crate::semantic::types::representation::params_size(s.take(i))
            + crate::semantic::types::representation::param_size(s[i]),
    decreases s.len(),
{
    if i < s.len() {
        assert(s.take(i + 1).drop_last() =~= s.take(i));
        assert(s.take(i + 1).last() == s[i]);
        assert(s.drop_last().take(i) =~= s.take(i));
        lemma_params_size_take(s.drop_last(), i);
    } else {
        assert(s.take(i) =~= s);
    }
}

/// Whether the type `v` has no reference, union, generic instantiation or object type
/// anywhere in it: what an annotation made of primitive keywords, arrays and function
/// types denotes.
pub open spec fn view_free(v: TypeView) -> bool
    decreases v,
{
    match v {
        TypeView::Primitive(_) => true,
        TypeView::TypeParameter(_) => true,
        TypeView::Array(x) => view_free(*x),
        TypeView::Tuple(xs) => views_free(xs),
        TypeView::Intersection(xs) => views_free(xs),
        TypeView::Function(ps, r, tps) => {
            &&& views_free(ps)
            &&& view_free(*r)
            &&& forall|i: int|
                0 <= i < tps.len() ==> {
                    &&& match (#[trigger] tps[i]).constraint {
                        None => true,
                        Some(x) => view_free(*x),
                    }
                    &&& match tps[i].default {
                        None => true,
                        Some(x) => view_free(*x),
                    }
                }
        },
        _ => false,
    }
}

/// Whether each of the types `xs` is free of references (see `view_free`).
pub open spec fn views_free(xs: Seq<TypeView>) -> bool
    decreases xs,
{
    forall|i: int| 0 <= i < xs.len() ==> view_free(#[trigger] xs[i])
}

/// A type whose view is free of references is reference-free.
pub proof fn lemma_view_free(ty: Type)
    requires
        view_free(ty@),
    ensures
        reference_free(ty),
    decreases type_size(ty),
{
    match ty {
        Type::Array(e) => {
            lemma_view_free(*e);
        },
        Type::Tuple(es) => {
            assert(ty@ == TypeView::Tuple(types_view(es@)));
            let xs = types_view(es@);
            assert(views_free(xs));
            lemma_types_size(es@);
            crate::semantic::types::representation::lemma_types_view(es@);
            assert forall|i: int| 0 <= i < es@.len() implies reference_free(#[trigger] es@[i]) by {
                assert(types_view(es@)[i] == es@[i]@);
                assert(view_free(types_view(es@)[i]));
                lemma_view_free(es@[i]);
            }
        },
        Type::Intersection(es) => {
            assert(ty@ == TypeView::Intersection(types_view(es@)));
            let xs = types_view(es@);
            assert(views_free(xs));
            lemma_types_size(es@);
            crate::semantic::types::representation::lemma_types_view(es@);
            assert forall|i: int| 0 <= i < es@.len() implies reference_free(#[trigger] es@[i]) by {
                assert(types_view(es@)[i] == es@[i]@);
                assert(view_free(types_view(es@)[i]));
                lemma_view_free(es@[i]);
            }
        },
        Type::Function { params, return_type, type_params } => {
            lemma_types_size(params@);
            crate::semantic::types::representation::lemma_types_view(params@);
            crate::semantic::types::representation::lemma_params_view(type_params@);
            assert(views_free(types_view(params@)));
            assert forall|i: int| 0 <= i < params@.len() implies reference_free(#[trigger] params@[i]) by {
                assert(types_view(params@)[i] == params@[i]@);
                assert(view_free(types_view(params@)[i]));
                lemma_view_free(params@[i]);
            }
            lemma_view_free(*return_type);
            assert forall|i: int| 0 <= i < type_params@.len() implies {
                &&& match (#[trigger] type_params@[i]).constraint {
                    None => true,
                    Some(x) => reference_free(*x),
                }
                &&& match type_params@[i].default {
                    None => true,
                    Some(x) => reference_free(*x),
                }
            } by {
                lemma_param_size(type_params@, i);
                let pv = crate::semantic::types::representation::params_view(type_params@)[i];
                assert(pv == param_view(type_params@[i]));
                match type_params@[i].constraint {
                    Some(x) => {
                        assert(pv.constraint == Some(Box::new(type_view(*x))));
                        lemma_view_free(*x);
                    },
                    None => {},
                }
                match type_params@[i].default {
                    Some(x) => {
                        assert(pv.default == Some(Box::new(type_view(*x))));
                        lemma_view_free(*x);
                    },
                    None => {},
                }
            }
        },
        _ => {},
    }
}

/// A type view that is free of references in the sense of `view_free`, but for
/// references without type arguments that `plain_reference` admits.
pub open spec fn view_plain(symbols: SymbolTable, scopes: ScopeTable, scope: ScopeId, resolving: Map<Seq<char>, ScopeId>, v: TypeView) -> bool
    decreases v,
{
    match v {
        TypeView::Primitive(_) => true,
        TypeView::TypeParameter(_) => true,
        TypeView::Array(x) => view_plain(symbols, scopes, scope, resolving, *x),
        TypeView::Tuple(xs) => views_plain(symbols, scopes, scope, resolving, xs),
        TypeView::Intersection(xs) => views_plain(symbols, scopes, scope, resolving, xs),
        TypeView::Function(ps, r, tps) => {
            &&& views_plain(symbols, scopes, scope, resolving, ps)
            &&& view_plain(symbols, scopes, scope, resolving, *r)
            &&& forall|i: int|
                0 <= i < tps.len() ==> {
                    &&& match (#[trigger] tps[i]).constraint {
                        None => true,
                        Some(x) => view_plain(symbols, scopes, scope, resolving, *x),
                    }
                    &&& match tps[i].default {
                        None => true,
                        Some(x) => view_plain(symbols, scopes, scope, resolving, *x),
                    }
                }
        },
        TypeView::Reference(n, xs) => xs.len() == 0 && plain_reference(symbols, scopes, scope, resolving, n),
        _ => false,
    }
}

/// Whether each of the types `xs` is plain (see `view_plain`).
pub open spec fn views_plain(symbols: SymbolTable, scopes: ScopeTable, scope: ScopeId, resolving: Map<Seq<char>, ScopeId>, xs: Seq<TypeView>) -> bool
    decreases xs,
{
    forall|i: int| 0 <= i < xs.len() ==> view_plain(symbols, scopes, scope, resolving, #[trigger] xs[i])
}

/// A type whose view is plain is plain.
pub proof fn lemma_view_plain(symbols: SymbolTable, scopes: ScopeTable, scope: ScopeId, resolving: Map<Seq<char>, ScopeId>, ty: Type)
    requires
        view_plain(symbols, scopes, scope, resolving, ty@),
    ensures
        refs_plain(symbols, scopes, scope, resolving, ty),
    decreases type_size(ty),
{
    match ty {
        Type::Array(e) => {
            lemma_view_plain(symbols, scopes, scope, resolving, *e);
        },
        Type::Tuple(es) => {
            assert(ty@ == TypeView::Tuple(types_view(es@)));
            let xs = types_view(es@);
            assert(views_plain(symbols, scopes, scope, resolving, xs));
            lemma_types_size(es@);
            crate::semantic::types::representation::lemma_types_view(es@);
            assert forall|i: int| 0 <= i < es@.len() implies refs_plain(symbols, scopes, scope, resolving, #[trigger] es@[i]) by {
                assert(types_view(es@)[i] == es@[i]@);
                assert(view_plain(symbols, scopes, scope, resolving, types_view(es@)[i]));
                lemma_view_plain(symbols, scopes, scope, resolving, es@[i]);
            }
        },
        Type::Intersection(es) => {
            assert(ty@ == TypeView::Intersection(types_view(es@)));
            let xs = types_view(es@);
            assert(views_plain(symbols, scopes, scope, resolving, xs));
            lemma_types_size(es@);
            crate::semantic::types::representation::lemma_types_view(es@);
            assert forall|i: int| 0 <= i < es@.len() implies refs_plain(symbols, scopes, scope, resolving, #[trigger] es@[i]) by {
                assert(types_view(es@)[i] == es@[i]@);
                assert(view_plain(symbols, scopes, scope, resolving, types_view(es@)[i]));
                lemma_view_plain(symbols, scopes, scope, resolving, es@[i]);
            }
        },
        Type::Function { params, return_type, type_params } => {
            lemma_types_size(params@);
            crate::semantic::types::representation::lemma_types_view(params@);
            crate::semantic::types::representation::lemma_params_view(type_params@);
            assert(views_plain(symbols, scopes, scope, resolving, types_view(params@)));
            assert forall|i: int| 0 <= i < params@.len() implies refs_plain(symbols, scopes, scope, resolving, #[trigger] params@[i]) by {
                assert(types_view(params@)[i] == params@[i]@);
                assert(view_plain(symbols, scopes, scope, resolving, types_view(params@)[i]));
                lemma_view_plain(symbols, scopes, scope, resolving, params@[i]);
            }
            lemma_view_plain(symbols, scopes, scope, resolving, *return_type);
            assert forall|i: int| 0 <= i < type_params@.len() implies {
                &&& match (#[trigger] type_params@[i]).constraint {
                    None => true,
                    Some(x) => refs_plain(symbols, scopes, scope, resolving, *x),
                }
                &&& match type_params@[i].default {
                    None => true,
                    Some(x) => refs_plain(symbols, scopes, scope, resolving, *x),
                }
            } by {
                lemma_param_size(type_params@, i);
                let pv = crate::semantic::types::representation::params_view(type_params@)[i];
                assert(pv == param_view(type_params@[i]));
                match type_params@[i].constraint {
                    Some(x) => {
                        assert(pv.constraint == Some(Box::new(type_view(*x))));
                        lemma_view_plain(symbols, scopes, scope, resolving, *x);
                    },
                    None => {},
                }
                match type_params@[i].default {
                    Some(x) => {
                        assert(pv.default == Some(Box::new(type_view(*x))));
                        lemma_view_plain(symbols, scopes, scope, resolving, *x);
                    },
                    None => {},
                }
            }
        },
        Type::Reference { name, type_args } => {
            crate::semantic::types::representation::lemma_types_view(type_args@);
        },
        _ => {},
    }
}

/// A resolution of a reference-free type is the type itself.
pub proof fn lemma_free_resolved(ty: Type, v: TypeView)
    requires
        reference_free(ty),
        resolved_as(ty, v),
    ensures
        v == ty@,
    decreases type_size(ty),
{
    reveal(resolved_as);
    match ty {
        Type::Array(e) => {
            let x = v->Array_0;
            lemma_free_resolved(*e, *x);
            assert(v == TypeView::Array(Box::new(type_view(*e))));
            assert(type_view(ty) == TypeView::Array(Box::new(type_view(*e))));
            assert(v == ty@);
        },
        Type::Tuple(es) => {
            lemma_types_size(es@);
            let xs = v->Tuple_0;
            assert forall|i: int| 0 <= i < xs.len() implies xs[i] == type_view(#[trigger] es@[i]) by {
                lemma_free_resolved(es@[i], xs[i]);
            }
            crate::semantic::types::representation::lemma_types_view(es@);
            assert(xs =~= types_view(es@));
            assert(v == ty@);
        },
        Type::Intersection(es) => {
            lemma_types_size(es@);
            let xs = v->Intersection_0;
            assert forall|i: int| 0 <= i < xs.len() implies xs[i] == type_view(#[trigger] es@[i]) by {
                lemma_free_resolved(es@[i], xs[i]);
            }
            crate::semantic::types::representation::lemma_types_view(es@);
            assert(xs =~= types_view(es@));
            assert(v == ty@);
        },
        Type::Object(o) => {
            let entries = o.properties.spec_entries();
            crate::semantic::types::representation::lemma_props_size(entries);
            let m = v->Object_0;
            let ix = v->Object_1;
            assert forall|k: Seq<char>| #[trigger] m.dom().contains(k) implies m[k] == props_view(entries)[k] by {
                let j = choose|j: int| 0 <= j < entries.len() && (#[trigger] entries[j]).0@ == k && resolved_as(entries[j].1, m[k]);
                lemma_free_resolved(entries[j].1, m[k]);
                crate::semantic::types::representation::lemma_props_view(entries, k);
                assert forall|i: int| 0 <= i < j implies (#[trigger] entries[i]).0@ != k by {
                    assert(entries[i].0@ != entries[j].0@);
                }
                assert(crate::semantic::types::representation::first_named(entries, k, j));
            }
            assert(m =~= props_view(entries));
            match o.index_signature {
                Some(x) => {
                    assert(crate::semantic::types::representation::opt_size(o.index_signature) == type_size(*x));
                    lemma_free_resolved(*x, *ix->0);
                    assert(ix == Some(Box::new(type_view(*x))));
                },
                None => {},
            }
            assert(ix == opt_view(o.index_signature));
            assert(v == ty@);
        },
        Type::Function { params, return_type, type_params } => {
            lemma_types_size(params@);
            let ps = v->Function_0;
            let r = v->Function_1;
            let tps = v->Function_2;
            assert forall|i: int| 0 <= i < ps.len() implies ps[i] == type_view(#[trigger] params@[i]) by {
                lemma_free_resolved(params@[i], ps[i]);
            }
            crate::semantic::types::representation::lemma_types_view(params@);
            assert(ps =~= types_view(params@));
            lemma_free_resolved(*return_type, *r);
            assert forall|i: int| 0 <= i < tps.len() implies tps[i] == param_view(#[trigger] type_params@[i]) by {
                lemma_param_size(type_params@, i);
                match type_params@[i].constraint {
                    Some(x) => lemma_free_resolved(*x, *tps[i].constraint->0),
                    None => {},
                }
                match type_params@[i].default {
                    Some(x) => lemma_free_resolved(*x, *tps[i].default->0),
                    None => {},
                }
            }
            crate::semantic::types::representation::lemma_params_view(type_params@);
            assert(tps =~= crate::semantic::types::representation::params_view(type_params@));
            assert(v == ty@);
        },
        Type::Primitive(_) => {},
        Type::TypeParameter(_) => {},
        _ => {},
    }
}

/// Resolves named types through the symbol and scope tables, storing types in an
/// interner, and records the types of declared variables and functions.
pub struct TypeResolver<'a> {
    /// Symbol table for looking up and updating type definitions
    symbol_table: SymbolTable,
    /// Scope table for traversing the scope hierarchy
    scope_table: &'a ScopeTable,
    /// Type interner for creating new types
    type_interner: TypeInterner,
    /// Current scope during traversal
    current_scope: ScopeId,
    /// Cache of resolved type references to avoid redundant work
    resolution_cache: ResolutionCache,
    /// Set of currently resolving types to detect cycles
    resolving: ResolvingMap,
    /// Id of the next scope the walk enters: scopes are numbered in the order the
    /// scope pass opened them, after the root
    next_scope: u32,
}

impl<'a> TypeResolver<'a> {
    /// The symbol table.
    pub closed spec fn spec_symbols(self) -> SymbolTable {
        self.symbol_table
    }

    /// The scope table.
    pub closed spec fn spec_scopes(self) -> ScopeTable {
        *self.scope_table
    }

    /// The stored types.
    pub closed spec fn spec_types(self) -> Seq<Type> {
        self.type_interner.spec_types()
    }

    /// The scope names are resolved from.
    pub closed spec fn spec_current_scope(self) -> ScopeId {
        self.current_scope
    }

    /// The number the next scope the walk enters will have.
    pub closed spec fn spec_next_scope(self) -> u32 {
        self.next_scope
    }

    /// The resolution cache.
    pub closed spec fn spec_cache(self) -> Map<(Seq<char>, ScopeId), TypeId> {
        cache_entries(self.resolution_cache)
    }

    /// The names being resolved, with the scope each is resolved from.
    pub closed spec fn spec_resolving(self) -> Map<Seq<char>, ScopeId> {
        resolving_entries(self.resolving)
    }

    /// The number of type arguments a stored type expects where a different number
    /// is given: a generic function type expects one per type parameter, a type
    /// parameter any number, and any other type none.
    pub open spec fn arity_error(base: Type, given: nat) -> Option<nat> {
        match base {
            Type::Function { type_params, .. } => if type_params@.len() != given {
                Some(type_params@.len())
            } else {
                None
            },
            Type::TypeParameter(_) => None,
            _ => Some(0),
        }
    }

    /// `t` is what applying the arguments `args` to the stored type `base_id` gives,
    /// over the stored types before (`t0`) and after (`t1`): a generic function type
    /// keeps its form with its type parameters replaced, and a type parameter
    /// becomes its instantiation with the arguments' types.
    pub open spec fn applied(t0: Seq<Type>, t1: Seq<Type>, base_id: TypeId, args: Seq<TypeId>, t: TypeId) -> bool {
        &&& valid_id(t1, t)
        &&& match type_at(t0, base_id) {
            Type::Function { type_params, .. } => {
                &&& type_params@.len() == args.len()
                &&& crate::semantic::types::unify::same_shape(type_at(t0, base_id)@, type_at(t1, t)@)
                &&& t1.len() < u32::MAX ==> exists|tm: Seq<Type>, m: Map<TypeId, TypeId>|
                    #[trigger] param_substitution(tm, params_view(type_params@), args, m) && extends(tm, t0) && extends(
                        t1,
                        tm,
                    ) && crate::semantic::types::unify::subst_rel(
                        tm,
                        t1,
                        m,
                        type_at(t0, base_id)@,
                        type_at(t1, t)@,
                        u64::MAX as nat,
                    )
            },
            Type::TypeParameter(_) => type_at(t1, t)@ matches TypeView::Generic(b, xs) && b == base_id && xs.len()
                == args.len() && forall|i: int| 0 <= i < args.len() ==> xs[i] == type_at(t0, #[trigger] args[i])@,
            _ => false,
        }
    }

    /// What resolving `reference` from state `before` gives, as far as it does not
    /// depend on resolving its type arguments: a cached answer; `RecursiveReference`
    /// for a name being resolved from the same scope; `TypeNotFound` for a name that
    /// resolves to no symbol; `NotAType` for a symbol that is no interface, alias or
    /// enum, or has no type; the symbol's type when there are no type arguments, then
    /// cached. With type arguments, a result is cached and comes only from a generic
    /// function type given one argument per type parameter (the function type, of
    /// the same form, with each stored type parameter replaced by a resolution of the
    /// argument in its place, as `subst_rel` says, where the interner did not fill
    /// up) or from a type parameter (its
    /// instantiation with resolutions of the arguments). Anything but a reference is
    /// `NotAType("Not a type reference")`.
    pub open spec fn reference_resolved(before: Self, after: Self, reference: Type, r: ResolutionResult<TypeId>) -> bool {
        match reference {
            Type::Reference { name, type_args } => {
                let scope = before.spec_current_scope();
                let key = (name@, scope);
                if before.spec_cache().contains_key(key) {
                    r matches Ok(t) && t == before.spec_cache()[key] && after.spec_cache() == before.spec_cache()
                } else if crate::semantic::scope::scope::lookup_opt(before.spec_resolving(), name@) == Some(scope) {
                    r matches Err(ResolutionError::RecursiveReference(n)) && n@ == name@
                } else {
                    match lexical_symbol(before.spec_symbols().spec_symbols(), before.spec_scopes().spec_scopes(), scope, name@) {
                        None => r matches Err(ResolutionError::TypeNotFound(n)) && n@ == name@,
                        Some(id) => {
                            let sym = before.spec_symbols().symbol_at(id);
                            if !names_type(sym.spec_kind()) || sym.spec_type_id() is None {
                                r matches Err(ResolutionError::NotAType(n)) && n@ == name@
                            } else if type_args@.len() == 0 {
                                &&& r matches Ok(t) && t == sym.spec_type_id().unwrap()
                                &&& after.spec_cache() == before.spec_cache().insert(key, sym.spec_type_id().unwrap())
                            } else {
                                let base_id = sym.spec_type_id().unwrap();
                                &&& r matches Ok(t) ==> after.spec_cache().contains_key(key) && after.spec_cache()[key] == t
                                &&& r matches Ok(t) ==> valid_id(after.spec_types(), t) && match type_at(before.spec_types(), base_id) {
                                    Type::Function { type_params, .. } => type_params@.len() == type_args@.len()
                                        && crate::semantic::types::unify::same_shape(
                                        type_at(before.spec_types(), base_id)@,
                                        type_at(after.spec_types(), t)@,
                                    ) && (after.spec_types().len() < u32::MAX ==> exists|args: Seq<TypeId>, tm: Seq<Type>, m: Map<TypeId, TypeId>|
                                        #[trigger] param_substitution(tm, params_view(type_params@), args, m)
                                        && args.len() == type_args@.len()
                                        && (forall|i: int| 0 <= i < args.len() ==> valid_id(tm, #[trigger] args[i]) && resolved_as(type_args@[i], type_at(tm, args[i])@))
                                        && extends(tm, before.spec_types()) && extends(after.spec_types(), tm)
                                        && crate::semantic::types::unify::subst_rel(
                                        tm,
                                        after.spec_types(),
                                        m,
                                        type_at(before.spec_types(), base_id)@,
                                        type_at(after.spec_types(), t)@,
                                        u64::MAX as nat,
                                    )),
                                    Type::TypeParameter(_) => type_at(after.spec_types(), t)@ matches TypeView::Generic(b, xs) && b
                                        == base_id && xs.len() == type_args@.len() && forall|i: int|
                                        0 <= i < xs.len() ==> resolved_as(#[trigger] type_args@[i], xs[i]),
                                    _ => false,
                                }
                            }
                        },
                    }
                }
            },
            _ => r matches Err(ResolutionError::NotAType(m)) && m@ == "Not a type reference"@,
        }
    }

    /// Whether resolving `reference` from state `before` fails before any type
    /// argument is looked at: it is not cached, and either its name is being resolved
    /// from the same scope, or resolves to no symbol, or to one that is no type.
    pub open spec fn reference_fails(before: Self, reference: Type) -> bool {
        match reference {
            Type::Reference { name, .. } => {
                let scope = before.spec_current_scope();
                &&& !before.spec_cache().contains_key((name@, scope))
                &&& (crate::semantic::scope::scope::lookup_opt(before.spec_resolving(), name@) == Some(scope)
                    || match lexical_symbol(before.spec_symbols().spec_symbols(), before.spec_scopes().spec_scopes(), scope, name@) {
                        None => true,
                        Some(id) => {
                            let sym = before.spec_symbols().symbol_at(id);
                            !names_type(sym.spec_kind()) || sym.spec_type_id() is None
                        },
                    })
            },
            _ => false,
        }
    }

    /// The symbol `name` resolves to from the current scope, if any.
    pub open spec fn target(self, name: Seq<char>) -> Option<SymbolId> {
        lexical_symbol(self.spec_symbols().spec_symbols(), self.spec_scopes().spec_scopes(), self.spec_current_scope(), name)
    }

    /// `self` differs from `before` at most by more stored types, cache entries and
    /// names being resolved, and by the types of symbols.
    pub open spec fn retypes(self, before: Self) -> bool {
        &&& extends(self.spec_types(), before.spec_types())
        &&& same_but_types(self.spec_symbols().spec_symbols(), before.spec_symbols().spec_symbols())
        &&& self.spec_scopes() == before.spec_scopes()
        &&& self.spec_current_scope() == before.spec_current_scope()
    }

    /// Both tables are well formed, and every type a symbol or the cache names is
    /// stored.
    pub open spec fn wf(self) -> bool {
        &&& self.spec_symbols().wf()
        &&& self.spec_scopes().wf()
        &&& symbol_types_stored(self.spec_symbols().spec_symbols(), self.spec_types())
        &&& cache_stored(self.spec_cache(), self.spec_types())
    }

    /// `self` differs from `before` at most by more stored types, cache entries and
    /// names being resolved.
    pub open spec fn grows(self, before: Self) -> bool {
        &&& extends(self.spec_types(), before.spec_types())
        &&& self.spec_symbols() == before.spec_symbols()
        &&& self.spec_scopes() == before.spec_scopes()
        &&& self.spec_current_scope() == before.spec_current_scope()
        &&& self.spec_next_scope() == before.spec_next_scope()
    }

    /// `ty` is plain (see `refs_plain`) from state `s`.
    pub open spec fn plain_in(s: Self, ty: Type) -> bool {
        refs_plain(s.spec_symbols(), s.spec_scopes(), s.spec_current_scope(), s.spec_resolving(), ty)
    }

    /// Every type of `v` is plain from state `s`.
    pub open spec fn plain_all(s: Self, v: Seq<Type>) -> bool {
        forall|i: int|
            0 <= i < v.len() ==> refs_plain(s.spec_symbols(), s.spec_scopes(), s.spec_current_scope(), s.spec_resolving(), #[trigger] v[i])
    }

    /// A resolver over the given tables, resolving from `root_scope`. It owns the
    /// symbol table and the interner while it works; `into_parts` hands them back.
    pub fn new(
        symbol_table: SymbolTable,
        scope_table: &'a ScopeTable,
        type_interner: TypeInterner,
        root_scope: ScopeId,
    ) -> (r: Self)
        ensures
            r.spec_symbols() == symbol_table,
            r.spec_scopes() == *scope_table,
            r.spec_types() == type_interner.spec_types(),
            r.spec_current_scope() == root_scope,
            r.spec_cache().dom() == Set::<(Seq<char>, ScopeId)>::empty(),
            r.spec_resolving().dom() == Set::<Seq<char>>::empty(),
            r.spec_next_scope() == 1,
    {
        TypeResolver {
            symbol_table,
            scope_table,
            type_interner,
            current_scope: root_scope,
            resolution_cache: cache_new(),
            resolving: resolving_new(),
            next_scope: 1,
        }
    }

    /// The symbol table and the interner, as the resolver leaves them.
    pub fn into_parts(self) -> (r: (SymbolTable, TypeInterner))
        ensures
            r.0 == self.spec_symbols(),
            r.1.spec_types() == self.spec_types(),
    {
        (self.symbol_table, self.type_interner)
    }

    /// The scope names are resolved from.
    pub fn current_scope(&self) -> (r: ScopeId)
        ensures
            r == self.spec_current_scope(),
    {
        self.current_scope
    }

    /// Resolves names from `scope` from now on.
    pub fn set_current_scope(&mut self, scope: ScopeId)
        ensures
            final(self).spec_current_scope() == scope,
            final(self).spec_symbols() == old(self).spec_symbols(),
            final(self).spec_scopes() == old(self).spec_scopes(),
            final(self).spec_types() == old(self).spec_types(),
            final(self).spec_cache() == old(self).spec_cache(),
    {
        self.current_scope = scope;
    }

    /// The span of `node`, or the empty span at 0 where it has none.
    fn get_span(&self, node: &AstNode<'_>) -> (r: Span)
        ensures
            node.spec_span() matches Some(s) ==> r == s,
    {
        match node.span() {
            Some(s) => s,
            None => Span::new(0, 0),
        }
    }

    /// Stores `ty`, unless no further type can be stored.
    fn store(&mut self, ty: Type) -> (r: ResolutionResult<TypeId>)
        requires
            old(self).wf(),
        ensures
            final(self).wf(),
            final(self).grows(*old(self)),
            final(self).spec_resolving() == old(self).spec_resolving(),
            final(self).spec_cache() == old(self).spec_cache(),
            r matches Ok(id) ==> valid_id(final(self).spec_types(), id) && type_at(final(self).spec_types(), id)@ == ty@,
            old(self).spec_types().len() < u32::MAX ==> r is Ok,
            final(self).spec_types().len() <= old(self).spec_types().len() + 1,
            r is Err ==> final(self).spec_types().len() >= u32::MAX,
    {
        if self.type_interner.is_full() {
            proof {
                lemma_extends_refl(self.spec_types());
            }
            return Err(ResolutionError::InternerFull(describe(&ty)));
        }
        let ghost t0 = self.spec_types();
        let id = self.type_interner.intern(ty);
        proof {
            lemma_intern_extends(t0, self.spec_types());
        }
        Ok(id)
    }

    /// A copy of the stored type `id`.
    fn stored_type(&self, id: TypeId) -> (r: Type)
        requires
            valid_id(self.spec_types(), id),
        ensures
            r@ == type_at(self.spec_types(), id)@,
    {
        copy_type(self.type_interner.get(id).unwrap())
    }

    /// Copies of the stored types `ids`.
    fn stored_types(&self, ids: &Vec<TypeId>) -> (r: Vec<Type>)
        requires
            forall|i: int| 0 <= i < ids@.len() ==> valid_id(self.spec_types(), #[trigger] ids@[i]),
        ensures
            r@.len() == ids@.len(),
            forall|i: int| 0 <= i < ids@.len() ==> (#[trigger] r@[i])@ == type_at(self.spec_types(), ids@[i])@,
    {
        let mut out: Vec<Type> = Vec::new();
        let mut i: usize = 0;
        while i < ids.len()
            invariant
                i <= ids@.len(),
                out@.len() == i,
                forall|k: int| 0 <= k < ids@.len() ==> valid_id(self.spec_types(), #[trigger] ids@[k]),
                forall|k: int| 0 <= k < i ==> (#[trigger] out@[k])@ == type_at(self.spec_types(), ids@[k])@,
            decreases ids@.len() - i,
        {
            out.push(self.stored_type(ids[i]));
            i = i + 1;
        }
        out
    }

    /// Resolves a reference to a named type: the type of the type symbol (interface,
    /// type alias or enum) that `name` resolves to from the current scope, with type
    /// arguments substituted for the parameters of a generic function type, or
    /// applied to a type parameter. Results are cached by name and scope.
    ///
    /// # Errors
    ///
    /// `NotAType` for anything but a reference, a symbol that is not a type or has no
    /// type; `TypeNotFound` where the name resolves to no symbol;
    /// `RecursiveReference` where the name is being resolved from the same scope
    /// already (or a generic went past its depth); `InternerFull` where no further
    /// type can be stored;
    /// `GenericArityMismatch` where the argument count is wrong.
    pub fn resolve_type_reference(&mut self, reference: &Type) -> (r: ResolutionResult<TypeId>)
        requires
            old(self).wf(),
        ensures
            final(self).wf(),
            final(self).grows(*old(self)),
            final(self).spec_resolving() == old(self).spec_resolving(),
            r matches Ok(id) ==> valid_id(final(self).spec_types(), id),
            Self::reference_resolved(*old(self), *final(self), *reference, r),
    {
        self.resolve_reference_within(reference, u64::MAX)
    }

    /// `resolve_type_reference`, descending at most `fuel` stored types deep.
    fn resolve_reference_within(&mut self, reference: &Type, fuel: u64) -> (r: ResolutionResult<TypeId>)
        requires
            old(self).wf(),
        ensures
            final(self).wf(),
            final(self).grows(*old(self)),
            final(self).spec_resolving() == old(self).spec_resolving(),
            r matches Ok(id) ==> valid_id(final(self).spec_types(), id),
            Self::reference_resolved(*old(self), *final(self), *reference, r),
            reference matches Type::Reference { type_args, .. } && type_args@.len() == 0 ==> final(self).spec_types().len()
                == old(self).spec_types().len(),
        decreases fuel, type_size(*reference), 0nat,
    {
        proof {
            lemma_extends_refl(self.spec_types());
        }
        let (name, type_args) = match reference {
            Type::Reference { name, type_args } => (name, type_args),
            _ => return Err(ResolutionError::NotAType(String::from_str("Not a type reference"))),
        };
        let scope = self.current_scope;
        if let Some(resolved_id) = cache_get(&self.resolution_cache, name, scope) {
            return Ok(resolved_id);
        }
        let prev = resolving_get(&self.resolving, name);
        if let Some(s) = prev {
            if s == scope {
                return Err(ResolutionError::RecursiveReference(name.clone()));
            }
        }
        resolving_insert(&mut self.resolving, name.clone(), scope);
        proof {
            match prev {
                Some(s) => assert(self.spec_resolving().insert(name@, s) =~= old(self).spec_resolving()),
                None => assert(self.spec_resolving().remove(name@) =~= old(self).spec_resolving()),
            }
        }
        proof {
            self.spec_symbols().lemma_lexical_valid(self.spec_scopes().spec_scopes(), scope, name@);
        }
        let symbol_id = match self.symbol_table.lookup_lexical(name, scope, self.scope_table) {
            Some(id) => id,
            None => {
                self.restore_resolving(name, prev);
                return Err(ResolutionError::TypeNotFound(name.clone()));
            },
        };
        let (kind, type_id) = match self.symbol_table.lookup(symbol_id) {
            Some(symbol) => (symbol.kind(), symbol.type_id()),
            None => {
                self.restore_resolving(name, prev);
                return Err(ResolutionError::TypeNotFound(name.clone()));
            },
        };
        match kind {
            SymbolKind::Interface | SymbolKind::TypeAlias | SymbolKind::Enum => {},
            _ => {
                self.restore_resolving(name, prev);
                return Err(ResolutionError::NotAType(name.clone()));
            },
        }
        let type_id = match type_id {
            Some(t) => t,
            None => {
                self.restore_resolving(name, prev);
                return Err(ResolutionError::NotAType(name.clone()));
            },
        };
        proof {
            assert(valid_id(self.spec_types(), type_id));
        }
        let ghost before_args = *self;
        proof {
            lemma_extends_refl(self.spec_types());
            assert(before_args.grows(*old(self)));
        }
        let resolved_args = match self.resolve_type_args(type_args, fuel) {
            Ok(v) => v,
            Err(e) => {
                let ghost pre = *self;
                self.restore_resolving(name, prev);
                proof {
                    lemma_grows_trans(*old(self), before_args, pre);
                    lemma_grows_trans(*old(self), pre, *self);
                }
                return Err(e);
            },
        };
        let ghost after_args = *self;
        proof {
            lemma_extends_valid_id(before_args.spec_types(), self.spec_types(), type_id);
        }
        let final_type_id = if resolved_args.len() > 0 {
            let ghost pre = *self;
            let id = match self.apply_type_args(name, type_id, &resolved_args) {
                Ok(id) => id,
                Err(e) => {
                    let ghost pre2 = *self;
                    self.restore_resolving(name, prev);
                    proof {
                        lemma_grows_trans(before_args, pre, pre2);
                        lemma_grows_trans(*old(self), before_args, pre2);
                        lemma_grows_trans(*old(self), pre2, *self);
                    }
                    return Err(e);
                },
            };
            proof {
                lemma_grows_trans(before_args, pre, *self);
                lemma_extends_valid_id(before_args.spec_types(), after_args.spec_types(), type_id);
                if let Type::Function { type_params, .. } = type_at(after_args.spec_types(), type_id) {
                    if self.spec_types().len() < u32::MAX {
                        let (tm, m) = choose|tm: Seq<Type>, m: Map<TypeId, TypeId>|
                            #[trigger] param_substitution(tm, params_view(type_params@), resolved_args@, m) && extends(tm, after_args.spec_types())
                                && extends(self.spec_types(), tm) && crate::semantic::types::unify::subst_rel(
                                tm,
                                self.spec_types(),
                                m,
                                type_at(after_args.spec_types(), type_id)@,
                                type_at(self.spec_types(), id)@,
                                u64::MAX as nat,
                            );
                        assert forall|i: int| 0 <= i < resolved_args@.len() implies valid_id(tm, #[trigger] resolved_args@[i])
                            && resolved_as(type_args@[i], type_at(tm, resolved_args@[i])@) by {
                            lemma_extends_valid_id(after_args.spec_types(), tm, resolved_args@[i]);
                        }
                        lemma_extends_chain(old(self).spec_types(), after_args.spec_types(), tm);
                        lemma_extends_valid_id(old(self).spec_types(), after_args.spec_types(), type_id);
                    }
                }
                if type_at(after_args.spec_types(), type_id) is TypeParameter {
                    let xs = type_at(self.spec_types(), id)@->Generic_1;
                    assert forall|i: int| 0 <= i < xs.len() implies resolved_as(#[trigger] type_args@[i], xs[i]) by {
                        assert(xs[i] == type_at(after_args.spec_types(), resolved_args@[i])@);
                    }
                }
            }
            id
        } else {
            type_id
        };
        let ghost pre_cache = *self;
        cache_insert(&mut self.resolution_cache, name.clone(), scope, final_type_id);
        self.restore_resolving(name, prev);
        proof {
            lemma_grows_trans(*old(self), before_args, pre_cache);
            assert forall|k: (Seq<char>, ScopeId)| #[trigger] self.spec_cache().contains_key(k) implies valid_id(self.spec_types(), self.spec_cache()[k]) by {
                if k != (name@, scope) {
                    assert(pre_cache.spec_cache().contains_key(k));
                }
            }
        }
        Ok(final_type_id)
    }

    /// Puts back what the names being resolved held for `name` before: `prev`, or
    /// nothing.
    fn restore_resolving(&mut self, name: &String, prev: Option<ScopeId>)
        requires
            old(self).wf(),
        ensures
            final(self).wf(),
            final(self).grows(*old(self)),
            final(self).spec_types() == old(self).spec_types(),
            final(self).spec_cache() == old(self).spec_cache(),
            final(self).spec_resolving() == match prev {
                Some(s) => old(self).spec_resolving().insert(name@, s),
                None => old(self).spec_resolving().remove(name@),
            },
    {
        proof {
            lemma_extends_refl(self.spec_types());
        }
        match prev {
            Some(s) => resolving_insert(&mut self.resolving, name.clone(), s),
            None => resolving_remove(&mut self.resolving, name),
        }
    }

    /// Gives the symbol that `name` resolves to from the current scope the type `ty`;
    /// nothing happens where it resolves to none.
    fn set_symbol_type(&mut self, name: &String, ty: TypeId)
        requires
            old(self).wf(),
            valid_id(old(self).spec_types(), ty),
        ensures
            final(self).wf(),
            final(self).retypes(*old(self)),
            final(self).spec_next_scope() == old(self).spec_next_scope(),
            final(self).spec_types() == old(self).spec_types(),
            final(self).spec_cache() == old(self).spec_cache(),
            forall|j: int|
                0 <= j < old(self).spec_symbols().spec_symbols().len() && old(self).target(name@) != Some(
                    #[trigger] old(self).spec_symbols().spec_symbols()[j].spec_id(),
                ) ==> final(self).spec_symbols().spec_symbols()[j] == old(self).spec_symbols().spec_symbols()[j],
            old(self).target(name@) matches Some(id) ==> final(self).spec_symbols().symbol_at(id).spec_type_id()
                == Some(ty),
    {
        proof {
            self.spec_symbols().lemma_lexical_valid(self.spec_scopes().spec_scopes(), self.current_scope, name@);
            lemma_extends_refl(self.spec_types());
        }
        let target = self.symbol_table.lookup_lexical(name, self.current_scope, self.scope_table);
        if let Some(id) = target {
            let ghost before = self.spec_symbols().spec_symbols();
            match self.symbol_table.lookup_mut(id) {
                Some(symbol) => symbol.set_type_id(ty),
                None => {},
            }
            proof {
                let after = self.spec_symbols().spec_symbols();
                assert forall|j: int| 0 <= j < before.len() implies same_identity(#[trigger] after[j], before[j]) by {
                    if j != id.spec_get() {
                        assert(after[j] == before[j]);
                    }
                }
                assert forall|j: int|
                    0 <= j < before.len() && Some(id) != Some(#[trigger] before[j].spec_id()) implies after[j]
                        == before[j] by {
                    if j == id.spec_get() {
                        old(self).spec_symbols().lemma_ids();
                        SymbolId::lemma_eq(before[j].spec_id(), id);
                    }
                }
                assert forall|i: int|
                    0 <= i < after.len() implies ((#[trigger] after[i]).spec_type_id() matches Some(t) ==> valid_id(self.spec_types(), t)) by {
                    if i != id.spec_get() {
                        assert(after[i] == before[i]);
                    }
                }
            }
        }
    }

    /// Records the types of `declarations`, in order (see `type_declaration`).
    fn type_declarations(&mut self, declarations: &Vec<VariableDeclaration>)
        requires
            old(self).wf(),
        ensures
            final(self).wf(),
            final(self).retypes(*old(self)),
            final(self).spec_next_scope() == old(self).spec_next_scope(),
            forall|j: int|
                0 <= j < old(self).spec_symbols().spec_symbols().len() && !declared_upto(
                    declarations@,
                    declarations@.len() as int,
                    (#[trigger] old(self).spec_symbols().spec_symbols()[j]).spec_name(),
                ) ==> final(self).spec_symbols().spec_symbols()[j] == old(self).spec_symbols().spec_symbols()[j],
            final(self).spec_types().len() < u32::MAX ==> forall|i: int|
                #![trigger unrepeated(declarations@, i, declarations@.len() as int)]
                0 <= i < declarations@.len() && unrepeated(declarations@, i, declarations@.len() as int) ==> (old(self).target(
                    declarations@[i].name@,
                ) matches Some(id) ==> declaration_typed(*final(self), id, declarations@[i])),
    {
        proof {
            Self::lemma_retypes_refl(*self);
        }
        let ghost start = self.spec_symbols().spec_symbols();
        let mut i: usize = 0;
        while i < declarations.len()
            invariant
                i <= declarations@.len(),
                self.wf(),
                self.retypes(*old(self)),
                self.spec_next_scope() == old(self).spec_next_scope(),
                start == old(self).spec_symbols().spec_symbols(),
                forall|j: int|
                    0 <= j < start.len() && !declared_upto(declarations@, i as int, (#[trigger] start[j]).spec_name())
                        ==> self.spec_symbols().spec_symbols()[j] == start[j],
                self.spec_types().len() < u32::MAX ==> forall|i2: int|
                    #![trigger unrepeated(declarations@, i2, i as int)]
                    0 <= i2 < i && unrepeated(declarations@, i2, i as int) ==> (old(self).target(declarations@[i2].name@) matches Some(
                        id,
                    ) ==> declaration_typed(*self, id, declarations@[i2])),
            decreases declarations@.len() - i,
        {
            let ghost pre = *self;
            self.type_declaration(&declarations[i]);
            proof {
                Self::lemma_declarations_step(*old(self), pre, *self, declarations@, i as int);
                Self::lemma_retypes_trans(*old(self), pre, *self);
                assert forall|j: int|
                    0 <= j < start.len() && !declared_upto(declarations@, i + 1, (#[trigger] start[j]).spec_name())
                        implies self.spec_symbols().spec_symbols()[j] == start[j] by {
                    assert(!declared_upto(declarations@, i as int, start[j].spec_name()));
                    assert(declarations@[i as int].name@ != start[j].spec_name());
                    assert(pre.spec_symbols().spec_symbols()[j] == start[j]);
                }
            }
            i = i + 1;
        }
    }

    /// Records the type of a declaration: its annotation, resolved (nothing is
    /// recorded where it fails to resolve), or `unknown` where it has none, becomes
    /// the type of the symbol its name resolves to from the current scope. Other
    /// symbols keep their types.
    fn type_declaration(&mut self, decl: &VariableDeclaration)
        requires
            old(self).wf(),
        ensures
            final(self).wf(),
            final(self).retypes(*old(self)),
            final(self).spec_next_scope() == old(self).spec_next_scope(),
            forall|j: int|
                0 <= j < old(self).spec_symbols().spec_symbols().len() && old(self).target(decl.name@) != Some(
                    #[trigger] old(self).spec_symbols().spec_symbols()[j].spec_id(),
                ) ==> final(self).spec_symbols().spec_symbols()[j] == old(self).spec_symbols().spec_symbols()[j],
            forall|j: int|
                0 <= j < old(self).spec_symbols().spec_symbols().len() && (#[trigger] old(
                    self,
                ).spec_symbols().spec_symbols()[j]).spec_name() != decl.name@ ==> final(self).spec_symbols().spec_symbols()[j]
                    == old(self).spec_symbols().spec_symbols()[j],
            decl.type_annotation is None && final(self).spec_types().len() < u32::MAX ==> (old(self).target(decl.name@) matches Some(id)
                ==> unknown_typed(*final(self), id)),
            decl.type_annotation matches Some(a) ==> (old(self).target(decl.name@) matches Some(id) ==> {
                ||| final(self).spec_symbols().spec_symbols() == old(self).spec_symbols().spec_symbols()
                ||| final(self).spec_symbols().symbol_at(id).spec_type_id() matches Some(t) && valid_id(final(self).spec_types(), t)
                    && annotation_resolved(a, type_at(final(self).spec_types(), t)@)
            }),
            decl.type_annotation matches Some(a) ==> (view_free(annotation_view(a)) && final(self).spec_types().len() < u32::MAX
                ==> (old(self).target(decl.name@) matches Some(id) ==> final(self).spec_symbols().symbol_at(id).spec_type_id() matches Some(
                t) && valid_id(final(self).spec_types(), t) && type_at(final(self).spec_types(), t)@ == annotation_view(a))),
    {
        let ghost pre = *self;
        let ty = match &decl.type_annotation {
            Some(a) => {
                let value = self.type_annotation_to_type(a);
                let res = self.resolve_type(&value);
                proof {
                    if let Ok(id) = res {
                        assert(resolved_as(value, type_at(self.spec_types(), id)@));
                        assert(annotation_resolved(*a, type_at(self.spec_types(), id)@));
                    }
                    if view_free(annotation_view(*a)) {
                        lemma_view_free(value);
                        if let Ok(id) = res {
                            assert(type_at(self.spec_types(), id)@ == annotation_view(*a));
                        }
                    }
                }
                match res {
                    Ok(id) => Some(id),
                    Err(_) => None,
                }
            },
            None => {
                if self.type_interner.is_full() {
                    None
                } else {
                    let id = self.type_interner.get_or_intern_primitive(PrimitiveType::Unknown);
                    proof {
                        lemma_intern_extends(pre.spec_types(), self.spec_types());
                        lemma_cache_still_stored(pre, *self);
                    }
                    Some(id)
                }
            },
        };
        proof {
            if decl.type_annotation is Some {
                assert(self.grows(pre));
            } else {
                lemma_extends_refl(pre.spec_types());
                lemma_grows_after_interner(pre, *self);
            }
            Self::lemma_grows_retypes(pre, *self);
            lemma_lexical_same(self.spec_symbols().spec_symbols(), pre.spec_symbols().spec_symbols(),
                pre.spec_scopes().spec_scopes(), pre.spec_current_scope(), decl.name@);
        }
        let ghost mid = *self;
        if let Some(t) = ty {
            self.set_symbol_type(&decl.name, t);
            proof {
                Self::lemma_retypes_trans(pre, mid, *self);
                assert forall|j: int|
                    0 <= j < pre.spec_symbols().spec_symbols().len() && (#[trigger] pre.spec_symbols().spec_symbols()[j]).spec_name()
                        != decl.name@ implies self.spec_symbols().spec_symbols()[j] == pre.spec_symbols().spec_symbols()[j] by {
                    Self::lemma_other_name_untargeted(pre, decl.name@, j);
                }
            }
        } else {
            proof {
                Self::lemma_retypes_refl(*self);
            }
        }
    }

    /// Records the type of a function declaration: where `name` resolves to a symbol
    /// from the current scope, that symbol gets the function type whose parameters
    /// are the parameters' annotations, resolved (`unknown` where there is none or it
    /// fails to resolve), whose return type is the return annotation, resolved
    /// (`unknown` likewise), and which has no type parameters. Other symbols keep
    /// their types.
    fn type_function(&mut self, name: &String, params: &Vec<Parameter>, return_type: &Option<TypeAnnotation>)
        requires
            old(self).wf(),
        ensures
            final(self).wf(),
            final(self).retypes(*old(self)),
            final(self).spec_next_scope() == old(self).spec_next_scope(),
            forall|j: int|
                0 <= j < old(self).spec_symbols().spec_symbols().len() && old(self).target(name@) != Some(
                    #[trigger] old(self).spec_symbols().spec_symbols()[j].spec_id(),
                ) ==> final(self).spec_symbols().spec_symbols()[j] == old(self).spec_symbols().spec_symbols()[j],
            final(self).spec_types().len() < u32::MAX ==> (old(self).target(name@) matches Some(id)
                ==> function_typed(*final(self), id, params@, *return_type)),
            final(self).spec_types().len() < u32::MAX ==> (old(self).target(name@) matches Some(id)
                ==> plainly_typed(*old(self), *final(self), id, params@, *return_type)),
            forall|j: int|
                0 <= j < old(self).spec_symbols().spec_symbols().len() && (#[trigger] old(
                    self,
                ).spec_symbols().spec_symbols()[j]).spec_name() != name@ ==> final(self).spec_symbols().spec_symbols()[j]
                    == old(self).spec_symbols().spec_symbols()[j],
    {
        proof {
            Self::lemma_retypes_refl(*self);
            lemma_extends_refl(self.spec_types());
        }
        if self.symbol_table.lookup_lexical(name, self.current_scope, self.scope_table).is_none() {
            return;
        }
        let ghost start = *self;
        let mut param_types: Vec<Type> = Vec::new();
        let mut i: usize = 0;
        while i < params.len()
            invariant
                i <= params@.len(),
                start == *old(self),
                self.wf(),
                self.grows(start),
                param_types@.len() == i,
                forall|k: int| 0 <= k < i ==> (#[trigger] params@[k]).type_annotation is None ==> param_types@[k]@
                    == TypeView::Primitive(PrimitiveType::Unknown),
                self.spec_types().len() < u32::MAX ==> forall|k: int|
                    0 <= k < i ==> ((#[trigger] params@[k]).type_annotation matches Some(a) ==> annotated_as(
                        a,
                        param_types@[k]@,
                    )),
                self.spec_resolving() == old(self).spec_resolving(),
                self.spec_types().len() < u32::MAX ==> forall|k: int|
                    0 <= k < i ==> match (#[trigger] params@[k]).type_annotation {
                        Some(a) => annotation_plain(*old(self), a) ==> annotation_resolved(a, param_types@[k]@),
                        None => true,
                    },
            decreases params@.len() - i,
        {
            let ghost pre = *self;
            let t = match &params[i].type_annotation {
                Some(a) => {
                    let value = self.type_annotation_to_type(a);
                    let res = self.resolve_type(&value);
                    let t = match res {
                        Ok(id) => self.stored_type(id),
                        Err(_) => {
                            self.note_unknown();
                            Type::Primitive(PrimitiveType::Unknown)
                        },
                    };
                    proof {
                        if res is Ok {
                            assert(resolved_as(value, t@));
                            assert(annotation_resolved(*a, t@));
                        }
                        if view_free(annotation_view(*a)) {
                            lemma_view_free(value);
                        }
                        assert(self.spec_types().len() < u32::MAX ==> annotated_as(*a, t@));
                        if annotation_plain(*old(self), *a) {
                            lemma_view_plain(pre.spec_symbols(), pre.spec_scopes(), pre.spec_current_scope(), pre.spec_resolving(), value);
                        }
                    }
                    t
                },
                None => {
                    self.note_unknown();
                    Type::Primitive(PrimitiveType::Unknown)
                },
            };
            proof {
                lemma_grows_trans(start, pre, *self);
            }
            param_types.push(t);
            i = i + 1;
        }
        let ghost p1 = *self;
        let return_ty = match return_type {
            Some(rt) => {
                let value = self.type_annotation_to_type(rt);
                let res = self.resolve_type(&value);
                let t = match res {
                    Ok(id) => self.stored_type(id),
                    Err(_) => Type::Primitive(PrimitiveType::Unknown),
                };
                proof {
                    if res is Ok {
                        assert(resolved_as(value, t@));
                        assert(annotation_resolved(*rt, t@));
                    }
                    if view_free(annotation_view(*rt)) {
                        lemma_view_free(value);
                    }
                    if annotation_plain(*old(self), *rt) {
                        lemma_view_plain(p1.spec_symbols(), p1.spec_scopes(), p1.spec_current_scope(), p1.spec_resolving(), value);
                    }
                }
                t
            },
            None => Type::Primitive(PrimitiveType::Unknown),
        };
        proof {
            lemma_grows_trans(start, p1, *self);
        }
        if self.type_interner.is_full() {
            proof {
                Self::lemma_grows_retypes(start, *self);
            }
            return;
        }
        let ghost pv = param_types@;
        let ghost rv = return_ty@;
        let function_type = Type::Function { params: param_types, return_type: Box::new(return_ty), type_params: Vec::new() };
        let ghost pre = *self;
        let ghost fv = function_type@;
        proof {
            crate::semantic::types::representation::lemma_types_view(pv);
            assert(fv == TypeView::Function(crate::semantic::types::representation::types_view(pv), Box::new(rv),
                crate::semantic::types::representation::params_view(Seq::<TypeParameter>::empty())));
            assert(return_type is None ==> rv == TypeView::Primitive(PrimitiveType::Unknown));
        }
        let type_id = self.type_interner.intern(function_type);
        proof {
            lemma_intern_extends(pre.spec_types(), self.spec_types());
            lemma_grows_after_interner(pre, *self);
            lemma_cache_still_stored(pre, *self);
            lemma_grows_trans(start, pre, *self);
            Self::lemma_grows_retypes(start, *self);
        }
        let ghost mid = *self;
        self.set_symbol_type(name, type_id);
        proof {
            assert forall|j: int|
                0 <= j < mid.spec_symbols().spec_symbols().len() && (#[trigger] mid.spec_symbols().spec_symbols()[j]).spec_name()
                    != name@ implies self.spec_symbols().spec_symbols()[j] == mid.spec_symbols().spec_symbols()[j] by {
                Self::lemma_other_name_untargeted(mid, name@, j);
            }
            Self::lemma_retypes_trans(start, mid, *self);
            assert(mid.target(name@) == old(self).target(name@));
            assert(crate::semantic::types::representation::params_view(Seq::<TypeParameter>::empty()).len() == 0);
            assert(type_at(self.spec_types(), type_id)@ == fv);
            if let Some(id) = old(self).target(name@) {
                assert(self.spec_symbols().symbol_at(id).spec_type_id() == Some(type_id));
                assert forall|k: int| 0 <= k < params@.len() && (#[trigger] params@[k]).type_annotation is None implies crate::semantic::types::representation::types_view(pv)[k] == TypeView::Primitive(PrimitiveType::Unknown) by {
                    assert(pv[k]@ == TypeView::Primitive(PrimitiveType::Unknown));
                }
            }
        }
    }

    /// Stores the `unknown` primitive, unless no further type can be stored.
    fn note_unknown(&mut self)
        requires
            old(self).wf(),
        ensures
            final(self).wf(),
            final(self).grows(*old(self)),
            final(self).spec_cache() == old(self).spec_cache(),
            final(self).spec_types().len() <= old(self).spec_types().len() + 1,
            old(self).spec_types().len() < u32::MAX ==> exists|id: TypeId|
                valid_id(final(self).spec_types(), id) && #[trigger] type_at(final(self).spec_types(), id)@
                    == TypeView::Primitive(PrimitiveType::Unknown),
            old(self).spec_types().len() >= u32::MAX ==> final(self).spec_types() == old(self).spec_types(),
            final(self).spec_resolving() == old(self).spec_resolving(),
    {
        let ghost pre = *self;
        proof {
            lemma_extends_refl(self.spec_types());
        }
        if !self.type_interner.is_full() {
            let _ = self.type_interner.get_or_intern_primitive(PrimitiveType::Unknown);
            proof {
                lemma_intern_extends(pre.spec_types(), self.spec_types());
                lemma_cache_still_stored(pre, *self);
            }
        }
    }

    /// Stores the type parameters `type_params` (one per argument) and maps each to
    /// the argument in its place (see `param_substitution`).
    fn param_substitutions(&mut self, type_params: &Vec<TypeParameter>, resolved_args: &Vec<TypeId>, type_id: TypeId) -> (r:
        ResolutionResult<Substitutions>)
        requires
            old(self).wf(),
            type_params@.len() == resolved_args@.len(),
            valid_id(old(self).spec_types(), type_id),
            !(type_at(old(self).spec_types(), type_id)@ is TypeParameter),
            forall|i: int| 0 <= i < resolved_args@.len() ==> valid_id(old(self).spec_types(), #[trigger] resolved_args@[i]),
        ensures
            final(self).wf(),
            final(self).grows(*old(self)),
            final(self).spec_resolving() == old(self).spec_resolving(),
            final(self).spec_cache() == old(self).spec_cache(),
            r matches Ok(m) ==> {
                &&& param_substitution(final(self).spec_types(), params_view(type_params@), resolved_args@, substitution_entries(m))
                &&& replacements_stored(substitution_entries(m), final(self).spec_types())
                &&& crate::semantic::types::unify::keys_stored(substitution_entries(m), final(self).spec_types())
                &&& !substitution_entries(m).contains_key(type_id)
            },
    {
        let mut substitutions = substitutions_new();
        let ghost pvs = params_view(type_params@);
        let ghost before_args = *self;
        proof {
            lemma_extends_refl(self.spec_types());
        }
        proof {
            assert(pvs.take(0) =~= Seq::<ParamView>::empty());
            assert(resolved_args@.take(0) =~= Seq::<TypeId>::empty());
            crate::semantic::types::representation::lemma_params_view(type_params@);
        }
        let mut k: usize = 0;
        while k < type_params.len()
            invariant
                pvs == params_view(type_params@),
                pvs.len() == type_params@.len(),
                forall|j: int| 0 <= j < type_params@.len() ==> #[trigger] pvs[j] == param_view(type_params@[j]),
                param_substitution(self.spec_types(), pvs.take(k as int), resolved_args@.take(k as int), substitution_entries(substitutions)),
                self.spec_resolving() == old(self).spec_resolving(),
                k <= type_params@.len(),
                type_params@.len() == resolved_args@.len(),
                self.wf(),
                self.grows(before_args),
                before_args == *old(self),
                forall|i: int| 0 <= i < resolved_args@.len() ==> valid_id(self.spec_types(), #[trigger] resolved_args@[i]),
                valid_id(self.spec_types(), type_id),
                replacements_stored(substitution_entries(substitutions), self.spec_types()),
                self.spec_cache() == old(self).spec_cache(),
                forall|t: TypeId|
                    #[trigger] substitution_entries(substitutions).contains_key(t) ==> valid_id(self.spec_types(), t)
                        && type_at(self.spec_types(), t)@ is TypeParameter,
                type_at(self.spec_types(), type_id) == type_at(old(self).spec_types(), type_id),
            decreases type_params@.len() - k,
        {
            let ghost pre = *self;
            let param_id = match self.store(Type::TypeParameter(type_params[k].clone())) {
                Ok(id) => id,
                Err(e) => {
                    proof {
                        lemma_grows_trans(before_args, pre, *self);
                    }
                    return Err(e);
                },
            };
            proof {
                lemma_grows_trans(before_args, pre, *self);
                lemma_extends_valid_id(pre.spec_types(), self.spec_types(), type_id);
                assert forall|i: int| 0 <= i < resolved_args@.len() implies valid_id(self.spec_types(), #[trigger] resolved_args@[i]) by {
                    lemma_extends_valid_id(pre.spec_types(), self.spec_types(), resolved_args@[i]);
                }
                assert forall|t: TypeId| #[trigger] substitution_entries(substitutions).contains_key(t) implies valid_id(self.spec_types(), substitution_entries(substitutions)[t]) by {
                    lemma_extends_valid_id(pre.spec_types(), self.spec_types(), substitution_entries(substitutions)[t]);
                }
                assert forall|t: TypeId| #[trigger] substitution_entries(substitutions).contains_key(t) implies valid_id(self.spec_types(), t)
                    && type_at(self.spec_types(), t)@ is TypeParameter by {
                    lemma_extends_valid_id(pre.spec_types(), self.spec_types(), t);
                }
            }
            let ghost s0 = substitution_entries(substitutions);
            self.type_interner.lemma_interned();
            proof {
                lemma_param_substitution_step(pre.spec_types(), self.spec_types(), pvs, resolved_args@, s0, k as int, param_id);
            }
            substitutions_insert(&mut substitutions, param_id, resolved_args[k]);
            proof {
                assert forall|t: TypeId| #[trigger] substitution_entries(substitutions).contains_key(t) implies valid_id(self.spec_types(), t)
                    && type_at(self.spec_types(), t)@ is TypeParameter by {
                    if t != param_id {
                        assert(s0.contains_key(t));
                    }
                }
            }
            k = k + 1;
        }
        proof {
            assert(pvs.take(type_params@.len() as int) =~= pvs);
            assert(resolved_args@.take(resolved_args@.len() as int) =~= resolved_args@);
            if substitution_entries(substitutions).contains_key(type_id) {
                assert(type_at(self.spec_types(), type_id)@ is TypeParameter);
                assert(false);
            }
        }
        Ok(substitutions)
    }

    /// Applies resolved type arguments to the stored type `type_id` that `name` names:
    /// a generic function type has its type parameters replaced by the arguments (one
    /// argument per parameter, else `GenericArityMismatch`), a type parameter becomes
    /// a generic instantiation, and any other type takes no arguments
    /// (`GenericArityMismatch` with 0 expected).
    fn apply_type_args(&mut self, name: &String, type_id: TypeId, resolved_args: &Vec<TypeId>) -> (r: ResolutionResult<TypeId>)
        requires
            old(self).wf(),
            valid_id(old(self).spec_types(), type_id),
            forall|i: int| 0 <= i < resolved_args@.len() ==> valid_id(old(self).spec_types(), #[trigger] resolved_args@[i]),
        ensures
            final(self).wf(),
            final(self).grows(*old(self)),
            final(self).spec_resolving() == old(self).spec_resolving(),
            final(self).spec_cache() == old(self).spec_cache(),
            r matches Ok(id) ==> valid_id(final(self).spec_types(), id),
            r matches Ok(t) ==> Self::applied(
                old(self).spec_types(),
                final(self).spec_types(),
                type_id,
                resolved_args@,
                t,
            ),
            Self::arity_error(type_at(old(self).spec_types(), type_id), resolved_args@.len()) matches Some(expected) ==> (
            r matches Err(ResolutionError::GenericArityMismatch { name: n, expected: e, actual: a }) && n@ == name@ && e
                == expected && a == resolved_args@.len()),
            type_at(old(self).spec_types(), type_id) is TypeParameter && old(self).spec_types().len() < u32::MAX ==> r is Ok,
    {
        proof {
            lemma_extends_refl(self.spec_types());
        }
        let ghost before_args = *self;
        let ghost base = type_at(self.spec_types(), type_id);
        let base_is_function;
        let base_is_parameter;
        let mut type_params: Vec<TypeParameter> = Vec::new();
        match self.type_interner.get(type_id) {
            Some(Type::Function { type_params: tps, .. }) => {
                base_is_function = true;
                base_is_parameter = false;
                type_params = copy_params(tps);
            },
            Some(Type::TypeParameter(_)) => {
                base_is_function = false;
                base_is_parameter = true;
            },
            Some(_) => {
                base_is_function = false;
                base_is_parameter = false;
            },
            None => return Err(ResolutionError::TypeNotFound(name.clone())),
        }
        if base_is_function {
            if type_params.len() != resolved_args.len() {
                return Err(
                    ResolutionError::GenericArityMismatch {
                        name: name.clone(),
                        expected: type_params.len(),
                        actual: resolved_args.len(),
                    },
                );
            }
            let ghost pvs = params_view(type_params@);
            let ghost pre0 = *self;
            let substitutions = match self.param_substitutions(&type_params, resolved_args, type_id) {
                Ok(m) => m,
                Err(e) => {
                    proof {
                        lemma_grows_trans(*old(self), pre0, *self);
                    }
                    return Err(e);
                },
            };
            proof {
                lemma_grows_trans(*old(self), pre0, *self);
                lemma_extends_valid_id(pre0.spec_types(), self.spec_types(), type_id);
            }
            let ghost pre = *self;
            proof {
                if substitution_entries(substitutions).contains_key(type_id) {
                    assert(type_at(self.spec_types(), type_id)@ is TypeParameter);
                    assert(false);
                }
            }
            let r = substitute_type_params(type_id, &substitutions, &mut self.type_interner);
            proof {
                if self.spec_types().len() < u32::MAX {
                    let tm = pre.spec_types();
                    let m = substitution_entries(substitutions);
                    assert(crate::semantic::types::unify::keys_stored(m, tm));
                    assert(param_substitution(tm, params_view(type_params@), resolved_args@, m));
                }
                lemma_grows_after_interner(pre, *self);
                lemma_grows_trans(*old(self), pre, *self);
                lemma_cache_still_stored(pre, *self);
            }
            Ok(r)
        } else if base_is_parameter {
            let arg_types = self.stored_types(resolved_args);
            proof {
                crate::semantic::types::representation::lemma_types_view(arg_types@);
            }
            let ghost pre = *self;
            let r = match self.store(Type::Generic { base: type_id, args: arg_types }) {
                Ok(id) => id,
                Err(e) => {
                    proof {
                        lemma_grows_trans(before_args, pre, *self);
                        lemma_grows_trans(*old(self), before_args, *self);
                    }
                    return Err(e);
                },
            };
            proof {
                lemma_grows_trans(before_args, pre, *self);
            }
            Ok(r)
        } else {
            return Err(
                ResolutionError::GenericArityMismatch { name: name.clone(), expected: 0, actual: resolved_args.len() },
            );
        }
    }

    /// Resolves each type of `type_args`, in order; the first failure ends it.
    fn resolve_type_args(&mut self, type_args: &Vec<Type>, fuel: u64) -> (r: ResolutionResult<Vec<TypeId>>)
        requires
            old(self).wf(),
        ensures
            final(self).wf(),
            final(self).grows(*old(self)),
            final(self).spec_resolving() == old(self).spec_resolving(),
            r matches Ok(v) ==> v@.len() == type_args@.len() && forall|i: int|
                0 <= i < v@.len() ==> valid_id(final(self).spec_types(), #[trigger] v@[i]),
            r matches Ok(v) ==> forall|i: int|
                #![trigger v@[i]]
                0 <= i < v@.len() ==> resolved_as(type_args@[i], type_at(final(self).spec_types(), v@[i])@),
            type_args@.len() == 0 ==> r is Ok && final(self).spec_cache() == old(self).spec_cache(),
            Self::plain_all(*old(self), type_args@) ==> final(self).spec_types().len() <= old(self).spec_types().len() + types_size(type_args@),
            Self::plain_all(*old(self), type_args@) && r is Err ==> final(self).spec_types().len() >= u32::MAX,
            Self::plain_all(*old(self), type_args@) && old(self).spec_types().len() + types_size(type_args@) < u32::MAX ==> r is Ok,
        decreases fuel, types_size(type_args@), 3nat,
    {
        proof {
            lemma_types_size(type_args@);
            lemma_extends_refl(self.spec_types());
        }
        let ghost start = *self;
        proof {
            assert(type_args@.take(0) =~= Seq::<Type>::empty());
        }
        let mut resolved: Vec<TypeId> = Vec::new();
        let mut i: usize = 0;
        while i < type_args.len()
            invariant
                self.spec_resolving() == old(self).spec_resolving(),
                i <= type_args@.len(),
                resolved@.len() == i,
                self.wf(),
                self.grows(start),
                start == *old(self),
                i == 0 ==> *self == start,
                forall|k: int| 0 <= k < type_args@.len() ==> type_size(#[trigger] type_args@[k]) <= types_size(type_args@),
                forall|k: int| 0 <= k < i ==> valid_id(self.spec_types(), #[trigger] resolved@[k]),
                forall|k: int|
                    #![trigger resolved@[k]]
                    0 <= k < i ==> resolved_as(type_args@[k], type_at(self.spec_types(), resolved@[k])@),
                Self::plain_all(*old(self), type_args@) ==> self.spec_types().len() <= start.spec_types().len() + types_size(type_args@.take(i as int)),
            decreases type_args@.len() - i,
        {
            proof {
                lemma_types_size_take(type_args@, i as int);
                lemma_types_size_take(type_args@, i as int + 1);
                assert(Self::plain_all(*old(self), type_args@) ==> Self::plain_in(*old(self), type_args@[i as int]));
            }
            let ghost pre = *self;
            let id = match self.resolve_within(&type_args[i], fuel) {
                Ok(id) => id,
                Err(e) => {
                    proof {
                        lemma_grows_trans(start, pre, *self);
                    }
                    return Err(e);
                },
            };
            proof {
                lemma_grows_trans(start, pre, *self);
                assert forall|k: int| 0 <= k < i implies valid_id(self.spec_types(), #[trigger] resolved@[k])
                    && resolved_as(type_args@[k], type_at(self.spec_types(), resolved@[k])@) by {
                    lemma_extends_valid_id(pre.spec_types(), self.spec_types(), resolved@[k]);
                }
            }
            resolved.push(id);
            i = i + 1;
        }
        proof {
            assert(type_args@.take(type_args@.len() as int) =~= type_args@);
        }
        Ok(resolved)
    }

    /// Resolves a type: references are resolved, other types are resolved part by
    /// part and stored; the id of the stored result is answered. The stored result
    /// is a resolution of `ty` in the sense of `resolved_as`; a reference at the top
    /// resolves as `reference_resolved` says. A type without references, unions and
    /// generics (see `reference_free`) is stored as it is. One whose only references
    /// have no type arguments and name, from the current scope, type symbols with
    /// types (see `refs_plain`) succeeds wherever the interner has room for one more
    /// type per part of it.
    ///
    /// # Errors
    ///
    /// Those of `resolve_type_reference` for any reference within `ty`, and
    /// `TypeNotFound` where a generic's base names no stored type.
    pub fn resolve_type(&mut self, ty: &Type) -> (r: ResolutionResult<TypeId>)
        requires
            old(self).wf(),
        ensures
            final(self).wf(),
            final(self).grows(*old(self)),
            final(self).spec_resolving() == old(self).spec_resolving(),
            r matches Ok(id) ==> valid_id(final(self).spec_types(), id),
            (ty is Primitive || ty is TypeParameter) ==> (r matches Ok(id) ==> type_at(final(self).spec_types(), id)@ == ty@),
            (ty is Primitive || ty is TypeParameter) && old(self).spec_types().len() < u32::MAX ==> r is Ok,
            ty is Reference ==> Self::reference_resolved(*old(self), *final(self), *ty, r),
            r matches Ok(id) ==> resolved_as(*ty, type_at(final(self).spec_types(), id)@),
            ty matches Type::Array(e) ==> (Self::reference_fails(*old(self), **e) ==> r is Err
                && Self::reference_resolved(*old(self), *final(self), **e, r)),
            Self::plain_in(*old(self), *ty) ==> final(self).spec_types().len() <= old(self).spec_types().len() + type_size(*ty),
            Self::plain_in(*old(self), *ty) && r is Err ==> final(self).spec_types().len() >= u32::MAX,
            Self::plain_in(*old(self), *ty) && old(self).spec_types().len() + type_size(*ty) < u32::MAX ==> r is Ok,
            reference_free(*ty) ==> final(self).spec_types().len() <= old(self).spec_types().len() + type_size(*ty),
            reference_free(*ty) && r is Err ==> final(self).spec_types().len() >= u32::MAX,
            reference_free(*ty) && old(self).spec_types().len() + type_size(*ty) < u32::MAX ==> r is Ok,
            reference_free(*ty) ==> (r matches Ok(id) ==> type_at(final(self).spec_types(), id)@ == ty@),
    {
        proof {
            if reference_free(*ty) {
                lemma_free_plain(self.spec_symbols(), self.spec_scopes(), self.spec_current_scope(), self.spec_resolving(), *ty);
            }
        }
        let r = self.resolve_within(ty, u64::MAX);
        proof {
            if let Ok(id) = r {
                if reference_free(*ty) {
                    lemma_free_resolved(*ty, type_at(self.spec_types(), id)@);
                }
            }
        }
        r
    }

    /// `resolve_type`, descending at most `fuel` stored types deep.
    fn resolve_within(&mut self, ty: &Type, fuel: u64) -> (r: ResolutionResult<TypeId>)
        requires
            old(self).wf(),
        ensures
            final(self).wf(),
            final(self).grows(*old(self)),
            final(self).spec_resolving() == old(self).spec_resolving(),
            r matches Ok(id) ==> valid_id(final(self).spec_types(), id),
            (ty is Primitive || ty is TypeParameter) ==> (r matches Ok(id) ==> type_at(final(self).spec_types(), id)@ == ty@),
            (ty is Primitive || ty is TypeParameter) && old(self).spec_types().len() < u32::MAX ==> r is Ok,
            ty is Reference ==> Self::reference_resolved(*old(self), *final(self), *ty, r),
            r matches Ok(id) ==> resolved_as(*ty, type_at(final(self).spec_types(), id)@),
            ty matches Type::Array(e) ==> (Self::reference_fails(*old(self), **e) ==> r is Err
                && Self::reference_resolved(*old(self), *final(self), **e, r)),
            Self::plain_in(*old(self), *ty) ==> final(self).spec_types().len() <= old(self).spec_types().len() + type_size(*ty),
            Self::plain_in(*old(self), *ty) && r is Err ==> final(self).spec_types().len() >= u32::MAX,
            Self::plain_in(*old(self), *ty) && old(self).spec_types().len() + type_size(*ty) < u32::MAX ==> r is Ok,
        decreases fuel, type_size(*ty), 2nat,
    {
        proof {
            lemma_extends_refl(self.spec_types());
            reveal(resolved_as);
        }
        let ghost start = *self;
        match ty {
            Type::Reference { .. } => self.resolve_reference_within(ty, fuel),
            Type::Array(elem) => {
                let e = match self.resolve_within(elem, fuel) {
                    Ok(id) => id,
                    Err(e) => return Err(e),
                };
                if self.type_interner.is_full() {
                    return Err(ResolutionError::InternerFull(describe(ty)));
                }
                let ghost pre = *self;
                let r = self.type_interner.get_or_intern_array(e);
                proof {
                    lemma_intern_extends(pre.spec_types(), self.spec_types());
                    lemma_grows_after_interner(pre, *self);
                    lemma_grows_trans(start, pre, *self);
                    lemma_cache_still_stored(pre, *self);
                    assert(resolved_as(**elem, type_at(pre.spec_types(), e)@));
                    assert(resolved_as(*ty, type_at(self.spec_types(), r)@));
                }
                Ok(r)
            },
            Type::Tuple(elems) => {
                let ids = match self.resolve_type_args(elems, fuel) {
                    Ok(v) => v,
                    Err(e) => return Err(e),
                };
                let types = self.stored_types(&ids);
                let ghost pre = *self;
                let ghost tv = types@;
                let r = self.store(Type::Tuple(types));
                proof {
                    lemma_grows_trans(start, pre, *self);
                    if let Ok(id) = r {
                        Self::lemma_list_resolved(elems@, ids@, tv, pre.spec_types());
                        assert(type_at(self.spec_types(), id)@ == TypeView::Tuple(types_view(tv)));
                    }
                }
                r
            },
            Type::Object(obj) => {
                proof {
                    crate::semantic::types::representation::lemma_props_size(obj.properties.spec_entries());
                }
                let entries = obj.properties.entries();
                proof {
                    assert(entries@.take(0) =~= Seq::<(String, Type)>::empty());
                }
                let mut props = PropertyMap::new();
                let mut i: usize = 0;
                while i < entries.len()
                    invariant
                        self.spec_resolving() == old(self).spec_resolving(),
                        i <= entries@.len(),
                        entries@ == obj.properties.spec_entries(),
                        *ty == Type::Object(*obj),
                        self.wf(),
                        self.grows(start),
                        start == *old(self),
                        forall|k: int|
                            0 <= k < entries@.len() ==> type_size((#[trigger] entries@[k]).1) <= crate::semantic::types::representation::props_size(
                                entries@,
                            ),
                        forall|k: Seq<char>|
                            props@.dom().contains(k) <==> exists|j: int| 0 <= j < i && (#[trigger] entries@[j]).0@ == k,
                        forall|k: Seq<char>|
                            #[trigger] props@.dom().contains(k) ==> exists|j: int|
                                0 <= j < i && (#[trigger] entries@[j]).0@ == k && resolved_as(entries@[j].1, props@[k]),
                        Self::plain_in(*old(self), *ty) ==> self.spec_types().len() <= start.spec_types().len()
                            + crate::semantic::types::representation::props_size(entries@.take(i as int)),
                    decreases entries@.len() - i,
                {
                    proof {
                        lemma_props_size_take(entries@, i as int);
                        lemma_props_size_take(entries@, i as int + 1);
                        assert(Self::plain_in(*old(self), *ty) ==> Self::plain_in(*old(self), entries@[i as int].1));
                    }
                    let ghost pre = *self;
                    let id = match self.resolve_within(&entries[i].1, fuel) {
                        Ok(id) => id,
                        Err(e) => {
                            proof {
                                lemma_grows_trans(start, pre, *self);
                            }
                            return Err(e);
                        },
                    };
                    proof {
                        lemma_grows_trans(start, pre, *self);
                    }
                    let t = self.stored_type(id);
                    let ghost p0 = props@;
                    let ghost tv = t@;
                    props.insert(entries[i].0.clone(), t);
                    proof {
                        let e = entries@[i as int];
                        assert(resolved_as(e.1, tv));
                        assert forall|k: Seq<char>|
                            props@.dom().contains(k) implies exists|j: int| 0 <= j < i + 1 && (#[trigger] entries@[j]).0@ == k by {
                            if k != e.0@ {
                                assert(p0.dom().contains(k));
                            }
                        }
                        assert forall|k: Seq<char>|
                            (exists|j: int| 0 <= j < i + 1 && (#[trigger] entries@[j]).0@ == k) implies props@.dom().contains(k) by {
                            let j = choose|j: int| 0 <= j < i + 1 && (#[trigger] entries@[j]).0@ == k;
                            if j < i {
                                assert(p0.dom().contains(k));
                            }
                        }
                        assert forall|k: Seq<char>| #[trigger] props@.dom().contains(k) implies exists|j: int|
                            0 <= j < i + 1 && (#[trigger] entries@[j]).0@ == k && resolved_as(entries@[j].1, props@[k]) by {
                            if k == e.0@ {
                                assert(entries@[i as int].0@ == k && resolved_as(entries@[i as int].1, props@[k]));
                            } else {
                                assert(p0.dom().contains(k));
                                let j = choose|j: int| 0 <= j < i && (#[trigger] entries@[j]).0@ == k && resolved_as(entries@[j].1, p0[k]);
                                assert(entries@[j].0@ == k && resolved_as(entries@[j].1, props@[k]));
                            }
                        }
                    }
                    i = i + 1;
                }
                proof {
                    assert(entries@.take(entries@.len() as int) =~= entries@);
                }
                let index_signature = match &obj.index_signature {
                    Some(sig) => {
                        proof {
                            assert(crate::semantic::types::representation::opt_size(obj.index_signature) == type_size(**sig));
                        }
                        let ghost pre = *self;
                        let id = match self.resolve_within(sig, fuel) {
                            Ok(id) => id,
                            Err(e) => {
                                proof {
                                    lemma_grows_trans(start, pre, *self);
                                }
                                return Err(e);
                            },
                        };
                        proof {
                            lemma_grows_trans(start, pre, *self);
                        }
                        Some(Box::new(self.stored_type(id)))
                    },
                    None => None,
                };
                let ghost pre = *self;
                let ghost pm = props@;
                let ghost sig = opt_view(index_signature);
                proof {
                    assert forall|k: Seq<char>| #![auto] pm.dom().contains(k) <==> props_view(entries@).dom().contains(k) by {
                        crate::semantic::types::representation::lemma_props_view(entries@, k);
                    }
                    assert(pm.dom() =~= props_view(entries@).dom());
                    assert(match (obj.index_signature, sig) {
                        (None, None) => true,
                        (Some(x), Some(y)) => resolved_as(*x, *y),
                        _ => false,
                    });
                }
                let r = self.store(Type::Object(ObjectType { properties: props, index_signature }));
                proof {
                    lemma_grows_trans(start, pre, *self);
                    if let Ok(id) = r {
                        assert(type_at(self.spec_types(), id)@ == TypeView::Object(pm, sig));
                        assert(resolved_as(*ty, type_at(self.spec_types(), id)@));
                    }
                }
                r
            },
            Type::Function { params, return_type, type_params } => {
                let ids = match self.resolve_type_args(params, fuel) {
                    Ok(v) => v,
                    Err(e) => return Err(e),
                };
                let param_types = self.stored_types(&ids);
                proof {
                    Self::lemma_list_resolved(params@, ids@, param_types@, self.spec_types());
                }
                let ghost p1 = *self;
                let ret = match self.resolve_within(return_type, fuel) {
                    Ok(id) => id,
                    Err(e) => {
                        proof {
                            lemma_grows_trans(start, p1, *self);
                        }
                        return Err(e);
                    },
                };
                proof {
                    lemma_grows_trans(start, p1, *self);
                }
                let return_ty = Box::new(self.stored_type(ret));
                proof {
                    assert(resolved_as(**return_type, return_ty@));
                }
                let ghost base_len: nat = start.spec_types().len() + types_size(params@) + type_size(**return_type);
                proof {
                    assert(type_params@.take(0) =~= Seq::<TypeParameter>::empty());
                }
                let mut resolved_type_params: Vec<TypeParameter> = Vec::new();
                let mut i: usize = 0;
                while i < type_params.len()
                    invariant
                        self.spec_resolving() == old(self).spec_resolving(),
                        i <= type_params@.len(),
                        self.wf(),
                        self.grows(start),
                        start == *old(self),
                        *ty == (Type::Function { params: *params, return_type: *return_type, type_params: *type_params }),
                        resolved_type_params@.len() == i,
                        forall|k: int|
                            0 <= k < i ==> {
                                &&& (#[trigger] resolved_type_params@[k]).name@ == type_params@[k].name@
                                &&& match (type_params@[k].constraint, opt_view(resolved_type_params@[k].constraint)) {
                                    (None, None) => true,
                                    (Some(x), Some(y)) => resolved_as(*x, *y),
                                    _ => false,
                                }
                                &&& match (type_params@[k].default, opt_view(resolved_type_params@[k].default)) {
                                    (None, None) => true,
                                    (Some(x), Some(y)) => resolved_as(*x, *y),
                                    _ => false,
                                }
                            },
                        base_len == start.spec_types().len() + types_size(params@) + type_size(**return_type),
                        Self::plain_in(*old(self), *ty) ==> self.spec_types().len() <= base_len
                            + crate::semantic::types::representation::params_size(type_params@.take(i as int)),
                    decreases type_params@.len() - i,
                {
                    proof {
                        lemma_param_size(type_params@, i as int);
                        lemma_params_size_take(type_params@, i as int);
                        lemma_params_size_take(type_params@, i as int + 1);
                        assert(Self::plain_in(*old(self), *ty) ==> (match type_params@[i as int].constraint {
                            None => true,
                            Some(x) => Self::plain_in(*old(self), *x),
                        }) && (match type_params@[i as int].default {
                            None => true,
                            Some(x) => Self::plain_in(*old(self), *x),
                        }));
                    }
                    let ghost top = *self;
                    let constraint = match &type_params[i].constraint {
                        Some(c) => {
                            let ghost pre = *self;
                            proof {
                                assert(crate::semantic::types::representation::opt_size(type_params@[i as int].constraint) == type_size(**c));
                            }
                            let id = match self.resolve_within(c, fuel) {
                                Ok(id) => id,
                                Err(e) => {
                                    proof {
                                        lemma_grows_trans(start, pre, *self);
                                    }
                                    return Err(e);
                                },
                            };
                            proof {
                                lemma_grows_trans(start, pre, *self);
                            }
                            Some(Box::new(self.stored_type(id)))
                        },
                        None => None,
                    };
                    let ghost mid = *self;
                    proof {
                        assert(Self::plain_in(*old(self), *ty) ==> mid.spec_types().len() <= top.spec_types().len()
                            + crate::semantic::types::representation::opt_size(type_params@[i as int].constraint));
                    }
                    let default = match &type_params[i].default {
                        Some(d) => {
                            let ghost pre = *self;
                            proof {
                                assert(crate::semantic::types::representation::opt_size(type_params@[i as int].default) == type_size(**d));
                            }
                            let id = match self.resolve_within(d, fuel) {
                                Ok(id) => id,
                                Err(e) => {
                                    proof {
                                        lemma_grows_trans(start, pre, *self);
                                    }
                                    return Err(e);
                                },
                            };
                            proof {
                                lemma_grows_trans(start, pre, *self);
                            }
                            Some(Box::new(self.stored_type(id)))
                        },
                        None => None,
                    };
                    proof {
                        assert(match (type_params@[i as int].constraint, opt_view(constraint)) {
                            (None, None) => true,
                            (Some(x), Some(y)) => resolved_as(*x, *y),
                            _ => false,
                        });
                        assert(match (type_params@[i as int].default, opt_view(default)) {
                            (None, None) => true,
                            (Some(x), Some(y)) => resolved_as(*x, *y),
                            _ => false,
                        });
                    }
                    resolved_type_params.push(TypeParameter { name: type_params[i].name.clone(), constraint, default });
                    i = i + 1;
                }
                proof {
                    assert(type_params@.take(type_params@.len() as int) =~= type_params@);
                }
                let ghost pre = *self;
                let ghost pv = param_types@;
                let ghost rv = return_ty@;
                let ghost tpv = resolved_type_params@;
                proof {
                    crate::semantic::types::representation::lemma_params_view(tpv);
                    crate::semantic::types::representation::lemma_params_view(type_params@);
                }
                let r = self.store(
                    Type::Function { params: param_types, return_type: return_ty, type_params: resolved_type_params },
                );
                proof {
                    lemma_grows_trans(start, pre, *self);
                    if let Ok(id) = r {
                        assert(type_at(self.spec_types(), id)@ == TypeView::Function(
                            types_view(pv),
                            Box::new(rv),
                            crate::semantic::types::representation::params_view(tpv),
                        ));
                        assert(resolved_as(*ty, type_at(self.spec_types(), id)@));
                    }
                }
                r
            },
            Type::Union(types) => {
                let ids = match self.resolve_type_args(types, fuel) {
                    Ok(v) => v,
                    Err(e) => return Err(e),
                };
                if self.type_interner.is_full() {
                    return Err(ResolutionError::InternerFull(describe(ty)));
                }
                let ghost pre = *self;
                let ghost idv = ids@;
                let r = self.type_interner.get_or_intern_union(ids);
                proof {
                    lemma_intern_extends(pre.spec_types(), self.spec_types());
                    lemma_grows_after_interner(pre, *self);
                    lemma_grows_trans(start, pre, *self);
                    lemma_cache_still_stored(pre, *self);
                    Self::lemma_union_resolved(*ty, idv, pre.spec_types(), self.spec_types(), r);
                }
                Ok(r)
            },
            Type::Intersection(types) => {
                let ids = match self.resolve_type_args(types, fuel) {
                    Ok(v) => v,
                    Err(e) => return Err(e),
                };
                let parts = self.stored_types(&ids);
                let ghost pre = *self;
                let ghost tv = parts@;
                let r = self.store(Type::Intersection(parts));
                proof {
                    lemma_grows_trans(start, pre, *self);
                    if let Ok(id) = r {
                        Self::lemma_list_resolved(types@, ids@, tv, pre.spec_types());
                        assert(type_at(self.spec_types(), id)@ == TypeView::Intersection(types_view(tv)));
                    }
                }
                r
            },
            Type::Generic { base, args } => {
                let ids = match self.resolve_type_args(args, fuel) {
                    Ok(v) => v,
                    Err(e) => return Err(e),
                };
                let base_ty = match self.type_interner.get(*base) {
                    Some(t) => copy_type(t),
                    None => return Err(ResolutionError::TypeNotFound("Generic base type not found".to_owned())),
                };
                if fuel == 0 {
                    return Err(ResolutionError::RecursiveReference(describe(ty)));
                }
                let ghost p1 = *self;
                let resolved_base = match self.resolve_within(&base_ty, fuel - 1) {
                    Ok(id) => id,
                    Err(e) => {
                        proof {
                            lemma_grows_trans(start, p1, *self);
                        }
                        return Err(e);
                    },
                };
                proof {
                    lemma_grows_trans(start, p1, *self);
                    assert forall|i: int| 0 <= i < ids@.len() implies valid_id(self.spec_types(), #[trigger] ids@[i])
                        && resolved_as(args@[i], type_at(self.spec_types(), ids@[i])@) by {
                        lemma_extends_valid_id(p1.spec_types(), self.spec_types(), ids@[i]);
                    }
                }
                let arg_types = self.stored_types(&ids);
                proof {
                    Self::lemma_list_resolved(args@, ids@, arg_types@, self.spec_types());
                }
                let ghost pre = *self;
                let ghost av = arg_types@;
                let r = self.store(Type::Generic { base: resolved_base, args: arg_types });
                proof {
                    lemma_grows_trans(start, pre, *self);
                    if let Ok(id) = r {
                        assert(type_at(self.spec_types(), id)@ == TypeView::Generic(resolved_base, types_view(av)));
                    }
                }
                r
            },
            Type::Primitive(p) => self.store(Type::Primitive(*p)),
            Type::TypeParameter(tp) => self.store(Type::TypeParameter(tp.clone())),
        }
    }

    /// Walks `node`: variable statements and function declarations record the types
    /// of what they declare. The walk enters a scope where the scope pass opened one
    /// (blocks, loops, functions, classes and catch clauses), in the same order, so
    /// that names are resolved from the scope they were declared in; the current
    /// scope is the same afterwards. Only symbols whose name is declared within
    /// `node` change. Of a block, the variable statements directly in it leave their
    /// variables, found from the block's scope, typed as `statement_typed_from` says.
    pub fn visit_node(&mut self, node: &AstNode<'_>)
        requires
            old(self).wf(),
        ensures
            final(self).wf(),
            final(self).retypes(*old(self)),
            untouched(final(self).spec_symbols().spec_symbols(), old(self).spec_symbols().spec_symbols(), node),
            final(self).spec_next_scope() == scopes_after(old(self).spec_next_scope(), scopes_entered(node)),
            node.spec_kind() matches NodeKind::VariableStatement { declarations } ==> (final(self).spec_types().len() < u32::MAX
                ==> forall|i: int|
                #![trigger unrepeated(declarations@, i, declarations@.len() as int)]
                0 <= i < declarations@.len() && unrepeated(declarations@, i, declarations@.len() as int) && !declares_any(
                    node.spec_children(),
                    declarations@[i].name@,
                ) ==> (old(self).target(declarations@[i].name@) matches Some(id) ==> declaration_typed(
                    *final(self),
                    id,
                    declarations@[i],
                ))),
            node.spec_kind() matches NodeKind::FunctionDeclaration { name, params, return_type, .. } ==> (
            final(self).spec_types().len() < u32::MAX && !declares_any(node.spec_children(), name@) ==> (old(self).target(name@)
                matches Some(id) ==> function_typed(*final(self), id, params@, return_type))),
            node.spec_kind() is Block ==> forall|k: int|
                0 <= k < node.spec_children().len() ==> statement_typed_from(
                    old(self).spec_symbols(),
                    old(self).spec_scopes(),
                    scope_numbered(old(self).spec_next_scope()),
                    *final(self),
                    #[trigger] node.spec_children()[k],
                    node.spec_children().subrange(k + 1, node.spec_children().len() as int),
                ),
        decreases node, 3nat,
    {
        proof {
            node.lemma_children_decrease();
        }
        let ghost s0 = self.spec_symbols().spec_symbols();
        match node.kind() {
            NodeKind::VariableStatement { .. } => self.visit_variable_statement(node),
            NodeKind::FunctionDeclaration { .. } => self.visit_function_declaration(node),
            NodeKind::Block { .. } | NodeKind::For { .. } | NodeKind::ForOf { .. } | NodeKind::While { .. }
            | NodeKind::DoWhile { .. } | NodeKind::ArrowFunction { .. } | NodeKind::FunctionExpression { .. }
            | NodeKind::ClassDeclaration { .. } => {
                self.visit_scoped(node);
                proof {
                    Self::lemma_below_untouched(self.spec_symbols().spec_symbols(), s0, node);
                }
            },
            NodeKind::Try { catch_clause, .. } => {
                let children = node.children();
                let ghost before = *self;
                proof {
                    Self::lemma_retypes_refl(*self);
                }
                if children.len() >= 1 {
                    proof {
                        node.lemma_child_decreases(0);
                    }
                    self.visit_node(children[0]);
                    proof {
                        Self::lemma_child_untouched(self.spec_symbols().spec_symbols(), s0, node, 0);
                    }
                }
                let ghost s1 = self.spec_symbols().spec_symbols();
                if catch_clause.is_some() && children.len() >= 2 {
                    proof {
                        node.lemma_child_decreases(1);
                    }
                    let ghost mid = *self;
                    let outer = self.enter_scope();
                    let ghost inner = *self;
                    self.visit_node(children[1]);
                    let ghost after = *self;
                    self.current_scope = outer;
                    proof {
                        Self::lemma_retypes_trans(inner, after, after);
                        assert(self.retypes(mid));
                        Self::lemma_retypes_trans(before, mid, *self);
                        Self::lemma_child_untouched(self.spec_symbols().spec_symbols(), s1, node, 1);
                    }
                } else if catch_clause.is_some() {
                    let outer = self.enter_scope();
                    self.current_scope = outer;
                    proof {
                        assert(self.retypes(before));
                    }
                }
                proof {
                    let s2 = self.spec_symbols().spec_symbols();
                    assert forall|j: int| 0 <= j < s0.len() && !declares(node, (#[trigger] s0[j]).spec_name()) implies s2[j]
                        == s0[j] by {
                        if children.len() >= 1 {
                            assert(s1[j] == s0[j]);
                        }
                    }
                }
            },
            _ => {
                self.default_visit_node(node);
                proof {
                    Self::lemma_below_untouched(self.spec_symbols().spec_symbols(), s0, node);
                }
            },
        }
    }

    /// Walks the children of `node` inside the next scope.
    fn visit_scoped(&mut self, node: &AstNode<'_>)
        requires
            old(self).wf(),
        ensures
            final(self).wf(),
            final(self).retypes(*old(self)),
            untouched_below(final(self).spec_symbols().spec_symbols(), old(self).spec_symbols().spec_symbols(), node),
            final(self).spec_next_scope() == scopes_after(
                old(self).spec_next_scope(),
                1 + scopes_entered_all(node.spec_children()),
            ),
            forall|k: int|
                0 <= k < node.spec_children().len() ==> statement_typed_from(
                    old(self).spec_symbols(),
                    old(self).spec_scopes(),
                    scope_numbered(old(self).spec_next_scope()),
                    *final(self),
                    #[trigger] node.spec_children()[k],
                    node.spec_children().subrange(k + 1, node.spec_children().len() as int),
                ),
        decreases node, 1nat,
    {
        let outer = self.enter_scope();
        let ghost inner = *self;
        proof {
            ScopeId::lemma_eq(inner.spec_current_scope(), scope_numbered(old(self).spec_next_scope()));
        }
        self.default_visit_node(node);
        let ghost walked = *self;
        self.current_scope = outer;
        proof {
            assert forall|k: int| 0 <= k < node.spec_children().len() implies statement_typed_from(
                old(self).spec_symbols(),
                old(self).spec_scopes(),
                scope_numbered(old(self).spec_next_scope()),
                *self,
                #[trigger] node.spec_children()[k],
                node.spec_children().subrange(k + 1, node.spec_children().len() as int),
            ) by {
                assert(statement_typed(inner, walked, node.spec_children()[k], node.spec_children().subrange(k + 1, node.spec_children().len() as int)));
                assert(self.spec_symbols() == walked.spec_symbols());
                assert(self.spec_types() == walked.spec_types());
                assert(forall|id: SymbolId, d: VariableDeclaration| declaration_typed(walked, id, d) ==> #[trigger] declaration_typed(*self, id, d));
            }
            assert(self.retypes(*old(self)));
            lemma_scopes_after_add(old(self).spec_next_scope(), 1, scopes_entered_all(node.spec_children()));
        }
    }

    /// Makes the next scope current and answers the scope that was.
    fn enter_scope(&mut self) -> (r: ScopeId)
        requires
            old(self).wf(),
        ensures
            final(self).wf(),
            r == old(self).spec_current_scope(),
            final(self).spec_current_scope().spec_get() == old(self).spec_next_scope(),
            final(self).spec_types() == old(self).spec_types(),
            final(self).spec_symbols() == old(self).spec_symbols(),
            final(self).spec_scopes() == old(self).spec_scopes(),
            final(self).spec_cache() == old(self).spec_cache(),
            final(self).spec_next_scope() == scopes_after(old(self).spec_next_scope(), 1),
    {
        let outer = self.current_scope;
        self.current_scope = ScopeId::new(self.next_scope);
        if self.next_scope < u32::MAX {
            self.next_scope = self.next_scope + 1;
        }
        outer
    }

    /// Walks the children of `node` in order; only symbols whose name is declared
    /// within them change.
    pub fn default_visit_node(&mut self, node: &AstNode<'_>)
        requires
            old(self).wf(),
        ensures
            final(self).wf(),
            final(self).retypes(*old(self)),
            untouched_below(final(self).spec_symbols().spec_symbols(), old(self).spec_symbols().spec_symbols(), node),
            final(self).spec_next_scope() == scopes_after(
                old(self).spec_next_scope(),
                scopes_entered_all(node.spec_children()),
            ),
            forall|k: int|
                0 <= k < node.spec_children().len() ==> statement_typed(
                    *old(self),
                    *final(self),
                    #[trigger] node.spec_children()[k],
                    node.spec_children().subrange(k + 1, node.spec_children().len() as int),
                ),
        decreases node, 0nat,
    {
        proof {
            Self::lemma_retypes_refl(*self);
        }
        let ghost s0 = self.spec_symbols().spec_symbols();
        let children = node.children();
        let mut i: usize = 0;
        proof {
            assert(children@.take(0) =~= Seq::<&AstNode<'_>>::empty());
        }
        while i < children.len()
            invariant
                i <= children@.len(),
                children@ == node.spec_children(),
                self.wf(),
                self.retypes(*old(self)),
                s0 == old(self).spec_symbols().spec_symbols(),
                untouched_below(self.spec_symbols().spec_symbols(), s0, node),
                self.spec_next_scope() == scopes_after(
                    old(self).spec_next_scope(),
                    scopes_entered_all(children@.take(i as int)),
                ),
                forall|k: int|
                    0 <= k < i ==> statement_typed(*old(self), *self, #[trigger] children@[k], children@.subrange(k + 1, i as int)),
            decreases children@.len() - i,
        {
            proof {
                node.lemma_child_decreases(i as int);
            }
            let ghost pre = *self;
            self.visit_node(children[i]);
            proof {
                let t = children@.take(i as int + 1);
                assert(t.drop_last() =~= children@.take(i as int));
                assert(t.last() == children@[i as int]);
                lemma_scopes_after_add(
                    old(self).spec_next_scope(),
                    scopes_entered_all(children@.take(i as int)),
                    scopes_entered(children@[i as int]),
                );
                Self::lemma_retypes_trans(*old(self), pre, *self);
                let s1 = pre.spec_symbols().spec_symbols();
                let s2 = self.spec_symbols().spec_symbols();
                assert forall|j: int|
                    0 <= j < s0.len() && !declares_any(node.spec_children(), (#[trigger] s0[j]).spec_name()) implies s2[j]
                        == s0[j] by {
                    if declares(children@[i as int], s0[j].spec_name()) {
                        lemma_declares_any_elem(node.spec_children(), i as int, s0[j].spec_name());
                    }
                    assert(s1[j] == s0[j]);
                }
                Self::lemma_statements_step(*old(self), pre, *self, children@, i as int);
            }
            i = i + 1;
        }
        proof {
            assert(children@.take(children@.len() as int) =~= children@);
        }
    }

    /// Records the types of the variables a variable statement declares (see
    /// `type_declaration`), then walks its children. A declaration whose name no
    /// later declaration of the statement and nothing within its children declares
    /// leaves its symbol typed as `declaration_typed` says.
    pub fn visit_variable_statement(&mut self, node: &AstNode<'_>)
        requires
            old(self).wf(),
        ensures
            final(self).wf(),
            final(self).retypes(*old(self)),
            untouched(final(self).spec_symbols().spec_symbols(), old(self).spec_symbols().spec_symbols(), node),
            final(self).spec_next_scope() == scopes_after(old(self).spec_next_scope(), scopes_entered_all(node.spec_children())),
            node.spec_kind() matches NodeKind::VariableStatement { declarations } ==> (final(self).spec_types().len() < u32::MAX
                ==> forall|i: int|
                #![trigger unrepeated(declarations@, i, declarations@.len() as int)]
                0 <= i < declarations@.len() && unrepeated(declarations@, i, declarations@.len() as int) && !declares_any(
                    node.spec_children(),
                    declarations@[i].name@,
                ) ==> (old(self).target(declarations@[i].name@) matches Some(id) ==> declaration_typed(
                    *final(self),
                    id,
                    declarations@[i],
                ))),
        decreases node, 2nat,
    {
        let ghost pre = *self;
        let ghost s0 = self.spec_symbols().spec_symbols();
        if let NodeKind::VariableStatement { declarations } = node.kind() {
            self.type_declarations(declarations);
        } else {
            proof {
                Self::lemma_retypes_refl(*self);
            }
        }
        let ghost mid = *self;
        let ghost s1 = self.spec_symbols().spec_symbols();
        self.default_visit_node(node);
        proof {
            Self::lemma_retypes_trans(pre, mid, *self);
            let s2 = self.spec_symbols().spec_symbols();
            assert forall|j: int| 0 <= j < s0.len() && !declares(node, (#[trigger] s0[j]).spec_name()) implies s2[j] == s0[j] by {
                assert(s1[j] == s0[j]);
            }
            if let NodeKind::VariableStatement { declarations } = node.spec_kind() {
                if self.spec_types().len() < u32::MAX {
                    assert forall|i: int|
                        #![trigger unrepeated(declarations@, i, declarations@.len() as int)]
                        0 <= i < declarations@.len() && unrepeated(declarations@, i, declarations@.len() as int)
                            && !declares_any(node.spec_children(), declarations@[i].name@) implies (pre.target(
                            declarations@[i].name@,
                        ) matches Some(id) ==> declaration_typed(*self, id, declarations@[i])) by {
                        let nm = declarations@[i].name@;
                        lemma_lexical_same(mid.spec_symbols().spec_symbols(), pre.spec_symbols().spec_symbols(),
                            pre.spec_scopes().spec_scopes(), pre.spec_current_scope(), nm);
                        if let Some(id) = pre.target(nm) {
                            Self::lemma_walk_keeps(mid, *self, node, id, nm);
                            Self::lemma_typed_stable(mid, *self, id, declarations@[i]);
                        }
                    }
                }
            }
        }
    }

    /// Records the type of a declared function (see `type_function`), then walks its
    /// children; where nothing within them declares the function's name, its symbol
    /// keeps the function type, in which each annotation that is plain from the state
    /// before the call (see `annotation_plain`) has its resolution.
    pub fn visit_function_declaration(&mut self, node: &AstNode<'_>)
        requires
            old(self).wf(),
        ensures
            final(self).wf(),
            final(self).retypes(*old(self)),
            untouched(final(self).spec_symbols().spec_symbols(), old(self).spec_symbols().spec_symbols(), node),
            final(self).spec_next_scope() == scopes_after(old(self).spec_next_scope(), 1 + scopes_entered_all(node.spec_children())),
            node.spec_kind() matches NodeKind::FunctionDeclaration { name, params, return_type, .. } ==> (
            final(self).spec_types().len() < u32::MAX && !declares_any(node.spec_children(), name@) ==> (old(self).target(name@)
                matches Some(id) ==> function_typed(*final(self), id, params@, return_type))),
            node.spec_kind() matches NodeKind::FunctionDeclaration { name, params, return_type, .. } ==> (
            final(self).spec_types().len() < u32::MAX && !declares_any(node.spec_children(), name@) ==> (old(self).target(name@)
                matches Some(id) ==> plainly_typed(*old(self), *final(self), id, params@, return_type))),
        decreases node, 2nat,
    {
        let ghost pre = *self;
        let ghost s0 = self.spec_symbols().spec_symbols();
        if let NodeKind::FunctionDeclaration { name, params, return_type, .. } = node.kind() {
            self.type_function(name, params, return_type);
        } else {
            proof {
                Self::lemma_retypes_refl(*self);
            }
        }
        let ghost mid = *self;
        let ghost s1 = self.spec_symbols().spec_symbols();
        self.visit_scoped(node);
        proof {
            Self::lemma_retypes_trans(pre, mid, *self);
            let s2 = self.spec_symbols().spec_symbols();
            assert forall|j: int| 0 <= j < s0.len() && !declares(node, (#[trigger] s0[j]).spec_name()) implies s2[j] == s0[j] by {
                assert(s1[j] == s0[j]);
            }
            if let NodeKind::FunctionDeclaration { name, params, return_type, .. } = node.spec_kind() {
                if self.spec_types().len() < u32::MAX && !declares_any(node.spec_children(), name@) {
                    lemma_lexical_same(mid.spec_symbols().spec_symbols(), pre.spec_symbols().spec_symbols(),
                        pre.spec_scopes().spec_scopes(), pre.spec_current_scope(), name@);
                    if let Some(id) = pre.target(name@) {
                        Self::lemma_walk_keeps(mid, *self, node, id, name@);
                        Self::lemma_function_typed_stable(mid, *self, id, params@, return_type);
                        Self::lemma_plainly_typed_stable(pre, mid, *self, id, params@, return_type);
                    }
                }
            }
        }
    }

    /// The type an annotation denotes, before resolution.
    fn type_annotation_to_type(&mut self, annotation: &TypeAnnotation) -> (r: Type)
        ensures
            r@ == annotation_view(*annotation),
            *final(self) == *old(self),
        decreases annotation,
    {
        annotation_to_type(annotation)
    }
}

/// The type an annotation denotes, before resolution (see `annotation_view`).
pub fn annotation_to_type(annotation: &TypeAnnotation) -> (r: Type)
    ensures
        r@ == annotation_view(*annotation),
    decreases annotation,
{
    match annotation {
        TypeAnnotation::TypeReference { name, type_params } => {
            if type_params.is_none() {
                if let Some(p) = primitive_keyword(name) {
                    return Type::Primitive(p);
                }
            }
            let type_args = match type_params {
                Some(params) => annotations_to_types(params),
                None => Vec::new(),
            };
            proof {
                crate::semantic::types::representation::lemma_types_view(type_args@);
            }
            Type::Reference { name: name.clone(), type_args }
        },
        TypeAnnotation::ArrayType(elem) => Type::Array(Box::new(annotation_to_type(elem))),
        TypeAnnotation::UnionType(types) => Type::Union(annotations_to_types(types)),
        TypeAnnotation::FunctionType { params, return_type } => {
            let param_types = param_annotations_to_types(params);
            let return_ty = annotation_to_type(return_type);
            let type_params: Vec<TypeParameter> = Vec::new();
            proof {
                assert(crate::semantic::types::representation::params_view(type_params@) =~= Seq::<ParamView>::empty());
            }
            Type::Function { params: param_types, return_type: Box::new(return_ty), type_params }
        },
        TypeAnnotation::Unknown => Type::Primitive(PrimitiveType::Unknown),
    }
}

/// The types of a list of parameters: their annotations, `unknown` where none.
fn param_annotations_to_types(params: &Vec<crate::parser::ast::types::Parameter>) -> (r: Vec<Type>)
    ensures
        types_view(r@) == param_annotations_view(params@),
    decreases params,
{
    let mut param_types: Vec<Type> = Vec::new();
    let mut i: usize = 0;
    while i < params.len()
        invariant
            i <= params@.len(),
            types_view(param_types@) == param_annotations_view(params@.take(i as int)),
        decreases params@.len() - i,
    {
        proof {
            assert(decreases_to!(params => params@[i as int]));
            assert(params@.take(i + 1).drop_last() =~= params@.take(i as int));
            assert(params@.take(i + 1).last() == params@[i as int]);
        }
        let t = param_annotation_to_type(&params[i]);
        let ghost before = param_types@;
        param_types.push(t);
        proof {
            assert(param_types@.drop_last() =~= before);
        }
        i = i + 1;
    }
    proof {
        assert(params@.take(params@.len() as int) =~= params@);
    }
    param_types
}

/// The type of a parameter: its annotation, `unknown` where it has none.
fn param_annotation_to_type(param: &crate::parser::ast::types::Parameter) -> (r: Type)
    ensures
        r@ == (match param.type_annotation {
            Some(a) => annotation_view(a),
            None => TypeView::Primitive(PrimitiveType::Unknown),
        }),
    decreases param,
{
    match &param.type_annotation {
        Some(a) => annotation_to_type(a),
        None => Type::Primitive(PrimitiveType::Unknown),
    }
}

/// The types of a list of annotations.
fn annotations_to_types(v: &Vec<TypeAnnotation>) -> (r: Vec<Type>)
    ensures
        types_view(r@) == annotations_view(v@),
    decreases v,
{
    let mut out: Vec<Type> = Vec::new();
    let mut i: usize = 0;
    while i < v.len()
        invariant
            i <= v@.len(),
            types_view(out@) == annotations_view(v@.take(i as int)),
        decreases v@.len() - i,
    {
        proof {
            assert(decreases_to!(v => v@[i as int]));
            assert(v@.take(i + 1).drop_last() =~= v@.take(i as int));
            assert(v@.take(i + 1).last() == v@[i as int]);
        }
        let t = annotation_to_type(&v[i]);
        let ghost before = out@;
        out.push(t);
        proof {
            assert(out@.drop_last() =~= before);
        }
        i = i + 1;
    }
    proof {
        assert(v@.take(v@.len() as int) =~= v@);
    }
    out
}

proof fn lemma_extends_refl(t: Seq<Type>)
    ensures
        extends(t, t),
{
    assert(t.take(t.len() as int) =~= t);
}

proof fn lemma_intern_extends(t0: Seq<Type>, t1: Seq<Type>)
    requires
        t1 == t0 || (t1.len() > 0 && t1 == t0.push(t1.last())) || (t1.len() >= t0.len() && t1.take(t0.len() as int) == t0),
    ensures
        extends(t1, t0),
{
    assert forall|i: int| 0 <= i < t0.len() implies #[trigger] t1[i] == t0[i] by {
        if t1.len() >= t0.len() && t1.take(t0.len() as int) == t0 {
            assert(t1.take(t0.len() as int)[i] == t1[i]);
        }
    }
}

proof fn lemma_extends_chain(t0: Seq<Type>, t1: Seq<Type>, t2: Seq<Type>)
    requires
        extends(t1, t0),
        extends(t2, t1),
    ensures
        extends(t2, t0),
{
    assert forall|i: int| 0 <= i < t0.len() implies #[trigger] t2[i] == t0[i] by {
        assert(t2[i] == t1[i]);
    }
}

proof fn lemma_extends_valid_id(t0: Seq<Type>, t1: Seq<Type>, id: TypeId)
    requires
        extends(t1, t0),
        valid_id(t0, id),
    ensures
        valid_id(t1, id),
        type_at(t1, id) == type_at(t0, id),
{
    assert(t1.take(t0.len() as int)[id.spec_id() as int] == t1[id.spec_id() as int]);
}

/// Each member of a list is no larger than the list.
pub proof fn lemma_members_size(s: Seq<Type>)
    ensures
        forall|t: Type| #[trigger] s.contains(t) ==> type_size(t) <= types_size(s),
{
    lemma_types_size(s);
}

/// Each type parameter of a list is no larger than the list.
pub proof fn lemma_param_size(s: Seq<TypeParameter>, i: int)
    requires
        0 <= i < s.len(),
    ensures
        crate::semantic::types::representation::param_size(s[i]) <= crate::semantic::types::representation::params_size(s),
    decreases s.len(),
{
    if i < s.len() - 1 {
        lemma_param_size(s.drop_last(), i);
        assert(s.drop_last()[i] == s[i]);
    }
}

impl<'a> TypeResolver<'a> {
    /// Types copied from resolved ids are, in order, resolutions of the types the
    /// ids were resolved from.
    proof fn lemma_list_resolved(tys: Seq<Type>, ids: Seq<TypeId>, copies: Seq<Type>, types: Seq<Type>)
        requires
            ids.len() == tys.len(),
            copies.len() == ids.len(),
            forall|i: int| #![trigger ids[i]] 0 <= i < ids.len() ==> resolved_as(tys[i], type_at(types, ids[i])@),
            forall|i: int| 0 <= i < ids.len() ==> (#[trigger] copies[i])@ == type_at(types, ids[i])@,
        ensures
            types_view(copies).len() == tys.len(),
            forall|i: int| 0 <= i < tys.len() ==> resolved_as(#[trigger] tys[i], types_view(copies)[i]),
    {
        crate::semantic::types::representation::lemma_types_view(copies);
        assert forall|i: int| 0 <= i < tys.len() implies resolved_as(#[trigger] tys[i], types_view(copies)[i]) by {
            assert(resolved_as(tys[i], type_at(types, ids[i])@));
            assert(copies[i]@ == type_at(types, ids[i])@);
        }
    }

    /// Where every member resolved to one id, that id's type is related to each member.
    proof fn lemma_union_same(
        es: Seq<Type>,
        ids: Seq<TypeId>,
        t0: Seq<Type>,
        t1: Seq<Type>,
        r: TypeId,
        rel: spec_fn(Type, TypeView) -> bool,
    )
        requires
            ids.len() == es.len(),
            ids.len() > 0,
            forall|i: int| #![trigger ids[i]] 0 <= i < ids.len() ==> valid_id(t0, ids[i]) && rel(es[i], type_at(t0, ids[i])@),
            extends(t1, t0),
            forall|i: int| 0 <= i < ids.len() ==> #[trigger] ids[i] == ids[0],
            r == ids[0],
        ensures
            forall|t: Type| #[trigger] es.contains(t) ==> rel(t, type_at(t1, r)@),
    {
        assert(valid_id(t0, ids[0]));
        lemma_extends_valid_id(t0, t1, ids[0]);
        assert forall|t: Type| #[trigger] es.contains(t) implies rel(t, type_at(t1, r)@) by {
            let i = choose|i: int| 0 <= i < es.len() && es[i] == t;
            assert(ids[i] == ids[0]);
            assert(rel(es[i], type_at(t0, ids[i])@));
        }
    }

    /// The members of a union of resolved ids, named by a list with the same ids,
    /// cover the members it was resolved from and are covered by them.
    proof fn lemma_union_members(
        es: Seq<Type>,
        ids: Seq<TypeId>,
        t0: Seq<Type>,
        w: Seq<TypeId>,
        xs: Seq<TypeView>,
        rel: spec_fn(Type, TypeView) -> bool,
    )
        requires
            ids.len() == es.len(),
            forall|i: int| #![trigger ids[i]] 0 <= i < ids.len() ==> rel(es[i], type_at(t0, ids[i])@),
            w.to_set() == ids.to_set(),
            xs.len() == w.len(),
            forall|j: int| 0 <= j < w.len() ==> #[trigger] xs[j] == type_at(t0, w[j])@,
        ensures
            forall|x: TypeView| #[trigger] xs.contains(x) ==> exists|t: Type| #[trigger] es.contains(t) && rel(t, x),
            forall|t: Type| #[trigger] es.contains(t) ==> exists|x: TypeView| #[trigger] xs.contains(x) && rel(t, x),
    {
        assert forall|x: TypeView| #[trigger] xs.contains(x) implies exists|t: Type| #[trigger] es.contains(t) && rel(t, x) by {
            let j = choose|j: int| 0 <= j < xs.len() && xs[j] == x;
            assert(xs[j] == type_at(t0, w[j])@);
            assert(w.to_set().contains(w[j]));
            assert(ids.to_set().contains(w[j]));
            let i = choose|i: int| 0 <= i < ids.len() && ids[i] == w[j];
            assert(rel(es[i], type_at(t0, ids[i])@));
            assert(es.contains(es[i]));
        }
        assert forall|t: Type| #[trigger] es.contains(t) implies exists|x: TypeView| #[trigger] xs.contains(x) && rel(t, x) by {
            let i = choose|i: int| 0 <= i < es.len() && es[i] == t;
            assert(rel(es[i], type_at(t0, ids[i])@));
            assert(ids.to_set().contains(ids[i]));
            assert(w.to_set().contains(ids[i]));
            let j = choose|j: int| 0 <= j < w.len() && w[j] == ids[i];
            assert(xs[j] == type_at(t0, w[j])@);
            assert(xs.contains(xs[j]));
        }
    }

    /// What `resolved_as` asks of a union.
    proof fn lemma_union_unfold(ty: Type, v: TypeView)
        requires
            ty is Union,
        ensures
            resolved_as(ty, v) == ({
                let es = ty->Union_0@;
                &&& es.len() == 0 ==> v == TypeView::Primitive(PrimitiveType::Never)
                &&& es.len() > 0 ==> (forall|t: Type| #[trigger] es.contains(t) ==> resolved_as(t, v)) || (
                v matches TypeView::Union(xs) && (forall|x: TypeView|
                    #[trigger] xs.contains(x) ==> exists|t: Type| #[trigger] es.contains(t) && resolved_as(t, x)) && (forall|t: Type|
                    #[trigger] es.contains(t) ==> exists|x: TypeView| #[trigger] xs.contains(x) && resolved_as(t, x)))
            }),
    {
        reveal(resolved_as);
    }

    /// A union of members that all resolved to the type `v` resolves to `v`.
    proof fn lemma_union_resolved_same(ty: Type, v: TypeView, rel: spec_fn(Type, TypeView) -> bool)
        requires
            ty is Union,
            ty->Union_0@.len() > 0,
            rel == (|t: Type, x: TypeView| resolved_as(t, x)),
            forall|t: Type| #[trigger] ty->Union_0@.contains(t) ==> rel(t, v),
        ensures
            resolved_as(ty, v),
    {
        let es = ty->Union_0@;
        Self::lemma_union_unfold(ty, v);
        assert forall|t: Type| #[trigger] es.contains(t) implies resolved_as(t, v) by {
            assert(rel(t, v));
        }
    }

    /// A union whose members cover, and are covered by, the members of `ty` is a
    /// resolution of `ty`.
    proof fn lemma_union_resolved_members(ty: Type, v: TypeView)
        requires
            ty is Union,
            ty->Union_0@.len() > 0,
            v is Union,
            forall|x: TypeView| #[trigger] v->Union_0.contains(x) ==> exists|t: Type| #[trigger] ty->Union_0@.contains(t) && resolved_as(t, x),
            forall|t: Type| #[trigger] ty->Union_0@.contains(t) ==> exists|x: TypeView| #[trigger] v->Union_0.contains(x) && resolved_as(t, x),
        ensures
            resolved_as(ty, v),
    {
        Self::lemma_union_unfold(ty, v);
    }

    /// What `get_or_intern_union` stores for resolved members is a resolution of the
    /// union they were resolved from.
    proof fn lemma_union_resolved(ty: Type, ids: Seq<TypeId>, t0: Seq<Type>, t1: Seq<Type>, r: TypeId)
        requires
            ty is Union,
            ids.len() == ty->Union_0@.len(),
            forall|i: int|
                #![trigger ids[i]]
                0 <= i < ids.len() ==> valid_id(t0, ids[i]) && resolved_as(ty->Union_0@[i], type_at(t0, ids[i])@),
            extends(t1, t0),
            ids.len() == 0 ==> type_at(t1, r)@ == TypeView::Primitive(PrimitiveType::Never),
            ids.len() > 0 && (forall|i: int| 0 <= i < ids.len() ==> #[trigger] ids[i] == ids[0]) ==> r == ids[0],
            !(forall|i: int| 0 <= i < ids.len() ==> #[trigger] ids[i] == ids[0]) ==> exists|w: Seq<TypeId>|
                #![trigger w.to_set()]
                {
                    &&& crate::semantic::types::interner::increasing(w)
                    &&& w.to_set() == ids.to_set()
                    &&& type_at(t1, r)@ == TypeView::Union(w.map_values(|id: TypeId| type_at(t0, id)@))
                },
        ensures
            resolved_as(ty, type_at(t1, r)@),
    {
        let es = ty->Union_0@;
        let v = type_at(t1, r)@;
        let rel = |t: Type, x: TypeView| resolved_as(t, x);
        assert forall|i: int| #![trigger ids[i]] 0 <= i < ids.len() implies valid_id(t0, ids[i]) && rel(
            es[i],
            type_at(t0, ids[i])@,
        ) by {}
        if ids.len() == 0 {
            Self::lemma_union_unfold(ty, v);
        } else if forall|i: int| 0 <= i < ids.len() ==> #[trigger] ids[i] == ids[0] {
            Self::lemma_union_same(es, ids, t0, t1, r, rel);
            Self::lemma_union_resolved_same(ty, v, rel);
        } else {
            let w = choose|w: Seq<TypeId>|
                #![trigger w.to_set()]
                {
                    &&& crate::semantic::types::interner::increasing(w)
                    &&& w.to_set() == ids.to_set()
                    &&& type_at(t1, r)@ == TypeView::Union(w.map_values(|id: TypeId| type_at(t0, id)@))
                };
            let xs = w.map_values(|id: TypeId| type_at(t0, id)@);
            assert forall|j: int| 0 <= j < w.len() implies #[trigger] xs[j] == type_at(t0, w[j])@ by {}
            Self::lemma_union_members(es, ids, t0, w, xs, rel);
            assert(v == TypeView::Union(xs));
            assert forall|x: TypeView| #[trigger] v->Union_0.contains(x) implies exists|t: Type| #[trigger] es.contains(t) && resolved_as(t, x) by {
                assert(xs.contains(x));
                let t = choose|t: Type| #[trigger] es.contains(t) && rel(t, x);
                assert(resolved_as(t, x));
            }
            assert forall|t: Type| #[trigger] es.contains(t) implies exists|x: TypeView| #[trigger] v->Union_0.contains(x) && resolved_as(t, x) by {
                let x = choose|x: TypeView| #[trigger] xs.contains(x) && rel(t, x);
                assert(resolved_as(t, x));
                assert(v->Union_0.contains(x));
            }
            Self::lemma_union_resolved_members(ty, v);
        }
    }

    /// What a walk of the children of `node` leaves untouched, a walk of `node`
    /// leaves untouched.
    proof fn lemma_below_untouched<'n>(after: Seq<Symbol>, before: Seq<Symbol>, node: &'n AstNode<'n>)
        requires
            untouched_below(after, before, node),
        ensures
            untouched(after, before, node),
    {
    }

    /// What a walk of child `i` of `node` leaves untouched, a walk of `node` leaves
    /// untouched.
    proof fn lemma_child_untouched<'n>(after: Seq<Symbol>, before: Seq<Symbol>, node: &'n AstNode<'n>, i: int)
        requires
            0 <= i < node.spec_children().len(),
            untouched(after, before, node.spec_children()[i]),
        ensures
            untouched(after, before, node),
    {
        assert forall|j: int| 0 <= j < before.len() && !declares(node, (#[trigger] before[j]).spec_name()) implies after[j]
            == before[j] by {
            if declares(node.spec_children()[i], before[j].spec_name()) {
                lemma_declares_any_elem(node.spec_children(), i, before[j].spec_name());
            }
        }
    }

    /// What is recorded of a symbol stays true where the symbol is the same and
    /// stored types were only added.
    proof fn lemma_typed_stable(a: Self, b: Self, id: SymbolId, decl: VariableDeclaration)
        requires
            declaration_typed(a, id, decl),
            extends(b.spec_types(), a.spec_types()),
            b.spec_symbols().symbol_at(id) == a.spec_symbols().symbol_at(id),
        ensures
            declaration_typed(b, id, decl),
    {
        if let Some(t) = a.spec_symbols().symbol_at(id).spec_type_id() {
            if valid_id(a.spec_types(), t) {
                lemma_extends_valid_id(a.spec_types(), b.spec_types(), t);
            }
        }
    }

    /// What is recorded of a function's symbol stays true where the symbol is the
    /// same and stored types were only added.
    proof fn lemma_function_typed_stable(
        a: Self,
        b: Self,
        id: SymbolId,
        params: Seq<Parameter>,
        return_type: Option<TypeAnnotation>,
    )
        requires
            function_typed(a, id, params, return_type),
            extends(b.spec_types(), a.spec_types()),
            b.spec_symbols().symbol_at(id) == a.spec_symbols().symbol_at(id),
        ensures
            function_typed(b, id, params, return_type),
    {
        let t = a.spec_symbols().symbol_at(id).spec_type_id().unwrap();
        lemma_extends_valid_id(a.spec_types(), b.spec_types(), t);
    }

    /// What `plainly_typed` says of a symbol whose entry stays the same, it says while
    /// more types are stored.
    proof fn lemma_plainly_typed_stable(
        e: Self,
        a: Self,
        b: Self,
        id: SymbolId,
        params: Seq<Parameter>,
        return_type: Option<TypeAnnotation>,
    )
        requires
            plainly_typed(e, a, id, params, return_type),
            extends(b.spec_types(), a.spec_types()),
            b.spec_symbols().symbol_at(id) == a.spec_symbols().symbol_at(id),
        ensures
            plainly_typed(e, b, id, params, return_type),
    {
        let t = a.spec_symbols().symbol_at(id).spec_type_id().unwrap();
        lemma_extends_valid_id(a.spec_types(), b.spec_types(), t);
    }

    /// One more declaration recorded: what holds of the declarations before it whose
    /// names come no more, and of it, holds afterwards.
    proof fn lemma_declarations_step(o: Self, pre: Self, post: Self, decls: Seq<VariableDeclaration>, i: int)
        requires
            0 <= i < decls.len(),
            pre.wf(),
            pre.retypes(o),
            post.retypes(pre),
            forall|j: int|
                0 <= j < pre.spec_symbols().spec_symbols().len() && (#[trigger] pre.spec_symbols().spec_symbols()[j]).spec_name()
                    != decls[i].name@ ==> post.spec_symbols().spec_symbols()[j] == pre.spec_symbols().spec_symbols()[j],
            decls[i].type_annotation is None && post.spec_types().len() < u32::MAX ==> (pre.target(decls[i].name@) matches Some(id)
                ==> unknown_typed(post, id)),
            decls[i].type_annotation matches Some(a) ==> (view_free(annotation_view(a)) && post.spec_types().len() < u32::MAX
                ==> (pre.target(decls[i].name@) matches Some(id) ==> post.spec_symbols().symbol_at(id).spec_type_id() matches Some(
                t) && valid_id(post.spec_types(), t) && type_at(post.spec_types(), t)@ == annotation_view(a))),
            pre.spec_types().len() < u32::MAX ==> forall|i2: int|
                #![trigger unrepeated(decls, i2, i)]
                0 <= i2 < i && unrepeated(decls, i2, i) ==> (o.target(decls[i2].name@) matches Some(id) ==> declaration_typed(
                    pre,
                    id,
                    decls[i2],
                )),
        ensures
            post.spec_types().len() < u32::MAX ==> forall|i2: int|
                #![trigger unrepeated(decls, i2, i + 1)]
                0 <= i2 < i + 1 && unrepeated(decls, i2, i + 1) ==> (o.target(decls[i2].name@) matches Some(id)
                    ==> declaration_typed(post, id, decls[i2])),
    {
        if post.spec_types().len() < u32::MAX {
            assert forall|i2: int|
                #![trigger unrepeated(decls, i2, i + 1)]
                0 <= i2 < i + 1 && unrepeated(decls, i2, i + 1) implies (o.target(decls[i2].name@) matches Some(id)
                    ==> declaration_typed(post, id, decls[i2])) by {
                let nm = decls[i2].name@;
                if i2 < i {
                    assert(unrepeated(decls, i2, i));
                }
                lemma_lexical_same(pre.spec_symbols().spec_symbols(), o.spec_symbols().spec_symbols(),
                    o.spec_scopes().spec_scopes(), o.spec_current_scope(), nm);
                if let Some(id) = o.target(nm) {
                    if i2 == i {
                        assert(declaration_typed(post, id, decls[i2]));
                    } else {
                        assert(decls[i].name@ != nm);
                        assert(declaration_typed(pre, id, decls[i2]));
                        pre.spec_symbols().lemma_lexical_named(pre.spec_scopes().spec_scopes(), pre.spec_current_scope(), nm);
                        pre.spec_symbols().lemma_ids();
                        assert(pre.spec_symbols().spec_symbols()[id.spec_get() as int].spec_name() == nm);
                        Self::lemma_typed_stable(pre, post, id, decls[i2]);
                    }
                }
            }
        }
    }

    /// A walk of the children of `node` keeps what is recorded of the symbol a name
    /// resolves to, where nothing within them declares the name.
    proof fn lemma_walk_keeps(mid: Self, fin: Self, node: &AstNode<'_>, id: SymbolId, name: Seq<char>)
        requires
            mid.wf(),
            fin.retypes(mid),
            untouched_below(fin.spec_symbols().spec_symbols(), mid.spec_symbols().spec_symbols(), node),
            !declares_any(node.spec_children(), name),
            mid.target(name) == Some(id),
        ensures
            fin.spec_symbols().symbol_at(id) == mid.spec_symbols().symbol_at(id),
            extends(fin.spec_types(), mid.spec_types()),
    {
        mid.spec_symbols().lemma_lexical_named(mid.spec_scopes().spec_scopes(), mid.spec_current_scope(), name);
        assert(mid.spec_symbols().spec_symbols()[id.spec_get() as int].spec_name() == name);
    }

    /// One more child walked: what `statement_typed` says of the children before it
    /// holds with it among the later ones, and of it with none after it.
    proof fn lemma_statements_step(o: Self, pre: Self, post: Self, children: Seq<&AstNode<'_>>, i: int)
        requires
            0 <= i < children.len(),
            pre.wf(),
            pre.retypes(o),
            post.retypes(pre),
            untouched(post.spec_symbols().spec_symbols(), pre.spec_symbols().spec_symbols(), children[i]),
            forall|k: int| 0 <= k < i ==> statement_typed(o, pre, #[trigger] children[k], children.subrange(k + 1, i)),
            children[i].spec_kind() matches NodeKind::VariableStatement { declarations } ==> (post.spec_types().len() < u32::MAX
                ==> forall|d: int|
                #![trigger unrepeated(declarations@, d, declarations@.len() as int)]
                0 <= d < declarations@.len() && unrepeated(declarations@, d, declarations@.len() as int) && !declares_any(
                    children[i].spec_children(),
                    declarations@[d].name@,
                ) ==> (pre.target(declarations@[d].name@) matches Some(id) ==> declaration_typed(post, id, declarations@[d]))),
        ensures
            forall|k: int| 0 <= k <= i ==> statement_typed(o, post, #[trigger] children[k], children.subrange(k + 1, i + 1)),
    {
        assert forall|nm: Seq<char>| #[trigger] pre.target(nm) == o.target(nm) by {
            lemma_lexical_same(
                pre.spec_symbols().spec_symbols(),
                o.spec_symbols().spec_symbols(),
                o.spec_scopes().spec_scopes(),
                o.spec_current_scope(),
                nm,
            );
        }
        assert forall|k: int| 0 <= k <= i implies statement_typed(o, post, #[trigger] children[k], children.subrange(k + 1, i + 1)) by {
            let later = children.subrange(k + 1, i + 1);
            if k == i {
                assert(later.len() == 0);
                assert(!declares_any(later, Seq::<char>::empty()) || true);
                if let NodeKind::VariableStatement { declarations } = children[k].spec_kind() {
                    assert forall|d: int|
                        #![trigger unrepeated(declarations@, d, declarations@.len() as int)]
                        0 <= d < declarations@.len() && unrepeated(declarations@, d, declarations@.len() as int)
                            && !declares_any(children[k].spec_children(), declarations@[d].name@) && !declares_any(
                            later,
                            declarations@[d].name@,
                        ) && post.spec_types().len() < u32::MAX implies (o.target(declarations@[d].name@) matches Some(id)
                        ==> declaration_typed(post, id, declarations@[d])) by {
                        assert(pre.target(declarations@[d].name@) == o.target(declarations@[d].name@));
                    }
                }
            } else {
                assert(later.drop_last() =~= children.subrange(k + 1, i));
                assert(later.last() == children[i]);
                if let NodeKind::VariableStatement { declarations } = children[k].spec_kind() {
                    assert forall|d: int|
                        #![trigger unrepeated(declarations@, d, declarations@.len() as int)]
                        0 <= d < declarations@.len() && unrepeated(declarations@, d, declarations@.len() as int)
                            && !declares_any(children[k].spec_children(), declarations@[d].name@) && !declares_any(
                            later,
                            declarations@[d].name@,
                        ) && post.spec_types().len() < u32::MAX implies (o.target(declarations@[d].name@) matches Some(id)
                        ==> declaration_typed(post, id, declarations@[d])) by {
                        let nm = declarations@[d].name@;
                        assert(statement_typed(o, pre, children[k], children.subrange(k + 1, i)));
                        if let Some(id) = o.target(nm) {
                            assert(pre.target(nm) == Some(id));
                            pre.spec_symbols().lemma_lexical_named(pre.spec_scopes().spec_scopes(), pre.spec_current_scope(), nm);
                            assert(pre.spec_symbols().spec_symbols()[id.spec_get() as int].spec_name() == nm);
                            assert(!declares(children[i], nm));
                            Self::lemma_typed_stable(pre, post, id, declarations@[d]);
                        }
                    }
                }
            }
        }
    }

    /// A name resolves to no symbol of another name.
    proof fn lemma_other_name_untargeted(r: Self, name: Seq<char>, j: int)
        requires
            r.wf(),
            0 <= j < r.spec_symbols().spec_symbols().len(),
            r.spec_symbols().spec_symbols()[j].spec_name() != name,
        ensures
            r.target(name) != Some(r.spec_symbols().spec_symbols()[j].spec_id()),
    {
        r.spec_symbols().lemma_lexical_named(r.spec_scopes().spec_scopes(), r.spec_current_scope(), name);
        r.spec_symbols().lemma_ids();
    }

    proof fn lemma_grows_trans_impl(a: Self, b: Self, c: Self)
        requires
            b.grows(a),
            c.grows(b),
        ensures
            c.grows(a),
    {
        assert(c.spec_types().take(a.spec_types().len() as int) =~= b.spec_types().take(a.spec_types().len() as int));
    }

    proof fn lemma_retypes_refl(a: Self)
        ensures
            a.retypes(a),
    {
        lemma_extends_refl(a.spec_types());
        let s = a.spec_symbols().spec_symbols();
        assert forall|i: int| 0 <= i < s.len() implies same_identity(#[trigger] s[i], s[i]) by {}
    }

    proof fn lemma_retypes_trans(a: Self, b: Self, c: Self)
        requires
            b.retypes(a),
            c.retypes(b),
        ensures
            c.retypes(a),
    {
        assert(c.spec_types().take(a.spec_types().len() as int) =~= b.spec_types().take(a.spec_types().len() as int));
        let sa = a.spec_symbols().spec_symbols();
        let sb = b.spec_symbols().spec_symbols();
        let sc = c.spec_symbols().spec_symbols();
        assert forall|i: int| 0 <= i < sa.len() implies same_identity(#[trigger] sc[i], sa[i]) by {
            assert(same_identity(sc[i], sb[i]));
            assert(same_identity(sb[i], sa[i]));
        }
    }

    proof fn lemma_grows_retypes(a: Self, b: Self)
        requires
            b.grows(a),
        ensures
            b.retypes(a),
    {
        let s = a.spec_symbols().spec_symbols();
        assert forall|i: int| 0 <= i < s.len() implies same_identity(#[trigger] s[i], s[i]) by {}
    }

    proof fn lemma_stored_after(a: Self, b: Self)
        requires
            a.wf(),
            b.spec_symbols() == a.spec_symbols(),
            b.spec_scopes() == a.spec_scopes(),
            b.spec_cache() == a.spec_cache(),
            extends(b.spec_types(), a.spec_types()),
        ensures
            b.wf(),
    {
        assert forall|i: int| 0 <= i < b.spec_symbols().spec_symbols().len() implies (
        #[trigger] b.spec_symbols().spec_symbols()[i]).spec_type_id() matches Some(t) ==> valid_id(b.spec_types(), t) by {
            if let Some(t) = b.spec_symbols().spec_symbols()[i].spec_type_id() {
                lemma_extends_valid_id(a.spec_types(), b.spec_types(), t);
            }
        }
        assert forall|k: (Seq<char>, ScopeId)| #[trigger] b.spec_cache().contains_key(k) implies valid_id(b.spec_types(), b.spec_cache()[k]) by {
            lemma_extends_valid_id(a.spec_types(), b.spec_types(), b.spec_cache()[k]);
        }
    }
}

proof fn lemma_grows_trans<'a>(a: TypeResolver<'a>, b: TypeResolver<'a>, c: TypeResolver<'a>)
    requires
        b.grows(a),
        c.grows(b),
    ensures
        c.grows(a),
{
    TypeResolver::lemma_grows_trans_impl(a, b, c);
}

proof fn lemma_grows_after_interner<'a>(a: TypeResolver<'a>, b: TypeResolver<'a>)
    requires
        b.spec_symbols() == a.spec_symbols(),
        b.spec_scopes() == a.spec_scopes(),
        b.spec_current_scope() == a.spec_current_scope(),
        b.spec_next_scope() == a.spec_next_scope(),
        extends(b.spec_types(), a.spec_types()),
    ensures
        b.grows(a),
{
}

proof fn lemma_cache_still_stored<'a>(a: TypeResolver<'a>, b: TypeResolver<'a>)
    requires
        a.wf(),
        b.spec_symbols() == a.spec_symbols(),
        b.spec_scopes() == a.spec_scopes(),
        b.spec_cache() == a.spec_cache(),
        extends(b.spec_types(), a.spec_types()),
    ensures
        b.wf(),
{
    TypeResolver::lemma_stored_after(a, b);
}

/// Resolution is stable: once a reference has resolved to a type from a scope,
/// resolving it again from that scope answers the same type, from the cache.
pub proof fn lemma_resolution_cached<'a>(
    s0: TypeResolver<'a>,
    s1: TypeResolver<'a>,
    s2: TypeResolver<'a>,
    reference: Type,
    r1: ResolutionResult<TypeId>,
    r2: ResolutionResult<TypeId>,
)
    requires
        TypeResolver::reference_resolved(s0, s1, reference, r1),
        r1 is Ok,
        s1.spec_current_scope() == s0.spec_current_scope(),
        TypeResolver::reference_resolved(s1, s2, reference, r2),
    ensures
        r2 == r1,
{
}

} // verus!
