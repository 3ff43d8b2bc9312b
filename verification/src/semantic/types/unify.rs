//! Subtyping, assignability and unification of types.

use vstd::prelude::*;
use crate::semantic::types::representation::{
    copy_params, copy_type, lemma_prop_lookup, lemma_props_size, lemma_types_size, lemma_types_view, opt_size,
    opt_view, params_view, prop_lookup, props_size, props_view, type_eq, type_size, type_view, types_size, types_view, ObjectType, PrimitiveType,
    PropertyMap, Type, TypeView,
};
use crate::semantic::types::interner::{extends, interned, type_at, valid_id, TypeInterner};
use crate::semantic::types::representation::{TypeId, TypeParameter};

verus! {

// ---------------------------------------------------------------------------------
// Subtyping.
// ---------------------------------------------------------------------------------

/// Whether a value of type `a` can be used where type `b` is expected: `any` goes
/// both ways, `never` is below and `unknown` above every type, primitives only
/// match themselves, unions and intersections distribute, arrays and tuples are
/// covariant, objects are structural (with index signatures), functions are
/// contravariant in their parameters and covariant in their result, generic
/// instantiations only match themselves.
pub open spec fn subtype(a: Type, b: Type) -> bool
    decreases type_size(a) + type_size(b),
{
    match (a, b) {
        (_, Type::Primitive(PrimitiveType::Any)) => true,
        (Type::Primitive(PrimitiveType::Any), _) => true,
        (Type::Primitive(PrimitiveType::Never), _) => true,
        (_, Type::Primitive(PrimitiveType::Unknown)) => true,
        (Type::Primitive(x), Type::Primitive(y)) => x == y,
        (Type::Union(xs), Type::Union(ys)) => {
            proof {
                lemma_types_size(xs@);
                lemma_types_size(ys@);
            }
            forall|i: int|
                #![trigger xs@[i]]
                0 <= i < xs@.len() ==> exists|j: int| 0 <= j < ys@.len() && subtype(xs@[i], #[trigger] ys@[j])
        },
        (_, Type::Union(ys)) => {
            proof {
                lemma_types_size(ys@);
            }
            exists|j: int| 0 <= j < ys@.len() && subtype(a, #[trigger] ys@[j])
        },
        (Type::Union(xs), _) => {
            proof {
                lemma_types_size(xs@);
            }
            forall|i: int| 0 <= i < xs@.len() ==> subtype(#[trigger] xs@[i], b)
        },
        (Type::Intersection(xs), _) => {
            proof {
                lemma_types_size(xs@);
            }
            exists|i: int| 0 <= i < xs@.len() && subtype(#[trigger] xs@[i], b)
        },
        (_, Type::Intersection(ys)) => {
            proof {
                lemma_types_size(ys@);
            }
            forall|j: int| 0 <= j < ys@.len() ==> subtype(a, #[trigger] ys@[j])
        },
        (Type::Array(x), Type::Array(y)) => subtype(*x, *y),
        (Type::Tuple(xs), Type::Tuple(ys)) => {
            proof {
                lemma_types_size(xs@);
                lemma_types_size(ys@);
            }
            xs@.len() == ys@.len() && forall|i: int| 0 <= i < xs@.len() ==> subtype(#[trigger] xs@[i], ys@[i])
        },
        (Type::Object(x), Type::Object(y)) => {
            let xp = x.properties.spec_entries();
            let yp = y.properties.spec_entries();
            proof {
                lemma_props_size(xp);
                lemma_props_size(yp);
            }
            &&& forall|i: int|
                0 <= i < yp.len() ==> {
                    proof {
                        lemma_prop_lookup(xp, yp[i].0@);
                    }
                    match prop_lookup(xp, (#[trigger] yp[i]).0@) {
                        Some(t) => subtype(t, yp[i].1),
                        None => false,
                    }
                }
            &&& match y.index_signature {
                None => true,
                Some(bi) => {
                    proof {
                        assert(opt_size(y.index_signature) == type_size(*bi));
                    }
                    match x.index_signature {
                        Some(ai) => {
                            proof {
                                assert(opt_size(x.index_signature) == type_size(*ai));
                            }
                            subtype(*ai, *bi)
                        },
                        None => forall|i: int| 0 <= i < xp.len() ==> subtype((#[trigger] xp[i]).1, *bi),
                    }
                },
            }
        },
        (
            Type::Function { params: xps, return_type: xr, type_params: _ },
            Type::Function { params: yps, return_type: yr, type_params: _ },
        ) => {
            proof {
                lemma_types_size(xps@);
                lemma_types_size(yps@);
            }
            &&& xps@.len() == yps@.len()
            &&& forall|i: int| 0 <= i < xps@.len() ==> subtype(#[trigger] yps@[i], xps@[i])
            &&& subtype(*xr, *yr)
        },
        (Type::Generic { .. }, Type::Generic { .. }) => a@ == b@,
        _ => false,
    }
}

/// Whether some element of `ys` is a supertype of `a`.
fn subtype_of_some(a: &Type, ys: &Vec<Type>, interner: &TypeInterner) -> (r: bool)
    requires
        forall|j: int| 0 <= j < ys@.len() ==> type_size(#[trigger] ys@[j]) < types_size(ys@) + 1,
    ensures
        r == exists|j: int| 0 <= j < ys@.len() && subtype(*a, #[trigger] ys@[j]),
    decreases type_size(*a) + types_size(ys@) + 1, 0nat,
{
    let mut j: usize = 0;
    while j < ys.len()
        invariant
            j <= ys@.len(),
            forall|k: int| 0 <= k < ys@.len() ==> type_size(#[trigger] ys@[k]) < types_size(ys@) + 1,
            forall|k: int| 0 <= k < j ==> !subtype(*a, #[trigger] ys@[k]),
        decreases ys@.len() - j,
    {
        if is_subtype_internal(a, &ys[j], interner) {
            return true;
        }
        j = j + 1;
    }
    false
}

/// Whether every element of `xs` is a subtype of `b`.
fn all_subtype_of(xs: &Vec<Type>, b: &Type, interner: &TypeInterner) -> (r: bool)
    requires
        forall|i: int| 0 <= i < xs@.len() ==> type_size(#[trigger] xs@[i]) < types_size(xs@) + 1,
    ensures
        r == forall|i: int| 0 <= i < xs@.len() ==> subtype(#[trigger] xs@[i], *b),
    decreases types_size(xs@) + 1 + type_size(*b), 0nat,
{
    let mut i: usize = 0;
    while i < xs.len()
        invariant
            i <= xs@.len(),
            forall|k: int| 0 <= k < xs@.len() ==> type_size(#[trigger] xs@[k]) < types_size(xs@) + 1,
            forall|k: int| 0 <= k < i ==> subtype(#[trigger] xs@[k], *b),
        decreases xs@.len() - i,
    {
        if !is_subtype_internal(&xs[i], b, interner) {
            return false;
        }
        i = i + 1;
    }
    true
}

/// Whether `a` is a subtype of every element of `ys`.
fn subtype_of_all(a: &Type, ys: &Vec<Type>, interner: &TypeInterner) -> (r: bool)
    requires
        forall|j: int| 0 <= j < ys@.len() ==> type_size(#[trigger] ys@[j]) < types_size(ys@) + 1,
    ensures
        r == forall|j: int| 0 <= j < ys@.len() ==> subtype(*a, #[trigger] ys@[j]),
    decreases type_size(*a) + types_size(ys@) + 1, 0nat,
{
    let mut j: usize = 0;
    while j < ys.len()
        invariant
            j <= ys@.len(),
            forall|k: int| 0 <= k < ys@.len() ==> type_size(#[trigger] ys@[k]) < types_size(ys@) + 1,
            forall|k: int| 0 <= k < j ==> subtype(*a, #[trigger] ys@[k]),
        decreases ys@.len() - j,
    {
        if !is_subtype_internal(a, &ys[j], interner) {
            return false;
        }
        j = j + 1;
    }
    true
}

/// Whether some element of `xs` is a subtype of `b`.
fn some_subtype_of(xs: &Vec<Type>, b: &Type, interner: &TypeInterner) -> (r: bool)
    requires
        forall|i: int| 0 <= i < xs@.len() ==> type_size(#[trigger] xs@[i]) < types_size(xs@) + 1,
    ensures
        r == exists|i: int| 0 <= i < xs@.len() && subtype(#[trigger] xs@[i], *b),
    decreases types_size(xs@) + 1 + type_size(*b), 0nat,
{
    let mut i: usize = 0;
    while i < xs.len()
        invariant
            i <= xs@.len(),
            forall|k: int| 0 <= k < xs@.len() ==> type_size(#[trigger] xs@[k]) < types_size(xs@) + 1,
            forall|k: int| 0 <= k < i ==> !subtype(#[trigger] xs@[k], *b),
        decreases xs@.len() - i,
    {
        if is_subtype_internal(&xs[i], b, interner) {
            return true;
        }
        i = i + 1;
    }
    false
}

/// Whether `a` is a subtype of `b`.
fn is_subtype_internal(a: &Type, b: &Type, interner: &TypeInterner) -> (r: bool)
    ensures
        r == subtype(*a, *b),
    decreases type_size(*a) + type_size(*b), 1nat,
{
    match (a, b) {
        (_, Type::Primitive(PrimitiveType::Any)) => true,
        (Type::Primitive(PrimitiveType::Any), _) => true,
        (Type::Primitive(PrimitiveType::Never), _) => true,
        (_, Type::Primitive(PrimitiveType::Unknown)) => true,
        (Type::Primitive(x), Type::Primitive(y)) => *x == *y,
        (Type::Union(xs), Type::Union(ys)) => {
            proof {
                lemma_types_size(xs@);
                lemma_types_size(ys@);
            }
            let mut i: usize = 0;
            while i < xs.len()
                invariant
                    i <= xs@.len(),
                    *a == Type::Union(*xs),
                    *b == Type::Union(*ys),
                    forall|k: int| 0 <= k < xs@.len() ==> type_size(#[trigger] xs@[k]) <= types_size(xs@),
                    forall|k: int| 0 <= k < ys@.len() ==> type_size(#[trigger] ys@[k]) <= types_size(ys@),
                    forall|k: int|
                        #![trigger xs@[k]]
                        0 <= k < i ==> exists|j: int| 0 <= j < ys@.len() && subtype(xs@[k], #[trigger] ys@[j]),
                decreases xs@.len() - i,
            {
                if !subtype_of_some(&xs[i], ys, interner) {
                    return false;
                }
                i = i + 1;
            }
            true
        },
        (_, Type::Union(ys)) => {
            proof {
                lemma_types_size(ys@);
            }
            subtype_of_some(a, ys, interner)
        },
        (Type::Union(xs), _) => {
            proof {
                lemma_types_size(xs@);
            }
            all_subtype_of(xs, b, interner)
        },
        (Type::Intersection(xs), _) => {
            proof {
                lemma_types_size(xs@);
            }
            some_subtype_of(xs, b, interner)
        },
        (_, Type::Intersection(ys)) => {
            proof {
                lemma_types_size(ys@);
            }
            subtype_of_all(a, ys, interner)
        },
        (Type::Array(x), Type::Array(y)) => is_subtype_internal(x, y, interner),
        (Type::Tuple(xs), Type::Tuple(ys)) => {
            proof {
                lemma_types_size(xs@);
                lemma_types_size(ys@);
            }
            if xs.len() != ys.len() {
                return false;
            }
            let mut i: usize = 0;
            while i < xs.len()
                invariant
                    i <= xs@.len(),
                    xs@.len() == ys@.len(),
                    *a == Type::Tuple(*xs),
                    *b == Type::Tuple(*ys),
                    forall|k: int| 0 <= k < xs@.len() ==> type_size(#[trigger] xs@[k]) <= types_size(xs@),
                    forall|k: int| 0 <= k < ys@.len() ==> type_size(#[trigger] ys@[k]) <= types_size(ys@),
                    forall|k: int| 0 <= k < i ==> subtype(#[trigger] xs@[k], ys@[k]),
                decreases xs@.len() - i,
            {
                if !is_subtype_internal(&xs[i], &ys[i], interner) {
                    return false;
                }
                i = i + 1;
            }
            true
        },
        (Type::Object(x), Type::Object(y)) => {
            let xe = x.properties.entries();
            let ye = y.properties.entries();
            let ghost xp = x.properties.spec_entries();
            let ghost yp = y.properties.spec_entries();
            proof {
                lemma_props_size(xp);
                lemma_props_size(yp);
            }
            let mut i: usize = 0;
            while i < ye.len()
                invariant
                    i <= yp.len(),
                    ye@ == yp,
                    xe@ == xp,
                    xp == x.properties.spec_entries(),
                    yp == y.properties.spec_entries(),
                    *a == Type::Object(*x),
                    *b == Type::Object(*y),
                    forall|k: int| 0 <= k < yp.len() ==> type_size((#[trigger] yp[k]).1) <= props_size(yp),
                    forall|k: int|
                        0 <= k < i ==> match prop_lookup(xp, (#[trigger] yp[k]).0@) {
                            Some(t) => subtype(t, yp[k].1),
                            None => false,
                        },
                decreases yp.len() - i,
            {
                let name = ye[i].0.as_str();
                proof {
                    lemma_prop_lookup(xp, name@);
                }
                match x.properties.lookup(name) {
                    Some(at) => {
                        if !is_subtype_internal(at, &ye[i].1, interner) {
                            return false;
                        }
                    },
                    None => {
                        return false;
                    },
                }
                i = i + 1;
            }
            match &y.index_signature {
                None => true,
                Some(bi) => {
                    proof {
                        assert(opt_size(y.index_signature) == type_size(**bi));
                    }
                    match &x.index_signature {
                        Some(ai) => {
                            proof {
                                assert(opt_size(x.index_signature) == type_size(**ai));
                            }
                            is_subtype_internal(ai, bi, interner)
                        },
                        None => {
                            let mut k: usize = 0;
                            while k < xe.len()
                                invariant
                                    k <= xp.len(),
                                    xe@ == xp,
                                    xp == x.properties.spec_entries(),
                                    *a == Type::Object(*x),
                                    *b == Type::Object(*y),
                                    y.index_signature == Some(*bi),
                                    x.index_signature is None,
                                    opt_size(y.index_signature) == type_size(**bi),
                                    forall|m: int| 0 <= m < xp.len() ==> type_size((#[trigger] xp[m]).1) <= props_size(xp),
                                    forall|m: int| 0 <= m < k ==> subtype((#[trigger] xp[m]).1, **bi),
                                decreases xp.len() - k,
                            {
                                if !is_subtype_internal(&xe[k].1, bi, interner) {
                                    return false;
                                }
                                k = k + 1;
                            }
                            true
                        },
                    }
                },
            }
        },
        (
            Type::Function { params: xps, return_type: xr, type_params: xtp },
            Type::Function { params: yps, return_type: yr, type_params: ytp },
        ) => {
            proof {
                lemma_types_size(xps@);
                lemma_types_size(yps@);
            }
            if xps.len() != yps.len() {
                return false;
            }
            let mut i: usize = 0;
            while i < xps.len()
                invariant
                    i <= xps@.len(),
                    xps@.len() == yps@.len(),
                    *a == (Type::Function { params: *xps, return_type: *xr, type_params: *xtp }),
                    *b == (Type::Function { params: *yps, return_type: *yr, type_params: *ytp }),
                    forall|k: int| 0 <= k < xps@.len() ==> type_size(#[trigger] xps@[k]) <= types_size(xps@),
                    forall|k: int| 0 <= k < yps@.len() ==> type_size(#[trigger] yps@[k]) <= types_size(yps@),
                forall|k: int| 0 <= k < i ==> subtype(#[trigger] yps@[k], xps@[k]),
                decreases xps@.len() - i,
            {
                if !is_subtype_internal(&yps[i], &xps[i], interner) {
                    return false;
                }
                i = i + 1;
            }
            is_subtype_internal(xr, yr, interner)
        },
        (Type::Generic { .. }, Type::Generic { .. }) => crate::semantic::types::representation::type_eq(a, b),
        _ => false,
    }
}

/// Whether the stored type `a` is a subtype of the stored type `b`: equal ids always
/// are; an id that names no type is a subtype of nothing else.
pub fn is_subtype(a: TypeId, b: TypeId, interner: &TypeInterner) -> (r: bool)
    ensures
        r == (a == b || (valid_id(interner.spec_types(), a) && valid_id(interner.spec_types(), b)
            && subtype(type_at(interner.spec_types(), a), type_at(interner.spec_types(), b)))),
{
    if a == b {
        return true;
    }
    let a_ty = match interner.get(a) {
        Some(ty) => ty,
        None => return false,
    };
    let b_ty = match interner.get(b) {
        Some(ty) => ty,
        None => return false,
    };
    is_subtype_internal(a_ty, b_ty, interner)
}

/// Whether a value of type `from` can be assigned where `to` is expected: `from` is
/// a subtype of `to`.
pub fn is_assignable(from: &Type, to: &Type, interner: &TypeInterner) -> (r: bool)
    ensures
        r == subtype(*from, *to),
{
    is_subtype_internal(from, to, interner)
}

// ---------------------------------------------------------------------------------
// Unification.
// ---------------------------------------------------------------------------------

/// Error that occurs when type unification fails.
#[derive(Debug, Clone, PartialEq, Eq)]
pub enum UnificationError {
    /// Types are incompatible and cannot be unified
    IncompatibleTypes(String, String),
    /// Occurs check failure (recursive type without proper indirection)
    RecursiveType(String, String),
    /// Type parameter constraint violation
    ConstraintViolation(String, String),
    /// Generic arity mismatch
    ArityMismatch { expected: usize, actual: usize },
}

/// Why a unification fails, as a mathematical value.
pub enum UnifyFailure {
    /// The types, described, cannot be unified.
    Incompatible(Seq<char>, Seq<char>),
    /// Argument lists of the expected and the actual length differ.
    Arity(nat, nat),
}

/// The failure an error reports; `None` for the variants unification never gives.
pub open spec fn failure_of(e: UnificationError) -> Option<UnifyFailure> {
    match e {
        UnificationError::IncompatibleTypes(a, b) => Some(UnifyFailure::Incompatible(a@, b@)),
        UnificationError::ArityMismatch { expected, actual } => Some(UnifyFailure::Arity(expected as nat, actual as nat)),
        _ => None,
    }
}

/// A short description of a type for messages: the keyword of a primitive, the name
/// of a type parameter or reference, else the kind of type.
pub open spec fn describe_spec(t: Type) -> Seq<char> {
    match t {
        Type::Primitive(PrimitiveType::String) => "string"@,
        Type::Primitive(PrimitiveType::Number) => "number"@,
        Type::Primitive(PrimitiveType::Boolean) => "boolean"@,
        Type::Primitive(PrimitiveType::Null) => "null"@,
        Type::Primitive(PrimitiveType::Undefined) => "undefined"@,
        Type::Primitive(PrimitiveType::Void) => "void"@,
        Type::Primitive(PrimitiveType::Never) => "never"@,
        Type::Primitive(PrimitiveType::Unknown) => "unknown"@,
        Type::Primitive(PrimitiveType::Any) => "any"@,
        Type::Array(_) => "array"@,
        Type::Tuple(_) => "tuple"@,
        Type::Object(_) => "object"@,
        Type::Function { .. } => "function"@,
        Type::Union(_) => "union"@,
        Type::Intersection(_) => "intersection"@,
        Type::TypeParameter(tp) => tp.name@,
        Type::Generic { .. } => "generic"@,
        Type::Reference { name, .. } => name@,
    }
}

/// A short description of a type for messages.
pub fn describe(t: &Type) -> (r: String)
    ensures
        r@ == describe_spec(*t),
{
    match t {
        Type::Primitive(PrimitiveType::String) => "string".to_owned(),
        Type::Primitive(PrimitiveType::Number) => "number".to_owned(),
        Type::Primitive(PrimitiveType::Boolean) => "boolean".to_owned(),
        Type::Primitive(PrimitiveType::Null) => "null".to_owned(),
        Type::Primitive(PrimitiveType::Undefined) => "undefined".to_owned(),
        Type::Primitive(PrimitiveType::Void) => "void".to_owned(),
        Type::Primitive(PrimitiveType::Never) => "never".to_owned(),
        Type::Primitive(PrimitiveType::Unknown) => "unknown".to_owned(),
        Type::Primitive(PrimitiveType::Any) => "any".to_owned(),
        Type::Array(_) => "array".to_owned(),
        Type::Tuple(_) => "tuple".to_owned(),
        Type::Object(_) => "object".to_owned(),
        Type::Function { .. } => "function".to_owned(),
        Type::Union(_) => "union".to_owned(),
        Type::Intersection(_) => "intersection".to_owned(),
        Type::TypeParameter(tp) => tp.name.clone(),
        Type::Generic { .. } => "generic".to_owned(),
        Type::Reference { name, .. } => name.clone(),
    }
}

/// The failure for two types that cannot be unified.
pub open spec fn incompatible(a: Type, b: Type) -> UnifyFailure {
    UnifyFailure::Incompatible(describe_spec(a), describe_spec(b))
}

/// The members a type brings to a union: its own members if it is a union, else
/// itself.
pub open spec fn union_members(t: Type) -> Seq<TypeView> {
    match t {
        Type::Union(v) => types_view(v@),
        _ => seq![t@],
    }
}

/// The parts a type brings to an intersection: its own parts if it is an
/// intersection, else itself.
pub open spec fn intersection_parts(t: Type) -> Seq<TypeView> {
    match t {
        Type::Intersection(v) => types_view(v@),
        _ => seq![t@],
    }
}

/// `s` without repeats, first occurrences kept in order.
pub open spec fn dedup_views(s: Seq<TypeView>) -> Seq<TypeView>
    decreases s.len(),
{
    if s.len() == 0 {
        Seq::empty()
    } else {
        let d = dedup_views(s.drop_last());
        if d.contains(s.last()) {
            d
        } else {
            d.push(s.last())
        }
    }
}

/// The value of a successful unification; a placeholder otherwise.
pub open spec fn ok_view(r: Result<TypeView, UnifyFailure>, fallback: TypeView) -> TypeView {
    match r {
        Ok(v) => v,
        Err(_) => fallback,
    }
}

/// Unifies the first `n` elements of `xs` and `ys` pairwise, stopping at the first
/// failure.
pub open spec fn unify_list(xs: Seq<Type>, ys: Seq<Type>, n: nat) -> Result<Seq<TypeView>, UnifyFailure>
    decreases types_size(xs) + types_size(ys) + 1, n,
{
    if n == 0 || n > xs.len() || n > ys.len() {
        Ok(Seq::empty())
    } else {
        match unify_list(xs, ys, (n - 1) as nat) {
            Err(e) => Err(e),
            Ok(s) => {
                proof {
                    lemma_types_size(xs);
                    lemma_types_size(ys);
                }
                match unify_spec(xs[n - 1], ys[n - 1]) {
                    Err(e) => Err(e),
                    Ok(v) => Ok(s.push(v)),
                }
            },
        }
    }
}

/// The properties of the first `n` entries of `xp`, each name once: a name that `yp`
/// also has gets the unification of the two types.
pub open spec fn merge_left(xp: Seq<(String, Type)>, yp: Seq<(String, Type)>, n: nat) -> Map<Seq<char>, TypeView>
    decreases props_size(xp) + props_size(yp) + 1, n,
{
    if n == 0 || n > xp.len() {
        Map::empty()
    } else {
        let m = merge_left(xp, yp, (n - 1) as nat);
        let k = xp[n - 1].0@;
        if m.dom().contains(k) {
            m
        } else {
            proof {
                lemma_props_size(xp);
                lemma_prop_lookup(yp, k);
            }
            match prop_lookup(yp, k) {
                Some(t) => m.insert(k, ok_view(unify_spec(xp[n - 1].1, t), xp[n - 1].1@)),
                None => m.insert(k, xp[n - 1].1@),
            }
        }
    }
}

/// The first failure among the unifications that `merge_left` makes.
pub open spec fn merge_failure(xp: Seq<(String, Type)>, yp: Seq<(String, Type)>, n: nat) -> Option<UnifyFailure>
    decreases props_size(xp) + props_size(yp) + 1, n,
{
    if n == 0 || n > xp.len() {
        None
    } else {
        match merge_failure(xp, yp, (n - 1) as nat) {
            Some(e) => Some(e),
            None => {
                let k = xp[n - 1].0@;
                if merge_left(xp, yp, (n - 1) as nat).dom().contains(k) {
                    None
                } else {
                    proof {
                        lemma_props_size(xp);
                        lemma_prop_lookup(yp, k);
                    }
                    match prop_lookup(yp, k) {
                        Some(t) => match unify_spec(xp[n - 1].1, t) {
                            Err(e) => Some(e),
                            Ok(_) => None,
                        },
                        None => None,
                    }
                }
            },
        }
    }
}

/// `m` with the first `n` entries of `yp` added where their name is new.
pub open spec fn merge_right(m: Map<Seq<char>, TypeView>, yp: Seq<(String, Type)>, n: nat) -> Map<Seq<char>, TypeView>
    decreases n,
{
    if n == 0 || n > yp.len() {
        m
    } else {
        let m1 = merge_right(m, yp, (n - 1) as nat);
        if m1.dom().contains(yp[n - 1].0@) {
            m1
        } else {
            m1.insert(yp[n - 1].0@, yp[n - 1].1@)
        }
    }
}

/// The least type that both `a` and `b` can be used as: equal types give
/// themselves; `any` and `unknown` absorb every type; `never` gives the other type;
/// a type parameter met with another type gives `unknown`; unions merge their
/// members and intersections their parts (repeats dropped; a single member stands
/// alone); arrays, tuples of one length, functions of one arity, instantiations of
/// one generic and references to one name unify element by element; objects merge
/// their properties and index signatures. Anything else is incompatible.
pub open spec fn unify_spec(a: Type, b: Type) -> Result<TypeView, UnifyFailure>
    decreases type_size(a) + type_size(b), 0nat,
{
    if a@ == b@ {
        Ok(a@)
    } else {
        match (a, b) {
            (Type::Primitive(PrimitiveType::Any), _) => Ok(a@),
            (_, Type::Primitive(PrimitiveType::Any)) => Ok(b@),
            (Type::Primitive(PrimitiveType::Unknown), _) => Ok(a@),
            (_, Type::Primitive(PrimitiveType::Unknown)) => Ok(b@),
            (Type::Primitive(PrimitiveType::Never), _) => Ok(b@),
            (_, Type::Primitive(PrimitiveType::Never)) => Ok(a@),
            (Type::TypeParameter(_), _) => Ok(TypeView::Primitive(PrimitiveType::Unknown)),
            (_, Type::TypeParameter(_)) => Ok(TypeView::Primitive(PrimitiveType::Unknown)),
            (Type::Union(_), _) | (_, Type::Union(_)) => {
                let m = dedup_views(union_members(a) + union_members(b));
                if m.len() == 1 {
                    Ok(m[0])
                } else {
                    Ok(TypeView::Union(m))
                }
            },
            (Type::Intersection(_), _) | (_, Type::Intersection(_)) => Ok(
                TypeView::Intersection(dedup_views(intersection_parts(a) + intersection_parts(b))),
            ),
            (Type::Array(x), Type::Array(y)) => match unify_spec(*x, *y) {
                Ok(v) => Ok(TypeView::Array(Box::new(v))),
                Err(e) => Err(e),
            },
            (Type::Tuple(xs), Type::Tuple(ys)) => {
                if xs@.len() != ys@.len() {
                    Err(incompatible(a, b))
                } else {
                    match unify_list(xs@, ys@, xs@.len()) {
                        Ok(s) => Ok(TypeView::Tuple(s)),
                        Err(e) => Err(e),
                    }
                }
            },
            (Type::Object(x), Type::Object(y)) => {
                let xp = x.properties.spec_entries();
                let yp = y.properties.spec_entries();
                match merge_failure(xp, yp, xp.len()) {
                    Some(e) => Err(e),
                    None => {
                        let props = merge_right(merge_left(xp, yp, xp.len()), yp, yp.len());
                        match (x.index_signature, y.index_signature) {
                            (Some(xi), Some(yi)) => {
                                proof {
                                    assert(opt_size(x.index_signature) == type_size(*xi));
                                    assert(opt_size(y.index_signature) == type_size(*yi));
                                }
                                match unify_spec(*xi, *yi) {
                                    Ok(v) => Ok(TypeView::Object(props, Some(Box::new(v)))),
                                    Err(e) => Err(e),
                                }
                            },
                            (Some(xi), None) => Ok(TypeView::Object(props, Some(Box::new(xi@)))),
                            (None, Some(yi)) => Ok(TypeView::Object(props, Some(Box::new(yi@)))),
                            (None, None) => Ok(TypeView::Object(props, None)),
                        }
                    },
                }
            },
            (
                Type::Function { params: xps, return_type: xr, type_params: xtp },
                Type::Function { params: yps, return_type: yr, type_params: _ },
            ) => {
                if xps@.len() != yps@.len() {
                    Err(incompatible(a, b))
                } else {
                    match unify_list(xps@, yps@, xps@.len()) {
                        Err(e) => Err(e),
                        Ok(ps) => match unify_spec(*xr, *yr) {
                            Err(e) => Err(e),
                            Ok(rv) => Ok(TypeView::Function(ps, Box::new(rv), params_view(xtp@))),
                        },
                    }
                }
            },
            (Type::Generic { base: b1, args: xs }, Type::Generic { base: b2, args: ys }) => {
                if b1 != b2 {
                    Err(incompatible(a, b))
                } else if xs@.len() != ys@.len() {
                    Err(UnifyFailure::Arity(xs@.len(), ys@.len()))
                } else {
                    match unify_list(xs@, ys@, xs@.len()) {
                        Ok(s) => Ok(TypeView::Generic(b1, s)),
                        Err(e) => Err(e),
                    }
                }
            },
            (Type::Reference { name: n1, type_args: xs }, Type::Reference { name: n2, type_args: ys }) => {
                if n1@ != n2@ {
                    Err(incompatible(a, b))
                } else if xs@.len() != ys@.len() {
                    Err(UnifyFailure::Arity(xs@.len(), ys@.len()))
                } else {
                    match unify_list(xs@, ys@, xs@.len()) {
                        Ok(s) => Ok(TypeView::Reference(n1@, s)),
                        Err(e) => Err(e),
                    }
                }
            },
            _ => Err(incompatible(a, b)),
        }
    }
}

/// Whether `out` holds a type equal to `t`.
fn holds_type(out: &Vec<Type>, t: &Type) -> (r: bool)
    ensures
        r == types_view(out@).contains(t@),
{
    proof {
        lemma_types_view(out@);
    }
    let mut i: usize = 0;
    while i < out.len()
        invariant
            i <= out@.len(),
            types_view(out@).len() == out@.len(),
            forall|k: int| 0 <= k < out@.len() ==> #[trigger] types_view(out@)[k] == out@[k]@,
            forall|k: int| 0 <= k < i ==> out@[k]@ != t@,
        decreases out@.len() - i,
    {
        if type_eq(&out[i], t) {
            proof {
                assert(types_view(out@)[i as int] == t@);
            }
            return true;
        }
        i = i + 1;
    }
    proof {
        if types_view(out@).contains(t@) {
            let k = choose|k: int| 0 <= k < types_view(out@).len() && types_view(out@)[k] == t@;
            assert(out@[k]@ == t@);
        }
    }
    false
}

/// Appends a copy of `t` to `out` unless `out` holds an equal type.
fn push_unique(out: &mut Vec<Type>, t: &Type, Ghost(seen): Ghost<Seq<TypeView>>)
    requires
        types_view(old(out)@) == dedup_views(seen),
    ensures
        types_view(final(out)@) == dedup_views(seen.push(t@)),
{
    proof {
        assert(seen.push(t@).drop_last() == seen);
    }
    if !holds_type(out, t) {
        let ghost o0 = out@;
        out.push(copy_type(t));
        proof {
            lemma_types_view(o0);
            lemma_types_view(out@);
            assert(types_view(out@) =~= types_view(o0).push(t@));
        }
    }
}

/// Adds the members `t` brings to a union (or the parts it brings to an
/// intersection) to `out`, dropping repeats.
fn add_members(out: &mut Vec<Type>, t: &Type, union: bool, Ghost(seen): Ghost<Seq<TypeView>>)
    requires
        types_view(old(out)@) == dedup_views(seen),
    ensures
        union ==> types_view(final(out)@) == dedup_views(seen + union_members(*t)),
        !union ==> types_view(final(out)@) == dedup_views(seen + intersection_parts(*t)),
{
    let members: Option<&Vec<Type>> = match t {
        Type::Union(v) => if union { Some(v) } else { None },
        Type::Intersection(v) => if union { None } else { Some(v) },
        _ => None,
    };
    match members {
        Some(v) => {
            proof {
                lemma_types_view(v@);
                assert(union ==> union_members(*t) == types_view(v@));
                assert(!union ==> intersection_parts(*t) == types_view(v@));
            }
            let mut i: usize = 0;
            while i < v.len()
                invariant
                    i <= v@.len(),
                    types_view(v@).len() == v@.len(),
                    forall|k: int| 0 <= k < v@.len() ==> #[trigger] types_view(v@)[k] == v@[k]@,
                    types_view(out@) == dedup_views(seen + types_view(v@).take(i as int)),
                decreases v@.len() - i,
            {
                proof {
                    assert((seen + types_view(v@).take(i as int)).push(v@[i as int]@) =~= seen + types_view(v@).take(i + 1));
                }
                push_unique(out, &v[i], Ghost(seen + types_view(v@).take(i as int)));
                i = i + 1;
            }
            proof {
                assert(types_view(v@).take(v@.len() as int) =~= types_view(v@));
            }
        },
        None => {
            proof {
                assert(union ==> union_members(*t) == seq![t@]);
                assert(!union ==> intersection_parts(*t) == seq![t@]);
                assert(seen.push(t@) =~= seen + seq![t@]);
            }
            push_unique(out, t, Ghost(seen));
        },
    }
}

/// Unifies `xs` and `ys` element by element, stopping at the first failure.
fn unify_vec(xs: &Vec<Type>, ys: &Vec<Type>, interner: &TypeInterner) -> (r: Result<Vec<Type>, UnificationError>)
    requires
        xs@.len() == ys@.len(),
    ensures
        match r {
            Ok(v) => unify_list(xs@, ys@, xs@.len()) matches Ok(s) && types_view(v@) == s,
            Err(e) => unify_list(xs@, ys@, xs@.len()) matches Err(f) && failure_of(e) == Some(f),
        },
    decreases types_size(xs@) + types_size(ys@) + 1, xs@.len() + 1,
{
    proof {
        lemma_types_size(xs@);
        lemma_types_size(ys@);
    }
    let mut out: Vec<Type> = Vec::new();
    let mut i: usize = 0;
    while i < xs.len()
        invariant
            i <= xs@.len(),
            xs@.len() == ys@.len(),
            forall|k: int| 0 <= k < xs@.len() ==> type_size(#[trigger] xs@[k]) <= types_size(xs@),
            forall|k: int| 0 <= k < ys@.len() ==> type_size(#[trigger] ys@[k]) <= types_size(ys@),
            unify_list(xs@, ys@, i as nat) matches Ok(s) && types_view(out@) == s,
        decreases xs@.len() - i,
    {
        let ghost s0 = types_view(out@);
        match unify(&xs[i], &ys[i], interner) {
            Ok(t) => {
                let ghost o0 = out@;
                out.push(t);
                proof {
                    lemma_types_view(o0);
                    lemma_types_view(out@);
                    assert(types_view(out@) =~= types_view(o0).push(out@.last()@));
                }
            },
            Err(e) => {
                proof {
                    lemma_unify_list_fails(xs@, ys@, (i + 1) as nat, xs@.len());
                }
                return Err(e);
            },
        }
        i = i + 1;
    }
    Ok(out)
}

/// Once the first `n` elements fail to unify, so do the first `m >= n`.
proof fn lemma_unify_list_fails(xs: Seq<Type>, ys: Seq<Type>, n: nat, m: nat)
    requires
        n <= m <= xs.len(),
        m <= ys.len(),
        unify_list(xs, ys, n) is Err,
    ensures
        unify_list(xs, ys, m) == unify_list(xs, ys, n),
    decreases m - n,
{
    if m > n {
        lemma_unify_list_fails(xs, ys, n, (m - 1) as nat);
    }
}

/// Merges the properties of two object types: the names of `x` first, unified with
/// the same names of `y`, then the other names of `y`.
fn merge_properties(x: &ObjectType, y: &ObjectType, interner: &TypeInterner) -> (r: Result<PropertyMap, UnificationError>)
    ensures
        match r {
            Ok(pm) => merge_failure(x.properties.spec_entries(), y.properties.spec_entries(), x.properties.spec_entries().len()) is None
                && pm@ == merge_right(
                    merge_left(x.properties.spec_entries(), y.properties.spec_entries(), x.properties.spec_entries().len()),
                    y.properties.spec_entries(),
                    y.properties.spec_entries().len(),
                ),
            Err(e) => merge_failure(x.properties.spec_entries(), y.properties.spec_entries(), x.properties.spec_entries().len()) matches Some(f)
                && failure_of(e) == Some(f),
        },
    decreases props_size(x.properties.spec_entries()) + props_size(y.properties.spec_entries()) + 1, 0nat,
{
    let xe = x.properties.entries();
    let ye = y.properties.entries();
    let ghost xp = x.properties.spec_entries();
    let ghost yp = y.properties.spec_entries();
    proof {
        lemma_props_size(xp);
        lemma_props_size(yp);
    }
    let mut props = PropertyMap::new();
    let mut i: usize = 0;
    while i < xe.len()
        invariant
            i <= xp.len(),
            xe@ == xp,
            ye@ == yp,
            xp == x.properties.spec_entries(),
            yp == y.properties.spec_entries(),
            forall|k: int| 0 <= k < xp.len() ==> type_size((#[trigger] xp[k]).1) <= props_size(xp),
            props@ == merge_left(xp, yp, i as nat),
            merge_failure(xp, yp, i as nat) is None,
        decreases xp.len() - i,
    {
        let key = xe[i].0.as_str();
        if !props.contains_key(key) {
            proof {
                lemma_prop_lookup(yp, key@);
            }
            match y.properties.lookup(key) {
                Some(t) => match unify(&xe[i].1, t, interner) {
                    Ok(u) => {
                        props.insert(xe[i].0.clone(), u);
                    },
                    Err(e) => {
                        proof {
                            lemma_merge_failure_stays(xp, yp, (i + 1) as nat, xp.len());
                        }
                        return Err(e);
                    },
                },
                None => {
                    props.insert(xe[i].0.clone(), copy_type(&xe[i].1));
                },
            }
        }
        i = i + 1;
    }
    let ghost left = props@;
    let mut j: usize = 0;
    while j < ye.len()
        invariant
            j <= yp.len(),
            ye@ == yp,
            yp == y.properties.spec_entries(),
            props@ == merge_right(left, yp, j as nat),
        decreases yp.len() - j,
    {
        let key = ye[j].0.as_str();
        if !props.contains_key(key) {
            props.insert(ye[j].0.clone(), copy_type(&ye[j].1));
        }
        j = j + 1;
    }
    Ok(props)
}

/// Once a merge has failed it stays failed.
proof fn lemma_merge_failure_stays(xp: Seq<(String, Type)>, yp: Seq<(String, Type)>, n: nat, m: nat)
    requires
        n <= m <= xp.len(),
        merge_failure(xp, yp, n) is Some,
    ensures
        merge_failure(xp, yp, m) == merge_failure(xp, yp, n),
    decreases m - n,
{
    if m > n {
        lemma_merge_failure_stays(xp, yp, n, (m - 1) as nat);
    }
}

/// The index signature of two merged objects, where unifying them succeeds.
pub open spec fn index_merged(xi: Option<Box<Type>>, yi: Option<Box<Type>>) -> Option<Box<TypeView>> {
    match (xi, yi) {
        (Some(a), Some(b)) => Some(Box::new(ok_view(unify_spec(*a, *b), a@))),
        (Some(a), None) => Some(Box::new(a@)),
        (None, Some(b)) => Some(Box::new(b@)),
        (None, None) => None,
    }
}

/// Unifies two types, giving the least type that both can be used as (see
/// `unify_spec`).
///
/// # Errors
///
/// `IncompatibleTypes` with the two types described, or `ArityMismatch` with the
/// argument counts, where `unify_spec` fails.
pub fn unify(ty1: &Type, ty2: &Type, interner: &TypeInterner) -> (r: Result<Type, UnificationError>)
    ensures
        match r {
            Ok(t) => unify_spec(*ty1, *ty2) matches Ok(v) && v == t@,
            Err(e) => unify_spec(*ty1, *ty2) matches Err(f) && failure_of(e) == Some(f),
        },
    decreases type_size(*ty1) + type_size(*ty2), 1nat,
{
    if type_eq(ty1, ty2) {
        return Ok(copy_type(ty1));
    }
    match (ty1, ty2) {
        (Type::Primitive(PrimitiveType::Any), _) => Ok(copy_type(ty1)),
        (_, Type::Primitive(PrimitiveType::Any)) => Ok(copy_type(ty2)),
        (Type::Primitive(PrimitiveType::Unknown), _) => Ok(copy_type(ty1)),
        (_, Type::Primitive(PrimitiveType::Unknown)) => Ok(copy_type(ty2)),
        (Type::Primitive(PrimitiveType::Never), _) => Ok(copy_type(ty2)),
        (_, Type::Primitive(PrimitiveType::Never)) => Ok(copy_type(ty1)),
        (Type::TypeParameter(_), _) => Ok(Type::Primitive(PrimitiveType::Unknown)),
        (_, Type::TypeParameter(_)) => Ok(Type::Primitive(PrimitiveType::Unknown)),
        (Type::Union(_), _) | (_, Type::Union(_)) => {
            let mut out: Vec<Type> = Vec::new();
            proof {
                assert(types_view(out@) == dedup_views(Seq::<TypeView>::empty()));
            }
            add_members(&mut out, ty1, true, Ghost(Seq::empty()));
            proof {
                assert(Seq::<TypeView>::empty() + union_members(*ty1) =~= union_members(*ty1));
            }
            add_members(&mut out, ty2, true, Ghost(union_members(*ty1)));
            if out.len() == 1 {
                proof {
                    lemma_types_view(out@);
                }
                let only = out.pop().unwrap();
                Ok(only)
            } else {
                proof {
                    lemma_types_view(out@);
                }
                Ok(Type::Union(out))
            }
        },
        (Type::Intersection(_), _) | (_, Type::Intersection(_)) => {
            let mut out: Vec<Type> = Vec::new();
            proof {
                assert(types_view(out@) == dedup_views(Seq::<TypeView>::empty()));
            }
            add_members(&mut out, ty1, false, Ghost(Seq::empty()));
            proof {
                assert(Seq::<TypeView>::empty() + intersection_parts(*ty1) =~= intersection_parts(*ty1));
            }
            add_members(&mut out, ty2, false, Ghost(intersection_parts(*ty1)));
            Ok(Type::Intersection(out))
        },
        (Type::Array(x), Type::Array(y)) => match unify(x, y, interner) {
            Ok(v) => Ok(Type::Array(Box::new(v))),
            Err(e) => Err(e),
        },
        (Type::Tuple(xs), Type::Tuple(ys)) => {
            if xs.len() != ys.len() {
                return Err(UnificationError::IncompatibleTypes(describe(ty1), describe(ty2)));
            }
            match unify_vec(xs, ys, interner) {
                Ok(v) => Ok(Type::Tuple(v)),
                Err(e) => Err(e),
            }
        },
        (Type::Object(x), Type::Object(y)) => {
            proof {
                lemma_props_size(x.properties.spec_entries());
            }
            let properties = match merge_properties(x, y, interner) {
                Ok(p) => p,
                Err(e) => return Err(e),
            };
            let index_signature = match (&x.index_signature, &y.index_signature) {
                (Some(xi), Some(yi)) => {
                    proof {
                        assert(opt_size(x.index_signature) == type_size(**xi));
                        assert(opt_size(y.index_signature) == type_size(**yi));
                    }
                    match unify(xi, yi, interner) {
                        Ok(v) => Some(Box::new(v)),
                        Err(e) => return Err(e),
                    }
                },
                (Some(xi), None) => {
                    let c = copy_type(xi);
                    proof {
                        assert(opt_view(Some(Box::new(c))) == Some(Box::new(type_view(**xi))));
                    }
                    Some(Box::new(c))
                },
                (None, Some(yi)) => {
                    let c = copy_type(yi);
                    proof {
                        assert(opt_view(Some(Box::new(c))) == Some(Box::new(type_view(**yi))));
                    }
                    Some(Box::new(c))
                },
                (None, None) => None,
            };
            assert(opt_view(index_signature) == index_merged(x.index_signature, y.index_signature));
            Ok(Type::Object(ObjectType { properties, index_signature }))
        },
        (
            Type::Function { params: xps, return_type: xr, type_params: xtp },
            Type::Function { params: yps, return_type: yr, type_params: _ },
        ) => {
            if xps.len() != yps.len() {
                return Err(UnificationError::IncompatibleTypes(describe(ty1), describe(ty2)));
            }
            let params = match unify_vec(xps, yps, interner) {
                Ok(v) => v,
                Err(e) => return Err(e),
            };
            let return_type = match unify(xr, yr, interner) {
                Ok(v) => v,
                Err(e) => return Err(e),
            };
            Ok(Type::Function { params, return_type: Box::new(return_type), type_params: copy_params(xtp) })
        },
        (Type::Generic { base: b1, args: xs }, Type::Generic { base: b2, args: ys }) => {
            if *b1 != *b2 {
                return Err(UnificationError::IncompatibleTypes(describe(ty1), describe(ty2)));
            }
            if xs.len() != ys.len() {
                return Err(UnificationError::ArityMismatch { expected: xs.len(), actual: ys.len() });
            }
            match unify_vec(xs, ys, interner) {
                Ok(v) => Ok(Type::Generic { base: *b1, args: v }),
                Err(e) => Err(e),
            }
        },
        (Type::Reference { name: n1, type_args: xs }, Type::Reference { name: n2, type_args: ys }) => {
            if *n1 != *n2 {
                return Err(UnificationError::IncompatibleTypes(describe(ty1), describe(ty2)));
            }
            if xs.len() != ys.len() {
                return Err(UnificationError::ArityMismatch { expected: xs.len(), actual: ys.len() });
            }
            match unify_vec(xs, ys, interner) {
                Ok(v) => Ok(Type::Reference { name: n1.clone(), type_args: v }),
                Err(e) => Err(e),
            }
        },
        _ => Err(UnificationError::IncompatibleTypes(describe(ty1), describe(ty2))),
    }
}

// ---------------------------------------------------------------------------------
// Substitution of type parameters.
// ---------------------------------------------------------------------------------

/// Substitutions of stored types by stored types.
pub type Substitutions = fxhash::FxHashMap<TypeId, TypeId>;

/// What a substitution map holds.
pub uninterp spec fn substitution_entries(m: Substitutions) -> Map<TypeId, TypeId>;

/// The replacement of `k`: `HashMap::get`, copied.
#[verifier::external_body]
fn substitution_get(m: &Substitutions, k: TypeId) -> (r: Option<TypeId>)
    ensures
        r == crate::semantic::scope::scope::lookup_opt(substitution_entries(*m), k),
{
    m.get(&k).copied()
}

/// An empty substitution map: `FxHashMap::default`.
#[verifier::external_body]
pub(crate) fn substitutions_new() -> (r: Substitutions)
    ensures
        substitution_entries(r).dom() == Set::<TypeId>::empty(),
{
    fxhash::FxHashMap::default()
}

/// Sets the replacement of `k` to `v`: `HashMap::insert`.
#[verifier::external_body]
pub(crate) fn substitutions_insert(m: &mut Substitutions, k: TypeId, v: TypeId)
    ensures
        substitution_entries(*final(m)) == substitution_entries(*old(m)).insert(k, v),
{
    m.insert(k, v);
}

/// `b` has the form of `a`: the same kind of type with as many parts; the same
/// primitive, type parameter or referenced name; the same property names and an
/// index signature where `a` has one; the same type parameter names.
pub open spec fn same_shape(a: TypeView, b: TypeView) -> bool {
    match (a, b) {
        (TypeView::Primitive(x), TypeView::Primitive(y)) => x == y,
        (TypeView::Array(_), TypeView::Array(_)) => true,
        (TypeView::Tuple(x), TypeView::Tuple(y)) => x.len() == y.len(),
        (TypeView::Object(xm, xi), TypeView::Object(ym, yi)) => xm.dom() == ym.dom() && (xi is Some <==> yi is Some),
        (TypeView::Function(xp, _, xt), TypeView::Function(yp, _, yt)) => {
            &&& xp.len() == yp.len()
            &&& xt.len() == yt.len()
            &&& forall|i: int| 0 <= i < xt.len() ==> (#[trigger] xt[i]).name == yt[i].name
        },
        (TypeView::Union(x), TypeView::Union(y)) => x.len() == y.len(),
        (TypeView::Intersection(x), TypeView::Intersection(y)) => x.len() == y.len(),
        (TypeView::TypeParameter(x), TypeView::TypeParameter(y)) => x == y,
        (TypeView::Generic(_, x), TypeView::Generic(_, y)) => x.len() == y.len(),
        (TypeView::Reference(n, x), TypeView::Reference(m, y)) => n == m && x.len() == y.len(),
        _ => false,
    }
}

/// Whether the type `v` has no object type and no generic instantiation anywhere in
/// it (the constraints and defaults of a function type's type parameters included):
/// the types for which `subst_cost` bounds what substitution stores.
pub open spec fn subst_bounded(v: TypeView) -> bool
    decreases v,
{
    match v {
        TypeView::Primitive(_) => true,
        TypeView::TypeParameter(_) => true,
        TypeView::Array(x) => subst_bounded(*x),
        TypeView::Tuple(xs) => forall|i: int| 0 <= i < xs.len() ==> subst_bounded(#[trigger] xs[i]),
        TypeView::Union(xs) => forall|i: int| 0 <= i < xs.len() ==> subst_bounded(#[trigger] xs[i]),
        TypeView::Intersection(xs) => forall|i: int| 0 <= i < xs.len() ==> subst_bounded(#[trigger] xs[i]),
        TypeView::Reference(_, xs) => forall|i: int| 0 <= i < xs.len() ==> subst_bounded(#[trigger] xs[i]),
        TypeView::Function(ps, r, tps) => {
            &&& forall|i: int| 0 <= i < ps.len() ==> subst_bounded(#[trigger] ps[i])
            &&& subst_bounded(*r)
            &&& forall|i: int|
                0 <= i < tps.len() ==> {
                    &&& match (#[trigger] tps[i]).constraint {
                        None => true,
                        Some(x) => subst_bounded(*x),
                    }
                    &&& match tps[i].default {
                        None => true,
                        Some(x) => subst_bounded(*x),
                    }
                }
        },
        _ => false,
    }
}

/// How many types substituting within a type `v` (see `subst_bounded`) stores at
/// most: the result, and for each part that is a type of its own, that part and
/// what substituting within it stores.
pub open spec fn subst_cost(v: TypeView) -> nat
    decreases v,
{
    match v {
        TypeView::Array(x) => 2 + subst_cost(*x),
        TypeView::Tuple(xs) => 1 + subst_costs(xs),
        TypeView::Union(xs) => 1 + subst_costs(xs),
        TypeView::Intersection(xs) => 1 + subst_costs(xs),
        TypeView::Reference(_, xs) => 1 + subst_costs(xs),
        TypeView::Function(ps, r, tps) => 2 + subst_costs(ps) + subst_cost(*r) + param_costs(tps),
        _ => 1,
    }
}

/// `subst_cost` of each of `xs`, one more for each.
pub open spec fn subst_costs(xs: Seq<TypeView>) -> nat
    decreases xs,
{
    if xs.len() == 0 {
        0
    } else {
        subst_costs(xs.drop_last()) + 1 + subst_cost(xs.last())
    }
}

/// `subst_cost` of an optional part, one more where there is one.
pub open spec fn opt_cost(o: Option<Box<TypeView>>) -> nat
    decreases o,
{
    match o {
        None => 0,
        Some(x) => 1 + subst_cost(*x),
    }
}

/// `opt_cost` of the constraints and defaults of type parameters.
pub open spec fn param_costs(tps: Seq<crate::semantic::types::representation::ParamView>) -> nat
    decreases tps,
{
    if tps.len() == 0 {
        0
    } else {
        param_costs(tps.drop_last()) + opt_cost(tps.last().constraint) + opt_cost(tps.last().default)
    }
}

/// Every key of a substitution map names a stored type.
pub open spec fn keys_stored(subs: Map<TypeId, TypeId>, types: Seq<Type>) -> bool {
    forall|k: TypeId| #[trigger] subs.contains_key(k) ==> valid_id(types, k)
}

/// A type of view `v` is stored in `types` under an id that `subs` replaces.
pub open spec fn is_replaced(types: Seq<Type>, subs: Map<TypeId, TypeId>, v: TypeView) -> bool {
    exists|k: TypeId| #[trigger] subs.contains_key(k) && valid_id(types, k) && type_at(types, k)@ == v
}

/// `b` is what substituting `subs` within a type of view `a` gives, with the stored
/// types `types` before and `after` once it is done, walking at most `fuel` levels
/// deep: a type stored under an id that `subs` replaces becomes the stored type of
/// its replacement; otherwise, with fuel left, each component is substituted in
/// turn (the names of properties, references and type parameters are kept; a type
/// parameter is kept as it is, as is a primitive), and with no fuel left the type
/// is kept. Of a generic instantiation, the arguments are substituted, a replaced
/// base is replaced, and the base of a stored type is the id, stored `after`, of
/// the substitution within it one level deeper (with no fuel left, the base itself).
pub open spec fn subst_rel(
    types: Seq<Type>,
    after: Seq<Type>,
    subs: Map<TypeId, TypeId>,
    a: TypeView,
    b: TypeView,
    fuel: nat,
) -> bool
    decreases fuel,
{
    if is_replaced(types, subs, a) {
        exists|k: TypeId|
            #[trigger] subs.contains_key(k) && valid_id(types, k) && type_at(types, k)@ == a && b == type_at(types, subs[k])@
    } else if fuel == 0 {
        b == a
    } else {
        let f = (fuel - 1) as nat;
        match (a, b) {
            (TypeView::Primitive(_), _) => b == a,
            (TypeView::TypeParameter(_), _) => b == a,
            (TypeView::Array(x), TypeView::Array(y)) => subst_rel(types, after, subs, *x, *y, f),
            (TypeView::Tuple(xs), TypeView::Tuple(ys)) => xs.len() == ys.len() && forall|i: int|
                0 <= i < xs.len() ==> subst_rel(types, after, subs, #[trigger] xs[i], ys[i], f),
            (TypeView::Union(xs), TypeView::Union(ys)) => xs.len() == ys.len() && forall|i: int|
                0 <= i < xs.len() ==> subst_rel(types, after, subs, #[trigger] xs[i], ys[i], f),
            (TypeView::Intersection(xs), TypeView::Intersection(ys)) => xs.len() == ys.len() && forall|i: int|
                0 <= i < xs.len() ==> subst_rel(types, after, subs, #[trigger] xs[i], ys[i], f),
            (TypeView::Reference(n, xs), TypeView::Reference(m, ys)) => n == m && xs.len() == ys.len() && forall|i: int|
                0 <= i < xs.len() ==> subst_rel(types, after, subs, #[trigger] xs[i], ys[i], f),
            (TypeView::Object(xm, xi), TypeView::Object(ym, yi)) => {
                &&& xm.dom() == ym.dom()
                &&& forall|k: Seq<char>| #[trigger] xm.dom().contains(k) ==> subst_rel(types, after, subs, xm[k], ym[k], f)
                &&& match (xi, yi) {
                    (None, None) => true,
                    (Some(x), Some(y)) => subst_rel(types, after, subs, *x, *y, f),
                    _ => false,
                }
            },
            (TypeView::Function(xp, xr, xt), TypeView::Function(yp, yr, yt)) => {
                &&& xp.len() == yp.len()
                &&& forall|i: int| 0 <= i < xp.len() ==> subst_rel(types, after, subs, #[trigger] xp[i], yp[i], f)
                &&& subst_rel(types, after, subs, *xr, *yr, f)
                &&& xt.len() == yt.len()
                &&& forall|i: int|
                    0 <= i < xt.len() ==> {
                        &&& (#[trigger] xt[i]).name == yt[i].name
                        &&& match (xt[i].constraint, yt[i].constraint) {
                            (None, None) => true,
                            (Some(x), Some(y)) => subst_rel(types, after, subs, *x, *y, f),
                            _ => false,
                        }
                        &&& match (xt[i].default, yt[i].default) {
                            (None, None) => true,
                            (Some(x), Some(y)) => subst_rel(types, after, subs, *x, *y, f),
                            _ => false,
                        }
                    }
            },
            (TypeView::Generic(xb, xs), TypeView::Generic(yb, ys)) => {
                &&& xs.len() == ys.len()
                &&& forall|i: int| 0 <= i < xs.len() ==> subst_rel(types, after, subs, #[trigger] xs[i], ys[i], f)
                &&& subs.contains_key(xb) ==> yb == subs[xb]
                &&& !subs.contains_key(xb) && f == 0 ==> yb == xb
                &&& !subs.contains_key(xb) && valid_id(types, xb) ==> valid_id(after, yb) && subst_rel(
                    types,
                    after,
                    subs,
                    type_at(types, xb)@,
                    type_at(after, yb)@,
                    f,
                )
            },
            _ => false,
        }
    }
}

/// What `subst_rel` says over stored types `t1` that extend `t0`, without changing
/// which ids are keys, it says over `t0`.
proof fn lemma_subst_rel_mono(
    t0: Seq<Type>,
    t1: Seq<Type>,
    after: Seq<Type>,
    subs: Map<TypeId, TypeId>,
    a: TypeView,
    b: TypeView,
    fuel: nat,
)
    requires
        interned(t1),
        extends(t1, t0),
        keys_stored(subs, t0),
        replacements_stored(subs, t0),
        subst_rel(t1, after, subs, a, b, fuel),
    ensures
        subst_rel(t0, after, subs, a, b, fuel),
    decreases fuel,
{
    assert(is_replaced(t1, subs, a) == is_replaced(t0, subs, a)) by {
        if is_replaced(t1, subs, a) {
            let k = choose|k: TypeId| #[trigger] subs.contains_key(k) && valid_id(t1, k) && type_at(t1, k)@ == a;
            assert(valid_id(t0, k));
            assert(t1[k.spec_id() as int] == t0[k.spec_id() as int]);
        }
        if is_replaced(t0, subs, a) {
            let k = choose|k: TypeId| #[trigger] subs.contains_key(k) && valid_id(t0, k) && type_at(t0, k)@ == a;
            assert(t1[k.spec_id() as int] == t0[k.spec_id() as int]);
        }
    }
    if is_replaced(t0, subs, a) {
        let k = choose|k: TypeId|
            #[trigger] subs.contains_key(k) && valid_id(t1, k) && type_at(t1, k)@ == a && b == type_at(t1, subs[k])@;
        assert(t1[k.spec_id() as int] == t0[k.spec_id() as int]);
        assert(t1[subs[k].spec_id() as int] == t0[subs[k].spec_id() as int]);
        assert(subs.contains_key(k) && valid_id(t0, k) && type_at(t0, k)@ == a && b == type_at(t0, subs[k])@);
    } else if fuel > 0 {
        let f = (fuel - 1) as nat;
        match (a, b) {
            (TypeView::Array(x), TypeView::Array(y)) => {
                lemma_subst_rel_mono(t0, t1, after, subs, *x, *y, f);
            },
            (TypeView::Tuple(xs), TypeView::Tuple(ys)) => {
                assert forall|i: int| 0 <= i < xs.len() implies subst_rel(t0, after, subs, #[trigger] xs[i], ys[i], f) by {
                    lemma_subst_rel_mono(t0, t1, after, subs, xs[i], ys[i], f);
                }
            },
            (TypeView::Union(xs), TypeView::Union(ys)) => {
                assert forall|i: int| 0 <= i < xs.len() implies subst_rel(t0, after, subs, #[trigger] xs[i], ys[i], f) by {
                    lemma_subst_rel_mono(t0, t1, after, subs, xs[i], ys[i], f);
                }
            },
            (TypeView::Intersection(xs), TypeView::Intersection(ys)) => {
                assert forall|i: int| 0 <= i < xs.len() implies subst_rel(t0, after, subs, #[trigger] xs[i], ys[i], f) by {
                    lemma_subst_rel_mono(t0, t1, after, subs, xs[i], ys[i], f);
                }
            },
            (TypeView::Reference(_, xs), TypeView::Reference(_, ys)) => {
                assert forall|i: int| 0 <= i < xs.len() implies subst_rel(t0, after, subs, #[trigger] xs[i], ys[i], f) by {
                    lemma_subst_rel_mono(t0, t1, after, subs, xs[i], ys[i], f);
                }
            },
            (TypeView::Generic(xb, xs), TypeView::Generic(yb, ys)) => {
                assert forall|i: int| 0 <= i < xs.len() implies subst_rel(t0, after, subs, #[trigger] xs[i], ys[i], f) by {
                    lemma_subst_rel_mono(t0, t1, after, subs, xs[i], ys[i], f);
                }
                if !subs.contains_key(xb) && valid_id(t0, xb) {
                    assert(t1[xb.spec_id() as int] == t0[xb.spec_id() as int]);
                    lemma_subst_rel_mono(t0, t1, after, subs, type_at(t0, xb)@, type_at(after, yb)@, f);
                }
            },
            (TypeView::Object(xm, xi), TypeView::Object(ym, yi)) => {
                assert forall|k: Seq<char>| #[trigger] xm.dom().contains(k) implies subst_rel(t0, after, subs, xm[k], ym[k], f) by {
                    lemma_subst_rel_mono(t0, t1, after, subs, xm[k], ym[k], f);
                }
                if let (Some(x), Some(y)) = (xi, yi) {
                    lemma_subst_rel_mono(t0, t1, after, subs, *x, *y, f);
                }
            },
            (TypeView::Function(xp, xr, xt), TypeView::Function(yp, yr, yt)) => {
                assert forall|i: int| 0 <= i < xp.len() implies subst_rel(t0, after, subs, #[trigger] xp[i], yp[i], f) by {
                    lemma_subst_rel_mono(t0, t1, after, subs, xp[i], yp[i], f);
                }
                lemma_subst_rel_mono(t0, t1, after, subs, *xr, *yr, f);
                assert forall|i: int| 0 <= i < xt.len() implies {
                    &&& (match ((#[trigger] xt[i]).constraint, yt[i].constraint) {
                        (Some(x), Some(y)) => subst_rel(t0, after, subs, *x, *y, f),
                        _ => true,
                    })
                    &&& (match (xt[i].default, yt[i].default) {
                        (Some(x), Some(y)) => subst_rel(t0, after, subs, *x, *y, f),
                        _ => true,
                    })
                } by {
                    if let (Some(x), Some(y)) = (xt[i].constraint, yt[i].constraint) {
                        lemma_subst_rel_mono(t0, t1, after, subs, *x, *y, f);
                    }
                    if let (Some(x), Some(y)) = (xt[i].default, yt[i].default) {
                        lemma_subst_rel_mono(t0, t1, after, subs, *x, *y, f);
                    }
                }
            },
            _ => {},
        }
    }
}

/// What `subst_rel` says with the stored types `a1` once it is done, it says with
/// any stored types `a2` that extend `a1`.
proof fn lemma_subst_rel_after(
    types: Seq<Type>,
    a1: Seq<Type>,
    a2: Seq<Type>,
    subs: Map<TypeId, TypeId>,
    a: TypeView,
    b: TypeView,
    fuel: nat,
)
    requires
        extends(a2, a1),
        subst_rel(types, a1, subs, a, b, fuel),
    ensures
        subst_rel(types, a2, subs, a, b, fuel),
    decreases fuel,
{
    if !is_replaced(types, subs, a) && fuel > 0 {
        let f = (fuel - 1) as nat;
        match (a, b) {
            (TypeView::Array(x), TypeView::Array(y)) => {
                lemma_subst_rel_after(types, a1, a2, subs, *x, *y, f);
            },
            (TypeView::Tuple(xs), TypeView::Tuple(ys)) => {
                assert forall|i: int| 0 <= i < xs.len() implies subst_rel(types, a2, subs, #[trigger] xs[i], ys[i], f) by {
                    lemma_subst_rel_after(types, a1, a2, subs, xs[i], ys[i], f);
                }
            },
            (TypeView::Union(xs), TypeView::Union(ys)) => {
                assert forall|i: int| 0 <= i < xs.len() implies subst_rel(types, a2, subs, #[trigger] xs[i], ys[i], f) by {
                    lemma_subst_rel_after(types, a1, a2, subs, xs[i], ys[i], f);
                }
            },
            (TypeView::Intersection(xs), TypeView::Intersection(ys)) => {
                assert forall|i: int| 0 <= i < xs.len() implies subst_rel(types, a2, subs, #[trigger] xs[i], ys[i], f) by {
                    lemma_subst_rel_after(types, a1, a2, subs, xs[i], ys[i], f);
                }
            },
            (TypeView::Reference(_, xs), TypeView::Reference(_, ys)) => {
                assert forall|i: int| 0 <= i < xs.len() implies subst_rel(types, a2, subs, #[trigger] xs[i], ys[i], f) by {
                    lemma_subst_rel_after(types, a1, a2, subs, xs[i], ys[i], f);
                }
            },
            (TypeView::Generic(xb, xs), TypeView::Generic(yb, ys)) => {
                assert forall|i: int| 0 <= i < xs.len() implies subst_rel(types, a2, subs, #[trigger] xs[i], ys[i], f) by {
                    lemma_subst_rel_after(types, a1, a2, subs, xs[i], ys[i], f);
                }
                if !subs.contains_key(xb) && valid_id(types, xb) {
                    assert(a2[yb.spec_id() as int] == a1[yb.spec_id() as int]);
                    lemma_subst_rel_after(types, a1, a2, subs, type_at(types, xb)@, type_at(a1, yb)@, f);
                }
            },
            (TypeView::Object(xm, xi), TypeView::Object(ym, yi)) => {
                assert forall|k: Seq<char>| #[trigger] xm.dom().contains(k) implies subst_rel(types, a2, subs, xm[k], ym[k], f) by {
                    lemma_subst_rel_after(types, a1, a2, subs, xm[k], ym[k], f);
                }
                if let (Some(x), Some(y)) = (xi, yi) {
                    lemma_subst_rel_after(types, a1, a2, subs, *x, *y, f);
                }
            },
            (TypeView::Function(xp, xr, xt), TypeView::Function(yp, yr, yt)) => {
                assert forall|i: int| 0 <= i < xp.len() implies subst_rel(types, a2, subs, #[trigger] xp[i], yp[i], f) by {
                    lemma_subst_rel_after(types, a1, a2, subs, xp[i], yp[i], f);
                }
                lemma_subst_rel_after(types, a1, a2, subs, *xr, *yr, f);
                assert forall|i: int| 0 <= i < xt.len() implies {
                    &&& (match ((#[trigger] xt[i]).constraint, yt[i].constraint) {
                        (Some(x), Some(y)) => subst_rel(types, a2, subs, *x, *y, f),
                        _ => true,
                    })
                    &&& (match (xt[i].default, yt[i].default) {
                        (Some(x), Some(y)) => subst_rel(types, a2, subs, *x, *y, f),
                        _ => true,
                    })
                } by {
                    if let (Some(x), Some(y)) = (xt[i].constraint, yt[i].constraint) {
                        lemma_subst_rel_after(types, a1, a2, subs, *x, *y, f);
                    }
                    if let (Some(x), Some(y)) = (xt[i].default, yt[i].default) {
                        lemma_subst_rel_after(types, a1, a2, subs, *x, *y, f);
                    }
                }
            },
            _ => {},
        }
    }
}

/// `b` is what substituting within the optional type `a` gives (see `subst_rel`).
pub open spec fn subst_opt_rel(
    types: Seq<Type>,
    after: Seq<Type>,
    subs: Map<TypeId, TypeId>,
    a: Option<Box<TypeView>>,
    b: Option<Box<TypeView>>,
    fuel: nat,
) -> bool {
    match (a, b) {
        (None, None) => true,
        (Some(x), Some(y)) => subst_rel(types, after, subs, *x, *y, fuel),
        _ => false,
    }
}

/// Component-wise substitution of two lists of types, read over their views.
proof fn lemma_list_rel(
    types: Seq<Type>,
    after: Seq<Type>,
    subs: Map<TypeId, TypeId>,
    xs: Seq<Type>,
    ys: Seq<Type>,
    f: nat,
)
    requires
        xs.len() == ys.len(),
        forall|i: int| 0 <= i < xs.len() ==> subst_rel(types, after, subs, (#[trigger] xs[i])@, ys[i]@, f),
    ensures
        types_view(xs).len() == types_view(ys).len(),
        forall|i: int|
            0 <= i < types_view(xs).len() ==> subst_rel(
                types,
                after,
                subs,
                #[trigger] types_view(xs)[i],
                types_view(ys)[i],
                f,
            ),
{
    lemma_types_view(xs);
    lemma_types_view(ys);
    assert forall|i: int| 0 <= i < types_view(xs).len() implies subst_rel(
        types,
        after,
        subs,
        #[trigger] types_view(xs)[i],
        types_view(ys)[i],
        f,
    ) by {
        assert(subst_rel(types, after, subs, xs[i]@, ys[i]@, f));
    }
}

/// What `subst_rel` says of the first `n` elements of two lists over stored types
/// `t1` that extend `t0`, it says over `t0`.
proof fn lemma_list_rel_mono(
    t0: Seq<Type>,
    t1: Seq<Type>,
    after: Seq<Type>,
    subs: Map<TypeId, TypeId>,
    xs: Seq<Type>,
    ys: Seq<Type>,
    f: nat,
)
    requires
        interned(t1),
        extends(t1, t0),
        keys_stored(subs, t0),
        replacements_stored(subs, t0),
        xs.len() == ys.len(),
        forall|i: int| 0 <= i < xs.len() ==> subst_rel(t1, after, subs, (#[trigger] xs[i])@, ys[i]@, f),
    ensures
        forall|i: int| 0 <= i < xs.len() ==> subst_rel(t0, after, subs, (#[trigger] xs[i])@, ys[i]@, f),
{
    assert forall|i: int| 0 <= i < xs.len() implies subst_rel(t0, after, subs, (#[trigger] xs[i])@, ys[i]@, f) by {
        lemma_subst_rel_mono(t0, t1, after, subs, xs[i]@, ys[i]@, f);
    }
}

/// What `subst_rel` says of the first `n` elements of two lists with the stored
/// types `a1` once done, it says with stored types `a2` that extend `a1`.
proof fn lemma_list_rel_after(
    types: Seq<Type>,
    a1: Seq<Type>,
    a2: Seq<Type>,
    subs: Map<TypeId, TypeId>,
    xs: Seq<Type>,
    ys: Seq<Type>,
    n: int,
    f: nat,
)
    requires
        extends(a2, a1),
        n <= xs.len(),
        n <= ys.len(),
        forall|i: int| 0 <= i < n ==> subst_rel(types, a1, subs, (#[trigger] xs[i])@, ys[i]@, f),
    ensures
        forall|i: int| 0 <= i < n ==> subst_rel(types, a2, subs, (#[trigger] xs[i])@, ys[i]@, f),
{
    assert forall|i: int| 0 <= i < n implies subst_rel(types, a2, subs, (#[trigger] xs[i])@, ys[i]@, f) by {
        lemma_subst_rel_after(types, a1, a2, subs, xs[i]@, ys[i]@, f);
    }
}

/// What `subst_opt_rel` says over stored types `t1` that extend `t0` it says over
/// `t0`.
proof fn lemma_opt_rel_mono(
    t0: Seq<Type>,
    t1: Seq<Type>,
    after: Seq<Type>,
    subs: Map<TypeId, TypeId>,
    a: Option<Box<TypeView>>,
    b: Option<Box<TypeView>>,
    f: nat,
)
    requires
        interned(t1),
        extends(t1, t0),
        keys_stored(subs, t0),
        replacements_stored(subs, t0),
        subst_opt_rel(t1, after, subs, a, b, f),
    ensures
        subst_opt_rel(t0, after, subs, a, b, f),
{
    if let (Some(x), Some(y)) = (a, b) {
        lemma_subst_rel_mono(t0, t1, after, subs, *x, *y, f);
    }
}

/// What `subst_opt_rel` says with the stored types `a1` once done it says with
/// stored types `a2` that extend `a1`.
proof fn lemma_opt_rel_after(
    types: Seq<Type>,
    a1: Seq<Type>,
    a2: Seq<Type>,
    subs: Map<TypeId, TypeId>,
    a: Option<Box<TypeView>>,
    b: Option<Box<TypeView>>,
    f: nat,
)
    requires
        extends(a2, a1),
        subst_opt_rel(types, a1, subs, a, b, f),
    ensures
        subst_opt_rel(types, a2, subs, a, b, f),
{
    if let (Some(x), Some(y)) = (a, b) {
        lemma_subst_rel_after(types, a1, a2, subs, *x, *y, f);
    }
}

/// A stored type whose id is no key is replaced under no other id.
proof fn lemma_not_replaced(types: Seq<Type>, subs: Map<TypeId, TypeId>, ty: TypeId)
    requires
        interned(types),
        valid_id(types, ty),
        !subs.contains_key(ty),
    ensures
        !is_replaced(types, subs, type_at(types, ty)@),
{
    if is_replaced(types, subs, type_at(types, ty)@) {
        let k = choose|k: TypeId| #[trigger] subs.contains_key(k) && valid_id(types, k) && type_at(types, k)@ == type_at(types, ty)@;
        crate::semantic::types::interner::lemma_equal_types_same_id(types, k, ty);
    }
}

/// Keys that name stored types still do so once more types are stored.
proof fn lemma_keys_stored_extends(subs: Map<TypeId, TypeId>, t0: Seq<Type>, t1: Seq<Type>)
    requires
        keys_stored(subs, t0),
        replacements_stored(subs, t0),
        extends(t1, t0),
    ensures
        keys_stored(subs, t1),
        replacements_stored(subs, t1),
{
}

/// Every type has its own form.
proof fn lemma_same_shape_refl(v: TypeView)
    ensures
        same_shape(v, v),
{
    match v {
        TypeView::Object(m, _) => {
            assert(m.dom() =~= m.dom());
        },
        _ => {},
    }
}

/// Every replacement names a stored type.
pub open spec fn replacements_stored(subs: Map<TypeId, TypeId>, types: Seq<Type>) -> bool {
    forall|k: TypeId| #[trigger] subs.contains_key(k) ==> valid_id(types, subs[k])
}

proof fn lemma_extends_valid(t0: Seq<Type>, t1: Seq<Type>, t2: Seq<Type>)
    requires
        extends(t1, t0),
        extends(t2, t1),
    ensures
        extends(t2, t0),
{
    assert(t2.take(t0.len() as int) =~= t1.take(t0.len() as int));
}

/// The substitution of a component type: it is stored, substituted by id, and the
/// result's type taken; left as it is where no further type can be stored.
fn subst_child(t: &Type, subs: &Substitutions, interner: &mut TypeInterner, fuel: u64) -> (r: Type)
    requires
        replacements_stored(substitution_entries(*subs), old(interner).spec_types()),
        fuel > 0,
    ensures
        extends(final(interner).spec_types(), old(interner).spec_types()),
        keys_stored(substitution_entries(*subs), old(interner).spec_types()) && final(interner).spec_types().len()
            < u32::MAX ==> subst_rel(
            old(interner).spec_types(),
            final(interner).spec_types(),
            substitution_entries(*subs),
            t@,
            r@,
            (fuel - 1) as nat,
        ),
        subst_bounded(t@) ==> final(interner).spec_types().len() <= old(interner).spec_types().len() + 1 + subst_cost(t@),
    decreases fuel, 0nat,
{
    if interner.is_full() {
        proof {
            assert(interner.spec_types().take(interner.spec_types().len() as int) =~= interner.spec_types());
        }
        return copy_type(t);
    }
    let ghost t0 = interner.spec_types();
    let ghost sm = substitution_entries(*subs);
    let id = interner.intern(copy_type(t));
    interner.lemma_interned();
    proof {
        assert(t0.take(t0.len() as int) =~= t0);
        assert(t0.push(interner.spec_types().last()).take(t0.len() as int) =~= t0);
    }
    let ghost t1 = interner.spec_types();
    let s = subst_rec(id, subs, interner, fuel - 1);
    let ghost t2 = interner.spec_types();
    let r = copy_type(interner.get(s).unwrap());
    proof {
        lemma_extends_valid(t0, t1, t2);
        if keys_stored(sm, t0) && t2.len() < u32::MAX {
            lemma_keys_stored_extends(sm, t0, t1);
            lemma_subst_rel_mono(t0, t1, t2, sm, t@, r@, (fuel - 1) as nat);
        }
    }
    r
}

/// The substitutions of a list of component types.
fn subst_children(v: &Vec<Type>, subs: &Substitutions, interner: &mut TypeInterner, fuel: u64) -> (r: Vec<Type>)
    requires
        replacements_stored(substitution_entries(*subs), old(interner).spec_types()),
        fuel > 0,
    ensures
        extends(final(interner).spec_types(), old(interner).spec_types()),
        r@.len() == v@.len(),
        keys_stored(substitution_entries(*subs), old(interner).spec_types()) && final(interner).spec_types().len()
            < u32::MAX ==> forall|i: int|
            0 <= i < v@.len() ==> subst_rel(
                old(interner).spec_types(),
                final(interner).spec_types(),
                substitution_entries(*subs),
                (#[trigger] v@[i])@,
                r@[i]@,
                (fuel - 1) as nat,
            ),
        (forall|i: int| 0 <= i < v@.len() ==> subst_bounded((#[trigger] v@[i])@)) ==> final(interner).spec_types().len()
            <= old(interner).spec_types().len() + subst_costs(types_view(v@)),
    decreases fuel, 1nat,
{
    let ghost t0 = interner.spec_types();
    let ghost sm = substitution_entries(*subs);
    proof {
        assert(t0.take(t0.len() as int) =~= t0);
        assert(v@.take(0) =~= Seq::<Type>::empty());
    }
    let mut out: Vec<Type> = Vec::new();
    let mut i: usize = 0;
    while i < v.len()
        invariant
            i <= v@.len(),
            out@.len() == i,
            fuel > 0,
            sm == substitution_entries(*subs),
            extends(interner.spec_types(), t0),
            replacements_stored(sm, t0),
            keys_stored(sm, t0) && interner.spec_types().len() < u32::MAX ==> forall|j: int|
                0 <= j < i ==> subst_rel(t0, interner.spec_types(), sm, (#[trigger] v@[j])@, out@[j]@, (fuel - 1) as nat),
            (forall|j: int| 0 <= j < v@.len() ==> subst_bounded((#[trigger] v@[j])@)) ==> interner.spec_types().len()
                <= t0.len() + subst_costs(types_view(v@.take(i as int))),
        decreases v@.len() - i,
    {
        interner.lemma_interned();
        let ghost t1 = interner.spec_types();
        let c = subst_child(&v[i], subs, interner, fuel);
        let ghost t2 = interner.spec_types();
        proof {
            assert(v@.take(i as int + 1).drop_last() =~= v@.take(i as int));
            assert(v@.take(i as int + 1).last() == v@[i as int]);
            let tv = types_view(v@.take(i as int));
            assert(types_view(v@.take(i as int + 1)) == tv.push(type_view(v@[i as int])));
            assert(tv.push(type_view(v@[i as int])).drop_last() =~= tv);
            lemma_extends_valid(t0, t1, t2);
            if keys_stored(sm, t0) && t2.len() < u32::MAX {
                lemma_keys_stored_extends(sm, t0, t1);
                lemma_subst_rel_mono(t0, t1, t2, sm, v@[i as int]@, c@, (fuel - 1) as nat);
                lemma_list_rel_after(t0, t1, t2, sm, v@, out@, i as int, (fuel - 1) as nat);
            }
        }
        out.push(c);
        proof {
            if keys_stored(sm, t0) && t2.len() < u32::MAX {
                assert forall|j: int| 0 <= j < i + 1 implies subst_rel(t0, t2, sm, (#[trigger] v@[j])@, out@[j]@, (fuel - 1) as nat) by {
                    if j < i {
                        assert(out@[j] == out@.drop_last()[j]);
                    }
                }
            }
        }
        i = i + 1;
    }
    proof {
        assert(v@.take(v@.len() as int) =~= v@);
    }
    out
}

/// The substitution of an optional component type.
fn subst_opt(o: &Option<Box<Type>>, subs: &Substitutions, interner: &mut TypeInterner, fuel: u64) -> (r: Option<Box<Type>>)
    requires
        replacements_stored(substitution_entries(*subs), old(interner).spec_types()),
        fuel > 0,
    ensures
        extends(final(interner).spec_types(), old(interner).spec_types()),
        r is Some <==> o is Some,
        keys_stored(substitution_entries(*subs), old(interner).spec_types()) && final(interner).spec_types().len()
            < u32::MAX ==> subst_opt_rel(
            old(interner).spec_types(),
            final(interner).spec_types(),
            substitution_entries(*subs),
            opt_view(*o),
            opt_view(r),
            (fuel - 1) as nat,
        ),
        (match *o {
            Some(b) => subst_bounded(type_view(*b)),
            None => true,
        }) ==> final(interner).spec_types().len() <= old(interner).spec_types().len() + opt_cost(opt_view(*o)),
    decreases fuel, 1nat,
{
    match o {
        Some(b) => Some(Box::new(subst_child(b, subs, interner, fuel))),
        None => {
            proof {
                assert(interner.spec_types().take(interner.spec_types().len() as int) =~= interner.spec_types());
            }
            None
        },
    }
}

/// Substitutes the type parameters named in `subs` within the stored type `ty`,
/// walking at most `fuel` levels of ids deep.
#[verifier::rlimit(80)]
fn subst_rec(ty: TypeId, subs: &Substitutions, interner: &mut TypeInterner, fuel: u64) -> (r: TypeId)
    requires
        replacements_stored(substitution_entries(*subs), old(interner).spec_types()),
    ensures
        extends(final(interner).spec_types(), old(interner).spec_types()),
        substitution_entries(*subs).contains_key(ty) ==> r == substitution_entries(*subs)[ty],
        !substitution_entries(*subs).contains_key(ty) && !valid_id(old(interner).spec_types(), ty) ==> r == ty,
        valid_id(old(interner).spec_types(), ty) ==> valid_id(final(interner).spec_types(), r),
        !substitution_entries(*subs).contains_key(ty) && valid_id(old(interner).spec_types(), ty) && (type_at(
            old(interner).spec_types(),
            ty,
        ) is Primitive || type_at(old(interner).spec_types(), ty) is TypeParameter) ==> r == ty,
        !substitution_entries(*subs).contains_key(ty) && valid_id(old(interner).spec_types(), ty) ==> same_shape(
            type_at(old(interner).spec_types(), ty)@,
            type_at(final(interner).spec_types(), r)@,
        ),
        fuel == 0 && !substitution_entries(*subs).contains_key(ty) ==> r == ty,
        keys_stored(substitution_entries(*subs), old(interner).spec_types()) && final(interner).spec_types().len()
            < u32::MAX && valid_id(old(interner).spec_types(), ty) ==> subst_rel(
            old(interner).spec_types(),
            final(interner).spec_types(),
            substitution_entries(*subs),
            type_at(old(interner).spec_types(), ty)@,
            type_at(final(interner).spec_types(), r)@,
            fuel as nat,
        ),
        valid_id(old(interner).spec_types(), ty) && subst_bounded(type_at(old(interner).spec_types(), ty)@)
            ==> final(interner).spec_types().len() <= old(interner).spec_types().len() + subst_cost(
            type_at(old(interner).spec_types(), ty)@,
        ),
    decreases fuel, 2nat,
{
    let ghost t0 = interner.spec_types();
    let ghost sm = substitution_entries(*subs);
    proof {
        assert(t0.take(t0.len() as int) =~= t0);
    }
    interner.lemma_interned();
    if let Some(replacement) = substitution_get(subs, ty) {
        proof {
            if valid_id(t0, ty) {
                assert(is_replaced(t0, sm, type_at(t0, ty)@));
            }
        }
        return replacement;
    }
    proof {
        if valid_id(t0, ty) {
            lemma_not_replaced(t0, sm, ty);
        }
    }
    if fuel == 0 {
        proof {
            if valid_id(t0, ty) {
                lemma_same_shape_refl(type_at(t0, ty)@);
            }
        }
        return ty;
    }
    let type_val = match interner.get(ty) {
        Some(t) => copy_type(t),
        None => return ty,
    };
    let ghost leaf = type_val is Primitive || type_val is TypeParameter;
    let ghost before = type_val@;
    let ghost f = (fuel - 1) as nat;
    let substituted = match type_val {
        Type::Primitive(p) => {
            let x = Type::Primitive(p);
            proof {
                assert(subst_rel(t0, interner.spec_types(), sm, before, x@, fuel as nat));
            }
            proof {
                assert(subst_bounded(before) ==> interner.spec_types().len() + 1 <= t0.len() + subst_cost(before));
            }
            x
        },
        Type::Array(elem) => {
            let c = subst_child(&elem, subs, interner, fuel);
            let x = Type::Array(Box::new(c));
            proof {
                assert(same_shape(before, x@));
                if keys_stored(sm, t0) && interner.spec_types().len() < u32::MAX {
                    assert(subst_rel(t0, interner.spec_types(), sm, elem@, c@, f));
                    assert(subst_rel(t0, interner.spec_types(), sm, before, x@, fuel as nat));
                }
            }
            proof {
                assert(subst_bounded(before) ==> interner.spec_types().len() + 1 <= t0.len() + subst_cost(before));
            }
            x
        },
        Type::Tuple(elems) => {
            let v = subst_children(&elems, subs, interner, fuel);
            proof {
                lemma_types_view(elems@);
                lemma_types_view(v@);
            }
            let x = Type::Tuple(v);
            proof {
                assert(same_shape(before, x@));
                if keys_stored(sm, t0) && interner.spec_types().len() < u32::MAX {
                    lemma_list_rel(t0, interner.spec_types(), sm, elems@, x->Tuple_0@, f);
                    assert(subst_rel(t0, interner.spec_types(), sm, before, x@, fuel as nat));
                }
            }
            proof {
                if subst_bounded(before) {
                    assert forall|i: int| 0 <= i < elems@.len() implies subst_bounded((#[trigger] elems@[i])@) by {
                        assert(types_view(elems@)[i] == elems@[i]@);
                    }
                }
                assert(subst_bounded(before) ==> interner.spec_types().len() + 1 <= t0.len() + subst_cost(before));
            }
            x
        },
        Type::Object(obj) => {
            let entries = obj.properties.entries();
            let mut new_properties = PropertyMap::new();
            let mut i: usize = entries.len();
            proof {
                assert(props_view(entries@.subrange(entries@.len() as int, entries@.len() as int)) =~= Map::empty());
                assert(new_properties@ =~= Map::empty());
            }
            while i > 0
                invariant
                    i <= entries@.len(),
                    fuel > 0,
                    f == (fuel - 1) as nat,
                    sm == substitution_entries(*subs),
                    extends(interner.spec_types(), t0),
                    replacements_stored(sm, t0),
                    new_properties@.dom() == props_view(entries@.subrange(i as int, entries@.len() as int)).dom(),
                    keys_stored(sm, t0) && interner.spec_types().len() < u32::MAX ==> forall|k: Seq<char>|
                        #[trigger] new_properties@.dom().contains(k) ==> subst_rel(
                            t0,
                            interner.spec_types(),
                            sm,
                            props_view(entries@.subrange(i as int, entries@.len() as int))[k],
                            new_properties@[k],
                            f,
                        ),
                decreases i,
            {
                i = i - 1;
                interner.lemma_interned();
                let ghost t1 = interner.spec_types();
                let ghost p0 = new_properties@;
                let ghost pv0 = props_view(entries@.subrange(i as int + 1, entries@.len() as int));
                let c = subst_child(&entries[i].1, subs, interner, fuel);
                let ghost t2 = interner.spec_types();
                proof {
                    lemma_extends_valid(t0, t1, t2);
                    if keys_stored(sm, t0) && t2.len() < u32::MAX {
                        lemma_keys_stored_extends(sm, t0, t1);
                        lemma_subst_rel_mono(t0, t1, t2, sm, entries@[i as int].1@, c@, f);
                        assert forall|k: Seq<char>| #[trigger] p0.dom().contains(k) implies subst_rel(t0, t2, sm, pv0[k], p0[k], f) by {
                            lemma_subst_rel_after(t0, t1, t2, sm, pv0[k], p0[k], f);
                        }
                    }
                }
                let name = entries[i].0.clone();
                new_properties.insert(name, c);
                proof {
                    let n = entries@.len() as int;
                    let sq = entries@.subrange(i as int, n);
                    let s1 = entries@.subrange(i as int + 1, n);
                    assert(sq.drop_first() =~= s1);
                    assert(sq[0] == entries@[i as int]);
                    assert(props_view(sq) == props_view(s1).insert(entries@[i as int].0@, type_view(entries@[i as int].1)));
                    assert(new_properties@.dom() =~= props_view(sq).dom());
                }
            }
            proof {
                assert(entries@.subrange(0, entries@.len() as int) =~= entries@);
            }
            interner.lemma_interned();
            let ghost t2 = interner.spec_types();
            let ghost pm = new_properties@;
            let index_signature = subst_opt(&obj.index_signature, subs, interner, fuel);
            let ghost t3 = interner.spec_types();
            proof {
                lemma_extends_valid(t0, t2, t3);
                if keys_stored(sm, t0) && t3.len() < u32::MAX {
                    lemma_keys_stored_extends(sm, t0, t2);
                    lemma_opt_rel_mono(t0, t2, t3, sm, opt_view(obj.index_signature), opt_view(index_signature), f);
                    assert forall|k: Seq<char>| #[trigger] pm.dom().contains(k) implies subst_rel(
                        t0,
                        t3,
                        sm,
                        props_view(entries@)[k],
                        pm[k],
                        f,
                    ) by {
                        lemma_subst_rel_after(t0, t2, t3, sm, props_view(entries@)[k], pm[k], f);
                    }
                }
            }
            let ghost new_map = new_properties@;
            let ghost new_sig = opt_view(index_signature);
            let x = Type::Object(ObjectType { properties: new_properties, index_signature });
            proof {
                assert(before == TypeView::Object(props_view(entries@), opt_view(obj.index_signature)));
                assert(x@ == TypeView::Object(props_view(x->Object_0.properties.spec_entries()), opt_view(x->Object_0.index_signature)));
                assert(x->Object_0.properties@ == new_map);
                assert(props_view(x->Object_0.properties.spec_entries()) == new_map);
                assert(x@ == TypeView::Object(new_map, new_sig));
                assert(new_map.dom() =~= props_view(entries@).dom());
                assert(same_shape(before, x@));
                if keys_stored(sm, t0) && interner.spec_types().len() < u32::MAX {
                    assert(subst_opt_rel(t0, t3, sm, opt_view(obj.index_signature), new_sig, f));
                    assert(subst_rel(t0, t3, sm, before, x@, fuel as nat));
                }
            }
            proof {
                assert(subst_bounded(before) ==> interner.spec_types().len() + 1 <= t0.len() + subst_cost(before));
            }
            x
        },
        Type::Function { params, return_type, type_params } => {
            let new_params = subst_children(&params, subs, interner, fuel);
            interner.lemma_interned();
            let ghost t2 = interner.spec_types();
            let new_return = subst_child(&return_type, subs, interner, fuel);
            let ghost t6 = interner.spec_types();
            proof {
                lemma_extends_valid(t0, t2, t6);
                if keys_stored(sm, t0) && t6.len() < u32::MAX {
                    lemma_keys_stored_extends(sm, t0, t2);
                    lemma_subst_rel_mono(t0, t2, t6, sm, return_type@, new_return@, f);
                    lemma_list_rel_after(t0, t2, t6, sm, params@, new_params@, params@.len() as int, f);
                }
            }
            proof {
                assert(type_params@.take(0) =~= Seq::<TypeParameter>::empty());
            }
            let mut new_type_params: Vec<TypeParameter> = Vec::new();
            let mut i: usize = 0;
            while i < type_params.len()
                invariant
                    i <= type_params@.len(),
                    fuel > 0,
                    f == (fuel - 1) as nat,
                    sm == substitution_entries(*subs),
                    extends(interner.spec_types(), t0),
                    extends(interner.spec_types(), t6),
                    replacements_stored(sm, t0),
                    new_type_params@.len() == i,
                    forall|k: int| 0 <= k < i ==> (#[trigger] new_type_params@[k]).name@ == type_params@[k].name@,
                    before == TypeView::Function(types_view(params@), Box::new(type_view(*return_type)), params_view(type_params@)),
                    subst_bounded(before) ==> interner.spec_types().len() <= t6.len() + param_costs(params_view(type_params@.take(i as int))),
                    keys_stored(sm, t0) && interner.spec_types().len() < u32::MAX ==> forall|k: int|
                        0 <= k < i ==> {
                            &&& subst_opt_rel(
                                t0,
                                interner.spec_types(),
                                sm,
                                opt_view(type_params@[k].constraint),
                                opt_view((#[trigger] new_type_params@[k]).constraint),
                                f,
                            )
                            &&& subst_opt_rel(
                                t0,
                                interner.spec_types(),
                                sm,
                                opt_view(type_params@[k].default),
                                opt_view(new_type_params@[k].default),
                                f,
                            )
                        },
                decreases type_params@.len() - i,
            {
                interner.lemma_interned();
                let ghost t3 = interner.spec_types();
                let constraint = subst_opt(&type_params[i].constraint, subs, interner, fuel);
                interner.lemma_interned();
                let ghost t4 = interner.spec_types();
                let default = subst_opt(&type_params[i].default, subs, interner, fuel);
                let ghost t5 = interner.spec_types();
                proof {
                    let tps = type_params@;
                    assert(tps.take(i as int + 1).drop_last() =~= tps.take(i as int));
                    assert(tps.take(i as int + 1).last() == tps[i as int]);
                    let pv = params_view(tps.take(i as int));
                    assert(params_view(tps.take(i as int + 1)) == pv.push(crate::semantic::types::representation::param_view(tps[i as int])));
                    assert(pv.push(crate::semantic::types::representation::param_view(tps[i as int])).drop_last() =~= pv);
                    crate::semantic::types::representation::lemma_params_view(tps);
                    assert(params_view(tps)[i as int] == crate::semantic::types::representation::param_view(tps[i as int]));
                    lemma_extends_valid(t0, t3, t4);
                    lemma_extends_valid(t0, t4, t5);
                    lemma_extends_valid(t3, t4, t5);
                    lemma_extends_valid(t6, t3, t5);
                    if keys_stored(sm, t0) && t5.len() < u32::MAX {
                        lemma_keys_stored_extends(sm, t0, t3);
                        lemma_keys_stored_extends(sm, t0, t4);
                        lemma_opt_rel_mono(t0, t3, t4, sm, opt_view(type_params@[i as int].constraint), opt_view(constraint), f);
                        lemma_opt_rel_after(t0, t4, t5, sm, opt_view(type_params@[i as int].constraint), opt_view(constraint), f);
                        lemma_opt_rel_mono(t0, t4, t5, sm, opt_view(type_params@[i as int].default), opt_view(default), f);
                        assert forall|k: int| 0 <= k < i implies {
                            &&& subst_opt_rel(
                                t0,
                                t5,
                                sm,
                                opt_view(type_params@[k].constraint),
                                opt_view((#[trigger] new_type_params@[k]).constraint),
                                f,
                            )
                            &&& subst_opt_rel(t0, t5, sm, opt_view(type_params@[k].default), opt_view(new_type_params@[k].default), f)
                        } by {
                            lemma_opt_rel_after(t0, t3, t5, sm, opt_view(type_params@[k].constraint), opt_view(new_type_params@[k].constraint), f);
                            lemma_opt_rel_after(t0, t3, t5, sm, opt_view(type_params@[k].default), opt_view(new_type_params@[k].default), f);
                        }
                    }
                }
                new_type_params.push(TypeParameter { name: type_params[i].name.clone(), constraint, default });
                i = i + 1;
            }
            let ghost t7 = interner.spec_types();
            proof {
                assert(type_params@.take(type_params@.len() as int) =~= type_params@);
                lemma_types_view(params@);
                lemma_types_view(new_params@);
                crate::semantic::types::representation::lemma_params_view(type_params@);
                crate::semantic::types::representation::lemma_params_view(new_type_params@);
                if keys_stored(sm, t0) && t7.len() < u32::MAX {
                    lemma_subst_rel_after(t0, t6, t7, sm, return_type@, new_return@, f);
                    lemma_list_rel_after(t0, t6, t7, sm, params@, new_params@, params@.len() as int, f);
                }
            }
            let x = Type::Function { params: new_params, return_type: Box::new(new_return), type_params: new_type_params };
            proof {
                assert(same_shape(before, x@));
                if keys_stored(sm, t0) && t7.len() < u32::MAX {
                    lemma_list_rel(t0, t7, sm, params@, new_params@, f);
                    let xt = params_view(type_params@);
                    let yt = params_view(new_type_params@);
                    assert forall|k: int| 0 <= k < xt.len() implies {
                        &&& (#[trigger] xt[k]).name == yt[k].name
                        &&& match (xt[k].constraint, yt[k].constraint) {
                            (None, None) => true,
                            (Some(a), Some(b)) => subst_rel(t0, t7, sm, *a, *b, f),
                            _ => false,
                        }
                        &&& match (xt[k].default, yt[k].default) {
                            (None, None) => true,
                            (Some(a), Some(b)) => subst_rel(t0, t7, sm, *a, *b, f),
                            _ => false,
                        }
                    } by {
                        assert(new_type_params@[k].name@ == type_params@[k].name@);
                        assert(subst_opt_rel(t0, t7, sm, opt_view(type_params@[k].constraint), opt_view(new_type_params@[k].constraint), f));
                        assert(subst_opt_rel(t0, t7, sm, opt_view(type_params@[k].default), opt_view(new_type_params@[k].default), f));
                    }
                    assert(subst_rel(t0, t7, sm, before, x@, fuel as nat));
                }
            }
            proof {
                if subst_bounded(before) {
                    assert forall|i: int| 0 <= i < params@.len() implies subst_bounded((#[trigger] params@[i])@) by {
                        assert(types_view(params@)[i] == params@[i]@);
                    }
                    assert(subst_bounded(type_view(*return_type)));
                    assert(t2.len() <= t0.len() + subst_costs(types_view(params@)));
                    assert(t6.len() <= t2.len() + 1 + subst_cost(type_view(*return_type)));
                    assert(t7.len() <= t6.len() + param_costs(params_view(type_params@)));
                }
                assert(subst_bounded(before) ==> interner.spec_types().len() + 1 <= t0.len() + subst_cost(before));
            }
            x
        },
        Type::Union(types) => {
            let v = subst_children(&types, subs, interner, fuel);
            proof {
                lemma_types_view(types@);
                lemma_types_view(v@);
            }
            let x = Type::Union(v);
            proof {
                assert(same_shape(before, x@));
                if keys_stored(sm, t0) && interner.spec_types().len() < u32::MAX {
                    lemma_list_rel(t0, interner.spec_types(), sm, types@, x->Union_0@, f);
                    assert(subst_rel(t0, interner.spec_types(), sm, before, x@, fuel as nat));
                }
            }
            proof {
                if subst_bounded(before) {
                    assert forall|i: int| 0 <= i < types@.len() implies subst_bounded((#[trigger] types@[i])@) by {
                        assert(types_view(types@)[i] == types@[i]@);
                    }
                }
                assert(subst_bounded(before) ==> interner.spec_types().len() + 1 <= t0.len() + subst_cost(before));
            }
            x
        },
        Type::Intersection(types) => {
            let v = subst_children(&types, subs, interner, fuel);
            proof {
                lemma_types_view(types@);
                lemma_types_view(v@);
            }
            let x = Type::Intersection(v);
            proof {
                assert(same_shape(before, x@));
                if keys_stored(sm, t0) && interner.spec_types().len() < u32::MAX {
                    lemma_list_rel(t0, interner.spec_types(), sm, types@, x->Intersection_0@, f);
                    assert(subst_rel(t0, interner.spec_types(), sm, before, x@, fuel as nat));
                }
            }
            proof {
                if subst_bounded(before) {
                    assert forall|i: int| 0 <= i < types@.len() implies subst_bounded((#[trigger] types@[i])@) by {
                        assert(types_view(types@)[i] == types@[i]@);
                    }
                }
                assert(subst_bounded(before) ==> interner.spec_types().len() + 1 <= t0.len() + subst_cost(before));
            }
            x
        },
        Type::TypeParameter(tp) => {
            let x = Type::TypeParameter(tp);
            proof {
                lemma_same_shape_refl(before);
                assert(subst_rel(t0, interner.spec_types(), sm, before, x@, fuel as nat));
            }
            proof {
                assert(subst_bounded(before) ==> interner.spec_types().len() + 1 <= t0.len() + subst_cost(before));
            }
            x
        },
        Type::Generic { base, args } => {
            let new_base = subst_rec(base, subs, interner, fuel - 1);
            interner.lemma_interned();
            let ghost t2 = interner.spec_types();
            let new_args = subst_children(&args, subs, interner, fuel);
            let ghost t3 = interner.spec_types();
            proof {
                lemma_extends_valid(t0, t2, t3);
                lemma_types_view(args@);
                lemma_types_view(new_args@);
            }
            let x = Type::Generic { base: new_base, args: new_args };
            proof {
                assert(same_shape(before, x@));
                if keys_stored(sm, t0) && t3.len() < u32::MAX {
                    lemma_keys_stored_extends(sm, t0, t2);
                    lemma_list_rel_mono(t0, t2, t3, sm, args@, new_args@, f);
                    lemma_list_rel(t0, t3, sm, args@, new_args@, f);
                    if !sm.contains_key(base) && valid_id(t0, base) {
                        assert(valid_id(t2, new_base));
                        assert(t3[new_base.spec_id() as int] == t2[new_base.spec_id() as int]);
                        lemma_subst_rel_after(t0, t2, t3, sm, type_at(t0, base)@, type_at(t2, new_base)@, f);
                    }
                    assert(subst_rel(t0, t3, sm, before, x@, fuel as nat));
                }
            }
            proof {
                assert(subst_bounded(before) ==> interner.spec_types().len() + 1 <= t0.len() + subst_cost(before));
            }
            x
        },
        Type::Reference { name, type_args } => {
            let new_args = subst_children(&type_args, subs, interner, fuel);
            proof {
                lemma_types_view(type_args@);
                lemma_types_view(new_args@);
            }
            let x = Type::Reference { name, type_args: new_args };
            proof {
                assert(same_shape(before, x@));
                if keys_stored(sm, t0) && interner.spec_types().len() < u32::MAX {
                    lemma_list_rel(t0, interner.spec_types(), sm, type_args@, x->type_args@, f);
                    assert(subst_rel(t0, interner.spec_types(), sm, before, x@, fuel as nat));
                }
            }
            proof {
                if subst_bounded(before) {
                    assert forall|i: int| 0 <= i < type_args@.len() implies subst_bounded((#[trigger] type_args@[i])@) by {
                        assert(types_view(type_args@)[i] == type_args@[i]@);
                    }
                }
                assert(subst_bounded(before) ==> interner.spec_types().len() + 1 <= t0.len() + subst_cost(before));
            }
            x
        },
    };
    if interner.is_full() {
        proof {
            lemma_same_shape_refl(type_at(t0, ty)@);
            assert(interner.spec_types()[ty.spec_id() as int] == t0[ty.spec_id() as int]);
        }
        return ty;
    }
    let ghost t5 = interner.spec_types();
    let ghost sv = substituted@;
    let r = interner.intern(substituted);
    interner.lemma_interned();
    proof {
        assert(same_shape(before, sv));
        if leaf {
            assert(sv == before);
            assert(t5 == t0);
            assert(interner.spec_types() == t0);
            if r.spec_id() < ty.spec_id() {
                assert(type_view(interner.spec_types()[r.spec_id() as int]) != type_view(interner.spec_types()[ty.spec_id() as int]));
            } else if r.spec_id() > ty.spec_id() {
                assert(type_view(interner.spec_types()[ty.spec_id() as int]) != type_view(interner.spec_types()[r.spec_id() as int]));
            }
            TypeId::lemma_eq(r, ty);
        }
        assert(t5.take(t5.len() as int) =~= t5);
        assert(t5.push(substituted).take(t5.len() as int) =~= t5);
        lemma_extends_valid(t0, t5, interner.spec_types());
        if keys_stored(sm, t0) && interner.spec_types().len() < u32::MAX {
            assert(t5.len() <= interner.spec_types().len());
            assert(subst_rel(t0, t5, sm, before, sv, fuel as nat));
            lemma_subst_rel_after(t0, t5, interner.spec_types(), sm, before, sv, fuel as nat);
        }
    }
    r
}

/// Substitutes type parameters: where `ty`, or a type it is made of, is a key of
/// `substitutions`, its replacement takes its place; the result is stored and its
/// id answered. An id that names no stored type and has no replacement is answered
/// as it is. The walk gives up, answering the type as it stands, where no further
/// type can be stored or after `u64::MAX` levels of ids. Where every key names a
/// stored type and storage did not run out, the stored result is exactly the
/// substitution that `subst_rel` describes. Substituting within a type without
/// object types and generic instantiations stores at most `subst_cost` of it more
/// types, so that storage does not run out where the interner has room for them.
pub fn substitute_type_params(ty: TypeId, substitutions: &Substitutions, interner: &mut TypeInterner) -> (r: TypeId)
    requires
        replacements_stored(substitution_entries(*substitutions), old(interner).spec_types()),
    ensures
        extends(final(interner).spec_types(), old(interner).spec_types()),
        substitution_entries(*substitutions).contains_key(ty) ==> r == substitution_entries(*substitutions)[ty],
        !substitution_entries(*substitutions).contains_key(ty) && !valid_id(old(interner).spec_types(), ty) ==> r == ty,
        valid_id(old(interner).spec_types(), ty) ==> valid_id(final(interner).spec_types(), r),
        !substitution_entries(*substitutions).contains_key(ty) && valid_id(old(interner).spec_types(), ty) && (type_at(
            old(interner).spec_types(),
            ty,
        ) is Primitive || type_at(old(interner).spec_types(), ty) is TypeParameter) ==> r == ty,
        !substitution_entries(*substitutions).contains_key(ty) && valid_id(old(interner).spec_types(), ty) ==> same_shape(
            type_at(old(interner).spec_types(), ty)@,
            type_at(final(interner).spec_types(), r)@,
        ),
        keys_stored(substitution_entries(*substitutions), old(interner).spec_types())
            && final(interner).spec_types().len() < u32::MAX && valid_id(old(interner).spec_types(), ty) ==> subst_rel(
            old(interner).spec_types(),
            final(interner).spec_types(),
            substitution_entries(*substitutions),
            type_at(old(interner).spec_types(), ty)@,
            type_at(final(interner).spec_types(), r)@,
            u64::MAX as nat,
        ),
        valid_id(old(interner).spec_types(), ty) && subst_bounded(type_at(old(interner).spec_types(), ty)@)
            ==> final(interner).spec_types().len() <= old(interner).spec_types().len() + subst_cost(
            type_at(old(interner).spec_types(), ty)@,
        ),
        keys_stored(substitution_entries(*substitutions), old(interner).spec_types()) && valid_id(old(interner).spec_types(), ty)
            && subst_bounded(type_at(old(interner).spec_types(), ty)@) && old(interner).spec_types().len() + subst_cost(
            type_at(old(interner).spec_types(), ty)@,
        ) < u32::MAX ==> subst_rel(
            old(interner).spec_types(),
            final(interner).spec_types(),
            substitution_entries(*substitutions),
            type_at(old(interner).spec_types(), ty)@,
            type_at(final(interner).spec_types(), r)@,
            u64::MAX as nat,
        ),
{
    subst_rec(ty, substitutions, interner, u64::MAX)
}

/// The map that inserting `pairs` in order builds: a later pair for a key replaces
/// an earlier one.
pub open spec fn pairs_map(pairs: Seq<(TypeId, TypeId)>) -> Map<TypeId, TypeId>
    decreases pairs.len(),
{
    if pairs.len() == 0 {
        Map::empty()
    } else {
        pairs_map(pairs.drop_last()).insert(pairs.last().0, pairs.last().1)
    }
}

/// Substitutes type parameters by the pairs `(key, replacement)` of `pairs`, a later
/// pair for a key taking the place of an earlier one. Where a replacement names no
/// stored type, nothing is substituted or stored and `None` is answered; otherwise
/// the answer of `substitute_type_params` for the map the pairs build.
pub fn substitute_pairs(ty: TypeId, pairs: &Vec<(TypeId, TypeId)>, interner: &mut TypeInterner) -> (r: Option<TypeId>)
    ensures
        r is None <==> exists|i: int| 0 <= i < pairs@.len() && !valid_id(old(interner).spec_types(), (#[trigger] pairs@[i]).1),
        r is None ==> final(interner).spec_types() == old(interner).spec_types(),
        r matches Some(id) ==> {
            let sm = pairs_map(pairs@);
            let t0 = old(interner).spec_types();
            let t1 = final(interner).spec_types();
            &&& extends(t1, t0)
            &&& sm.contains_key(ty) ==> id == sm[ty]
            &&& !sm.contains_key(ty) && !valid_id(t0, ty) ==> id == ty
            &&& valid_id(t0, ty) ==> valid_id(t1, id)
            &&& !sm.contains_key(ty) && valid_id(t0, ty) && (type_at(t0, ty) is Primitive || type_at(t0, ty) is TypeParameter) ==> id == ty
            &&& !sm.contains_key(ty) && valid_id(t0, ty) ==> same_shape(type_at(t0, ty)@, type_at(t1, id)@)
            &&& keys_stored(sm, t0) && t1.len() < u32::MAX && valid_id(t0, ty) ==> subst_rel(
                t0,
                t1,
                sm,
                type_at(t0, ty)@,
                type_at(t1, id)@,
                u64::MAX as nat,
            )
            &&& valid_id(t0, ty) && subst_bounded(type_at(t0, ty)@) ==> t1.len() <= t0.len() + subst_cost(type_at(t0, ty)@)
        },
{
    let mut m = substitutions_new();
    let mut i: usize = 0;
    proof {
        assert(pairs@.take(0) =~= Seq::<(TypeId, TypeId)>::empty());
        assert(substitution_entries(m) =~= pairs_map(pairs@.take(0)));
    }
    while i < pairs.len()
        invariant
            i <= pairs@.len(),
            substitution_entries(m) == pairs_map(pairs@.take(i as int)),
            forall|j: int| 0 <= j < i ==> valid_id(interner.spec_types(), (#[trigger] pairs@[j]).1),
        decreases pairs@.len() - i,
    {
        let (k, v) = pairs[i];
        if interner.get(v).is_none() {
            return None;
        }
        substitutions_insert(&mut m, k, v);
        proof {
            assert(pairs@.take(i as int + 1).drop_last() =~= pairs@.take(i as int));
        }
        i = i + 1;
    }
    proof {
        assert(pairs@.take(pairs@.len() as int) =~= pairs@);
        let sm = pairs_map(pairs@);
        assert forall|k: TypeId| #[trigger] sm.contains_key(k) implies valid_id(interner.spec_types(), sm[k]) by {
            lemma_pairs_map_values(pairs@, k);
        }
    }
    Some(substitute_type_params(ty, &m, interner))
}

/// Each value of the map that `pairs` builds is the replacement of one of the pairs.
proof fn lemma_pairs_map_values(pairs: Seq<(TypeId, TypeId)>, k: TypeId)
    requires
        pairs_map(pairs).contains_key(k),
    ensures
        exists|i: int| 0 <= i < pairs.len() && (#[trigger] pairs[i]).1 == pairs_map(pairs)[k],
    decreases pairs.len(),
{
    if pairs.last().0 != k {
        lemma_pairs_map_values(pairs.drop_last(), k);
        let i = choose|i: int| 0 <= i < pairs.drop_last().len() && (#[trigger] pairs.drop_last()[i]).1 == pairs_map(pairs.drop_last())[k];
        assert(pairs[i] == pairs.drop_last()[i]);
    } else {
        assert(pairs[pairs.len() - 1] == pairs.last());
    }
}

/// With no substitutions, what `subst_rel` relates a type without object types and
/// generic instantiations to is that type itself: substituting nothing changes
/// nothing.
pub proof fn lemma_empty_substitution(types: Seq<Type>, after: Seq<Type>, a: TypeView, b: TypeView, fuel: nat)
    requires
        subst_bounded(a),
        subst_rel(types, after, Map::<TypeId, TypeId>::empty(), a, b, fuel),
    ensures
        b == a,
    decreases a,
{
    let subs = Map::<TypeId, TypeId>::empty();
    assert(!is_replaced(types, subs, a));
    if fuel > 0 {
        let f = (fuel - 1) as nat;
        match (a, b) {
            (TypeView::Array(x), TypeView::Array(y)) => {
                lemma_empty_substitution(types, after, *x, *y, f);
            },
            (TypeView::Tuple(xs), TypeView::Tuple(ys)) => {
                assert forall|i: int| 0 <= i < xs.len() implies ys[i] == xs[i] by {
                    lemma_empty_substitution(types, after, xs[i], ys[i], f);
                }
                assert(ys =~= xs);
            },
            (TypeView::Union(xs), TypeView::Union(ys)) => {
                assert forall|i: int| 0 <= i < xs.len() implies ys[i] == xs[i] by {
                    lemma_empty_substitution(types, after, xs[i], ys[i], f);
                }
                assert(ys =~= xs);
            },
            (TypeView::Intersection(xs), TypeView::Intersection(ys)) => {
                assert forall|i: int| 0 <= i < xs.len() implies ys[i] == xs[i] by {
                    lemma_empty_substitution(types, after, xs[i], ys[i], f);
                }
                assert(ys =~= xs);
            },
            (TypeView::Reference(n, xs), TypeView::Reference(m, ys)) => {
                assert forall|i: int| 0 <= i < xs.len() implies ys[i] == xs[i] by {
                    lemma_empty_substitution(types, after, xs[i], ys[i], f);
                }
                assert(ys =~= xs);
            },
            (TypeView::Function(xp, xr, xt), TypeView::Function(yp, yr, yt)) => {
                assert forall|i: int| 0 <= i < xp.len() implies yp[i] == xp[i] by {
                    lemma_empty_substitution(types, after, xp[i], yp[i], f);
                }
                assert(yp =~= xp);
                lemma_empty_substitution(types, after, *xr, *yr, f);
                assert forall|i: int| 0 <= i < xt.len() implies yt[i] == xt[i] by {
                    match (xt[i].constraint, yt[i].constraint) {
                        (Some(x), Some(y)) => lemma_empty_substitution(types, after, *x, *y, f),
                        _ => {},
                    }
                    match (xt[i].default, yt[i].default) {
                        (Some(x), Some(y)) => lemma_empty_substitution(types, after, *x, *y, f),
                        _ => {},
                    }
                }
                assert(yt =~= xt);
            },
            _ => {},
        }
    }
}

/// Index signatures are compared covariantly: an object with an index signature of
/// type `ai` is a subtype of an object that has no properties and an index
/// signature of type `bi` exactly when `ai` is a subtype of `bi`.
pub proof fn lemma_index_signature_covariant(x: ObjectType, y: ObjectType, ai: Type, bi: Type)
    requires
        x.index_signature == Some(Box::new(ai)),
        y.index_signature == Some(Box::new(bi)),
        y.properties.spec_entries().len() == 0,
    ensures
        subtype(Type::Object(x), Type::Object(y)) == subtype(ai, bi),
{
    lemma_props_size(x.properties.spec_entries());
    lemma_props_size(y.properties.spec_entries());
}

/// Every object type is a subtype of the object type with no properties whose index
/// signature is `unknown`: whatever its index signature or properties, their types
/// fit `unknown`.
pub proof fn lemma_object_below_unknown_index(x: ObjectType, y: ObjectType)
    requires
        y.properties.spec_entries().len() == 0,
        y.index_signature == Some(Box::new(Type::Primitive(PrimitiveType::Unknown))),
    ensures
        subtype(Type::Object(x), Type::Object(y)),
{
    lemma_props_size(x.properties.spec_entries());
    lemma_props_size(y.properties.spec_entries());
    match x.index_signature {
        Some(ai) => {
            assert(subtype(*ai, Type::Primitive(PrimitiveType::Unknown)));
        },
        None => {
            let xp = x.properties.spec_entries();
            assert forall|i: int| 0 <= i < xp.len() implies subtype((#[trigger] xp[i]).1, Type::Primitive(PrimitiveType::Unknown)) by {
            }
        },
    }
}

/// Where the target has an index signature and the source has none, each property
/// of the source must fit the index signature: an object type without an index
/// signature that is a subtype of one with index signature `bi` has only properties
/// whose types are subtypes of `bi`.
pub proof fn lemma_properties_fit_index_signature(x: ObjectType, y: ObjectType, bi: Type, k: int)
    requires
        x.index_signature is None,
        y.index_signature == Some(Box::new(bi)),
        subtype(Type::Object(x), Type::Object(y)),
        0 <= k < x.properties.spec_entries().len(),
    ensures
        subtype(x.properties.spec_entries()[k].1, bi),
{
    lemma_props_size(x.properties.spec_entries());
    lemma_props_size(y.properties.spec_entries());
}

/// Unifying two object types that both have an index signature unifies their index
/// signatures: where it succeeds, the result's index signature is the unification of
/// the two, and where those do not unify, neither do the objects.
pub proof fn lemma_unify_index_signatures(x: ObjectType, y: ObjectType, xi: Type, yi: Type)
    requires
        x.index_signature == Some(Box::new(xi)),
        y.index_signature == Some(Box::new(yi)),
    ensures
        unify_spec(Type::Object(x), Type::Object(y)) matches Ok(v) ==> (v matches TypeView::Object(_, Some(iv)) && unify_spec(
            xi,
            yi,
        ) == Ok::<TypeView, UnifyFailure>(*iv)),
        unify_spec(xi, yi) is Err ==> unify_spec(Type::Object(x), Type::Object(y)) is Err,
{
    lemma_props_size(x.properties.spec_entries());
    lemma_props_size(y.properties.spec_entries());
    assert(opt_size(x.index_signature) == type_size(xi));
    assert(opt_size(y.index_signature) == type_size(yi));
    if Type::Object(x)@ == Type::Object(y)@ {
        assert(opt_view(x.index_signature) == opt_view(y.index_signature));
        assert(xi@ == yi@);
    }
}

/// A primitive type, or an object type without properties whose index signature,
/// if any, is a primitive type.
pub open spec fn flat_type(t: Type) -> bool {
    match t {
        Type::Primitive(_) => true,
        Type::Object(o) => o.properties.spec_entries().len() == 0 && match o.index_signature {
            None => true,
            Some(i) => *i is Primitive,
        },
        _ => false,
    }
}

/// The only type whose view is a primitive is that primitive.
proof fn lemma_primitive_view(t: Type, p: PrimitiveType)
    requires
        t@ == TypeView::Primitive(p),
    ensures
        t == Type::Primitive(p),
{
}

/// A property list with no properties in its map has none at all.
proof fn lemma_empty_props(s: Seq<(String, Type)>)
    requires
        props_view(s).dom() == Set::<Seq<char>>::empty(),
    ensures
        s.len() == 0,
{
    if s.len() > 0 {
        crate::semantic::types::representation::lemma_props_view(s, s[0].0@);
        assert(props_view(s).dom().contains(s[0].0@));
    }
}

/// A flat type is a subtype of every type with its view.
proof fn lemma_flat_view_subtype(a: Type, t: Type)
    requires
        flat_type(a),
        t@ == a@,
    ensures
        subtype(a, t),
{
    match a {
        Type::Primitive(p) => {
            lemma_primitive_view(t, p);
        },
        Type::Object(x) => {
            assert(t is Object);
            let tx = t->Object_0;
            lemma_props_size(x.properties.spec_entries());
            lemma_props_size(tx.properties.spec_entries());
            assert(props_view(tx.properties.spec_entries()) == props_view(x.properties.spec_entries()));
            assert(props_view(x.properties.spec_entries()) =~= Map::empty());
            lemma_empty_props(tx.properties.spec_entries());
            assert(opt_view(tx.index_signature) == opt_view(x.index_signature));
            if let Some(xi) = x.index_signature {
                let ti = tx.index_signature->0;
                assert(type_view(*ti) == type_view(*xi));
                lemma_primitive_view(*ti, (*xi)->Primitive_0);
                assert(opt_size(tx.index_signature) == type_size(*ti));
                assert(opt_size(x.index_signature) == type_size(*xi));
                assert(*ti == *xi);
                assert(subtype(*xi, *ti));
            } else {
                assert(tx.index_signature is None);
            }
            assert(tx.properties.spec_entries().len() == 0);
        },
        _ => {},
    }
}

/// What unifying two flat types gives is a common supertype of both: each of them
/// is a subtype of any type with the view of the result.
pub proof fn lemma_unify_flat_upper_bound(a: Type, b: Type, t: Type)
    requires
        flat_type(a),
        flat_type(b),
        unify_spec(a, b) == Ok::<TypeView, UnifyFailure>(t@),
    ensures
        subtype(a, t),
        subtype(b, t),
    decreases type_size(a) + type_size(b),
{
    if a@ == b@ {
        lemma_flat_view_subtype(a, t);
        lemma_flat_view_subtype(b, t);
    } else {
        match (a, b) {
            (Type::Primitive(PrimitiveType::Any), _) => {
                lemma_primitive_view(t, PrimitiveType::Any);
            },
            (_, Type::Primitive(PrimitiveType::Any)) => {
                lemma_primitive_view(t, PrimitiveType::Any);
            },
            (Type::Primitive(PrimitiveType::Unknown), _) => {
                lemma_primitive_view(t, PrimitiveType::Unknown);
            },
            (_, Type::Primitive(PrimitiveType::Unknown)) => {
                lemma_primitive_view(t, PrimitiveType::Unknown);
            },
            (Type::Primitive(PrimitiveType::Never), _) => {
                lemma_flat_view_subtype(b, t);
            },
            (_, Type::Primitive(PrimitiveType::Never)) => {
                lemma_flat_view_subtype(a, t);
            },
            (Type::Object(x), Type::Object(y)) => {
                let xp = x.properties.spec_entries();
                let yp = y.properties.spec_entries();
                lemma_props_size(xp);
                lemma_props_size(yp);
                assert(merge_failure(xp, yp, xp.len() as nat) is None);
                let props = merge_right(merge_left(xp, yp, xp.len() as nat), yp, yp.len() as nat);
                assert(merge_left(xp, yp, 0) =~= Map::<Seq<char>, TypeView>::empty());
                assert(props =~= Map::<Seq<char>, TypeView>::empty());
                assert(t@ is Object);
                let tx = t->Object_0;
                let tp = tx.properties.spec_entries();
                lemma_props_size(tp);
                assert(t@ == TypeView::Object(props_view(tp), opt_view(tx.index_signature)));
                assert(props_view(tp) =~= Map::<Seq<char>, TypeView>::empty());
                lemma_empty_props(tp);
                match (x.index_signature, y.index_signature) {
                    (Some(xi), Some(yi)) => {
                        assert(opt_size(x.index_signature) == type_size(*xi));
                        assert(opt_size(y.index_signature) == type_size(*yi));
                        let uv = unify_spec(*xi, *yi);
                        assert(uv is Ok);
                        assert(t@ == TypeView::Object(props, Some(Box::new(uv->Ok_0))));
                        assert(tx.index_signature is Some);
                        let ti = tx.index_signature->0;
                        assert(opt_size(tx.index_signature) == type_size(*ti));
                        assert(ti@ == uv->Ok_0);
                        lemma_unify_flat_upper_bound(*xi, *yi, *ti);
                    },
                    (Some(xi), None) => {
                        assert(opt_size(x.index_signature) == type_size(*xi));
                        assert(tx.index_signature is Some);
                        let ti = tx.index_signature->0;
                        assert(opt_size(tx.index_signature) == type_size(*ti));
                        lemma_flat_view_subtype(*xi, *ti);
                    },
                    (None, Some(yi)) => {
                        assert(opt_size(y.index_signature) == type_size(*yi));
                        assert(tx.index_signature is Some);
                        let ti = tx.index_signature->0;
                        assert(opt_size(tx.index_signature) == type_size(*ti));
                        lemma_flat_view_subtype(*yi, *ti);
                    },
                    (None, None) => {
                        assert(tx.index_signature is None);
                    },
                }
            },
            _ => {},
        }
    }
}

/// Arrays are covariant: an array type is a subtype of another exactly when its
/// element type is a subtype of the other's.
pub proof fn lemma_array_covariant(x: Type, y: Type)
    ensures
        subtype(Type::Array(Box::new(x)), Type::Array(Box::new(y))) == subtype(x, y),
{
}

/// Function types are contravariant in their parameters and covariant in their
/// return type: with as many parameters on each side, one is a subtype of the other
/// exactly when each parameter of the other is a subtype of its parameter in the same
/// place and its return type is a subtype of the other's.
pub proof fn lemma_function_variance(f: Type, g: Type)
    requires
        f is Function,
        g is Function,
        f->params@.len() == g->params@.len(),
    ensures
        subtype(f, g) == ((forall|i: int|
            0 <= i < f->params@.len() ==> subtype(#[trigger] g->params@[i], f->params@[i])) && subtype(
            *f->return_type,
            *g->return_type,
        )),
{
    lemma_types_size(f->params@);
    lemma_types_size(g->params@);
}

/// Tuples are covariant element by element and must have one length.
pub proof fn lemma_tuple_covariant(xs: Vec<Type>, ys: Vec<Type>)
    ensures
        subtype(Type::Tuple(xs), Type::Tuple(ys)) == (xs@.len() == ys@.len() && forall|i: int|
            0 <= i < xs@.len() ==> subtype(#[trigger] xs@[i], ys@[i])),
{
    lemma_types_size(xs@);
    lemma_types_size(ys@);
}

/// Two different primitives other than `any`, `unknown` and `never` are unrelated.
pub proof fn lemma_distinct_primitives(p: PrimitiveType, q: PrimitiveType)
    requires
        p != q,
        p != PrimitiveType::Any && p != PrimitiveType::Never,
        q != PrimitiveType::Any && q != PrimitiveType::Unknown,
    ensures
        !subtype(Type::Primitive(p), Type::Primitive(q)),
{
}

/// Unifying flat types does not depend on their order: one order succeeds exactly
/// when the other does, with the same result.
pub proof fn lemma_unify_flat_commutes(a: Type, b: Type)
    requires
        flat_type(a),
        flat_type(b),
    ensures
        (unify_spec(a, b) is Ok) == (unify_spec(b, a) is Ok),
        unify_spec(a, b) is Ok ==> unify_spec(a, b) == unify_spec(b, a),
    decreases type_size(a) + type_size(b),
{
    if a@ != b@ {
        match (a, b) {
            (Type::Object(x), Type::Object(y)) => {
                let xp = x.properties.spec_entries();
                let yp = y.properties.spec_entries();
                lemma_props_size(xp);
                lemma_props_size(yp);
                assert(merge_failure(xp, yp, xp.len() as nat) is None);
                assert(merge_failure(yp, xp, yp.len() as nat) is None);
                assert(merge_left(xp, yp, 0) =~= Map::<Seq<char>, TypeView>::empty());
                assert(merge_left(yp, xp, 0) =~= Map::<Seq<char>, TypeView>::empty());
                assert(merge_right(merge_left(xp, yp, xp.len() as nat), yp, yp.len() as nat) =~= Map::<Seq<char>, TypeView>::empty());
                assert(merge_right(merge_left(yp, xp, yp.len() as nat), xp, xp.len() as nat) =~= Map::<Seq<char>, TypeView>::empty());
                if let (Some(xi), Some(yi)) = (x.index_signature, y.index_signature) {
                    assert(opt_size(x.index_signature) == type_size(*xi));
                    assert(opt_size(y.index_signature) == type_size(*yi));
                    lemma_unify_flat_commutes(*xi, *yi);
                }
            },
            _ => {},
        }
    }
}

/// Width subtyping: an object type is a subtype of another only where it has each of
/// the other's properties, with a type that is a subtype of the other's.
pub proof fn lemma_object_has_target_properties(x: ObjectType, y: ObjectType, k: int)
    requires
        subtype(Type::Object(x), Type::Object(y)),
        0 <= k < y.properties.spec_entries().len(),
    ensures
        prop_lookup(x.properties.spec_entries(), y.properties.spec_entries()[k].0@) matches Some(t) && subtype(
            t,
            y.properties.spec_entries()[k].1,
        ),
{
    lemma_props_size(x.properties.spec_entries());
    lemma_props_size(y.properties.spec_entries());
}

/// Unifying two array types unifies their element types: where it succeeds the
/// result is the array of the unified elements, and where the elements do not unify,
/// neither do the arrays.
pub proof fn lemma_unify_arrays(x: Type, y: Type)
    ensures
        unify_spec(Type::Array(Box::new(x)), Type::Array(Box::new(y))) matches Ok(v) ==> (v matches TypeView::Array(e)
            && unify_spec(x, y) == Ok::<TypeView, UnifyFailure>(*e)),
        unify_spec(x, y) is Err ==> unify_spec(Type::Array(Box::new(x)), Type::Array(Box::new(y))) is Err,
{
    if x@ == y@ {
        assert(Type::Array(Box::new(x))@ == Type::Array(Box::new(y))@);
    }
}

/// `any` and `unknown` are supertypes of every type, `any` and `never` subtypes of
/// every type.
pub proof fn lemma_subtype_top_bottom(t: Type)
    ensures
        subtype(t, Type::Primitive(PrimitiveType::Any)),
        subtype(t, Type::Primitive(PrimitiveType::Unknown)),
        subtype(Type::Primitive(PrimitiveType::Any), t),
        subtype(Type::Primitive(PrimitiveType::Never), t),
{
}

/// Unification of a type with itself gives the type; `any` absorbs every type on
/// either side, and `never` is neutral on either side.
pub proof fn lemma_unify_identities(t: Type)
    ensures
        unify_spec(t, t) matches Ok(v) && v == t@,
        unify_spec(Type::Primitive(PrimitiveType::Any), t) matches Ok(v) && v == TypeView::Primitive(PrimitiveType::Any),
        unify_spec(t, Type::Primitive(PrimitiveType::Any)) matches Ok(v) && v == TypeView::Primitive(PrimitiveType::Any),
        unify_spec(Type::Primitive(PrimitiveType::Never), t) matches Ok(v) && v == t@,
        unify_spec(t, Type::Primitive(PrimitiveType::Never)) matches Ok(v) && v == t@,
{
}

} // verus!
