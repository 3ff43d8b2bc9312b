//! Representation of TypeScript types.

use vstd::prelude::*;
use vstd::std_specs::cmp::PartialEqSpecImpl;

verus! {

/// Identifier of an interned type.
#[derive(Debug, Clone, Copy, PartialEq, Eq, PartialOrd, Ord, Hash, Structural)]
pub struct TypeId(u32);

impl TypeId {
    /// The id with the given number.
    pub fn new(id: u32) -> (r: TypeId)
        ensures
            r.spec_id() == id,
    {
        TypeId(id)
    }

    /// The number of the id.
    pub closed spec fn spec_id(self) -> u32 {
        self.0
    }

    /// The number of the id.
    pub fn into_u32(self) -> (r: u32)
        ensures
            r == self.spec_id(),
    {
        self.0
    }

    /// The number of the id, as an index.
    pub fn into_usize(self) -> (r: usize)
        ensures
            r == self.spec_id(),
    {
        self.0 as usize
    }

    /// The id numbered by the low 32 bits of `index`, unless they are zero: id 0 is
    /// never made from an index.
    pub fn try_from_usize(index: usize) -> (r: Option<TypeId>)
        ensures
            (index as u32) == 0 ==> r is None,
            (index as u32) != 0 ==> (r matches Some(t) && t.spec_id() == (index as u32)),
    {
        let n = index as u32;
        if n == 0 {
            None
        } else {
            Some(TypeId(n))
        }
    }

    /// Two ids are equal exactly when their numbers are.
    pub proof fn lemma_eq(a: TypeId, b: TypeId)
        ensures
            (a == b) <==> (a.spec_id() == b.spec_id()),
    {
    }
}

/// Primitive TypeScript types, ordered as they are declared.
#[derive(Debug, Clone, Copy, PartialEq, Eq, PartialOrd, Ord, Hash, Structural)]
pub enum PrimitiveType {
    /// `string`
    String,
    /// `number`
    Number,
    /// `boolean`
    Boolean,
    /// `null`
    Null,
    /// `undefined`
    Undefined,
    /// `void`
    Void,
    /// `never`
    Never,
    /// `unknown`
    Unknown,
    /// `any`
    Any,
}

/// What a type is, as a mathematical value: lists as sequences, property maps as
/// maps from names to types.
pub enum TypeView {
    Primitive(PrimitiveType),
    Array(Box<TypeView>),
    Tuple(Seq<TypeView>),
    Object(Map<Seq<char>, TypeView>, Option<Box<TypeView>>),
    Function(Seq<TypeView>, Box<TypeView>, Seq<ParamView>),
    Union(Seq<TypeView>),
    Intersection(Seq<TypeView>),
    TypeParameter(ParamView),
    Generic(TypeId, Seq<TypeView>),
    Reference(Seq<char>, Seq<TypeView>),
}

/// What a generic type parameter is, as a mathematical value.
pub struct ParamView {
    pub name: Seq<char>,
    pub constraint: Option<Box<TypeView>>,
    pub default: Option<Box<TypeView>>,
}

/// Named properties of an object type, each name once.
#[derive(Debug, Eq)]
pub struct PropertyMap {
    entries: Vec<(String, Type)>,
}

/// Object type: `{ prop: T; [key: K]: V }`
#[derive(Debug, Eq, Hash)]
pub struct ObjectType {
    /// Named properties of the object
    pub properties: PropertyMap,
    /// Optional index signature, if present
    pub index_signature: Option<Box<Type>>,
}

/// A TypeScript type.
#[derive(Debug, Eq, Hash)]
pub enum Type {
    /// Primitive type (string, number, boolean, etc.)
    Primitive(PrimitiveType),
    /// Array type: `T[]` or `Array<T>`
    Array(Box<Type>),
    /// Tuple type: `[T1, T2, T3]`
    Tuple(Vec<Type>),
    /// Object type: `{ prop: T; [key: K]: V }`
    Object(ObjectType),
    /// Function type: `(param: T) => R`
    Function {
        /// Parameter types
        params: Vec<Type>,
        /// Return type
        return_type: Box<Type>,
        /// Generic type parameters
        type_params: Vec<TypeParameter>,
    },
    /// Union type: `T | U | V`
    Union(Vec<Type>),
    /// Intersection type: `T & U & V`
    Intersection(Vec<Type>),
    /// Generic type parameter: `T extends Constraint = Default`
    TypeParameter(TypeParameter),
    /// Instantiated generic type: `Generic<T, U>`
    Generic {
        /// Base generic type identifier
        base: TypeId,
        /// Type arguments applied to the generic
        args: Vec<Type>,
    },
    /// Named type reference: `TypeReference` or `TypeReference<T>`
    Reference {
        /// Name of the referenced type
        name: String,
        /// Optional type arguments
        type_args: Vec<Type>,
    },
}

/// A generic type parameter definition.
#[derive(Debug, Eq, Hash)]
pub struct TypeParameter {
    /// Name of the type parameter (e.g., "T")
    pub name: String,
    /// Optional constraint type (e.g., `extends string`)
    pub constraint: Option<Box<Type>>,
    /// Optional default type
    pub default: Option<Box<Type>>,
}

// ---------------------------------------------------------------------------------
// Views.
// ---------------------------------------------------------------------------------

/// The view of a type.
pub open spec fn type_view(t: Type) -> TypeView
    decreases t,
{
    match t {
        Type::Primitive(p) => TypeView::Primitive(p),
        Type::Array(e) => TypeView::Array(Box::new(type_view(*e))),
        Type::Tuple(v) => TypeView::Tuple(types_view(v@)),
        Type::Object(o) => TypeView::Object(props_view(o.properties.spec_entries()), opt_view(o.index_signature)),
        Type::Function { params, return_type, type_params } => TypeView::Function(
            types_view(params@),
            Box::new(type_view(*return_type)),
            params_view(type_params@),
        ),
        Type::Union(v) => TypeView::Union(types_view(v@)),
        Type::Intersection(v) => TypeView::Intersection(types_view(v@)),
        Type::TypeParameter(tp) => TypeView::TypeParameter(param_view(tp)),
        Type::Generic { base, args } => TypeView::Generic(base, types_view(args@)),
        Type::Reference { name, type_args } => TypeView::Reference(name@, types_view(type_args@)),
    }
}

/// The views of a list of types.
pub open spec fn types_view(s: Seq<Type>) -> Seq<TypeView>
    decreases s,
{
    if s.len() == 0 {
        Seq::empty()
    } else {
        types_view(s.drop_last()).push(type_view(s.last()))
    }
}

/// The view of an optional boxed type.
pub open spec fn opt_view(o: Option<Box<Type>>) -> Option<Box<TypeView>>
    decreases o,
{
    match o {
        Some(b) => Some(Box::new(type_view(*b))),
        None => None,
    }
}

/// The view of a type parameter.
pub open spec fn param_view(tp: TypeParameter) -> ParamView
    decreases tp,
{
    ParamView { name: tp.name@, constraint: opt_view(tp.constraint), default: opt_view(tp.default) }
}

/// The views of a list of type parameters.
pub open spec fn params_view(s: Seq<TypeParameter>) -> Seq<ParamView>
    decreases s,
{
    if s.len() == 0 {
        Seq::empty()
    } else {
        params_view(s.drop_last()).push(param_view(s.last()))
    }
}

/// The map of a list of named properties; where a name occurs twice, the first
/// occurrence counts.
pub open spec fn props_view(s: Seq<(String, Type)>) -> Map<Seq<char>, TypeView>
    decreases s,
{
    if s.len() == 0 {
        Map::empty()
    } else {
        props_view(s.drop_first()).insert(s[0].0@, type_view(s[0].1))
    }
}

impl View for Type {
    type V = TypeView;

    open spec fn view(&self) -> TypeView {
        type_view(*self)
    }
}

impl View for TypeParameter {
    type V = ParamView;

    open spec fn view(&self) -> ParamView {
        param_view(*self)
    }
}

impl View for PropertyMap {
    type V = Map<Seq<char>, TypeView>;

    open spec fn view(&self) -> Map<Seq<char>, TypeView> {
        props_view(self.spec_entries())
    }
}

/// The views of a list of types are, in order, the views of its elements.
pub proof fn lemma_types_view(s: Seq<Type>)
    ensures
        types_view(s).len() == s.len(),
        forall|i: int| 0 <= i < s.len() ==> #[trigger] types_view(s)[i] == type_view(s[i]),
    decreases s.len(),
{
    if s.len() > 0 {
        lemma_types_view(s.drop_last());
    }
}

/// The views of a list of type parameters are, in order, the views of its elements.
pub proof fn lemma_params_view(s: Seq<TypeParameter>)
    ensures
        params_view(s).len() == s.len(),
        forall|i: int| 0 <= i < s.len() ==> #[trigger] params_view(s)[i] == param_view(s[i]),
    decreases s.len(),
{
    if s.len() > 0 {
        lemma_params_view(s.drop_last());
    }
}

/// Index of the first entry named `k`.
pub open spec fn first_named(s: Seq<(String, Type)>, k: Seq<char>, i: int) -> bool {
    0 <= i < s.len() && s[i].0@ == k && forall|j: int| 0 <= j < i ==> (#[trigger] s[j]).0@ != k
}

/// A name is a key of the map of a list of properties exactly when some entry has
/// it, and its value is the view of the first such entry's type.
pub proof fn lemma_props_view(s: Seq<(String, Type)>, k: Seq<char>)
    ensures
        props_view(s).dom().contains(k) <==> exists|i: int| 0 <= i < s.len() && (#[trigger] s[i]).0@ == k,
        forall|i: int| first_named(s, k, i) ==> props_view(s)[k] == type_view(s[i].1),
    decreases s.len(),
{
    if s.len() > 0 {
        let t = s.drop_first();
        lemma_props_view(t, k);
        if exists|i: int| 0 <= i < s.len() && (#[trigger] s[i]).0@ == k {
            let i = choose|i: int| 0 <= i < s.len() && (#[trigger] s[i]).0@ == k;
            if i > 0 && s[0].0@ != k {
                assert(t[i - 1] == s[i]);
            }
        }
        if exists|i: int| 0 <= i < t.len() && (#[trigger] t[i]).0@ == k {
            let i = choose|i: int| 0 <= i < t.len() && (#[trigger] t[i]).0@ == k;
            assert(s[i + 1] == t[i]);
        }
        assert forall|i: int| first_named(s, k, i) implies props_view(s)[k] == type_view(s[i].1) by {
            if i > 0 {
                assert(s[0].0@ != k);
                assert forall|j: int| 0 <= j < i - 1 implies (#[trigger] t[j]).0@ != k by {
                    assert(t[j] == s[j + 1]);
                }
                assert(t[i - 1] == s[i]);
                assert(first_named(t, k, i - 1));
            }
        }
    }
}

// ---------------------------------------------------------------------------------
// Property maps.
// ---------------------------------------------------------------------------------

/// Whether two strings hold the same text.
pub fn text_eq(a: &String, b: &str) -> (r: bool)
    ensures
        r == (a@ == b@),
{
    let c = b.to_owned();
    *a == c
}

impl PropertyMap {
    /// The entries, in insertion order.
    pub closed spec fn spec_entries(self) -> Seq<(String, Type)> {
        self.entries@
    }

    /// An empty map.
    pub fn new() -> (r: PropertyMap)
        ensures
            r@ == Map::<Seq<char>, TypeView>::empty(),
            r.spec_entries().len() == 0,
    {
        PropertyMap { entries: Vec::new() }
    }

    /// Index of the first entry named `key`, if any.
    fn position(&self, key: &str) -> (r: Option<usize>)
        ensures
            match r {
                Some(i) => first_named(self.entries@, key@, i as int),
                None => forall|j: int| 0 <= j < self.entries@.len() ==> (#[trigger] self.entries@[j]).0@ != key@,
            },
    {
        let mut i: usize = 0;
        while i < self.entries.len()
            invariant
                i <= self.entries@.len(),
                forall|j: int| 0 <= j < i ==> (#[trigger] self.entries@[j]).0@ != key@,
            decreases self.entries@.len() - i,
        {
            if text_eq(&self.entries[i].0, key) {
                return Some(i);
            }
            i = i + 1;
        }
        None
    }

    /// The type of the property named `key`, if any.
    pub fn get(&self, key: &str) -> (r: Option<&Type>)
        ensures
            match r {
                Some(t) => self@.dom().contains(key@) && t@ == self@[key@],
                None => !self@.dom().contains(key@),
            },
    {
        proof {
            lemma_props_view(self.spec_entries(), key@);
        }
        match self.position(key) {
            Some(i) => Some(&self.entries[i].1),
            None => None,
        }
    }

    /// Whether a property is named `key`.
    pub fn contains_key(&self, key: &str) -> (r: bool)
        ensures
            r == self@.dom().contains(key@),
    {
        proof {
            lemma_props_view(self.spec_entries(), key@);
        }
        self.position(key).is_some()
    }

    /// Sets the property `key` to `value`; answers its former type, if any.
    pub fn insert(&mut self, key: String, value: Type) -> (r: Option<Type>)
        ensures
            final(self)@ == old(self)@.insert(key@, value@),
            match r {
                Some(t) => old(self)@.dom().contains(key@) && t@ == old(self)@[key@],
                None => !old(self)@.dom().contains(key@),
            },
    {
        let ghost s0 = self.entries@;
        let ghost k = key@;
        let ghost v = value@;
        proof {
            lemma_props_view(s0, k);
        }
        let ks = key.as_str();
        assert(ks@ == k);
        match self.position(ks) {
            Some(i) => {
                let (_, old_value) = self.entries.remove(i);
                self.entries.insert(i, (key, value));
                proof {
                    let s1 = self.entries@;
                    assert(s1 == s0.update(i as int, s1[i as int]));
                    lemma_props_view_update(s0, i as int, s1[i as int]);
                }
                Some(old_value)
            },
            None => {
                self.entries.push((key, value));
                proof {
                    assert(self.entries@.last().0@ == k);
                    lemma_props_view_push(s0, self.entries@.last());
                    assert(self.entries@ == s0.push(self.entries@.last()));
                }
                None
            },
        }
    }

    /// The entries, in insertion order.
    pub fn entries(&self) -> (r: &Vec<(String, Type)>)
        ensures
            r@ == self.spec_entries(),
    {
        &self.entries
    }
}

proof fn lemma_props_view_update(s: Seq<(String, Type)>, i: int, e: (String, Type))
    requires
        first_named(s, e.0@, i),
    ensures
        props_view(s.update(i, e)) == props_view(s).insert(e.0@, type_view(e.1)),
    decreases s.len(),
{
    let u = s.update(i, e);
    if i == 0 {
        assert(u.drop_first() == s.drop_first());
    } else {
        let t = s.drop_first();
        assert forall|j: int| 0 <= j < i - 1 implies (#[trigger] t[j]).0@ != e.0@ by {
            assert(t[j] == s[j + 1]);
        }
        assert(t[i - 1] == s[i]);
        lemma_props_view_update(t, i - 1, e);
        assert(u.drop_first() == t.update(i - 1, e));
        assert(s[0].0@ != e.0@);
        assert(props_view(u) =~= props_view(s).insert(e.0@, type_view(e.1)));
    }
}

proof fn lemma_props_view_push(s: Seq<(String, Type)>, e: (String, Type))
    requires
        forall|j: int| 0 <= j < s.len() ==> (#[trigger] s[j]).0@ != e.0@,
    ensures
        props_view(s.push(e)) == props_view(s).insert(e.0@, type_view(e.1)),
    decreases s.len(),
{
    let u = s.push(e);
    if s.len() == 0 {
        assert(u[0] == e);
        assert(u.drop_first() =~= s);
        assert(props_view(u) =~= props_view(s).insert(e.0@, type_view(e.1)));
    } else {
        let t = s.drop_first();
        assert forall|j: int| 0 <= j < t.len() implies (#[trigger] t[j]).0@ != e.0@ by {
            assert(t[j] == s[j + 1]);
        }
        lemma_props_view_push(t, e);
        assert(u.drop_first() == t.push(e));
        assert(s[0].0@ != e.0@);
        assert(props_view(u) =~= props_view(s).insert(e.0@, type_view(e.1)));
    }
}

// ---------------------------------------------------------------------------------
// Copies.
// ---------------------------------------------------------------------------------

proof fn lemma_types_view_eq(a: Seq<Type>, b: Seq<Type>)
    requires
        a.len() == b.len(),
        forall|i: int| 0 <= i < a.len() ==> type_view(#[trigger] a[i]) == type_view(b[i]),
    ensures
        types_view(a) == types_view(b),
{
    lemma_types_view(a);
    lemma_types_view(b);
    assert(types_view(a) =~= types_view(b));
}

proof fn lemma_params_view_eq(a: Seq<TypeParameter>, b: Seq<TypeParameter>)
    requires
        a.len() == b.len(),
        forall|i: int| 0 <= i < a.len() ==> param_view(#[trigger] a[i]) == param_view(b[i]),
    ensures
        params_view(a) == params_view(b),
{
    lemma_params_view(a);
    lemma_params_view(b);
    assert(params_view(a) =~= params_view(b));
}

proof fn lemma_props_view_eq(a: Seq<(String, Type)>, b: Seq<(String, Type)>)
    requires
        a.len() == b.len(),
        forall|i: int| 0 <= i < a.len() ==> (#[trigger] a[i]).0@ == b[i].0@ && type_view(a[i].1) == type_view(b[i].1),
    ensures
        props_view(a) == props_view(b),
    decreases a.len(),
{
    if a.len() > 0 {
        assert forall|i: int| 0 <= i < a.drop_first().len() implies (#[trigger] a.drop_first()[i]).0@ == b.drop_first()[i].0@
            && type_view(a.drop_first()[i].1) == type_view(b.drop_first()[i].1) by {
            assert(a.drop_first()[i] == a[i + 1]);
            assert(b.drop_first()[i] == b[i + 1]);
        }
        lemma_props_view_eq(a.drop_first(), b.drop_first());
        assert(a[0].0@ == b[0].0@);
    }
}

/// A copy of a type.
pub fn copy_type(t: &Type) -> (r: Type)
    ensures
        r@ == t@,
    decreases t,
{
    match t {
        Type::Primitive(p) => Type::Primitive(*p),
        Type::Array(e) => Type::Array(Box::new(copy_type(e))),
        Type::Tuple(v) => Type::Tuple(copy_types(v)),
        Type::Object(o) => {
            let properties = copy_props(&o.properties);
            let index_signature = copy_opt(&o.index_signature);
            Type::Object(ObjectType { properties, index_signature })
        },
        Type::Function { params, return_type, type_params } => {
            let params = copy_types(params);
            let return_type = Box::new(copy_type(return_type));
            let type_params = copy_params(type_params);
            Type::Function { params, return_type, type_params }
        },
        Type::Union(v) => Type::Union(copy_types(v)),
        Type::Intersection(v) => Type::Intersection(copy_types(v)),
        Type::TypeParameter(tp) => Type::TypeParameter(copy_param(tp)),
        Type::Generic { base, args } => Type::Generic { base: *base, args: copy_types(args) },
        Type::Reference { name, type_args } => Type::Reference { name: name.clone(), type_args: copy_types(type_args) },
    }
}

/// A copy of a list of types.
pub fn copy_types(v: &Vec<Type>) -> (r: Vec<Type>)
    ensures
        types_view(r@) == types_view(v@),
        r@.len() == v@.len(),
    decreases v,
{
    let mut r: Vec<Type> = Vec::new();
    let mut i: usize = 0;
    while i < v.len()
        invariant
            i <= v@.len(),
            r@.len() == i,
            forall|j: int| 0 <= j < i ==> type_view(#[trigger] r@[j]) == type_view(v@[j]),
        decreases v@.len() - i,
    {
        proof {
            assert(decreases_to!(v => v@[i as int]));
        }
        r.push(copy_type(&v[i]));
        i = i + 1;
    }
    proof {
        lemma_types_view_eq(r@, v@);
    }
    r
}

/// A copy of an optional boxed type.
pub fn copy_opt(o: &Option<Box<Type>>) -> (r: Option<Box<Type>>)
    ensures
        opt_view(r) == opt_view(*o),
    decreases o,
{
    match o {
        Some(b) => Some(Box::new(copy_type(b))),
        None => None,
    }
}

/// A copy of a type parameter.
pub fn copy_param(tp: &TypeParameter) -> (r: TypeParameter)
    ensures
        r@ == tp@,
    decreases tp,
{
    TypeParameter {
        name: tp.name.clone(),
        constraint: copy_opt(&tp.constraint),
        default: copy_opt(&tp.default),
    }
}

/// A copy of a list of type parameters.
pub fn copy_params(v: &Vec<TypeParameter>) -> (r: Vec<TypeParameter>)
    ensures
        params_view(r@) == params_view(v@),
        r@.len() == v@.len(),
    decreases v,
{
    let mut r: Vec<TypeParameter> = Vec::new();
    let mut i: usize = 0;
    while i < v.len()
        invariant
            i <= v@.len(),
            r@.len() == i,
            forall|j: int| 0 <= j < i ==> param_view(#[trigger] r@[j]) == param_view(v@[j]),
        decreases v@.len() - i,
    {
        proof {
            assert(decreases_to!(v => v@[i as int]));
        }
        r.push(copy_param(&v[i]));
        i = i + 1;
    }
    proof {
        lemma_params_view_eq(r@, v@);
    }
    r
}

/// A copy of a property map.
pub fn copy_props(pm: &PropertyMap) -> (r: PropertyMap)
    ensures
        r@ == pm@,
        r.spec_entries().len() == pm.spec_entries().len(),
    decreases pm,
{
    let mut r: Vec<(String, Type)> = Vec::new();
    let mut i: usize = 0;
    while i < pm.entries.len()
        invariant
            i <= pm.entries@.len(),
            r@.len() == i,
            forall|j: int| 0 <= j < i ==> (#[trigger] r@[j]).0@ == pm.entries@[j].0@ && type_view(r@[j].1) == type_view(pm.entries@[j].1),
        decreases pm.entries@.len() - i,
    {
        proof {
            assert(decreases_to!(pm => pm.entries));
            assert(decreases_to!(pm.entries => pm.entries@[i as int]));
        }
        let name = pm.entries[i].0.clone();
        let ty = copy_type(&pm.entries[i].1);
        r.push((name, ty));
        i = i + 1;
    }
    proof {
        lemma_props_view_eq(r@, pm.entries@);
    }
    PropertyMap { entries: r }
}

impl Clone for Type {
    fn clone(&self) -> (r: Self)
        ensures
            r@ == self@,
    {
        copy_type(self)
    }
}

impl Clone for TypeParameter {
    fn clone(&self) -> (r: Self)
        ensures
            r@ == self@,
    {
        copy_param(self)
    }
}

impl Clone for PropertyMap {
    fn clone(&self) -> (r: Self)
        ensures
            r@ == self@,
    {
        copy_props(self)
    }
}

impl Clone for ObjectType {
    fn clone(&self) -> (r: Self)
        ensures
            r.properties@ == self.properties@,
            opt_view(r.index_signature) == opt_view(self.index_signature),
    {
        ObjectType { properties: copy_props(&self.properties), index_signature: copy_opt(&self.index_signature) }
    }
}

// ---------------------------------------------------------------------------------
// Equality of types by their views.
// ---------------------------------------------------------------------------------

/// Whether two types are the same type.
pub fn type_eq(a: &Type, b: &Type) -> (r: bool)
    ensures
        r == (a@ == b@),
    decreases a,
{
    match (a, b) {
        (Type::Primitive(x), Type::Primitive(y)) => *x == *y,
        (Type::Array(x), Type::Array(y)) => type_eq(x, y),
        (Type::Tuple(x), Type::Tuple(y)) => types_eq(x, y),
        (Type::Object(x), Type::Object(y)) => {
            proof {
                assert(decreases_to!(x => x.properties));
            }
            props_eq(&x.properties, &y.properties) && opt_eq(&x.index_signature, &y.index_signature)
        },
        (
            Type::Function { params: p1, return_type: r1, type_params: t1 },
            Type::Function { params: p2, return_type: r2, type_params: t2 },
        ) => types_eq(p1, p2) && type_eq(r1, r2) && params_eq(t1, t2),
        (Type::Union(x), Type::Union(y)) => types_eq(x, y),
        (Type::Intersection(x), Type::Intersection(y)) => types_eq(x, y),
        (Type::TypeParameter(x), Type::TypeParameter(y)) => param_eq(x, y),
        (Type::Generic { base: b1, args: a1 }, Type::Generic { base: b2, args: a2 }) => *b1 == *b2 && types_eq(a1, a2),
        (Type::Reference { name: n1, type_args: a1 }, Type::Reference { name: n2, type_args: a2 }) => *n1 == *n2 && types_eq(a1, a2),
        _ => false,
    }
}

/// Whether two lists of types are the same, element by element.
pub fn types_eq(a: &Vec<Type>, b: &Vec<Type>) -> (r: bool)
    ensures
        r == (types_view(a@) == types_view(b@)),
    decreases a,
{
    proof {
        lemma_types_view(a@);
        lemma_types_view(b@);
    }
    if a.len() != b.len() {
        return false;
    }
    let mut i: usize = 0;
    while i < a.len()
        invariant
            a@.len() == b@.len(),
            i <= a@.len(),
            types_view(a@).len() == a@.len(),
            types_view(b@).len() == b@.len(),
            forall|j: int| 0 <= j < a@.len() ==> #[trigger] types_view(a@)[j] == type_view(a@[j]),
            forall|j: int| 0 <= j < b@.len() ==> #[trigger] types_view(b@)[j] == type_view(b@[j]),
            forall|j: int| 0 <= j < i ==> type_view(#[trigger] a@[j]) == type_view(b@[j]),
        decreases a@.len() - i,
    {
        proof {
            assert(decreases_to!(a => a@[i as int]));
        }
        if !type_eq(&a[i], &b[i]) {
            proof {
                assert(types_view(a@)[i as int] != types_view(b@)[i as int]);
            }
            return false;
        }
        i = i + 1;
    }
    proof {
        assert(types_view(a@) =~= types_view(b@));
    }
    true
}

/// Whether two optional boxed types are the same.
pub fn opt_eq(a: &Option<Box<Type>>, b: &Option<Box<Type>>) -> (r: bool)
    ensures
        r == (opt_view(*a) == opt_view(*b)),
    decreases a,
{
    match (a, b) {
        (Some(x), Some(y)) => type_eq(x, y),
        (None, None) => true,
        _ => false,
    }
}

/// Whether two type parameters are the same.
pub fn param_eq(a: &TypeParameter, b: &TypeParameter) -> (r: bool)
    ensures
        r == (a@ == b@),
    decreases a,
{
    a.name == b.name && opt_eq(&a.constraint, &b.constraint) && opt_eq(&a.default, &b.default)
}

/// Whether two lists of type parameters are the same, element by element.
pub fn params_eq(a: &Vec<TypeParameter>, b: &Vec<TypeParameter>) -> (r: bool)
    ensures
        r == (params_view(a@) == params_view(b@)),
    decreases a,
{
    proof {
        lemma_params_view(a@);
        lemma_params_view(b@);
    }
    if a.len() != b.len() {
        return false;
    }
    let mut i: usize = 0;
    while i < a.len()
        invariant
            a@.len() == b@.len(),
            i <= a@.len(),
            params_view(a@).len() == a@.len(),
            params_view(b@).len() == b@.len(),
            forall|j: int| 0 <= j < a@.len() ==> #[trigger] params_view(a@)[j] == param_view(a@[j]),
            forall|j: int| 0 <= j < b@.len() ==> #[trigger] params_view(b@)[j] == param_view(b@[j]),
            forall|j: int| 0 <= j < i ==> param_view(#[trigger] a@[j]) == param_view(b@[j]),
        decreases a@.len() - i,
    {
        proof {
            assert(decreases_to!(a => a@[i as int]));
        }
        if !param_eq(&a[i], &b[i]) {
            proof {
                assert(params_view(a@)[i as int] != params_view(b@)[i as int]);
            }
            return false;
        }
        i = i + 1;
    }
    proof {
        assert(params_view(a@) =~= params_view(b@));
    }
    true
}

/// Whether two property maps map the same names to the same types.
pub fn props_eq(a: &PropertyMap, b: &PropertyMap) -> (r: bool)
    ensures
        r == (a@ == b@),
    decreases a,
{
    let mut i: usize = 0;
    while i < a.entries.len()
        invariant
            i <= a.entries@.len(),
            forall|j: int|
                0 <= j < i ==> b@.dom().contains((#[trigger] a.entries@[j]).0@) && a@[a.entries@[j].0@] == b@[a.entries@[j].0@],
        decreases a.entries@.len() - i,
    {
        let key = a.entries[i].0.as_str();
        proof {
            lemma_props_view(a.entries@, key@);
            lemma_props_view(b.entries@, key@);
        }
        let pa = a.position(key);
        let pb = b.position(key);
        match (pa, pb) {
            (Some(ia), Some(ib)) => {
                proof {
                    assert(decreases_to!(a => a.entries));
                    assert(decreases_to!(a.entries => a.entries@[ia as int]));
                }
                if !type_eq(&a.entries[ia].1, &b.entries[ib].1) {
                    return false;
                }
            },
            _ => {
                proof {
                    assert(a.entries@[i as int].0@ == key@);
                }
                return false;
            },
        }
        i = i + 1;
    }
    let mut k: usize = 0;
    while k < b.entries.len()
        invariant
            k <= b.entries@.len(),
            forall|j: int| 0 <= j < k ==> a@.dom().contains((#[trigger] b.entries@[j]).0@),
        decreases b.entries@.len() - k,
    {
        let key = b.entries[k].0.as_str();
        proof {
            lemma_props_view(a.entries@, key@);
            lemma_props_view(b.entries@, key@);
        }
        if a.position(key).is_none() {
            proof {
                assert(b.entries@[k as int].0@ == key@);
            }
            return false;
        }
        k = k + 1;
    }
    proof {
        assert forall|key: Seq<char>| a@.dom().contains(key) <==> b@.dom().contains(key) by {
            lemma_props_view(a.entries@, key);
            lemma_props_view(b.entries@, key);
            if a@.dom().contains(key) {
                let j = choose|j: int| 0 <= j < a.entries@.len() && (#[trigger] a.entries@[j]).0@ == key;
                assert(b@.dom().contains(a.entries@[j].0@));
            }
            if b@.dom().contains(key) {
                let j = choose|j: int| 0 <= j < b.entries@.len() && (#[trigger] b.entries@[j]).0@ == key;
                assert(a@.dom().contains(b.entries@[j].0@));
            }
        }
        assert forall|key: Seq<char>| a@.dom().contains(key) implies a@[key] == b@[key] by {
            lemma_props_view(a.entries@, key);
            let j = choose|j: int| 0 <= j < a.entries@.len() && (#[trigger] a.entries@[j]).0@ == key;
            assert(a@[a.entries@[j].0@] == b@[a.entries@[j].0@]);
        }
        assert(a@ =~= b@);
    }
    true
}

/// Two types are equal where they denote the same type: object properties are
/// compared by name, whatever order they were added in.
impl PartialEq for Type {
    fn eq(&self, other: &Self) -> (r: bool) {
        type_eq(self, other)
    }
}

impl PartialEqSpecImpl for Type {
    open spec fn obeys_eq_spec() -> bool {
        true
    }

    open spec fn eq_spec(&self, other: &Self) -> bool {
        self@ == other@
    }
}

impl PartialEq for TypeParameter {
    fn eq(&self, other: &Self) -> (r: bool) {
        param_eq(self, other)
    }
}

impl PartialEqSpecImpl for TypeParameter {
    open spec fn obeys_eq_spec() -> bool {
        true
    }

    open spec fn eq_spec(&self, other: &Self) -> bool {
        self@ == other@
    }
}

/// Equal property maps may list their properties in different orders, so a map adds
/// nothing to a hash: the types around it (their kinds, index signatures and other
/// parts) are what tells object types apart in a hash table.
impl core::hash::Hash for PropertyMap {
    fn hash<H: core::hash::Hasher>(&self, _state: &mut H) {
    }
}

/// Two property maps are equal where they map the same names to the same types.
impl PartialEq for PropertyMap {
    fn eq(&self, other: &Self) -> (r: bool) {
        props_eq(self, other)
    }
}

impl PartialEqSpecImpl for PropertyMap {
    open spec fn obeys_eq_spec() -> bool {
        true
    }

    open spec fn eq_spec(&self, other: &Self) -> bool {
        self@ == other@
    }
}

impl PartialEq for ObjectType {
    fn eq(&self, other: &Self) -> (r: bool) {
        props_eq(&self.properties, &other.properties) && opt_eq(&self.index_signature, &other.index_signature)
    }
}

impl PartialEqSpecImpl for ObjectType {
    open spec fn obeys_eq_spec() -> bool {
        true
    }

    open spec fn eq_spec(&self, other: &Self) -> bool {
        self.properties@ == other.properties@ && opt_view(self.index_signature) == opt_view(other.index_signature)
    }
}

// ---------------------------------------------------------------------------------
// Sizes.
// ---------------------------------------------------------------------------------

/// Number of type nodes in a type.
pub open spec fn type_size(t: Type) -> nat
    decreases t,
{
    match t {
        Type::Primitive(_) => 1,
        Type::Array(e) => 1 + type_size(*e),
        Type::Tuple(v) => 1 + types_size(v@),
        Type::Object(o) => 1 + props_size(o.properties.spec_entries()) + opt_size(o.index_signature),
        Type::Function { params, return_type, type_params } => 1 + types_size(params@) + type_size(*return_type)
            + params_size(type_params@),
        Type::Union(v) => 1 + types_size(v@),
        Type::Intersection(v) => 1 + types_size(v@),
        Type::TypeParameter(tp) => 1 + param_size(tp),
        Type::Generic { base, args } => 1 + types_size(args@),
        Type::Reference { name, type_args } => 1 + types_size(type_args@),
    }
}

/// Total size of a list of types.
pub open spec fn types_size(s: Seq<Type>) -> nat
    decreases s,
{
    if s.len() == 0 {
        0
    } else {
        types_size(s.drop_last()) + type_size(s.last())
    }
}

/// Total size of a list of named properties.
pub open spec fn props_size(s: Seq<(String, Type)>) -> nat
    decreases s,
{
    if s.len() == 0 {
        0
    } else {
        props_size(s.drop_last()) + type_size(s.last().1)
    }
}

/// Size of an optional boxed type.
pub open spec fn opt_size(o: Option<Box<Type>>) -> nat
    decreases o,
{
    match o {
        Some(b) => type_size(*b),
        None => 0,
    }
}

/// Size of a type parameter's constraint and default.
pub open spec fn param_size(tp: TypeParameter) -> nat
    decreases tp,
{
    opt_size(tp.constraint) + opt_size(tp.default)
}

/// Total size of a list of type parameters.
pub open spec fn params_size(s: Seq<TypeParameter>) -> nat
    decreases s,
{
    if s.len() == 0 {
        0
    } else {
        params_size(s.drop_last()) + param_size(s.last())
    }
}

/// Each element of a list is no larger than the list.
pub proof fn lemma_types_size(s: Seq<Type>)
    ensures
        forall|i: int| 0 <= i < s.len() ==> type_size(#[trigger] s[i]) <= types_size(s),
    decreases s.len(),
{
    if s.len() > 0 {
        lemma_types_size(s.drop_last());
        assert forall|i: int| 0 <= i < s.len() implies type_size(#[trigger] s[i]) <= types_size(s) by {
            if i < s.len() - 1 {
                assert(s.drop_last()[i] == s[i]);
            }
        }
    }
}

/// Each property's type is no larger than the list of properties.
pub proof fn lemma_props_size(s: Seq<(String, Type)>)
    ensures
        forall|i: int| 0 <= i < s.len() ==> type_size((#[trigger] s[i]).1) <= props_size(s),
    decreases s.len(),
{
    if s.len() > 0 {
        lemma_props_size(s.drop_last());
        assert forall|i: int| 0 <= i < s.len() implies type_size((#[trigger] s[i]).1) <= props_size(s) by {
            if i < s.len() - 1 {
                assert(s.drop_last()[i] == s[i]);
            }
        }
    }
}

// ---------------------------------------------------------------------------------
// Property lookup by entries.
// ---------------------------------------------------------------------------------

/// The type of the first entry named `k`, if any.
pub open spec fn prop_lookup(s: Seq<(String, Type)>, k: Seq<char>) -> Option<Type>
    decreases s.len(),
{
    if s.len() == 0 {
        None
    } else if s[0].0@ == k {
        Some(s[0].1)
    } else {
        prop_lookup(s.drop_first(), k)
    }
}

/// A found property is one of the entries, so no larger than all of them, and it is
/// what the map gives for its name.
pub proof fn lemma_prop_lookup(s: Seq<(String, Type)>, k: Seq<char>)
    ensures
        prop_lookup(s, k) matches Some(t) ==> type_size(t) <= props_size(s) && props_view(s).dom().contains(k)
            && props_view(s)[k] == type_view(t),
        prop_lookup(s, k) is None ==> !props_view(s).dom().contains(k),
    decreases s.len(),
{
    lemma_props_size(s);
    lemma_props_view(s, k);
    if s.len() > 0 {
        let t = s.drop_first();
        lemma_prop_lookup(t, k);
        lemma_props_size(t);
        if s[0].0@ != k {
            if prop_lookup(t, k) is Some {
                assert(props_size(t) <= props_size(s)) by {
                    lemma_props_size_drop_first(s);
                }
            }
            if exists|i: int| 0 <= i < s.len() && (#[trigger] s[i]).0@ == k {
                let i = choose|i: int| 0 <= i < s.len() && (#[trigger] s[i]).0@ == k;
                assert(t[i - 1] == s[i]);
                lemma_props_view(t, k);
            }
        } else {
            assert(first_named(s, k, 0));
        }
    }
}

proof fn lemma_props_size_drop_first(s: Seq<(String, Type)>)
    requires
        s.len() > 0,
    ensures
        props_size(s.drop_first()) + type_size(s[0].1) == props_size(s),
    decreases s.len(),
{
    if s.len() > 1 {
        lemma_props_size_drop_first(s.drop_last());
        assert(s.drop_last().drop_first() =~= s.drop_first().drop_last());
        assert(s.drop_first().last() == s.last());
        assert(s.drop_last()[0] == s[0]);
        assert(props_size(s) == props_size(s.drop_last()) + type_size(s.last().1));
        assert(props_size(s.drop_first()) == props_size(s.drop_first().drop_last()) + type_size(s.drop_first().last().1));
    } else {
        assert(s.drop_first().len() == 0);
        assert(s.drop_last().len() == 0);
        assert(s.last() == s[0]);
        assert(props_size(s.drop_first()) == 0);
        assert(props_size(s.drop_last()) == 0);
        assert(props_size(s) == props_size(s.drop_last()) + type_size(s.last().1));
    }
}

impl PropertyMap {
    /// The first entry's type for `key`, if any, by reference.
    pub fn lookup(&self, key: &str) -> (r: Option<&Type>)
        ensures
            r == match prop_lookup(self.spec_entries(), key@) {
                Some(t) => Some(&t),
                None => None,
            },
    {
        let mut i: usize = 0;
        proof {
            assert(self.entries@.subrange(0, self.entries@.len() as int) =~= self.entries@);
        }
        while i < self.entries.len()
            invariant
                i <= self.entries@.len(),
                prop_lookup(self.entries@, key@) == prop_lookup(self.entries@.subrange(i as int, self.entries@.len() as int), key@),
            decreases self.entries@.len() - i,
        {
            let ghost rest = self.entries@.subrange(i as int, self.entries@.len() as int);
            proof {
                assert(rest.drop_first() =~= self.entries@.subrange(i + 1, self.entries@.len() as int));
                assert(rest[0] == self.entries@[i as int]);
            }
            if text_eq(&self.entries[i].0, key) {
                return Some(&self.entries[i].1);
            }
            i = i + 1;
        }
        proof {
            assert(self.entries@.subrange(i as int, self.entries@.len() as int).len() == 0);
        }
        None
    }
}

} // verus!
