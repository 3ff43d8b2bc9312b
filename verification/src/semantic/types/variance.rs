//! Variance of the type parameters of generic types.

use vstd::prelude::*;
use fxhash::FxHashMap;

verus! {

/// Variance of a generic type parameter.
#[derive(Debug, Clone, Copy, PartialEq, Eq, Hash, Structural)]
pub enum Variance {
    /// Covariant: `T <: U` implies `Generic<T> <: Generic<U>`
    Covariant,
    /// Contravariant: `T <: U` implies `Generic<U> <: Generic<T>`
    Contravariant,
    /// Invariant: Both must be equal for subtyping
    Invariant,
    /// Bivariant: Allows subtyping in both directions
    Bivariant,
}

/// Variances by generic type name.
pub type VarianceMap = FxHashMap<String, Vec<Variance>>;

/// What a variance map holds.
pub uninterp spec fn variance_entries(m: VarianceMap) -> Map<Seq<char>, Vec<Variance>>;

/// An empty map: `FxHashMap::default`.
#[verifier::external_body]
fn variance_map_new() -> (r: VarianceMap)
    ensures
        variance_entries(r).dom() == Set::<Seq<char>>::empty(),
{
    FxHashMap::default()
}

/// `HashMap::insert`.
#[verifier::external_body]
fn variance_map_insert(m: &mut VarianceMap, name: String, v: Vec<Variance>)
    ensures
        variance_entries(*final(m)) == variance_entries(*old(m)).insert(name@, v),
{
    m.insert(name, v);
}

/// `HashMap::get`.
#[verifier::external_body]
fn variance_map_get<'a>(m: &'a VarianceMap, name: &str) -> (r: Option<&'a Vec<Variance>>)
    ensures
        match r {
            Some(v) => variance_entries(*m).dom().contains(name@) && *v == variance_entries(*m)[name@],
            None => !variance_entries(*m).dom().contains(name@),
        },
{
    m.get(name)
}

/// The variances of the built-in generic types of TypeScript: `Array`,
/// `ReadonlyArray`, `Promise`, `Set`, `Readonly`, `Partial` and `Required` are
/// covariant; `Map` and `Record` are covariant in both parameters; `Pick` and `Omit`
/// are covariant in their type and invariant in their keys.
pub open spec fn builtin_variances() -> Map<Seq<char>, Seq<Variance>> {
    map![
        "Array"@ => seq![Variance::Covariant],
        "ReadonlyArray"@ => seq![Variance::Covariant],
        "Promise"@ => seq![Variance::Covariant],
        "Map"@ => seq![Variance::Covariant, Variance::Covariant],
        "Set"@ => seq![Variance::Covariant],
        "Readonly"@ => seq![Variance::Covariant],
        "Record"@ => seq![Variance::Covariant, Variance::Covariant],
        "Partial"@ => seq![Variance::Covariant],
        "Required"@ => seq![Variance::Covariant],
        "Pick"@ => seq![Variance::Covariant, Variance::Invariant],
        "Omit"@ => seq![Variance::Covariant, Variance::Invariant]
    ]
}

/// Every built-in generic type is covariant in each of its parameters but the key
/// parameter of `Pick` and `Omit`: reading a value out of an array, a read-only
/// array, a promise, a set, a map, a record or a mapped type gives back a value of
/// the parameter's type, so a subtype argument gives a subtype.
pub proof fn lemma_builtins_covariant(name: Seq<char>, i: int)
    requires
        builtin_variances().dom().contains(name),
        0 <= i < builtin_variances()[name].len(),
        !((name == "Pick"@ || name == "Omit"@) && i == 1),
    ensures
        builtin_variances()[name][i] == Variance::Covariant,
{
    reveal_strlit("Array");
    reveal_strlit("ReadonlyArray");
    reveal_strlit("Promise");
    reveal_strlit("Map");
    reveal_strlit("Set");
    reveal_strlit("Readonly");
    reveal_strlit("Record");
    reveal_strlit("Partial");
    reveal_strlit("Required");
    reveal_strlit("Pick");
    reveal_strlit("Omit");
}

/// The key parameter of `Pick` and `Omit` is invariant: the keys picked or omitted
/// must be exactly those named.
pub proof fn lemma_builtin_keys_invariant(name: Seq<char>)
    requires
        name == "Pick"@ || name == "Omit"@,
    ensures
        builtin_variances().dom().contains(name),
        builtin_variances()[name].len() == 2,
        builtin_variances()[name][1] == Variance::Invariant,
{
    reveal_strlit("Array");
    reveal_strlit("ReadonlyArray");
    reveal_strlit("Promise");
    reveal_strlit("Map");
    reveal_strlit("Set");
    reveal_strlit("Readonly");
    reveal_strlit("Record");
    reveal_strlit("Partial");
    reveal_strlit("Required");
    reveal_strlit("Pick");
    reveal_strlit("Omit");
}

/// The list holding `a` alone.
fn single(a: Variance) -> (r: Vec<Variance>)
    ensures
        r@ == seq![a],
{
    let mut v = Vec::new();
    v.push(a);
    proof {
        assert(v@ =~= seq![a]);
    }
    v
}

/// The list holding `a` and then `b`.
fn pair(a: Variance, b: Variance) -> (r: Vec<Variance>)
    ensures
        r@ == seq![a, b],
{
    let mut v = Vec::new();
    v.push(a);
    v.push(b);
    proof {
        assert(v@ =~= seq![a, b]);
    }
    v
}

/// Variances by generic type name.
pub struct VarianceRegistry {
    /// Map from type name to variance profile
    variances: VarianceMap,
}

impl VarianceRegistry {
    /// The variances held, by name.
    pub closed spec fn spec_variances(self) -> Map<Seq<char>, Seq<Variance>> {
        variance_entries(self.variances).map_values(|v: Vec<Variance>| v@)
    }

    /// A registry holding the built-in generic types.
    pub fn new() -> (r: Self)
        ensures
            r.spec_variances() == builtin_variances(),
    {
        let mut registry = VarianceRegistry { variances: variance_map_new() };
        registry.populate_builtins();
        registry
    }

    /// Sets the variances of the generic type `name`.
    pub fn register(&mut self, name: String, variances: Vec<Variance>)
        ensures
            final(self).spec_variances() == old(self).spec_variances().insert(name@, variances@),
    {
        let ghost n = name@;
        let ghost v = variances@;
        variance_map_insert(&mut self.variances, name, variances);
        proof {
            assert(self.spec_variances() =~= old(self).spec_variances().insert(n, v));
        }
    }

    /// The variances of the generic type `name`, if registered.
    pub fn get(&self, name: &str) -> (r: Option<&[Variance]>)
        ensures
            match r {
                Some(v) => self.spec_variances().dom().contains(name@) && v@ == self.spec_variances()[name@],
                None => !self.spec_variances().dom().contains(name@),
            },
    {
        match variance_map_get(&self.variances, name) {
            Some(v) => Some(v.as_slice()),
            None => None,
        }
    }

    /// Registers the built-in generic types, replacing what was registered under
    /// their names.
    fn populate_builtins(&mut self)
        ensures
            final(self).spec_variances() == old(self).spec_variances().union_prefer_right(builtin_variances()),
    {
        proof {
            reveal_strlit("Array");
            reveal_strlit("ReadonlyArray");
            reveal_strlit("Promise");
            reveal_strlit("Map");
            reveal_strlit("Set");
            reveal_strlit("Readonly");
            reveal_strlit("Record");
            reveal_strlit("Partial");
            reveal_strlit("Required");
            reveal_strlit("Pick");
            reveal_strlit("Omit");
        }
        self.register("Array".to_owned(), single(Variance::Covariant));
        self.register("ReadonlyArray".to_owned(), single(Variance::Covariant));
        self.register("Promise".to_owned(), single(Variance::Covariant));
        self.register("Map".to_owned(), pair(Variance::Covariant, Variance::Covariant));
        self.register("Set".to_owned(), single(Variance::Covariant));
        self.register("Readonly".to_owned(), single(Variance::Covariant));
        self.register("Record".to_owned(), pair(Variance::Covariant, Variance::Covariant));
        self.register("Partial".to_owned(), single(Variance::Covariant));
        self.register("Required".to_owned(), single(Variance::Covariant));
        self.register("Pick".to_owned(), pair(Variance::Covariant, Variance::Invariant));
        self.register("Omit".to_owned(), pair(Variance::Covariant, Variance::Invariant));
        proof {
            assert(self.spec_variances() =~= old(self).spec_variances().union_prefer_right(builtin_variances()));
        }
    }
}

impl Default for VarianceRegistry {
    fn default() -> (r: Self)
        ensures
            r.spec_variances() == builtin_variances(),
    {
        VarianceRegistry::new()
    }
}

} // verus!
