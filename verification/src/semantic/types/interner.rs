//! Interning of types: each distinct type is stored once and named by a `TypeId`.

use vstd::prelude::*;
use crate::semantic::types::representation::{
    copy_type, type_eq, type_view, PrimitiveType, Type, TypeId, TypeView,
};

verus! {

/// The stored types hold no two equal types and are few enough to be named by ids.
pub open spec fn interned(types: Seq<Type>) -> bool {
    &&& types.len() <= u32::MAX
    &&& forall|i: int, j: int| 0 <= i < j < types.len() ==> type_view(#[trigger] types[i]) != type_view(#[trigger] types[j])
}

/// Whether `id` names a stored type.
pub open spec fn valid_id(types: Seq<Type>, id: TypeId) -> bool {
    id.spec_id() < types.len()
}

/// The stored type named `id`.
pub open spec fn type_at(types: Seq<Type>, id: TypeId) -> Type {
    types[id.spec_id() as int]
}

/// `t1` keeps every type of `t0` under its id.
pub open spec fn extends(t1: Seq<Type>, t0: Seq<Type>) -> bool {
    t1.len() >= t0.len() && forall|i: int| 0 <= i < t0.len() ==> #[trigger] t1[i] == t0[i]
}

/// Ids in strictly increasing order.
pub open spec fn increasing(ids: Seq<TypeId>) -> bool {
    forall|i: int, j: int| 0 <= i < j < ids.len() ==> (#[trigger] ids[i]).spec_id() < (#[trigger] ids[j]).spec_id()
}

/// Stores each distinct type once and names it by its position.
#[derive(Debug)]
pub struct TypeInterner {
    types: Vec<Type>,
}

impl TypeInterner {
    #[verifier::type_invariant]
    spec fn interner_invariant(self) -> bool {
        interned(self.types@)
    }

    /// The stored types, by id.
    pub closed spec fn spec_types(self) -> Seq<Type> {
        self.types@
    }

    /// The stored types never repeat and their count fits an id.
    pub fn lemma_interned(&self)
        ensures
            interned(self.spec_types()),
    {
        proof {
            use_type_invariant(self);
        }
    }

    /// An empty interner.
    pub fn new() -> (r: TypeInterner)
        ensures
            r.spec_types().len() == 0,
    {
        TypeInterner { types: Vec::new() }
    }

    /// The id of the stored type equal to `ty`, if any.
    fn find(&self, ty: &Type) -> (r: Option<TypeId>)
        ensures
            match r {
                Some(id) => valid_id(self.spec_types(), id) && type_at(self.spec_types(), id)@ == ty@,
                None => forall|i: int| 0 <= i < self.spec_types().len() ==> (#[trigger] self.spec_types()[i])@ != ty@,
            },
    {
        proof {
            use_type_invariant(self);
        }
        let mut i: usize = 0;
        while i < self.types.len()
            invariant
                i <= self.types@.len(),
                self.types@.len() <= u32::MAX,
                forall|j: int| 0 <= j < i ==> (#[trigger] self.types@[j])@ != ty@,
            decreases self.types@.len() - i,
        {
            if type_eq(&self.types[i], ty) {
                let id = TypeId::new(i as u32);
                return Some(id);
            }
            i = i + 1;
        }
        None
    }

    /// The id of `ty`: that of the stored equal type, or else a new id for `ty`, the
    /// next unused one.
    pub fn intern(&mut self, ty: Type) -> (r: TypeId)
        requires
            old(self).spec_types().len() < u32::MAX,
        ensures
            valid_id(final(self).spec_types(), r),
            type_at(final(self).spec_types(), r)@ == ty@,
            (exists|i: int| 0 <= i < old(self).spec_types().len() && (#[trigger] old(self).spec_types()[i])@ == ty@) ==> {
                &&& final(self).spec_types() == old(self).spec_types()
            },
            !(exists|i: int| 0 <= i < old(self).spec_types().len() && (#[trigger] old(self).spec_types()[i])@ == ty@) ==> {
                &&& final(self).spec_types() == old(self).spec_types().push(ty)
                &&& r.spec_id() == old(self).spec_types().len()
            },
    {
        proof {
            use_type_invariant(&*self);
        }
        match self.find(&ty) {
            Some(id) => id,
            None => {
                let id = TypeId::new(self.types.len() as u32);
                let ghost t0 = self.types@;
                let mut types: Vec<Type> = Vec::new();
                std::mem::swap(&mut types, &mut self.types);
                types.push(ty);
                proof {
                    assert forall|i: int, j: int| 0 <= i < j < types@.len() implies type_view(
                        #[trigger] types@[i],
                    ) != type_view(#[trigger] types@[j]) by {
                        if j == t0.len() {
                            assert(types@[i] == t0[i]);
                        } else {
                            assert(types@[i] == t0[i] && types@[j] == t0[j]);
                        }
                    }
                }
                self.types = types;
                id
            },
        }
    }

    /// Number of stored types.
    pub fn len(&self) -> (r: usize)
        ensures
            r == self.spec_types().len(),
    {
        self.types.len()
    }

    /// Whether no further type can be given an id.
    pub fn is_full(&self) -> (r: bool)
        ensures
            r == (self.spec_types().len() >= u32::MAX),
    {
        self.types.len() >= 0xffff_ffffusize
    }

    /// The stored type named `id`, if any.
    pub fn get(&self, id: TypeId) -> (r: Option<&Type>)
        ensures
            valid_id(self.spec_types(), id) ==> r == Some(&type_at(self.spec_types(), id)),
            !valid_id(self.spec_types(), id) ==> r is None,
    {
        let i = id.into_u32() as usize;
        if i < self.types.len() {
            Some(&self.types[i])
        } else {
            None
        }
    }

    /// An interner storing equal types under the same ids.
    pub fn copy(&self) -> (r: TypeInterner)
        ensures
            r.spec_types().len() == self.spec_types().len(),
            forall|i: int| 0 <= i < self.spec_types().len() ==> type_view(#[trigger] r.spec_types()[i]) == type_view(self.spec_types()[i]),
    {
        proof {
            use_type_invariant(self);
        }
        let mut types: Vec<Type> = Vec::new();
        let mut i: usize = 0;
        while i < self.types.len()
            invariant
                i <= self.types@.len(),
                interned(self.types@),
                types@.len() == i,
                forall|k: int| 0 <= k < i ==> type_view(#[trigger] types@[k]) == type_view(self.types@[k]),
            decreases self.types@.len() - i,
        {
            types.push(copy_type(&self.types[i]));
            i = i + 1;
        }
        proof {
            assert forall|a: int, b: int| 0 <= a < b < types@.len() implies type_view(#[trigger] types@[a]) != type_view(#[trigger] types@[b]) by {
                assert(type_view(self.types@[a]) != type_view(self.types@[b]));
            }
        }
        TypeInterner { types }
    }

    /// The id of the primitive type `prim`.
    pub fn get_or_intern_primitive(&mut self, prim: PrimitiveType) -> (r: TypeId)
        requires
            old(self).spec_types().len() < u32::MAX,
        ensures
            valid_id(final(self).spec_types(), r),
            type_at(final(self).spec_types(), r)@ == TypeView::Primitive(prim),
            old(self).spec_types().len() <= final(self).spec_types().len() <= old(self).spec_types().len() + 1,
            final(self).spec_types().take(old(self).spec_types().len() as int) == old(self).spec_types(),
    {
        let r = self.intern(Type::Primitive(prim));
        proof {
            assert(old(self).spec_types().push(Type::Primitive(prim)).take(old(self).spec_types().len() as int)
                =~= old(self).spec_types());
            assert(old(self).spec_types().take(old(self).spec_types().len() as int) =~= old(self).spec_types());
        }
        r
    }

    /// The id of the array type whose elements have the stored type `element`.
    pub fn get_or_intern_array(&mut self, element: TypeId) -> (r: TypeId)
        requires
            valid_id(old(self).spec_types(), element),
            old(self).spec_types().len() < u32::MAX,
        ensures
            valid_id(final(self).spec_types(), r),
            type_at(final(self).spec_types(), r)@ == TypeView::Array(Box::new(type_at(old(self).spec_types(), element)@)),
            old(self).spec_types().len() <= final(self).spec_types().len() <= old(self).spec_types().len() + 1,
            final(self).spec_types().take(old(self).spec_types().len() as int) == old(self).spec_types(),
    {
        let element_ty = copy_type(self.get(element).unwrap());
        let ty = Type::Array(Box::new(element_ty));
        let r = self.intern(ty);
        proof {
            assert(old(self).spec_types().push(ty).take(old(self).spec_types().len() as int) =~= old(self).spec_types());
            assert(old(self).spec_types().take(old(self).spec_types().len() as int) =~= old(self).spec_types());
        }
        r
    }

    /// The id of the union of the stored types `types`: repeated ids count once and
    /// members come in increasing id order; no member gives `never` and a single
    /// member gives itself.
    pub fn get_or_intern_union(&mut self, types: Vec<TypeId>) -> (r: TypeId)
        requires
            old(self).spec_types().len() < u32::MAX,
            (forall|i: int, j: int| 0 <= i < types@.len() && 0 <= j < types@.len() ==> types@[i] == types@[j])
                || (forall|i: int| 0 <= i < types@.len() ==> valid_id(old(self).spec_types(), #[trigger] types@[i])),
        ensures
            old(self).spec_types().len() <= final(self).spec_types().len() <= old(self).spec_types().len() + 1,
            final(self).spec_types().take(old(self).spec_types().len() as int) == old(self).spec_types(),
            types@.len() == 0 ==> valid_id(final(self).spec_types(), r)
                && type_at(final(self).spec_types(), r)@ == TypeView::Primitive(PrimitiveType::Never),
            types@.len() > 0 && (forall|i: int| 0 <= i < types@.len() ==> #[trigger] types@[i] == types@[0]) ==> r == types@[0],
            !(forall|i: int| 0 <= i < types@.len() ==> #[trigger] types@[i] == types@[0]) ==> {
                &&& valid_id(final(self).spec_types(), r)
                &&& exists|ids: Seq<TypeId>|
                    #![trigger ids.to_set()]
                    {
                        &&& increasing(ids)
                        &&& ids.to_set() == types@.to_set()
                        &&& type_at(final(self).spec_types(), r)@ == TypeView::Union(
                            ids.map_values(|id: TypeId| type_at(old(self).spec_types(), id)@),
                        )
                    }
            },
    {
        let ids = sorted_unique(&types);
        if ids.len() == 0 {
            proof {
                assert(types@.len() == 0) by {
                    if types@.len() > 0 {
                        assert(types@.to_set().contains(types@[0]));
                        assert(ids@.to_set().contains(types@[0]));
                    }
                }
            }
            return self.get_or_intern_primitive(PrimitiveType::Never);
        }
        if ids.len() == 1 {
            let only = ids[0];
            proof {
                assert forall|i: int| 0 <= i < types@.len() implies #[trigger] types@[i] == types@[0] by {
                    assert(types@.to_set().contains(types@[i]));
                    assert(ids@.to_set().contains(types@[i]));
                    assert(ids@.to_set().contains(types@[0]));
                    assert(types@.to_set().contains(types@[0]));
                }
                assert(types@.len() > 0) by {
                    assert(ids@.to_set().contains(ids@[0]));
                }
                assert(ids@.to_set().contains(ids@[0]));
                assert(types@.contains(ids@[0]));
            }
            return only;
        }
        let ghost t0 = self.spec_types();
        proof {
            assert(!(forall|i: int, j: int| 0 <= i < types@.len() && 0 <= j < types@.len() ==> types@[i] == types@[j])) by {
                assert(ids@.to_set().contains(ids@[0]) && ids@.to_set().contains(ids@[1]));
                assert(types@.contains(ids@[0]) && types@.contains(ids@[1]));
                assert(ids@[0].spec_id() < ids@[1].spec_id());
            }
        }
        let mut members: Vec<Type> = Vec::new();
        let mut k: usize = 0;
        while k < ids.len()
            invariant
                k <= ids@.len(),
                t0 == self.spec_types(),
                ids@.to_set() == types@.to_set(),
                forall|i: int| 0 <= i < types@.len() ==> valid_id(t0, #[trigger] types@[i]),
                members@.len() == k,
                forall|j: int| 0 <= j < k ==> (#[trigger] members@[j])@ == type_at(t0, ids@[j])@,
            decreases ids@.len() - k,
        {
            proof {
                assert(ids@.to_set().contains(ids@[k as int]));
                assert(types@.contains(ids@[k as int]));
            }
            let t = copy_type(self.get(ids[k]).unwrap());
            members.push(t);
            k = k + 1;
        }
        let ty = Type::Union(members);
        let r = self.intern(ty);
        proof {
            crate::semantic::types::representation::lemma_types_view(members@);
            let target = ids@.map_values(|id: TypeId| type_at(t0, id)@);
            assert(crate::semantic::types::representation::types_view(members@) =~= target);
            assert(type_at(self.spec_types(), r)@ == TypeView::Union(target));
            assert(t0.push(ty).take(t0.len() as int) =~= t0);
            assert(t0.take(t0.len() as int) =~= t0);
            assert(!(forall|i: int| 0 <= i < types@.len() ==> #[trigger] types@[i] == types@[0])) by {
                assert(ids@.to_set().contains(ids@[0]) && ids@.to_set().contains(ids@[1]));
                assert(types@.contains(ids@[0]) && types@.contains(ids@[1]));
            }
        }
        r
    }
}

impl Default for TypeInterner {
    fn default() -> (r: Self)
        ensures
            r.spec_types().len() == 0,
    {
        TypeInterner::new()
    }
}

/// The distinct ids of `ids`, in increasing order.
fn sorted_unique(ids: &Vec<TypeId>) -> (r: Vec<TypeId>)
    ensures
        increasing(r@),
        r@.to_set() == ids@.to_set(),
{
    let mut out: Vec<TypeId> = Vec::new();
    let mut i: usize = 0;
    while i < ids.len()
        invariant
            i <= ids@.len(),
            increasing(out@),
            out@.to_set() == ids@.subrange(0, i as int).to_set(),
        decreases ids@.len() - i,
    {
        let id = ids[i];
        let n = id.into_u32();
        let mut p: usize = 0;
        while p < out.len() && out[p].into_u32() < n
            invariant
                p <= out@.len(),
                forall|j: int| 0 <= j < p ==> (#[trigger] out@[j]).spec_id() < n,
            decreases out@.len() - p,
        {
            p = p + 1;
        }
        let ghost o0 = out@;
        if p < out.len() && out[p].into_u32() == n {
            proof {
                TypeId::lemma_eq(out@[p as int], id);
            }
        } else {
            out.insert(p, id);
            proof {
                assert forall|a: int, b: int| 0 <= a < b < out@.len() implies (#[trigger] out@[a]).spec_id() < (#[trigger] out@[b]).spec_id() by {
                    if b < p {
                        assert(out@[a] == o0[a] && out@[b] == o0[b]);
                    } else if b == p {
                        assert(out@[a] == o0[a]);
                    } else if a == p {
                        assert(out@[b] == o0[b - 1]);
                        assert(o0[p as int].spec_id() >= n);
                        if b - 1 > p {
                            assert(o0[p as int].spec_id() < o0[b - 1].spec_id());
                        }
                    } else if a < p {
                        assert(out@[a] == o0[a] && out@[b] == o0[b - 1]);
                    } else {
                        assert(out@[a] == o0[a - 1] && out@[b] == o0[b - 1]);
                    }
                }
            }
        }
        proof {
            let s1 = ids@.subrange(0, i + 1);
            let s0 = ids@.subrange(0, i as int);
            assert(s1 == s0.push(id));
            assert forall|x: TypeId| out@.to_set().contains(x) <==> s1.to_set().contains(x) by {
                if out@.contains(x) && x != id {
                    let a = choose|a: int| 0 <= a < out@.len() && out@[a] == x;
                    if a < p || o0 == out@ {
                        assert(o0[a] == x);
                    } else {
                        assert(a != p);
                        assert(o0[a - 1] == x);
                    }
                    assert(o0.contains(x));
                    assert(o0.to_set().contains(x));
                    assert(s0.to_set().contains(x));
                    assert(s0.contains(x));
                    let c = choose|c: int| 0 <= c < s0.len() && s0[c] == x;
                    assert(s1[c] == x);
                }
                if s1.contains(x) && x != id {
                    let c = choose|c: int| 0 <= c < s1.len() && s1[c] == x;
                    assert(s0[c] == x);
                    assert(s0.to_set().contains(x));
                    assert(o0.contains(x));
                    let a = choose|a: int| 0 <= a < o0.len() && o0[a] == x;
                    if o0 == out@ {
                        assert(out@[a] == x);
                    } else if a < p {
                        assert(out@[a] == x);
                    } else {
                        assert(out@[a + 1] == x);
                    }
                }
                if x == id {
                    assert(s1[i as int] == x);
                    if o0 == out@ {
                        assert(out@[p as int] == x);
                    } else {
                        assert(out@[p as int] == x);
                    }
                }
            }
            assert(out@.to_set() =~= s1.to_set());
        }
        i = i + 1;
    }
    proof {
        assert(ids@.subrange(0, ids@.len() as int) =~= ids@);
    }
    out
}

/// Interning deduplicates: in an interner, two ids naming equal types are the same
/// id, so interning a type that is already stored answers the id it has.
pub proof fn lemma_equal_types_same_id(types: Seq<Type>, a: TypeId, b: TypeId)
    requires
        interned(types),
        valid_id(types, a),
        valid_id(types, b),
        type_at(types, a)@ == type_at(types, b)@,
    ensures
        a == b,
{
    TypeId::lemma_eq(a, b);
    if a.spec_id() < b.spec_id() {
        assert(type_view(types[a.spec_id() as int]) != type_view(types[b.spec_id() as int]));
    } else if b.spec_id() < a.spec_id() {
        assert(type_view(types[b.spec_id() as int]) != type_view(types[a.spec_id() as int]));
    }
}

/// Interning a type twice gives the same id: the id `r1` that a first call gave
/// for a type, and the id `r2` that a later call gave for a type of the same view,
/// in an interner that has since only grown, are one id.
pub proof fn lemma_intern_twice(t1: Seq<Type>, t2: Seq<Type>, r1: TypeId, r2: TypeId)
    requires
        interned(t2),
        extends(t2, t1),
        valid_id(t1, r1),
        valid_id(t2, r2),
        type_at(t2, r2)@ == type_at(t1, r1)@,
    ensures
        r1 == r2,
{
    assert(t2[r1.spec_id() as int] == t1[r1.spec_id() as int]);
    lemma_equal_types_same_id(t2, r1, r2);
}

} // verus!
