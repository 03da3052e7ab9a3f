use vstd::prelude::*;
use crate::value::{Object, own_property, inner_value, property_set, others_unchanged};

verus! {

/// From `old` to `new` the heap only grew, and the objects that were there changed at most
/// in their own properties named in `pkeys` and their internal properties named in `ikeys`
/// (and in the order of their property lists).
pub open spec fn writes_only(
    old: Seq<Object>,
    new: Seq<Object>,
    pkeys: Set<Seq<char>>,
    ikeys: Set<Seq<char>>,
) -> bool {
    &&& old.len() <= new.len()
    &&& forall|j: int|
        0 <= j < old.len() ==> {
            &&& (#[trigger] new[j]).class_type == old[j].class_type
            &&& new[j].prototype == old[j].prototype
            &&& new[j].constructor == old[j].constructor
            &&& new[j].native == old[j].native
            &&& forall|k: Seq<char>| !pkeys.contains(k) ==> #[trigger] own_property(new[j], k) == own_property(old[j], k)
            &&& forall|k: Seq<char>| !ikeys.contains(k) ==> #[trigger] inner_value(new[j], k) == inner_value(old[j], k)
        }
}

pub proof fn lemma_writes_only_refl(a: Seq<Object>)
    ensures
        writes_only(a, a, Set::empty(), Set::empty()),
{
}

pub proof fn lemma_writes_only_grow(a: Seq<Object>, b: Seq<Object>)
    requires
        a.len() <= b.len(),
        forall|j: int| 0 <= j < a.len() ==> #[trigger] b[j] == a[j],
    ensures
        writes_only(a, b, Set::empty(), Set::empty()),
{
}

pub proof fn lemma_writes_only_property(a: Seq<Object>, b: Seq<Object>, id: int, k: Seq<char>, p: crate::value::Property)
    requires
        0 <= id < a.len(),
        others_unchanged(a, b, id),
        property_set(a[id], b[id], k, p),
    ensures
        writes_only(a, b, set![k], Set::empty()),
{
    assert forall|j: int| 0 <= j < a.len() implies {
        &&& (#[trigger] b[j]).class_type == a[j].class_type
        &&& b[j].prototype == a[j].prototype
        &&& b[j].constructor == a[j].constructor
        &&& b[j].native == a[j].native
        &&& forall|k2: Seq<char>| !set![k].contains(k2) ==> #[trigger] own_property(b[j], k2) == own_property(a[j], k2)
        &&& forall|k2: Seq<char>| !Set::<Seq<char>>::empty().contains(k2) ==> #[trigger] inner_value(b[j], k2) == inner_value(a[j], k2)
    } by {
        if j != id {
            assert(b[j] == a[j]);
        } else {
            assert forall|k2: Seq<char>| !set![k].contains(k2) implies #[trigger] own_property(b[j], k2) == own_property(a[j], k2) by {
                assert(k2 != k);
            }
        }
    }
}

pub proof fn lemma_writes_only_inner(a: Seq<Object>, b: Seq<Object>, id: int, k: Seq<char>)
    requires
        0 <= id < a.len(),
        others_unchanged(a, b, id),
        forall|k2: Seq<char>| k2 != k ==> #[trigger] inner_value(b[id], k2) == inner_value(a[id], k2),
        b[id].property == a[id].property,
        b[id].prototype == a[id].prototype,
        b[id].constructor == a[id].constructor,
        b[id].class_type == a[id].class_type,
        b[id].native == a[id].native,
    ensures
        writes_only(a, b, Set::empty(), set![k]),
{
    assert forall|j: int| 0 <= j < a.len() implies {
        &&& (#[trigger] b[j]).class_type == a[j].class_type
        &&& b[j].prototype == a[j].prototype
        &&& b[j].constructor == a[j].constructor
        &&& b[j].native == a[j].native
        &&& forall|k2: Seq<char>| !Set::<Seq<char>>::empty().contains(k2) ==> #[trigger] own_property(b[j], k2) == own_property(a[j], k2)
        &&& forall|k2: Seq<char>| !set![k].contains(k2) ==> #[trigger] inner_value(b[j], k2) == inner_value(a[j], k2)
    } by {
        if j != id {
            assert(b[j] == a[j]);
        } else {
            assert forall|k2: Seq<char>| !set![k].contains(k2) implies #[trigger] inner_value(b[j], k2) == inner_value(a[j], k2) by {
                assert(k2 != k);
            }
        }
    }
}

pub proof fn lemma_writes_only_trans(
    a: Seq<Object>,
    b: Seq<Object>,
    c: Seq<Object>,
    p1: Set<Seq<char>>,
    i1: Set<Seq<char>>,
    p2: Set<Seq<char>>,
    i2: Set<Seq<char>>,
)
    requires
        writes_only(a, b, p1, i1),
        writes_only(b, c, p2, i2),
    ensures
        writes_only(a, c, p1.union(p2), i1.union(i2)),
{
    assert forall|j: int| 0 <= j < a.len() implies {
        &&& (#[trigger] c[j]).class_type == a[j].class_type
        &&& c[j].prototype == a[j].prototype
        &&& c[j].constructor == a[j].constructor
        &&& c[j].native == a[j].native
        &&& forall|k: Seq<char>| !p1.union(p2).contains(k) ==> #[trigger] own_property(c[j], k) == own_property(a[j], k)
        &&& forall|k: Seq<char>| !i1.union(i2).contains(k) ==> #[trigger] inner_value(c[j], k) == inner_value(a[j], k)
    } by {
        assert(b[j].class_type == a[j].class_type);
        assert(c[j].class_type == b[j].class_type);
        assert forall|k: Seq<char>| !p1.union(p2).contains(k) implies #[trigger] own_property(c[j], k) == own_property(a[j], k) by {
            assert(own_property(b[j], k) == own_property(a[j], k));
            assert(own_property(c[j], k) == own_property(b[j], k));
        }
        assert forall|k: Seq<char>| !i1.union(i2).contains(k) implies #[trigger] inner_value(c[j], k) == inner_value(a[j], k) by {
            assert(inner_value(b[j], k) == inner_value(a[j], k));
            assert(inner_value(c[j], k) == inner_value(b[j], k));
        }
    }
}

pub proof fn lemma_writes_only_weaken(
    a: Seq<Object>,
    b: Seq<Object>,
    p1: Set<Seq<char>>,
    i1: Set<Seq<char>>,
    p2: Set<Seq<char>>,
    i2: Set<Seq<char>>,
)
    requires
        writes_only(a, b, p1, i1),
        p1.subset_of(p2),
        i1.subset_of(i2),
    ensures
        writes_only(a, b, p2, i2),
{
    assert forall|j: int| 0 <= j < a.len() implies {
        &&& (#[trigger] b[j]).class_type == a[j].class_type
        &&& b[j].prototype == a[j].prototype
        &&& b[j].constructor == a[j].constructor
        &&& b[j].native == a[j].native
        &&& forall|k: Seq<char>| !p2.contains(k) ==> #[trigger] own_property(b[j], k) == own_property(a[j], k)
        &&& forall|k: Seq<char>| !i2.contains(k) ==> #[trigger] inner_value(b[j], k) == inner_value(a[j], k)
    } by {
        assert(b[j].class_type == a[j].class_type);
        assert forall|k: Seq<char>| !p2.contains(k) implies #[trigger] own_property(b[j], k) == own_property(a[j], k) by {
            assert(!p1.contains(k));
        }
        assert forall|k: Seq<char>| !i2.contains(k) implies #[trigger] inner_value(b[j], k) == inner_value(a[j], k) by {
            assert(!i1.contains(k));
        }
    }
}

} // verus!
