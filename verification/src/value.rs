use vstd::prelude::*;

verus! {

/// Index of an object in a context's heap.
pub type ObjId = usize;

/// The kind of an object.
#[derive(Clone, Copy, PartialEq, Eq, Structural)]
pub enum ClassType {
    Object,
    Array,
    Function,
}

/// The native functions that this library installs on the global objects.
#[derive(Clone, Copy, PartialEq, Eq, Structural)]
pub enum Builtin {
    ParseInt,
    ParseFloat,
    IsNaN,
    IsFinite,
    DecodeURI,
    DecodeURIComponent,
    EncodeURI,
    EncodeURIComponent,
    DateNow,
    JsonParse,
    JsonStringify,
    RegExpCreate,
    RegExpTest,
    RegExpExec,
    RegExpToString,
}

/// A JavaScript value. Numbers are held as the bits of their IEEE-754 double; objects by
/// their index in the heap.
pub enum JsValue {
    Undefined,
    Null,
    NaN,
    Boolean(bool),
    Number(u64),
    String(String),
    Object(ObjId),
    Array(ObjId),
    Function(ObjId),
    RefObject(ObjId),
    StringObj(ObjId),
    NumberObj(ObjId),
    BooleanObj(ObjId),
    Promise(ObjId),
    Scope,
    Interrupt,
    ByteCode,
}

impl Clone for JsValue {
    fn clone(&self) -> (r: Self)
        ensures
            r == *self,
    {
        match self {
            JsValue::Undefined => JsValue::Undefined,
            JsValue::Null => JsValue::Null,
            JsValue::NaN => JsValue::NaN,
            JsValue::Boolean(b) => JsValue::Boolean(*b),
            JsValue::Number(n) => JsValue::Number(*n),
            JsValue::String(s) => JsValue::String(s.clone()),
            JsValue::Object(i) => JsValue::Object(*i),
            JsValue::Array(i) => JsValue::Array(*i),
            JsValue::Function(i) => JsValue::Function(*i),
            JsValue::RefObject(i) => JsValue::RefObject(*i),
            JsValue::StringObj(i) => JsValue::StringObj(*i),
            JsValue::NumberObj(i) => JsValue::NumberObj(*i),
            JsValue::BooleanObj(i) => JsValue::BooleanObj(*i),
            JsValue::Promise(i) => JsValue::Promise(*i),
            JsValue::Scope => JsValue::Scope,
            JsValue::Interrupt => JsValue::Interrupt,
            JsValue::ByteCode => JsValue::ByteCode,
        }
    }
}

/// A property: its value and whether it is enumerable.
pub struct Property {
    pub enumerable: bool,
    pub value: JsValue,
}

/// An object: its named properties (keys unique), the order in which defined properties
/// were first added, its internal properties, its prototype and constructor, and the
/// native function it runs, if any.
pub struct Object {
    pub class_type: ClassType,
    pub property: Vec<(String, Property)>,
    pub property_list: Vec<String>,
    pub inner_property: Vec<(String, JsValue)>,
    pub prototype: Option<ObjId>,
    pub constructor: Option<ObjId>,
    pub native: Option<Builtin>,
}

/// Whether some entry has key `k`.
pub open spec fn has_key<T>(e: Seq<(String, T)>, k: Seq<char>) -> bool {
    exists|i: int| 0 <= i < e.len() && (#[trigger] e[i]).0@ == k
}

/// Whether no two entries share a key.
pub open spec fn keys_unique<T>(e: Seq<(String, T)>) -> bool {
    forall|i: int, j: int|
        0 <= i < e.len() && 0 <= j < e.len() && i != j ==> (#[trigger] e[i]).0@ != (#[trigger] e[j]).0@
}

/// The value stored under key `k`, if any.
pub open spec fn lookup<T>(e: Seq<(String, T)>, k: Seq<char>) -> Option<T> {
    if has_key(e, k) {
        Some(e[choose|i: int| 0 <= i < e.len() && (#[trigger] e[i]).0@ == k].1)
    } else {
        None
    }
}

pub proof fn lemma_lookup_at<T>(e: Seq<(String, T)>, i: int)
    requires
        keys_unique(e),
        0 <= i < e.len(),
    ensures
        lookup(e, e[i].0@) == Some(e[i].1),
{
    let k = e[i].0@;
    assert(has_key(e, k));
    let j = choose|j: int| 0 <= j < e.len() && (#[trigger] e[j]).0@ == k;
    assert(j == i);
}

/// Finds the entry with key `k`.
pub fn find_key<T>(e: &Vec<(String, T)>, k: &String) -> (r: Option<usize>)
    ensures
        match r {
            Some(i) => i < e@.len() && e@[i as int].0@ == k@,
            None => !has_key(e@, k@),
        },
{
    let mut i: usize = 0;
    while i < e.len()
        invariant
            i <= e@.len(),
            forall|j: int| 0 <= j < i ==> (#[trigger] e@[j]).0@ != k@,
        decreases e.len() - i,
    {
        if e[i].0 == *k {
            return Some(i);
        }
        i = i + 1;
    }
    None
}

/// Stores `v` under key `k`, replacing the entry with that key or adding one at the end.
/// Returns whether an entry was added.
pub fn set_entry<T>(e: &mut Vec<(String, T)>, k: String, v: T) -> (added: bool)
    requires
        keys_unique(old(e)@),
    ensures
        keys_unique(final(e)@),
        added == !has_key(old(e)@, k@),
        lookup(final(e)@, k@) == Some(v),
        forall|k2: Seq<char>| k2 != k@ ==> #[trigger] lookup(final(e)@, k2) == lookup(old(e)@, k2),
        forall|j: int| 0 <= j < final(e)@.len() ==> (exists|j2: int| 0 <= j2 < old(e)@.len() && (#[trigger] final(e)@[j]).0@ == old(e)@[j2].0@) || final(e)@[j].0@ == k@,
        final(e)@.len() == old(e)@.len() + if added { 1int } else { 0int },
        forall|j: int| 0 <= j < final(e)@.len() ==> (#[trigger] final(e)@[j] == (k, v)) || (j < old(e)@.len() && final(e)@[j] == old(e)@[j]),
{
    let ghost old_e = e@;
    match find_key(e, &k) {
        Some(i) => {
            let ghost kk = k@;
            e.set(i, (k, v));
            proof {
                assert forall|a: int, b: int|
                    0 <= a < e@.len() && 0 <= b < e@.len() && a != b implies (#[trigger] e@[a]).0@ != (#[trigger] e@[b]).0@ by {
                    assert(old_e[a].0@ != old_e[b].0@);
                }
                lemma_lookup_at(e@, i as int);
                assert forall|k2: Seq<char>| k2 != kk implies #[trigger] lookup(e@, k2) == lookup(old_e, k2) by {
                    if has_key(old_e, k2) {
                        let j = choose|j: int| 0 <= j < old_e.len() && (#[trigger] old_e[j]).0@ == k2;
                        lemma_lookup_at(old_e, j);
                        assert(e@[j] == old_e[j]);
                        lemma_lookup_at(e@, j);
                    } else {
                        assert forall|j: int| 0 <= j < e@.len() implies (#[trigger] e@[j]).0@ != k2 by {
                            if j != i {
                                assert(e@[j] == old_e[j]);
                            }
                        }
                    }
                }
                assert forall|j: int| 0 <= j < e@.len() implies (exists|j2: int| 0 <= j2 < old_e.len() && (#[trigger] e@[j]).0@ == old_e[j2].0@) || e@[j].0@ == kk by {
                    if j != i {
                        assert(e@[j] == old_e[j]);
                    }
                }
            }
            false
        },
        None => {
            let ghost kk = k@;
            e.push((k, v));
            proof {
                let n = old_e.len() as int;
                assert forall|a: int, b: int|
                    0 <= a < e@.len() && 0 <= b < e@.len() && a != b implies (#[trigger] e@[a]).0@ != (#[trigger] e@[b]).0@ by {
                    if a < n && b < n {
                        assert(old_e[a].0@ != old_e[b].0@);
                    } else if a == n {
                        assert(e@[b] == old_e[b]);
                    } else {
                        assert(e@[a] == old_e[a]);
                    }
                }
                lemma_lookup_at(e@, n);
                assert forall|k2: Seq<char>| k2 != kk implies #[trigger] lookup(e@, k2) == lookup(old_e, k2) by {
                    if has_key(old_e, k2) {
                        let j = choose|j: int| 0 <= j < old_e.len() && (#[trigger] old_e[j]).0@ == k2;
                        lemma_lookup_at(old_e, j);
                        assert(e@[j] == old_e[j]);
                        lemma_lookup_at(e@, j);
                    } else {
                        assert forall|j: int| 0 <= j < e@.len() implies (#[trigger] e@[j]).0@ != k2 by {
                            if j < n {
                                assert(e@[j] == old_e[j]);
                            }
                        }
                    }
                }
                assert forall|j: int| 0 <= j < e@.len() implies (exists|j2: int| 0 <= j2 < old_e.len() && (#[trigger] e@[j]).0@ == old_e[j2].0@) || e@[j].0@ == kk by {
                    if j < n {
                        assert(e@[j] == old_e[j]);
                    }
                }
            }
            true
        },
    }
}

} // verus!

verus! {

/// The heap index a value refers to, if it refers to an object.
pub open spec fn value_ref(v: JsValue) -> Option<ObjId> {
    match v {
        JsValue::Object(i) => Some(i),
        JsValue::Array(i) => Some(i),
        JsValue::Function(i) => Some(i),
        JsValue::RefObject(i) => Some(i),
        JsValue::StringObj(i) => Some(i),
        JsValue::NumberObj(i) => Some(i),
        JsValue::BooleanObj(i) => Some(i),
        JsValue::Promise(i) => Some(i),
        _ => None,
    }
}

/// Whether a value refers only to objects of a heap of `n` objects.
pub open spec fn value_ok(v: JsValue, n: nat) -> bool {
    match value_ref(v) {
        Some(i) => i < n,
        None => true,
    }
}

/// Whether an object's keys are unique and it refers only to objects of a heap of `n` objects.
pub open spec fn object_ok(o: Object, n: nat) -> bool {
    &&& keys_unique(o.property@)
    &&& keys_unique(o.inner_property@)
    &&& forall|i: int| 0 <= i < o.property@.len() ==> value_ok((#[trigger] o.property@[i]).1.value, n)
    &&& forall|i: int| 0 <= i < o.inner_property@.len() ==> value_ok((#[trigger] o.inner_property@[i]).1, n)
    &&& (o.prototype matches Some(p) ==> p < n)
    &&& (o.constructor matches Some(c) ==> c < n)
}

/// The texts of a list of names.
pub open spec fn name_texts(names: Seq<String>) -> Seq<Seq<char>> {
    names.map_values(|s: String| s@)
}

/// The value of an object's own property `k`.
pub open spec fn own_property(o: Object, k: Seq<char>) -> Option<Property> {
    lookup(o.property@, k)
}

/// The value of an object's internal property `k`.
pub open spec fn inner_value(o: Object, k: Seq<char>) -> Option<JsValue> {
    lookup(o.inner_property@, k)
}

pub proof fn lemma_object_ok_grow(o: Object, n: nat, m: nat)
    requires
        object_ok(o, n),
        n <= m,
    ensures
        object_ok(o, m),
{
    assert forall|i: int| 0 <= i < o.property@.len() implies value_ok((#[trigger] o.property@[i]).1.value, m) by {
        assert(value_ok(o.property@[i].1.value, n));
    }
    assert forall|i: int| 0 <= i < o.inner_property@.len() implies value_ok((#[trigger] o.inner_property@[i]).1, m) by {
        assert(value_ok(o.inner_property@[i].1, n));
    }
}

impl Object {
    /// A new object of the given kind, with no properties and no prototype.
    pub fn new(class_type: ClassType) -> (r: Object)
        ensures
            r.class_type == class_type,
            r.property@.len() == 0,
            r.property_list@.len() == 0,
            r.inner_property@.len() == 0,
            r.prototype is None,
            r.constructor is None,
            r.native is None,
    {
        Object {
            class_type,
            property: Vec::new(),
            property_list: Vec::new(),
            inner_property: Vec::new(),
            prototype: None,
            constructor: None,
            native: None,
        }
    }
}

/// The heap of objects, the global object, and the variables of the global scope.
pub struct Context {
    pub objects: Vec<Object>,
    pub global: ObjId,
    pub scope: Vec<(String, JsValue)>,
}

/// Whether every object of a heap refers only to objects of that heap.
pub open spec fn heap_ok(objs: Seq<Object>) -> bool {
    forall|i: int| 0 <= i < objs.len() ==> object_ok(#[trigger] objs[i], objs.len())
}

/// Whether a list of variables has unique names and refers only to objects of a heap of `n`.
pub open spec fn scope_ok(s: Seq<(String, JsValue)>, n: nat) -> bool {
    &&& keys_unique(s)
    &&& forall|i: int| 0 <= i < s.len() ==> value_ok((#[trigger] s[i]).1, n)
}

/// Everything but one object of the heap stays as it was.
pub open spec fn others_unchanged(a: Seq<Object>, b: Seq<Object>, id: int) -> bool {
    &&& a.len() == b.len()
    &&& forall|j: int| 0 <= j < a.len() && j != id ==> #[trigger] b[j] == a[j]
}

/// `b` is `a` with the properties of `id` changed at key `k` to `p`, and nothing else.
pub open spec fn property_set(a: Object, b: Object, k: Seq<char>, p: Property) -> bool {
    &&& own_property(b, k) == Some(p)
    &&& forall|k2: Seq<char>| k2 != k ==> #[trigger] own_property(b, k2) == own_property(a, k2)
    &&& b.inner_property == a.inner_property
    &&& b.prototype == a.prototype
    &&& b.constructor == a.constructor
    &&& b.class_type == a.class_type
    &&& b.native == a.native
}

impl Context {
    /// The heap refers only to its own objects and the scope names are unique.
    pub open spec fn heap_wf(&self) -> bool {
        &&& self.objects@.len() <= usize::MAX
        &&& heap_ok(self.objects@)
        &&& scope_ok(self.scope@, self.objects@.len())
    }

    /// `heap_wf` and the global object is in the heap.
    pub open spec fn wf(&self) -> bool {
        &&& self.heap_wf()
        &&& self.global < self.objects@.len()
    }

    /// A context with an empty heap, an empty scope, and global index 0 (to be set once
    /// the global object is built).
    pub fn empty() -> (r: Context)
        ensures
            r.heap_wf(),
            r.objects@.len() == 0,
            r.scope@.len() == 0,
            r.global == 0,
    {
        Context { objects: Vec::new(), global: 0, scope: Vec::new() }
    }

    /// Adds an object to the heap and returns its index.
    pub fn add_object(&mut self, o: Object) -> (id: ObjId)
        requires
            old(self).heap_wf(),
            object_ok(o, old(self).objects@.len() + 1),
        ensures
            final(self).heap_wf(),
            id == old(self).objects@.len(),
            final(self).objects@ == old(self).objects@.push(o),
            final(self).global == old(self).global,
            final(self).scope == old(self).scope,
    {
        let ghost n = self.objects@.len();
        let id = self.objects.len();
        self.objects.push(o);
        let _n = self.objects.len();
        proof {
            assert forall|i: int| 0 <= i < self.objects@.len() implies object_ok(#[trigger] self.objects@[i], self.objects@.len()) by {
                if i < n {
                    lemma_object_ok_grow(old(self).objects@[i], n, n + 1);
                }
            }
            assert forall|i: int| 0 <= i < self.scope@.len() implies value_ok((#[trigger] self.scope@[i]).1, n + 1) by {
                assert(value_ok(self.scope@[i].1, n));
            }
        }
        id
    }

    /// Defines own property `name` of object `id`: replaces its value or adds it, and records
    /// a new name at the end of the object's property list.
    pub fn define_property(&mut self, id: ObjId, name: String, prop: Property)
        requires
            old(self).heap_wf(),
            id < old(self).objects@.len(),
            value_ok(prop.value, old(self).objects@.len()),
        ensures
            final(self).heap_wf(),
            others_unchanged(old(self).objects@, final(self).objects@, id as int),
            property_set(old(self).objects@[id as int], final(self).objects@[id as int], name@, prop),
            final(self).objects@[id as int].property@.len() == old(self).objects@[id as int].property@.len()
                + if has_key(old(self).objects@[id as int].property@, name@) { 0int } else { 1int },
            final(self).objects@[id as int].property_list@ == if has_key(
                old(self).objects@[id as int].property@,
                name@,
            ) {
                old(self).objects@[id as int].property_list@
            } else {
                old(self).objects@[id as int].property_list@.push(name)
            },
            final(self).global == old(self).global,
            final(self).scope == old(self).scope,
    {
        let ghost n = self.objects@.len();
        let ghost o = self.objects@[id as int];
        let name2 = name.clone();
        let added = set_entry(&mut self.objects[id].property, name, prop);
        if added {
            self.objects[id].property_list.push(name2);
        }
        proof {
            let o2 = self.objects@[id as int];
            assert forall|i: int| 0 <= i < o2.property@.len() implies value_ok((#[trigger] o2.property@[i]).1.value, n) by {
                if i >= o.property@.len() || o2.property@[i] != o.property@[i] {
                } else {
                    assert(value_ok(o.property@[i].1.value, n));
                }
            }
            assert(object_ok(o2, n));
            assert forall|i: int| 0 <= i < self.objects@.len() implies object_ok(#[trigger] self.objects@[i], n) by {
                if i != id {
                    assert(self.objects@[i] == old(self).objects@[i]);
                }
            }
        }
    }

    /// Sets own property `name` of object `id` without touching its property list.
    pub fn insert_property(&mut self, id: ObjId, name: String, prop: Property)
        requires
            old(self).heap_wf(),
            id < old(self).objects@.len(),
            value_ok(prop.value, old(self).objects@.len()),
        ensures
            final(self).heap_wf(),
            others_unchanged(old(self).objects@, final(self).objects@, id as int),
            property_set(old(self).objects@[id as int], final(self).objects@[id as int], name@, prop),
            final(self).objects@[id as int].property@.len() == old(self).objects@[id as int].property@.len()
                + if has_key(old(self).objects@[id as int].property@, name@) { 0int } else { 1int },
            final(self).objects@[id as int].property_list == old(self).objects@[id as int].property_list,
            final(self).global == old(self).global,
            final(self).scope == old(self).scope,
    {
        let ghost n = self.objects@.len();
        let ghost o = self.objects@[id as int];
        let _ = set_entry(&mut self.objects[id].property, name, prop);
        proof {
            let o2 = self.objects@[id as int];
            assert forall|i: int| 0 <= i < o2.property@.len() implies value_ok((#[trigger] o2.property@[i]).1.value, n) by {
                if i >= o.property@.len() || o2.property@[i] != o.property@[i] {
                } else {
                    assert(value_ok(o.property@[i].1.value, n));
                }
            }
            assert(object_ok(o2, n));
            assert forall|i: int| 0 <= i < self.objects@.len() implies object_ok(#[trigger] self.objects@[i], n) by {
                if i != id {
                    assert(self.objects@[i] == old(self).objects@[i]);
                }
            }
        }
    }

    /// Sets internal property `name` of object `id`.
    pub fn set_inner_property_value(&mut self, id: ObjId, name: String, value: JsValue)
        requires
            old(self).heap_wf(),
            id < old(self).objects@.len(),
            value_ok(value, old(self).objects@.len()),
        ensures
            final(self).heap_wf(),
            others_unchanged(old(self).objects@, final(self).objects@, id as int),
            inner_value(final(self).objects@[id as int], name@) == Some(value),
            forall|k2: Seq<char>| k2 != name@ ==> #[trigger] inner_value(final(self).objects@[id as int], k2)
                == inner_value(old(self).objects@[id as int], k2),
            final(self).objects@[id as int].property == old(self).objects@[id as int].property,
            final(self).objects@[id as int].property_list == old(self).objects@[id as int].property_list,
            final(self).objects@[id as int].prototype == old(self).objects@[id as int].prototype,
            final(self).objects@[id as int].constructor == old(self).objects@[id as int].constructor,
            final(self).objects@[id as int].class_type == old(self).objects@[id as int].class_type,
            final(self).objects@[id as int].native == old(self).objects@[id as int].native,
            final(self).global == old(self).global,
            final(self).scope == old(self).scope,
    {
        let ghost n = self.objects@.len();
        let ghost o = self.objects@[id as int];
        let _ = set_entry(&mut self.objects[id].inner_property, name, value);
        proof {
            let o2 = self.objects@[id as int];
            assert forall|i: int| 0 <= i < o2.inner_property@.len() implies value_ok((#[trigger] o2.inner_property@[i]).1, n) by {
                if i >= o.inner_property@.len() || o2.inner_property@[i] != o.inner_property@[i] {
                } else {
                    assert(value_ok(o.inner_property@[i].1, n));
                }
            }
            assert(object_ok(o2, n));
            assert forall|i: int| 0 <= i < self.objects@.len() implies object_ok(#[trigger] self.objects@[i], n) by {
                if i != id {
                    assert(self.objects@[i] == old(self).objects@[i]);
                }
            }
        }
    }

    /// Sets the prototype of object `id`.
    pub fn set_prototype(&mut self, id: ObjId, proto: Option<ObjId>)
        requires
            old(self).heap_wf(),
            id < old(self).objects@.len(),
            proto matches Some(p) ==> p < old(self).objects@.len(),
        ensures
            final(self).heap_wf(),
            others_unchanged(old(self).objects@, final(self).objects@, id as int),
            final(self).objects@[id as int] == (Object { prototype: proto, ..old(self).objects@[id as int] }),
            final(self).global == old(self).global,
            final(self).scope == old(self).scope,
    {
        self.objects[id].prototype = proto;
        proof {
            let n = self.objects@.len();
            assert forall|i: int| 0 <= i < n implies object_ok(#[trigger] self.objects@[i], n) by {
                if i != id {
                    assert(self.objects@[i] == old(self).objects@[i]);
                } else {
                    assert(object_ok(old(self).objects@[i], n));
                }
            }
        }
    }

    /// Sets the constructor of object `id`.
    pub fn set_constructor(&mut self, id: ObjId, ctor: Option<ObjId>)
        requires
            old(self).heap_wf(),
            id < old(self).objects@.len(),
            ctor matches Some(p) ==> p < old(self).objects@.len(),
        ensures
            final(self).heap_wf(),
            others_unchanged(old(self).objects@, final(self).objects@, id as int),
            final(self).objects@[id as int] == (Object { constructor: ctor, ..old(self).objects@[id as int] }),
            final(self).global == old(self).global,
            final(self).scope == old(self).scope,
    {
        self.objects[id].constructor = ctor;
        proof {
            let n = self.objects@.len();
            assert forall|i: int| 0 <= i < n implies object_ok(#[trigger] self.objects@[i], n) by {
                if i != id {
                    assert(self.objects@[i] == old(self).objects@[i]);
                } else {
                    assert(object_ok(old(self).objects@[i], n));
                }
            }
        }
    }

    /// The value of own property `name` of object `id`; `Undefined` when there is none.
    pub fn get_value(&self, id: ObjId, name: &String) -> (r: JsValue)
        requires
            self.heap_wf(),
            id < self.objects@.len(),
        ensures
            r == match own_property(self.objects@[id as int], name@) {
                Some(p) => p.value,
                None => JsValue::Undefined,
            },
            value_ok(r, self.objects@.len()),
    {
        let o = &self.objects[id];
        match find_key(&o.property, name) {
            Some(i) => {
                proof {
                    lemma_lookup_at(o.property@, i as int);
                    assert(object_ok(self.objects@[id as int], self.objects@.len()));
                    assert(value_ok(o.property@[i as int].1.value, self.objects@.len()));
                }
                o.property[i].1.value.clone()
            },
            None => JsValue::Undefined,
        }
    }

    /// Sets variable `name` of the global scope.
    pub fn set_scope_value(&mut self, name: String, value: JsValue)
        requires
            old(self).heap_wf(),
            value_ok(value, old(self).objects@.len()),
        ensures
            final(self).heap_wf(),
            lookup(final(self).scope@, name@) == Some(value),
            forall|k2: Seq<char>| k2 != name@ ==> #[trigger] lookup(final(self).scope@, k2) == lookup(old(self).scope@, k2),
            final(self).objects == old(self).objects,
            final(self).global == old(self).global,
    {
        let ghost n = self.objects@.len();
        let ghost s = self.scope@;
        let _ = set_entry(&mut self.scope, name, value);
        proof {
            assert forall|i: int| 0 <= i < self.scope@.len() implies value_ok((#[trigger] self.scope@[i]).1, n) by {
                if i >= s.len() || self.scope@[i] != s[i] {
                } else {
                    assert(value_ok(s[i].1, n));
                }
            }
        }
    }
}

} // verus!
