use vstd::prelude::*;
use crate::constants::{
    GLOBAL_OBJECT_NAME, IS_GLOABL_OBJECT, PROTO_PROPERTY_NAME, spec_global_object_names,
    global_object_name_list, lemma_global_names_distinct, spec_global_function_names,
    lemma_global_function_names, NUMBER_ZERO, NUMBER_ONE, NUMBER_TWO, NUMBER_INFINITY, GLOBAL_REGEXP_NAME,
    GLOBAL_JSON_NAME, GLOBAL_DATE_NAME, INSTANTIATE_OBJECT_METHOD_NAME, spec_method_names,
    lemma_method_names,
};
use crate::numbits::{f64_exp, f64_frac, f64_is_nan, f64_is_finite};
use crate::regexp::{bind_global_regexp, regexp_bound, lemma_regexp_bound_frame};
use crate::json::bind_global_json;
use crate::date::bind_global_date;
use crate::frame::writes_only;
use crate::value::{
    ObjId, ClassType, Builtin, JsValue, Property, Object, Context, own_property, inner_value,
    has_key, lookup, value_ref, value_ok, property_set, others_unchanged,
};

verus! {

/// `new` starts with all of `old`, unchanged.
pub open spec fn heap_prefix(old: Seq<Object>, new: Seq<Object>) -> bool {
    &&& old.len() <= new.len()
    &&& forall|j: int| 0 <= j < old.len() ==> #[trigger] new[j] == old[j]
}

/// Whether a value is a string with the given text.
pub open spec fn value_is_text(v: JsValue, t: Seq<char>) -> bool {
    match v {
        JsValue::String(s) => s@ == t,
        _ => false,
    }
}

/// A native function object: kind `Function`, runs `f`, and has the non-enumerable own
/// properties `name` (the text `name`) and `length` (the number with bits `length`).
pub open spec fn is_builtin_function(o: Object, name: Seq<char>, length: u64, f: Builtin) -> bool {
    &&& o.class_type == ClassType::Function
    &&& o.native == Some(f)
    &&& o.prototype is None
    &&& match own_property(o, "name"@) {
        Some(p) => !p.enumerable && value_is_text(p.value, name),
        None => false,
    }
    &&& own_property(o, "length"@) == Some(
        Property { enumerable: false, value: JsValue::Number(length) },
    )
}

/// Creates a native function object and returns a `Function` value for it.
pub fn builtin_function(ctx: &mut Context, name: String, length: u64, f: Builtin) -> (r: JsValue)
    requires
        old(ctx).heap_wf(),
    ensures
        final(ctx).heap_wf(),
        heap_prefix(old(ctx).objects@, final(ctx).objects@),
        final(ctx).objects@.len() == old(ctx).objects@.len() + 1,
        r == JsValue::Function(old(ctx).objects@.len() as usize),
        is_builtin_function(final(ctx).objects@[old(ctx).objects@.len() as int], name@, length, f),
        final(ctx).global == old(ctx).global,
        final(ctx).scope == old(ctx).scope,
{
    let mut o = Object::new(ClassType::Function);
    o.native = Some(f);
    let id = ctx.add_object(o);
    let name_key = "name".to_owned();
    let length_key = "length".to_owned();
    proof {
        reveal_strlit("name");
        reveal_strlit("length");
        assert(name_key@ != length_key@) by {
            assert(name_key@.len() != length_key@.len());
        }
    }
    ctx.define_property(id, name_key, Property { enumerable: false, value: JsValue::String(name) });
    ctx.define_property(
        id,
        length_key,
        Property { enumerable: false, value: JsValue::Number(length) },
    );
    JsValue::Function(id)
}

/// Object `id` is a fresh global object: kind `Object`, no properties of its own, and
/// prototype `id + 1`, a fresh object whose one property is the non-enumerable
/// `constructor`, a reference back to `id`.
pub open spec fn fresh_global_object(objs: Seq<Object>, id: int) -> bool {
    &&& 0 <= id && id + 1 < objs.len()
    &&& objs[id].class_type == ClassType::Object
    &&& objs[id].prototype == Some((id + 1) as usize)
    &&& objs[id].property@.len() == 0
    &&& objs[id].property_list@.len() == 0
    &&& objs[id].inner_property@.len() == 0
    &&& objs[id].constructor is None
    &&& objs[id].native is None
    &&& objs[id + 1].class_type == ClassType::Object
    &&& objs[id + 1].prototype is None
    &&& objs[id + 1].constructor is None
    &&& objs[id + 1].native is None
    &&& objs[id + 1].inner_property@.len() == 0
    &&& own_property(objs[id + 1], "constructor"@) == Some(
        Property { enumerable: false, value: JsValue::RefObject(id as usize) },
    )
    &&& objs[id + 1].property@.len() == 1
    &&& objs[id + 1].property_list@.len() == 1
    &&& objs[id + 1].property_list@[0]@ == "constructor"@
}

/// Creates a global object with its prototype object; returns the object.
pub fn new_global_object(ctx: &mut Context) -> (r: ObjId)
    requires
        old(ctx).heap_wf(),
    ensures
        final(ctx).heap_wf(),
        heap_prefix(old(ctx).objects@, final(ctx).objects@),
        final(ctx).objects@.len() == old(ctx).objects@.len() + 2,
        r == old(ctx).objects@.len(),
        fresh_global_object(final(ctx).objects@, r as int),
        final(ctx).global == old(ctx).global,
        final(ctx).scope == old(ctx).scope,
{
    let object = ctx.add_object(Object::new(ClassType::Object));
    let prototype = ctx.add_object(Object::new(ClassType::Object));
    ctx.define_property(
        prototype,
        "constructor".to_owned(),
        Property { enumerable: false, value: JsValue::RefObject(object) },
    );
    ctx.set_prototype(object, Some(prototype));
    object
}

} // verus!

verus! {

/// Object `id` is the built-in global object called `name`: kind `Object`, internal `name`
/// the text `name`, internal `isGlobal` true, and a prototype whose non-enumerable
/// `constructor` refers back to it.
pub open spec fn is_global_object(objs: Seq<Object>, id: int, name: Seq<char>) -> bool {
    &&& 0 <= id < objs.len()
    &&& objs[id].class_type == ClassType::Object
    &&& match inner_value(objs[id], "name"@) {
        Some(v) => value_is_text(v, name),
        None => false,
    }
    &&& inner_value(objs[id], IS_GLOABL_OBJECT@) == Some(JsValue::Boolean(true))
    &&& match objs[id].prototype {
        Some(p) => p < objs.len() && own_property(objs[p as int], "constructor"@) == Some(
            Property { enumerable: false, value: JsValue::RefObject(id as usize) },
        ),
        None => false,
    }
}

/// The object that the global object `g` holds under `name` as an enumerable `Object` value.
pub open spec fn global_entry(objs: Seq<Object>, g: int, name: Seq<char>) -> Option<ObjId> {
    match own_property(objs[g], name) {
        Some(p) => if p.enumerable {
            match p.value {
                JsValue::Object(id) => Some(id),
                _ => None,
            }
        } else {
            None
        },
        None => None,
    }
}

/// The global object `g` holds every built-in global object under its name.
pub open spec fn standard_globals(objs: Seq<Object>, g: int) -> bool {
    forall|i: int|
        0 <= i < spec_global_object_names().len() ==> match global_entry(
            objs,
            g,
            #[trigger] spec_global_object_names()[i],
        ) {
            Some(id) => is_global_object(objs, id as int, spec_global_object_names()[i]),
            None => false,
        }
}

/// The internal prototype links of the built-in global objects: `Object` links to a native
/// function object `nf`, which links to `Object`'s prototype; every other built-in links to `nf`.
pub open spec fn standard_proto_links(objs: Seq<Object>, g: int) -> bool {
    match global_entry(objs, g, GLOBAL_OBJECT_NAME@) {
        Some(o) => match inner_value(objs[o as int], PROTO_PROPERTY_NAME@) {
            Some(JsValue::RefObject(nf)) => {
                &&& nf < objs.len()
                &&& objs[o as int].prototype matches Some(p) && inner_value(
                    objs[nf as int],
                    PROTO_PROPERTY_NAME@,
                ) == Some(JsValue::RefObject(p))
                &&& forall|i: int|
                    1 <= i < spec_global_object_names().len() ==> match global_entry(
                        objs,
                        g,
                        #[trigger] spec_global_object_names()[i],
                    ) {
                        Some(id) => inner_value(objs[id as int], PROTO_PROPERTY_NAME@) == Some(
                            JsValue::Object(nf),
                        ),
                        None => false,
                    }
            },
            _ => false,
        },
        None => false,
    }
}

spec fn entry_ok(objs: Seq<Object>, g: int, nf: ObjId, mark: int, name: Seq<char>) -> bool {
    match global_entry(objs, g, name) {
        Some(id) => {
            &&& mark <= id
            &&& id + 1 < objs.len()
            &&& objs[id as int].prototype == Some((id + 1) as usize)
            &&& is_global_object(objs, id as int, name)
            &&& inner_value(objs[id as int], PROTO_PROPERTY_NAME@) == Some(JsValue::Object(nf))
        },
        None => false,
    }
}

proof fn lemma_inner_names_distinct()
    ensures
        "name"@ != IS_GLOABL_OBJECT@,
        "name"@ != PROTO_PROPERTY_NAME@,
        IS_GLOABL_OBJECT@ != PROTO_PROPERTY_NAME@,
{
    reveal_strlit("name");
    reveal_strlit("isGlobal");
    reveal_strlit("[[Property]]");
    assert("name"@.len() != IS_GLOABL_OBJECT@.len());
    assert("name"@.len() != PROTO_PROPERTY_NAME@.len());
    assert(IS_GLOABL_OBJECT@.len() != PROTO_PROPERTY_NAME@.len());
}

/// Creates the built-in global object called `name`, linked to `native`, and stores it in
/// the global object under `name`.
fn add_global_object(ctx: &mut Context, global: ObjId, native: ObjId, name: &str) -> (id: ObjId)
    requires
        old(ctx).heap_wf(),
        global < old(ctx).objects@.len(),
        native < old(ctx).objects@.len(),
    ensures
        final(ctx).heap_wf(),
        id == old(ctx).objects@.len(),
        final(ctx).objects@.len() == old(ctx).objects@.len() + 2,
        forall|j: int| 0 <= j < old(ctx).objects@.len() && j != global ==> #[trigger] final(ctx).objects@[j] == old(ctx).objects@[j],
        property_set(old(ctx).objects@[global as int], final(ctx).objects@[global as int], name@, Property { enumerable: true, value: JsValue::Object(id) }),
        final(ctx).objects@[id as int].prototype == Some((id + 1) as usize),
        is_global_object(final(ctx).objects@, id as int, name@),
        inner_value(final(ctx).objects@[id as int], PROTO_PROPERTY_NAME@) == Some(JsValue::Object(native)),
        final(ctx).scope == old(ctx).scope,
{
    proof {
        lemma_inner_names_distinct();
    }
    let object = new_global_object(ctx);
    let ghost after_new = ctx.objects@;
    ctx.set_inner_property_value(object, PROTO_PROPERTY_NAME.to_owned(), JsValue::Object(native));
    ctx.set_inner_property_value(object, IS_GLOABL_OBJECT.to_owned(), JsValue::Boolean(true));
    ctx.set_inner_property_value(object, "name".to_owned(), JsValue::String(name.to_owned()));
    let ghost after_inner = ctx.objects@;
    ctx.insert_property(
        global,
        name.to_owned(),
        Property { enumerable: true, value: JsValue::Object(object) },
    );
    proof {
        let objs = ctx.objects@;
        assert(objs[object as int] == after_inner[object as int]);
        assert(objs[object as int + 1] == after_new[object as int + 1]);
        assert(((object + 1) as usize) as int == object as int + 1);
    }
    object
}

/// Creates the global object, holding the built-in global objects under their names. All its
/// objects are new: the global object comes after `Object`, the native function object and
/// their prototypes.
pub fn new_global_this(ctx: &mut Context) -> (r: ObjId)
    requires
        old(ctx).heap_wf(),
    ensures
        final(ctx).heap_wf(),
        heap_prefix(old(ctx).objects@, final(ctx).objects@),
        r < final(ctx).objects@.len(),
        r == old(ctx).objects@.len() + 4,
        standard_globals(final(ctx).objects@, r as int),
        standard_proto_links(final(ctx).objects@, r as int),
        final(ctx).scope == old(ctx).scope,
{
    proof {
        lemma_inner_names_distinct();
        lemma_global_names_distinct();
        reveal_strlit("Object");
    }
    let ghost n0 = ctx.objects@.len();
    let first = new_global_object(ctx);
    ctx.set_inner_property_value(first, IS_GLOABL_OBJECT.to_owned(), JsValue::Boolean(true));
    ctx.set_inner_property_value(
        first,
        "name".to_owned(),
        JsValue::String(GLOBAL_OBJECT_NAME.to_owned()),
    );
    let native = new_global_object(ctx);
    ctx.set_inner_property_value(first, PROTO_PROPERTY_NAME.to_owned(), JsValue::RefObject(native));
    let first_proto = ctx.objects[first].prototype;
    match first_proto {
        Some(p) => {
            ctx.set_inner_property_value(native, PROTO_PROPERTY_NAME.to_owned(), JsValue::RefObject(p));
        },
        None => {},
    }
    let global = new_global_object(ctx);
    ctx.insert_property(
        global,
        GLOBAL_OBJECT_NAME.to_owned(),
        Property { enumerable: true, value: JsValue::Object(first) },
    );
    let ghost mark = ctx.objects@.len() as int;
    let ghost snap = ctx.objects@;
    assert(is_global_object(ctx.objects@, first as int, GLOBAL_OBJECT_NAME@));
    let names = global_object_name_list();
    let mut i: usize = 0;
    while i < names.len()
        invariant
            ctx.heap_wf(),
            heap_prefix(old(ctx).objects@, ctx.objects@),
            names@.len() == spec_global_object_names().len(),
            forall|k: int| 0 <= k < names@.len() ==> (#[trigger] names@[k])@ == spec_global_object_names()[k],
            n0 == old(ctx).objects@.len(),
            first == n0,
            native == n0 + 2,
            global == n0 + 4,
            mark == n0 + 6,
            mark <= ctx.objects@.len(),
            snap.len() == mark,
            forall|j: int| 0 <= j < mark && j != global ==> #[trigger] ctx.objects@[j] == snap[j],
            ctx.objects@[global as int].prototype == snap[global as int].prototype,
            global_entry(ctx.objects@, global as int, GLOBAL_OBJECT_NAME@) == Some(first),
            is_global_object(snap, first as int, GLOBAL_OBJECT_NAME@),
            inner_value(snap[first as int], PROTO_PROPERTY_NAME@) == Some(JsValue::RefObject(native)),
            snap[first as int].prototype matches Some(p) && inner_value(snap[native as int], PROTO_PROPERTY_NAME@) == Some(JsValue::RefObject(p)),
            i <= names@.len(),
            forall|k: int| 1 <= k < i ==> entry_ok(ctx.objects@, global as int, native, mark, #[trigger] spec_global_object_names()[k]),
            ctx.scope == old(ctx).scope,
        decreases names.len() - i,
    {
        proof {
            lemma_inner_names_distinct();
            lemma_global_names_distinct();
        }
        let name = names[i];
        if name.to_owned() == GLOBAL_OBJECT_NAME.to_owned() {
            proof {
                if i != 0 {
                    assert(spec_global_object_names()[i as int] != spec_global_object_names()[0]);
                }
            }
            i = i + 1;
            continue;
        }
        let ghost before = ctx.objects@;
        let object = add_global_object(ctx, global, native, name);
        proof {
            let objs = ctx.objects@;
            assert(i != 0);
            assert(entry_ok(objs, global as int, native, mark, spec_global_object_names()[i as int]));
            assert forall|k: int| 1 <= k < i + 1 implies entry_ok(objs, global as int, native, mark, #[trigger] spec_global_object_names()[k]) by {
                if k < i {
                    assert(spec_global_object_names()[k] != spec_global_object_names()[i as int]);
                    let id = global_entry(before, global as int, spec_global_object_names()[k]).unwrap();
                    assert(global_entry(objs, global as int, spec_global_object_names()[k]) == Some(id));
                    assert(objs[id as int] == before[id as int]);
                    assert(objs[id as int + 1] == before[id as int + 1]);
                }
            }
            assert(spec_global_object_names()[0] != spec_global_object_names()[i as int]);
            assert forall|j: int| 0 <= j < mark && j != global implies #[trigger] objs[j] == snap[j] by {
                assert(objs[j] == before[j]);
            }
        }
        i = i + 1;
    }
    proof {
        let objs = ctx.objects@;
        assert(objs[first as int] == snap[first as int]);
        assert(objs[native as int] == snap[native as int]);
        let p = snap[first as int].prototype.unwrap();
        assert(objs[p as int] == snap[p as int]);
        assert forall|k: int| 0 <= k < spec_global_object_names().len() implies match global_entry(
            objs,
            global as int,
            #[trigger] spec_global_object_names()[k],
        ) {
            Some(id) => is_global_object(objs, id as int, spec_global_object_names()[k]),
            None => false,
        } by {
            if k == 0 {
            } else {
                assert(entry_ok(objs, global as int, native, mark, spec_global_object_names()[k]));
            }
        }
        assert forall|k: int| 1 <= k < spec_global_object_names().len() implies match global_entry(
            objs,
            global as int,
            #[trigger] spec_global_object_names()[k],
        ) {
            Some(id) => inner_value(objs[id as int], PROTO_PROPERTY_NAME@) == Some(JsValue::Object(native)),
            None => false,
        } by {
            assert(entry_ok(objs, global as int, native, mark, spec_global_object_names()[k]));
        }
    }
    global
}

} // verus!

verus! {

/// The object that the global object `g` holds under `name`, when it holds one.
pub open spec fn global_ref(objs: Seq<Object>, g: int, name: Seq<char>) -> Option<ObjId> {
    match own_property(objs[g], name) {
        Some(p) => value_ref(p.value),
        None => None,
    }
}

/// The frame of `writes_only` keeps the built-in global objects when it writes none of
/// their names, no `constructor`, and no internal `name` or `isGlobal`.
pub proof fn lemma_standard_globals_frame(
    a: Seq<Object>,
    b: Seq<Object>,
    g: int,
    pk: Set<Seq<char>>,
    ik: Set<Seq<char>>,
)
    requires
        writes_only(a, b, pk, ik),
        0 <= g < a.len(),
        standard_globals(a, g),
        forall|i: int| 0 <= i < spec_global_object_names().len() ==> !pk.contains(#[trigger] spec_global_object_names()[i]),
        !pk.contains("constructor"@),
        !ik.contains("name"@),
        !ik.contains(IS_GLOABL_OBJECT@),
    ensures
        standard_globals(b, g),
        forall|i: int| 0 <= i < spec_global_object_names().len() ==> #[trigger] global_entry(b, g, spec_global_object_names()[i]) == global_entry(a, g, spec_global_object_names()[i]),
{
    assert forall|i: int| 0 <= i < spec_global_object_names().len() implies #[trigger] global_entry(b, g, spec_global_object_names()[i]) == global_entry(a, g, spec_global_object_names()[i]) by {
        assert(!pk.contains(spec_global_object_names()[i]));
        assert(own_property(b[g], spec_global_object_names()[i]) == own_property(a[g], spec_global_object_names()[i]));
    }
    assert forall|i: int| 0 <= i < spec_global_object_names().len() implies match global_entry(
        b,
        g,
        #[trigger] spec_global_object_names()[i],
    ) {
        Some(id) => is_global_object(b, id as int, spec_global_object_names()[i]),
        None => false,
    } by {
        let name = spec_global_object_names()[i];
        assert(!pk.contains(name));
        assert(own_property(b[g], name) == own_property(a[g], name));
        let id = global_entry(a, g, name).unwrap() as int;
        assert(is_global_object(a, id, name));
        assert(b[id].class_type == a[id].class_type);
        assert(inner_value(b[id], "name"@) == inner_value(a[id], "name"@));
        assert(inner_value(b[id], IS_GLOABL_OBJECT@) == inner_value(a[id], IS_GLOABL_OBJECT@));
        let p = a[id].prototype.unwrap() as int;
        assert(own_property(b[p], "constructor"@) == own_property(a[p], "constructor"@));
    }
}

/// The object the global object holds under `name` (the internal form of the lookup, taking
/// the name as a `String`).
pub fn get_global_object(ctx: &Context, name: String) -> (r: Option<ObjId>)
    requires
        ctx.wf(),
    ensures
        r == global_ref(ctx.objects@, ctx.global as int, name@),
        r matches Some(id) ==> id < ctx.objects@.len(),
{
    let value = ctx.get_value(ctx.global, &name);
    to_object_ref(&value)
}

/// The object that a value refers to, if it refers to one.
pub fn to_object_ref(v: &JsValue) -> (r: Option<ObjId>)
    ensures
        r == value_ref(*v),
{
    match v {
        JsValue::Object(i) => Some(*i),
        JsValue::Array(i) => Some(*i),
        JsValue::Function(i) => Some(*i),
        JsValue::RefObject(i) => Some(*i),
        JsValue::StringObj(i) => Some(*i),
        JsValue::NumberObj(i) => Some(*i),
        JsValue::BooleanObj(i) => Some(*i),
        JsValue::Promise(i) => Some(*i),
        _ => None,
    }
}

/// The object that the global object holds under `name`: `None` when the global object has
/// no such property or it holds no object.
pub fn get_global_object_by_name(ctx: &Context, name: &str) -> (r: Option<ObjId>)
    requires
        ctx.wf(),
    ensures
        r == global_ref(ctx.objects@, ctx.global as int, name@),
        r matches Some(id) ==> id < ctx.objects@.len(),
{
    get_global_object(ctx, name.to_owned())
}

/// Whether the global object holds an object under `name` and that object has a prototype.
pub open spec fn has_global_prototype(objs: Seq<Object>, g: int, name: Seq<char>) -> bool {
    match global_ref(objs, g, name) {
        Some(id) => id < objs.len() && objs[id as int].prototype is Some,
        None => false,
    }
}

/// The prototype of the object that the global object holds under `name`.
pub open spec fn global_prototype(objs: Seq<Object>, g: int, name: Seq<char>) -> ObjId {
    objs[global_ref(objs, g, name).unwrap() as int].prototype.unwrap()
}

/// The prototype of the global object called `name`.
pub fn get_global_object_prototype_by_name(ctx: &Context, name: &str) -> (r: ObjId)
    requires
        ctx.wf(),
        has_global_prototype(ctx.objects@, ctx.global as int, name@),
    ensures
        r == global_prototype(ctx.objects@, ctx.global as int, name@),
        r < ctx.objects@.len(),
{
    let obj = get_global_object_by_name(ctx, name);
    let id = match obj {
        Some(id) => id,
        None => 0,
    };
    proof {
        assert(crate::value::object_ok(ctx.objects@[id as int], ctx.objects@.len()));
    }
    match ctx.objects[id].prototype {
        Some(p) => p,
        None => 0,
    }
}

} // verus!

verus! {

/// What `bind_global_functions` binds at position `i` of `spec_global_function_names`:
/// a native function's length and the function, or `None` for the constants `NaN` and
/// `Infinity`.
pub open spec fn spec_global_function_kind(i: int) -> Option<(u64, Builtin)> {
    if i == 0 {
        Some((NUMBER_TWO, Builtin::ParseInt))
    } else if i == 1 {
        Some((NUMBER_ONE, Builtin::ParseFloat))
    } else if i == 2 {
        Some((NUMBER_ONE, Builtin::IsNaN))
    } else if i == 3 {
        Some((NUMBER_ONE, Builtin::IsFinite))
    } else if i == 4 || i == 5 {
        None
    } else if i == 6 {
        Some((NUMBER_ONE, Builtin::DecodeURI))
    } else if i == 7 {
        Some((NUMBER_ONE, Builtin::DecodeURIComponent))
    } else if i == 8 {
        Some((NUMBER_ONE, Builtin::EncodeURI))
    } else {
        Some((NUMBER_ONE, Builtin::EncodeURIComponent))
    }
}

/// The constants: `NaN` at position 4, `Infinity` at position 5.
pub open spec fn spec_global_constant(i: int) -> JsValue {
    if i == 4 {
        JsValue::NaN
    } else {
        JsValue::Number(NUMBER_INFINITY)
    }
}

/// The global object holds, enumerable, the function or constant of position `i` under its
/// name, and the global scope holds the same value under that name.
pub open spec fn binds_global_function(objs: Seq<Object>, g: int, scope: Seq<(String, JsValue)>, i: int) -> bool {
    let name = spec_global_function_names()[i];
    match own_property(objs[g], name) {
        Some(p) => {
            &&& p.enumerable
            &&& lookup(scope, name) == Some(p.value)
            &&& match spec_global_function_kind(i) {
                Some((len, b)) => match p.value {
                    JsValue::Function(f) => f < objs.len() && is_builtin_function(objs[f as int], name, len, b),
                    _ => false,
                },
                None => p.value == spec_global_constant(i),
            }
        },
        None => false,
    }
}

/// All global functions and constants are bound.
pub open spec fn global_functions_bound(objs: Seq<Object>, g: int, scope: Seq<(String, JsValue)>) -> bool {
    forall|i: int| 0 <= i < spec_global_function_names().len() ==> #[trigger] binds_global_function(objs, g, scope, i)
}

fn global_function_entry(i: usize) -> (r: (&'static str, Option<(u64, Builtin)>))
    requires
        i < 10,
    ensures
        r.0@ == spec_global_function_names()[i as int],
        r.1 == spec_global_function_kind(i as int),
{
    if i == 0 {
        ("parseInt", Some((NUMBER_TWO, Builtin::ParseInt)))
    } else if i == 1 {
        ("parseFloat", Some((NUMBER_ONE, Builtin::ParseFloat)))
    } else if i == 2 {
        ("isNaN", Some((NUMBER_ONE, Builtin::IsNaN)))
    } else if i == 3 {
        ("isFinite", Some((NUMBER_ONE, Builtin::IsFinite)))
    } else if i == 4 {
        ("NaN", None)
    } else if i == 5 {
        ("Infinity", None)
    } else if i == 6 {
        ("decodeURI", Some((NUMBER_ONE, Builtin::DecodeURI)))
    } else if i == 7 {
        ("decodeURIComponent", Some((NUMBER_ONE, Builtin::DecodeURIComponent)))
    } else if i == 8 {
        ("encodeURI", Some((NUMBER_ONE, Builtin::EncodeURI)))
    } else {
        ("encodeURIComponent", Some((NUMBER_ONE, Builtin::EncodeURIComponent)))
    }
}

proof fn lemma_function_names_distinct()
    ensures
        forall|i: int, j: int|
            0 <= i < 10 && 0 <= j < 10 && i != j ==> spec_global_function_names()[i]
                != spec_global_function_names()[j],
        spec_global_function_names().len() == 10,
        forall|i: int| 0 <= i < 10 ==> #[trigger] spec_global_function_names()[i] != "name"@ && spec_global_function_names()[i] != "length"@ && spec_global_function_names()[i] != "constructor"@,
{
    lemma_global_function_names();
    reveal_strlit("name");
    reveal_strlit("length");
    reveal_strlit("constructor");
    let f = spec_global_function_names();
    assert forall|i: int, j: int| 0 <= i < 10 && 0 <= j < 10 && i != j implies f[i] != f[j] by {
        if f[i] == f[j] {
            assert(f[i].len() == f[j].len());
            assert(f[i][0] == f[j][0]);
        }
    }
    assert forall|i: int| 0 <= i < 10 implies #[trigger] f[i] != "name"@ && f[i] != "length"@ && f[i] != "constructor"@ by {
        if f[i] == "name"@ {
            assert(f[i].len() == 4);
        }
        if f[i] == "length"@ {
            assert(f[i].len() == 6);
        }
        if f[i] == "constructor"@ {
            assert(f[i].len() == 11);
        }
    }
}

/// A native function object stays one when the heap changes only at other keys.
pub proof fn lemma_builtin_frame(
    a: Seq<Object>,
    b: Seq<Object>,
    f: int,
    pk: Set<Seq<char>>,
    ik: Set<Seq<char>>,
    name: Seq<char>,
    len: u64,
    bt: Builtin,
)
    requires
        writes_only(a, b, pk, ik),
        0 <= f < a.len(),
        is_builtin_function(a[f], name, len, bt),
        !pk.contains("name"@),
        !pk.contains("length"@),
    ensures
        is_builtin_function(b[f], name, len, bt),
{
    assert(own_property(b[f], "name"@) == own_property(a[f], "name"@));
    assert(own_property(b[f], "length"@) == own_property(a[f], "length"@));
}

/// Binds the global functions `parseInt`, `parseFloat`, `isNaN`, `isFinite`, `decodeURI`,
/// `decodeURIComponent`, `encodeURI`, `encodeURIComponent` and the constants `NaN` and
/// `Infinity`, on the global object and in the global scope.
pub fn bind_global_functions(ctx: &mut Context)
    requires
        old(ctx).wf(),
    ensures
        final(ctx).wf(),
        final(ctx).global == old(ctx).global,
        writes_only(old(ctx).objects@, final(ctx).objects@, spec_global_function_names().to_set(), Set::empty()),
        global_functions_bound(final(ctx).objects@, final(ctx).global as int, final(ctx).scope@),
        forall|k: Seq<char>| !spec_global_function_names().contains(k) ==> #[trigger] lookup(final(ctx).scope@, k) == lookup(old(ctx).scope@, k),
{
    let ghost fset = spec_global_function_names().to_set();
    let global = ctx.global;
    let mut i: usize = 0;
    proof {
        lemma_function_names_distinct();
        crate::frame::lemma_writes_only_refl(ctx.objects@);
        crate::frame::lemma_writes_only_weaken(ctx.objects@, ctx.objects@, Set::empty(), Set::empty(), fset, Set::empty());
    }
    while i < 10
        invariant
            ctx.wf(),
            ctx.global == global,
            i <= 10,
            spec_global_function_names().len() == 10,
            fset == spec_global_function_names().to_set(),
            writes_only(old(ctx).objects@, ctx.objects@, fset, Set::empty()),
            forall|k: int| 0 <= k < i ==> #[trigger] binds_global_function(ctx.objects@, global as int, ctx.scope@, k),
            forall|k: Seq<char>| !spec_global_function_names().subrange(0, i as int).contains(k) ==> #[trigger] lookup(ctx.scope@, k) == lookup(old(ctx).scope@, k),
        decreases 10 - i,
    {
        proof {
            lemma_function_names_distinct();
        }
        let (name, kind) = global_function_entry(i);
        let ghost before = ctx.objects@;
        let ghost before_scope = ctx.scope@;
        let value = match kind {
            Some((len, b)) => builtin_function(ctx, name.to_owned(), len, b),
            None => if i == 4 {
                JsValue::NaN
            } else {
                JsValue::Number(NUMBER_INFINITY)
            },
        };
        let ghost mid = ctx.objects@;
        proof {
            crate::frame::lemma_writes_only_grow(before, mid);
        }
        ctx.insert_property(global, name.to_owned(), Property { enumerable: true, value: value.clone() });
        let ghost mid2 = ctx.objects@;
        ctx.set_scope_value(name.to_owned(), value);
        proof {
            let objs = ctx.objects@;
            let nm = spec_global_function_names()[i as int];
            crate::frame::lemma_writes_only_property(mid, objs, global as int, nm, Property { enumerable: true, value: value });
            crate::frame::lemma_writes_only_trans(before, mid, objs, Set::empty(), Set::empty(), set![nm], Set::empty());
            assert(Set::<Seq<char>>::empty().union(set![nm]) =~= set![nm]);
            assert(Set::<Seq<char>>::empty().union(Set::<Seq<char>>::empty()) =~= Set::<Seq<char>>::empty());
            assert(fset.contains(nm));
            crate::frame::lemma_writes_only_weaken(before, objs, set![nm], Set::empty(), fset, Set::empty());
            crate::frame::lemma_writes_only_trans(old(ctx).objects@, before, objs, fset, Set::empty(), fset, Set::empty());
            assert(fset.union(fset) =~= fset);
            assert(Set::<Seq<char>>::empty().union(Set::<Seq<char>>::empty()) =~= Set::<Seq<char>>::empty());
            match kind {
                Some((len, b)) => {
                    crate::frame::lemma_writes_only_property(mid, objs, global as int, nm, Property { enumerable: true, value: value });
                    lemma_builtin_frame(mid, objs, before.len() as int, set![nm], Set::empty(), nm, len, b);
                },
                None => {},
            }
            assert(binds_global_function(objs, global as int, ctx.scope@, i as int));
            assert forall|k: int| 0 <= k < i + 1 implies #[trigger] binds_global_function(objs, global as int, ctx.scope@, k) by {
                if k < i {
                    let nk = spec_global_function_names()[k];
                    assert(nk != nm);
                    assert(binds_global_function(before, global as int, before_scope, k));
                    assert(own_property(objs[global as int], nk) == own_property(before[global as int], nk));
                    assert(lookup(ctx.scope@, nk) == lookup(before_scope, nk));
                    match spec_global_function_kind(k) {
                        Some((len, b)) => {
                            let p = own_property(before[global as int], nk).unwrap();
                            match p.value {
                                JsValue::Function(f) => {
                                    lemma_builtin_frame(before, objs, f as int, set![nm], Set::empty(), nk, len, b);
                                },
                                _ => {},
                            }
                        },
                        None => {},
                    }
                }
            }
            assert forall|k: Seq<char>| !spec_global_function_names().subrange(0, i + 1).contains(k) implies #[trigger] lookup(ctx.scope@, k) == lookup(old(ctx).scope@, k) by {
                assert(spec_global_function_names().subrange(0, i + 1)[i as int] == nm);
                assert(k != nm);
                if spec_global_function_names().subrange(0, i as int).contains(k) {
                    let j = choose|j: int| 0 <= j < i && spec_global_function_names().subrange(0, i as int)[j] == k;
                    assert(spec_global_function_names().subrange(0, i + 1)[j] == k);
                }
            }
        }
        i = i + 1;
    }
    assert(spec_global_function_names().subrange(0, 10) =~= spec_global_function_names());
}

} // verus!

verus! {

/// Object `o` holds, enumerable, a native function `bt` called `name` of length `len`
/// under own property `name`.
pub open spec fn binds_method(objs: Seq<Object>, o: int, name: Seq<char>, len: u64, bt: Builtin) -> bool {
    &&& 0 <= o < objs.len()
    &&& match own_property(objs[o], name) {
        Some(p) => p.enumerable && match p.value {
            JsValue::Function(f) => f < objs.len() && is_builtin_function(objs[f as int], name, len, bt),
            _ => false,
        },
        None => false,
    }
}

pub proof fn lemma_binds_method_frame(
    a: Seq<Object>,
    b: Seq<Object>,
    o: int,
    name: Seq<char>,
    len: u64,
    bt: Builtin,
    pk: Set<Seq<char>>,
    ik: Set<Seq<char>>,
)
    requires
        writes_only(a, b, pk, ik),
        binds_method(a, o, name, len, bt),
        !pk.contains(name),
        !pk.contains("name"@),
        !pk.contains("length"@),
    ensures
        binds_method(b, o, name, len, bt),
{
    assert(own_property(b[o], name) == own_property(a[o], name));
    let p = own_property(a[o], name).unwrap();
    match p.value {
        JsValue::Function(f) => {
            lemma_builtin_frame(a, b, f as int, pk, ik, name, len, bt);
        },
        _ => {},
    }
}

/// Creates a native function and stores it under `name` on object `target`: as a defined
/// property (`define == true`) or as a plain own property.
pub fn install_function(ctx: &mut Context, target: ObjId, name: &str, len: u64, bt: Builtin, define: bool)
    requires
        old(ctx).wf(),
        target < old(ctx).objects@.len(),
    ensures
        final(ctx).wf(),
        final(ctx).global == old(ctx).global,
        final(ctx).scope == old(ctx).scope,
        writes_only(old(ctx).objects@, final(ctx).objects@, set![name@], Set::empty()),
        binds_method(final(ctx).objects@, target as int, name@, len, bt),
{
    let ghost a = ctx.objects@;
    let f = builtin_function(ctx, name.to_owned(), len, bt);
    let ghost b = ctx.objects@;
    if define {
        ctx.define_property(target, name.to_owned(), Property { enumerable: true, value: f });
    } else {
        ctx.insert_property(target, name.to_owned(), Property { enumerable: true, value: f });
    }
    proof {
        let c = ctx.objects@;
        crate::frame::lemma_writes_only_grow(a, b);
        crate::frame::lemma_writes_only_property(b, c, target as int, name@, Property { enumerable: true, value: f });
        crate::frame::lemma_writes_only_trans(a, b, c, Set::empty(), Set::empty(), set![name@], Set::empty());
        assert(Set::<Seq<char>>::empty().union(set![name@]) =~= set![name@]);
        assert(Set::<Seq<char>>::empty().union(Set::<Seq<char>>::empty()) =~= Set::<Seq<char>>::empty());
        assert(c[a.len() as int] == b[a.len() as int]);
    }
}

} // verus!

verus! {

/// The global functions stay bound when the heap changes at none of their names, nor at
/// `name` or `length`, and the scope stays.
pub proof fn lemma_global_functions_bound_frame(
    a: Seq<Object>,
    b: Seq<Object>,
    g: int,
    scope: Seq<(String, JsValue)>,
    pk: Set<Seq<char>>,
    ik: Set<Seq<char>>,
)
    requires
        writes_only(a, b, pk, ik),
        0 <= g < a.len(),
        global_functions_bound(a, g, scope),
        forall|i: int| 0 <= i < spec_global_function_names().len() ==> !pk.contains(#[trigger] spec_global_function_names()[i]),
        !pk.contains("name"@),
        !pk.contains("length"@),
    ensures
        global_functions_bound(b, g, scope),
{
    assert forall|i: int| 0 <= i < spec_global_function_names().len() implies #[trigger] binds_global_function(b, g, scope, i) by {
        let name = spec_global_function_names()[i];
        assert(binds_global_function(a, g, scope, i));
        assert(!pk.contains(name));
        assert(own_property(b[g], name) == own_property(a[g], name));
        let p = own_property(a[g], name).unwrap();
        match spec_global_function_kind(i) {
            Some((len, bt)) => {
                match p.value {
                    JsValue::Function(f) => {
                        lemma_builtin_frame(a, b, f as int, pk, ik, name, len, bt);
                    },
                    _ => {},
                }
            },
            None => {},
        }
    }
}

} // verus!

verus! {

/// The built-in global object `name` (when the global object holds one with a prototype)
/// has its prototype linked internally to `op`.
pub open spec fn prototype_linked(objs: Seq<Object>, g: int, name: Seq<char>, op: ObjId) -> bool {
    match global_ref(objs, g, name) {
        Some(id) => match objs[id as int].prototype {
            Some(p) => inner_value(objs[p as int], PROTO_PROPERTY_NAME@) == Some(JsValue::RefObject(op)),
            None => true,
        },
        None => true,
    }
}

/// Every built-in global object but `Object` has its prototype linked to `op`.
pub open spec fn prototypes_linked(objs: Seq<Object>, g: int, op: ObjId) -> bool {
    forall|i: int|
        1 <= i < spec_global_object_names().len() ==> #[trigger] prototype_linked(
            objs,
            g,
            spec_global_object_names()[i],
            op,
        )
}

/// Links the prototype of every built-in global object but `Object` to `Object`'s prototype.
fn link_prototypes(ctx: &mut Context)
    requires
        old(ctx).wf(),
        standard_globals(old(ctx).objects@, old(ctx).global as int),
    ensures
        final(ctx).wf(),
        final(ctx).global == old(ctx).global,
        final(ctx).scope == old(ctx).scope,
        writes_only(old(ctx).objects@, final(ctx).objects@, Set::empty(), set![PROTO_PROPERTY_NAME@]),
        prototypes_linked(
            final(ctx).objects@,
            final(ctx).global as int,
            global_prototype(old(ctx).objects@, old(ctx).global as int, GLOBAL_OBJECT_NAME@),
        ),
{
    let ghost a = ctx.objects@;
    let ghost g = ctx.global as int;
    let ghost ik = set![PROTO_PROPERTY_NAME@];
    proof {
        crate::frame::lemma_writes_only_refl(a);
        crate::frame::lemma_writes_only_weaken(a, a, Set::empty(), Set::empty(), Set::empty(), ik);
        assert(spec_global_object_names()[0] == GLOBAL_OBJECT_NAME@);
        let o = global_entry(a, g, GLOBAL_OBJECT_NAME@).unwrap() as int;
        assert(is_global_object(a, o, GLOBAL_OBJECT_NAME@));
    }
    let object = get_global_object(ctx, GLOBAL_OBJECT_NAME.to_owned());
    let object_id = match object {
        Some(id) => id,
        None => 0,
    };
    let object_proto = ctx.objects[object_id].prototype;
    let ghost op = global_prototype(a, g, GLOBAL_OBJECT_NAME@);
    if let Some(op_id) = object_proto {
        proof {
            assert(op_id == op);
            assert(crate::value::object_ok(a[object_id as int], a.len()));
        }
        let names = global_object_name_list();
        // `Object` comes first in the list and is skipped.
        let mut i: usize = 1;
        while i < names.len()
            invariant
                1 <= i <= names@.len(),
                names@.len() == spec_global_object_names().len(),
                forall|j: int| 0 <= j < names@.len() ==> (#[trigger] names@[j])@ == spec_global_object_names()[j],
                ctx.wf(),
                ctx.global == old(ctx).global,
                ctx.scope == old(ctx).scope,
                g == ctx.global,
                a == old(ctx).objects@,
                ik == set![PROTO_PROPERTY_NAME@],
                op_id == op,
                op_id < a.len(),
                writes_only(a, ctx.objects@, Set::empty(), ik),
                forall|j: int| 1 <= j < i ==> #[trigger] prototype_linked(ctx.objects@, g, spec_global_object_names()[j], op),
            decreases names@.len() - i,
        {
            let ghost before = ctx.objects@;
            let item = get_global_object(ctx, names[i].to_owned());
            let ghost name = spec_global_object_names()[i as int];
            if let Some(id) = item {
                let proto = ctx.objects[id].prototype;
                if let Some(p) = proto {
                    proof {
                        assert(crate::value::object_ok(before[id as int], before.len()));
                    }
                    ctx.set_inner_property_value(p, PROTO_PROPERTY_NAME.to_owned(), JsValue::RefObject(op_id));
                    proof {
                        let after = ctx.objects@;
                        crate::frame::lemma_writes_only_inner(before, after, p as int, PROTO_PROPERTY_NAME@);
                        crate::frame::lemma_writes_only_trans(a, before, after, Set::empty(), ik, Set::empty(), ik);
                        crate::frame::lemma_writes_only_weaken(a, after, Set::empty().union(Set::empty()), ik.union(ik), Set::empty(), ik);
                        assert forall|j: int| 1 <= j < i + 1 implies #[trigger] prototype_linked(after, g, spec_global_object_names()[j], op) by {
                            let nj = spec_global_object_names()[j];
                            assert(own_property(after[g], nj) == own_property(before[g], nj));
                            if j < i {
                                assert(prototype_linked(before, g, nj, op));
                                match global_ref(before, g, nj) {
                                    Some(idj) => {
                                        if idj < before.len() {
                                            assert(after[idj as int].prototype == before[idj as int].prototype);
                                        }
                                        match before[idj as int].prototype {
                                            Some(pj) => {
                                                if pj != p {
                                                    assert(after[pj as int] == before[pj as int]);
                                                }
                                            },
                                            None => {},
                                        }
                                    },
                                    None => {},
                                }
                            } else {
                                assert(after[id as int].prototype == before[id as int].prototype);
                            }
                        }
                    }
                } else {
                    proof {
                        assert(prototype_linked(before, g, name, op));
                    }
                }
            } else {
                proof {
                    assert(prototype_linked(before, g, name, op));
                }
            }
            i = i + 1;
        }
    }
}

} // verus!

verus! {

/// Binds the global functions and the methods of the built-in objects this library provides
/// (`RegExp`, `JSON`, `Date`), then links the prototypes of the built-in objects to `Object`'s
/// prototype.
pub fn bind_global(ctx: &mut Context)
    requires
        old(ctx).wf(),
        standard_globals(old(ctx).objects@, old(ctx).global as int),
    ensures
        final(ctx).wf(),
        final(ctx).global == old(ctx).global,
        writes_only(
            old(ctx).objects@,
            final(ctx).objects@,
            spec_global_function_names().to_set().union(spec_method_names()),
            set![INSTANTIATE_OBJECT_METHOD_NAME@, PROTO_PROPERTY_NAME@],
        ),
        standard_globals(final(ctx).objects@, final(ctx).global as int),
        global_functions_bound(final(ctx).objects@, final(ctx).global as int, final(ctx).scope@),
        forall|k: Seq<char>| !spec_global_function_names().contains(k) ==> #[trigger] lookup(final(ctx).scope@, k) == lookup(old(ctx).scope@, k),
        regexp_bound(
            final(ctx).objects@,
            global_ref(old(ctx).objects@, old(ctx).global as int, GLOBAL_REGEXP_NAME@).unwrap() as int,
        ),
        binds_method(
            final(ctx).objects@,
            global_ref(old(ctx).objects@, old(ctx).global as int, GLOBAL_JSON_NAME@).unwrap() as int,
            "parse"@,
            NUMBER_ONE,
            Builtin::JsonParse,
        ),
        binds_method(
            final(ctx).objects@,
            global_ref(old(ctx).objects@, old(ctx).global as int, GLOBAL_JSON_NAME@).unwrap() as int,
            "stringify"@,
            NUMBER_ONE,
            Builtin::JsonStringify,
        ),
        binds_method(
            final(ctx).objects@,
            global_ref(old(ctx).objects@, old(ctx).global as int, GLOBAL_DATE_NAME@).unwrap() as int,
            "now"@,
            NUMBER_ZERO,
            Builtin::DateNow,
        ),
        prototypes_linked(
            final(ctx).objects@,
            final(ctx).global as int,
            global_prototype(old(ctx).objects@, old(ctx).global as int, GLOBAL_OBJECT_NAME@),
        ),
{
    let ghost a0 = ctx.objects@;
    let ghost g = ctx.global as int;
    proof {
        lemma_function_names_distinct();
    }
    bind_global_functions(ctx);
    let ghost a1 = ctx.objects@;
    let ghost s1 = ctx.scope@;
    proof {
        lemma_functions_keep_globals(a0, a1, g);
        lemma_bind_steps_keep_refs(a0, a1, g, spec_global_function_names().to_set(), Set::empty());
    }
    bind_builtin_methods(ctx);
    let ghost a2 = ctx.objects@;
    proof {
        lemma_method_names();
        lemma_keep_bindings(a1, a2, g, s1, spec_method_names(), set![INSTANTIATE_OBJECT_METHOD_NAME@]);
        lemma_bind_steps_keep_refs(a1, a2, g, spec_method_names(), set![INSTANTIATE_OBJECT_METHOD_NAME@]);
    }
    link_prototypes(ctx);
    proof {
        let a3 = ctx.objects@;
        let ik = set![PROTO_PROPERTY_NAME@];
        let rid = global_ref(a0, g, GLOBAL_REGEXP_NAME@).unwrap() as int;
        let jid = global_ref(a0, g, GLOBAL_JSON_NAME@).unwrap() as int;
        let did = global_ref(a0, g, GLOBAL_DATE_NAME@).unwrap() as int;
        lemma_keep_bindings(a2, a3, g, s1, Set::empty(), ik);
        lemma_regexp_bound_frame(a2, a3, rid, Set::empty(), ik);
        lemma_binds_method_frame(a2, a3, jid, "parse"@, NUMBER_ONE, Builtin::JsonParse, Set::empty(), ik);
        lemma_binds_method_frame(a2, a3, jid, "stringify"@, NUMBER_ONE, Builtin::JsonStringify, Set::empty(), ik);
        lemma_binds_method_frame(a2, a3, did, "now"@, NUMBER_ZERO, Builtin::DateNow, Set::empty(), ik);
        lemma_bind_global_writes(a0, a1, a2, a3);
    }
}

/// Binds the methods of `RegExp`, `JSON` and `Date`.
fn bind_builtin_methods(ctx: &mut Context)
    requires
        old(ctx).wf(),
        standard_globals(old(ctx).objects@, old(ctx).global as int),
    ensures
        final(ctx).wf(),
        final(ctx).global == old(ctx).global,
        final(ctx).scope == old(ctx).scope,
        writes_only(old(ctx).objects@, final(ctx).objects@, spec_method_names(), set![INSTANTIATE_OBJECT_METHOD_NAME@]),
        regexp_bound(
            final(ctx).objects@,
            global_ref(old(ctx).objects@, old(ctx).global as int, GLOBAL_REGEXP_NAME@).unwrap() as int,
        ),
        binds_method(
            final(ctx).objects@,
            global_ref(old(ctx).objects@, old(ctx).global as int, GLOBAL_JSON_NAME@).unwrap() as int,
            "parse"@,
            NUMBER_ONE,
            Builtin::JsonParse,
        ),
        binds_method(
            final(ctx).objects@,
            global_ref(old(ctx).objects@, old(ctx).global as int, GLOBAL_JSON_NAME@).unwrap() as int,
            "stringify"@,
            NUMBER_ONE,
            Builtin::JsonStringify,
        ),
        binds_method(
            final(ctx).objects@,
            global_ref(old(ctx).objects@, old(ctx).global as int, GLOBAL_DATE_NAME@).unwrap() as int,
            "now"@,
            NUMBER_ZERO,
            Builtin::DateNow,
        ),
{
    let ghost a0 = ctx.objects@;
    let ghost g = ctx.global as int;
    proof {
        lemma_standard_refs(a0, g);
    }
    bind_global_regexp(ctx);
    let ghost a1 = ctx.objects@;
    let ghost rid = global_ref(a0, g, GLOBAL_REGEXP_NAME@).unwrap() as int;
    let ghost jid = global_ref(a0, g, GLOBAL_JSON_NAME@).unwrap() as int;
    proof {
        lemma_method_names();
        lemma_bind_steps_keep_refs(a0, a1, g, set!["test"@, "exec"@, "toString"@], set![INSTANTIATE_OBJECT_METHOD_NAME@]);
    }
    bind_global_json(ctx);
    let ghost a2 = ctx.objects@;
    proof {
        lemma_method_names();
        lemma_bind_steps_keep_refs(a1, a2, g, set!["parse"@, "stringify"@], Set::empty());
        assert(regexp_bound(a2, rid)) by {
            lemma_regexp_bound_frame(a1, a2, rid, set!["parse"@, "stringify"@], Set::empty());
        }
    }
    bind_global_date(ctx);
    let ghost a3 = ctx.objects@;
    proof {
        lemma_method_names();
        assert(regexp_bound(a3, rid)) by {
            lemma_regexp_bound_frame(a2, a3, rid, set!["now"@], Set::empty());
        }
        assert(binds_method(a3, jid, "parse"@, NUMBER_ONE, Builtin::JsonParse)) by {
            lemma_binds_method_frame(a2, a3, jid, "parse"@, NUMBER_ONE, Builtin::JsonParse, set!["now"@], Set::empty());
        }
        assert(binds_method(a3, jid, "stringify"@, NUMBER_ONE, Builtin::JsonStringify)) by {
            lemma_binds_method_frame(a2, a3, jid, "stringify"@, NUMBER_ONE, Builtin::JsonStringify, set!["now"@], Set::empty());
        }
        lemma_method_writes(a0, a1, a2, a3);
    }
}

/// The global object of a standard heap holds `RegExp`, `JSON` and `Date`.
proof fn lemma_standard_refs(a: Seq<Object>, g: int)
    requires
        standard_globals(a, g),
    ensures
        global_ref(a, g, GLOBAL_REGEXP_NAME@) is Some,
        global_ref(a, g, GLOBAL_JSON_NAME@) is Some,
        global_ref(a, g, GLOBAL_DATE_NAME@) is Some,
{
    let names = spec_global_object_names();
    assert(names[7] == GLOBAL_REGEXP_NAME@);
    assert(names[10] == GLOBAL_JSON_NAME@);
    assert(names[11] == GLOBAL_DATE_NAME@);
    assert(global_entry(a, g, names[7]) is Some);
    assert(global_entry(a, g, names[10]) is Some);
    assert(global_entry(a, g, names[11]) is Some);
}

/// The three method-binding steps together write only method names and the internal
/// instantiation name.
proof fn lemma_method_writes(a0: Seq<Object>, a1: Seq<Object>, a2: Seq<Object>, a3: Seq<Object>)
    requires
        writes_only(a0, a1, set!["test"@, "exec"@, "toString"@], set![INSTANTIATE_OBJECT_METHOD_NAME@]),
        writes_only(a1, a2, set!["parse"@, "stringify"@], Set::empty()),
        writes_only(a2, a3, set!["now"@], Set::empty()),
    ensures
        writes_only(a0, a3, spec_method_names(), set![INSTANTIATE_OBJECT_METHOD_NAME@]),
{
    let m = spec_method_names();
    let i = set![INSTANTIATE_OBJECT_METHOD_NAME@];
    crate::frame::lemma_writes_only_weaken(a0, a1, set!["test"@, "exec"@, "toString"@], i, m, i);
    crate::frame::lemma_writes_only_weaken(a1, a2, set!["parse"@, "stringify"@], Set::empty(), m, i);
    crate::frame::lemma_writes_only_weaken(a2, a3, set!["now"@], Set::empty(), m, i);
    crate::frame::lemma_writes_only_trans(a0, a1, a2, m, i, m, i);
    assert(m.union(m) =~= m);
    assert(i.union(i) =~= i);
    crate::frame::lemma_writes_only_trans(a0, a2, a3, m, i, m, i);
}

/// A step that writes neither a built-in global object name nor `constructor`, `name` or
/// `isGlobal` keeps what the global object holds under those names, and the prototypes.
proof fn lemma_bind_steps_keep_refs(a: Seq<Object>, b: Seq<Object>, g: int, pk: Set<Seq<char>>, ik: Set<Seq<char>>)
    requires
        writes_only(a, b, pk, ik),
        0 <= g < a.len(),
        standard_globals(a, g),
        pk.subset_of(spec_global_function_names().to_set().union(spec_method_names())),
        !ik.contains("name"@),
        !ik.contains(IS_GLOABL_OBJECT@),
    ensures
        standard_globals(b, g),
        forall|i: int| 0 <= i < spec_global_object_names().len() ==> #[trigger] global_ref(b, g, spec_global_object_names()[i]) == global_ref(a, g, spec_global_object_names()[i]),
        forall|i: int| 0 <= i < spec_global_object_names().len() ==> #[trigger] global_prototype(b, g, spec_global_object_names()[i]) == global_prototype(a, g, spec_global_object_names()[i]),
        global_ref(b, g, GLOBAL_REGEXP_NAME@) == global_ref(a, g, GLOBAL_REGEXP_NAME@),
        global_ref(b, g, GLOBAL_JSON_NAME@) == global_ref(a, g, GLOBAL_JSON_NAME@),
        global_ref(b, g, GLOBAL_DATE_NAME@) == global_ref(a, g, GLOBAL_DATE_NAME@),
        global_ref(b, g, GLOBAL_OBJECT_NAME@) == global_ref(a, g, GLOBAL_OBJECT_NAME@),
        global_prototype(b, g, GLOBAL_OBJECT_NAME@) == global_prototype(a, g, GLOBAL_OBJECT_NAME@),
        global_entry(b, g, GLOBAL_REGEXP_NAME@) == global_entry(a, g, GLOBAL_REGEXP_NAME@),
        global_entry(b, g, GLOBAL_JSON_NAME@) == global_entry(a, g, GLOBAL_JSON_NAME@),
        global_entry(b, g, GLOBAL_DATE_NAME@) == global_entry(a, g, GLOBAL_DATE_NAME@),
{
    lemma_global_names_distinct();
    lemma_method_names();
    lemma_function_names_distinct();
    reveal_strlit("constructor");
    let names = spec_global_object_names();
    let fset = spec_global_function_names().to_set();
    assert forall|i: int| 0 <= i < names.len() implies !pk.contains(#[trigger] names[i]) by {
        assert(!spec_global_function_names().contains(names[i]));
        assert(!spec_method_names().contains(names[i]));
    }
    assert(!pk.contains("constructor"@)) by {
        if spec_global_function_names().contains("constructor"@) {
            let j = choose|j: int| 0 <= j < 10 && spec_global_function_names()[j] == "constructor"@;
            assert(spec_global_function_names()[j] != "constructor"@);
        }
    }
    lemma_standard_globals_frame(a, b, g, pk, ik);
    assert forall|i: int| 0 <= i < names.len() implies #[trigger] global_ref(b, g, names[i]) == global_ref(a, g, names[i]) && global_prototype(b, g, names[i]) == global_prototype(a, g, names[i]) by {
        assert(own_property(b[g], names[i]) == own_property(a[g], names[i]));
        let id = global_entry(a, g, names[i]).unwrap() as int;
        assert(is_global_object(a, id, names[i]));
        assert(b[id].prototype == a[id].prototype);
    }
    assert(names[0] == GLOBAL_OBJECT_NAME@);
    assert(names[7] == GLOBAL_REGEXP_NAME@);
    assert(names[10] == GLOBAL_JSON_NAME@);
    assert(names[11] == GLOBAL_DATE_NAME@);
    assert(global_ref(b, g, names[0]) == global_ref(a, g, names[0]));
    assert(global_prototype(b, g, names[0]) == global_prototype(a, g, names[0]));
    assert(global_ref(b, g, names[7]) == global_ref(a, g, names[7]));
    assert(global_ref(b, g, names[10]) == global_ref(a, g, names[10]));
    assert(global_ref(b, g, names[11]) == global_ref(a, g, names[11]));
}

/// `bind_global_functions` keeps the built-in global objects.
proof fn lemma_functions_keep_globals(a: Seq<Object>, b: Seq<Object>, g: int)
    requires
        writes_only(a, b, spec_global_function_names().to_set(), Set::empty()),
        0 <= g < a.len(),
        standard_globals(a, g),
    ensures
        standard_globals(b, g),
        forall|i: int| 0 <= i < spec_global_object_names().len() ==> #[trigger] global_entry(b, g, spec_global_object_names()[i]) == global_entry(a, g, spec_global_object_names()[i]),
{
    lemma_global_names_distinct();
    lemma_function_names_distinct();
    reveal_strlit("name");
    reveal_strlit("constructor");
    let fset = spec_global_function_names().to_set();
    let names = spec_global_object_names();
    assert forall|i: int| 0 <= i < names.len() implies !fset.contains(#[trigger] names[i]) by {
        assert(!spec_global_function_names().contains(names[i]));
    }
    assert(!fset.contains("constructor"@)) by {
        if spec_global_function_names().contains("constructor"@) {
            let j = choose|j: int| 0 <= j < 10 && spec_global_function_names()[j] == "constructor"@;
            assert(spec_global_function_names()[j] != "constructor"@);
        }
    }
    lemma_standard_globals_frame(a, b, g, fset, Set::empty());
}

/// A step that writes only method names and internal names other than `name` and `isGlobal`
/// keeps the built-in global objects, what the global object holds, and the global functions.
proof fn lemma_keep_bindings(
    a: Seq<Object>,
    b: Seq<Object>,
    g: int,
    s: Seq<(String, JsValue)>,
    pk: Set<Seq<char>>,
    ik: Set<Seq<char>>,
)
    requires
        writes_only(a, b, pk, ik),
        0 <= g < a.len(),
        standard_globals(a, g),
        global_functions_bound(a, g, s),
        pk.subset_of(spec_method_names()),
        !ik.contains("name"@),
        !ik.contains(IS_GLOABL_OBJECT@),
    ensures
        standard_globals(b, g),
        global_functions_bound(b, g, s),
        forall|k: Seq<char>| !pk.contains(k) ==> #[trigger] own_property(b[g], k) == own_property(a[g], k),
{
    lemma_method_names();
    let m = spec_method_names();
    assert forall|i: int| 0 <= i < spec_global_object_names().len() implies !pk.contains(#[trigger] spec_global_object_names()[i]) by {
        assert(!m.contains(spec_global_object_names()[i]));
    }
    assert forall|i: int| 0 <= i < spec_global_function_names().len() implies !pk.contains(#[trigger] spec_global_function_names()[i]) by {
        assert(!m.contains(spec_global_function_names()[i]));
    }
    assert(!pk.contains("constructor"@));
    assert(!pk.contains("name"@));
    assert(!pk.contains("length"@));
    lemma_standard_globals_frame(a, b, g, pk, ik);
    lemma_global_functions_bound_frame(a, b, g, s, pk, ik);
}

/// The steps of `bind_global` together write only the global function names and the method
/// names, and the internal instantiation and prototype names.
proof fn lemma_bind_global_writes(a0: Seq<Object>, a1: Seq<Object>, a2: Seq<Object>, a3: Seq<Object>)
    requires
        writes_only(a0, a1, spec_global_function_names().to_set(), Set::empty()),
        writes_only(a1, a2, spec_method_names(), set![INSTANTIATE_OBJECT_METHOD_NAME@]),
        writes_only(a2, a3, Set::empty(), set![PROTO_PROPERTY_NAME@]),
    ensures
        writes_only(
            a0,
            a3,
            spec_global_function_names().to_set().union(spec_method_names()),
            set![INSTANTIATE_OBJECT_METHOD_NAME@, PROTO_PROPERTY_NAME@],
        ),
{
    let p = spec_global_function_names().to_set().union(spec_method_names());
    let i = set![INSTANTIATE_OBJECT_METHOD_NAME@, PROTO_PROPERTY_NAME@];
    crate::frame::lemma_writes_only_weaken(a0, a1, spec_global_function_names().to_set(), Set::empty(), p, i);
    crate::frame::lemma_writes_only_weaken(a1, a2, spec_method_names(), set![INSTANTIATE_OBJECT_METHOD_NAME@], p, i);
    crate::frame::lemma_writes_only_weaken(a2, a3, Set::empty(), set![PROTO_PROPERTY_NAME@], p, i);
    crate::frame::lemma_writes_only_trans(a0, a1, a2, p, i, p, i);
    assert(p.union(p) =~= p);
    assert(i.union(i) =~= i);
    crate::frame::lemma_writes_only_trans(a0, a2, a3, p, i, p, i);
}

} // verus!

verus! {

/// Whether the double with these bits is positive or negative infinity.
pub open spec fn f64_is_infinite(bits: u64) -> bool {
    f64_exp(bits) == 2047 && f64_frac(bits) == 0
}

/// `isNaN`: `false` without an argument; `true` for the NaN value; otherwise whether the
/// argument's conversion to a number (`number`, `None` when it has none) is missing or NaN.
pub fn global_is_nan(arg: Option<&JsValue>, number: Option<u64>) -> (r: JsValue)
    ensures
        r == JsValue::Boolean(
            match arg {
                None => false,
                Some(v) => *v is NaN || match number {
                    None => true,
                    Some(b) => f64_is_nan(b),
                },
            },
        ),
{
    match arg {
        None => JsValue::Boolean(false),
        Some(v) => {
            if let JsValue::NaN = v {
                return JsValue::Boolean(true);
            }
            let is_nan = match number {
                None => true,
                Some(b) => bits_is_nan(b),
            };
            JsValue::Boolean(is_nan)
        },
    }
}

/// `isFinite`: `false` without an argument, for the NaN value and for an infinite number;
/// otherwise whether the argument's conversion to a number (`number`, `None` when it has
/// none) is a finite number.
pub fn global_is_finite(arg: Option<&JsValue>, number: Option<u64>) -> (r: JsValue)
    ensures
        r == JsValue::Boolean(
            match arg {
                None => false,
                Some(v) => !(*v is NaN) && !(*v matches JsValue::Number(b) && f64_is_infinite(b)) && match number {
                    None => false,
                    Some(b) => f64_is_finite(b),
                },
            },
        ),
{
    match arg {
        None => JsValue::Boolean(false),
        Some(v) => {
            if let JsValue::NaN = v {
                return JsValue::Boolean(false);
            }
            if let JsValue::Number(b) = v {
                if bits_exponent(*b) == 2047 && bits_fraction(*b) == 0 {
                    return JsValue::Boolean(false);
                }
            }
            let is_finite = match number {
                None => false,
                Some(b) => bits_exponent(b) != 2047,
            };
            JsValue::Boolean(is_finite)
        },
    }
}

fn bits_exponent(bits: u64) -> (r: u64)
    ensures
        r == f64_exp(bits),
{
    (bits % 0x8000_0000_0000_0000) / 0x10_0000_0000_0000
}

fn bits_fraction(bits: u64) -> (r: u64)
    ensures
        r == f64_frac(bits),
{
    (bits % 0x8000_0000_0000_0000) % 0x10_0000_0000_0000
}

fn bits_is_nan(bits: u64) -> (r: bool)
    ensures
        r == f64_is_nan(bits),
{
    bits_exponent(bits) == 2047 && bits_fraction(bits) != 0
}

} // verus!
