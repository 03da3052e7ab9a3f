use vstd::prelude::*;
use crate::constants::{GLOBAL_ARRAY_NAME, GLOBAL_JSON_NAME, PROTO_PROPERTY_NAME, NUMBER_ONE};
use crate::frame::writes_only;
use crate::global::{
    value_is_text, heap_prefix, global_ref, global_prototype, has_global_prototype,
    get_global_object_by_name, get_global_object_prototype_by_name, binds_method, install_function,
    lemma_binds_method_frame,
};
use crate::jsonvalue::{JsonValue, JsonModel, json_parse_outcome, parse_json_text, keys_distinct, contains_array};
use crate::numbits::{
    JsonNumber, f64_int_value, f64_sign, spec_f64_as_usize, spec_json_number, f64_bits_as_usize, json_number_from_bits, lemma_usize_reads_back, lemma_two_pow_values, lemma_small_bit_length, lemma_round_power, law_json_number_finite, round_f64, round_f64_signed, number_from_u128, number_from_i64,
};
use crate::text::push_char;
use crate::uri::opt_text;
use crate::value::{
    ObjId, ClassType, Builtin, JsValue, Property, Object, Context, own_property, inner_value, value_ok, has_key,
    heap_ok, object_ok, name_texts,
};

verus! {

/// A decimal digit as a character.
pub open spec fn digit_char(d: nat) -> char {
    ((d + 48) as u32) as char
}

/// The decimal text of `n` (Rust's `to_string` on an unsigned integer).
pub open spec fn decimal_text(n: nat) -> Seq<char>
    decreases n,
{
    if n < 10 {
        seq![digit_char(n)]
    } else {
        decimal_text(n / 10).push(digit_char(n % 10))
    }
}

pub proof fn lemma_decimal_digits(n: nat)
    ensures
        decimal_text(n).len() >= 1,
        n >= 10 ==> decimal_text(n).len() >= 2,
        forall|i: int| 0 <= i < decimal_text(n).len() ==> '0' <= #[trigger] decimal_text(n)[i] <= '9',
    decreases n,
{
    if n >= 10 {
        lemma_decimal_digits(n / 10);
        let t = decimal_text(n / 10);
        assert forall|i: int| 0 <= i < decimal_text(n).len() implies '0' <= #[trigger] decimal_text(n)[i] <= '9' by {
            if i < t.len() {
                assert(decimal_text(n)[i] == t[i]);
            }
        }
    }
}

pub proof fn lemma_decimal_injective(a: nat, b: nat)
    requires
        decimal_text(a) == decimal_text(b),
    ensures
        a == b,
    decreases a,
{
    lemma_decimal_digits(a);
    lemma_decimal_digits(b);
    if a >= 10 && b >= 10 {
        let ta = decimal_text(a);
        let tb = decimal_text(b);
        assert(ta.last() == digit_char(a % 10));
        assert(tb.last() == digit_char(b % 10));
        assert(ta.drop_last() =~= decimal_text(a / 10));
        assert(tb.drop_last() =~= decimal_text(b / 10));
        lemma_decimal_injective(a / 10, b / 10);
        assert(digit_char(a % 10) == digit_char(b % 10));
        assert((digit_char(a % 10) as u32) == a % 10 + 48);
        assert((digit_char(b % 10) as u32) == b % 10 + 48);
        assert(a % 10 == b % 10);
        assert(a == 10 * (a / 10) + a % 10);
        assert(b == 10 * (b / 10) + b % 10);
        assert(a == b);
    } else if a < 10 && b >= 10 {
        assert(decimal_text(a).len() == 1);
    } else if a >= 10 && b < 10 {
        assert(decimal_text(b).len() == 1);
    } else if a < 10 && b < 10 {
        assert(decimal_text(a) == seq![digit_char(a)]);
        assert(decimal_text(b) == seq![digit_char(b)]);
        assert(seq![digit_char(a)][0] == digit_char(a));
        assert(seq![digit_char(b)][0] == digit_char(b));
        assert(decimal_text(a)[0] == decimal_text(b)[0]);
        assert(digit_char(a) == digit_char(b));
        assert((digit_char(a) as u32) == a + 48);
        assert((digit_char(b) as u32) == b + 48);
        assert(a == b);
    }
}

/// Appends the decimal text of `n`.
fn push_decimal(out: &mut String, n: usize)
    ensures
        final(out)@ == old(out)@ + decimal_text(n as nat),
    decreases n,
{
    if n >= 10 {
        push_decimal(out, n / 10);
    }
    let d = (n % 10) as u32;
    push_char(out, char_of_digit(d));
    assert(final(out)@ =~= old(out)@ + decimal_text(n as nat));
}

fn char_of_digit(d: u32) -> (c: char)
    requires
        d < 10,
    ensures
        c == digit_char(d as nat),
{
    if d == 0 { '0' } else if d == 1 { '1' } else if d == 2 { '2' } else if d == 3 { '3' }
    else if d == 4 { '4' } else if d == 5 { '5' } else if d == 6 { '6' } else if d == 7 { '7' }
    else if d == 8 { '8' } else { '9' }
}

/// The decimal text of `n`.
pub fn decimal_string(n: usize) -> (r: String)
    ensures
        r@ == decimal_text(n as nat),
{
    let mut s = String::new();
    push_decimal(&mut s, n);
    assert(s@ =~= decimal_text(n as nat));
    s
}

} // verus!

verus! {

/// The decimal names `"0"`, `"1"`, ... of the first `n` indices.
pub open spec fn index_names(n: nat) -> Seq<Seq<char>> {
    Seq::new(n, |i: int| decimal_text(i as nat))
}

/// `o` is an array object of `n` elements as the JSON parser builds it: kind `Array`, its
/// constructor and internal prototype those of the global `Array`, a non-enumerable `length`
/// holding `n`, and no own properties but `length` and the `n` index names, in that order.
pub open spec fn is_array_shell(o: Object, n: nat, ctor: ObjId, proto: ObjId) -> bool {
    &&& o.class_type == ClassType::Array
    &&& o.prototype is None
    &&& o.constructor == Some(ctor)
    &&& o.native is None
    &&& forall|k: Seq<char>| k != PROTO_PROPERTY_NAME@ ==> #[trigger] inner_value(o, k) is None
    &&& inner_value(o, PROTO_PROPERTY_NAME@) == Some(JsValue::RefObject(proto))
    &&& own_property(o, "length"@) == Some(Property { enumerable: false, value: JsValue::Number(length_bits(o)) })
    &&& !f64_sign(length_bits(o))
    &&& f64_int_value(length_bits(o)) == Some(round_f64(n) as int)
    &&& o.property@.len() == n + 1
    &&& name_texts(o.property_list@) == seq!["length"@] + index_names(n)
}

/// The bits of the number that an object holds under `length`, if it holds one.
pub open spec fn length_bits(o: Object) -> u64 {
    match own_property(o, "length"@) {
        Some(p) => match p.value {
            JsValue::Number(b) => b,
            _ => 0,
        },
        None => 0,
    }
}

/// Whether `k` is the decimal name of an index below `n`.
pub open spec fn is_index_below(k: Seq<char>, n: nat) -> bool {
    exists|j: nat| j < n && #[trigger] decimal_text(j) == k
}

proof fn lemma_length_not_index(n: nat)
    ensures
        decimal_text(n) != "length"@,
{
    reveal_strlit("length");
    lemma_decimal_digits(n);
    assert(decimal_text(n)[0] != "length"@[0]);
}

/// Builds an array object holding `values` at the indices `0`, `1`, ..., with constructor and
/// internal prototype taken from the global `Array`.
pub fn create_array_from_values(ctx: &mut Context, values: Vec<JsValue>) -> (r: JsValue)
    requires
        old(ctx).wf(),
        has_global_prototype(old(ctx).objects@, old(ctx).global as int, GLOBAL_ARRAY_NAME@),
        forall|i: int| 0 <= i < values@.len() ==> value_ok(#[trigger] values@[i], old(ctx).objects@.len()),
    ensures
        final(ctx).wf(),
        final(ctx).global == old(ctx).global,
        final(ctx).scope == old(ctx).scope,
        heap_prefix(old(ctx).objects@, final(ctx).objects@),
        final(ctx).objects@.len() == old(ctx).objects@.len() + 1,
        r == JsValue::Array(old(ctx).objects@.len() as usize),
        is_array_shell(
            final(ctx).objects@[old(ctx).objects@.len() as int],
            values@.len(),
            global_ref(old(ctx).objects@, old(ctx).global as int, GLOBAL_ARRAY_NAME@).unwrap(),
            global_prototype(old(ctx).objects@, old(ctx).global as int, GLOBAL_ARRAY_NAME@),
        ),
        forall|i: int| 0 <= i < values@.len() ==> #[trigger] own_property(
            final(ctx).objects@[old(ctx).objects@.len() as int],
            decimal_text(i as nat),
        ) == Some(Property { enumerable: true, value: values@[i] }),
{
    let ghost objs0 = ctx.objects@;
    let ghost g = ctx.global as int;
    let ctor = get_global_object_by_name(ctx, GLOBAL_ARRAY_NAME);
    let proto = get_global_object_prototype_by_name(ctx, GLOBAL_ARRAY_NAME);
    let id = ctx.add_object(Object::new(ClassType::Array));
    let ghost fresh = ctx.objects@[id as int];
    let n = values.len();
    let length = number_from_u128(n as u128);
    let length_key = "length".to_owned();
    ctx.define_property(id, length_key, Property { enumerable: false, value: JsValue::Number(length) });
    let ghost step1 = ctx.objects@[id as int];
    ctx.set_inner_property_value(id, PROTO_PROPERTY_NAME.to_owned(), JsValue::RefObject(proto));
    let ghost step2 = ctx.objects@[id as int];
    ctx.set_constructor(id, ctor);
    proof {
        reveal_strlit("length");
        let o = ctx.objects@[id as int];
        assert(length_bits(o) == length);
        assert forall|k: Seq<char>| #[trigger] own_property(o, k) is Some implies k == "length"@ || is_index_below(k, 0) by {
            if k != "length"@ {
                assert(fresh.property@.len() == 0);
                assert(own_property(fresh, k) is None);
            }
        }
        assert forall|k: Seq<char>| k != PROTO_PROPERTY_NAME@ implies #[trigger] inner_value(o, k) is None by {
            assert(fresh.inner_property@.len() == 0);
            assert(inner_value(fresh, k) is None);
            assert(step1.inner_property == fresh.inner_property);
            assert(inner_value(step2, k) == inner_value(step1, k));
            assert(o.inner_property == step2.inner_property);
        }
        assert(name_texts(o.property_list@) =~= seq!["length"@] + index_names(0));
    }
    let mut i: usize = 0;
    while i < n
        invariant
            0 <= i <= n,
            n == values@.len(),
            ctx.wf(),
            ctx.global == old(ctx).global,
            ctx.scope == old(ctx).scope,
            id == objs0.len(),
            ctx.objects@.len() == objs0.len() + 1,
            heap_prefix(objs0, ctx.objects@),
            forall|j: int| 0 <= j < values@.len() ==> value_ok(#[trigger] values@[j], objs0.len()),
            ctx.objects@[id as int].class_type == ClassType::Array,
            ctx.objects@[id as int].prototype is None,
            ctx.objects@[id as int].constructor == ctor,
            ctx.objects@[id as int].native is None,
            forall|k: Seq<char>| k != PROTO_PROPERTY_NAME@ ==> #[trigger] inner_value(ctx.objects@[id as int], k) is None,
            inner_value(ctx.objects@[id as int], PROTO_PROPERTY_NAME@) == Some(JsValue::RefObject(proto)),
            own_property(ctx.objects@[id as int], "length"@) == Some(Property { enumerable: false, value: JsValue::Number(length) }),
            ctx.objects@[id as int].property@.len() == i + 1,
            name_texts(ctx.objects@[id as int].property_list@) == seq!["length"@] + index_names(i as nat),
            forall|k: Seq<char>| #[trigger] own_property(ctx.objects@[id as int], k) is Some ==> k == "length"@ || is_index_below(k, i as nat),
            forall|j: int| 0 <= j < i ==> #[trigger] own_property(ctx.objects@[id as int], decimal_text(j as nat))
                == Some(Property { enumerable: true, value: values@[j] }),
        decreases n - i,
    {
        let key = decimal_string(i);
        let ghost before = ctx.objects@;
        proof {
            lemma_length_not_index(i as nat);
            if own_property(before[id as int], key@) is Some {
                let j = choose|j: nat| j < i && #[trigger] decimal_text(j) == key@;
                lemma_decimal_injective(j, i as nat);
            }
            assert(value_ok(values@[i as int], objs0.len()));
        }
        let ghost names_before = before[id as int].property_list@;
        ctx.define_property(id, key, Property { enumerable: true, value: values[i].clone() });
        proof {
            let o = ctx.objects@[id as int];
            assert(o.inner_property == before[id as int].inner_property);
            assert forall|k: Seq<char>| k != PROTO_PROPERTY_NAME@ implies #[trigger] inner_value(o, k) is None by {
                assert(inner_value(before[id as int], k) is None);
            }
            assert(!has_key(before[id as int].property@, decimal_text(i as nat)));
            assert(o.property_list@ == names_before.push(key));
            assert(name_texts(o.property_list@) =~= name_texts(names_before).push(decimal_text(i as nat)));
            assert(index_names((i + 1) as nat) =~= index_names(i as nat).push(decimal_text(i as nat)));
            assert(seq!["length"@] + index_names((i + 1) as nat) =~= (seq!["length"@] + index_names(i as nat)).push(decimal_text(i as nat)));
            assert forall|k: Seq<char>| #[trigger] own_property(o, k) is Some implies k == "length"@ || is_index_below(k, (i + 1) as nat) by {
                if k == decimal_text(i as nat) {
                    assert(decimal_text(i as nat) == k);
                } else if k != "length"@ {
                    assert(own_property(before[id as int], k) is Some);
                    let j = choose|j: nat| j < i && #[trigger] decimal_text(j) == k;
                    assert(j < i + 1 && decimal_text(j) == k);
                }
            }
            assert forall|j: int| 0 <= j < i + 1 implies #[trigger] own_property(o, decimal_text(j as nat))
                == Some(Property { enumerable: true, value: values@[j] }) by {
                if j < i {
                    if decimal_text(j as nat) == decimal_text(i as nat) {
                        lemma_decimal_injective(j as nat, i as nat);
                    }
                }
            }
        }
        i = i + 1;
    }
    proof {
        let o = ctx.objects@[id as int];
        assert(length_bits(o) == length);
    }
    JsValue::Array(id)
}

} // verus!

verus! {

/// Whether the JavaScript number with these bits is what a JSON number becomes: a double is
/// taken as it is, an integer is rounded to the nearest double.
pub open spec fn json_number_denotes(bits: u64, n: JsonNumber) -> bool {
    match n {
        JsonNumber::Float(b) => bits == b,
        JsonNumber::Int(i) => f64_sign(bits) == (i < 0) && f64_int_value(bits) == Some(round_f64_signed(i as int)),
    }
}

/// The keys of a JSON object, in order.
pub open spec fn json_keys(pairs: Seq<(Seq<char>, JsonModel)>) -> Seq<Seq<char>> {
    pairs.map_values(|p: (Seq<char>, JsonModel)| p.0)
}

/// `o` is a plain object built from a JSON object with these keys: kind `Object`, no
/// prototype, constructor or internal properties, and exactly the given own properties,
/// listed in that order.
pub open spec fn is_record_shell(o: Object, keys: Seq<Seq<char>>) -> bool {
    &&& o.class_type == ClassType::Object
    &&& o.prototype is None
    &&& o.constructor is None
    &&& o.native is None
    &&& o.inner_property@.len() == 0
    &&& o.property@.len() == keys.len()
    &&& name_texts(o.property_list@) == keys
}

/// The value `v` in heap `objs` is what the JSON value `m` becomes when parsed: the same
/// primitive, or an array or plain object made of objects with indices in `[lo, hi)`,
/// arrays tied to the constructor `ctor` and the prototype `proto`.
pub open spec fn denotes(
    objs: Seq<Object>,
    v: JsValue,
    m: JsonModel,
    lo: int,
    hi: int,
    ctor: ObjId,
    proto: ObjId,
) -> bool
    decreases m,
{
    match m {
        JsonModel::Null => v == JsValue::Null,
        JsonModel::Bool(b) => v == JsValue::Boolean(b),
        JsonModel::Number(n) => match v {
            JsValue::Number(bits) => json_number_denotes(bits, n),
            _ => false,
        },
        JsonModel::String(s) => match v {
            JsValue::String(t) => t@ == s,
            _ => false,
        },
        JsonModel::Array(items) => match v {
            JsValue::Array(id) => {
                &&& lo <= id < hi <= objs.len()
                &&& is_array_shell(objs[id as int], items.len(), ctor, proto)
                &&& forall|i: int|
                    #![trigger own_property(objs[id as int], decimal_text(i as nat))]
                    0 <= i < items.len() ==> match own_property(objs[id as int], decimal_text(i as nat)) {
                        Some(p) => p.enumerable && denotes(objs, p.value, items[i], lo, id as int, ctor, proto),
                        None => false,
                    }
            },
            _ => false,
        },
        JsonModel::Object(pairs) => match v {
            JsValue::Object(id) => {
                &&& lo <= id < hi <= objs.len()
                &&& is_record_shell(objs[id as int], json_keys(pairs))
                &&& forall|i: int|
                    #![trigger own_property(objs[id as int], pairs[i].0)]
                    0 <= i < pairs.len() ==> match own_property(objs[id as int], pairs[i].0) {
                        Some(p) => p.enumerable && denotes(objs, p.value, pairs[i].1, id + 1, hi, ctor, proto),
                        None => false,
                    }
            },
            _ => false,
        },
    }
}

/// Object `o` holds under `k` an enumerable property whose value stands for `m`.
pub open spec fn entry_denotes(
    objs: Seq<Object>,
    o: Object,
    k: Seq<char>,
    m: JsonModel,
    lo: int,
    hi: int,
    ctor: ObjId,
    proto: ObjId,
) -> bool
{
    match own_property(o, k) {
        Some(p) => p.enumerable && denotes(objs, p.value, m, lo, hi, ctor, proto),
        None => false,
    }
}

} // verus!

verus! {

/// What a value stands for in a heap rests only on the objects in its range.
pub proof fn lemma_denotes_frame(
    a: Seq<Object>,
    b: Seq<Object>,
    v: JsValue,
    m: JsonModel,
    lo: int,
    hi: int,
    ctor: ObjId,
    proto: ObjId,
)
    requires
        denotes(a, v, m, lo, hi, ctor, proto),
        hi <= b.len(),
        forall|j: int| lo <= j < hi ==> #[trigger] b[j] == a[j],
    ensures
        denotes(b, v, m, lo, hi, ctor, proto),
    decreases m,
{
    match m {
        JsonModel::Array(items) => {
            if let JsValue::Array(id) = v {
                assert(lo <= id < hi);
                assert(is_array_shell(a[id as int], items.len(), ctor, proto));
                assert(b[id as int] == a[id as int]);
                assert forall|i: int|
                    #![trigger own_property(b[id as int], decimal_text(i as nat))]
                    0 <= i < items.len() implies entry_denotes(
                    b,
                    b[id as int],
                    decimal_text(i as nat),
                    items[i],
                    lo,
                    id as int,
                    ctor,
                    proto,
                ) by {
                    assert(entry_denotes(a, a[id as int], decimal_text(i as nat), items[i], lo, id as int, ctor, proto));
                    let p = own_property(a[id as int], decimal_text(i as nat)).unwrap();
                    lemma_denotes_frame(a, b, p.value, items[i], lo, id as int, ctor, proto);
                }
            }
        },
        JsonModel::Object(pairs) => {
            if let JsValue::Object(id) = v {
                assert(lo <= id < hi);
                assert(b[id as int] == a[id as int]);
                assert forall|i: int|
                    #![trigger own_property(b[id as int], pairs[i].0)]
                    0 <= i < pairs.len() implies entry_denotes(
                    b,
                    b[id as int],
                    pairs[i].0,
                    pairs[i].1,
                    id + 1,
                    hi,
                    ctor,
                    proto,
                ) by {
                    assert(entry_denotes(a, a[id as int], pairs[i].0, pairs[i].1, id + 1, hi, ctor, proto));
                    let p = own_property(a[id as int], pairs[i].0).unwrap();
                    lemma_denotes_frame(a, b, p.value, pairs[i].1, id + 1, hi, ctor, proto);
                }
            }
        },
        _ => {},
    }
}

/// A range that holds a value's objects may be widened.
pub proof fn lemma_denotes_widen(
    objs: Seq<Object>,
    v: JsValue,
    m: JsonModel,
    lo: int,
    hi: int,
    lo2: int,
    hi2: int,
    ctor: ObjId,
    proto: ObjId,
)
    requires
        denotes(objs, v, m, lo, hi, ctor, proto),
        lo2 <= lo,
        hi <= hi2 <= objs.len(),
    ensures
        denotes(objs, v, m, lo2, hi2, ctor, proto),
    decreases m,
{
    match m {
        JsonModel::Array(items) => {
            if let JsValue::Array(id) = v {
                assert(lo <= id < hi);
                assert forall|i: int|
                    #![trigger own_property(objs[id as int], decimal_text(i as nat))]
                    0 <= i < items.len() implies entry_denotes(
                    objs,
                    objs[id as int],
                    decimal_text(i as nat),
                    items[i],
                    lo2,
                    id as int,
                    ctor,
                    proto,
                ) by {
                    assert(entry_denotes(objs, objs[id as int], decimal_text(i as nat), items[i], lo, id as int, ctor, proto));
                    let p = own_property(objs[id as int], decimal_text(i as nat)).unwrap();
                    lemma_denotes_widen(objs, p.value, items[i], lo, id as int, lo2, id as int, ctor, proto);
                }
            }
        },
        JsonModel::Object(pairs) => {
            if let JsValue::Object(id) = v {
                assert(lo <= id < hi);
                assert forall|i: int|
                    #![trigger own_property(objs[id as int], pairs[i].0)]
                    0 <= i < pairs.len() implies entry_denotes(
                    objs,
                    objs[id as int],
                    pairs[i].0,
                    pairs[i].1,
                    id + 1,
                    hi2,
                    ctor,
                    proto,
                ) by {
                    assert(entry_denotes(objs, objs[id as int], pairs[i].0, pairs[i].1, id + 1, hi, ctor, proto));
                    let p = own_property(objs[id as int], pairs[i].0).unwrap();
                    lemma_denotes_widen(objs, p.value, pairs[i].1, id + 1, hi, id + 1, hi2, ctor, proto);
                }
            }
        },
        _ => {},
    }
}

} // verus!

verus! {

/// A heap that starts with another keeps what the global object holds and its prototypes.
pub proof fn lemma_global_prototype_prefix(a: Seq<Object>, b: Seq<Object>, g: int, name: Seq<char>)
    requires
        heap_prefix(a, b),
        0 <= g < a.len(),
        has_global_prototype(a, g, name),
    ensures
        has_global_prototype(b, g, name),
        global_ref(b, g, name) == global_ref(a, g, name),
        global_prototype(b, g, name) == global_prototype(a, g, name),
{
    assert(b[g] == a[g]);
    let id = global_ref(a, g, name).unwrap() as int;
    assert(b[id] == a[id]);
}

/// Whether `k` is one of the first `n` keys.
pub open spec fn is_key_below(k: Seq<char>, keys: Seq<Seq<char>>, n: int) -> bool {
    exists|j: int| 0 <= j < n && #[trigger] keys[j] == k
}

/// Converts a parsed JSON value into a JavaScript value: primitives as they are, arrays and
/// objects as new objects of the heap (arrays through `create_array_from_values`).
pub fn json_value_to_js_value(ctx: &mut Context, value: &JsonValue) -> (r: JsValue)
    requires
        old(ctx).wf(),
        contains_array(value.model()) ==> has_global_prototype(old(ctx).objects@, old(ctx).global as int, GLOBAL_ARRAY_NAME@),
        keys_distinct(value.model()),
    ensures
        final(ctx).wf(),
        final(ctx).global == old(ctx).global,
        final(ctx).scope == old(ctx).scope,
        heap_prefix(old(ctx).objects@, final(ctx).objects@),
        value_ok(r, final(ctx).objects@.len()),
        denotes(
            final(ctx).objects@,
            r,
            value.model(),
            old(ctx).objects@.len() as int,
            final(ctx).objects@.len() as int,
            global_ref(old(ctx).objects@, old(ctx).global as int, GLOBAL_ARRAY_NAME@).unwrap(),
            global_prototype(old(ctx).objects@, old(ctx).global as int, GLOBAL_ARRAY_NAME@),
        ),
    decreases value,
{
    let ghost objs0 = ctx.objects@;
    let ghost g = ctx.global as int;
    let ghost actor = global_ref(objs0, g, GLOBAL_ARRAY_NAME@).unwrap();
    let ghost aproto = global_prototype(objs0, g, GLOBAL_ARRAY_NAME@);
    let ghost lo = objs0.len() as int;
    match value {
        JsonValue::Null => JsValue::Null,
        JsonValue::Bool(b) => JsValue::Boolean(*b),
        JsonValue::Number(n) => match n {
            JsonNumber::Float(bits) => JsValue::Number(*bits),
            JsonNumber::Int(i) => JsValue::Number(number_from_i64(*i)),
        },
        JsonValue::String(s) => JsValue::String(s.clone()),
        JsonValue::Array(items) => {
            let ghost m = value.model();
            proof {
                assert(contains_array(m));
                assert forall|j: int| 0 <= j < items@.len() implies keys_distinct(#[trigger] items@[j].model()) by {
                    assert(m->Array_0[j] == items@[j].model());
                }
            }
            let mut result: Vec<JsValue> = Vec::new();
            let mut i: usize = 0;
            while i < items.len()
                invariant
                    0 <= i <= items@.len(),
                    *value == JsonValue::Array(*items),
                    ctx.wf(),
                    ctx.global == old(ctx).global,
                    ctx.scope == old(ctx).scope,
                    g == ctx.global,
                    lo == objs0.len(),
                    heap_prefix(objs0, ctx.objects@),
                    has_global_prototype(objs0, g, GLOBAL_ARRAY_NAME@),
                    g < objs0.len(),
                    actor == global_ref(objs0, g, GLOBAL_ARRAY_NAME@).unwrap(),
                    aproto == global_prototype(objs0, g, GLOBAL_ARRAY_NAME@),
                    forall|j: int| 0 <= j < items@.len() ==> keys_distinct(#[trigger] items@[j].model()),
                    result@.len() == i,
                    forall|j: int| 0 <= j < i ==> denotes(
                        ctx.objects@,
                        #[trigger] result@[j],
                        items@[j].model(),
                        lo,
                        ctx.objects@.len() as int,
                        actor,
                        aproto,
                    ),
                    forall|j: int| 0 <= j < i ==> value_ok(#[trigger] result@[j], ctx.objects@.len()),
                decreases items@.len() - i,
            {
                let ghost before = ctx.objects@;
                proof {
                    lemma_global_prototype_prefix(objs0, before, g, GLOBAL_ARRAY_NAME@);
                }
                proof {
                    let vv = *value;
                    assert(decreases_to!(vv => vv->Array_0));
                    assert(decreases_to!(vv->Array_0 => vv->Array_0@));
                    assert(decreases_to!(vv->Array_0@ => vv->Array_0@[i as int]));
                }
                let v = json_value_to_js_value(ctx, &items[i]);
                proof {
                    let after = ctx.objects@;
                    assert forall|j: int| 0 <= j < i implies denotes(
                        after,
                        #[trigger] result@[j],
                        items@[j].model(),
                        lo,
                        after.len() as int,
                        actor,
                        aproto,
                    ) by {
                        lemma_denotes_frame(before, after, result@[j], items@[j].model(), lo, before.len() as int, actor, aproto);
                        lemma_denotes_widen(after, result@[j], items@[j].model(), lo, before.len() as int, lo, after.len() as int, actor, aproto);
                    }
                    lemma_denotes_widen(after, v, items@[i as int].model(), before.len() as int, after.len() as int, lo, after.len() as int, actor, aproto);
                }
                result.push(v);
                i = i + 1;
            }
            let ghost before = ctx.objects@;
            let ghost vals = result@;
            proof {
                lemma_global_prototype_prefix(objs0, before, g, GLOBAL_ARRAY_NAME@);
            }
            let r = create_array_from_values(ctx, result);
            proof {
                let after = ctx.objects@;
                let id = before.len() as int;
                assert(m->Array_0.len() == items@.len());
                assert forall|j: int|
                    #![trigger own_property(after[id], decimal_text(j as nat))]
                    0 <= j < m->Array_0.len() implies entry_denotes(
                    after,
                    after[id],
                    decimal_text(j as nat),
                    m->Array_0[j],
                    lo,
                    id,
                    actor,
                    aproto,
                ) by {
                    assert(m->Array_0[j] == items@[j].model());
                    assert(own_property(after[id], decimal_text(j as nat)) == Some(Property { enumerable: true, value: vals[j] }));
                    lemma_denotes_frame(before, after, vals[j], items@[j].model(), lo, id, actor, aproto);
                }
            }
            r
        },
        JsonValue::Object(pairs) => {
            let ghost m = value.model();
            let ghost keys = json_keys(m->Object_0);
            proof {
                assert forall|j: int| 0 <= j < pairs@.len() implies keys_distinct(#[trigger] pairs@[j].1.model()) by {
                    assert(m->Object_0[j] == (pairs@[j].0@, pairs@[j].1.model()));
                }
                assert forall|a: int, b: int| 0 <= a < b < pairs@.len() implies #[trigger] keys[a] != #[trigger] keys[b] by {
                    assert(m->Object_0[a].0 != m->Object_0[b].0);
                }
                assert(keys.len() == pairs@.len());
                assert forall|j: int| 0 <= j < pairs@.len() implies #[trigger] keys[j] == pairs@[j].0@ by {
                    assert(m->Object_0[j] == (pairs@[j].0@, pairs@[j].1.model()));
                }
                assert forall|j: int| 0 <= j < pairs@.len() && contains_array(#[trigger] pairs@[j].1.model()) implies contains_array(m) by {
                    assert(m->Object_0[j] == (pairs@[j].0@, pairs@[j].1.model()));
                }
            }
            let id = ctx.add_object(Object::new(ClassType::Object));
            let ghost fresh = ctx.objects@[id as int];
            proof {
                assert forall|k: Seq<char>| #[trigger] own_property(fresh, k) is Some implies is_key_below(k, keys, 0) by {
                    assert(fresh.property@.len() == 0);
                }
                assert(name_texts(fresh.property_list@) =~= keys.take(0));
            }
            let mut i: usize = 0;
            while i < pairs.len()
                invariant
                    0 <= i <= pairs@.len(),
                    *value == JsonValue::Object(*pairs),
                    ctx.wf(),
                    ctx.global == old(ctx).global,
                    ctx.scope == old(ctx).scope,
                    g == ctx.global,
                    lo == objs0.len(),
                    id == objs0.len(),
                    id < ctx.objects@.len(),
                    heap_prefix(objs0, ctx.objects@),
                    m == value.model(),
                    contains_array(m) ==> has_global_prototype(objs0, g, GLOBAL_ARRAY_NAME@),
                    forall|j: int| 0 <= j < pairs@.len() && contains_array(#[trigger] pairs@[j].1.model()) ==> contains_array(m),
                    g < objs0.len(),
                    actor == global_ref(objs0, g, GLOBAL_ARRAY_NAME@).unwrap(),
                    aproto == global_prototype(objs0, g, GLOBAL_ARRAY_NAME@),
                    forall|j: int| 0 <= j < pairs@.len() ==> keys_distinct(#[trigger] pairs@[j].1.model()),
                    keys.len() == pairs@.len(),
                    forall|j: int| 0 <= j < pairs@.len() ==> #[trigger] keys[j] == pairs@[j].0@,
                    forall|a: int, b: int| 0 <= a < b < pairs@.len() ==> #[trigger] keys[a] != #[trigger] keys[b],
                    ctx.objects@[id as int].class_type == ClassType::Object,
                    ctx.objects@[id as int].prototype is None,
                    ctx.objects@[id as int].constructor is None,
                    ctx.objects@[id as int].native is None,
                    ctx.objects@[id as int].inner_property@.len() == 0,
                    ctx.objects@[id as int].property@.len() == i,
                    name_texts(ctx.objects@[id as int].property_list@) == keys.take(i as int),
                    forall|k: Seq<char>| #[trigger] own_property(ctx.objects@[id as int], k) is Some ==> is_key_below(k, keys, i as int),
                    forall|j: int|
                        #![trigger own_property(ctx.objects@[id as int], keys[j])]
                        0 <= j < i ==> entry_denotes(
                            ctx.objects@,
                            ctx.objects@[id as int],
                            keys[j],
                            pairs@[j].1.model(),
                            id + 1,
                            ctx.objects@.len() as int,
                            actor,
                            aproto,
                        ),
                decreases pairs@.len() - i,
            {
                let ghost before = ctx.objects@;
                proof {
                    if contains_array(pairs@[i as int].1.model()) {
                        lemma_global_prototype_prefix(objs0, before, g, GLOBAL_ARRAY_NAME@);
                    }
                }
                proof {
                    let vv = *value;
                    assert(decreases_to!(vv => vv->Object_0));
                    assert(decreases_to!(vv->Object_0 => vv->Object_0@));
                    assert(decreases_to!(vv->Object_0@ => vv->Object_0@[i as int]));
                    assert(decreases_to!(vv->Object_0@[i as int] => vv->Object_0@[i as int].1));
                }
                let v = json_value_to_js_value(ctx, &pairs[i].1);
                let ghost mid = ctx.objects@;
                proof {
                    let cm = pairs@[i as int].1.model();
                    if !contains_array(cm) {
                        lemma_denotes_without_arrays(
                            mid,
                            v,
                            cm,
                            before.len() as int,
                            mid.len() as int,
                            global_ref(before, g, GLOBAL_ARRAY_NAME@).unwrap(),
                            global_prototype(before, g, GLOBAL_ARRAY_NAME@),
                            actor,
                            aproto,
                        );
                    }
                }
                let key = pairs[i].0.clone();
                proof {
                    assert(mid[id as int] == before[id as int]);
                    if own_property(before[id as int], key@) is Some {
                        let j = choose|j: int| 0 <= j < i && #[trigger] keys[j] == key@;
                        assert(keys[j] != keys[i as int]);
                    }
                }
                ctx.define_property(id, key, Property { enumerable: true, value: v });
                proof {
                    let after = ctx.objects@;
                    let o = after[id as int];
                    assert(!has_key(before[id as int].property@, keys[i as int]));
                    assert forall|j: int| id + 1 <= j < after.len() implies #[trigger] after[j] == mid[j] by {}
                    assert forall|j: int|
                        #![trigger own_property(o, keys[j])]
                        0 <= j < i + 1 implies entry_denotes(
                            after,
                            o,
                            keys[j],
                            pairs@[j].1.model(),
                            id + 1,
                            after.len() as int,
                            actor,
                            aproto,
                        ) by {
                        if j < i {
                            assert(keys[j] != keys[i as int]);
                            assert(own_property(o, keys[j]) == own_property(before[id as int], keys[j]));
                            assert(entry_denotes(before, before[id as int], keys[j], pairs@[j].1.model(), id + 1, before.len() as int, actor, aproto));
                            let p = own_property(before[id as int], keys[j]).unwrap();
                            assert forall|t: int| id + 1 <= t < before.len() implies #[trigger] mid[t] == before[t] by {}
                            lemma_denotes_frame(before, mid, p.value, pairs@[j].1.model(), id + 1, before.len() as int, actor, aproto);
                            lemma_denotes_frame(mid, after, p.value, pairs@[j].1.model(), id + 1, before.len() as int, actor, aproto);
                            lemma_denotes_widen(after, p.value, pairs@[j].1.model(), id + 1, before.len() as int, id + 1, after.len() as int, actor, aproto);
                        } else {
                            lemma_denotes_frame(mid, after, v, pairs@[j].1.model(), before.len() as int, mid.len() as int, actor, aproto);
                            lemma_denotes_widen(after, v, pairs@[j].1.model(), before.len() as int, mid.len() as int, id + 1, after.len() as int, actor, aproto);
                        }
                    }
                    assert forall|k: Seq<char>| #[trigger] own_property(o, k) is Some implies is_key_below(k, keys, i + 1) by {
                        if k == keys[i as int] {
                            assert(keys[i as int] == k);
                        } else {
                            assert(own_property(before[id as int], k) is Some);
                            let j = choose|j: int| 0 <= j < i && #[trigger] keys[j] == k;
                            assert(0 <= j < i + 1 && keys[j] == k);
                        }
                    }
                    assert(keys.take(i + 1) =~= keys.take(i as int).push(keys[i as int]));
                    assert(name_texts(o.property_list@) =~= name_texts(before[id as int].property_list@).push(keys[i as int]));
                }
                i = i + 1;
            }
            proof {
                let after = ctx.objects@;
                assert(keys.take(pairs@.len() as int) =~= keys);
                assert(keys =~= json_keys(m->Object_0));
                assert forall|j: int|
                    #![trigger own_property(after[id as int], m->Object_0[j].0)]
                    0 <= j < m->Object_0.len() implies entry_denotes(
                    after,
                    after[id as int],
                    m->Object_0[j].0,
                    m->Object_0[j].1,
                    id + 1,
                    after.len() as int,
                    actor,
                    aproto,
                ) by {
                    assert(m->Object_0[j] == (pairs@[j].0@, pairs@[j].1.model()));
                    assert(keys[j] == pairs@[j].0@);
                }
            }
            JsValue::Object(id)
        },
    }
}

} // verus!

verus! {

/// The value of own property `k` of `o`, or `Undefined` when it has none.
pub open spec fn prop_value(o: Object, k: Seq<char>) -> JsValue {
    match own_property(o, k) {
        Some(p) => p.value,
        None => JsValue::Undefined,
    }
}

/// The objects being serialised, outermost first: distinct objects of the heap.
pub open spec fn visit_ok(objs: Seq<Object>, stack: Seq<usize>) -> bool {
    &&& stack.no_duplicates()
    &&& forall|i: int| 0 <= i < stack.len() ==> #[trigger] stack[i] < objs.len()
}

proof fn lemma_distinct_below(s: Seq<usize>, n: nat)
    requires
        s.no_duplicates(),
        forall|i: int| 0 <= i < s.len() ==> #[trigger] s[i] < n,
    ensures
        s.len() <= n,
    decreases n,
{
    if n == 0 {
        if s.len() > 0 {
            assert(s[0] < 0);
        }
    } else if s.contains((n - 1) as usize) {
        let k = choose|k: int| 0 <= k < s.len() && s[k] == (n - 1) as usize;
        let t = s.remove(k);
        assert forall|i: int| 0 <= i < t.len() implies #[trigger] t[i] < (n - 1) as nat by {
            if i < k {
                assert(t[i] == s[i]);
                assert(s[i] != s[k]);
            } else {
                assert(t[i] == s[i + 1]);
                assert(s[i + 1] != s[k]);
            }
        }
        assert(t.no_duplicates()) by {
            assert forall|a: int, b: int| 0 <= a < t.len() && 0 <= b < t.len() && a != b implies t[a] != t[b] by {
                let a2 = if a < k { a } else { a + 1 };
                let b2 = if b < k { b } else { b + 1 };
                assert(t[a] == s[a2]);
                assert(t[b] == s[b2]);
            }
        }
        lemma_distinct_below(t, (n - 1) as nat);
    } else {
        assert forall|i: int| 0 <= i < s.len() implies #[trigger] s[i] < (n - 1) as nat by {
            assert(s[i] != (n - 1) as usize);
        }
        lemma_distinct_below(s, (n - 1) as nat);
    }
}

/// One more distinct object fits on the stack.
pub proof fn lemma_visit_room(objs: Seq<Object>, stack: Seq<usize>, id: usize)
    requires
        visit_ok(objs, stack),
        id < objs.len(),
        !stack.contains(id),
    ensures
        stack.len() < objs.len(),
        visit_ok(objs, stack.push(id)),
{
    let t = stack.push(id);
    assert forall|i: int| 0 <= i < t.len() implies #[trigger] t[i] < objs.len() by {
        if i < stack.len() {
            assert(t[i] == stack[i]);
        }
    }
    assert(t.no_duplicates()) by {
        assert forall|a: int, b: int| 0 <= a < t.len() && 0 <= b < t.len() && a != b implies t[a] != t[b] by {
            if a < stack.len() && b < stack.len() {
                assert(t[a] == stack[a] && t[b] == stack[b]);
            } else if a < stack.len() {
                assert(t[a] == stack[a]);
            } else {
                assert(t[b] == stack[b]);
            }
        }
    }
    lemma_distinct_below(t, objs.len());
}

} // verus!

verus! {

/// The number of elements that serialising array object `o` reads: its `length` as Rust's
/// `as usize` takes a double, or none when `length` is not a number.
pub open spec fn array_read_len(o: Object) -> nat {
    match prop_value(o, "length"@) {
        JsValue::Number(b) => spec_f64_as_usize(b) as nat,
        _ => 0,
    }
}

/// What `JSON.stringify` makes of `v` in heap `objs` while the objects in `stack` are being
/// serialised: `undefined`, `null`, NaN, functions and the other kinds give `null`; an object
/// met again inside itself gives `null`; a number gives its JSON number, or `null` when it is
/// not finite; an array gives its elements `0 .. length`; a plain object (or a reference to
/// one) gives its listed properties in order.
pub open spec fn json_of(objs: Seq<Object>, v: JsValue, stack: Seq<usize>) -> JsonModel
    decreases objs.len() - stack.len(),
    when visit_ok(objs, stack) && value_ok(v, objs.len())
{
    match v {
        JsValue::Boolean(b) => JsonModel::Bool(b),
        JsValue::Number(bits) => match spec_json_number(bits) {
            Some(n) => JsonModel::Number(n),
            None => JsonModel::Null,
        },
        JsValue::String(s) => JsonModel::String(s@),
        JsValue::Array(id) => if stack.contains(id) {
            JsonModel::Null
        } else {
            proof {
                lemma_visit_room(objs, stack, id);
            }
            let o = objs[id as int];
            JsonModel::Array(
                Seq::new(
                    array_read_len(o),
                    |i: int| json_of(objs, prop_value(o, decimal_text(i as nat)), stack.push(id)),
                ),
            )
        },
        JsValue::Object(id) => if stack.contains(id) {
            JsonModel::Null
        } else {
            proof {
                lemma_visit_room(objs, stack, id);
            }
            let o = objs[id as int];
            JsonModel::Object(
                Seq::new(
                    o.property_list@.len(),
                    |i: int|
                        (
                            o.property_list@[i]@,
                            json_of(objs, prop_value(o, o.property_list@[i]@), stack.push(id)),
                        ),
                ),
            )
        },
        JsValue::RefObject(id) => if stack.contains(id) {
            JsonModel::Null
        } else {
            proof {
                lemma_visit_room(objs, stack, id);
            }
            let o = objs[id as int];
            JsonModel::Object(
                Seq::new(
                    o.property_list@.len(),
                    |i: int|
                        (
                            o.property_list@[i]@,
                            json_of(objs, prop_value(o, o.property_list@[i]@), stack.push(id)),
                        ),
                ),
            )
        },
        _ => JsonModel::Null,
    }
}

} // verus!

verus! {

fn contains_id(v: &Vec<usize>, id: usize) -> (r: bool)
    ensures
        r == v@.contains(id),
{
    let mut i: usize = 0;
    while i < v.len()
        invariant
            i <= v@.len(),
            forall|j: int| 0 <= j < i ==> v@[j] != id,
        decreases v@.len() - i,
    {
        if v[i] == id {
            assert(v@[i as int] == id);
            return true;
        }
        i = i + 1;
    }
    false
}

/// Serialises `value`, with `visited` the objects being serialised around it; `visited` is
/// as it was on return.
pub fn js_value_to_json_value_impl(ctx: &Context, value: &JsValue, visited: &mut Vec<usize>) -> (r: JsonValue)
    requires
        ctx.heap_wf(),
        value_ok(*value, ctx.objects@.len()),
        visit_ok(ctx.objects@, old(visited)@),
    ensures
        final(visited)@ == old(visited)@,
        r.model() == json_of(ctx.objects@, *value, old(visited)@),
    decreases ctx.objects@.len() - old(visited)@.len(), 1int,
{
    match value {
        JsValue::Boolean(b) => JsonValue::Bool(*b),
        JsValue::Number(bits) => match json_number_from_bits(*bits) {
            Some(n) => JsonValue::Number(n),
            None => JsonValue::Null,
        },
        JsValue::String(s) => JsonValue::String(s.clone()),
        JsValue::Array(id) => {
            if contains_id(visited, *id) {
                return JsonValue::Null;
            }
            let r = array_to_json(ctx, *id, visited);
            proof {
                assert(json_of(ctx.objects@, *value, old(visited)@)->Array_0 =~= r.model()->Array_0);
            }
            r
        },
        JsValue::Object(id) => {
            if contains_id(visited, *id) {
                return JsonValue::Null;
            }
            let r = object_to_json(ctx, *id, visited);
            proof {
                assert(json_of(ctx.objects@, *value, old(visited)@)->Object_0 =~= r.model()->Object_0);
            }
            r
        },
        JsValue::RefObject(id) => {
            if contains_id(visited, *id) {
                return JsonValue::Null;
            }
            let r = object_to_json(ctx, *id, visited);
            proof {
                assert(json_of(ctx.objects@, *value, old(visited)@)->Object_0 =~= r.model()->Object_0);
            }
            r
        },
        _ => JsonValue::Null,
    }
}

/// Serialises array object `id`, not yet being serialised: its elements `0 .. length`.
fn array_to_json(ctx: &Context, id: ObjId, visited: &mut Vec<usize>) -> (r: JsonValue)
    requires
        ctx.heap_wf(),
        id < ctx.objects@.len(),
        visit_ok(ctx.objects@, old(visited)@),
        !old(visited)@.contains(id),
    ensures
        final(visited)@ == old(visited)@,
        r.model() == JsonModel::Array(
            Seq::new(
                array_read_len(ctx.objects@[id as int]),
                |i: int| json_of(
                    ctx.objects@,
                    prop_value(ctx.objects@[id as int], decimal_text(i as nat)),
                    old(visited)@.push(id),
                ),
            ),
        ),
    decreases ctx.objects@.len() - old(visited)@.len(), 0int,
{
    let ghost objs = ctx.objects@;
    let ghost stack = visited@.push(id);
    let ghost o = objs[id as int];
    proof {
        lemma_visit_room(objs, visited@, id);
        reveal_strlit("length");
    }
    visited.push(id);
    let mut result: Vec<JsonValue> = Vec::new();
    let length_key = "length".to_owned();
    let length = ctx.get_value(id, &length_key);
    let n: usize = match length {
        JsValue::Number(bits) => f64_bits_as_usize(bits),
        _ => 0,
    };
    let mut i: usize = 0;
    while i < n
        invariant
            ctx.heap_wf(),
            objs == ctx.objects@,
            o == objs[id as int],
            id < objs.len(),
            visited@ == stack,
            visit_ok(objs, stack),
            stack.len() <= objs.len(),
            stack.len() == old(visited)@.len() + 1,
            i <= n,
            result@.len() == i,
            forall|j: int| 0 <= j < i ==> (#[trigger] result@[j]).model() == json_of(
                objs,
                prop_value(o, decimal_text(j as nat)),
                stack,
            ),
        decreases n - i,
    {
        let key = decimal_string(i);
        let item = ctx.get_value(id, &key);
        let jv = js_value_to_json_value_impl(ctx, &item, visited);
        result.push(jv);
        i = i + 1;
    }
    visited.pop();
    proof {
        assert(n == array_read_len(o));
        assert(visited@ =~= old(visited)@);
        let r = JsonValue::Array(result);
        assert(r.model()->Array_0 =~= Seq::new(
            array_read_len(o),
            |i: int| json_of(objs, prop_value(o, decimal_text(i as nat)), stack),
        ));
    }
    JsonValue::Array(result)
}

/// Serialises plain object `id`, not yet being serialised: its listed properties in order.
fn object_to_json(ctx: &Context, id: ObjId, visited: &mut Vec<usize>) -> (r: JsonValue)
    requires
        ctx.heap_wf(),
        id < ctx.objects@.len(),
        visit_ok(ctx.objects@, old(visited)@),
        !old(visited)@.contains(id),
    ensures
        final(visited)@ == old(visited)@,
        r.model() == JsonModel::Object(
            Seq::new(
                ctx.objects@[id as int].property_list@.len(),
                |i: int|
                    (
                        ctx.objects@[id as int].property_list@[i]@,
                        json_of(
                            ctx.objects@,
                            prop_value(ctx.objects@[id as int], ctx.objects@[id as int].property_list@[i]@),
                            old(visited)@.push(id),
                        ),
                    ),
            ),
        ),
    decreases ctx.objects@.len() - old(visited)@.len(), 0int,
{
    let ghost objs = ctx.objects@;
    let ghost stack = visited@.push(id);
    let ghost o = objs[id as int];
    proof {
        lemma_visit_room(objs, visited@, id);
    }
    visited.push(id);
    let mut result: Vec<(String, JsonValue)> = Vec::new();
    let n = ctx.objects[id].property_list.len();
    let mut i: usize = 0;
    while i < n
        invariant
            ctx.heap_wf(),
            objs == ctx.objects@,
            o == objs[id as int],
            id < objs.len(),
            n == o.property_list@.len(),
            visited@ == stack,
            visit_ok(objs, stack),
            stack.len() <= objs.len(),
            stack.len() == old(visited)@.len() + 1,
            i <= n,
            result@.len() == i,
            forall|j: int| 0 <= j < i ==> (#[trigger] result@[j]).0@ == o.property_list@[j]@,
            forall|j: int| 0 <= j < i ==> (#[trigger] result@[j]).1.model() == json_of(
                objs,
                prop_value(o, o.property_list@[j]@),
                stack,
            ),
        decreases n - i,
    {
        let key = ctx.objects[id].property_list[i].clone();
        let item = ctx.get_value(id, &key);
        let jv = js_value_to_json_value_impl(ctx, &item, visited);
        result.push((key, jv));
        i = i + 1;
    }
    visited.pop();
    proof {
        assert(visited@ =~= old(visited)@);
        let r = JsonValue::Object(result);
        assert(r.model()->Object_0 =~= Seq::new(
            o.property_list@.len(),
            |i: int| (o.property_list@[i]@, json_of(objs, prop_value(o, o.property_list@[i]@), stack)),
        ));
    }
    JsonValue::Object(result)
}

} // verus!

verus! {

/// An error thrown to the script.
pub enum JsError {
    /// A `SyntaxError` with its message.
    SyntaxError(String),
}

/// The message of the error thrown by `JSON.parse` without an argument.
pub const MISSING_JSON_INPUT: &'static str = "Unexpected end of JSON input";

/// Whether the text `JSON.parse` is given parses to a value that holds an array.
pub open spec fn parses_to_array(text: Option<Seq<char>>) -> bool {
    match text {
        Some(t) => match json_parse_outcome(t) {
            Ok(m) => contains_array(m),
            Err(_) => false,
        },
        None => false,
    }
}

/// What `JSON.parse` of `text` does to heap `before` of global object `g`, leaving heap
/// `after` and result `r`: without an argument, the `SyntaxError` "Unexpected end of JSON
/// input"; for text the parser refuses, a `SyntaxError` with the parser's message, the heap
/// unchanged; otherwise a value, built in new objects, that stands for the parsed value.
pub open spec fn json_parse_result(
    before: Seq<Object>,
    after: Seq<Object>,
    g: int,
    text: Option<Seq<char>>,
    r: Result<JsValue, JsError>,
) -> bool {
    match text {
        None => after == before && (r matches Err(JsError::SyntaxError(msg)) && msg@ == MISSING_JSON_INPUT@),
        Some(t) => match json_parse_outcome(t) {
            Ok(m) => r matches Ok(v) && value_ok(v, after.len()) && denotes(
                after,
                v,
                m,
                before.len() as int,
                after.len() as int,
                global_ref(before, g, GLOBAL_ARRAY_NAME@).unwrap(),
                global_prototype(before, g, GLOBAL_ARRAY_NAME@),
            ),
            Err(e) => after == before && (r matches Err(JsError::SyntaxError(msg)) && msg@ == e),
        },
    }
}

/// `JSON.parse`: parses `text` (the first argument as a string; `None` when there is no
/// argument) and builds the value in the heap, or fails with a `SyntaxError` carrying the
/// parser's message. A value that holds an array needs the global `Array` and its prototype.
pub fn json_parse(ctx: &mut Context, text: Option<&str>) -> (r: Result<JsValue, JsError>)
    requires
        old(ctx).wf(),
        parses_to_array(opt_text(text)) ==> has_global_prototype(
            old(ctx).objects@,
            old(ctx).global as int,
            GLOBAL_ARRAY_NAME@,
        ),
    ensures
        final(ctx).wf(),
        final(ctx).global == old(ctx).global,
        final(ctx).scope == old(ctx).scope,
        heap_prefix(old(ctx).objects@, final(ctx).objects@),
        json_parse_result(old(ctx).objects@, final(ctx).objects@, old(ctx).global as int, opt_text(text), r),
{
    match text {
        None => Err(JsError::SyntaxError(MISSING_JSON_INPUT.to_owned())),
        Some(t) => match parse_json_text(t) {
            Ok(value) => Ok(json_value_to_js_value(ctx, &value)),
            Err(message) => Err(JsError::SyntaxError(message)),
        },
    }
}

/// Whether a JSON value holds an array, at any depth.
pub fn holds_array(value: &JsonValue) -> (r: bool)
    ensures
        r == contains_array(value.model()),
    decreases value,
{
    match value {
        JsonValue::Array(_) => true,
        JsonValue::Object(pairs) => {
            let ghost m = value.model();
            let mut i: usize = 0;
            while i < pairs.len()
                invariant
                    i <= pairs@.len(),
                    *value == JsonValue::Object(*pairs),
                    m == value.model(),
                    forall|j: int| 0 <= j < i ==> !contains_array(#[trigger] pairs@[j].1.model()),
                decreases pairs@.len() - i,
            {
                proof {
                    let vv = *value;
                    assert(decreases_to!(vv => vv->Object_0));
                    assert(decreases_to!(vv->Object_0 => vv->Object_0@));
                    assert(decreases_to!(vv->Object_0@ => vv->Object_0@[i as int]));
                    assert(decreases_to!(vv->Object_0@[i as int] => vv->Object_0@[i as int].1));
                }
                if holds_array(&pairs[i].1) {
                    proof {
                        assert(m->Object_0[i as int] == (pairs@[i as int].0@, pairs@[i as int].1.model()));
                    }
                    return true;
                }
                i = i + 1;
            }
            proof {
                assert forall|j: int| 0 <= j < m->Object_0.len() implies !contains_array(#[trigger] m->Object_0[j].1) by {
                    assert(m->Object_0[j] == (pairs@[j].0@, pairs@[j].1.model()));
                }
            }
            false
        },
        _ => false,
    }
}

/// Whether the global `Array` exists and has a prototype.
pub fn has_array_prototype(ctx: &Context) -> (r: bool)
    requires
        ctx.wf(),
    ensures
        r == has_global_prototype(ctx.objects@, ctx.global as int, GLOBAL_ARRAY_NAME@),
{
    match get_global_object_by_name(ctx, GLOBAL_ARRAY_NAME) {
        Some(id) => ctx.objects[id].prototype.is_some(),
        None => false,
    }
}

/// `JSON.parse` on any context: `None` where the text parses to a value that holds an array
/// and the global `Array` has no prototype (where `json_parse` cannot build it), else what
/// `json_parse` gives.
pub fn json_parse_checked(ctx: &mut Context, text: Option<&str>) -> (r: Option<Result<JsValue, JsError>>)
    requires
        old(ctx).wf(),
    ensures
        final(ctx).wf(),
        final(ctx).global == old(ctx).global,
        final(ctx).scope == old(ctx).scope,
        heap_prefix(old(ctx).objects@, final(ctx).objects@),
        r is None <==> parses_to_array(opt_text(text)) && !has_global_prototype(
            old(ctx).objects@,
            old(ctx).global as int,
            GLOBAL_ARRAY_NAME@,
        ),
        r is None ==> final(ctx).objects@ == old(ctx).objects@,
        r matches Some(x) ==> json_parse_result(old(ctx).objects@, final(ctx).objects@, old(ctx).global as int, opt_text(text), x),
{
    let needs_array = match text {
        Some(t) => match parse_json_text(t) {
            Ok(value) => holds_array(&value),
            Err(_) => false,
        },
        None => false,
    };
    if needs_array && !has_array_prototype(ctx) {
        return None;
    }
    Some(json_parse(ctx, text))
}

/// Serialises `value` as `JSON.stringify` does, before it is written as text.
pub fn js_value_to_json_value(ctx: &Context, value: &JsValue) -> (r: JsonValue)
    requires
        ctx.heap_wf(),
        value_ok(*value, ctx.objects@.len()),
    ensures
        r.model() == json_of(ctx.objects@, *value, Seq::empty()),
{
    let mut visited: Vec<usize> = Vec::new();
    proof {
        assert(visit_ok(ctx.objects@, visited@));
    }
    let r = js_value_to_json_value_impl(ctx, value, &mut visited);
    proof {
        assert(visited@ =~= Seq::<usize>::empty());
    }
    r
}

/// `JSON.stringify`: `None` (the result `undefined`) without an argument, else the JSON value
/// of the argument, which is then written as text.
pub fn json_stringify(ctx: &Context, arg: Option<&JsValue>) -> (r: Option<JsonValue>)
    requires
        ctx.heap_wf(),
        arg matches Some(v) ==> value_ok(*v, ctx.objects@.len()),
    ensures
        arg is None ==> r is None,
        arg matches Some(v) ==> r matches Some(j) && j.model() == json_of(ctx.objects@, *v, Seq::empty()),
{
    match arg {
        None => None,
        Some(v) => Some(js_value_to_json_value(ctx, v)),
    }
}

/// Installs `JSON.parse` and `JSON.stringify` (native functions of length 1) on the global
/// `JSON` object.
pub fn bind_global_json(ctx: &mut Context)
    requires
        old(ctx).wf(),
        global_ref(old(ctx).objects@, old(ctx).global as int, GLOBAL_JSON_NAME@) is Some,
    ensures
        final(ctx).wf(),
        final(ctx).global == old(ctx).global,
        final(ctx).scope == old(ctx).scope,
        writes_only(old(ctx).objects@, final(ctx).objects@, set!["parse"@, "stringify"@], Set::empty()),
        binds_method(
            final(ctx).objects@,
            global_ref(old(ctx).objects@, old(ctx).global as int, GLOBAL_JSON_NAME@).unwrap() as int,
            "parse"@,
            NUMBER_ONE,
            Builtin::JsonParse,
        ),
        binds_method(
            final(ctx).objects@,
            global_ref(old(ctx).objects@, old(ctx).global as int, GLOBAL_JSON_NAME@).unwrap() as int,
            "stringify"@,
            NUMBER_ONE,
            Builtin::JsonStringify,
        ),
{
    proof {
        reveal_strlit("parse");
        reveal_strlit("stringify");
        reveal_strlit("name");
        reveal_strlit("length");
        assert("parse"@.len() != "stringify"@.len());
        assert("parse"@[0] != "name"@[0]);
        assert("parse"@[0] != "length"@[0]);
        assert("stringify"@[0] != "name"@[0]);
        assert("stringify"@[0] != "length"@[0]);
    }
    let ghost a = ctx.objects@;
    let json = match get_global_object_by_name(ctx, GLOBAL_JSON_NAME) {
        Some(id) => id,
        None => 0,
    };
    install_function(ctx, json, "parse", NUMBER_ONE, Builtin::JsonParse, false);
    let ghost b = ctx.objects@;
    install_function(ctx, json, "stringify", NUMBER_ONE, Builtin::JsonStringify, false);
    proof {
        let c = ctx.objects@;
        crate::frame::lemma_writes_only_trans(a, b, c, set!["parse"@], Set::empty(), set!["stringify"@], Set::empty());
        crate::frame::lemma_writes_only_weaken(
            a,
            c,
            set!["parse"@].union(set!["stringify"@]),
            Set::empty().union(Set::empty()),
            set!["parse"@, "stringify"@],
            Set::empty(),
        );
        lemma_binds_method_frame(b, c, json as int, "parse"@, NUMBER_ONE, Builtin::JsonParse, set!["stringify"@], Set::empty());
    }
}

} // verus!

verus! {

/// What serialising the value built from the parsed JSON value `m` gives back: `m` with each
/// number in its serialised form (integral doubles as integers, others as doubles).
pub open spec fn reserialised(m: JsonModel) -> JsonModel
    decreases m,
{
    match m {
        JsonModel::Number(n) => match n {
            JsonNumber::Float(b) => match spec_json_number(b) {
                Some(k) => JsonModel::Number(k),
                None => JsonModel::Null,
            },
            JsonNumber::Int(i) => JsonModel::Number(JsonNumber::Int(i)),
        },
        JsonModel::Array(items) => JsonModel::Array(
            Seq::new(
                items.len(),
                |i: int|
                    if 0 <= i < items.len() {
                        reserialised(items[i])
                    } else {
                        JsonModel::Null
                    },
            ),
        ),
        JsonModel::Object(pairs) => JsonModel::Object(
            Seq::new(
                pairs.len(),
                |i: int|
                    if 0 <= i < pairs.len() {
                        (pairs[i].0, reserialised(pairs[i].1))
                    } else {
                        (Seq::empty(), JsonModel::Null)
                    },
            ),
        ),
        _ => m,
    }
}

/// Every array of `m` is shorter than 2^53 (and than `usize::MAX`), and every integer of `m`
/// is at most 2^53 in magnitude: sizes a double holds exactly.
pub open spec fn within_double_range(m: JsonModel) -> bool
    decreases m,
{
    match m {
        JsonModel::Number(n) => match n {
            JsonNumber::Int(i) => -0x20_0000_0000_0000 <= i <= 0x20_0000_0000_0000,
            _ => true,
        },
        JsonModel::Array(items) => {
            &&& items.len() < 0x20_0000_0000_0000
            &&& items.len() <= usize::MAX
            &&& forall|i: int| 0 <= i < items.len() ==> within_double_range(#[trigger] items[i])
        },
        JsonModel::Object(pairs) => forall|i: int| 0 <= i < pairs.len() ==> within_double_range((#[trigger] pairs[i]).1),
        _ => true,
    }
}

proof fn lemma_property_value_ok(o: Object, k: Seq<char>, n: nat)
    requires
        object_ok(o, n),
        own_property(o, k) is Some,
    ensures
        value_ok(own_property(o, k).unwrap().value, n),
{
    let i = choose|i: int| 0 <= i < o.property@.len() && (#[trigger] o.property@[i]).0@ == k;
    assert(value_ok(o.property@[i].1.value, n));
}

proof fn lemma_int_reserialised(bits: u64, i: i64)
    requires
        json_number_denotes(bits, JsonNumber::Int(i)),
        -0x20_0000_0000_0000 <= i <= 0x20_0000_0000_0000,
    ensures
        spec_json_number(bits) == Some(JsonNumber::Int(i)),
{
    lemma_two_pow_values();
    let a: nat = if i < 0 { (-i) as nat } else { i as nat };
    if a < 0x20_0000_0000_0000 {
        lemma_small_bit_length(a, 53);
    } else {
        lemma_round_power(53);
    }
    assert(round_f64(a) == a);
    assert(round_f64_signed(i as int) == i);
}

/// Law: serialising what `JSON.parse` built gives back the parsed JSON value, each number in
/// its serialised form, provided its arrays and integers are of sizes a double holds exactly.
pub proof fn law_stringify_parsed(
    objs: Seq<Object>,
    v: JsValue,
    m: JsonModel,
    lo: int,
    hi: int,
    ctor: ObjId,
    proto: ObjId,
    stack: Seq<usize>,
)
    requires
        heap_ok(objs),
        denotes(objs, v, m, lo, hi, ctor, proto),
        within_double_range(m),
        visit_ok(objs, stack),
        forall|j: int| 0 <= j < stack.len() ==> !(lo <= #[trigger] stack[j] < hi),
    ensures
        json_of(objs, v, stack) == reserialised(m),
    decreases m,
{
    match m {
        JsonModel::Number(n) => {
            match n {
                JsonNumber::Int(i) => {
                    if let JsValue::Number(bits) = v {
                        lemma_int_reserialised(bits, i);
                    }
                },
                _ => {},
            }
        },
        JsonModel::Array(items) => {
            if let JsValue::Array(id) = v {
                assert(lo <= id < hi);
                let o = objs[id as int];
                assert(!stack.contains(id)) by {
                    if stack.contains(id) {
                        let j = choose|j: int| 0 <= j < stack.len() && stack[j] == id;
                        assert(!(lo <= stack[j] < hi));
                    }
                }
                lemma_visit_room(objs, stack, id);
                assert(is_array_shell(o, items.len(), ctor, proto));
                assert(prop_value(o, "length"@) == JsValue::Number(length_bits(o)));
                lemma_usize_reads_back(length_bits(o), items.len());
                assert(array_read_len(o) == items.len());
                let st = stack.push(id);
                assert forall|j: int| 0 <= j < st.len() implies !(lo <= #[trigger] st[j] < id as int) by {
                    if j < stack.len() {
                        assert(st[j] == stack[j]);
                    }
                }
                assert forall|i: int| 0 <= i < items.len() implies #[trigger] json_of(
                    objs,
                    prop_value(o, decimal_text(i as nat)),
                    st,
                ) == reserialised(items[i]) by {
                    assert(own_property(o, decimal_text(i as nat)) is Some);
                    let p = own_property(o, decimal_text(i as nat)).unwrap();
                    assert(object_ok(o, objs.len()));
                    lemma_property_value_ok(o, decimal_text(i as nat), objs.len());
                    assert(within_double_range(items[i]));
                    law_stringify_parsed(objs, p.value, items[i], lo, id as int, ctor, proto, st);
                }
                assert(value_ok(v, objs.len()));
                assert(json_of(objs, v, stack)->Array_0.len() == array_read_len(o));
                assert forall|i: int| 0 <= i < items.len() implies #[trigger] json_of(objs, v, stack)->Array_0[i] == reserialised(m)->Array_0[i] by {
                    assert(json_of(objs, prop_value(o, decimal_text(i as nat)), st) == reserialised(items[i]));
                }
                assert(json_of(objs, v, stack)->Array_0 =~= reserialised(m)->Array_0);
            }
        },
        JsonModel::Object(pairs) => {
            if let JsValue::Object(id) = v {
                assert(lo <= id < hi);
                let o = objs[id as int];
                assert(!stack.contains(id)) by {
                    if stack.contains(id) {
                        let j = choose|j: int| 0 <= j < stack.len() && stack[j] == id;
                        assert(!(lo <= stack[j] < hi));
                    }
                }
                lemma_visit_room(objs, stack, id);
                assert(is_record_shell(o, json_keys(pairs)));
                let st = stack.push(id);
                assert forall|j: int| 0 <= j < st.len() implies !(id + 1 <= #[trigger] st[j] < hi) by {
                    if j < stack.len() {
                        assert(st[j] == stack[j]);
                    }
                }
                assert(o.property_list@.len() == pairs.len()) by {
                    assert(name_texts(o.property_list@).len() == o.property_list@.len());
                }
                assert forall|i: int| 0 <= i < pairs.len() implies #[trigger] o.property_list@[i]@ == pairs[i].0 by {
                    assert(name_texts(o.property_list@)[i] == o.property_list@[i]@);
                    assert(json_keys(pairs)[i] == pairs[i].0);
                }
                assert forall|i: int| 0 <= i < pairs.len() implies #[trigger] json_of(
                    objs,
                    prop_value(o, pairs[i].0),
                    st,
                ) == reserialised(pairs[i].1) by {
                    assert(own_property(o, pairs[i].0) is Some);
                    let p = own_property(o, pairs[i].0).unwrap();
                    assert(object_ok(o, objs.len()));
                    lemma_property_value_ok(o, pairs[i].0, objs.len());
                    assert(within_double_range(pairs[i].1));
                    law_stringify_parsed(objs, p.value, pairs[i].1, id + 1, hi, ctor, proto, st);
                }
                assert forall|i: int| 0 <= i < pairs.len() implies #[trigger] json_of(objs, v, stack)->Object_0[i] == reserialised(m)->Object_0[i] by {
                    assert(o.property_list@[i]@ == pairs[i].0);
                    assert(json_of(objs, prop_value(o, pairs[i].0), st) == reserialised(pairs[i].1));
                }
                assert(json_of(objs, v, stack)->Object_0 =~= reserialised(m)->Object_0);
            }
        },
        _ => {},
    }
}

} // verus!

verus! {

/// What a value without arrays stands for does not rest on the array constructor and
/// prototype.
pub proof fn lemma_denotes_without_arrays(
    objs: Seq<Object>,
    v: JsValue,
    m: JsonModel,
    lo: int,
    hi: int,
    c1: ObjId,
    p1: ObjId,
    c2: ObjId,
    p2: ObjId,
)
    requires
        denotes(objs, v, m, lo, hi, c1, p1),
        !contains_array(m),
    ensures
        denotes(objs, v, m, lo, hi, c2, p2),
    decreases m,
{
    match m {
        JsonModel::Object(pairs) => {
            if let JsValue::Object(id) = v {
                assert(lo <= id < hi);
                assert forall|i: int|
                    #![trigger own_property(objs[id as int], pairs[i].0)]
                    0 <= i < pairs.len() implies entry_denotes(
                    objs,
                    objs[id as int],
                    pairs[i].0,
                    pairs[i].1,
                    id + 1,
                    hi,
                    c2,
                    p2,
                ) by {
                    assert(entry_denotes(objs, objs[id as int], pairs[i].0, pairs[i].1, id + 1, hi, c1, p1));
                    assert(!contains_array(pairs[i].1));
                    let p = own_property(objs[id as int], pairs[i].0).unwrap();
                    lemma_denotes_without_arrays(objs, p.value, pairs[i].1, id + 1, hi, c1, p1, c2, p2);
                }
            }
        },
        _ => {},
    }
}

} // verus!

verus! {

/// What `JSON.stringify` gives is already in serialised form: serialising it again changes
/// nothing.
pub proof fn lemma_json_of_serialised(objs: Seq<Object>, v: JsValue, stack: Seq<usize>)
    requires
        heap_ok(objs),
        visit_ok(objs, stack),
        value_ok(v, objs.len()),
    ensures
        reserialised(json_of(objs, v, stack)) == json_of(objs, v, stack),
    decreases objs.len() - stack.len(),
{
    let m = json_of(objs, v, stack);
    match v {
        JsValue::Number(bits) => {
            law_json_number_finite(bits);
        },
        JsValue::Array(id) => {
            if !stack.contains(id) {
                lemma_visit_room(objs, stack, id);
                let o = objs[id as int];
                let st = stack.push(id);
                assert(object_ok(o, objs.len()));
                assert forall|i: int| 0 <= i < m->Array_0.len() implies #[trigger] reserialised(m->Array_0[i]) == m->Array_0[i] by {
                    let x = prop_value(o, decimal_text(i as nat));
                    if own_property(o, decimal_text(i as nat)) is Some {
                        lemma_property_value_ok(o, decimal_text(i as nat), objs.len());
                    }
                    assert(value_ok(x, objs.len()));
                    assert(m->Array_0[i] == json_of(objs, x, st));
                    lemma_json_of_serialised(objs, x, st);
                }
                assert(m is Array);
                assert forall|i: int| 0 <= i < m->Array_0.len() implies #[trigger] reserialised(m)->Array_0[i] == m->Array_0[i] by {
                    assert(reserialised(m->Array_0[i]) == m->Array_0[i]);
                }
                assert(reserialised(m)->Array_0 =~= m->Array_0);
            }
        },
        JsValue::Object(id) | JsValue::RefObject(id) => {
            if !stack.contains(id) {
                lemma_visit_room(objs, stack, id);
                let o = objs[id as int];
                let st = stack.push(id);
                assert(object_ok(o, objs.len()));
                assert forall|i: int| 0 <= i < m->Object_0.len() implies #[trigger] reserialised(m->Object_0[i].1) == m->Object_0[i].1 by {
                    let k = o.property_list@[i]@;
                    let x = prop_value(o, k);
                    if own_property(o, k) is Some {
                        lemma_property_value_ok(o, k, objs.len());
                    }
                    assert(value_ok(x, objs.len()));
                    assert(m->Object_0[i] == (k, json_of(objs, x, st)));
                    lemma_json_of_serialised(objs, x, st);
                }
                assert forall|i: int| 0 <= i < m->Object_0.len() implies #[trigger] reserialised(m)->Object_0[i] == m->Object_0[i] by {
                    assert(reserialised(m->Object_0[i].1) == m->Object_0[i].1);
                }
                assert(reserialised(m)->Object_0 =~= m->Object_0);
            }
        },
        _ => {},
    }
}

/// Law: converting what `JSON.stringify` gives of a value `v` back into the heap (as
/// `JSON.parse` does with it) builds a value `w` that serialises to the same JSON value as
/// `v`: the same kinds, array lengths and elements, object keys (in order) and values,
/// provided its arrays and integers are of sizes a double holds exactly.
pub proof fn law_parse_of_stringified(
    objs: Seq<Object>,
    v: JsValue,
    objs2: Seq<Object>,
    w: JsValue,
    lo: int,
    hi: int,
    ctor: ObjId,
    proto: ObjId,
)
    requires
        heap_ok(objs),
        value_ok(v, objs.len()),
        heap_ok(objs2),
        denotes(objs2, w, json_of(objs, v, Seq::empty()), lo, hi, ctor, proto),
        within_double_range(json_of(objs, v, Seq::empty())),
    ensures
        json_of(objs2, w, Seq::empty()) == json_of(objs, v, Seq::empty()),
{
    let m = json_of(objs, v, Seq::empty());
    assert(visit_ok(objs, Seq::<usize>::empty()));
    assert(visit_ok(objs2, Seq::<usize>::empty()));
    lemma_json_of_serialised(objs, v, Seq::empty());
    law_stringify_parsed(objs2, w, m, lo, hi, ctor, proto, Seq::empty());
}

} // verus!
