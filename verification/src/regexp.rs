use vstd::prelude::*;
use crate::strsearch::first_occurrence;
use crate::pattern::{
    plan_match, match_sliceable, spec_regexp_match, match_byte_pos, captures_view,
    lemma_ascii_sliceable, search_text, searched_pattern, pattern_parts,
};
use crate::uri::all_ascii;
use crate::json::{decimal_text, decimal_string, index_names, is_index_below, lemma_decimal_injective, lemma_decimal_digits};
use crate::text::{str_chars, string_from_chars, push_char, push_str};
use crate::numbits::{number_from_u128, f64_sign, f64_int_value, round_f64};
use crate::constants::{
    GLOBAL_REGEXP_NAME, PROTO_PROPERTY_NAME, INSTANTIATE_OBJECT_METHOD_NAME, NUMBER_ZERO, NUMBER_ONE,
    NUMBER_TWO,
};
use crate::frame::writes_only;
use crate::value::{
    ObjId, ClassType, Builtin, JsValue, Property, Object, Context, own_property, inner_value, value_ok,
    name_texts, has_key,
};
use crate::global::{
    value_is_text, heap_prefix, global_ref, global_prototype, has_global_prototype,
    get_global_object_by_name, get_global_object_prototype_by_name, binds_method, builtin_function,
    install_function, is_builtin_function, lemma_binds_method_frame, lemma_builtin_frame,
};

verus! {

/// What a match captures, as strings: the whole match, then each group (see
/// `spec_regexp_match`). The captures must fall on character boundaries of the input.
pub fn simple_match(pattern: &str, input: &str, ignore_case: bool) -> (r: Option<Vec<String>>)
    requires
        match_sliceable(pattern@, input@, ignore_case),
    ensures
        match (r, spec_regexp_match(pattern@, input@, ignore_case)) {
            (None, None) => true,
            (Some(caps), Some(t)) => strings_view(caps@) == t,
            _ => false,
        },
{
    match plan_match(pattern, input, ignore_case) {
        Some(Some((caps, _))) => Some(capture_strings(&caps)),
        _ => None,
    }
}

/// The texts of a list of strings.
pub open spec fn strings_view(v: Seq<String>) -> Seq<Seq<char>> {
    v.map_values(|s: String| s@)
}

fn capture_strings(caps: &Vec<Vec<char>>) -> (r: Vec<String>)
    ensures
        strings_view(r@) == captures_view(caps@),
{
    let mut r: Vec<String> = Vec::new();
    let mut i: usize = 0;
    while i < caps.len()
        invariant
            i <= caps@.len(),
            strings_view(r@) == captures_view(caps@).take(i as int),
        decreases caps@.len() - i,
    {
        let t = string_from_chars(&caps[i]);
        let ghost r0 = r@;
        r.push(t);
        assert(strings_view(r@) =~= strings_view(r0).push(caps@[i as int]@));
        assert(captures_view(caps@).take(i + 1) =~= captures_view(caps@).take(i as int).push(caps@[i as int]@));
        i = i + 1;
    }
    assert(captures_view(caps@).take(caps@.len() as int) =~= captures_view(caps@));
    r
}

/// `simple_match` where the captures can be cut out of the input, and `None` where they
/// cannot (a lower-cased match whose range does not fall on character boundaries of the
/// original input; never on an ASCII input).
pub fn simple_match_checked(pattern: &str, input: &str, ignore_case: bool) -> (r: Option<Option<Vec<String>>>)
    ensures
        r is None <==> !match_sliceable(pattern@, input@, ignore_case),
        all_ascii(input@) ==> r is Some,
        r matches Some(m) ==> match (m, spec_regexp_match(pattern@, input@, ignore_case)) {
            (None, None) => true,
            (Some(caps), Some(t)) => strings_view(caps@) == t,
            _ => false,
        },
{
    proof {
        if all_ascii(input@) {
            lemma_ascii_sliceable(pattern@, input@, ignore_case);
        }
    }
    match plan_match(pattern, input, ignore_case) {
        None => None,
        Some(_) => Some(simple_match(pattern, input, ignore_case)),
    }
}

} // verus!

verus! {

/// Whether own property `name` of `o` holds `true`.
pub open spec fn flag_set(o: Object, name: Seq<char>) -> bool {
    match own_property(o, name) {
        Some(p) => p.value == JsValue::Boolean(true),
        None => false,
    }
}

/// A regular-expression object made by `create_regexp`: kind `Object`, constructor `ctor`,
/// internal prototype link to `proto`, and the non-enumerable properties `source` (the
/// pattern), `global`, `ignoreCase`, `multiline` (whether the flags contain `g`, `i`, `m`)
/// and `lastIndex` (0).
pub open spec fn is_regexp_object(o: Object, source: Seq<char>, flags: Seq<char>, ctor: ObjId, proto: ObjId) -> bool {
    &&& o.class_type == ClassType::Object
    &&& o.constructor == Some(ctor)
    &&& o.prototype is None
    &&& o.native is None
    &&& match own_property(o, "source"@) {
        Some(p) => !p.enumerable && value_is_text(p.value, source),
        None => false,
    }
    &&& own_property(o, "global"@) == Some(Property { enumerable: false, value: JsValue::Boolean(flags.contains('g')) })
    &&& own_property(o, "ignoreCase"@) == Some(Property { enumerable: false, value: JsValue::Boolean(flags.contains('i')) })
    &&& own_property(o, "multiline"@) == Some(Property { enumerable: false, value: JsValue::Boolean(flags.contains('m')) })
    &&& own_property(o, "lastIndex"@) == Some(Property { enumerable: false, value: JsValue::Number(NUMBER_ZERO) })
    &&& inner_value(o, PROTO_PROPERTY_NAME@) == Some(JsValue::RefObject(proto))
    &&& forall|k: Seq<char>| k != PROTO_PROPERTY_NAME@ ==> #[trigger] inner_value(o, k) is None
    &&& o.property@.len() == 5
    &&& name_texts(o.property_list@) == seq!["source"@, "global"@, "ignoreCase"@, "multiline"@, "lastIndex"@]
}

proof fn lemma_regexp_keys_distinct()
    ensures
        "source"@ != "global"@,
        "source"@ != "ignoreCase"@,
        "source"@ != "multiline"@,
        "source"@ != "lastIndex"@,
        "global"@ != "ignoreCase"@,
        "global"@ != "multiline"@,
        "global"@ != "lastIndex"@,
        "ignoreCase"@ != "multiline"@,
        "ignoreCase"@ != "lastIndex"@,
        "multiline"@ != "lastIndex"@,
        "length"@ != "0"@,
        "length"@ != "index"@,
        "length"@ != "input"@,
        "0"@ != "index"@,
        "0"@ != "input"@,
        "index"@ != "input"@,
{
    reveal_strlit("source");
    reveal_strlit("global");
    reveal_strlit("ignoreCase");
    reveal_strlit("multiline");
    reveal_strlit("lastIndex");
    reveal_strlit("length");
    reveal_strlit("0");
    reveal_strlit("index");
    reveal_strlit("input");
    assert("source"@[0] != "global"@[0]);
    assert("multiline"@[0] != "lastIndex"@[0]);
    assert("index"@[2] != "input"@[2]);
    assert("0"@.len() == 1);
    assert("length"@.len() == 6);
    assert("index"@.len() == 5);
}

fn chars_contain(s: &Vec<char>, c: char) -> (r: bool)
    ensures
        r == s@.contains(c),
{
    let mut i: usize = 0;
    while i < s.len()
        invariant
            i <= s@.len(),
            forall|j: int| 0 <= j < i ==> s@[j] != c,
        decreases s@.len() - i,
    {
        if s[i] == c {
            assert(s@[i as int] == c);
            return true;
        }
        i = i + 1;
    }
    false
}

/// Creates a regular-expression object for `pattern` with `flags` (no flags when `None`),
/// constructed by the global `RegExp` and linked to its prototype.
pub fn create_regexp(ctx: &mut Context, pattern: &str, flags: Option<&str>) -> (r: JsValue)
    requires
        old(ctx).wf(),
        has_global_prototype(old(ctx).objects@, old(ctx).global as int, GLOBAL_REGEXP_NAME@),
    ensures
        final(ctx).wf(),
        heap_prefix(old(ctx).objects@, final(ctx).objects@),
        final(ctx).objects@.len() == old(ctx).objects@.len() + 1,
        r == JsValue::Object(old(ctx).objects@.len() as usize),
        is_regexp_object(
            final(ctx).objects@[old(ctx).objects@.len() as int],
            pattern@,
            match flags {
                Some(f) => f@,
                None => Seq::<char>::empty(),
            },
            global_ref(old(ctx).objects@, old(ctx).global as int, GLOBAL_REGEXP_NAME@).unwrap(),
            global_prototype(old(ctx).objects@, old(ctx).global as int, GLOBAL_REGEXP_NAME@),
        ),
        final(ctx).global == old(ctx).global,
        final(ctx).scope == old(ctx).scope,
{
    proof {
        lemma_regexp_keys_distinct();
    }
    let global_regexp = match get_global_object_by_name(ctx, GLOBAL_REGEXP_NAME) {
        Some(id) => id,
        None => 0,
    };
    let regexp = ctx.add_object(Object::new(ClassType::Object));
    let ghost fresh = ctx.objects@[regexp as int];
    ctx.set_constructor(regexp, Some(global_regexp));
    let ghost c0 = ctx.objects@[regexp as int];
    proof {
        assert(fresh.property@.len() == 0);
        assert(c0.property == fresh.property);
        assert(!has_key(c0.property@, "source"@));
    }
    ctx.define_property(
        regexp,
        "source".to_owned(),
        Property { enumerable: false, value: JsValue::String(pattern.to_owned()) },
    );
    let ghost s0 = ctx.objects@[regexp as int];
    let flags_chars = match flags {
        Some(f) => str_chars(f),
        None => Vec::new(),
    };
    let g = chars_contain(&flags_chars, 'g');
    let i = chars_contain(&flags_chars, 'i');
    let m = chars_contain(&flags_chars, 'm');
    proof {
        assert(own_property(s0, "global"@) == own_property(c0, "global"@));
        assert(!has_key(s0.property@, "global"@));
    }
    ctx.define_property(regexp, "global".to_owned(), Property { enumerable: false, value: JsValue::Boolean(g) });
    let ghost s1 = ctx.objects@[regexp as int];
    proof {
        assert(own_property(s1, "source"@) == own_property(s0, "source"@));
        assert(own_property(s1, "ignoreCase"@) == own_property(c0, "ignoreCase"@));
        assert(!has_key(s1.property@, "ignoreCase"@));
    }
    ctx.define_property(regexp, "ignoreCase".to_owned(), Property { enumerable: false, value: JsValue::Boolean(i) });
    let ghost s2 = ctx.objects@[regexp as int];
    proof {
        assert(own_property(s2, "source"@) == own_property(s0, "source"@));
        assert(own_property(s2, "global"@) == own_property(s1, "global"@));
        assert(own_property(s2, "multiline"@) == own_property(c0, "multiline"@));
        assert(!has_key(s2.property@, "multiline"@));
    }
    ctx.define_property(regexp, "multiline".to_owned(), Property { enumerable: false, value: JsValue::Boolean(m) });
    let ghost s3 = ctx.objects@[regexp as int];
    proof {
        assert(own_property(s3, "source"@) == own_property(s0, "source"@));
        assert(own_property(s3, "global"@) == own_property(s1, "global"@));
        assert(own_property(s3, "ignoreCase"@) == own_property(s2, "ignoreCase"@));
        assert(own_property(s3, "lastIndex"@) == own_property(c0, "lastIndex"@));
        assert(!has_key(s3.property@, "lastIndex"@));
    }
    ctx.define_property(
        regexp,
        "lastIndex".to_owned(),
        Property { enumerable: false, value: JsValue::Number(NUMBER_ZERO) },
    );
    let ghost s4 = ctx.objects@[regexp as int];
    proof {
        assert(own_property(s4, "source"@) == own_property(s0, "source"@));
        assert(own_property(s4, "global"@) == own_property(s1, "global"@));
        assert(own_property(s4, "ignoreCase"@) == own_property(s2, "ignoreCase"@));
        assert(own_property(s4, "multiline"@) == own_property(s3, "multiline"@));
        assert(s4.inner_property == fresh.inner_property);
        assert(name_texts(s4.property_list@) =~= seq!["source"@, "global"@, "ignoreCase"@, "multiline"@, "lastIndex"@]);
    }
    let global_prototype = get_global_object_prototype_by_name(ctx, GLOBAL_REGEXP_NAME);
    ctx.set_inner_property_value(regexp, PROTO_PROPERTY_NAME.to_owned(), JsValue::RefObject(global_prototype));
    proof {
        let fl = match flags {
            Some(f) => f@,
            None => Seq::<char>::empty(),
        };
        assert(flags_chars@ == fl);
        let o = ctx.objects@[regexp as int];
        assert forall|k: Seq<char>| k != PROTO_PROPERTY_NAME@ implies #[trigger] inner_value(o, k) is None by {
            assert(inner_value(o, k) == inner_value(s4, k));
            assert(fresh.inner_property@.len() == 0);
        }
    }
    JsValue::Object(regexp)
}

/// `RegExp(pattern, flags)`: a regular-expression object for the given texts; an absent
/// pattern is the empty text.
pub fn create(ctx: &mut Context, pattern: Option<&str>, flags: Option<&str>) -> (r: JsValue)
    requires
        old(ctx).wf(),
        has_global_prototype(old(ctx).objects@, old(ctx).global as int, GLOBAL_REGEXP_NAME@),
    ensures
        final(ctx).wf(),
        heap_prefix(old(ctx).objects@, final(ctx).objects@),
        final(ctx).objects@.len() == old(ctx).objects@.len() + 1,
        r == JsValue::Object(old(ctx).objects@.len() as usize),
        is_regexp_object(
            final(ctx).objects@[old(ctx).objects@.len() as int],
            match pattern {
                Some(p) => p@,
                None => Seq::<char>::empty(),
            },
            match flags {
                Some(f) => f@,
                None => Seq::<char>::empty(),
            },
            global_ref(old(ctx).objects@, old(ctx).global as int, GLOBAL_REGEXP_NAME@).unwrap(),
            global_prototype(old(ctx).objects@, old(ctx).global as int, GLOBAL_REGEXP_NAME@),
        ),
        final(ctx).global == old(ctx).global,
        final(ctx).scope == old(ctx).scope,
{
    let p = match pattern {
        Some(p) => p,
        None => "",
    };
    proof {
        reveal_strlit("");
        assert(""@ =~= Seq::<char>::empty());
        assert(p@ == match pattern {
            Some(p) => p@,
            None => Seq::<char>::empty(),
        });
    }
    create_regexp(ctx, p, flags)
}

} // verus!

verus! {

fn read_flag(ctx: &Context, id: ObjId, name: &str) -> (r: bool)
    requires
        ctx.heap_wf(),
        id < ctx.objects@.len(),
    ensures
        r == flag_set(ctx.objects@[id as int], name@),
{
    let v = ctx.get_value(id, &name.to_owned());
    match v {
        JsValue::Boolean(b) => b,
        _ => false,
    }
}

/// `text` is the pattern text that is read from `this`: the text of its `source` property
/// when that holds a string, and the empty text when it has no `source` (any other value of
/// `source` is converted to text by the caller).
pub open spec fn source_text_of(objs: Seq<Object>, this: JsValue, text: Seq<char>) -> bool {
    match this {
        JsValue::Object(id) => match own_property(objs[id as int], "source"@) {
            Some(p) => match p.value {
                JsValue::String(s) => s@ == text,
                _ => true,
            },
            None => text == Seq::<char>::empty(),
        },
        _ => true,
    }
}

/// `RegExp.prototype.test`: whether the pattern occurs in `input` (compared in lower case
/// when the object's `ignoreCase` is true), its parenthesised groups read as plain text.
/// `source_text` is the text of the object's `source` property, `input` that of the
/// argument. `false` when `this` is no object; `None` where the match cannot be cut out of
/// the input (see `simple_match_checked`), which never happens on an ASCII input.
pub fn test(ctx: &Context, this: &JsValue, source_text: &str, input: &str) -> (r: Option<JsValue>)
    requires
        ctx.wf(),
        value_ok(*this, ctx.objects@.len()),
        source_text_of(ctx.objects@, *this, source_text@),
    ensures
        match *this {
            JsValue::Object(id) => {
                let ic = flag_set(ctx.objects@[id as int], "ignoreCase"@);
                &&& (r is None <==> !match_sliceable(source_text@, input@, ic))
                &&& (r matches Some(v) ==> v == JsValue::Boolean(spec_regexp_match(source_text@, input@, ic) is Some))
            },
            _ => r == Some(JsValue::Boolean(false)),
        },
        all_ascii(input@) ==> r is Some,
{
    let id = match this {
        JsValue::Object(id) => *id,
        _ => return Some(JsValue::Boolean(false)),
    };
    let ignore_case = read_flag(ctx, id, "ignoreCase");
    match simple_match_checked(source_text, input, ignore_case) {
        None => None,
        Some(m) => Some(JsValue::Boolean(m.is_some())),
    }
}

/// The array that `exec` returns: kind `Array`; `length` the number of captures; the
/// captures (the whole match, then each group) at `0`, `1`, ...; and the non-enumerable
/// `index` (the byte position of the match in the searched input, as a number) and `input`.
pub open spec fn is_exec_result(o: Object, captures: Seq<Seq<char>>, index: int, input: Seq<char>) -> bool {
    &&& o.class_type == ClassType::Array
    &&& o.prototype is None
    &&& o.constructor is None
    &&& o.native is None
    &&& match own_property(o, "length"@) {
        Some(p) => !p.enumerable && match p.value {
            JsValue::Number(b) => !f64_sign(b) && f64_int_value(b) == Some(round_f64(captures.len()) as int),
            _ => false,
        },
        None => false,
    }
    &&& forall|i: int|
        0 <= i < captures.len() ==> match #[trigger] own_property(o, decimal_text(i as nat)) {
            Some(p) => p.enumerable && value_is_text(p.value, captures[i]),
            None => false,
        }
    &&& match own_property(o, "index"@) {
        Some(p) => !p.enumerable && match p.value {
            JsValue::Number(b) => !f64_sign(b) && f64_int_value(b) == Some(round_f64(index as nat) as int),
            _ => false,
        },
        None => false,
    }
    &&& match own_property(o, "input"@) {
        Some(p) => !p.enumerable && value_is_text(p.value, input),
        None => false,
    }
    &&& o.inner_property@.len() == 0
    &&& o.property@.len() == captures.len() + 3
    &&& name_texts(o.property_list@) == seq!["length"@] + index_names(captures.len()) + seq!["index"@, "input"@]
}

proof fn lemma_word_not_index(w: Seq<char>, n: nat)
    requires
        w.len() > 0,
        !('0' <= w[0] <= '9'),
    ensures
        decimal_text(n) != w,
{
    lemma_decimal_digits(n);
    assert(decimal_text(n)[0] != w[0]);
}

/// `RegExp.prototype.exec`: `null` when `this` is no object or the pattern does not occur;
/// else a new array of the captures (see `is_exec_result`). `None` where the match cannot be
/// cut out of the input, which never happens on an ASCII input. Other objects are left as
/// they were.
pub fn exec(ctx: &mut Context, this: &JsValue, source_text: &str, input: &str) -> (r: Option<JsValue>)
    requires
        old(ctx).wf(),
        value_ok(*this, old(ctx).objects@.len()),
        source_text_of(old(ctx).objects@, *this, source_text@),
    ensures
        final(ctx).wf(),
        heap_prefix(old(ctx).objects@, final(ctx).objects@),
        final(ctx).global == old(ctx).global,
        final(ctx).scope == old(ctx).scope,
        all_ascii(input@) ==> r is Some,
        match *this {
            JsValue::Object(id) => {
                let ic = flag_set(old(ctx).objects@[id as int], "ignoreCase"@);
                if !match_sliceable(source_text@, input@, ic) {
                    r is None && final(ctx).objects@ == old(ctx).objects@
                } else {
                    match (spec_regexp_match(source_text@, input@, ic), match_byte_pos(source_text@, input@, ic)) {
                        (Some(caps), Some(p)) => {
                            &&& r == Some(JsValue::Array(old(ctx).objects@.len() as usize))
                            &&& final(ctx).objects@.len() == old(ctx).objects@.len() + 1
                            &&& is_exec_result(final(ctx).objects@[old(ctx).objects@.len() as int], caps, p, input@)
                        },
                        _ => r == Some(JsValue::Null) && final(ctx).objects@ == old(ctx).objects@,
                    }
                }
            },
            _ => r == Some(JsValue::Null) && final(ctx).objects@ == old(ctx).objects@,
        },
{
    let id = match this {
        JsValue::Object(id) => *id,
        _ => return Some(JsValue::Null),
    };
    let ignore_case = read_flag(ctx, id, "ignoreCase");
    proof {
        if all_ascii(input@) {
            lemma_ascii_sliceable(source_text@, input@, ignore_case);
        }
    }
    let (caps, byte_pos) = match plan_match(source_text, input, ignore_case) {
        None => return None,
        Some(None) => return Some(JsValue::Null),
        Some(Some(found)) => found,
    };
    let ghost cv = captures_view(caps@);
    let n = caps.len();
    proof {
        reveal_strlit("length");
        reveal_strlit("index");
        reveal_strlit("input");
        assert("index"@[2] != "input"@[2]);
    }
    let arr = ctx.add_object(Object::new(ClassType::Array));
    let ghost fresh = ctx.objects@[arr as int];
    proof {
        assert(fresh.property@.len() == 0);
        assert(!has_key(fresh.property@, "length"@));
    }
    let length = number_from_u128(n as u128);
    ctx.define_property(arr, "length".to_owned(), Property { enumerable: false, value: JsValue::Number(length) });
    proof {
        let o = ctx.objects@[arr as int];
        assert forall|k: Seq<char>| #[trigger] own_property(o, k) is Some implies k == "length"@ || is_index_below(k, 0) by {
            if k != "length"@ {
                assert(own_property(fresh, k) is None);
            }
        }
        assert(name_texts(o.property_list@) =~= seq!["length"@] + index_names(0));
    }
    let mut i: usize = 0;
    while i < n
        invariant
            0 <= i <= n,
            n == caps@.len(),
            cv == captures_view(caps@),
            ctx.wf(),
            ctx.global == old(ctx).global,
            ctx.scope == old(ctx).scope,
            arr == old(ctx).objects@.len(),
            ctx.objects@.len() == old(ctx).objects@.len() + 1,
            heap_prefix(old(ctx).objects@, ctx.objects@),
            ctx.objects@[arr as int].class_type == ClassType::Array,
            ctx.objects@[arr as int].prototype is None,
            ctx.objects@[arr as int].constructor is None,
            ctx.objects@[arr as int].native is None,
            ctx.objects@[arr as int].inner_property@.len() == 0,
            own_property(ctx.objects@[arr as int], "length"@) == Some(Property { enumerable: false, value: JsValue::Number(length) }),
            ctx.objects@[arr as int].property@.len() == i + 1,
            name_texts(ctx.objects@[arr as int].property_list@) == seq!["length"@] + index_names(i as nat),
            forall|k: Seq<char>| #[trigger] own_property(ctx.objects@[arr as int], k) is Some ==> k == "length"@ || is_index_below(k, i as nat),
            forall|j: int| 0 <= j < i ==> match #[trigger] own_property(ctx.objects@[arr as int], decimal_text(j as nat)) {
                Some(p) => p.enumerable && value_is_text(p.value, cv[j]),
                None => false,
            },
        decreases n - i,
    {
        let key = decimal_string(i);
        let ghost before = ctx.objects@;
        proof {
            reveal_strlit("length");
            lemma_word_not_index("length"@, i as nat);
            if own_property(before[arr as int], key@) is Some {
                let j = choose|j: nat| j < i && #[trigger] decimal_text(j) == key@;
                lemma_decimal_injective(j, i as nat);
            }
        }
        let ghost names_before = before[arr as int].property_list@;
        let text = string_from_chars(&caps[i]);
        assert(text@ == cv[i as int]);
        ctx.define_property(arr, key, Property { enumerable: true, value: JsValue::String(text) });
        proof {
            let o = ctx.objects@[arr as int];
            assert(o.inner_property == before[arr as int].inner_property);
            assert(!has_key(before[arr as int].property@, decimal_text(i as nat)));
            assert(o.property_list@ == names_before.push(key));
            assert(name_texts(o.property_list@) =~= name_texts(names_before).push(decimal_text(i as nat)));
            assert(index_names((i + 1) as nat) =~= index_names(i as nat).push(decimal_text(i as nat)));
            assert(seq!["length"@] + index_names((i + 1) as nat) =~= (seq!["length"@] + index_names(i as nat)).push(decimal_text(i as nat)));
            assert(cv[i as int] == caps@[i as int]@);
            assert forall|k: Seq<char>| #[trigger] own_property(o, k) is Some implies k == "length"@ || is_index_below(k, (i + 1) as nat) by {
                if k == decimal_text(i as nat) {
                    assert(decimal_text(i as nat) == k);
                } else if k != "length"@ {
                    assert(own_property(before[arr as int], k) is Some);
                    let j = choose|j: nat| j < i && #[trigger] decimal_text(j) == k;
                    assert(j < i + 1 && decimal_text(j) == k);
                }
            }
            assert forall|j: int| 0 <= j < i + 1 implies match #[trigger] own_property(o, decimal_text(j as nat)) {
                Some(p) => p.enumerable && value_is_text(p.value, cv[j]),
                None => false,
            } by {
                if j < i {
                    if decimal_text(j as nat) == decimal_text(i as nat) {
                        lemma_decimal_injective(j as nat, i as nat);
                    }
                    assert(own_property(o, decimal_text(j as nat)) == own_property(before[arr as int], decimal_text(j as nat)));
                }
            }
        }
        i = i + 1;
    }
    let ghost s1 = ctx.objects@[arr as int];
    proof {
        reveal_strlit("length");
        reveal_strlit("index");
        reveal_strlit("input");
        assert("index"@[2] != "input"@[2]);
        assert("index"@.len() != "length"@.len());
        assert(own_property(s1, "index"@) is None) by {
            if own_property(s1, "index"@) is Some {
                let j = choose|j: nat| j < n && #[trigger] decimal_text(j) == "index"@;
                lemma_word_not_index("index"@, j);
            }
        }
        assert(!has_key(s1.property@, "index"@));
    }
    let index_bits = number_from_u128(byte_pos);
    ctx.define_property(arr, "index".to_owned(), Property { enumerable: false, value: JsValue::Number(index_bits) });
    let ghost s2 = ctx.objects@[arr as int];
    proof {
        reveal_strlit("length");
        reveal_strlit("index");
        reveal_strlit("input");
        assert("index"@[2] != "input"@[2]);
        assert("input"@.len() != "length"@.len());
        assert(own_property(s2, "input"@) == own_property(s1, "input"@));
        assert(own_property(s1, "input"@) is None) by {
            if own_property(s1, "input"@) is Some {
                let j = choose|j: nat| j < n && #[trigger] decimal_text(j) == "input"@;
                lemma_word_not_index("input"@, j);
            }
        }
        assert(!has_key(s2.property@, "input"@));
    }
    ctx.define_property(arr, "input".to_owned(), Property { enumerable: false, value: JsValue::String(input.to_owned()) });
    proof {
        reveal_strlit("length");
        reveal_strlit("index");
        reveal_strlit("input");
        assert("index"@[2] != "input"@[2]);
        assert("index"@.len() != "length"@.len());
        assert("input"@.len() != "length"@.len());
        let s3 = ctx.objects@[arr as int];
        lemma_word_not_index("index"@, 0);
        assert(own_property(s3, "length"@) == own_property(s1, "length"@));
        assert(own_property(s3, "index"@) == own_property(s2, "index"@));
        assert forall|j: int| 0 <= j < cv.len() implies match #[trigger] own_property(s3, decimal_text(j as nat)) {
            Some(p) => p.enumerable && value_is_text(p.value, cv[j]),
            None => false,
        } by {
            lemma_word_not_index("index"@, j as nat);
            lemma_word_not_index("input"@, j as nat);
            assert(own_property(s3, decimal_text(j as nat)) == own_property(s1, decimal_text(j as nat)));
        }
        assert(name_texts(s3.property_list@) =~= seq!["length"@] + index_names(n as nat) + seq!["index"@, "input"@]);
    }
    Some(JsValue::Array(arr))
}

/// The flag letters of a regular-expression object: `g`, `i`, `m` for each of `global`,
/// `ignoreCase`, `multiline` that is true, in that order.
pub open spec fn regexp_flags_text(o: Object) -> Seq<char> {
    (if flag_set(o, "global"@) {
        seq!['g']
    } else {
        seq![]
    }) + (if flag_set(o, "ignoreCase"@) {
        seq!['i']
    } else {
        seq![]
    }) + (if flag_set(o, "multiline"@) {
        seq!['m']
    } else {
        seq![]
    })
}

/// `RegExp.prototype.toString`: `/source/flags`, or `/(?:)/` when `this` is no object.
/// `source_text` is the text of the object's `source` property.
pub fn to_string(ctx: &Context, this: &JsValue, source_text: &str) -> (r: JsValue)
    requires
        ctx.wf(),
        value_ok(*this, ctx.objects@.len()),
        source_text_of(ctx.objects@, *this, source_text@),
    ensures
        match *this {
            JsValue::Object(id) => value_is_text(
                r,
                seq!['/'] + source_text@ + seq!['/'] + regexp_flags_text(ctx.objects@[id as int]),
            ),
            _ => value_is_text(r, "/(?:)/"@),
        },
{
    let id = match this {
        JsValue::Object(id) => *id,
        _ => {
            let s = "/(?:)/".to_owned();
            return JsValue::String(s);
        },
    };
    let mut flags = String::new();
    let ghost o = ctx.objects@[id as int];
    if read_flag(ctx, id, "global") {
        push_char(&mut flags, 'g');
    }
    if read_flag(ctx, id, "ignoreCase") {
        push_char(&mut flags, 'i');
    }
    if read_flag(ctx, id, "multiline") {
        push_char(&mut flags, 'm');
    }
    assert(flags@ =~= regexp_flags_text(o));
    let mut out = String::new();
    push_char(&mut out, '/');
    push_str(&mut out, source_text);
    push_char(&mut out, '/');
    push_str(&mut out, flags.as_str());
    assert(out@ =~= seq!['/'] + source_text@ + seq!['/'] + regexp_flags_text(o));
    JsValue::String(out)
}

} // verus!

verus! {

/// `RegExp` holds its instantiation function (a native function of length 2) internally,
/// and its prototype, if it has one, holds `test`, `exec` (length 1) and `toString`
/// (length 0).
pub open spec fn regexp_bound(objs: Seq<Object>, r: int) -> bool {
    &&& 0 <= r < objs.len()
    &&& match inner_value(objs[r], INSTANTIATE_OBJECT_METHOD_NAME@) {
        Some(JsValue::Function(f)) => f < objs.len() && is_builtin_function(
            objs[f as int],
            INSTANTIATE_OBJECT_METHOD_NAME@,
            NUMBER_TWO,
            Builtin::RegExpCreate,
        ),
        _ => false,
    }
    &&& match objs[r].prototype {
        Some(p) => {
            &&& binds_method(objs, p as int, "test"@, NUMBER_ONE, Builtin::RegExpTest)
            &&& binds_method(objs, p as int, "exec"@, NUMBER_ONE, Builtin::RegExpExec)
            &&& binds_method(objs, p as int, "toString"@, NUMBER_ZERO, Builtin::RegExpToString)
        },
        None => true,
    }
}

/// Installs the instantiation function on the global `RegExp` object and `test`, `exec`,
/// `toString` on its prototype.
pub fn bind_global_regexp(ctx: &mut Context)
    requires
        old(ctx).wf(),
        global_ref(old(ctx).objects@, old(ctx).global as int, GLOBAL_REGEXP_NAME@) is Some,
    ensures
        final(ctx).wf(),
        final(ctx).global == old(ctx).global,
        final(ctx).scope == old(ctx).scope,
        writes_only(
            old(ctx).objects@,
            final(ctx).objects@,
            set!["test"@, "exec"@, "toString"@],
            set![INSTANTIATE_OBJECT_METHOD_NAME@],
        ),
        regexp_bound(
            final(ctx).objects@,
            global_ref(old(ctx).objects@, old(ctx).global as int, GLOBAL_REGEXP_NAME@).unwrap() as int,
        ),
{
    proof {
        reveal_strlit("test");
        reveal_strlit("exec");
        reveal_strlit("toString");
        reveal_strlit("name");
        reveal_strlit("length");
        assert("test"@[0] != "exec"@[0]);
        assert("test"@.len() != "toString"@.len());
        assert("exec"@.len() != "toString"@.len());
        assert("test"@.len() != "length"@.len());
        assert("exec"@.len() != "length"@.len());
        assert("toString"@.len() != "length"@.len());
        assert("test"@[0] != "name"@[0]);
        assert("exec"@[0] != "name"@[0]);
        assert("toString"@.len() != "name"@.len());
    }
    let ghost a = ctx.objects@;
    let regexp = match get_global_object_by_name(ctx, GLOBAL_REGEXP_NAME) {
        Some(id) => id,
        None => 0,
    };
    let create_function = builtin_function(
        ctx,
        INSTANTIATE_OBJECT_METHOD_NAME.to_owned(),
        NUMBER_TWO,
        Builtin::RegExpCreate,
    );
    let ghost b = ctx.objects@;
    ctx.set_inner_property_value(regexp, INSTANTIATE_OBJECT_METHOD_NAME.to_owned(), create_function);
    let ghost c = ctx.objects@;
    let ghost pk = set!["test"@, "exec"@, "toString"@];
    let ghost ik = set![INSTANTIATE_OBJECT_METHOD_NAME@];
    proof {
        crate::frame::lemma_writes_only_grow(a, b);
        crate::frame::lemma_writes_only_inner(b, c, regexp as int, INSTANTIATE_OBJECT_METHOD_NAME@);
        crate::frame::lemma_writes_only_trans(a, b, c, Set::empty(), Set::empty(), Set::empty(), ik);
        crate::frame::lemma_writes_only_weaken(a, c, Set::empty().union(Set::empty()), Set::empty().union(ik), pk, ik);
        assert(c[a.len() as int] == b[a.len() as int]);
    }
    let proto = ctx.objects[regexp].prototype;
    match proto {
        Some(p) => {
            install_function(ctx, p, "test", NUMBER_ONE, Builtin::RegExpTest, true);
            let ghost d = ctx.objects@;
            install_function(ctx, p, "exec", NUMBER_ONE, Builtin::RegExpExec, true);
            let ghost e = ctx.objects@;
            install_function(ctx, p, "toString", NUMBER_ZERO, Builtin::RegExpToString, true);
            proof {
                let f = ctx.objects@;
                crate::frame::lemma_writes_only_trans(c, d, e, set!["test"@], Set::empty(), set!["exec"@], Set::empty());
                crate::frame::lemma_writes_only_trans(c, e, f, set!["test"@].union(set!["exec"@]), Set::empty().union(Set::empty()), set!["toString"@], Set::empty());
                crate::frame::lemma_writes_only_weaken(c, f, set!["test"@].union(set!["exec"@]).union(set!["toString"@]), Set::empty().union(Set::empty()).union(Set::empty()), pk, Set::empty());
                crate::frame::lemma_writes_only_trans(a, c, f, pk, ik, pk, Set::empty());
                crate::frame::lemma_writes_only_weaken(a, f, pk.union(pk), ik.union(Set::empty()), pk, ik);
                lemma_binds_method_frame(d, e, p as int, "test"@, NUMBER_ONE, Builtin::RegExpTest, set!["exec"@], Set::empty());
                lemma_binds_method_frame(d, f, p as int, "test"@, NUMBER_ONE, Builtin::RegExpTest, set!["exec"@].union(set!["toString"@]), Set::empty());
                crate::frame::lemma_writes_only_trans(d, e, f, set!["exec"@], Set::empty(), set!["toString"@], Set::empty());
                lemma_binds_method_frame(e, f, p as int, "exec"@, NUMBER_ONE, Builtin::RegExpExec, set!["toString"@], Set::empty());
                crate::frame::lemma_writes_only_trans(c, d, f, set!["test"@], Set::empty(), set!["exec"@].union(set!["toString"@]), Set::empty());
                assert(inner_value(f[regexp as int], INSTANTIATE_OBJECT_METHOD_NAME@) == inner_value(c[regexp as int], INSTANTIATE_OBJECT_METHOD_NAME@));
                lemma_builtin_frame(c, f, a.len() as int, set!["test"@].union(set!["exec"@].union(set!["toString"@])), Set::empty().union(Set::empty().union(Set::empty())), INSTANTIATE_OBJECT_METHOD_NAME@, NUMBER_TWO, Builtin::RegExpCreate);
            }
        },
        None => {},
    }
}

} // verus!

verus! {

/// `RegExp` stays bound when the heap changes at none of the method names, `name` or
/// `length`, and not at its internal instantiation function.
pub proof fn lemma_regexp_bound_frame(a: Seq<Object>, b: Seq<Object>, r: int, pk: Set<Seq<char>>, ik: Set<Seq<char>>)
    requires
        writes_only(a, b, pk, ik),
        regexp_bound(a, r),
        !ik.contains(INSTANTIATE_OBJECT_METHOD_NAME@),
        !pk.contains("test"@),
        !pk.contains("exec"@),
        !pk.contains("toString"@),
        !pk.contains("name"@),
        !pk.contains("length"@),
    ensures
        regexp_bound(b, r),
{
    assert(inner_value(b[r], INSTANTIATE_OBJECT_METHOD_NAME@) == inner_value(a[r], INSTANTIATE_OBJECT_METHOD_NAME@));
    match inner_value(a[r], INSTANTIATE_OBJECT_METHOD_NAME@) {
        Some(JsValue::Function(f)) => {
            lemma_builtin_frame(a, b, f as int, pk, ik, INSTANTIATE_OBJECT_METHOD_NAME@, NUMBER_TWO, Builtin::RegExpCreate);
        },
        _ => {},
    }
    match a[r].prototype {
        Some(p) => {
            lemma_binds_method_frame(a, b, p as int, "test"@, NUMBER_ONE, Builtin::RegExpTest, pk, ik);
            lemma_binds_method_frame(a, b, p as int, "exec"@, NUMBER_ONE, Builtin::RegExpExec, pk, ik);
            lemma_binds_method_frame(a, b, p as int, "toString"@, NUMBER_ZERO, Builtin::RegExpToString, pk, ik);
        },
        None => {},
    }
}

} // verus!

verus! {

/// Law: `test` finds a match exactly where `exec` finds one: where the searched pattern (the
/// pattern's parts, groups read as plain text) occurs in the searched input.
pub proof fn law_test_agrees_with_exec(pattern: Seq<char>, input: Seq<char>, ignore_case: bool)
    ensures
        (spec_regexp_match(pattern, input, ignore_case) is Some) == (match_byte_pos(pattern, input, ignore_case) is Some),
        (match_byte_pos(pattern, input, ignore_case) is Some) == (first_occurrence(
            search_text(input, ignore_case),
            searched_pattern(pattern_parts(pattern), ignore_case),
        ) is Some),
{
}

} // verus!
