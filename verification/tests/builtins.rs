use jsi::date::{date_now, date_now_value};
use jsi::global::{
    bind_global, get_global_object, get_global_object_by_name, get_global_object_prototype_by_name,
    global_is_finite, global_is_nan, new_global_object, new_global_this,
};
use jsi::json::{create_array_from_values, decimal_string, json_parse, json_stringify, JsError};
use jsi::jsonvalue::JsonValue;
use jsi::numbits::{
    f64_bits_as_i32, f64_bits_as_usize, json_number_from_bits, number_from_i64, number_from_u128,
    JsonNumber,
};
use jsi::numparse::{global_parse_float, global_parse_int, ParsedFloat, ParsedInt};
use jsi::regexp::{create, create_regexp, exec, simple_match, to_string};
use jsi::uri::{
    decode_uri_helper, encode_uri_helper, global_decode_uri, global_decode_uri_component,
    global_encode_uri, global_encode_uri_component, is_uri_reserved, is_uri_unreserved,
};
use jsi::value::{Context, JsValue, Property};

fn standard_context() -> Context {
    let mut ctx = Context::empty();
    let g = new_global_this(&mut ctx);
    ctx.global = g;
    bind_global(&mut ctx);
    ctx
}

fn text_of(v: &JsValue) -> String {
    match v {
        JsValue::String(s) => s.clone(),
        _ => panic!("expected a string"),
    }
}

fn number_of(v: &JsValue) -> f64 {
    match v {
        JsValue::Number(b) => f64::from_bits(*b),
        _ => panic!("expected a number"),
    }
}

fn object_id(v: &JsValue) -> usize {
    match v {
        JsValue::Object(id) | JsValue::Array(id) | JsValue::RefObject(id) | JsValue::Function(id) => *id,
        _ => panic!("expected an object"),
    }
}

fn prop(ctx: &Context, v: &JsValue, name: &str) -> JsValue {
    ctx.get_value(object_id(v), &name.to_string())
}

fn to_serde(v: &JsonValue) -> serde_json::Value {
    match v {
        JsonValue::Null => serde_json::Value::Null,
        JsonValue::Bool(b) => serde_json::Value::Bool(*b),
        JsonValue::Number(JsonNumber::Int(i)) => serde_json::Value::Number(serde_json::Number::from(*i)),
        JsonValue::Number(JsonNumber::Float(b)) => serde_json::Number::from_f64(f64::from_bits(*b))
            .map(serde_json::Value::Number)
            .unwrap_or(serde_json::Value::Null),
        JsonValue::String(s) => serde_json::Value::String(s.clone()),
        JsonValue::Array(items) => serde_json::Value::Array(items.iter().map(to_serde).collect()),
        JsonValue::Object(pairs) => {
            let mut map = serde_json::Map::new();
            for (k, x) in pairs {
                map.insert(k.clone(), to_serde(x));
            }
            serde_json::Value::Object(map)
        }
    }
}

fn stringify_text(ctx: &Context, v: &JsValue) -> String {
    match json_stringify(ctx, Some(v)) {
        Some(j) => to_serde(&j).to_string(),
        None => panic!("expected a JSON value"),
    }
}

// ---- URI functions ----

#[test]
fn es3_encode_uri() {
    assert_eq!(text_of(&global_encode_uri(Some("test test"))), "test%20test");
}

#[test]
fn es3_decode_uri() {
    assert_eq!(text_of(&global_decode_uri(Some("test%20test"))), "test test");
}

#[test]
fn es3_encode_uri_component() {
    assert_eq!(text_of(&global_encode_uri_component(Some("test/test"))), "test%2Ftest");
}

#[test]
fn es3_decode_uri_component() {
    assert_eq!(text_of(&global_decode_uri_component(Some("test%2Ftest"))), "test/test");
}

#[test]
fn uri_functions_without_argument_give_undefined() {
    assert_eq!(text_of(&global_encode_uri(None)), "undefined");
    assert_eq!(text_of(&global_decode_uri(None)), "undefined");
    assert_eq!(text_of(&global_encode_uri_component(None)), "undefined");
    assert_eq!(text_of(&global_decode_uri_component(None)), "undefined");
}

#[test]
fn encode_uri_keeps_reserved_and_hash() {
    assert_eq!(encode_uri_helper("a;b/c?d:e@f&g=h+i$j,k#l", false), "a;b/c?d:e@f&g=h+i$j,k#l");
    assert_eq!(encode_uri_helper("a;b#c", true), "a%3Bb%23c");
}

#[test]
fn encode_uri_writes_utf8_bytes() {
    assert_eq!(encode_uri_helper("é", true), "%C3%A9");
    assert_eq!(encode_uri_helper("€", false), "%E2%82%AC");
}

#[test]
fn decode_uri_keeps_escaped_reserved() {
    assert_eq!(decode_uri_helper("a%2Fb%20c", false), "a%2Fb c");
    assert_eq!(decode_uri_helper("a%2Fb%20c", true), "a/b c");
}

#[test]
fn decode_uri_odd_escapes() {
    assert_eq!(decode_uri_helper("100%", true), "100%");
    assert_eq!(decode_uri_helper("%A", true), "%");
    assert_eq!(decode_uri_helper("%zz!", true), "%zz!");
    assert_eq!(decode_uri_helper("%+5", true), "\u{5}");
    assert_eq!(decode_uri_helper("%C3%A9", true), "\u{C3}\u{A9}");
}

#[test]
fn decode_of_encode_gives_back_ascii_text() {
    let s = "a b/c?d=e&f#g%h~'()*!";
    assert_eq!(decode_uri_helper(&encode_uri_helper(s, false), false), s);
    assert_eq!(decode_uri_helper(&encode_uri_helper(s, true), true), s);
}

#[test]
fn uri_character_classes() {
    for c in [';', '/', '?', ':', '@', '&', '=', '+', '$', ','] {
        assert!(is_uri_reserved(c));
    }
    assert!(!is_uri_reserved('#'));
    for c in ['A', 'z', '0', '-', '_', '.', '!', '~', '*', '\'', '(', ')'] {
        assert!(is_uri_unreserved(c));
    }
    assert!(!is_uri_unreserved(' '));
    assert!(!is_uri_unreserved('%'));
}

// ---- parseInt and parseFloat ----

fn digits_of(r: &ParsedInt) -> (bool, u32, Vec<u32>) {
    match r {
        ParsedInt::Digits { negative, radix, digits } => (*negative, *radix, digits.clone()),
        ParsedInt::NaN => panic!("expected digits"),
    }
}

#[test]
fn parse_int_decimal() {
    assert_eq!(digits_of(&global_parse_int(Some("42"), None)), (false, 10, vec![4, 2]));
    assert_eq!(digits_of(&global_parse_int(Some("  -12abc"), None)), (true, 10, vec![1, 2]));
    assert_eq!(digits_of(&global_parse_int(Some("+7"), None)), (false, 10, vec![7]));
}

#[test]
fn parse_int_hex_prefix() {
    assert_eq!(digits_of(&global_parse_int(Some("0x1F"), None)), (false, 16, vec![1, 15]));
    let sixteen = 16.0f64.to_bits();
    assert_eq!(digits_of(&global_parse_int(Some("0xff"), Some(Some(sixteen)))), (false, 16, vec![15, 15]));
}

#[test]
fn parse_int_with_radix() {
    let two = 2.0f64.to_bits();
    assert_eq!(digits_of(&global_parse_int(Some("1012"), Some(Some(two)))), (false, 2, vec![1, 0, 1]));
    let eight = 8.9f64.to_bits();
    assert_eq!(digits_of(&global_parse_int(Some("017"), Some(Some(eight)))), (false, 8, vec![1, 7]));
    assert_eq!(digits_of(&global_parse_int(Some("19"), Some(None))), (false, 10, vec![1, 9]));
}

#[test]
fn parse_int_nan() {
    assert!(matches!(global_parse_int(None, None), ParsedInt::NaN));
    assert!(matches!(global_parse_int(Some("abc"), None), ParsedInt::NaN));
    assert!(matches!(global_parse_int(Some(""), None), ParsedInt::NaN));
    assert!(matches!(global_parse_int(Some("12"), Some(Some(37.0f64.to_bits()))), ParsedInt::NaN));
    assert!(matches!(global_parse_int(Some("12"), Some(Some(1.0f64.to_bits()))), ParsedInt::NaN));
    assert!(matches!(global_parse_int(Some("12"), Some(Some(f64::NAN.to_bits()))), ParsedInt::NaN));
}

#[test]
fn parse_float_parts() {
    match global_parse_float(Some("  3.14abc")) {
        ParsedFloat::Number { negative, int_digits, frac_digits, exp_negative, exp_digits } => {
            assert!(!negative);
            assert_eq!(int_digits, vec![3]);
            assert_eq!(frac_digits, vec![1, 4]);
            assert!(!exp_negative);
            assert!(exp_digits.is_empty());
        }
        ParsedFloat::NaN => panic!("expected a number"),
    }
    match global_parse_float(Some("-2.5e-3")) {
        ParsedFloat::Number { negative, int_digits, frac_digits, exp_negative, exp_digits } => {
            assert!(negative);
            assert_eq!(int_digits, vec![2]);
            assert_eq!(frac_digits, vec![5]);
            assert!(exp_negative);
            assert_eq!(exp_digits, vec![3]);
        }
        ParsedFloat::NaN => panic!("expected a number"),
    }
}

#[test]
fn parse_float_nan() {
    assert!(matches!(global_parse_float(None), ParsedFloat::NaN));
    assert!(matches!(global_parse_float(Some("abc")), ParsedFloat::NaN));
    assert!(matches!(global_parse_float(Some(".")), ParsedFloat::NaN));
}

// ---- isNaN and isFinite ----

#[test]
fn is_nan_cases() {
    let one = 1.0f64.to_bits();
    assert!(matches!(global_is_nan(None, None), JsValue::Boolean(false)));
    assert!(matches!(global_is_nan(Some(&JsValue::NaN), None), JsValue::Boolean(true)));
    assert!(matches!(global_is_nan(Some(&JsValue::String("abc".to_string())), None), JsValue::Boolean(true)));
    assert!(matches!(global_is_nan(Some(&JsValue::Number(one)), Some(one)), JsValue::Boolean(false)));
    let nan = f64::NAN.to_bits();
    assert!(matches!(global_is_nan(Some(&JsValue::Number(nan)), Some(nan)), JsValue::Boolean(true)));
}

#[test]
fn is_finite_cases() {
    let one = 1.0f64.to_bits();
    let inf = f64::INFINITY.to_bits();
    let minus_inf = f64::NEG_INFINITY.to_bits();
    assert!(matches!(global_is_finite(None, None), JsValue::Boolean(false)));
    assert!(matches!(global_is_finite(Some(&JsValue::NaN), None), JsValue::Boolean(false)));
    assert!(matches!(global_is_finite(Some(&JsValue::Number(inf)), Some(inf)), JsValue::Boolean(false)));
    assert!(matches!(global_is_finite(Some(&JsValue::Number(minus_inf)), Some(minus_inf)), JsValue::Boolean(false)));
    assert!(matches!(global_is_finite(Some(&JsValue::Number(one)), Some(one)), JsValue::Boolean(true)));
    assert!(matches!(global_is_finite(Some(&JsValue::String("x".to_string())), None), JsValue::Boolean(false)));
}

// ---- numbers as doubles ----

#[test]
fn doubles_from_integers() {
    assert_eq!(number_from_u128(3), 3.0f64.to_bits());
    assert_eq!(number_from_u128(0), 0.0f64.to_bits());
    assert_eq!(number_from_u128((1u128 << 53) + 1), ((1u128 << 53) as f64).to_bits());
    assert_eq!(number_from_u128((1u128 << 53) + 3), ((1u128 << 53) as f64 + 4.0).to_bits());
    assert_eq!(number_from_u128(u128::MAX), (u128::MAX as f64).to_bits());
    assert_eq!(number_from_i64(-5), (-5.0f64).to_bits());
    assert_eq!(number_from_i64(i64::MIN), (i64::MIN as f64).to_bits());
}

#[test]
fn doubles_to_integers() {
    assert_eq!(f64_bits_as_i32(2.5f64.to_bits()), 2);
    assert_eq!(f64_bits_as_i32((-2.5f64).to_bits()), -2);
    assert_eq!(f64_bits_as_i32(f64::NAN.to_bits()), 0);
    assert_eq!(f64_bits_as_i32(1e20f64.to_bits()), i32::MAX);
    assert_eq!(f64_bits_as_i32(f64::NEG_INFINITY.to_bits()), i32::MIN);
    assert_eq!(f64_bits_as_usize(3.9f64.to_bits()), 3);
    assert_eq!(f64_bits_as_usize((-3.9f64).to_bits()), 0);
    assert_eq!(f64_bits_as_usize(f64::INFINITY.to_bits()), usize::MAX);
}

#[test]
fn json_numbers_from_doubles() {
    assert!(matches!(json_number_from_bits(3.0f64.to_bits()), Some(JsonNumber::Int(3))));
    assert!(matches!(json_number_from_bits((-0.0f64).to_bits()), Some(JsonNumber::Int(0))));
    let half = 1.5f64.to_bits();
    assert!(matches!(json_number_from_bits(half), Some(JsonNumber::Float(b)) if b == half));
    assert!(json_number_from_bits(f64::NAN.to_bits()).is_none());
    assert!(json_number_from_bits(f64::INFINITY.to_bits()).is_none());
    assert!(matches!(json_number_from_bits(1e19f64.to_bits()), Some(JsonNumber::Float(_))));
    assert!(matches!(json_number_from_bits(9.223372036854775808e18f64.to_bits()), Some(JsonNumber::Int(i64::MAX))));
}

#[test]
fn decimal_names() {
    assert_eq!(decimal_string(0), "0");
    assert_eq!(decimal_string(120), "120");
    assert_eq!(decimal_string(usize::MAX), usize::MAX.to_string());
}

// ---- global objects ----

#[test]
fn global_objects_are_bound() {
    let ctx = standard_context();
    for name in ["Object", "Function", "Array", "String", "Boolean", "Number", "Promise", "RegExp", "Error", "TypeError", "JSON", "Date"] {
        assert!(get_global_object_by_name(&ctx, name).is_some(), "{}", name);
        assert!(get_global_object(&ctx, name.to_string()).is_some(), "{}", name);
    }
    assert!(get_global_object_by_name(&ctx, "Nothing").is_none());
}

#[test]
fn global_functions_are_bound() {
    let ctx = standard_context();
    let global = JsValue::Object(ctx.global);
    for name in ["parseInt", "parseFloat", "isNaN", "isFinite", "decodeURI", "decodeURIComponent", "encodeURI", "encodeURIComponent"] {
        let f = prop(&ctx, &global, name);
        assert!(matches!(f, JsValue::Function(_)), "{}", name);
        assert_eq!(text_of(&prop(&ctx, &f, "name")), name);
        assert!(ctx.scope.iter().any(|(k, _)| k == name));
    }
    assert_eq!(number_of(&prop(&ctx, &prop(&ctx, &global, "parseInt"), "length")), 2.0);
    assert_eq!(number_of(&prop(&ctx, &prop(&ctx, &global, "isNaN"), "length")), 1.0);
    assert!(matches!(prop(&ctx, &global, "NaN"), JsValue::NaN));
    assert_eq!(number_of(&prop(&ctx, &global, "Infinity")), f64::INFINITY);
}

#[test]
fn builtin_methods_are_bound() {
    let ctx = standard_context();
    let json = JsValue::Object(get_global_object_by_name(&ctx, "JSON").unwrap());
    assert!(matches!(prop(&ctx, &json, "parse"), JsValue::Function(_)));
    assert!(matches!(prop(&ctx, &json, "stringify"), JsValue::Function(_)));
    let date = JsValue::Object(get_global_object_by_name(&ctx, "Date").unwrap());
    let now = prop(&ctx, &date, "now");
    assert_eq!(number_of(&prop(&ctx, &now, "length")), 0.0);
    let proto = JsValue::Object(get_global_object_prototype_by_name(&ctx, "RegExp"));
    for name in ["test", "exec", "toString"] {
        assert!(matches!(prop(&ctx, &proto, name), JsValue::Function(_)), "{}", name);
    }
}

#[test]
fn prototypes_link_to_object_prototype() {
    let ctx = standard_context();
    let object_proto = get_global_object_prototype_by_name(&ctx, "Object");
    for name in ["Function", "Array", "String", "RegExp", "JSON", "Date", "TypeError"] {
        let p = get_global_object_prototype_by_name(&ctx, name);
        let link = ctx.objects[p]
            .inner_property
            .iter()
            .find(|(k, _)| k == "[[Property]]")
            .map(|(_, v)| v.clone());
        assert!(matches!(link, Some(JsValue::RefObject(id)) if id == object_proto), "{}", name);
    }
}

#[test]
fn new_global_object_has_prototype_with_constructor() {
    let mut ctx = Context::empty();
    let id = new_global_object(&mut ctx);
    assert_eq!(ctx.objects.len(), 2);
    assert_eq!(ctx.objects[id].prototype, Some(id + 1));
    let ctor = ctx.get_value(id + 1, &"constructor".to_string());
    assert!(matches!(ctor, JsValue::RefObject(x) if x == id));
}

// ---- Date ----

#[test]
fn es5_date_now_positive() {
    let v = date_now();
    assert!(number_of(&v) > 0.0);
    assert_eq!(number_of(&v).fract(), 0.0);
}

#[test]
fn date_now_value_rounds_to_double() {
    assert_eq!(number_of(&date_now_value(1234)), 1234.0);
    assert_eq!(number_of(&date_now_value((1u128 << 53) + 1)), 9007199254740992.0);
}

// ---- RegExp ----

#[test]
fn es3_regexp_test() {
    let mut ctx = standard_context();
    let re = create_regexp(&mut ctx, "abc", None);
    assert!(matches!(jsi::regexp::test(&ctx, &re, "abc", "abcdef"), Some(JsValue::Boolean(true))));
}

#[test]
fn es3_regexp_test_no_match() {
    let mut ctx = standard_context();
    let re = create_regexp(&mut ctx, "xyz", None);
    assert!(matches!(jsi::regexp::test(&ctx, &re, "xyz", "abcdef"), Some(JsValue::Boolean(false))));
}

#[test]
fn regexp_test_ignore_case() {
    let mut ctx = standard_context();
    let re = create_regexp(&mut ctx, "ABC", Some("i"));
    assert!(matches!(jsi::regexp::test(&ctx, &re, "ABC", "xxabcxx"), Some(JsValue::Boolean(true))));
    let re2 = create_regexp(&mut ctx, "ABC", None);
    assert!(matches!(jsi::regexp::test(&ctx, &re2, "ABC", "xxabcxx"), Some(JsValue::Boolean(false))));
}

#[test]
fn regexp_test_on_non_object() {
    let ctx = standard_context();
    assert!(matches!(jsi::regexp::test(&ctx, &JsValue::Null, "a", "a"), Some(JsValue::Boolean(false))));
}

#[test]
fn es3_regexp_source_and_flags() {
    let mut ctx = standard_context();
    let re = create_regexp(&mut ctx, "abc", Some("gm"));
    assert_eq!(text_of(&prop(&ctx, &re, "source")), "abc");
    assert!(matches!(prop(&ctx, &re, "global"), JsValue::Boolean(true)));
    assert!(matches!(prop(&ctx, &re, "ignoreCase"), JsValue::Boolean(false)));
    assert!(matches!(prop(&ctx, &re, "multiline"), JsValue::Boolean(true)));
    assert_eq!(number_of(&prop(&ctx, &re, "lastIndex")), 0.0);
    let ctor = get_global_object_by_name(&ctx, "RegExp").unwrap();
    assert_eq!(ctx.objects[object_id(&re)].constructor, Some(ctor));
}

#[test]
fn regexp_create_without_pattern() {
    let mut ctx = standard_context();
    let re = create(&mut ctx, None, None);
    assert_eq!(text_of(&prop(&ctx, &re, "source")), "");
    assert!(matches!(prop(&ctx, &re, "global"), JsValue::Boolean(false)));
}

#[test]
fn regexp_exec_match() {
    let mut ctx = standard_context();
    let re = create_regexp(&mut ctx, "b", None);
    let r = exec(&mut ctx, &re, "b", "abc").unwrap();
    assert!(matches!(r, JsValue::Array(_)));
    assert_eq!(text_of(&prop(&ctx, &r, "0")), "b");
    assert_eq!(number_of(&prop(&ctx, &r, "length")), 1.0);
    assert_eq!(number_of(&prop(&ctx, &r, "index")), 1.0);
    assert_eq!(text_of(&prop(&ctx, &r, "input")), "abc");
}

#[test]
fn regexp_exec_no_match_is_null() {
    let mut ctx = standard_context();
    let re = create_regexp(&mut ctx, "z", None);
    assert!(matches!(exec(&mut ctx, &re, "z", "abc"), Some(JsValue::Null)));
    assert!(matches!(exec(&mut ctx, &JsValue::Undefined, "z", "abc"), Some(JsValue::Null)));
}

#[test]
fn regexp_exec_ignore_case_keeps_original_text() {
    let mut ctx = standard_context();
    let re = create_regexp(&mut ctx, "WORLD", Some("i"));
    let r = exec(&mut ctx, &re, "WORLD", "Hello World").unwrap();
    assert_eq!(text_of(&prop(&ctx, &r, "0")), "World");
    assert_eq!(number_of(&prop(&ctx, &r, "index")), 6.0);
}

#[test]
fn regexp_to_string() {
    let mut ctx = standard_context();
    let re = create_regexp(&mut ctx, "a+b", Some("mig"));
    assert_eq!(text_of(&to_string(&ctx, &re, "a+b")), "/a+b/gim");
    assert_eq!(text_of(&to_string(&ctx, &JsValue::Null, "")), "/(?:)/");
}

#[test]
fn simple_match_first_occurrence() {
    assert_eq!(simple_match("an", "banana", false), Some(vec!["an".to_string()]));
    assert_eq!(simple_match("x", "banana", false), None);
    assert_eq!(simple_match("", "abc", false), Some(vec!["".to_string()]));
}

// ---- JSON ----

#[test]
fn es5_json_parse_object() {
    let mut ctx = standard_context();
    let v = json_parse(&mut ctx, Some("{\"name\":\"test\",\"value\":42}")).ok().unwrap();
    assert!(matches!(v, JsValue::Object(_)));
    assert_eq!(number_of(&prop(&ctx, &v, "value")), 42.0);
    assert_eq!(text_of(&prop(&ctx, &v, "name")), "test");
}

#[test]
fn es5_json_parse_string() {
    let mut ctx = standard_context();
    let v = json_parse(&mut ctx, Some("\"hello\"")).ok().unwrap();
    assert_eq!(text_of(&v), "hello");
}

#[test]
fn es5_json_parse_array() {
    let mut ctx = standard_context();
    let v = json_parse(&mut ctx, Some("[1,2,3]")).ok().unwrap();
    assert!(matches!(v, JsValue::Array(_)));
    assert_eq!(number_of(&prop(&ctx, &v, "1")), 2.0);
    assert_eq!(number_of(&prop(&ctx, &v, "length")), 3.0);
    let array_proto = get_global_object_prototype_by_name(&ctx, "Array");
    let o = &ctx.objects[object_id(&v)];
    assert_eq!(o.constructor, get_global_object_by_name(&ctx, "Array"));
    assert!(o.inner_property.iter().any(|(k, x)| k == "[[Property]]" && matches!(x, JsValue::RefObject(p) if *p == array_proto)));
    let names: Vec<String> = o.property_list.clone();
    assert_eq!(names, vec!["length", "0", "1", "2"]);
}

#[test]
fn json_parse_nested() {
    let mut ctx = standard_context();
    let v = json_parse(&mut ctx, Some("{\"a\":[true,null,{\"b\":\"c\"}],\"d\":-1.5}")).ok().unwrap();
    let a = prop(&ctx, &v, "a");
    assert!(matches!(prop(&ctx, &a, "0"), JsValue::Boolean(true)));
    assert!(matches!(prop(&ctx, &a, "1"), JsValue::Null));
    let inner = prop(&ctx, &a, "2");
    assert_eq!(text_of(&prop(&ctx, &inner, "b")), "c");
    assert_eq!(number_of(&prop(&ctx, &v, "d")), -1.5);
}

#[test]
fn json_parse_errors() {
    let mut ctx = standard_context();
    match json_parse(&mut ctx, None) {
        Err(JsError::SyntaxError(m)) => assert_eq!(m, "Unexpected end of JSON input"),
        _ => panic!("expected a syntax error"),
    }
    let before = ctx.objects.len();
    match json_parse(&mut ctx, Some("{abc")) {
        Err(JsError::SyntaxError(m)) => assert!(m.contains("line 1")),
        _ => panic!("expected a syntax error"),
    }
    assert_eq!(ctx.objects.len(), before);
}

#[test]
fn es5_json_stringify_object() {
    let mut ctx = standard_context();
    let v = json_parse(&mut ctx, Some("{\"a\":1}")).ok().unwrap();
    assert_eq!(stringify_text(&ctx, &v), "{\"a\":1}");
}

#[test]
fn es5_json_stringify_array() {
    let mut ctx = standard_context();
    let values = vec![
        JsValue::Number(1.0f64.to_bits()),
        JsValue::Number(2.0f64.to_bits()),
        JsValue::Number(3.0f64.to_bits()),
    ];
    let a = create_array_from_values(&mut ctx, values);
    assert_eq!(stringify_text(&ctx, &a), "[1,2,3]");
}

#[test]
fn es5_json_stringify_circular_array() {
    let mut ctx = standard_context();
    let values = vec![JsValue::Number(1.0f64.to_bits()), JsValue::Number(2.0f64.to_bits())];
    let a = create_array_from_values(&mut ctx, values);
    let id = object_id(&a);
    ctx.define_property(id, "2".to_string(), Property { enumerable: true, value: a.clone() });
    ctx.define_property(id, "length".to_string(), Property { enumerable: false, value: JsValue::Number(3.0f64.to_bits()) });
    let s = stringify_text(&ctx, &a);
    assert!(s.contains("null"));
    assert_eq!(s, "[1,2,null]");
}

#[test]
fn es5_json_stringify_circular_object() {
    let mut ctx = standard_context();
    let v = json_parse(&mut ctx, Some("{\"a\":1}")).ok().unwrap();
    let id = object_id(&v);
    ctx.define_property(id, "self".to_string(), Property { enumerable: true, value: JsValue::RefObject(id) });
    let s = stringify_text(&ctx, &v);
    assert!(s.contains("null"));
    assert_eq!(s, "{\"a\":1,\"self\":null}");
}

#[test]
fn json_stringify_values() {
    let ctx = standard_context();
    assert!(json_stringify(&ctx, None).is_none());
    assert_eq!(stringify_text(&ctx, &JsValue::Undefined), "null");
    assert_eq!(stringify_text(&ctx, &JsValue::NaN), "null");
    assert_eq!(stringify_text(&ctx, &JsValue::Boolean(true)), "true");
    assert_eq!(stringify_text(&ctx, &JsValue::String("a\"b".to_string())), "\"a\\\"b\"");
    assert_eq!(stringify_text(&ctx, &JsValue::Number(1.5f64.to_bits())), "1.5");
    assert_eq!(stringify_text(&ctx, &JsValue::Number(f64::INFINITY.to_bits())), "null");
    assert_eq!(stringify_text(&ctx, &JsValue::Number((-0.0f64).to_bits())), "0");
    let global = JsValue::Object(ctx.global);
    let f = prop(&ctx, &global, "parseInt");
    assert_eq!(stringify_text(&ctx, &f), "null");
}

#[test]
fn json_stringify_of_parsed_value() {
    let mut ctx = standard_context();
    let text = "{\"b\":[1,2.5,\"x\",{\"c\":false}],\"a\":null}";
    let v = json_parse(&mut ctx, Some(text)).ok().unwrap();
    assert_eq!(stringify_text(&ctx, &v), "{\"a\":null,\"b\":[1,2.5,\"x\",{\"c\":false}]}");
}

#[test]
fn create_array_properties() {
    let mut ctx = standard_context();
    let a = create_array_from_values(&mut ctx, vec![JsValue::Boolean(true)]);
    assert_eq!(number_of(&prop(&ctx, &a, "length")), 1.0);
    assert!(matches!(prop(&ctx, &a, "0"), JsValue::Boolean(true)));
    let length = ctx.objects[object_id(&a)].property.iter().find(|(k, _)| k == "length").unwrap().1.enumerable;
    assert!(!length);
}

#[test]
fn regexp_test_and_exec_agree() {
    let mut ctx = standard_context();
    for (pattern, flags, input) in [("ab", None, "xxab"), ("AB", Some("i"), "xxab"), ("AB", None, "xxab"), ("q", None, "")] {
        let re = create_regexp(&mut ctx, pattern, flags);
        let found = matches!(jsi::regexp::test(&ctx, &re, pattern, input), Some(JsValue::Boolean(true)));
        let r = exec(&mut ctx, &re, pattern, input).unwrap();
        assert_eq!(found, matches!(r, JsValue::Array(_)), "{}", pattern);
    }
}

#[test]
fn parse_int_digits_are_below_radix() {
    for (s, radix) in [("zz19", 36.0f64), ("7890", 8.0), ("1f2g", 16.0), ("123", 3.0)] {
        if let ParsedInt::Digits { radix: r, digits, .. } = global_parse_int(Some(s), Some(Some(radix.to_bits()))) {
            assert!((2..=36).contains(&r));
            assert!(!digits.is_empty());
            assert!(digits.iter().all(|d| *d < r));
        }
    }
    assert_eq!(digits_of(&global_parse_int(Some("1f2g"), Some(Some(16.0f64.to_bits())))), (false, 16, vec![1, 15, 2]));
    assert_eq!(digits_of(&global_parse_int(Some("123"), Some(Some(3.0f64.to_bits())))), (false, 3, vec![1, 2]));
}

#[test]
fn es3_regexp_exec() {
    let mut ctx = standard_context();
    let re = create_regexp(&mut ctx, "(a)(b)", None);
    let r = exec(&mut ctx, &re, "(a)(b)", "abc").unwrap();
    let joined = text_of(&prop(&ctx, &r, "0")) + &text_of(&prop(&ctx, &r, "1")) + &text_of(&prop(&ctx, &r, "2"));
    assert_eq!(joined, "abab");
    assert_eq!(number_of(&prop(&ctx, &r, "length")), 3.0);
    assert_eq!(number_of(&prop(&ctx, &r, "index")), 0.0);
    let names: Vec<String> = ctx.objects[object_id(&r)].property_list.clone();
    assert_eq!(names, vec!["length", "0", "1", "2", "index", "input"]);
}

#[test]
fn regexp_groups_in_test_and_match() {
    let mut ctx = standard_context();
    let re = create_regexp(&mut ctx, "(a)(b)", None);
    assert!(matches!(jsi::regexp::test(&ctx, &re, "(a)(b)", "xxabyy"), Some(JsValue::Boolean(true))));
    assert_eq!(simple_match("x(y)z", "wxyzw", false), Some(vec!["xyz".to_string(), "y".to_string()]));
    assert_eq!(simple_match("(A)b", "xaby", true), Some(vec!["ab".to_string(), "a".to_string()]));
    assert_eq!(simple_match("a()b", "ab", false), Some(vec!["ab".to_string(), "".to_string()]));
}

#[test]
fn regexp_unpaired_parentheses_are_plain_text() {
    assert_eq!(simple_match("(a", "x(ay", false), Some(vec!["(a".to_string()]));
    assert_eq!(simple_match("((a))", "((a))", false), Some(vec!["((a))".to_string()]));
    assert_eq!(simple_match("a)", "a)", false), Some(vec!["a)".to_string()]));
    assert_eq!(simple_match("(a)", "b", false), None);
}

#[test]
fn json_parse_without_array_global() {
    let mut ctx = Context::empty();
    let g = new_global_object(&mut ctx);
    ctx.global = g;
    assert!(jsi::json::json_parse_checked(&mut ctx, Some("[1]")).is_none());
    let v = jsi::json::json_parse_checked(&mut ctx, Some("{\"a\":true}")).unwrap().ok().unwrap();
    assert!(matches!(prop(&ctx, &v, "a"), JsValue::Boolean(true)));
    assert!(matches!(jsi::json::json_parse_checked(&mut ctx, Some("{")), Some(Err(JsError::SyntaxError(_)))));
    let mut full = standard_context();
    assert!(matches!(jsi::json::json_parse_checked(&mut full, Some("[1]")), Some(Ok(JsValue::Array(_)))));
}

#[test]
fn json_parse_of_stringified_value() {
    let mut ctx = standard_context();
    let inner = create_array_from_values(&mut ctx, vec![JsValue::Boolean(false), JsValue::Null]);
    let outer = create_array_from_values(
        &mut ctx,
        vec![JsValue::Number(9007199254740992.0f64.to_bits()), JsValue::String("s".to_string()), inner],
    );
    let text = stringify_text(&ctx, &outer);
    assert_eq!(text, "[9007199254740992,\"s\",[false,null]]");
    let back = json_parse(&mut ctx, Some(&text)).ok().unwrap();
    assert_eq!(stringify_text(&ctx, &back), text);
    assert_eq!(number_of(&prop(&ctx, &back, "length")), 3.0);
    let nested = prop(&ctx, &back, "2");
    assert!(matches!(prop(&ctx, &nested, "0"), JsValue::Boolean(false)));
    assert!(matches!(prop(&ctx, &nested, "1"), JsValue::Null));
}
