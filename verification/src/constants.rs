use vstd::prelude::*;

verus! {

pub const GLOBAL_OBJECT_NAME: &'static str = "Object";
pub const GLOBAL_FUNCTION_NAME: &'static str = "Function";
pub const GLOBAL_ARRAY_NAME: &'static str = "Array";
pub const GLOBAL_STRING_NAME: &'static str = "String";
pub const GLOBAL_BOOLEAN_NAME: &'static str = "Boolean";
pub const GLOBAL_NUMBER_NAME: &'static str = "Number";
pub const GLOBAL_PROMISE_NAME: &'static str = "Promise";
pub const GLOBAL_REGEXP_NAME: &'static str = "RegExp";
pub const GLOBAL_ERROR_NAME: &'static str = "Error";
pub const GLOBAL_TYPE_ERROR_NAME: &'static str = "TypeError";
pub const GLOBAL_JSON_NAME: &'static str = "JSON";
pub const GLOBAL_DATE_NAME: &'static str = "Date";

/// Name of the internal property that links an object to its prototype.
pub const PROTO_PROPERTY_NAME: &'static str = "[[Property]]";

/// Name of the internal property that holds a constructor's instantiation function.
pub const INSTANTIATE_OBJECT_METHOD_NAME: &'static str = "[[Instantiate]]";

/// Name of the internal property that marks the built-in global objects.
pub const IS_GLOABL_OBJECT: &'static str = "isGlobal";

/// IEEE-754 bits of the numbers 0, 1, 2 and positive infinity.
pub const NUMBER_ZERO: u64 = 0u64;
pub const NUMBER_ONE: u64 = 0x3FF0_0000_0000_0000u64;
pub const NUMBER_TWO: u64 = 0x4000_0000_0000_0000u64;
pub const NUMBER_INFINITY: u64 = 0x7FF0_0000_0000_0000u64;

/// The names of the built-in global objects, `Object` first.
pub open spec fn spec_global_object_names() -> Seq<Seq<char>> {
    seq![
        GLOBAL_OBJECT_NAME@,
        GLOBAL_FUNCTION_NAME@,
        GLOBAL_ARRAY_NAME@,
        GLOBAL_STRING_NAME@,
        GLOBAL_BOOLEAN_NAME@,
        GLOBAL_NUMBER_NAME@,
        GLOBAL_PROMISE_NAME@,
        GLOBAL_REGEXP_NAME@,
        GLOBAL_ERROR_NAME@,
        GLOBAL_TYPE_ERROR_NAME@,
        GLOBAL_JSON_NAME@,
        GLOBAL_DATE_NAME@,
    ]
}

/// The names of the built-in global objects, `Object` first.
pub fn global_object_name_list() -> (r: Vec<&'static str>)
    ensures
        r@.len() == spec_global_object_names().len(),
        forall|i: int| 0 <= i < r@.len() ==> (#[trigger] r@[i])@ == spec_global_object_names()[i],
{
    let r = vec![
        GLOBAL_OBJECT_NAME,
        GLOBAL_FUNCTION_NAME,
        GLOBAL_ARRAY_NAME,
        GLOBAL_STRING_NAME,
        GLOBAL_BOOLEAN_NAME,
        GLOBAL_NUMBER_NAME,
        GLOBAL_PROMISE_NAME,
        GLOBAL_REGEXP_NAME,
        GLOBAL_ERROR_NAME,
        GLOBAL_TYPE_ERROR_NAME,
        GLOBAL_JSON_NAME,
        GLOBAL_DATE_NAME,
    ];
    r
}

/// The global object names are distinct, and distinct from the other names this library
/// writes on the global object.
pub proof fn lemma_global_names_distinct()
    ensures
        forall|i: int, j: int|
            0 <= i < spec_global_object_names().len() && 0 <= j < spec_global_object_names().len()
                && i != j ==> spec_global_object_names()[i] != spec_global_object_names()[j],
        forall|i: int|
            0 <= i < spec_global_object_names().len() ==> !spec_global_function_names().contains(
                #[trigger] spec_global_object_names()[i],
            ),
{
    reveal_strlit("Object");
    reveal_strlit("Function");
    reveal_strlit("Array");
    reveal_strlit("String");
    reveal_strlit("Boolean");
    reveal_strlit("Number");
    reveal_strlit("Promise");
    reveal_strlit("RegExp");
    reveal_strlit("Error");
    reveal_strlit("TypeError");
    reveal_strlit("JSON");
    reveal_strlit("Date");
    lemma_global_function_names();
    let s = spec_global_object_names();
    assert(s[0] =~= seq!['O', 'b', 'j', 'e', 'c', 't']);
    assert(s[1] =~= seq!['F', 'u', 'n', 'c', 't', 'i', 'o', 'n']);
    assert(s[2] =~= seq!['A', 'r', 'r', 'a', 'y']);
    assert(s[3] =~= seq!['S', 't', 'r', 'i', 'n', 'g']);
    assert(s[4] =~= seq!['B', 'o', 'o', 'l', 'e', 'a', 'n']);
    assert(s[5] =~= seq!['N', 'u', 'm', 'b', 'e', 'r']);
    assert(s[6] =~= seq!['P', 'r', 'o', 'm', 'i', 's', 'e']);
    assert(s[7] =~= seq!['R', 'e', 'g', 'E', 'x', 'p']);
    assert(s[8] =~= seq!['E', 'r', 'r', 'o', 'r']);
    assert(s[9] =~= seq!['T', 'y', 'p', 'e', 'E', 'r', 'r', 'o', 'r']);
    assert(s[10] =~= seq!['J', 'S', 'O', 'N']);
    assert(s[11] =~= seq!['D', 'a', 't', 'e']);
    assert forall|i: int, j: int|
        0 <= i < s.len() && 0 <= j < s.len() && i != j implies s[i] != s[j] by {
        if s[i] == s[j] {
            assert(s[i].len() == s[j].len());
            assert(s[i][0] == s[j][0]);
            assert(s[i][s[i].len() - 1] == s[j][s[j].len() - 1]);
        }
    }
    let f = spec_global_function_names();
    assert forall|i: int| 0 <= i < s.len() implies !f.contains(#[trigger] s[i]) by {
        if f.contains(s[i]) {
            let j = choose|j: int| 0 <= j < f.len() && f[j] == s[i];
            assert(f[j].len() == s[i].len());
            assert(f[j][0] == s[i][0]);
        }
    }
}

/// The names of the global functions and constants: `parseInt`, `parseFloat`, `isNaN`,
/// `isFinite`, `NaN`, `Infinity`, `decodeURI`, `decodeURIComponent`, `encodeURI`,
/// `encodeURIComponent`.
pub open spec fn spec_global_function_names() -> Seq<Seq<char>> {
    seq![
        "parseInt"@,
        "parseFloat"@,
        "isNaN"@,
        "isFinite"@,
        "NaN"@,
        "Infinity"@,
        "decodeURI"@,
        "decodeURIComponent"@,
        "encodeURI"@,
        "encodeURIComponent"@,
    ]
}

pub proof fn lemma_global_function_names()
    ensures
        spec_global_function_names()[0] =~= seq!['p', 'a', 'r', 's', 'e', 'I', 'n', 't'],
        spec_global_function_names()[1] =~= seq!['p', 'a', 'r', 's', 'e', 'F', 'l', 'o', 'a', 't'],
        spec_global_function_names()[2] =~= seq!['i', 's', 'N', 'a', 'N'],
        spec_global_function_names()[3] =~= seq!['i', 's', 'F', 'i', 'n', 'i', 't', 'e'],
        spec_global_function_names()[4] =~= seq!['N', 'a', 'N'],
        spec_global_function_names()[5] =~= seq!['I', 'n', 'f', 'i', 'n', 'i', 't', 'y'],
        spec_global_function_names()[6] =~= seq!['d', 'e', 'c', 'o', 'd', 'e', 'U', 'R', 'I'],
        spec_global_function_names()[7] =~= seq!['d', 'e', 'c', 'o', 'd', 'e', 'U', 'R', 'I', 'C', 'o', 'm', 'p', 'o', 'n', 'e', 'n', 't'],
        spec_global_function_names()[8] =~= seq!['e', 'n', 'c', 'o', 'd', 'e', 'U', 'R', 'I'],
        spec_global_function_names()[9] =~= seq!['e', 'n', 'c', 'o', 'd', 'e', 'U', 'R', 'I', 'C', 'o', 'm', 'p', 'o', 'n', 'e', 'n', 't'],
{
    reveal_strlit("parseInt");
    reveal_strlit("parseFloat");
    reveal_strlit("isNaN");
    reveal_strlit("isFinite");
    reveal_strlit("NaN");
    reveal_strlit("Infinity");
    reveal_strlit("decodeURI");
    reveal_strlit("decodeURIComponent");
    reveal_strlit("encodeURI");
    reveal_strlit("encodeURIComponent");
}

} // verus!

verus! {

/// The names of the methods installed on built-in objects and their prototypes.
pub open spec fn spec_method_names() -> Set<Seq<char>> {
    set!["test"@, "exec"@, "toString"@, "parse"@, "stringify"@, "now"@]
}

/// The method names are no global object or global function name, nor `constructor`,
/// `name` or `length`; the internal names are distinct.
pub proof fn lemma_method_names()
    ensures
        forall|i: int| 0 <= i < spec_global_object_names().len() ==> !spec_method_names().contains(#[trigger] spec_global_object_names()[i]),
        forall|i: int| 0 <= i < spec_global_function_names().len() ==> !spec_method_names().contains(#[trigger] spec_global_function_names()[i]),
        !spec_method_names().contains("constructor"@),
        !spec_method_names().contains("name"@),
        !spec_method_names().contains("length"@),
        INSTANTIATE_OBJECT_METHOD_NAME@ != "name"@,
        INSTANTIATE_OBJECT_METHOD_NAME@ != IS_GLOABL_OBJECT@,
        INSTANTIATE_OBJECT_METHOD_NAME@ != PROTO_PROPERTY_NAME@,
        PROTO_PROPERTY_NAME@ != "name"@,
        PROTO_PROPERTY_NAME@ != IS_GLOABL_OBJECT@,
        "parse"@ != "test"@ && "parse"@ != "exec"@ && "parse"@ != "toString"@,
        "stringify"@ != "test"@ && "stringify"@ != "exec"@ && "stringify"@ != "toString"@,
        "now"@ != "test"@ && "now"@ != "exec"@ && "now"@ != "toString"@,
        "now"@ != "parse"@ && "now"@ != "stringify"@,
{
    reveal_strlit("test");
    reveal_strlit("exec");
    reveal_strlit("toString");
    reveal_strlit("parse");
    reveal_strlit("stringify");
    reveal_strlit("now");
    reveal_strlit("constructor");
    reveal_strlit("name");
    reveal_strlit("length");
    reveal_strlit("isGlobal");
    reveal_strlit("[[Property]]");
    reveal_strlit("[[Instantiate]]");
    reveal_strlit("Object");
    reveal_strlit("Function");
    reveal_strlit("Array");
    reveal_strlit("String");
    reveal_strlit("Boolean");
    reveal_strlit("Number");
    reveal_strlit("Promise");
    reveal_strlit("RegExp");
    reveal_strlit("Error");
    reveal_strlit("TypeError");
    reveal_strlit("JSON");
    reveal_strlit("Date");
    lemma_global_function_names();
    let m = seq!["test"@, "exec"@, "toString"@, "parse"@, "stringify"@, "now"@];
    assert forall|x: Seq<char>| spec_method_names().contains(x) implies m.contains(x) by {
        if x == "test"@ {
            assert(m[0] == x);
        } else if x == "exec"@ {
            assert(m[1] == x);
        } else if x == "toString"@ {
            assert(m[2] == x);
        } else if x == "parse"@ {
            assert(m[3] == x);
        } else if x == "stringify"@ {
            assert(m[4] == x);
        } else {
            assert(m[5] == x);
        }
    }
    assert(m[0] =~= seq!['t', 'e', 's', 't']);
    assert(m[1] =~= seq!['e', 'x', 'e', 'c']);
    assert(m[2] =~= seq!['t', 'o', 'S', 't', 'r', 'i', 'n', 'g']);
    assert(m[3] =~= seq!['p', 'a', 'r', 's', 'e']);
    assert(m[4] =~= seq!['s', 't', 'r', 'i', 'n', 'g', 'i', 'f', 'y']);
    assert(m[5] =~= seq!['n', 'o', 'w']);
    let s = spec_global_object_names();
    assert(s[0] =~= seq!['O', 'b', 'j', 'e', 'c', 't']);
    assert(s[1] =~= seq!['F', 'u', 'n', 'c', 't', 'i', 'o', 'n']);
    assert(s[2] =~= seq!['A', 'r', 'r', 'a', 'y']);
    assert(s[3] =~= seq!['S', 't', 'r', 'i', 'n', 'g']);
    assert(s[4] =~= seq!['B', 'o', 'o', 'l', 'e', 'a', 'n']);
    assert(s[5] =~= seq!['N', 'u', 'm', 'b', 'e', 'r']);
    assert(s[6] =~= seq!['P', 'r', 'o', 'm', 'i', 's', 'e']);
    assert(s[7] =~= seq!['R', 'e', 'g', 'E', 'x', 'p']);
    assert(s[8] =~= seq!['E', 'r', 'r', 'o', 'r']);
    assert(s[9] =~= seq!['T', 'y', 'p', 'e', 'E', 'r', 'r', 'o', 'r']);
    assert(s[10] =~= seq!['J', 'S', 'O', 'N']);
    assert(s[11] =~= seq!['D', 'a', 't', 'e']);
    assert forall|i: int| 0 <= i < s.len() implies !spec_method_names().contains(#[trigger] s[i]) by {
        if m.contains(s[i]) {
            let j = choose|j: int| 0 <= j < m.len() && m[j] == s[i];
            assert(m[j][0] == s[i][0]);
        }
    }
    let f = spec_global_function_names();
    assert forall|i: int| 0 <= i < f.len() implies !spec_method_names().contains(#[trigger] f[i]) by {
        if m.contains(f[i]) {
            let j = choose|j: int| 0 <= j < m.len() && m[j] == f[i];
            assert(m[j].len() == f[i].len());
            assert(m[j][0] == f[i][0]);
        }
    }
    assert forall|x: Seq<char>| x == "constructor"@ || x == "name"@ || x == "length"@ implies !spec_method_names().contains(x) by {
        if m.contains(x) {
            let j = choose|j: int| 0 <= j < m.len() && m[j] == x;
            assert(m[j].len() == x.len());
            assert(m[j][0] == x[0]);
        }
    }
    assert("parse"@[0] != "test"@[0] && "parse"@[0] != "exec"@[0] && "parse"@[0] != "toString"@[0]);
    assert("stringify"@[0] != "test"@[0] && "stringify"@[0] != "exec"@[0] && "stringify"@[0] != "toString"@[0]);
    assert("now"@[0] != "test"@[0] && "now"@[0] != "exec"@[0] && "now"@[0] != "toString"@[0]);
    assert("now"@[0] != "parse"@[0] && "now"@[0] != "stringify"@[0]);
    assert(INSTANTIATE_OBJECT_METHOD_NAME@.len() != PROTO_PROPERTY_NAME@.len());
    assert(INSTANTIATE_OBJECT_METHOD_NAME@.len() != "name"@.len());
    assert(INSTANTIATE_OBJECT_METHOD_NAME@.len() != IS_GLOABL_OBJECT@.len());
    assert(PROTO_PROPERTY_NAME@.len() != "name"@.len());
    assert(PROTO_PROPERTY_NAME@.len() != IS_GLOABL_OBJECT@.len());
}

} // verus!
