use vstd::prelude::*;
use crate::strsearch::{
    first_occurrence, byte_len, char_at_byte, find_chars, prefix_byte_len, char_index_at_byte,
    lemma_byte_len_take_mono, lemma_byte_len_take_step, occurs_at, lemma_first_occurrence_occurs,
};
use crate::text::{str_chars, string_from_chars};
use crate::uri::all_ascii;

verus! {

/// What Rust's `str::to_lowercase` makes of a text (Unicode lower-case mapping).
pub uninterp spec fn str_lowercase(s: Seq<char>) -> Seq<char>;

/// The ASCII lower-case form of a character: `A`-`Z` become `a`-`z`, others stay.
pub open spec fn ascii_lower_char(c: char) -> char {
    if 'A' <= c && c <= 'Z' {
        ((c as u32) + 32) as char
    } else {
        c
    }
}

/// The ASCII lower-case form of a text, character by character.
pub open spec fn ascii_lower(s: Seq<char>) -> Seq<char> {
    s.map_values(|c: char| ascii_lower_char(c))
}

/// `str::to_lowercase`: the lower-case form of `s`. Its result is named `str_lowercase`; the
/// Unicode mapping itself is not stated, only that an ASCII text is lower-cased character by
/// character, `A`-`Z` to `a`-`z`, and that no letter `A`-`Z` is left in the lower-case form
/// of any text.
#[verifier::external_body]
fn to_lowercase(s: &str) -> (r: String)
    ensures
        r@ == str_lowercase(s@),
        all_ascii(s@) ==> r@ == ascii_lower(s@),
        forall|i: int| 0 <= i < r@.len() ==> !('A' <= #[trigger] r@[i] && r@[i] <= 'Z'),
{
    s.to_lowercase()
}

/// The text that is searched: the lower-case form when case is ignored.
pub open spec fn search_text(s: Seq<char>, ignore_case: bool) -> Seq<char> {
    if !ignore_case {
        s
    } else if all_ascii(s) {
        ascii_lower(s)
    } else {
        str_lowercase(s)
    }
}

/// The lower-case form of a text as its characters (`ignore_case`), or the text as it is.
/// When case is ignored, no letter `A`-`Z` is left, whatever else the text holds.
pub fn search_chars(s: &str, ignore_case: bool) -> (r: Vec<char>)
    ensures
        r@ == search_text(s@, ignore_case),
        ignore_case ==> forall|i: int| 0 <= i < r@.len() ==> !('A' <= #[trigger] r@[i] && r@[i] <= 'Z'),
        !ignore_case ==> r@ == s@,
{
    if ignore_case {
        let l = to_lowercase(s);
        str_chars(l.as_str())
    } else {
        str_chars(s)
    }
}

pub open spec fn is_paren(c: char) -> bool {
    c == '(' || c == ')'
}

/// The position of the first parenthesis of `p` at or after `i` (`p.len()` when none).
pub open spec fn next_paren(p: Seq<char>, i: int) -> int
    decreases p.len() - i,
{
    if i >= p.len() {
        p.len() as int
    } else if is_paren(p[i]) {
        i
    } else {
        next_paren(p, i + 1)
    }
}

pub proof fn lemma_next_paren(p: Seq<char>, i: int)
    requires
        0 <= i <= p.len(),
    ensures
        i <= next_paren(p, i) <= p.len(),
        next_paren(p, i) < p.len() ==> is_paren(p[next_paren(p, i)]),
        forall|j: int| i <= j < next_paren(p, i) ==> !is_paren(#[trigger] p[j]),
    decreases p.len() - i,
{
    if i < p.len() && !is_paren(p[i]) {
        lemma_next_paren(p, i + 1);
    }
}

/// The parts of a pattern from position `s` on: runs of literal text, and groups written
/// `(` text `)` (flag `true`), or `None` when the parentheses do not pair up without nesting.
pub open spec fn split_parts(p: Seq<char>, s: int) -> Option<Seq<(Seq<char>, bool)>>
    decreases p.len() - s,
{
    if s < 0 || s >= p.len() {
        Some(seq![])
    } else if p[s] == '(' {
        proof {
            lemma_next_paren(p, s + 1);
        }
        let j = next_paren(p, s + 1);
        if j < p.len() && p[j] == ')' {
            match split_parts(p, j + 1) {
                Some(r) => Some(seq![(p.subrange(s + 1, j), true)] + r),
                None => None,
            }
        } else {
            None
        }
    } else if p[s] == ')' {
        None
    } else {
        proof {
            lemma_next_paren(p, s + 1);
        }
        let j = next_paren(p, s + 1);
        match split_parts(p, j) {
            Some(r) => Some(seq![(p.subrange(s, j), false)] + r),
            None => None,
        }
    }
}

/// The parts of a pattern: its literal runs and parenthesised groups, in order; a pattern
/// whose parentheses do not pair up without nesting is one literal run.
pub open spec fn pattern_parts(p: Seq<char>) -> Seq<(Seq<char>, bool)> {
    match split_parts(p, 0) {
        Some(parts) => parts,
        None => seq![(p, false)],
    }
}

} // verus!

verus! {

/// The parts as texts.
pub open spec fn parts_view(v: Seq<(Vec<char>, bool)>) -> Seq<(Seq<char>, bool)> {
    v.map_values(|x: (Vec<char>, bool)| (x.0@, x.1))
}

/// The characters of `s` from `a` up to `b`.
pub fn char_range(s: &Vec<char>, a: usize, b: usize) -> (r: Vec<char>)
    requires
        a <= b <= s@.len(),
    ensures
        r@ == s@.subrange(a as int, b as int),
{
    let mut r: Vec<char> = Vec::new();
    let mut i = a;
    while i < b
        invariant
            a <= i <= b <= s@.len(),
            r@ == s@.subrange(a as int, i as int),
        decreases b - i,
    {
        r.push(s[i]);
        assert(s@.subrange(a as int, i + 1) =~= s@.subrange(a as int, i as int).push(s@[i as int]));
        i = i + 1;
    }
    r
}

fn next_paren_exec(p: &Vec<char>, i: usize) -> (r: usize)
    requires
        i <= p@.len(),
    ensures
        r == next_paren(p@, i as int),
{
    let mut j = i;
    while j < p.len() && p[j] != '(' && p[j] != ')'
        invariant
            i <= j <= p@.len(),
            next_paren(p@, j as int) == next_paren(p@, i as int),
        decreases p@.len() - j,
    {
        j = j + 1;
    }
    j
}

fn split_parts_exec(p: &Vec<char>, s: usize) -> (r: Option<Vec<(Vec<char>, bool)>>)
    requires
        s <= p@.len(),
    ensures
        match r {
            Some(v) => split_parts(p@, s as int) == Some(parts_view(v@)),
            None => split_parts(p@, s as int) is None,
        },
    decreases p@.len() - s,
{
    if s >= p.len() {
        let v: Vec<(Vec<char>, bool)> = Vec::new();
        assert(parts_view(v@) =~= Seq::<(Seq<char>, bool)>::empty());
        return Some(v);
    }
    proof {
        lemma_next_paren(p@, s + 1);
    }
    if p[s] == '(' {
        let j = next_paren_exec(p, s + 1);
        if j < p.len() && p[j] == ')' {
            match split_parts_exec(p, j + 1) {
                Some(rest) => {
                    let mut v = rest;
                    let part = char_range(p, s + 1, j);
                    let ghost old_v = v@;
                    v.insert(0, (part, true));
                    assert(parts_view(v@) =~= seq![(p@.subrange(s + 1, j as int), true)] + parts_view(old_v));
                    Some(v)
                },
                None => None,
            }
        } else {
            None
        }
    } else if p[s] == ')' {
        None
    } else {
        let j = next_paren_exec(p, s + 1);
        match split_parts_exec(p, j) {
            Some(rest) => {
                let mut v = rest;
                let part = char_range(p, s, j);
                let ghost old_v = v@;
                v.insert(0, (part, false));
                assert(parts_view(v@) =~= seq![(p@.subrange(s as int, j as int), false)] + parts_view(old_v));
                Some(v)
            },
            None => None,
        }
    }
}

/// The parts of pattern `p` (see `pattern_parts`).
pub fn pattern_parts_exec(p: &Vec<char>) -> (r: Vec<(Vec<char>, bool)>)
    ensures
        parts_view(r@) == pattern_parts(p@),
{
    match split_parts_exec(p, 0) {
        Some(v) => v,
        None => {
            let whole = char_range(p, 0, p.len());
            assert(p@.subrange(0, p@.len() as int) =~= p@);
            let mut v: Vec<(Vec<char>, bool)> = Vec::new();
            v.push((whole, false));
            assert(parts_view(v@) =~= seq![(p@, false)]);
            v
        },
    }
}

} // verus!

verus! {

/// The text searched for: the search texts of the parts, one after another.
pub open spec fn searched_pattern(parts: Seq<(Seq<char>, bool)>, ignore_case: bool) -> Seq<char>
    decreases parts.len(),
{
    if parts.len() == 0 {
        seq![]
    } else {
        searched_pattern(parts.drop_last(), ignore_case) + search_text(parts.last().0, ignore_case)
    }
}

/// The character ranges, in the searched pattern, of the groups, in order.
pub open spec fn group_ranges(parts: Seq<(Seq<char>, bool)>, ignore_case: bool) -> Seq<(int, int)>
    decreases parts.len(),
{
    if parts.len() == 0 {
        seq![]
    } else {
        let before = group_ranges(parts.drop_last(), ignore_case);
        if parts.last().1 {
            before.push(
                (
                    searched_pattern(parts.drop_last(), ignore_case).len() as int,
                    searched_pattern(parts, ignore_case).len() as int,
                ),
            )
        } else {
            before
        }
    }
}

pub proof fn lemma_group_ranges_bounded(parts: Seq<(Seq<char>, bool)>, ignore_case: bool)
    ensures
        forall|g: int| 0 <= g < group_ranges(parts, ignore_case).len() ==> {
            let r = #[trigger] group_ranges(parts, ignore_case)[g];
            0 <= r.0 <= r.1 <= searched_pattern(parts, ignore_case).len()
        },
    decreases parts.len(),
{
    if parts.len() > 0 {
        let d = parts.drop_last();
        lemma_group_ranges_bounded(d, ignore_case);
        let before = group_ranges(d, ignore_case);
        let gr = group_ranges(parts, ignore_case);
        assert(searched_pattern(parts, ignore_case).len() >= searched_pattern(d, ignore_case).len());
        assert forall|g: int| 0 <= g < gr.len() implies {
            let r = #[trigger] gr[g];
            0 <= r.0 <= r.1 <= searched_pattern(parts, ignore_case).len()
        } by {
            if g < before.len() {
                assert(gr[g] == before[g]);
            }
        }
    }
}

/// Ranges as integers.
pub open spec fn ranges_view(v: Seq<(usize, usize)>) -> Seq<(int, int)> {
    v.map_values(|x: (usize, usize)| (x.0 as int, x.1 as int))
}

/// The searched pattern of `parts` and the ranges of its groups.
pub fn build_search(parts: &Vec<(Vec<char>, bool)>, ignore_case: bool) -> (r: (Vec<char>, Vec<(usize, usize)>))
    ensures
        r.0@ == searched_pattern(parts_view(parts@), ignore_case),
        ranges_view(r.1@) == group_ranges(parts_view(parts@), ignore_case),
{
    let ghost pv = parts_view(parts@);
    let mut sp: Vec<char> = Vec::new();
    let mut groups: Vec<(usize, usize)> = Vec::new();
    let mut i: usize = 0;
    assert(pv.take(0) =~= Seq::<(Seq<char>, bool)>::empty());
    assert(ranges_view(groups@) =~= Seq::<(int, int)>::empty());
    while i < parts.len()
        invariant
            i <= parts@.len(),
            pv == parts_view(parts@),
            sp@ == searched_pattern(pv.take(i as int), ignore_case),
            ranges_view(groups@) == group_ranges(pv.take(i as int), ignore_case),
        decreases parts@.len() - i,
    {
        let seg: Vec<char> = if ignore_case {
            let t = string_from_chars(&parts[i].0);
            search_chars(t.as_str(), true)
        } else {
            char_range(&parts[i].0, 0, parts[i].0.len())
        };
        proof {
            assert(pv[i as int] == (parts@[i as int].0@, parts@[i as int].1));
            assert(parts@[i as int].0@.subrange(0, parts@[i as int].0@.len() as int) =~= parts@[i as int].0@);
            assert(seg@ == search_text(pv[i as int].0, ignore_case));
        }
        let a = sp.len();
        let ghost sp0 = sp@;
        let mut j: usize = 0;
        while j < seg.len()
            invariant
                j <= seg@.len(),
                sp@ == sp0 + seg@.take(j as int),
            decreases seg@.len() - j,
        {
            sp.push(seg[j]);
            assert(seg@.take(j + 1) =~= seg@.take(j as int).push(seg@[j as int]));
            j = j + 1;
        }
        assert(seg@.take(seg@.len() as int) =~= seg@);
        let ghost g0 = groups@;
        if parts[i].1 {
            groups.push((a, sp.len()));
            assert(ranges_view(groups@) =~= ranges_view(g0).push((a as int, sp@.len() as int)));
        }
        proof {
            assert(pv.take(i + 1).drop_last() =~= pv.take(i as int));
            assert(pv.take(i + 1).last() == pv[i as int]);
        }
        i = i + 1;
    }
    assert(pv.take(parts@.len() as int) =~= pv);
    (sp, groups)
}

} // verus!

verus! {

/// Where character `c` of the searched input starts in the original input, if a character
/// of the original input starts at that byte.
pub open spec fn input_index(input: Seq<char>, ignore_case: bool, c: int) -> Option<int> {
    char_at_byte(input, byte_len(search_text(input, ignore_case).take(c)) as int)
}

/// The character position, in the searched input, where the searched pattern first occurs.
pub open spec fn match_start(pattern: Seq<char>, input: Seq<char>, ignore_case: bool) -> Option<int> {
    first_occurrence(search_text(input, ignore_case), searched_pattern(pattern_parts(pattern), ignore_case))
}

/// The byte position, in the searched input, where the match starts.
pub open spec fn match_byte_pos(pattern: Seq<char>, input: Seq<char>, ignore_case: bool) -> Option<int> {
    match match_start(pattern, input, ignore_case) {
        Some(k) => Some(byte_len(search_text(input, ignore_case).take(k)) as int),
        None => None,
    }
}

/// The ranges, in the searched input, of a match at `k`: the whole match, then each group.
pub open spec fn capture_ranges(pattern: Seq<char>, ignore_case: bool, k: int) -> Seq<(int, int)> {
    let parts = pattern_parts(pattern);
    seq![(k, k + searched_pattern(parts, ignore_case).len())] + group_ranges(parts, ignore_case).map_values(
        |r: (int, int)| (k + r.0, k + r.1),
    )
}

/// Every range of the match starts and ends on a character of the original input, so the
/// captures can be cut out of it; always so when case is not ignored or the input is ASCII.
pub open spec fn match_sliceable(pattern: Seq<char>, input: Seq<char>, ignore_case: bool) -> bool {
    match match_start(pattern, input, ignore_case) {
        Some(k) => forall|j: int|
            0 <= j < capture_ranges(pattern, ignore_case, k).len() ==> {
                &&& input_index(input, ignore_case, (#[trigger] capture_ranges(pattern, ignore_case, k)[j]).0) is Some
                &&& input_index(input, ignore_case, capture_ranges(pattern, ignore_case, k)[j].1) is Some
            },
        None => true,
    }
}

/// What a match captures: the text of the original input under the whole match, then under
/// each group, in order; `None` when the pattern does not occur.
pub open spec fn spec_regexp_match(pattern: Seq<char>, input: Seq<char>, ignore_case: bool) -> Option<Seq<Seq<char>>> {
    match match_start(pattern, input, ignore_case) {
        Some(k) => {
            let cr = capture_ranges(pattern, ignore_case, k);
            Some(
                Seq::new(
                    cr.len(),
                    |j: int|
                        input.subrange(
                            input_index(input, ignore_case, cr[j].0).unwrap(),
                            input_index(input, ignore_case, cr[j].1).unwrap(),
                        ),
                ),
            )
        },
        None => None,
    }
}

/// Captures as texts.
pub open spec fn captures_view(v: Seq<Vec<char>>) -> Seq<Seq<char>> {
    v.map_values(|c: Vec<char>| c@)
}

/// Finds the pattern in the input: `None` where the match cannot be cut out of the input,
/// `Some(None)` where the pattern does not occur, else the captures and the byte position.
pub fn plan_match(pattern: &str, input: &str, ignore_case: bool) -> (r: Option<Option<(Vec<Vec<char>>, u128)>>)
    ensures
        match r {
            None => !match_sliceable(pattern@, input@, ignore_case),
            Some(None) => match_start(pattern@, input@, ignore_case) is None,
            Some(Some((caps, pos))) => {
                &&& match_sliceable(pattern@, input@, ignore_case)
                &&& spec_regexp_match(pattern@, input@, ignore_case) == Some(captures_view(caps@))
                &&& match_byte_pos(pattern@, input@, ignore_case) == Some(pos as int)
            },
        },
{
    let pc = str_chars(pattern);
    let parts = pattern_parts_exec(&pc);
    let (sp, groups) = build_search(&parts, ignore_case);
    let si = search_chars(input, ignore_case);
    let inp = str_chars(input);
    let ghost parts_s = pattern_parts(pattern@);
    let ghost gr = group_ranges(parts_s, ignore_case);
    proof {
        lemma_group_ranges_bounded(parts_s, ignore_case);
    }
    let k = match find_chars(&si, &sp) {
        None => return Some(None),
        Some(k) => k,
    };
    let pos = prefix_byte_len(&si, k);
    let ghost cr = capture_ranges(pattern@, ignore_case, k as int);
    proof {
        assert(match_start(pattern@, input@, ignore_case) == Some(k as int));
        assert(cr.len() == groups@.len() + 1);
        assert(gr.len() == groups@.len());
        assert(cr[0] == (k as int, k + sp@.len()));
    }
    let slen = si.len();
    let mut caps: Vec<Vec<char>> = Vec::new();
    while caps.len() <= groups.len()
        invariant
            caps@.len() <= groups@.len() + 1,
            cr == capture_ranges(pattern@, ignore_case, k as int),
            cr.len() == groups@.len() + 1,
            cr[0] == (k as int, k + sp@.len()),
            gr == group_ranges(parts_s, ignore_case),
            ranges_view(groups@) == gr,
            parts_s == pattern_parts(pattern@),
            sp@ == searched_pattern(parts_s, ignore_case),
            si@ == search_text(input@, ignore_case),
            inp@ == input@,
            match_start(pattern@, input@, ignore_case) == Some(k as int),
            k + sp@.len() <= si@.len(),
            si@.len() == slen,
            forall|h: int| 0 <= h < gr.len() ==> {
                let r = #[trigger] gr[h];
                0 <= r.0 <= r.1 <= sp@.len()
            },
            forall|t: int| 0 <= t < caps@.len() ==> {
                &&& input_index(input@, ignore_case, (#[trigger] cr[t]).0) is Some
                &&& input_index(input@, ignore_case, cr[t].1) is Some
                &&& caps@[t]@ == input@.subrange(
                    input_index(input@, ignore_case, cr[t].0).unwrap(),
                    input_index(input@, ignore_case, cr[t].1).unwrap(),
                )
            },
        decreases groups@.len() + 1 - caps@.len(),
    {
        let g = caps.len();
        let (a, b) = if g == 0 {
            (k, k + sp.len())
        } else {
            let (ga, gb) = groups[g - 1];
            proof {
                assert(ranges_view(groups@)[g - 1] == (ga as int, gb as int));
                assert(gr[g - 1] == (ga as int, gb as int));
                assert(cr[g as int] == (k + gr[g - 1].0, k + gr[g - 1].1));
            }
            (k + ga, k + gb)
        };
        proof {
            assert(cr[g as int] == (a as int, b as int));
        }
        let ba = prefix_byte_len(&si, a);
        let bb = prefix_byte_len(&si, b);
        let x = char_index_at_byte(&inp, ba);
        let y = char_index_at_byte(&inp, bb);
        match (x, y) {
            (Some(x), Some(y)) => {
                proof {
                    if a < b {
                        lemma_byte_len_take_mono(si@, a as int, b as int);
                    }
                    if y < x {
                        lemma_byte_len_take_mono(input@, y as int, x as int);
                    }
                }
                let c = char_range(&inp, x, y);
                caps.push(c);
            },
            _ => {
                proof {
                    assert(!(input_index(input@, ignore_case, cr[g as int].0) is Some && input_index(input@, ignore_case, cr[g as int].1) is Some));
                }
                return None;
            },
        }
    }
    proof {
        assert(captures_view(caps@) =~= Seq::new(
            cr.len(),
            |t: int| input@.subrange(
                input_index(input@, ignore_case, cr[t].0).unwrap(),
                input_index(input@, ignore_case, cr[t].1).unwrap(),
            ),
        ));
    }
    Some(Some((caps, pos)))
}

} // verus!

verus! {

proof fn lemma_ascii_prefix_bytes(s: Seq<char>, c: int)
    requires
        all_ascii(s),
        0 <= c <= s.len(),
    ensures
        byte_len(s.take(c)) == c,
    decreases c,
{
    if c > 0 {
        lemma_ascii_prefix_bytes(s, c - 1);
        lemma_byte_len_take_step(s, c - 1);
    } else {
        assert(s.take(0) =~= Seq::<char>::empty());
    }
}

proof fn lemma_ascii_char_at_byte(s: Seq<char>, c: int)
    requires
        all_ascii(s),
        0 <= c <= s.len(),
    ensures
        char_at_byte(s, c) == Some(c),
{
    reveal(char_at_byte);
    lemma_ascii_prefix_bytes(s, c);
    let a = choose|a: int| 0 <= a <= s.len() && byte_len(s.take(a)) == c;
    lemma_ascii_prefix_bytes(s, a);
}

/// An ASCII text lower-cased is ASCII of the same length.
pub proof fn lemma_search_text_ascii(s: Seq<char>, ignore_case: bool)
    requires
        all_ascii(s),
    ensures
        all_ascii(search_text(s, ignore_case)),
        search_text(s, ignore_case).len() == s.len(),
{
    let t = search_text(s, ignore_case);
    assert forall|i: int| 0 <= i < t.len() implies (t[i] as u32) < 128 by {
        assert((s[i] as u32) < 128);
    }
}

/// On an ASCII input every match can be cut out of the input.
pub proof fn lemma_ascii_sliceable(pattern: Seq<char>, input: Seq<char>, ignore_case: bool)
    requires
        all_ascii(input),
    ensures
        match_sliceable(pattern, input, ignore_case),
{
    let si = search_text(input, ignore_case);
    let parts = pattern_parts(pattern);
    let sp = searched_pattern(parts, ignore_case);
    lemma_search_text_ascii(input, ignore_case);
    match match_start(pattern, input, ignore_case) {
        Some(k) => {
            lemma_first_occurrence_occurs(si, sp);
            assert(occurs_at(si, sp, k));
            lemma_group_ranges_bounded(parts, ignore_case);
            let cr = capture_ranges(pattern, ignore_case, k);
            let gr = group_ranges(parts, ignore_case);
            assert forall|j: int| 0 <= j < cr.len() implies {
                &&& input_index(input, ignore_case, (#[trigger] cr[j]).0) is Some
                &&& input_index(input, ignore_case, cr[j].1) is Some
            } by {
                if j > 0 {
                    assert(cr[j] == (k + gr[j - 1].0, k + gr[j - 1].1));
                }
                assert(0 <= cr[j].0 <= si.len() && 0 <= cr[j].1 <= si.len());
                lemma_ascii_prefix_bytes(si, cr[j].0);
                lemma_ascii_prefix_bytes(si, cr[j].1);
                lemma_ascii_char_at_byte(input, cr[j].0);
                lemma_ascii_char_at_byte(input, cr[j].1);
            }
        },
        None => {},
    }
}

} // verus!
