use vstd::prelude::*;

verus! {

/// Whether `n` occurs in `h` starting at character `i`.
pub open spec fn occurs_at(h: Seq<char>, n: Seq<char>, i: int) -> bool {
    0 <= i && i + n.len() <= h.len() && h.subrange(i, i + n.len()) == n
}

/// The first character position at which `n` occurs in `h`, if it occurs.
#[verifier::opaque]
pub open spec fn first_occurrence(h: Seq<char>, n: Seq<char>) -> Option<int> {
    if exists|i: int| occurs_at(h, n, i) {
        Some(
            choose|i: int| occurs_at(h, n, i) && forall|j: int| 0 <= j < i ==> !occurs_at(h, n, j),
        )
    } else {
        None
    }
}

/// The number of bytes of the UTF-8 encoding of a character.
pub open spec fn char_width(c: char) -> nat {
    let v = c as u32;
    if v <= 0x7F {
        1
    } else if v <= 0x7FF {
        2
    } else if v <= 0xFFFF {
        3
    } else {
        4
    }
}

/// The number of bytes of the UTF-8 encoding of a text.
pub open spec fn byte_len(s: Seq<char>) -> nat
    decreases s.len(),
{
    if s.len() == 0 {
        0
    } else {
        byte_len(s.drop_last()) + char_width(s.last())
    }
}

/// The character position of `s` that starts at byte `b` of its UTF-8 encoding (the end of the
/// text counts as a position), if there is one.
#[verifier::opaque]
pub open spec fn char_at_byte(s: Seq<char>, b: int) -> Option<int> {
    if exists|a: int| 0 <= a <= s.len() && byte_len(s.take(a)) == b {
        Some(choose|a: int| 0 <= a <= s.len() && byte_len(s.take(a)) == b)
    } else {
        None
    }
}

pub proof fn lemma_byte_len_take_step(s: Seq<char>, a: int)
    requires
        0 <= a < s.len(),
    ensures
        byte_len(s.take(a + 1)) == byte_len(s.take(a)) + char_width(s[a]),
{
    assert(s.take(a + 1).drop_last() =~= s.take(a));
}

pub proof fn lemma_byte_len_take_mono(s: Seq<char>, a: int, b: int)
    requires
        0 <= a < b <= s.len(),
    ensures
        byte_len(s.take(a)) < byte_len(s.take(b)),
    decreases b - a,
{
    lemma_byte_len_take_step(s, b - 1);
    if a < b - 1 {
        lemma_byte_len_take_mono(s, a, b - 1);
    }
}

pub proof fn lemma_byte_len_bound(s: Seq<char>)
    ensures
        byte_len(s) <= 4 * s.len(),
    decreases s.len(),
{
    if s.len() > 0 {
        lemma_byte_len_bound(s.drop_last());
    }
}

fn char_width_exec(c: char) -> (r: u128)
    ensures
        r == char_width(c),
{
    let v = c as u32;
    if v <= 0x7F {
        1
    } else if v <= 0x7FF {
        2
    } else if v <= 0xFFFF {
        3
    } else {
        4
    }
}

/// The UTF-8 length in bytes of the first `a` characters of `s`.
pub fn prefix_byte_len(s: &Vec<char>, a: usize) -> (r: u128)
    requires
        a <= s@.len(),
    ensures
        r == byte_len(s@.take(a as int)),
        r <= 4 * a,
{
    let mut acc: u128 = 0;
    let mut i: usize = 0;
    assert(s@.take(0) =~= Seq::<char>::empty());
    while i < a
        invariant
            i <= a <= s@.len(),
            acc == byte_len(s@.take(i as int)),
            acc <= 4 * i,
        decreases a - i,
    {
        proof {
            lemma_byte_len_take_step(s@, i as int);
        }
        acc = acc + char_width_exec(s[i]);
        i = i + 1;
    }
    acc
}

/// The character position of `s` that starts at byte `b`, if there is one.
pub fn char_index_at_byte(s: &Vec<char>, b: u128) -> (r: Option<usize>)
    ensures
        match r {
            Some(a) => char_at_byte(s@, b as int) == Some(a as int) && a <= s@.len() && byte_len(s@.take(a as int)) == b,
            None => char_at_byte(s@, b as int) is None,
        },
{
    reveal(char_at_byte);
    let mut acc: u128 = 0;
    let mut i: usize = 0;
    assert(s@.take(0) =~= Seq::<char>::empty());
    while i <= s.len()
        invariant
            i <= s@.len() + 1,
            i <= s@.len() ==> acc == byte_len(s@.take(i as int)),
            acc <= 4 * i,
            forall|j: int| 0 <= j < i && j <= s@.len() ==> byte_len(#[trigger] s@.take(j)) < b,
        decreases s@.len() + 1 - i,
    {
        if acc == b {
            proof {
                reveal(char_at_byte);
                assert(0 <= i <= s@.len() && byte_len(s@.take(i as int)) == b);
                let c = choose|a: int| 0 <= a <= s@.len() && byte_len(s@.take(a)) == b;
                if c < i {
                    assert(byte_len(s@.take(c)) < b);
                } else if c > i {
                    lemma_byte_len_take_mono(s@, i as int, c);
                }
            }
            return Some(i);
        }
        if acc > b {
            proof {
                reveal(char_at_byte);
                assert forall|a: int| 0 <= a <= s@.len() implies byte_len(s@.take(a)) != b by {
                    if a > i {
                        lemma_byte_len_take_mono(s@, i as int, a);
                    } else if a < i {
                        assert(byte_len(s@.take(a)) < b);
                    }
                }
            }
            return None;
        }
        if i == s.len() {
            proof {
                reveal(char_at_byte);
                assert forall|a: int| 0 <= a <= s@.len() implies byte_len(s@.take(a)) != b by {
                    if a < i {
                        assert(byte_len(s@.take(a)) < b);
                    }
                }
            }
            return None;
        }
        proof {
            lemma_byte_len_take_step(s@, i as int);
        }
        acc = acc + char_width_exec(s[i]);
        i = i + 1;
    }
    proof {
        assert forall|a: int| 0 <= a <= s@.len() implies byte_len(s@.take(a)) != b by {
            assert(byte_len(s@.take(a)) < b);
        }
    }
    None
}

fn occurs_at_exec(h: &Vec<char>, n: &Vec<char>, i: usize) -> (r: bool)
    requires
        i + n@.len() <= h@.len(),
    ensures
        r == occurs_at(h@, n@, i as int),
{
    let hl = h.len();
    let mut j: usize = 0;
    while j < n.len()
        invariant
            j <= n@.len(),
            i + n@.len() <= h@.len(),
            hl == h@.len(),
            forall|t: int| 0 <= t < j ==> h@[i + t] == n@[t],
        decreases n@.len() - j,
    {
        if h[i + j] != n[j] {
            proof {
                assert(h@.subrange(i as int, i + n@.len())[j as int] != n@[j as int]);
            }
            return false;
        }
        j = j + 1;
    }
    assert(h@.subrange(i as int, i + n@.len()) =~= n@);
    true
}

/// The first position at which `n` occurs in `h`.
pub fn find_chars(h: &Vec<char>, n: &Vec<char>) -> (r: Option<usize>)
    ensures
        match r {
            Some(k) => first_occurrence(h@, n@) == Some(k as int) && k + n@.len() <= h@.len(),
            None => first_occurrence(h@, n@) is None,
        },
{
    reveal(first_occurrence);
    if n.len() > h.len() {
        return None;
    }
    let last = h.len() - n.len();
    let mut i: usize = 0;
    while i <= last
        invariant
            last + n@.len() == h@.len(),
            i <= last,
            forall|j: int| 0 <= j < i ==> !occurs_at(h@, n@, j),
        decreases last - i,
    {
        if occurs_at_exec(h, n, i) {
            proof {
                reveal(first_occurrence);
                let c = choose|c: int| occurs_at(h@, n@, c) && forall|j: int| 0 <= j < c ==> !occurs_at(h@, n@, j);
                if c < i {
                } else if c > i {
                    assert(!occurs_at(h@, n@, i as int));
                }
            }
            return Some(i);
        }
        if i == last {
            proof {
                reveal(first_occurrence);
                assert forall|j: int| !occurs_at(h@, n@, j) by {
                    if 0 <= j <= last {
                        assert(j < i || j == i);
                    }
                }
            }
            return None;
        }
        i = i + 1;
    }
    None
}

} // verus!

verus! {

proof fn lemma_earliest_occurrence(h: Seq<char>, n: Seq<char>, i: int)
    requires
        occurs_at(h, n, i),
    ensures
        exists|k: int| occurs_at(h, n, k) && forall|j: int| 0 <= j < k ==> !occurs_at(h, n, j),
    decreases i,
{
    if exists|j: int| 0 <= j < i && occurs_at(h, n, j) {
        let j = choose|j: int| 0 <= j < i && occurs_at(h, n, j);
        lemma_earliest_occurrence(h, n, j);
    } else {
        assert(occurs_at(h, n, i) && forall|j: int| 0 <= j < i ==> !occurs_at(h, n, j));
    }
}

/// The first occurrence is an occurrence.
pub proof fn lemma_first_occurrence_occurs(h: Seq<char>, n: Seq<char>)
    ensures
        first_occurrence(h, n) matches Some(k) ==> occurs_at(h, n, k),
{
    reveal(first_occurrence);
    if exists|i: int| occurs_at(h, n, i) {
        let i = choose|i: int| occurs_at(h, n, i);
        lemma_earliest_occurrence(h, n, i);
    }
}

} // verus!
