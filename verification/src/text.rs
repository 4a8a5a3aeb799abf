//! Character-level text helpers: lexicographic order, substring search, and
//! conversion between `String` and vectors of characters.

use vstd::prelude::*;

verus! {

/// Strict lexicographic order on character sequences, by scalar value,
/// with a proper prefix ordered before its extensions.
pub open spec fn lex_lt(a: Seq<char>, b: Seq<char>) -> bool
    decreases a.len(),
{
    if b.len() == 0 {
        false
    } else if a.len() == 0 {
        true
    } else if a[0] != b[0] {
        a[0] < b[0]
    } else {
        lex_lt(a.drop_first(), b.drop_first())
    }
}

/// Non-strict companion of [`lex_lt`].
pub open spec fn lex_le(a: Seq<char>, b: Seq<char>) -> bool {
    !lex_lt(b, a)
}

/// Exactly one of `lex_lt(a, b)`, `lex_lt(b, a)` and `a == b` holds.
pub proof fn lemma_lex_total(a: Seq<char>, b: Seq<char>)
    ensures
        lex_lt(a, b) || lex_lt(b, a) || a == b,
        lex_lt(a, b) ==> !lex_lt(b, a) && a != b,
    decreases a.len(),
{
    if a.len() == 0 || b.len() == 0 {
        if a.len() == 0 && b.len() == 0 {
            assert(a =~= b);
        }
    } else if a[0] != b[0] {
    } else {
        lemma_lex_total(a.drop_first(), b.drop_first());
        if a.drop_first() == b.drop_first() {
            assert forall|j: int| 0 <= j < a.len() implies a[j] == b[j] by {
                if j > 0 {
                    assert(a[j] == a.drop_first()[j - 1]);
                    assert(b[j] == b.drop_first()[j - 1]);
                }
            }
            assert(a =~= b);
        }
    }
}

/// `lex_lt` is transitive.
pub proof fn lemma_lex_lt_trans(a: Seq<char>, b: Seq<char>, c: Seq<char>)
    requires
        lex_lt(a, b),
        lex_lt(b, c),
    ensures
        lex_lt(a, c),
    decreases a.len(),
{
    if a.len() == 0 || b.len() == 0 || c.len() == 0 {
    } else if a[0] == b[0] && b[0] == c[0] {
        lemma_lex_lt_trans(a.drop_first(), b.drop_first(), c.drop_first());
    }
}

/// `lex_le` is transitive.
pub proof fn lemma_lex_le_trans(a: Seq<char>, b: Seq<char>, c: Seq<char>)
    requires
        lex_le(a, b),
        lex_le(b, c),
    ensures
        lex_le(a, c),
{
    if lex_lt(c, a) {
        lemma_lex_total(c, b);
        lemma_lex_total(b, a);
        if lex_lt(c, b) {
        } else if lex_lt(b, c) {
            lemma_lex_lt_trans(c, a, b);
        }
        if lex_lt(b, a) {
        } else if lex_lt(a, b) {
            lemma_lex_lt_trans(b, c, a);
        }
    }
}

proof fn lemma_lex_lt_skip(a: Seq<char>, b: Seq<char>, i: int)
    requires
        0 <= i <= a.len(),
        i <= b.len(),
        forall|j: int| 0 <= j < i ==> a[j] == b[j],
    ensures
        lex_lt(a, b) == lex_lt(a.skip(i), b.skip(i)),
    decreases i,
{
    if i > 0 {
        assert(a[0] == b[0]);
        assert(a.drop_first().skip(i - 1) =~= a.skip(i));
        assert(b.drop_first().skip(i - 1) =~= b.skip(i));
        assert(forall|j: int|
            0 <= j < i - 1 ==> a.drop_first()[j] == b.drop_first()[j]) by {
            assert(forall|j: int| 0 <= j < i - 1 ==> a.drop_first()[j] == a[j + 1]);
        }
        lemma_lex_lt_skip(a.drop_first(), b.drop_first(), i - 1);
    } else {
        assert(a.skip(0) =~= a);
        assert(b.skip(0) =~= b);
    }
}

/// Decides [`lex_lt`] on two character vectors.
pub fn chars_lt(a: &Vec<char>, b: &Vec<char>) -> (r: bool)
    ensures
        r == lex_lt(a@, b@),
{
    let mut i: usize = 0;
    loop
        invariant
            i <= a.len(),
            i <= b.len(),
            forall|j: int| 0 <= j < i ==> a@[j] == b@[j],
        decreases a.len() - i,
    {
        proof {
            lemma_lex_lt_skip(a@, b@, i as int);
        }
        if i == b.len() {
            assert(b@.skip(i as int).len() == 0);
            return false;
        }
        if i == a.len() {
            assert(a@.skip(i as int).len() == 0);
            return true;
        }
        let ca = a[i];
        let cb = b[i];
        assert(a@.skip(i as int)[0] == a@[i as int]);
        assert(b@.skip(i as int)[0] == b@[i as int]);
        if ca != cb {
            return ca < cb;
        }
        i += 1;
    }
}

/// `t` occurs as a contiguous run inside `s`.
pub open spec fn has_sub(s: Seq<char>, t: Seq<char>) -> bool {
    exists|i: int| 0 <= i && i + t.len() <= s.len() && (#[trigger] s.subrange(i, i + t.len())) == t
}

fn match_at(s: &Vec<char>, t: &Vec<char>, i: usize) -> (r: bool)
    requires
        i + t@.len() <= s@.len(),
    ensures
        r == (s@.subrange(i as int, i + t@.len()) == t@),
{
    let n = s.len();
    let mut j: usize = 0;
    while j < t.len()
        invariant
            n == s@.len(),
            i + t@.len() <= s@.len(),
            j <= t.len(),
            forall|m: int| 0 <= m < j ==> s@[i + m] == t@[m],
        decreases t.len() - j,
    {
        assert(i + j < s@.len());
        if s[i + j] != t[j] {
            assert(s@.subrange(i as int, i + t@.len())[j as int] == s@[i + j]);
            return false;
        }
        j += 1;
    }
    assert forall|m: int| 0 <= m < t@.len() implies s@.subrange(
        i as int,
        i + t@.len(),
    )[m] == t@[m] by {
        assert(s@.subrange(i as int, i + t@.len())[m] == s@[i + m]);
    }
    assert(s@.subrange(i as int, i + t@.len()) =~= t@);
    true
}

/// Decides [`has_sub`] on two character vectors.
pub fn chars_contains(s: &Vec<char>, t: &Vec<char>) -> (r: bool)
    ensures
        r == has_sub(s@, t@),
{
    if t.len() > s.len() {
        return false;
    }
    if t.len() == 0 {
        proof {
            assert(s@.subrange(0, 0 + t@.len() as int) =~= t@);
        }
        return true;
    }
    let mut i: usize = 0;
    loop
        invariant
            1 <= t.len() <= s.len(),
            i <= s.len() - t.len() + 1,
            forall|k: int| 0 <= k < i ==> (#[trigger] s@.subrange(k, k + t@.len())) != t@,
        decreases s.len() - t.len() + 1 - i,
    {
        if i > s.len() - t.len() {
            proof {
                if has_sub(s@, t@) {
                    let k = choose|k: int|
                        0 <= k && k + t@.len() <= s@.len() && (#[trigger] s@.subrange(
                            k,
                            k + t@.len(),
                        )) == t@;
                    assert(k < i);
                }
            }
            return false;
        }
        if match_at(s, t, i) {
            return true;
        }
        i += 1;
    }
}

/// Relies on `str::chars`: it yields exactly the characters of the slice, in
/// order, and a string's view is that character sequence.
#[verifier::external_body]
pub fn chars_vec(s: &str) -> (r: Vec<char>)
    ensures
        r@ == s@,
{
    s.chars().collect()
}

/// Relies on `String::push`: it appends the given character to the end of
/// the string.
#[verifier::external_body]
pub fn push_char(s: &mut String, c: char)
    ensures
        final(s)@ == old(s)@.push(c),
{
    s.push(c);
}

/// Builds the string whose characters are exactly `v`.
pub fn string_of_chars(v: &Vec<char>) -> (r: String)
    ensures
        r@ == v@,
{
    let mut r = String::new();
    let mut i: usize = 0;
    while i < v.len()
        invariant
            i <= v.len(),
            r@ == v@.subrange(0, i as int),
        decreases v.len() - i,
    {
        push_char(&mut r, v[i]);
        proof {
            assert(v@.subrange(0, i as int).push(v@[i as int]) =~= v@.subrange(
                0,
                i as int + 1,
            ));
        }
        i += 1;
    }
    proof {
        assert(v@.subrange(0, v@.len() as int) =~= v@);
    }
    r
}

} // verus!
