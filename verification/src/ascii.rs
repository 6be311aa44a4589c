//! Byte-level text helpers: whitespace classification, ASCII lowercasing,
//! and trimming of leading and trailing whitespace.

use vstd::prelude::*;

verus! {

/// The ASCII bytes that count as whitespace: space, and the control
/// characters tab, line feed, vertical tab, form feed, carriage return.
pub open spec fn is_ws(b: u8) -> bool {
    b == 0x20 || (0x09 <= b && b <= 0x0d)
}

/// ASCII lowercasing of a single byte: `A`..`Z` map to `a`..`z`,
/// everything else is unchanged.
pub open spec fn to_lower(b: u8) -> u8 {
    if 0x41 <= b && b <= 0x5a {
        (b + 0x20) as u8
    } else {
        b
    }
}

/// A byte sequence lowercased byte by byte.
pub open spec fn lower_seq(s: Seq<u8>) -> Seq<u8> {
    s.map_values(|b: u8| to_lower(b))
}

/// `s` with leading whitespace removed.
pub open spec fn trim_front(s: Seq<u8>) -> Seq<u8>
    decreases s.len(),
{
    if s.len() > 0 && is_ws(s[0]) {
        trim_front(s.skip(1))
    } else {
        s
    }
}

/// `s` with trailing whitespace removed.
pub open spec fn trim_back(s: Seq<u8>) -> Seq<u8>
    decreases s.len(),
{
    if s.len() > 0 && is_ws(s[s.len() - 1]) {
        trim_back(s.drop_last())
    } else {
        s
    }
}

/// `s` with leading and trailing whitespace removed.
pub open spec fn trim_seq(s: Seq<u8>) -> Seq<u8> {
    trim_back(trim_front(s))
}

pub fn lower_byte(b: u8) -> (r: u8)
    ensures
        r == to_lower(b),
{
    if 0x41 <= b && b <= 0x5a {
        b + 0x20
    } else {
        b
    }
}

pub fn is_whitespace_byte(b: u8) -> (r: bool)
    ensures
        r == is_ws(b),
{
    b == 0x20 || (0x09 <= b && b <= 0x0d)
}

proof fn lemma_trim_front_skip(s: Seq<u8>, i: int)
    requires
        0 <= i <= s.len(),
        forall|m: int| 0 <= m < i ==> is_ws(s[m]),
    ensures
        trim_front(s) == trim_front(s.skip(i)),
    decreases i,
{
    if i > 0 {
        assert(trim_front(s) == trim_front(s.skip(1)));
        assert(s.skip(1).skip(i - 1) =~= s.skip(i));
        lemma_trim_front_skip(s.skip(1), i - 1);
    } else {
        assert(s.skip(0) =~= s);
    }
}

proof fn lemma_trim_back_take(s: Seq<u8>, j: int)
    requires
        0 <= j <= s.len(),
        forall|m: int| j <= m < s.len() ==> is_ws(s[m]),
    ensures
        trim_back(s) == trim_back(s.take(j)),
    decreases s.len() - j,
{
    if j < s.len() {
        assert(trim_back(s) == trim_back(s.drop_last()));
        assert(s.drop_last().take(j) =~= s.take(j));
        lemma_trim_back_take(s.drop_last(), j);
    } else {
        assert(s.take(j) =~= s);
    }
}

/// The trimmed copy of `s`: leading and trailing whitespace bytes removed.
pub fn trim_string(s: &Vec<u8>) -> (r: Vec<u8>)
    ensures
        r@ == trim_seq(s@),
{
    let mut i: usize = 0;
    while i < s.len() && is_whitespace_byte(s[i])
        invariant
            0 <= i <= s@.len(),
            forall|m: int| 0 <= m < i ==> is_ws(s@[m]),
        decreases s@.len() - i,
    {
        i = i + 1;
    }
    let mut j: usize = s.len();
    while j > i && is_whitespace_byte(s[j - 1])
        invariant
            i <= j <= s@.len(),
            forall|m: int| j <= m < s@.len() ==> is_ws(s@[m]),
        decreases j,
    {
        j = j - 1;
    }
    let mut r: Vec<u8> = Vec::new();
    let mut k: usize = i;
    while k < j
        invariant
            i <= k <= j <= s@.len(),
            r@ =~= s@.subrange(i as int, k as int),
        decreases j - k,
    {
        r.push(s[k]);
        assert(r@ =~= s@.subrange(i as int, k + 1));
        k = k + 1;
    }
    proof {
        lemma_trim_front_skip(s@, i as int);
        let t = s@.skip(i as int);
        assert(trim_front(s@) == trim_front(t));
        if i == s@.len() {
            assert(t =~= Seq::<u8>::empty());
            assert(trim_front(t) == t);
            assert(trim_back(t) == t);
            assert(r@ =~= t);
        } else {
            assert(!is_ws(t[0]));
            assert(trim_front(t) == t);
            lemma_trim_back_take(t, j - i);
            assert(forall|m: int| j - i <= m < t.len() ==> is_ws(t[m]));
            let u = t.take(j - i);
            assert(trim_back(t) == trim_back(u));
            if j > i {
                assert(!is_ws(u[u.len() - 1]));
            }
            assert(trim_back(u) == u);
            assert(r@ =~= u);
        }
    }
    r
}

} // verus!
