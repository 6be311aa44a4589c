//! The line codec for the persisted extension index: each word serializes
//! as `value [ext_index ...]` on one line, tokens separated by whitespace,
//! and loads back the same way. A line whose trailing tokens fail to parse
//! as extension indices discards that word; loading continues.

use vstd::prelude::*;
use vstd::arithmetic::div_mod::{lemma_div_decreases, lemma_div_pos_is_pos, lemma_fundamental_div_mod, lemma_mod_pos_bound};
use crate::ascii::{is_ws, trim_seq};
use crate::corpus::{Word, WordCorpus};

verus! {

/// An ASCII decimal digit.
pub open spec fn is_digit(b: u8) -> bool {
    0x30 <= b <= 0x39
}

/// The numeric value of one digit byte.
pub open spec fn digit_val(b: u8) -> int {
    b - 0x30
}

pub open spec fn all_digits(s: Seq<u8>) -> bool {
    forall|i: int| 0 <= i < s.len() ==> is_digit(#[trigger] s[i])
}

/// The number a digit string denotes, most significant digit first.
pub open spec fn digits_val(s: Seq<u8>) -> int
    decreases s.len(),
{
    if s.len() == 0 {
        0
    } else {
        digits_val(s.drop_last()) * 10 + digit_val(s.last())
    }
}

/// The digit part of a numeric token: everything after one optional
/// leading plus sign.
pub open spec fn digits_part(t: Seq<u8>) -> Seq<u8> {
    if t.len() >= 1 && t[0] == 0x2b {
        t.skip(1)
    } else {
        t
    }
}

/// Whether `t` parses as a `u32` extension index: non-empty digits after
/// an optional plus sign, with a value that fits.
pub open spec fn is_u32_token(t: Seq<u8>) -> bool {
    digits_part(t).len() >= 1 && all_digits(digits_part(t)) && digits_val(digits_part(t))
        <= u32::MAX
}

/// The value of a valid numeric token.
pub open spec fn token_u32(t: Seq<u8>) -> u32 {
    digits_val(digits_part(t)) as u32
}

proof fn lemma_digits_val_nonneg(s: Seq<u8>)
    requires
        all_digits(s),
    ensures
        digits_val(s) >= 0,
    decreases s.len(),
{
    if s.len() > 0 {
        assert(all_digits(s.drop_last())) by {
            assert(forall|i: int| 0 <= i < s.len() - 1 ==> s.drop_last()[i] == s[i]);
        }
        lemma_digits_val_nonneg(s.drop_last());
    }
}

proof fn lemma_digits_val_step(g: Seq<u8>, i: int)
    requires
        0 <= i < g.len(),
    ensures
        digits_val(g.subrange(0, i + 1)) == digits_val(g.subrange(0, i)) * 10 + digit_val(g[i]),
{
    let s = g.subrange(0, i + 1);
    assert(s.drop_last() =~= g.subrange(0, i));
    assert(s.last() == g[i]);
}

proof fn lemma_digits_val_mono(g: Seq<u8>, i: int)
    requires
        all_digits(g),
        0 <= i <= g.len(),
    ensures
        digits_val(g) >= digits_val(g.subrange(0, i)),
    decreases g.len() - i,
{
    if i < g.len() {
        lemma_digits_val_step(g, i);
        assert(all_digits(g.subrange(0, i)));
        lemma_digits_val_nonneg(g.subrange(0, i));
        assert(digits_val(g.subrange(0, i + 1)) >= digits_val(g.subrange(0, i)));
        lemma_digits_val_mono(g, i + 1);
    } else {
        assert(g.subrange(0, i) =~= g);
    }
}

/// Parses one whitespace-free token as a `u32` extension index. `None`
/// exactly when the token is not a valid index: empty digits, a non-digit
/// byte, or a value over `u32::MAX`.
pub fn parse_u32(t: &Vec<u8>) -> (r: Option<u32>)
    ensures
        r is Some <==> is_u32_token(t@),
        r is Some ==> r->0 as int == digits_val(digits_part(t@)),
{
    let start: usize = if t.len() >= 1 && t[0] == 0x2b {
        1
    } else {
        0
    };
    let ghost g = digits_part(t@);
    proof {
        assert(g =~= t@.skip(start as int));
    }
    if t.len() == start {
        proof {
            assert(g.len() == 0);
        }
        return None;
    }
    let mut acc: u32 = 0;
    let mut i: usize = start;
    while i < t.len()
        invariant
            start <= i <= t@.len(),
            g == digits_part(t@),
            g == t@.skip(start as int),
            g.len() == t@.len() - start,
            forall|m: int| start <= m < i ==> g[m - start] == t@[m],
            all_digits(g.subrange(0, i - start)),
            acc as int == digits_val(g.subrange(0, i - start)),
        decreases t@.len() - i,
    {
        let b = t[i];
        proof {
            assert(g[i - start] == t@[i as int]);
        }
        if b < 0x30 || b > 0x39 {
            proof {
                assert(!is_digit(g[i - start]));
                assert(!all_digits(g));
            }
            return None;
        }
        let d = (b - 0x30) as u32;
        if acc > u32::MAX / 10 || (acc == u32::MAX / 10 && d > u32::MAX % 10) {
            proof {
                lemma_digits_val_step(g, i - start);
                assert(digits_val(g.subrange(0, i - start + 1)) > u32::MAX);
                if is_u32_token(t@) {
                    lemma_digits_val_mono(g, i - start + 1);
                }
            }
            return None;
        }
        acc = acc * 10 + d;
        proof {
            lemma_digits_val_step(g, i - start);
            assert(g.subrange(0, i - start + 1) =~= g.subrange(0, i + 1 - start));
        }
        i = i + 1;
    }
    proof {
        assert(g.subrange(0, i - start) =~= g);
    }
    Some(acc)
}

/// The canonical decimal digits of `n`, most significant first, no sign
/// and no leading zeros.
pub open spec fn dec_digits(n: int) -> Seq<u8>
    decreases n,
    via dec_digits_decreases
{
    if n < 10 {
        seq![(0x30 + if n >= 0 { n } else { 0 }) as u8]
    } else {
        dec_digits(n / 10).push((0x30 + n % 10) as u8)
    }
}

#[via_fn]
proof fn dec_digits_decreases(n: int) {
    if n >= 10 {
        lemma_div_decreases(n, 10);
        lemma_div_pos_is_pos(n, 10);
    }
}

/// Formats `x` as decimal digits.
pub fn u32_to_dec(x: u32) -> (r: Vec<u8>)
    ensures
        r@ == dec_digits(x as int),
    decreases x,
{
    if x < 10 {
        let mut r: Vec<u8> = Vec::new();
        r.push(0x30 + (x as u8));
        proof {
            assert(r@ =~= dec_digits(x as int));
        }
        r
    } else {
        proof {
            lemma_div_decreases(x as int, 10);
            lemma_div_pos_is_pos(x as int, 10);
            lemma_mod_pos_bound(x as int, 10);
            lemma_fundamental_div_mod(x as int, 10);
        }
        let mut r = u32_to_dec(x / 10);
        r.push(0x30 + ((x % 10) as u8));
        r
    }
}

/// The decimal digits of a number are digits, at least one of them, and
/// they denote the number itself.
proof fn lemma_dec_digits_ok(n: int)
    requires
        0 <= n,
    ensures
        all_digits(dec_digits(n)),
        dec_digits(n).len() >= 1,
        digits_val(dec_digits(n)) == n,
    decreases n,
{
    if n < 10 {
        let s = dec_digits(n);
        assert(s == seq![(0x30 + n) as u8]);
        assert(s.drop_last() =~= Seq::<u8>::empty());
        assert(digits_val(Seq::<u8>::empty()) == 0);
        assert(digits_val(s) == digit_val(s.last()));
    } else {
        lemma_div_decreases(n, 10);
        lemma_div_pos_is_pos(n, 10);
        lemma_mod_pos_bound(n, 10);
        lemma_fundamental_div_mod(n, 10);
        lemma_dec_digits_ok(n / 10);
        let p = dec_digits(n / 10);
        let s = dec_digits(n);
        assert(s == p.push((0x30 + n % 10) as u8));
        assert(s.drop_last() =~= p);
        assert(s.last() == (0x30 + n % 10) as u8);
        assert(digits_val(s) == digits_val(p) * 10 + (n % 10));
        assert(forall|i: int| 0 <= i < p.len() ==> s[i] == p[i]);
    }
}

/// `s` with its leading whitespace removed.
pub open spec fn skip_ws(s: Seq<u8>) -> Seq<u8>
    decreases s.len(),
{
    if s.len() > 0 && is_ws(s[0]) {
        skip_ws(s.skip(1))
    } else {
        s
    }
}

/// The longest whitespace-free prefix of `s`.
pub open spec fn take_tok(s: Seq<u8>) -> Seq<u8>
    decreases s.len(),
{
    if s.len() > 0 && !is_ws(s[0]) {
        seq![s[0]] + take_tok(s.skip(1))
    } else {
        Seq::empty()
    }
}

proof fn lemma_skip_ws_len(s: Seq<u8>)
    ensures
        skip_ws(s).len() <= s.len(),
    decreases s.len(),
{
    if s.len() > 0 && is_ws(s[0]) {
        lemma_skip_ws_len(s.skip(1));
    }
}

/// The whitespace-separated tokens of `s`, in order.
pub open spec fn tokens(s: Seq<u8>) -> Seq<Seq<u8>>
    decreases s.len(),
    via tokens_decreases
{
    if skip_ws(s).len() == 0 {
        Seq::empty()
    } else {
        let t = skip_ws(s);
        seq![take_tok(t)] + tokens(t.skip(take_tok(t).len() as int))
    }
}

#[via_fn]
proof fn tokens_decreases(s: Seq<u8>) {
    lemma_skip_ws_len(s);
    lemma_skip_ws_head(s);
    let t = skip_ws(s);
    if t.len() > 0 {
        lemma_take_tok_len(t);
        assert(!is_ws(t[0]));
        assert(take_tok(t).len() >= 1);
        assert(t.skip(take_tok(t).len() as int).len() < s.len());
    }
}

proof fn lemma_take_tok_len(s: Seq<u8>)
    ensures
        take_tok(s).len() <= s.len(),
    decreases s.len(),
{
    if s.len() > 0 && !is_ws(s[0]) {
        lemma_take_tok_len(s.skip(1));
    }
}

proof fn lemma_skip_ws_head(s: Seq<u8>)
    ensures
        skip_ws(s).len() > 0 ==> !is_ws(skip_ws(s)[0]),
    decreases s.len(),
{
    if s.len() > 0 && is_ws(s[0]) {
        lemma_skip_ws_head(s.skip(1));
    }
}

/// Skipping one leading whitespace byte leaves the tokens alone.
proof fn lemma_tokens_ws_front(s: Seq<u8>)
    requires
        s.len() > 0,
        is_ws(s[0]),
    ensures
        tokens(s) == tokens(s.skip(1)),
{
    assert(skip_ws(s) == skip_ws(s.skip(1)));
}

proof fn lemma_take_tok_exact(s: Seq<u8>, k: int)
    requires
        1 <= k <= s.len(),
        forall|m: int| 0 <= m < k ==> !is_ws(#[trigger] s[m]),
        k == s.len() || is_ws(s[k]),
    ensures
        take_tok(s) == s.subrange(0, k),
    decreases k,
{
    if k == 1 {
        if s.len() > 1 {
            assert(is_ws(s[1]));
            assert(s.skip(1)[0] == s[1]);
            assert(take_tok(s.skip(1)) == Seq::<u8>::empty());
        } else {
            assert(s.skip(1).len() == 0);
            assert(take_tok(s.skip(1)) == Seq::<u8>::empty());
        }
        assert(take_tok(s) =~= s.subrange(0, 1));
    } else {
        let s1 = s.skip(1);
        assert(forall|m: int| 0 <= m < k - 1 ==> s1[m] == s[m + 1]);
        assert(k - 1 == s1.len() || is_ws(s1[k - 1]));
        lemma_take_tok_exact(s1, k - 1);
        assert(take_tok(s) == seq![s[0]] + s1.subrange(0, k - 1));
        assert(seq![s[0]] + s1.subrange(0, k - 1) =~= s.subrange(0, k));
    }
}

/// A line that starts with a whitespace-free token of length `k` (ended by
/// the line's end or a whitespace byte) tokenizes to that token followed
/// by the tokens of the rest.
proof fn lemma_tokens_token_front(s: Seq<u8>, k: int)
    requires
        1 <= k <= s.len(),
        forall|m: int| 0 <= m < k ==> !is_ws(#[trigger] s[m]),
        k == s.len() || is_ws(s[k]),
    ensures
        tokens(s) == seq![s.subrange(0, k)] + tokens(s.skip(k)),
{
    assert(skip_ws(s) == s);
    lemma_take_tok_exact(s, k);
    assert(take_tok(s).len() == k);
}

/// Collects the whitespace-separated tokens of `line`, in order.
pub fn tokenize(line: &Vec<u8>) -> (toks: Vec<Vec<u8>>)
    ensures
        toks@.map_values(|t: Vec<u8>| t@) == tokens(line@),
{
    let n = line.len();
    let mut toks: Vec<Vec<u8>> = Vec::new();
    let mut i: usize = 0;
    proof {
        assert(line@.skip(0) =~= line@);
    }
    while i < n
        invariant
            n == line@.len(),
            0 <= i <= n,
            tokens(line@) == toks@.map_values(|t: Vec<u8>| t@) + tokens(line@.skip(i as int)),
        decreases n - i,
    {
        let b = line[i];
        if crate::ascii::is_whitespace_byte(b) {
            proof {
                assert(line@.skip(i as int)[0] == line@[i as int]);
                lemma_tokens_ws_front(line@.skip(i as int));
                assert(line@.skip(i as int).skip(1) =~= line@.skip(i + 1));
            }
            i = i + 1;
        } else {
            let mut j: usize = i;
            while j < n && !crate::ascii::is_whitespace_byte(line[j])
                invariant
                    n == line@.len(),
                    i <= j <= n,
                    forall|m: int| i <= m < j ==> !is_ws(#[trigger] line@[m]),
                decreases n - j,
            {
                j = j + 1;
            }
            let mut tok: Vec<u8> = Vec::new();
            let mut p: usize = i;
            while p < j
                invariant
                    i <= p <= j <= n,
                    n == line@.len(),
                    tok@ =~= line@.subrange(i as int, p as int),
                decreases j - p,
            {
                tok.push(line[p]);
                proof {
                    assert(tok@ =~= line@.subrange(i as int, p + 1));
                }
                p = p + 1;
            }
            let ghost pre_toks = toks@;
            proof {
                let rest = line@.skip(i as int);
                assert(forall|m: int| 0 <= m < j - i ==> rest[m] == line@[m + i]);
                assert(j - i == rest.len() || is_ws(rest[j - i]));
                lemma_tokens_token_front(rest, j - i);
                assert(rest.subrange(0, j - i) =~= line@.subrange(i as int, j as int));
                assert(rest.skip(j - i) =~= line@.skip(j as int));
            }
            toks.push(tok);
            proof {
                assert(toks@ == pre_toks.push(tok));
                assert(toks@.map_values(|t: Vec<u8>| t@) =~= pre_toks.map_values(
                    |t: Vec<u8>| t@,
                ).push(tok@));
                assert((pre_toks.map_values(|t: Vec<u8>| t@) + seq![line@.subrange(
                    i as int,
                    j as int,
                )]) =~= toks@.map_values(|t: Vec<u8>| t@));
                assert((pre_toks.map_values(|t: Vec<u8>| t@) + (seq![line@.subrange(
                    i as int,
                    j as int,
                )] + tokens(line@.skip(j as int)))) =~= (toks@.map_values(|t: Vec<u8>| t@)
                    + tokens(line@.skip(j as int))));
            }
            i = j;
        }
    }
    proof {
        assert(line@.skip(i as int).len() == 0);
        assert(skip_ws(line@.skip(i as int)).len() == 0);
        assert(tokens(line@.skip(i as int)) == Seq::<Seq<u8>>::empty());
        assert(toks@.map_values(|t: Vec<u8>| t@) + Seq::<Seq<u8>>::empty() =~= toks@.map_values(
            |t: Vec<u8>| t@,
        ));
    }
    toks
}

/// What one persisted line means: the first token is the word's value, the
/// remaining tokens are its extension indices; a line without tokens, or
/// with a token that is no valid index, means no word.
pub open spec fn parse_ext_line(s: Seq<u8>) -> Option<(Seq<u8>, Seq<u32>)> {
    let toks = tokens(s);
    if toks.len() == 0 {
        None
    } else if forall|m: int| 1 <= m < toks.len() ==> is_u32_token(#[trigger] toks[m]) {
        Some((toks[0], Seq::new((toks.len() - 1) as nat, |m: int| token_u32(toks[m + 1]))))
    } else {
        None
    }
}

fn copy_bytes(v: &Vec<u8>) -> (r: Vec<u8>)
    ensures
        r@ == v@,
{
    let mut r: Vec<u8> = Vec::new();
    let mut i: usize = 0;
    while i < v.len()
        invariant
            0 <= i <= v@.len(),
            r@ =~= v@.subrange(0, i as int),
        decreases v@.len() - i,
    {
        r.push(v[i]);
        proof {
            assert(r@ =~= v@.subrange(0, i + 1));
        }
        i = i + 1;
    }
    proof {
        assert(v@.subrange(0, v@.len() as int) =~= v@);
    }
    r
}

/// Reads one persisted line back into a word: the first token becomes the
/// value, the remaining tokens its extension indices. Returns `None`, and
/// thereby discards the word, when the line has no tokens or any trailing
/// token fails to parse.
pub fn create_word_and_ext_from_line(line: &Vec<u8>) -> (r: Option<Word>)
    ensures
        r is Some <==> parse_ext_line(line@) is Some,
        r is Some ==> {
            let parsed = parse_ext_line(line@)->0;
            &&& r->0.value@ == parsed.0
            &&& r->0.extensions is Some
            &&& r->0.extensions->0@ == parsed.1
            &&& r->0.used == false
        },
{
    let toks = tokenize(line);
    let ghost tv = toks@.map_values(|t: Vec<u8>| t@);
    if toks.len() == 0 {
        return None;
    }
    let value = copy_bytes(&toks[0]);
    let mut extensions: Vec<u32> = Vec::new();
    let mut m: usize = 1;
    while m < toks.len()
        invariant
            1 <= m <= toks@.len(),
            tv == toks@.map_values(|t: Vec<u8>| t@),
            tv == tokens(line@),
            forall|mm: int| 1 <= mm < m ==> is_u32_token(#[trigger] tv[mm]),
            extensions@.len() == m - 1,
            forall|mm: int| 0 <= mm < m - 1 ==> extensions@[mm] == token_u32(#[trigger] tv[mm + 1]),
        decreases toks@.len() - m,
    {
        proof {
            assert(tv[m as int] == toks@[m as int]@);
        }
        match parse_u32(&toks[m]) {
            Some(e) => {
                extensions.push(e);
            },
            None => {
                proof {
                    assert(!is_u32_token(tv[m as int]));
                }
                return None;
            },
        }
        m = m + 1;
    }
    proof {
        assert(tv[0] == toks@[0]@);
        assert(extensions@ =~= Seq::new((tv.len() - 1) as nat, |mm: int| token_u32(tv[mm + 1])));
    }
    Some(Word { value, extensions: Some(extensions), used: false })
}

/// The words that loading a sequence of persisted lines yields, in order:
/// each line that parses contributes its value and extension list, and
/// every other line is dropped.
pub open spec fn loaded_words(ls: Seq<Seq<u8>>) -> Seq<(Seq<u8>, Seq<u32>)>
    decreases ls.len(),
{
    if ls.len() == 0 {
        Seq::empty()
    } else {
        loaded_words(ls.drop_last()) + (match parse_ext_line(ls.last()) {
            Some(p) => seq![p],
            None => Seq::empty(),
        })
    }
}

/// Loads a corpus from persisted `value [ext_index ...]` lines, dropping
/// each line that does not parse.
pub fn words_with_extensions_from_lines(lines: &Vec<Vec<u8>>) -> (c: WordCorpus)
    requires
        lines@.len() <= u32::MAX,
    ensures
        c.wf(),
        c.spec_len() == loaded_words(lines@.map_values(|l: Vec<u8>| l@)).len(),
        forall|i: int| 0 <= i < c.spec_len() ==> {
            let w = loaded_words(lines@.map_values(|l: Vec<u8>| l@))[i];
            &&& #[trigger] c.value_at(i) == w.0
            &&& c.has_exts(i)
            &&& c.exts_at(i) == w.1
            &&& !c.used_at(i)
        },
{
    let ghost lv = lines@.map_values(|l: Vec<u8>| l@);
    let mut c = WordCorpus::new();
    let mut i: usize = 0;
    proof {
        assert(lv.subrange(0, 0) =~= Seq::<Seq<u8>>::empty());
    }
    while i < lines.len()
        invariant
            0 <= i <= lines@.len(),
            lines@.len() <= u32::MAX,
            lv == lines@.map_values(|l: Vec<u8>| l@),
            c.spec_len() == loaded_words(lv.subrange(0, i as int)).len(),
            c.spec_len() <= i,
            forall|j: int| 0 <= j < c.spec_len() ==> {
                let w = loaded_words(lv.subrange(0, i as int))[j];
                &&& #[trigger] c.value_at(j) == w.0
                &&& c.has_exts(j)
                &&& c.exts_at(j) == w.1
                &&& !c.used_at(j)
            },
        decreases lines@.len() - i,
    {
        proof {
            assert(lv[i as int] == lines@[i as int]@);
            assert(lv.subrange(0, i + 1).drop_last() =~= lv.subrange(0, i as int));
            assert(lv.subrange(0, i + 1).last() == lv[i as int]);
        }
        let ghost pre = c;
        match create_word_and_ext_from_line(&lines[i]) {
            Some(w) => {
                let ghost wv = w;
                c.words.push(w);
                proof {
                    let lp = loaded_words(lv.subrange(0, i as int));
                    let p = parse_ext_line(lv[i as int])->0;
                    assert(loaded_words(lv.subrange(0, i + 1)) =~= lp.push(p));
                    assert(c.spec_len() == pre.spec_len() + 1);
                    assert(c.words@ == pre.words@.push(wv));
                    assert forall|j: int| 0 <= j < c.spec_len() implies {
                        let w2 = loaded_words(lv.subrange(0, i + 1))[j];
                        &&& #[trigger] c.value_at(j) == w2.0
                        &&& c.has_exts(j)
                        &&& c.exts_at(j) == w2.1
                        &&& !c.used_at(j)
                    } by {
                        if j < pre.spec_len() {
                            assert(c.words@[j] == pre.words@[j]);
                            assert(loaded_words(lv.subrange(0, i + 1))[j] == lp[j]);
                            assert(pre.value_at(j) == lp[j].0);
                        } else {
                            assert(c.words@[j] == wv);
                            assert(loaded_words(lv.subrange(0, i + 1))[j] == p);
                        }
                    }
                }
            },
            None => {
                proof {
                    assert(loaded_words(lv.subrange(0, i + 1)) =~= loaded_words(
                        lv.subrange(0, i as int),
                    ));
                }
            },
        }
        i = i + 1;
    }
    proof {
        assert(lv.subrange(0, lines@.len() as int) =~= lv);
    }
    c
}

/// The words a plain word-list yields: each line trimmed, blank lines
/// skipped, in order.
pub open spec fn plain_words(ls: Seq<Seq<u8>>) -> Seq<Seq<u8>>
    decreases ls.len(),
{
    if ls.len() == 0 {
        Seq::empty()
    } else {
        plain_words(ls.drop_last()) + (if trim_seq(ls.last()).len() > 0 {
            seq![trim_seq(ls.last())]
        } else {
            Seq::empty()
        })
    }
}

/// Loads a corpus from a plain word list: one word per line, trimmed,
/// blank lines skipped. No word has extensions yet.
pub fn words_from_lines(lines: &Vec<Vec<u8>>) -> (c: WordCorpus)
    requires
        lines@.len() <= u32::MAX,
    ensures
        c.wf(),
        c.spec_len() == plain_words(lines@.map_values(|l: Vec<u8>| l@)).len(),
        forall|i: int| 0 <= i < c.spec_len() ==> {
            &&& #[trigger] c.value_at(i) == plain_words(lines@.map_values(|l: Vec<u8>| l@))[i]
            &&& !c.has_exts(i)
            &&& !c.used_at(i)
        },
{
    let ghost lv = lines@.map_values(|l: Vec<u8>| l@);
    let mut c = WordCorpus::new();
    let mut i: usize = 0;
    proof {
        assert(lv.subrange(0, 0) =~= Seq::<Seq<u8>>::empty());
    }
    while i < lines.len()
        invariant
            0 <= i <= lines@.len(),
            lines@.len() <= u32::MAX,
            lv == lines@.map_values(|l: Vec<u8>| l@),
            c.spec_len() == plain_words(lv.subrange(0, i as int)).len(),
            c.spec_len() <= i,
            forall|j: int| 0 <= j < c.spec_len() ==> {
                &&& #[trigger] c.value_at(j) == plain_words(lv.subrange(0, i as int))[j]
                &&& !c.has_exts(j)
                &&& !c.used_at(j)
            },
        decreases lines@.len() - i,
    {
        proof {
            assert(lv[i as int] == lines@[i as int]@);
            assert(lv.subrange(0, i + 1).drop_last() =~= lv.subrange(0, i as int));
            assert(lv.subrange(0, i + 1).last() == lv[i as int]);
        }
        let t = crate::ascii::trim_string(&lines[i]);
        let ghost pre = c;
        if t.len() > 0 {
            let ghost tv = t@;
            c.push_word(t);
            proof {
                assert(plain_words(lv.subrange(0, i + 1)) =~= plain_words(
                    lv.subrange(0, i as int),
                ).push(tv));
                assert(forall|j: int| 0 <= j < pre.spec_len() ==> c.words@[j] == pre.words@[j]);
                assert(c.value_at(pre.spec_len()) == tv);
                assert forall|j: int| 0 <= j < c.spec_len() implies {
                    &&& #[trigger] c.value_at(j) == plain_words(lv.subrange(0, i + 1))[j]
                    &&& !c.has_exts(j)
                    &&& !c.used_at(j)
                } by {
                    if j < pre.spec_len() {
                        assert(c.words@[j] == pre.words@[j]);
                        assert(plain_words(lv.subrange(0, i + 1))[j] == plain_words(
                            lv.subrange(0, i as int),
                        )[j]);
                        assert(pre.value_at(j) == plain_words(lv.subrange(0, i as int))[j]);
                    } else {
                        assert(plain_words(lv.subrange(0, i + 1))[j] == tv);
                    }
                }
            }
        } else {
            proof {
                assert(plain_words(lv.subrange(0, i + 1)) =~= plain_words(
                    lv.subrange(0, i as int),
                ));
            }
        }
        i = i + 1;
    }
    proof {
        assert(lv.subrange(0, lines@.len() as int) =~= lv);
    }
    c
}

/// One whitespace-prefixed decimal index per extension: what follows the
/// value on a persisted line.
pub open spec fn fmt_ext_tail(exts: Seq<u32>) -> Seq<u8>
    decreases exts.len(),
{
    if exts.len() == 0 {
        Seq::empty()
    } else {
        seq![0x20u8] + dec_digits(exts[0] as int) + fmt_ext_tail(exts.skip(1))
    }
}

/// The persisted line of the word at `i`: its value, then its extension
/// indices if they were computed.
pub open spec fn word_line_spec(c: WordCorpus, i: int) -> Seq<u8> {
    c.value_at(i) + if c.has_exts(i) {
        fmt_ext_tail(c.exts_at(i))
    } else {
        Seq::empty()
    }
}

proof fn lemma_fmt_ext_tail_snoc(exts: Seq<u32>, e: u32)
    ensures
        fmt_ext_tail(exts.push(e)) == fmt_ext_tail(exts) + seq![0x20u8] + dec_digits(e as int),
    decreases exts.len(),
{
    if exts.len() == 0 {
        assert(exts.push(e)[0] == e);
        assert(exts.push(e).skip(1) =~= Seq::<u32>::empty());
        assert(fmt_ext_tail(Seq::<u32>::empty()) == Seq::<u8>::empty());
        assert(fmt_ext_tail(exts.push(e)) == seq![0x20u8] + dec_digits(e as int)
            + Seq::<u8>::empty());
        assert(fmt_ext_tail(exts.push(e)) =~= fmt_ext_tail(exts) + seq![0x20u8] + dec_digits(
            e as int,
        ));
    } else {
        assert(exts.push(e)[0] == exts[0]);
        assert(exts.push(e).skip(1) =~= exts.skip(1).push(e));
        lemma_fmt_ext_tail_snoc(exts.skip(1), e);
        assert(fmt_ext_tail(exts.push(e)) =~= fmt_ext_tail(exts) + seq![0x20u8] + dec_digits(
            e as int,
        ));
    }
}

proof fn lemma_dec_token(e: u32)
    ensures
        is_u32_token(dec_digits(e as int)),
        token_u32(dec_digits(e as int)) == e,
{
    lemma_dec_digits_ok(e as int);
    let d = dec_digits(e as int);
    assert(is_digit(d[0]));
    assert(d[0] != 0x2b);
    assert(digits_part(d) == d);
}

proof fn lemma_fmt_tokens(exts: Seq<u32>)
    ensures
        tokens(fmt_ext_tail(exts)) == Seq::new(exts.len(), |m: int| dec_digits(exts[m] as int)),
        fmt_ext_tail(exts).len() == 0 || fmt_ext_tail(exts)[0] == 0x20,
    decreases exts.len(),
{
    if exts.len() == 0 {
        assert(skip_ws(Seq::<u8>::empty()).len() == 0);
        assert(tokens(fmt_ext_tail(exts)) =~= Seq::new(
            exts.len(),
            |m: int| dec_digits(exts[m] as int),
        ));
    } else {
        let e = exts[0];
        let rest = exts.skip(1);
        let d = dec_digits(e as int);
        let f = fmt_ext_tail(rest);
        let s = fmt_ext_tail(exts);
        assert(s == seq![0x20u8] + d + f);
        lemma_dec_digits_ok(e as int);
        lemma_fmt_tokens(rest);
        assert(s[0] == 0x20);
        lemma_tokens_ws_front(s);
        assert(s.skip(1) =~= d + f);
        assert forall|m: int| 0 <= m < d.len() implies !is_ws(#[trigger] (d + f)[m]) by {
            assert((d + f)[m] == d[m]);
            assert(is_digit(d[m]));
        }
        if rest.len() == 0 {
            assert(f == Seq::<u8>::empty());
            assert(d.len() == (d + f).len());
        } else {
            assert(f[0] == 0x20);
            assert((d + f)[d.len() as int] == f[0]);
        }
        lemma_tokens_token_front(d + f, d.len() as int);
        assert((d + f).subrange(0, d.len() as int) =~= d);
        assert((d + f).skip(d.len() as int) =~= f);
        assert(tokens(s) == seq![d] + tokens(f));
        assert(tokens(s) =~= Seq::new(exts.len(), |m: int| dec_digits(exts[m] as int))) by {
            assert forall|m: int| 0 <= m < exts.len() implies (seq![d] + tokens(f))[m]
                == dec_digits(exts[m] as int) by {
                if m > 0 {
                    assert((seq![d] + tokens(f))[m] == tokens(f)[m - 1]);
                    assert(tokens(f)[m - 1] == dec_digits(rest[m - 1] as int));
                    assert(rest[m - 1] == exts[m]);
                }
            }
        }
    }
}

/// The round trip of one word: its persisted line parses back to the same
/// value and the same extension index list, in the same order. Holds for
/// every word whose value is non-empty and free of whitespace bytes.
pub proof fn lemma_word_line_round_trip(value: Seq<u8>, exts: Seq<u32>)
    requires
        value.len() >= 1,
        forall|m: int| 0 <= m < value.len() ==> !is_ws(#[trigger] value[m]),
    ensures
        parse_ext_line(value + fmt_ext_tail(exts)) is Some,
        (parse_ext_line(value + fmt_ext_tail(exts))->0).0 == value,
        (parse_ext_line(value + fmt_ext_tail(exts))->0).1 == exts,
{
    let f = fmt_ext_tail(exts);
    let s = value + f;
    lemma_fmt_tokens(exts);
    assert forall|m: int| 0 <= m < value.len() implies !is_ws(#[trigger] s[m]) by {
        assert(s[m] == value[m]);
    }
    if f.len() == 0 {
        assert(value.len() == s.len());
    } else {
        assert(s[value.len() as int] == f[0]);
    }
    lemma_tokens_token_front(s, value.len() as int);
    assert(s.subrange(0, value.len() as int) =~= value);
    assert(s.skip(value.len() as int) =~= f);
    let toks = tokens(s);
    assert(toks == seq![value] + tokens(f));
    assert(toks.len() == 1 + exts.len());
    assert forall|m: int| 1 <= m < toks.len() implies is_u32_token(#[trigger] toks[m]) by {
        assert(toks[m] == tokens(f)[m - 1]);
        assert(tokens(f)[m - 1] == dec_digits(exts[m - 1] as int));
        lemma_dec_token(exts[m - 1]);
    }
    assert(toks[0] == value);
    let parsed_exts = Seq::new((toks.len() - 1) as nat, |m: int| token_u32(toks[m + 1]));
    assert(parsed_exts =~= exts) by {
        assert forall|m: int| 0 <= m < exts.len() implies parsed_exts[m] == exts[m] by {
            assert(toks[m + 1] == tokens(f)[m]);
            assert(tokens(f)[m] == dec_digits(exts[m] as int));
            lemma_dec_token(exts[m]);
        }
    }
}

proof fn lemma_loaded_all_some(ls: Seq<Seq<u8>>)
    requires
        forall|m: int| 0 <= m < ls.len() ==> parse_ext_line(#[trigger] ls[m]) is Some,
    ensures
        loaded_words(ls).len() == ls.len(),
        forall|m: int| 0 <= m < ls.len() ==> loaded_words(ls)[m] == parse_ext_line(
            #[trigger] ls[m],
        )->0,
    decreases ls.len(),
{
    if ls.len() > 0 {
        let dl = ls.drop_last();
        assert(forall|m: int| 0 <= m < dl.len() ==> dl[m] == ls[m]);
        lemma_loaded_all_some(dl);
        let p = parse_ext_line(ls.last())->0;
        assert(loaded_words(ls) == loaded_words(dl) + seq![p]);
        assert forall|m: int| 0 <= m < ls.len() implies loaded_words(ls)[m] == parse_ext_line(
            #[trigger] ls[m],
        )->0 by {
            if m < ls.len() - 1 {
                assert(loaded_words(ls)[m] == loaded_words(dl)[m]);
                assert(dl[m] == ls[m]);
            } else {
                assert(loaded_words(ls)[m] == p);
            }
        }
    }
}

/// The persisted lines of a whole corpus, in corpus order.
pub open spec fn saved_lines(c: WordCorpus) -> Seq<Seq<u8>> {
    Seq::new(c.spec_len() as nat, |i: int| word_line_spec(c, i))
}

/// The round trip of a whole corpus: serializing every word's extension
/// line and loading the lines back yields the same words with the same
/// extension index lists, in the same order. Holds when every word has a
/// computed extension list and a non-empty, whitespace-free value.
pub proof fn lemma_save_load_round_trip(c: WordCorpus)
    requires
        forall|i: int| 0 <= i < c.spec_len() ==> (#[trigger] c.value_at(i)).len() >= 1,
        forall|i: int, m: int|
            0 <= i < c.spec_len() && 0 <= m < c.value_at(i).len() ==> !is_ws(
                #[trigger] c.value_at(i)[m],
            ),
        forall|i: int| 0 <= i < c.spec_len() ==> #[trigger] c.has_exts(i),
    ensures
        loaded_words(saved_lines(c)).len() == c.spec_len(),
        forall|i: int|
            #![trigger loaded_words(saved_lines(c))[i]]
            0 <= i < c.spec_len() ==> loaded_words(saved_lines(c))[i].0 == c.value_at(i)
                && loaded_words(saved_lines(c))[i].1 == c.exts_at(i),
{
    let ls = saved_lines(c);
    assert forall|m: int| 0 <= m < ls.len() implies parse_ext_line(#[trigger] ls[m]) is Some
        && (parse_ext_line(ls[m])->0).0 == c.value_at(m) && (parse_ext_line(ls[m])->0).1 == c.exts_at(
        m,
    ) by {
        assert(ls[m] == word_line_spec(c, m));
        assert(ls[m] == c.value_at(m) + fmt_ext_tail(c.exts_at(m)));
        lemma_word_line_round_trip(c.value_at(m), c.exts_at(m));
    }
    lemma_loaded_all_some(ls);
    assert forall|i: int| #![trigger loaded_words(saved_lines(c))[i]]
        0 <= i < c.spec_len() implies loaded_words(saved_lines(c))[i].0 == c.value_at(i)
        && loaded_words(saved_lines(c))[i].1 == c.exts_at(i) by {
        assert(loaded_words(ls)[i] == parse_ext_line(ls[i])->0);
    }
}

/// Serializes the corpus: one line per word, in corpus order, each holding
/// the word's value and, when computed, its extension indices in stored
/// order.
pub fn words_and_extensions_lines(words: &WordCorpus) -> (lines: Vec<Vec<u8>>)
    ensures
        lines@.len() == words.spec_len(),
        forall|i: int| 0 <= i < words.spec_len() ==> (#[trigger] lines@[i])@ == word_line_spec(
            *words,
            i,
        ),
{
    let n = words.len();
    let mut lines: Vec<Vec<u8>> = Vec::new();
    let mut i: usize = 0;
    while i < n
        invariant
            n == words.spec_len(),
            0 <= i <= n,
            lines@.len() == i,
            forall|j: int| 0 <= j < i ==> (#[trigger] lines@[j])@ == word_line_spec(*words, j),
        decreases n - i,
    {
        let mut buf = copy_bytes(words.word_value(i));
        match &words.words[i].extensions {
            Some(exts) => {
                let ghost ev = exts@;
                let mut m: usize = 0;
                proof {
                    assert(ev.subrange(0, 0) =~= Seq::<u32>::empty());
                    assert(buf@ =~= words.value_at(i as int) + fmt_ext_tail(ev.subrange(0, 0)));
                }
                while m < exts.len()
                    invariant
                        i < n,
                        n == words.spec_len(),
                        ev == exts@,
                        exts@ == words.exts_at(i as int),
                        words.has_exts(i as int),
                        0 <= m <= ev.len(),
                        buf@ == words.value_at(i as int) + fmt_ext_tail(ev.subrange(0, m as int)),
                    decreases ev.len() - m,
                {
                    let ghost pre_buf = buf@;
                    buf.push(0x20);
                    let digits = u32_to_dec(exts[m]);
                    let mut p: usize = 0;
                    while p < digits.len()
                        invariant
                            0 <= p <= digits@.len(),
                            buf@ =~= pre_buf + seq![0x20u8] + digits@.subrange(0, p as int),
                        decreases digits@.len() - p,
                    {
                        buf.push(digits[p]);
                        proof {
                            assert(buf@ =~= pre_buf + seq![0x20u8] + digits@.subrange(0, p + 1));
                        }
                        p = p + 1;
                    }
                    proof {
                        assert(digits@.subrange(0, digits@.len() as int) =~= digits@);
                        assert(ev.subrange(0, m + 1) =~= ev.subrange(0, m as int).push(ev[m as int]));
                        lemma_fmt_ext_tail_snoc(ev.subrange(0, m as int), ev[m as int]);
                        assert(buf@ =~= words.value_at(i as int) + fmt_ext_tail(
                            ev.subrange(0, m + 1),
                        ));
                    }
                    m = m + 1;
                }
                proof {
                    assert(ev.subrange(0, ev.len() as int) =~= ev);
                }
            },
            None => {
                proof {
                    assert(buf@ =~= word_line_spec(*words, i as int));
                }
            },
        }
        lines.push(buf);
        i = i + 1;
    }
    lines
}

} // verus!
