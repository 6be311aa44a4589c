//! The chain builder: a sequential greedy walker that consumes the corpus's
//! precomputed extension lists and assembles the portmantout string, under
//! the minimum-overlap, word-reuse and maximum-chain-length policies.
//!
//! The live overlap recomputation here is ASCII-case-insensitive and keeps
//! the longest match found while scanning upward, unlike the precompute
//! phase's exact, longest-first scan; both behaviours are kept on purpose.

use vstd::prelude::*;
use crate::ascii::{to_lower, lower_seq, lower_byte};
use crate::corpus::WordCorpus;
use crate::options::ProgramOptions;

verus! {

/// The per-run chain state: how many words were appended so far and the
/// hard cap the counter may never pass.
pub struct PortmantoutState {
    pub chain: i64,
    pub max_chain: i64,
}

impl PortmantoutState {
    /// The chain counter stays between zero and the cap.
    pub open spec fn wf(self) -> bool {
        0 <= self.chain <= self.max_chain
    }

    pub fn new(max: i64) -> (s: PortmantoutState)
        requires
            max >= 0,
        ensures
            s.chain == 0,
            s.max_chain == max,
            s.wf(),
    {
        PortmantoutState { chain: 0, max_chain: max }
    }

    pub fn inc_chain(&mut self)
        requires
            old(self).chain < old(self).max_chain,
        ensures
            final(self).chain == old(self).chain + 1,
            final(self).max_chain == old(self).max_chain,
    {
        self.chain = self.chain + 1;
    }

    pub fn at_max(&self) -> (r: bool)
        ensures
            r == (self.chain >= self.max_chain),
    {
        self.chain >= self.max_chain
    }
}

/// A case-insensitive overlap of length `k`: the last `k` bytes of `a`,
/// lowercased, equal the first `k` bytes of `b`, lowercased.
pub open spec fn is_ci_overlap(a: Seq<u8>, b: Seq<u8>, k: int) -> bool {
    1 <= k <= a.len() && k <= b.len() && lower_seq(a.subrange(a.len() - k, a.len() as int))
        == lower_seq(b.subrange(0, k))
}

/// The largest case-insensitive overlap length of `a` and `b` that is at
/// most `m`, or zero when none exists.
pub open spec fn best_overlap_upto(a: Seq<u8>, b: Seq<u8>, m: int) -> int
    decreases m,
{
    if m < 1 {
        0
    } else if is_ci_overlap(a, b, m) {
        m
    } else {
        best_overlap_upto(a, b, m - 1)
    }
}

/// The longest case-insensitive overlap between a suffix of `a` and a
/// prefix of `b`, or zero when no length matches.
pub open spec fn best_overlap(a: Seq<u8>, b: Seq<u8>) -> int {
    best_overlap_upto(a, b, if a.len() <= b.len() { a.len() as int } else { b.len() as int })
}

/// What a committed append adds to the output buffer: the part of the new
/// word beyond the matched overlap.
pub open spec fn remainder_of(a: Seq<u8>, b: Seq<u8>) -> Seq<u8> {
    b.subrange(best_overlap(a, b), b.len() as int)
}

/// Whether appending `b` after `a` commits: some overlap matched, the
/// overlap does not swallow `b` whole, and the remainder is long enough.
pub open spec fn append_ok(a: Seq<u8>, b: Seq<u8>, min_overlap: int) -> bool {
    let m = best_overlap(a, b);
    m >= 1 && m < b.len() && b.len() - m >= min_overlap
}

/// Whether the case-insensitive overlap of length `k` holds, checked byte
/// by byte.
fn ci_match_at(last_word: &Vec<u8>, new_word: &Vec<u8>, k: usize) -> (r: bool)
    requires
        1 <= k <= last_word@.len(),
        k <= new_word@.len(),
    ensures
        r == is_ci_overlap(last_word@, new_word@, k as int),
{
    let base = last_word.len() - k;
    let mut p: usize = base;
    while p < last_word.len()
        invariant
            1 <= k <= last_word@.len(),
            k <= new_word@.len(),
            base == last_word@.len() - k,
            base <= p <= last_word@.len(),
            forall|m: int|
                base <= m < p ==> to_lower(last_word@[m]) == to_lower(new_word@[m - base]),
        decreases last_word@.len() - p,
    {
        if lower_byte(last_word[p]) != lower_byte(new_word[p - base]) {
            proof {
                let sa = last_word@.subrange(base as int, last_word@.len() as int);
                let sb = new_word@.subrange(0, k as int);
                assert(lower_seq(sa)[p - base] == to_lower(last_word@[p as int]));
                assert(lower_seq(sb)[p - base] == to_lower(new_word@[p - base]));
            }
            return false;
        }
        p = p + 1;
    }
    proof {
        let sa = last_word@.subrange(base as int, last_word@.len() as int);
        let sb = new_word@.subrange(0, k as int);
        assert forall|m: int| 0 <= m < k implies lower_seq(sa)[m] == lower_seq(sb)[m] by {
            assert(sa[m] == last_word@[base + m]);
            assert(sb[m] == new_word@[m]);
        }
        assert(lower_seq(sa) =~= lower_seq(sb));
    }
    true
}

/// One append attempt. Scans every candidate overlap length upward, keeps
/// the longest case-insensitive match, and commits the remainder to `pbuf`
/// exactly when the append policy holds; otherwise leaves `pbuf` alone.
pub fn append_portmantout_word(
    last_word: &Vec<u8>,
    new_word: &Vec<u8>,
    pbuf: &mut Vec<u8>,
    options: &ProgramOptions,
) -> (ok: bool)
    ensures
        ok == append_ok(last_word@, new_word@, options.minimum_overlap as int),
        ok ==> final(pbuf)@ == old(pbuf)@ + remainder_of(last_word@, new_word@),
        ok ==> remainder_of(last_word@, new_word@).len() >= options.minimum_overlap,
        !ok ==> final(pbuf)@ == old(pbuf)@,
{
    let mut plength: usize = 0;
    let mut matched_plength: usize = 0;
    let mut is_match = false;
    while plength < last_word.len() && plength < new_word.len()
        invariant
            0 <= plength,
            plength <= last_word@.len(),
            plength <= new_word@.len(),
            matched_plength == best_overlap_upto(last_word@, new_word@, plength as int),
            is_match == (matched_plength > 0),
            matched_plength <= plength,
        decreases last_word@.len() - plength,
    {
        let k = plength + 1;
        if ci_match_at(last_word, new_word, k) {
            is_match = true;
            matched_plength = k;
        }
        plength = k;
    }
    proof {
        let mn: int = if last_word@.len() <= new_word@.len() {
            last_word@.len() as int
        } else {
            new_word@.len() as int
        };
        assert(plength as int == mn);
        assert(matched_plength == best_overlap(last_word@, new_word@));
    }
    if is_match {
        if matched_plength < new_word.len() {
            let rem_len = new_word.len() - matched_plength;
            if rem_len >= options.minimum_overlap {
                let ghost pre = pbuf@;
                let mut t: usize = matched_plength;
                while t < new_word.len()
                    invariant
                        matched_plength <= t <= new_word@.len(),
                        pbuf@ =~= pre + new_word@.subrange(matched_plength as int, t as int),
                    decreases new_word@.len() - t,
                {
                    pbuf.push(new_word[t]);
                    proof {
                        assert(pbuf@ =~= pre + new_word@.subrange(matched_plength as int, t + 1));
                    }
                    t = t + 1;
                }
                return true;
            }
        }
    }
    false
}

/// Relies on rand::random: draws a value of a type the standard
/// distribution covers. Nothing is promised of the drawn value.
pub assume_specification<T>[ rand::random::<T> ]() -> (r: T)
    where
        rand::distributions::Standard: rand::distributions::Distribution<T>,
;

/// Whether the candidate at corpus index `t` would commit as the next link
/// after `last`: it passes the reuse policy and the append policy.
pub open spec fn can_append_candidate(
    c: WordCorpus,
    last: int,
    t: int,
    min_overlap: int,
    allow_reuse: bool,
) -> bool {
    (allow_reuse || !c.used_at(t)) && append_ok(c.value_at(last), c.value_at(t), min_overlap)
}

/// The candidate order of one advance step: the `o`-th index tried when the
/// scan starts at offset `r` into a degree-`d` extension list.
pub open spec fn cyclic_index(r: int, o: int, d: int) -> int {
    if r + o < d {
        r + o
    } else {
        r + o - d
    }
}

/// One advance step. Fails (returns `None`, changing nothing) when the
/// extension list of `last_word_idx` is empty, when the chain cap is
/// reached, or when no candidate commits; every candidate is tried once,
/// in cyclic order from a random starting offset. On success the committed
/// word is marked used, the chain counter is incremented, the remainder is
/// appended to `pbuf`, and the new word's index is returned.
pub fn build_portmantout(
    last_word_idx: usize,
    words: &mut WordCorpus,
    pbuf: &mut Vec<u8>,
    state: &mut PortmantoutState,
    options: &ProgramOptions,
) -> (r: Option<usize>)
    requires
        old(words).wf(),
        old(words).exts_valid(),
        last_word_idx < old(words).spec_len(),
        old(words).has_exts(last_word_idx as int),
        old(state).wf(),
    ensures
        final(words).wf(),
        final(words).exts_valid(),
        final(words).spec_len() == old(words).spec_len(),
        forall|j: int| 0 <= j < old(words).spec_len() ==>
            #[trigger] final(words).value_at(j) == old(words).value_at(j)
            && final(words).has_exts(j) == old(words).has_exts(j)
            && final(words).exts_at(j) == old(words).exts_at(j),
        final(state).max_chain == old(state).max_chain,
        final(state).wf(),
        r is None ==> *final(words) == *old(words) && final(pbuf)@ == old(pbuf)@ && *final(state)
            == *old(state),
        r is None && old(words).exts_at(last_word_idx as int).len() > 0 && old(state).chain
            < old(state).max_chain ==> forall|m: int|
            0 <= m < old(words).exts_at(last_word_idx as int).len()
                ==> !can_append_candidate(
                *old(words),
                last_word_idx as int,
                #[trigger] old(words).exts_at(last_word_idx as int)[m] as int,
                options.minimum_overlap as int,
                options.allow_word_reuse,
            ),
        r is Some ==> {
            let t = r->0 as int;
            &&& 0 <= t < old(words).spec_len()
            &&& t != last_word_idx as int
            &&& old(words).exts_at(last_word_idx as int).contains(r->0 as u32)
            &&& old(words).exts_at(last_word_idx as int).len() > 0
            &&& old(state).chain < old(state).max_chain
            &&& can_append_candidate(
                *old(words),
                last_word_idx as int,
                t,
                options.minimum_overlap as int,
                options.allow_word_reuse,
            )
            &&& final(pbuf)@ == old(pbuf)@ + remainder_of(
                old(words).value_at(last_word_idx as int),
                old(words).value_at(t),
            )
            &&& remainder_of(old(words).value_at(last_word_idx as int), old(words).value_at(t)).len()
                >= options.minimum_overlap
            &&& final(words).used_at(t)
            &&& forall|j: int| 0 <= j < old(words).spec_len() && j != t ==>
                #[trigger] final(words).used_at(j) == old(words).used_at(j)
            &&& final(state).chain == old(state).chain + 1
        },
{
    let d = words.exts_len(last_word_idx);
    if d < 1 {
        return None;
    }
    if state.at_max() {
        return None;
    }
    let r_rand_idx = rand::random::<usize>() % d;
    proof {
        assert(r_rand_idx < d);
    }
    let mut r_idx_offset: usize = 0;
    while r_idx_offset < d
        invariant
            words.wf(),
            words.exts_valid(),
            last_word_idx < words.spec_len(),
            words.has_exts(last_word_idx as int),
            d == words.exts_at(last_word_idx as int).len(),
            r_rand_idx < d,
            0 <= r_idx_offset <= d,
            *words == *old(words),
            pbuf@ == old(pbuf)@,
            *state == *old(state),
            old(state).chain < old(state).max_chain,
            old(state).wf(),
            forall|o: int|
                0 <= o < r_idx_offset ==> !can_append_candidate(
                    *old(words),
                    last_word_idx as int,
                    old(words).exts_at(last_word_idx as int)[#[trigger] cyclic_index(
                        r_rand_idx as int,
                        o,
                        d as int,
                    )] as int,
                    options.minimum_overlap as int,
                    options.allow_word_reuse,
                ),
        decreases d - r_idx_offset,
    {
        let r_idx = if r_idx_offset < d - r_rand_idx {
            r_rand_idx + r_idx_offset
        } else {
            r_idx_offset - (d - r_rand_idx)
        };
        proof {
            assert(r_idx as int == cyclic_index(r_rand_idx as int, r_idx_offset as int, d as int));
            assert(r_idx < d);
        }
        let ext32 = words.ext_at(last_word_idx, r_idx);
        let extension = ext32 as usize;
        proof {
            assert(words.exts_at(last_word_idx as int)[r_idx as int] == ext32);
            assert((ext32 as int) < words.spec_len() && ext32 as int != last_word_idx as int);
        }
        if options.allow_word_reuse || !words.is_used(extension) {
            let ok = append_portmantout_word(
                words.word_value(last_word_idx),
                words.word_value(extension),
                pbuf,
                options,
            );
            if ok {
                words.mark_used(extension);
                state.inc_chain();
                proof {
                    assert(old(words).exts_at(last_word_idx as int).contains(ext32)) by {
                        assert(old(words).exts_at(last_word_idx as int)[r_idx as int] == ext32);
                    }
                    assert forall|i: int, m: int|
                        0 <= i < words.spec_len() && words.has_exts(i) && 0 <= m < words.exts_at(
                            i,
                        ).len() implies ((#[trigger] words.exts_at(i)[m] as int)
                        < words.spec_len() && words.exts_at(i)[m] as int != i) by {
                        assert(words.value_at(i) == old(words).value_at(i));
                        assert(old(words).exts_at(i)[m] == words.exts_at(i)[m]);
                    }
                }
                return Some(extension);
            }
        }
        r_idx_offset = r_idx_offset + 1;
    }
    proof {
        assert forall|m: int| 0 <= m < d implies !can_append_candidate(
            *old(words),
            last_word_idx as int,
            old(words).exts_at(last_word_idx as int)[m] as int,
            options.minimum_overlap as int,
            options.allow_word_reuse,
        ) by {
            let r: int = r_rand_idx as int;
            let o: int = if m >= r {
                m - r
            } else {
                m + d - r
            };
            assert(0 <= o < d);
            assert(cyclic_index(r, o, d as int) == m);
            assert(!can_append_candidate(
                *old(words),
                last_word_idx as int,
                old(words).exts_at(last_word_idx as int)[cyclic_index(r, o, d as int)] as int,
                options.minimum_overlap as int,
                options.allow_word_reuse,
            ));
        }
    }
    None
}

/// The corpus index a chain of appended targets ends at: the start word
/// when nothing was appended yet, else the last appended target.
pub open spec fn last_of(start: int, ts: Seq<usize>) -> int {
    if ts.len() == 0 {
        start
    } else {
        ts.last() as int
    }
}

/// The word the `m`-th append of a chain run was appended after.
pub open spec fn chain_prev(start: int, ts: Seq<usize>, m: int) -> int {
    if m == 0 {
        start
    } else {
        ts[m - 1] as int
    }
}

/// Whether corpus index `j` occurs among the appended targets `ts`.
pub open spec fn appears(ts: Seq<usize>, j: int) -> bool {
    exists|m: int| 0 <= m < ts.len() && ts[m] as int == j
}

/// What a chain run starting at `prev` and committing the targets `ts`, in
/// order, adds to the output buffer: the concatenation of the remainders
/// of the consecutive appends.
pub open spec fn chain_remainders(c: WordCorpus, prev: int, ts: Seq<usize>) -> Seq<u8>
    decreases ts.len(),
{
    if ts.len() == 0 {
        Seq::empty()
    } else {
        remainder_of(c.value_at(prev), c.value_at(ts[0] as int)) + chain_remainders(
            c,
            ts[0] as int,
            ts.skip(1),
        )
    }
}

proof fn lemma_chain_remainders_push(c: WordCorpus, prev: int, ts: Seq<usize>, t: usize)
    ensures
        chain_remainders(c, prev, ts.push(t)) == chain_remainders(c, prev, ts) + remainder_of(
            c.value_at(last_of(prev, ts)),
            c.value_at(t as int),
        ),
    decreases ts.len(),
{
    if ts.len() == 0 {
        assert(ts.push(t)[0] == t);
        assert(ts.push(t).skip(1) =~= Seq::<usize>::empty());
        assert(chain_remainders(c, t as int, Seq::empty()) == Seq::<u8>::empty());
        assert(chain_remainders(c, prev, ts) == Seq::<u8>::empty());
        assert(chain_remainders(c, prev, ts.push(t)) =~= chain_remainders(c, prev, ts)
            + remainder_of(c.value_at(last_of(prev, ts)), c.value_at(t as int)));
    } else {
        assert(ts.push(t)[0] == ts[0]);
        assert(ts.push(t).skip(1) =~= ts.skip(1).push(t));
        lemma_chain_remainders_push(c, ts[0] as int, ts.skip(1), t);
        if ts.len() == 1 {
            assert(ts.skip(1) =~= Seq::<usize>::empty());
            assert(last_of(ts[0] as int, ts.skip(1)) == ts[0] as int);
            assert(last_of(prev, ts) == ts[0] as int);
        } else {
            assert(ts.skip(1).last() == ts.last());
            assert(last_of(ts[0] as int, ts.skip(1)) == last_of(prev, ts));
        }
        let r0 = remainder_of(c.value_at(prev), c.value_at(ts[0] as int));
        let mid = chain_remainders(c, ts[0] as int, ts.skip(1));
        let rt = remainder_of(c.value_at(last_of(prev, ts)), c.value_at(t as int));
        assert(chain_remainders(c, prev, ts.push(t)) == r0 + (mid + rt));
        assert(r0 + (mid + rt) =~= (r0 + mid) + rt);
    }
}

/// A full chain run. Starting from `start_idx`, repeatedly advances until
/// an advance fails, and returns the list of committed targets in order.
/// The chain counter grows by one per committed target and never passes
/// the cap; each committed target was a listed extension of the word
/// before it, with a remainder at least `minimum_overlap` long; with word
/// reuse disallowed no target is committed twice; and `pbuf` grows by
/// exactly the concatenation of the committed remainders.
pub fn build_full_portmantout(
    start_idx: usize,
    words: &mut WordCorpus,
    pbuf: &mut Vec<u8>,
    state: &mut PortmantoutState,
    options: &ProgramOptions,
) -> (appended: Vec<usize>)
    requires
        old(words).wf(),
        old(words).exts_valid(),
        old(words).fully_extended(),
        start_idx < old(words).spec_len(),
        old(state).wf(),
    ensures
        final(words).wf(),
        final(words).exts_valid(),
        final(words).fully_extended(),
        final(words).spec_len() == old(words).spec_len(),
        forall|j: int| 0 <= j < old(words).spec_len() ==>
            #[trigger] final(words).value_at(j) == old(words).value_at(j)
            && final(words).has_exts(j) == old(words).has_exts(j)
            && final(words).exts_at(j) == old(words).exts_at(j),
        final(state).max_chain == old(state).max_chain,
        final(state).wf(),
        final(state).chain == old(state).chain + appended@.len(),
        forall|m: int| 0 <= m < appended@.len() ==> (#[trigger] appended@[m] as int)
            < old(words).spec_len(),
        forall|m: int|
            0 <= m < appended@.len() ==> old(words).exts_at(
                chain_prev(start_idx as int, appended@, m),
            ).contains(#[trigger] appended@[m] as u32),
        forall|m: int|
            0 <= m < appended@.len() ==> append_ok(
                old(words).value_at(chain_prev(start_idx as int, appended@, m)),
                old(words).value_at(#[trigger] appended@[m] as int),
                options.minimum_overlap as int,
            ),
        forall|m: int|
            0 <= m < appended@.len() ==> remainder_of(
                old(words).value_at(chain_prev(start_idx as int, appended@, m)),
                old(words).value_at(#[trigger] appended@[m] as int),
            ).len() >= options.minimum_overlap,
        !options.allow_word_reuse ==> forall|m1: int, m2: int|
            0 <= m1 < m2 < appended@.len() ==> appended@[m1] != appended@[m2],
        !options.allow_word_reuse ==> forall|m: int|
            0 <= m < appended@.len() ==> !old(words).used_at(#[trigger] appended@[m] as int),
        final(pbuf)@ == old(pbuf)@ + chain_remainders(*old(words), start_idx as int, appended@),
        forall|j: int| 0 <= j < old(words).spec_len() ==> #[trigger] final(words).used_at(j) == (
        old(words).used_at(j) || appears(appended@, j)),
        final(state).chain >= final(state).max_chain || final(words).exts_at(
            last_of(start_idx as int, appended@),
        ).len() == 0 || forall|m: int|
            0 <= m < final(words).exts_at(last_of(start_idx as int, appended@)).len()
                ==> !can_append_candidate(
                *final(words),
                last_of(start_idx as int, appended@),
                #[trigger] final(words).exts_at(last_of(start_idx as int, appended@))[m] as int,
                options.minimum_overlap as int,
                options.allow_word_reuse,
            ),
{
    let mut appended: Vec<usize> = Vec::new();
    let mut last_word_idx = start_idx;
    let mut done = false;
    while !done
        invariant
            words.wf(),
            words.exts_valid(),
            words.fully_extended(),
            words.spec_len() == old(words).spec_len(),
            start_idx < words.spec_len(),
            forall|j: int| 0 <= j < old(words).spec_len() ==>
                #[trigger] words.value_at(j) == old(words).value_at(j)
                && words.has_exts(j) == old(words).has_exts(j)
                && words.exts_at(j) == old(words).exts_at(j),
            state.max_chain == old(state).max_chain,
            state.wf(),
            state.chain == old(state).chain + appended@.len(),
            old(state).wf(),
            last_word_idx < words.spec_len(),
            last_word_idx as int == last_of(start_idx as int, appended@),
            forall|m: int| 0 <= m < appended@.len() ==> (#[trigger] appended@[m] as int)
                < old(words).spec_len(),
            forall|m: int|
                0 <= m < appended@.len() ==> old(words).exts_at(
                    chain_prev(start_idx as int, appended@, m),
                ).contains(#[trigger] appended@[m] as u32),
            forall|m: int|
                0 <= m < appended@.len() ==> append_ok(
                    old(words).value_at(chain_prev(start_idx as int, appended@, m)),
                    old(words).value_at(#[trigger] appended@[m] as int),
                    options.minimum_overlap as int,
                ),
            forall|m: int|
                0 <= m < appended@.len() ==> remainder_of(
                    old(words).value_at(chain_prev(start_idx as int, appended@, m)),
                    old(words).value_at(#[trigger] appended@[m] as int),
                ).len() >= options.minimum_overlap,
            !options.allow_word_reuse ==> forall|m1: int, m2: int|
                0 <= m1 < m2 < appended@.len() ==> appended@[m1] != appended@[m2],
            !options.allow_word_reuse ==> forall|m: int|
                0 <= m < appended@.len() ==> !old(words).used_at(#[trigger] appended@[m] as int),
            pbuf@ == old(pbuf)@ + chain_remainders(*old(words), start_idx as int, appended@),
            forall|j: int| 0 <= j < old(words).spec_len() ==> #[trigger] words.used_at(j) == (
            old(words).used_at(j) || appears(appended@, j)),
            done ==> state.chain >= state.max_chain || words.exts_at(
                last_word_idx as int,
            ).len() == 0 || forall|m: int|
                0 <= m < words.exts_at(last_word_idx as int).len() ==> !can_append_candidate(
                    *words,
                    last_word_idx as int,
                    #[trigger] words.exts_at(last_word_idx as int)[m] as int,
                    options.minimum_overlap as int,
                    options.allow_word_reuse,
                ),
        decreases (if done { 0int } else { 1int }), state.max_chain - state.chain,
    {
        let ghost pre_words = *words;
        let ghost pre_state = *state;
        let ghost pre_appended = appended@;
        let step = build_portmantout(last_word_idx, words, pbuf, state, options);
        match step {
            Some(t) => {
                proof {
                    lemma_chain_remainders_push(
                        *old(words),
                        start_idx as int,
                        pre_appended,
                        t,
                    );
                }
                appended.push(t);
                proof {
                    let ts = appended@;
                    assert(ts == pre_appended.push(t));
                    assert(ts.last() == t);
                    assert(ts[ts.len() - 1] == t);
                    // frame transfer: the step's remainder is over values that
                    // equal the values of the corpus as the run began
                    assert(pre_words.value_at(last_word_idx as int) == old(words).value_at(
                        last_word_idx as int,
                    ));
                    assert(pre_words.value_at(t as int) == old(words).value_at(t as int));
                    assert(pre_words.exts_at(last_word_idx as int) == old(words).exts_at(
                        last_word_idx as int,
                    ));
                    assert forall|i: int| 0 <= i < words.spec_len() implies #[trigger] words.has_exts(
                        i,
                    ) by {
                        assert(words.value_at(i) == pre_words.value_at(i));
                        assert(pre_words.has_exts(i));
                    }
                    // each earlier entry is unchanged by the push
                    assert(forall|m: int| 0 <= m < pre_appended.len() ==> ts[m] == pre_appended[m]);
                    assert(forall|m: int|
                        0 < m < ts.len() ==> chain_prev(start_idx as int, ts, m) == ts[m - 1] as int);
                    assert(chain_prev(start_idx as int, ts, ts.len() - 1) == last_word_idx as int);
                    assert forall|m: int|
                        0 <= m < pre_appended.len() implies chain_prev(start_idx as int, ts, m)
                        == chain_prev(start_idx as int, pre_appended, m) by {}
                    // membership in the new target list
                    assert forall|j: int| #![trigger appears(ts, j)]
                        0 <= j < words.spec_len() implies appears(ts, j) == (appears(
                        pre_appended,
                        j,
                    ) || j == t as int) by {
                        if appears(pre_appended, j) {
                            let m = choose|m: int|
                                0 <= m < pre_appended.len() && pre_appended[m] as int == j;
                            assert(ts[m] as int == j);
                        }
                        if j == t as int {
                            assert(ts[ts.len() - 1] as int == j);
                        }
                        if appears(ts, j) {
                            let m = choose|m: int| 0 <= m < ts.len() && ts[m] as int == j;
                            if m < pre_appended.len() {
                                assert(pre_appended[m] as int == j);
                            }
                        }
                    }
                    if !options.allow_word_reuse {
                        // the committed target was unused before this step,
                        // so it cannot be among the earlier targets
                        assert(!pre_words.used_at(t as int));
                        assert(!appears(pre_appended, t as int));
                        assert(!old(words).used_at(t as int));
                        assert forall|m1: int, m2: int|
                            0 <= m1 < m2 < ts.len() implies ts[m1] != ts[m2] by {
                            if m2 < pre_appended.len() {
                                assert(pre_appended[m1] == ts[m1] && pre_appended[m2] == ts[m2]);
                            } else {
                                assert(ts[m2] == t);
                                assert(appears(pre_appended, ts[m1] as int)) by {
                                    assert(pre_appended[m1] as int == ts[m1] as int);
                                }
                            }
                        }
                    }
                }
                last_word_idx = t;
            },
            None => {
                done = true;
            },
        }
    }
    appended
}

} // verus!
