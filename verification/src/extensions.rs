//! The extension-discovery engine: for every word of the corpus, find all
//! other words whose prefix equals some suffix of that word, and write the
//! resulting adjacency lists back into the corpus.

use vstd::prelude::*;
use crate::corpus::WordCorpus;

verus! {

/// Word `a` extends to word `b`: some non-empty suffix of `a` equals, byte
/// for byte, the prefix of `b` of the same length.
pub open spec fn extends_to(a: Seq<u8>, b: Seq<u8>) -> bool {
    exists|k: int|
        1 <= k <= a.len() && k <= b.len() && a.subrange(a.len() - k, a.len() as int)
            == b.subrange(0, k)
}

/// A strictly increasing index list: each entry is larger than the one
/// before it, so no index appears twice and corpus order is kept.
pub open spec fn strictly_increasing(s: Seq<u32>) -> bool {
    forall|m1: int, m2: int| 0 <= m1 < m2 < s.len() ==> s[m1] < s[m2]
}

/// Whether `b` starts with the suffix of `a` that begins at `start`.
fn suffix_is_prefix(a: &Vec<u8>, start: usize, b: &Vec<u8>) -> (r: bool)
    requires
        start < a@.len(),
    ensures
        r == (a@.len() - start <= b@.len() && a@.subrange(start as int, a@.len() as int)
            == b@.subrange(0, a@.len() - start)),
{
    let k = a.len() - start;
    if k > b.len() {
        return false;
    }
    let mut p: usize = start;
    while p < a.len()
        invariant
            start < a@.len(),
            k == a@.len() - start,
            k <= b@.len(),
            start <= p <= a@.len(),
            forall|m: int| start <= m < p ==> a@[m] == b@[m - start],
        decreases a@.len() - p,
    {
        if a[p] != b[p - start] {
            proof {
                assert(a@.subrange(start as int, a@.len() as int)[p - start] == a@[p as int]);
                assert(b@.subrange(0, k as int)[p - start] == b@[p - start]);
            }
            return false;
        }
        p = p + 1;
    }
    proof {
        assert(a@.subrange(start as int, a@.len() as int) =~= b@.subrange(0, k as int));
    }
    true
}

/// Whether `a` extends to `b`: scans candidate suffixes of `a` from the
/// longest down, as the precompute phase does, and stops at the first hit.
pub fn word_extends(a: &Vec<u8>, b: &Vec<u8>) -> (r: bool)
    ensures
        r == extends_to(a@, b@),
{
    let mut check_start: usize = 0;
    while check_start < a.len()
        invariant
            0 <= check_start <= a@.len(),
            forall|cs: int|
                0 <= cs < check_start ==> !(a@.len() - cs <= b@.len() && a@.subrange(
                    cs,
                    a@.len() as int,
                ) == b@.subrange(0, a@.len() - cs)),
        decreases a@.len() - check_start,
    {
        if suffix_is_prefix(a, check_start, b) {
            proof {
                let k = a@.len() - check_start;
                assert(1 <= k <= a@.len() && k <= b@.len() && a@.subrange(
                    a@.len() - k,
                    a@.len() as int,
                ) == b@.subrange(0, k));
            }
            return true;
        }
        check_start = check_start + 1;
    }
    proof {
        assert(!extends_to(a@, b@)) by {
            if extends_to(a@, b@) {
                let k = choose|k: int|
                    1 <= k <= a@.len() && k <= b@.len() && a@.subrange(a@.len() - k, a@.len() as int)
                        == b@.subrange(0, k);
                let cs = a@.len() - k;
                assert(!(a@.len() - cs <= b@.len() && a@.subrange(cs, a@.len() as int)
                    == b@.subrange(0, a@.len() - cs)));
            }
        }
    }
    false
}

/// The indices of all words that the word at `word_idx` extends to, paired
/// with `word_idx` itself so the result is a self-contained unit of work.
/// The list holds exactly the indices `j != word_idx` with
/// `extends_to(value(word_idx), value(j))`, in increasing order.
pub fn find_extensions_for(word_idx: usize, words: &WordCorpus) -> (r: (usize, Vec<u32>))
    requires
        words.wf(),
        word_idx < words.spec_len(),
    ensures
        r.0 == word_idx,
        strictly_increasing(r.1@),
        forall|m: int| 0 <= m < r.1@.len() ==> (#[trigger] r.1@[m] as int) < words.spec_len(),
        forall|j: int|
            0 <= j < words.spec_len() ==> (#[trigger] r.1@.contains(j as u32) <==> (j != word_idx
                && extends_to(words.value_at(word_idx as int), words.value_at(j)))),
{
    let n = words.len();
    let mut extensions: Vec<u32> = Vec::new();
    let a = &words.words[word_idx].value;
    let mut idx: usize = 0;
    while idx < n
        invariant
            words.wf(),
            word_idx < n,
            n == words.spec_len(),
            a@ == words.value_at(word_idx as int),
            0 <= idx <= n,
            strictly_increasing(extensions@),
            forall|m: int| 0 <= m < extensions@.len() ==> (#[trigger] extensions@[m] as int) < idx as int,
            forall|j: int|
                0 <= j < idx ==> (#[trigger] extensions@.contains(j as u32) <==> (j != word_idx
                    && extends_to(words.value_at(word_idx as int), words.value_at(j)))),
        decreases n - idx,
    {
        if idx != word_idx {
            let b = &words.words[idx].value;
            let found = word_extends(a, b);
            if found {
                let ghost old_exts = extensions@;
                extensions.push(idx as u32);
                proof {
                    assert(extensions@ == old_exts.push(idx as u32));
                    assert forall|x: u32| #[trigger] extensions@.contains(x) implies old_exts.contains(x)
                        || x == idx as u32 by {
                        let m = choose|m: int|
                            0 <= m < extensions@.len() && extensions@[m] == x;
                        if m < old_exts.len() {
                            assert(old_exts[m] == x);
                        }
                    }
                    assert forall|x: u32| old_exts.contains(x) implies #[trigger] extensions@.contains(
                        x,
                    ) by {
                        let m = choose|m: int| 0 <= m < old_exts.len() && old_exts[m] == x;
                        assert(extensions@[m] == x);
                    }
                    assert(extensions@.contains(idx as u32)) by {
                        assert(extensions@[extensions@.len() - 1] == idx as u32);
                    }
                }
            } else {
                proof {
                    assert(!extensions@.contains(idx as u32)) by {
                        if extensions@.contains(idx as u32) {
                            let m = choose|m: int|
                                0 <= m < extensions@.len() && extensions@[m] == idx as u32;
                        }
                    }
                }
            }
        } else {
            proof {
                assert(!extensions@.contains(idx as u32)) by {
                    if extensions@.contains(idx as u32) {
                        let m = choose|m: int|
                            0 <= m < extensions@.len() && extensions@[m] == idx as u32;
                    }
                }
            }
        }
        idx = idx + 1;
    }
    (word_idx, extensions)
}

/// Populates every word's extension list: after the call each word `i`
/// holds exactly the indices `j != i` with `extends_to(value(i), value(j))`.
/// Values and used flags are untouched.
pub fn find_all_extensions(words: &mut WordCorpus)
    requires
        old(words).wf(),
    ensures
        final(words).wf(),
        final(words).spec_len() == old(words).spec_len(),
        forall|j: int| 0 <= j < old(words).spec_len() ==>
            final(words).value_at(j) == old(words).value_at(j)
            && final(words).used_at(j) == old(words).used_at(j),
        final(words).fully_extended(),
        final(words).exts_valid(),
        forall|i: int, j: int|
            0 <= i < final(words).spec_len() && 0 <= j < final(words).spec_len() ==> (
            #[trigger] final(words).exts_at(i).contains(j as u32) <==> (j != i && extends_to(
                final(words).value_at(i),
                final(words).value_at(j),
            ))),
{
    let n = words.len();
    let mut i: usize = 0;
    while i < n
        invariant
            words.wf(),
            n == words.spec_len(),
            0 <= i <= n,
            forall|j: int| 0 <= j < n ==>
                words.value_at(j) == old(words).value_at(j)
                && words.used_at(j) == old(words).used_at(j),
            forall|ii: int| 0 <= ii < i ==> #[trigger] words.has_exts(ii),
            forall|ii: int, m: int|
                0 <= ii < i && 0 <= m < words.exts_at(ii).len()
                    ==> (#[trigger] words.exts_at(ii)[m] as int) < n as int && words.exts_at(
                    ii,
                )[m] as int != ii,
            forall|ii: int, j: int|
                0 <= ii < i && 0 <= j < n ==> (#[trigger] words.exts_at(ii).contains(j as u32)
                    <==> (j != ii && extends_to(words.value_at(ii), words.value_at(j)))),
        decreases n - i,
    {
        let r = find_extensions_for(i, words);
        let exts = r.1;
        proof {
            assert forall|m: int| 0 <= m < exts@.len() implies (#[trigger] exts@[m] as int)
                < n as int && exts@[m] as int != i as int by {
                let j: int = exts@[m] as int;
                assert(exts@.contains(j as u32)) by {
                    assert(exts@[m] == j as u32);
                }
            }
        }
        let ghost pre = *words;
        words.set_extensions(i, exts);
        proof {
            assert(words.exts_at(i as int) == exts@);
            assert forall|ii: int| 0 <= ii < i + 1 implies #[trigger] words.has_exts(ii) by {
                if ii != i {
                    assert(words.words@[ii] == pre.words@[ii]);
                    assert(pre.has_exts(ii));
                }
            }
            assert forall|ii: int, m: int|
                0 <= ii < i + 1 && 0 <= m < words.exts_at(ii).len() implies (
            #[trigger] words.exts_at(ii)[m] as int) < n as int && words.exts_at(ii)[m] as int
                != ii by {
                if ii != i {
                    assert(words.words@[ii] == pre.words@[ii]);
                    assert(words.exts_at(ii) == pre.exts_at(ii));
                }
            }
            assert forall|ii: int, j: int|
                0 <= ii < i + 1 && 0 <= j < n implies (#[trigger] words.exts_at(ii).contains(
                j as u32,
            ) <==> (j != ii && extends_to(words.value_at(ii), words.value_at(j)))) by {
                assert(words.value_at(ii) == pre.value_at(ii));
                assert(words.value_at(j) == pre.value_at(j));
                if ii != i {
                    assert(words.words@[ii] == pre.words@[ii]);
                    assert(words.exts_at(ii) == pre.exts_at(ii));
                    assert(pre.exts_at(ii).contains(j as u32) <==> (j != ii && extends_to(
                        pre.value_at(ii),
                        pre.value_at(j),
                    )));
                } else {
                    assert(exts@.contains(j as u32) <==> (j != i && extends_to(
                        pre.value_at(i as int),
                        pre.value_at(j),
                    )));
                }
            }
        }
        i = i + 1;
    }
}

} // verus!
