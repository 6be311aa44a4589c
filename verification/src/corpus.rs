//! The shared data model: a word with its computed adjacency list and its
//! used flag, and the index-stable corpus of words.

use vstd::prelude::*;

verus! {

/// One corpus entry. `value` is immutable once loaded; `extensions`, once
/// computed, lists the indices of the words this word can precede; `used`
/// records whether the word was already consumed as a chain link.
pub struct Word {
    pub value: Vec<u8>,
    pub extensions: Option<Vec<u32>>,
    pub used: bool,
}

/// An ordered, index-stable collection of words. Indices 0..len are the
/// stable identifiers that extension lists store.
pub struct WordCorpus {
    pub words: Vec<Word>,
}

impl WordCorpus {
    /// Number of words.
    pub open spec fn spec_len(self) -> int {
        self.words@.len() as int
    }

    /// The value of the word at index `i`.
    pub open spec fn value_at(self, i: int) -> Seq<u8> {
        self.words@[i].value@
    }

    /// Whether the word at `i` has a computed extension list.
    pub open spec fn has_exts(self, i: int) -> bool {
        self.words@[i].extensions is Some
    }

    /// The extension list of the word at `i`.
    pub open spec fn exts_at(self, i: int) -> Seq<u32> {
        self.words@[i].extensions->0@
    }

    /// The used flag of the word at `i`.
    pub open spec fn used_at(self, i: int) -> bool {
        self.words@[i].used
    }

    /// Small enough that an index fits in the `u32` an extension list stores.
    pub open spec fn wf(self) -> bool {
        self.spec_len() <= u32::MAX
    }

    /// Every stored extension index is a valid corpus index and never its
    /// own owner's index.
    pub open spec fn exts_valid(self) -> bool {
        forall|i: int, m: int|
            0 <= i < self.spec_len() && self.has_exts(i) && 0 <= m < self.exts_at(i).len()
                ==> (#[trigger] self.exts_at(i)[m] as int) < self.spec_len() && self.exts_at(
                i,
            )[m] as int != i
    }

    /// Every word has a computed (possibly empty) extension list.
    pub open spec fn fully_extended(self) -> bool {
        forall|i: int| 0 <= i < self.spec_len() ==> #[trigger] self.has_exts(i)
    }

    /// An empty corpus.
    pub fn new() -> (c: WordCorpus)
        ensures
            c.spec_len() == 0,
    {
        WordCorpus { words: Vec::new() }
    }

    pub fn len(&self) -> (n: usize)
        ensures
            n == self.spec_len(),
    {
        self.words.len()
    }

    /// Appends a fresh word: no extensions yet, not used.
    pub fn push_word(&mut self, value: Vec<u8>)
        ensures
            final(self).spec_len() == old(self).spec_len() + 1,
            final(self).words@ == old(self).words@.push(
                (Word { value, extensions: None, used: false }),
            ),
    {
        self.words.push(Word { value, extensions: None, used: false });
    }

    /// Appends a word together with an already-known extension list.
    pub fn push_word_with_exts(&mut self, value: Vec<u8>, exts: Vec<u32>)
        ensures
            final(self).spec_len() == old(self).spec_len() + 1,
            final(self).words@ == old(self).words@.push(
                (Word { value, extensions: Some(exts), used: false }),
            ),
    {
        self.words.push(Word { value, extensions: Some(exts), used: false });
    }

    /// Stores the computed extension list of the word at `i`, leaving its
    /// value and used flag alone.
    pub fn set_extensions(&mut self, i: usize, exts: Vec<u32>)
        requires
            i < old(self).spec_len(),
        ensures
            final(self).spec_len() == old(self).spec_len(),
            final(self).has_exts(i as int),
            final(self).exts_at(i as int) == exts@,
            forall|j: int| 0 <= j < old(self).spec_len() ==>
                #[trigger] final(self).value_at(j) == old(self).value_at(j)
                && final(self).used_at(j) == old(self).used_at(j),
            forall|j: int| 0 <= j < old(self).spec_len() && j != i ==>
                #[trigger] final(self).words@[j] == old(self).words@[j],
    {
        let w = &mut self.words[i];
        w.extensions = Some(exts);
    }

    /// Marks the word at `i` as consumed.
    pub fn mark_used(&mut self, i: usize)
        requires
            i < old(self).spec_len(),
        ensures
            final(self).spec_len() == old(self).spec_len(),
            final(self).used_at(i as int),
            forall|j: int| 0 <= j < old(self).spec_len() ==>
                #[trigger] final(self).value_at(j) == old(self).value_at(j)
                && final(self).has_exts(j) == old(self).has_exts(j)
                && final(self).exts_at(j) == old(self).exts_at(j),
            forall|j: int| 0 <= j < old(self).spec_len() && j != i ==>
                #[trigger] final(self).used_at(j) == old(self).used_at(j),
    {
        let w = &mut self.words[i];
        w.used = true;
    }

    /// The value of the word at `i`.
    pub fn word_value(&self, i: usize) -> (v: &Vec<u8>)
        requires
            i < self.spec_len(),
        ensures
            v@ == self.value_at(i as int),
    {
        &self.words[i].value
    }

    /// The used flag of the word at `i`.
    pub fn is_used(&self, i: usize) -> (r: bool)
        requires
            i < self.spec_len(),
        ensures
            r == self.used_at(i as int),
    {
        self.words[i].used
    }

    /// The degree of the word at `i`: how many extension candidates it has.
    pub fn exts_len(&self, i: usize) -> (n: usize)
        requires
            i < self.spec_len(),
            self.has_exts(i as int),
        ensures
            n == self.exts_at(i as int).len(),
    {
        match &self.words[i].extensions {
            Some(e) => e.len(),
            None => {
                proof {
                    assert(false);
                }
                0
            },
        }
    }

    /// The `m`-th stored extension index of the word at `i`.
    pub fn ext_at(&self, i: usize, m: usize) -> (e: u32)
        requires
            i < self.spec_len(),
            self.has_exts(i as int),
            m < self.exts_at(i as int).len(),
        ensures
            e == self.exts_at(i as int)[m as int],
    {
        match &self.words[i].extensions {
            Some(ex) => ex[m],
            None => {
                proof {
                    assert(false);
                }
                0
            },
        }
    }

    /// Checks that every stored extension index is valid: in range and
    /// never pointing at its own word. A corpus loaded from an untrusted
    /// source is validated with this before chain building.
    pub fn validate(&self) -> (ok: bool)
        requires
            self.wf(),
        ensures
            ok == self.exts_valid(),
    {
        let n = self.words.len();
        let mut i: usize = 0;
        while i < n
            invariant
                n == self.spec_len(),
                self.wf(),
                0 <= i <= n,
                forall|ii: int, m: int|
                    0 <= ii < i && self.has_exts(ii) && 0 <= m < self.exts_at(ii).len()
                        ==> (#[trigger] self.exts_at(ii)[m] as int) < n as int && self.exts_at(
                        ii,
                    )[m] as int != ii,
            decreases n - i,
        {
            match &self.words[i].extensions {
                Some(exts) => {
                    let mut m: usize = 0;
                    while m < exts.len()
                        invariant
                            n == self.spec_len(),
                            self.wf(),
                            i < n,
                            exts@ == self.exts_at(i as int),
                            self.has_exts(i as int),
                            0 <= m <= exts@.len(),
                            forall|mm: int| 0 <= mm < m ==>
                                (#[trigger] exts@[mm] as int) < n as int && exts@[mm] as int != i as int,
                        decreases exts@.len() - m,
                    {
                        let e = exts[m];
                        if (e as usize) >= n || (e as usize) == i {
                            proof {
                                assert(self.exts_at(i as int)[m as int] == e);
                            }
                            return false;
                        }
                        m = m + 1;
                    }
                },
                None => {},
            }
            i = i + 1;
        }
        true
    }
}

} // verus!
