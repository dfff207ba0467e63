//! The terms of one document with their frequencies.

use vstd::prelude::*;

verus! {

/// One term with the number of its occurrences.
#[derive(Debug)]
pub struct TermCount {
    pub term: String,
    pub frequency: u64,
}

/// The terms of one document, each with its frequency.
#[derive(Debug)]
pub struct TermCounts {
    pub entries: Vec<TermCount>,
}

/// Whether `term` is the term of one of `pairs`.
pub open spec fn listed(pairs: Seq<(Seq<char>, u64)>, term: Seq<char>) -> bool {
    exists|i: int| 0 <= i < pairs.len() && (#[trigger] pairs[i]).0 == term
}

/// The frequency that `pairs` gives for `term`.
pub open spec fn frequency_of(pairs: Seq<(Seq<char>, u64)>, term: Seq<char>) -> nat {
    let i = choose|i: int| 0 <= i < pairs.len() && (#[trigger] pairs[i]).0 == term;
    pairs[i].1 as nat
}

/// The mapping from each term of `pairs` to its frequency.
pub open spec fn counts(pairs: Seq<(Seq<char>, u64)>) -> Map<Seq<char>, nat> {
    Map::new(|term: Seq<char>| listed(pairs, term), |term: Seq<char>| frequency_of(pairs, term))
}

/// No term is empty, no frequency is zero, and no term stands twice.
pub open spec fn valid_counts(pairs: Seq<(Seq<char>, u64)>) -> bool {
    &&& forall|i: int| 0 <= i < pairs.len() ==> (#[trigger] pairs[i]).0.len() > 0 && pairs[i].1 >= 1
    &&& forall|i: int, j: int|
        0 <= i < j < pairs.len() ==> (#[trigger] pairs[i]).0 != (#[trigger] pairs[j]).0
}

impl TermCounts {
    /// The entries as pairs of a term and its frequency.
    pub open spec fn pairs(&self) -> Seq<(Seq<char>, u64)> {
        Seq::new(self.entries@.len(), |i: int| (self.entries@[i].term@, self.entries@[i].frequency))
    }

    /// The entries can be stored as they are: see [`valid_counts`].
    pub open spec fn wf(&self) -> bool {
        valid_counts(self.pairs())
    }

    /// No terms.
    pub fn new() -> (counts: TermCounts)
        ensures
            counts.wf(),
            counts@ == Map::<Seq<char>, nat>::empty(),
            counts.pairs() == Seq::<(Seq<char>, u64)>::empty(),
    {
        let counts = TermCounts { entries: Vec::new() };
        assert(counts.pairs() =~= Seq::<(Seq<char>, u64)>::empty());
        assert(counts@ =~= Map::<Seq<char>, nat>::empty());
        counts
    }

    /// The number of entries, which is the number of distinct terms where
    /// the entries are valid.
    pub fn len(&self) -> (n: usize)
        ensures
            n == self.entries@.len(),
    {
        self.entries.len()
    }

    /// Whether there is no entry.
    pub fn is_empty(&self) -> (empty: bool)
        ensures
            empty == (self.entries@.len() == 0),
    {
        self.entries.len() == 0
    }

    /// The place of `term` among the entries.
    pub fn position(&self, term: &str) -> (place: Option<usize>)
        ensures
            match place {
                Some(k) => k < self.entries@.len() && self.entries@[k as int].term@ == term@
                    && forall|j: int| 0 <= j < k ==> self.entries@[j].term@ != term@,
                None => !listed(self.pairs(), term@),
            },
            place is Some <==> listed(self.pairs(), term@),
    {
        let mut k: usize = 0;
        while k < self.entries.len()
            invariant
                k <= self.entries@.len(),
                forall|j: int| 0 <= j < k ==> self.entries@[j].term@ != term@,
            decreases self.entries@.len() - k,
        {
            if *self.entries[k].term.as_str() == *term {
                assert(self.pairs()[k as int].0 == term@);
                return Some(k);
            }
            k += 1;
        }
        assert forall|j: int| 0 <= j < self.pairs().len() implies (#[trigger] self.pairs()[j]).0
            != term@ by {
            assert(self.entries@[j].term@ != term@);
        }
        None
    }

    /// The frequency recorded for `term`, if it is listed.
    pub fn get(&self, term: &str) -> (frequency: Option<u64>)
        ensures
            frequency is Some <==> listed(self.pairs(), term@),
            self.wf() && frequency is Some ==> self@.contains_key(term@) && self@[term@]
                == frequency->0,
            frequency is Some ==> exists|i: int|
                0 <= i < self.entries@.len() && self.entries@[i].term@ == term@
                    && self.entries@[i].frequency == frequency->0,
    {
        match self.position(term) {
            Some(k) => {
                proof {
                    assert(self.pairs()[k as int].0 == term@);
                    if self.wf() {
                        lemma_frequency_of(self.pairs(), k as int);
                    }
                }
                Some(self.entries[k].frequency)
            },
            None => None,
        }
    }
}

impl View for TermCounts {
    type V = Map<Seq<char>, nat>;

    /// The mapping from each listed term to its frequency.
    open spec fn view(&self) -> Map<Seq<char>, nat> {
        counts(self.pairs())
    }
}

/// Among valid pairs a term has the frequency of the one pair that lists it.
pub proof fn lemma_frequency_of(pairs: Seq<(Seq<char>, u64)>, i: int)
    requires
        valid_counts(pairs),
        0 <= i < pairs.len(),
    ensures
        listed(pairs, pairs[i].0),
        frequency_of(pairs, pairs[i].0) == pairs[i].1,
{
    let term = pairs[i].0;
    let k = choose|k: int| 0 <= k < pairs.len() && (#[trigger] pairs[k]).0 == term;
    assert(pairs[k].0 == term);
    if k < i {
        assert(pairs[k].0 != pairs[i].0);
    } else if i < k {
        assert(pairs[i].0 != pairs[k].0);
    }
}

} // verus!
