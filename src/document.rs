use vstd::prelude::*;

use crate::chars::same_chars;

verus! {

/// The table after counting one more occurrence of `t`.
pub open spec fn bump(m: Map<Seq<char>, nat>, t: Seq<char>) -> Map<Seq<char>, nat> {
    m.insert(t, if m.contains_key(t) { m[t] + 1 } else { 1 })
}

/// The occurrences of `t` in a table, zero where it is absent.
pub open spec fn count_in(m: Map<Seq<char>, nat>, t: Seq<char>) -> nat {
    if m.contains_key(t) {
        m[t]
    } else {
        0
    }
}

/// A term-frequency table: how often each term occurs.
pub struct Document {
    terms: Vec<Vec<char>>,
    counts: Vec<usize>,
    total: usize,
    table: Ghost<Map<Seq<char>, nat>>,
}

impl View for Document {
    type V = Map<Seq<char>, nat>;

    closed spec fn view(&self) -> Map<Seq<char>, nat> {
        self.table@
    }
}

impl Document {
    pub closed spec fn wf(&self) -> bool {
        &&& self.terms@.len() == self.counts@.len()
        &&& forall|i: int, j: int|
            0 <= i < j < self.terms@.len() ==> (#[trigger] self.terms@[i])@ != (#[trigger] self.terms@[j])@
        &&& forall|i: int|
            0 <= i < self.terms@.len() ==> self.table@.contains_key((#[trigger] self.terms@[i])@)
                && self.table@[self.terms@[i]@] == self.counts@[i]
        &&& forall|t: Seq<char>|
            #[trigger] self.table@.contains_key(t) ==> exists|i: int|
                0 <= i < self.terms@.len() && (#[trigger] self.terms@[i])@ == t
        &&& forall|i: int| 0 <= i < self.counts@.len() ==> #[trigger] self.counts@[i] <= self.total
    }

    /// How many occurrences were counted in all.
    pub closed spec fn total(&self) -> nat {
        self.total as nat
    }

    pub fn new() -> (r: Self)
        ensures
            r.wf(),
            r@ == Map::<Seq<char>, nat>::empty(),
            r.total() == 0,
    {
        Document { terms: Vec::new(), counts: Vec::new(), total: 0, table: Ghost(Map::empty()) }
    }

    fn position(&self, term: &Vec<char>) -> (r: Option<usize>)
        requires
            self.wf(),
        ensures
            match r {
                Some(i) => i < self.terms@.len() && self.terms@[i as int]@ == term@,
                None => !self@.contains_key(term@),
            },
    {
        let mut i: usize = 0;
        while i < self.terms.len()
            invariant
                self.wf(),
                i <= self.terms@.len(),
                forall|j: int| 0 <= j < i ==> (#[trigger] self.terms@[j])@ != term@,
            decreases self.terms@.len() - i,
        {
            if same_chars(&self.terms[i], term) {
                return Some(i);
            }
            i += 1;
        }
        None
    }

    /// The occurrences of `term`, zero where it is absent.
    pub fn count_of(&self, term: &Vec<char>) -> (r: usize)
        requires
            self.wf(),
        ensures
            r == count_in(self@, term@),
    {
        match self.position(term) {
            Some(i) => self.counts[i],
            None => 0,
        }
    }

    /// Whether `term` occurs at all.
    pub fn contains_term(&self, term: &Vec<char>) -> (r: bool)
        requires
            self.wf(),
        ensures
            r == self@.contains_key(term@),
    {
        self.position(term).is_some()
    }

    /// Counts one more occurrence of `term`.
    pub fn add_term(&mut self, term: Vec<char>)
        requires
            old(self).wf(),
            old(self).total() < usize::MAX,
        ensures
            final(self).wf(),
            final(self)@ == bump(old(self)@, term@),
            final(self).total() == old(self).total() + 1,
    {
        let ghost t = term@;
        let ghost before = *self;
        match self.position(&term) {
            Some(i) => {
                let c = self.counts[i];
                self.counts.set(i, c + 1);
            },
            None => {
                self.terms.push(term);
                self.counts.push(1);
            },
        }
        self.total = self.total + 1;
        self.table = Ghost(bump(self.table@, t));
        proof {
            assert forall|t2: Seq<char>| #[trigger] self.table@.contains_key(t2) implies exists|i: int|
                0 <= i < self.terms@.len() && (#[trigger] self.terms@[i])@ == t2 by {
                if !before.table@.contains_key(t2) {
                    assert(self.terms@[self.terms@.len() - 1]@ == t);
                } else {
                    let i = choose|i: int| 0 <= i < before.terms@.len() && (#[trigger] before.terms@[i])@ == t2;
                    assert(self.terms@[i] == before.terms@[i]);
                }
            }
        }
    }
}

} // verus!
