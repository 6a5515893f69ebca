use vstd::prelude::*;

verus! {

/// A string→handle index with last-write-wins semantics: when the same
/// string is registered twice, lookup finds the later registration.
pub struct LabelIndex {
    pub pairs: Vec<(String, usize)>,
}

/// Last-write-wins lookup: the handle of the latest pair carrying `label`.
pub open spec fn lookup_in(pairs: Seq<(String, usize)>, label: Seq<char>) -> Option<usize>
    decreases pairs.len(),
{
    if pairs.len() == 0 {
        Option::None
    } else if pairs.last().0@ == label {
        Option::Some(pairs.last().1)
    } else {
        lookup_in(pairs.drop_last(), label)
    }
}

/// A successful lookup hands back the handle of one of the pairs, and that
/// pair carries the looked-up string.
pub proof fn lemma_lookup_in_range(pairs: Seq<(String, usize)>, label: Seq<char>)
    ensures
        lookup_in(pairs, label) matches Some(h) ==> exists|m: int|
            0 <= m < pairs.len() && (#[trigger] pairs[m]).1 == h && pairs[m].0@ == label,
    decreases pairs.len(),
{
    if pairs.len() == 0 {
    } else if pairs.last().0@ == label {
        assert(pairs[pairs.len() - 1].1 == pairs.last().1);
        assert(pairs[pairs.len() - 1].0@ == label);
    } else {
        lemma_lookup_in_range(pairs.drop_last(), label);
        if lookup_in(pairs, label) is Some {
            let h = lookup_in(pairs, label)->Some_0;
            let m = choose|m: int|
                0 <= m < pairs.drop_last().len() && (#[trigger] pairs.drop_last()[m]).1 == h
                    && pairs.drop_last()[m].0@ == label;
            assert(pairs[m].1 == h);
            assert(pairs[m].0@ == label);
        }
    }
}

/// With pairwise-distinct strings and `pairs[m].1 == m`, each string
/// resolves to its own position.
pub proof fn lemma_unique_lookup(pairs: Seq<(String, usize)>, i: int)
    requires
        forall|m1: int, m2: int|
            0 <= m1 < m2 < pairs.len() ==> (#[trigger] pairs[m1]).0@ != (#[trigger] pairs[m2]).0@,
        forall|m: int| 0 <= m < pairs.len() ==> (#[trigger] pairs[m]).1 as int == m,
        0 <= i < pairs.len(),
    ensures
        lookup_in(pairs, pairs[i].0@) == Option::Some(pairs[i].1),
    decreases pairs.len(),
{
    if i == pairs.len() - 1 {
    } else {
        assert(pairs.last().0@ != pairs[i].0@);
        assert forall|m1: int, m2: int|
            0 <= m1 < m2 < pairs.drop_last().len()
                implies (#[trigger] pairs.drop_last()[m1]).0@
                    != (#[trigger] pairs.drop_last()[m2]).0@ by {
            assert(pairs.drop_last()[m1] == pairs[m1]);
            assert(pairs.drop_last()[m2] == pairs[m2]);
        }
        lemma_unique_lookup(pairs.drop_last(), i);
    }
}

impl LabelIndex {
    /// What `lookup` returns for `label`.
    pub open spec fn lookup_spec(&self, label: Seq<char>) -> Option<usize> {
        lookup_in(self.pairs@, label)
    }

    /// Every registered handle is below `n`.
    pub open spec fn handles_below(&self, n: int) -> bool {
        forall|m: int| 0 <= m < self.pairs@.len() ==> ((#[trigger] self.pairs@[m]).1 as int) < n
    }

    pub fn new() -> (idx: LabelIndex)
        ensures
            idx.pairs@.len() == 0,
    {
        LabelIndex { pairs: Vec::new() }
    }

    /// Register `label -> handle`; a later registration of the same label
    /// wins on lookup.
    pub fn insert(&mut self, label: String, handle: usize)
        ensures
            final(self).pairs@ == old(self).pairs@.push((label, handle)),
    {
        self.pairs.push((label, handle));
    }

    /// Resolve `label` to the most recently registered handle for it.
    pub fn lookup(&self, label: &String) -> (r: Option<usize>)
        ensures
            r == self.lookup_spec(label@),
    {
        let mut j: usize = self.pairs.len();
        proof {
            assert(self.pairs@.take(self.pairs@.len() as int) =~= self.pairs@);
        }
        while j > 0
            invariant
                j as int <= self.pairs@.len(),
                lookup_in(self.pairs@.take(j as int), label@) == lookup_in(self.pairs@, label@),
            decreases j as int,
        {
            j = j - 1;
            let p: &(String, usize) = &self.pairs[j];
            proof {
                assert(self.pairs@.take(j as int + 1).last() == self.pairs@[j as int]);
                assert(self.pairs@.take(j as int + 1).drop_last() =~= self.pairs@.take(j as int));
            }
            if *label == p.0 {
                return Option::Some(p.1);
            }
        }
        Option::None
    }
}

} // verus!
