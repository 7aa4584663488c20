use vstd::prelude::*;

verus! {

/// The count that `groups` holds for group `g` (the sum over its pairs named `g`).
pub open spec fn count_in(groups: Seq<(String, usize)>, g: Seq<char>) -> nat
    decreases groups.len(),
{
    if groups.len() == 0 {
        0
    } else {
        let (name, n) = groups.last();
        count_in(groups.drop_last(), g) + if name@ == g {
            n as nat
        } else {
            0
        }
    }
}

/// No two pairs of `groups` have the same name.
pub open spec fn names_unique(groups: Seq<(String, usize)>) -> bool {
    forall|i: int, j: int|
        0 <= i < j < groups.len() ==> (#[trigger] groups[i]).0@ != (#[trigger] groups[j]).0@
}

proof fn lemma_count_bump(groups: Seq<(String, usize)>, i: int, v: usize, g: Seq<char>)
    requires
        0 <= i < groups.len(),
        v == groups[i].1 + 1,
    ensures
        count_in(groups.update(i, (groups[i].0, v)), g) == count_in(groups, g) + if groups[i].0@
            == g {
            1nat
        } else {
            0nat
        },
    decreases groups.len(),
{
    let up = groups.update(i, (groups[i].0, v));
    if i < groups.len() - 1 {
        assert(up.drop_last() == groups.drop_last().update(i, (groups[i].0, v)));
        lemma_count_bump(groups.drop_last(), i, v, g);
    } else {
        assert(up.drop_last() == groups.drop_last());
    }
}

/// Counts of a run: the entries found, the entries written, and the entries
/// written for each group, in the order the groups were first met.
pub struct ProcessingStats {
    pub total_channels: usize,
    pub processed_channels: usize,
    pub groups_created: Vec<(String, usize)>,
}

impl ProcessingStats {
    /// Each group is listed once, with a count that is positive and no
    /// greater than the entries written.
    pub open spec fn wf(&self) -> bool {
        &&& names_unique(self.groups_created@)
        &&& forall|i: int|
            0 <= i < self.groups_created@.len() ==> 0 < (#[trigger] self.groups_created@[i]).1
                <= self.processed_channels
    }

    /// The count of group `g`.
    pub open spec fn count(&self, g: Seq<char>) -> nat {
        count_in(self.groups_created@, g)
    }

    /// Statistics of a run that has found and written nothing.
    pub fn new() -> (r: ProcessingStats)
        ensures
            r.wf(),
            r.total_channels == 0,
            r.processed_channels == 0,
            r.groups_created@.len() == 0,
    {
        ProcessingStats { total_channels: 0, processed_channels: 0, groups_created: Vec::new() }
    }

    /// Counts one more entry written for group `group`: its count goes up by
    /// one (a group met for the first time is listed last), and so does the
    /// number of entries written.
    pub fn record(&mut self, group: &str)
        requires
            old(self).wf(),
            old(self).processed_channels < usize::MAX,
        ensures
            final(self).wf(),
            final(self).total_channels == old(self).total_channels,
            final(self).processed_channels == old(self).processed_channels + 1,
            forall|g: Seq<char>|
                #[trigger] final(self).count(g) == old(self).count(g) + if g == group@ {
                    1nat
                } else {
                    0nat
                },
            old(self).groups_created@.len() <= final(self).groups_created@.len()
                <= old(self).groups_created@.len() + 1,
            forall|i: int|
                0 <= i < old(self).groups_created@.len() ==> (
                #[trigger] final(self).groups_created@[i]).0@ == old(self).groups_created@[i].0@,
            final(self).groups_created@.len() > old(self).groups_created@.len()
                ==> final(self).groups_created@.last().0@ == group@,
    {
        let key = group.to_owned();
        let ghost before = self.groups_created@;
        let mut i: usize = 0;
        while i < self.groups_created.len()
            invariant
                self.groups_created@ == before,
                key@ == group@,
                before == old(self).groups_created@,
                self.processed_channels == old(self).processed_channels,
                self.total_channels == old(self).total_channels,
                old(self).wf(),
                old(self).processed_channels < usize::MAX,
                i <= before.len(),
                forall|t: int| 0 <= t < i ==> (#[trigger] before[t]).0@ != key@,
            decreases before.len() - i,
        {
            if self.groups_created[i].0 == key {
                let n = self.groups_created[i].1;
                assert(before[i as int].0@ == group@);
                assert(before[i as int].1 <= self.processed_channels);
                self.groups_created[i].1 = n + 1;
                assert(self.groups_created@ == before.update(i as int, (before[i as int].0, (n + 1) as usize)));
                assert forall|g: Seq<char>|
                    #[trigger] count_in(self.groups_created@, g) == count_in(before, g) + if g
                        == group@ {
                        1nat
                    } else {
                        0nat
                    } by {
                    lemma_count_bump(before, i as int, (n + 1) as usize, g);
                }
                self.processed_channels = self.processed_channels + 1;
                return;
            }
            i = i + 1;
        }
        self.groups_created.push((key, 1));
        assert(self.groups_created@.drop_last() == before);
        self.processed_channels = self.processed_channels + 1;
    }
}

} // verus!
