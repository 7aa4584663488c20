use vstd::prelude::*;

use crate::scan::{entries_of_text, extract_entries, records_view, EntryView};
use crate::stats::ProcessingStats;
use crate::writer::{file_after, generate_group_filename, group_file_name, updated_file};

verus! {

/// A directory of playlist files held in memory: each file name maps to the
/// file's content.
pub struct PlaylistFiles {
    files: Vec<(String, String)>,
    model: Ghost<Map<Seq<char>, Seq<char>>>,
}

impl View for PlaylistFiles {
    type V = Map<Seq<char>, Seq<char>>;

    closed spec fn view(&self) -> Map<Seq<char>, Seq<char>> {
        self.model@
    }
}

/// The content of file `name` in `d`, empty where there is no such file.
pub open spec fn content_or_empty(d: Map<Seq<char>, Seq<char>>, name: Seq<char>) -> Seq<char> {
    if d.contains_key(name) {
        d[name]
    } else {
        seq![]
    }
}

/// The directory after each of the entries has been written, in order, to
/// the file of its group.
pub open spec fn dir_after(d: Map<Seq<char>, Seq<char>>, es: Seq<EntryView>) -> Map<
    Seq<char>,
    Seq<char>,
>
    decreases es.len(),
{
    if es.len() == 0 {
        d
    } else {
        let prev = dir_after(d, es.drop_last());
        let e = es.last();
        let name = group_file_name(e.group);
        prev.insert(name, file_after(content_or_empty(prev, name), e.raw_entry))
    }
}

/// How many of the entries belong to group `g`.
pub open spec fn group_count(es: Seq<EntryView>, g: Seq<char>) -> nat
    decreases es.len(),
{
    if es.len() == 0 {
        0
    } else {
        group_count(es.drop_last(), g) + if es.last().group == g {
            1nat
        } else {
            0nat
        }
    }
}

impl PlaylistFiles {
    /// The files are listed once each, and the listing is the directory.
    pub closed spec fn wf(&self) -> bool {
        &&& forall|i: int, j: int|
            0 <= i < j < self.files@.len() ==> (#[trigger] self.files@[i]).0@ != (
            #[trigger] self.files@[j]).0@
        &&& forall|i: int|
            0 <= i < self.files@.len() ==> self.model@.contains_key((#[trigger] self.files@[i]).0@)
                && self.model@[self.files@[i].0@] == self.files@[i].1@
        &&& forall|k: Seq<char>|
            #[trigger] self.model@.contains_key(k) ==> exists|i: int|
                0 <= i < self.files@.len() && (#[trigger] self.files@[i]).0@ == k
    }

    /// An empty directory.
    pub fn new() -> (r: PlaylistFiles)
        ensures
            r.wf(),
            r@ == Map::<Seq<char>, Seq<char>>::empty(),
    {
        PlaylistFiles { files: Vec::new(), model: Ghost(Map::empty()) }
    }

    /// Where file `name` is listed.
    fn position(&self, name: &String) -> (r: Option<usize>)
        requires
            self.wf(),
        ensures
            r matches Some(i) ==> i < self.files@.len() && self.files@[i as int].0@ == name@,
            r is None ==> !self@.contains_key(name@),
    {
        let mut i: usize = 0;
        while i < self.files.len()
            invariant
                self.wf(),
                i <= self.files@.len(),
                forall|t: int| 0 <= t < i ==> (#[trigger] self.files@[t]).0@ != name@,
            decreases self.files@.len() - i,
        {
            if self.files[i].0 == *name {
                return Some(i);
            }
            i = i + 1;
        }
        None
    }

    /// The content of file `name`, if there is such a file.
    pub fn content(&self, name: &str) -> (r: Option<String>)
        requires
            self.wf(),
        ensures
            r matches Some(c) ==> self@.contains_key(name@) && c@ == self@[name@],
            r is None ==> !self@.contains_key(name@),
    {
        let key = name.to_owned();
        match self.position(&key) {
            Some(i) => Some(self.files[i].1.clone()),
            None => None,
        }
    }

    /// The number of files.
    pub fn len(&self) -> (r: usize)
        requires
            self.wf(),
        ensures
            r == self@.len(),
    {
        proof {
            self.lemma_len();
        }
        self.files.len()
    }

    proof fn lemma_len(&self)
        requires
            self.wf(),
        ensures
            self.files@.len() == self@.len(),
    {
        let names = self.files@.map_values(|p: (String, String)| p.0@);
        assert(self@.dom() == names.to_set()) by {
            assert forall|k: Seq<char>| self@.dom().contains(k) implies names.to_set().contains(k) by {
                let i = choose|i: int| 0 <= i < self.files@.len() && (#[trigger] self.files@[i]).0@ == k;
                assert(names[i] == k);
            }
            assert forall|k: Seq<char>| names.to_set().contains(k) implies self@.dom().contains(k) by {
                let i = choose|i: int| 0 <= i < names.len() && names[i] == k;
                assert(self.files@[i].0@ == k);
            }
        }
        assert(names.no_duplicates()) by {
            assert forall|i: int, j: int| 0 <= i < names.len() && 0 <= j < names.len() && i != j implies names[i] != names[j] by {
                if i < j {
                    assert(self.files@[i].0@ != self.files@[j].0@);
                } else {
                    assert(self.files@[j].0@ != self.files@[i].0@);
                }
            }
        }
        names.unique_seq_to_set();
    }

    /// Sets the content of file `name`, creating the file where it is missing.
    pub fn put(&mut self, name: &str, content: String)
        requires
            old(self).wf(),
        ensures
            final(self).wf(),
            final(self)@ == old(self)@.insert(name@, content@),
    {
        let key = name.to_owned();
        let ghost before = self.files@;
        let ghost model = self.model@.insert(name@, content@);
        match self.position(&key) {
            Some(i) => {
                self.files[i].1 = content;
                self.model = Ghost(model);
                assert forall|k: Seq<char>| #[trigger] self.model@.contains_key(k) implies exists|t: int|
                    0 <= t < self.files@.len() && (#[trigger] self.files@[t]).0@ == k by {
                    if k != name@ {
                        let t = choose|t: int| 0 <= t < before.len() && (#[trigger] before[t]).0@ == k;
                        assert(self.files@[t].0@ == k);
                    } else {
                        assert(self.files@[i as int].0@ == k);
                    }
                }
            },
            None => {
                self.files.push((key, content));
                self.model = Ghost(model);
                let ghost last = (self.files@.len() - 1) as int;
                assert forall|k: Seq<char>| #[trigger] self.model@.contains_key(k) implies exists|t: int|
                    0 <= t < self.files@.len() && (#[trigger] self.files@[t]).0@ == k by {
                    if k != name@ {
                        let t = choose|t: int| 0 <= t < before.len() && (#[trigger] before[t]).0@ == k;
                        assert(self.files@[t].0@ == k);
                    } else {
                        assert(self.files@[last].0@ == k);
                    }
                }
            },
        }
    }
}

/// Splits a playlist text into the files of `dir`: each entry is written to
/// the file of its group (see `file_after`), in order, and counted.
pub fn process_m3u_content(content: &str, dir: &mut PlaylistFiles) -> (stats: ProcessingStats)
    requires
        old(dir).wf(),
    ensures
        final(dir).wf(),
        final(dir)@ == dir_after(old(dir)@, entries_of_text(content@)),
        stats.wf(),
        stats.total_channels == entries_of_text(content@).len(),
        stats.processed_channels == stats.total_channels,
        forall|g: Seq<char>| #[trigger] stats.count(g) == group_count(entries_of_text(content@), g),
{
    let records = extract_entries(content);
    let ghost es = entries_of_text(content@);
    let mut stats = ProcessingStats::new();
    stats.total_channels = records.len();
    let ghost d0 = dir@;
    for k in 0..records.len()
        invariant
            records_view(records@) == es,
            dir.wf(),
            dir@ == dir_after(d0, es.take(k as int)),
            stats.wf(),
            stats.total_channels == es.len(),
            stats.processed_channels == k,
            forall|g: Seq<char>| #[trigger] stats.count(g) == group_count(es.take(k as int), g),
    {
        let rec = &records[k];
        let ghost e = es[k as int];
        assert(rec@ == e);
        assert(es.take(k + 1).drop_last() == es.take(k as int));
        assert(es.take(k + 1).last() == e);
        let name = generate_group_filename(rec.group.as_str());
        let old_content = match dir.content(name.as_str()) {
            Some(c) => c,
            None => String::new(),
        };
        assert(old_content@ == content_or_empty(dir@, name@));
        let next = updated_file(old_content.as_str(), rec.raw_entry.as_str());
        dir.put(name.as_str(), next);
        stats.record(rec.group.as_str());
    }
    assert(es.take(records.len() as int) == es);
    stats
}

} // verus!
