//! The manifest of a split: which shard files were made for which input.

use vstd::prelude::*;
use crate::text::{str_eq, views};

verus! {

/// The shard files of one input file.
#[derive(Debug, Clone, PartialEq, Eq)]
pub struct ManifestEntry {
    pub filename: String,
    pub shard_names: Vec<String>,
}

/// The shard files of every input file, by the input's file name. A name
/// occurs once: a later input of the same name takes the place of the
/// earlier one.
#[derive(Debug, Clone, PartialEq, Eq)]
pub struct Manifest {
    pub entries: Vec<ManifestEntry>,
}

/// The file names of a list of entries.
pub open spec fn entry_names(entries: Seq<ManifestEntry>) -> Seq<Seq<char>> {
    Seq::new(entries.len(), |i: int| entries[i].filename@)
}

/// The position of the entry of `name`, where there is one.
pub open spec fn entry_of(entries: Seq<ManifestEntry>, name: Seq<char>) -> int {
    choose|i: int| 0 <= i < entries.len() && (#[trigger] entries[i]).filename@ == name
}

impl View for Manifest {
    type V = Map<Seq<char>, Seq<Seq<char>>>;

    /// The manifest as a map from an input's file name to the names of its
    /// shards.
    open spec fn view(&self) -> Map<Seq<char>, Seq<Seq<char>>> {
        Map::new(
            |name: Seq<char>| entry_names(self.entries@).contains(name),
            |name: Seq<char>| views(self.entries@[entry_of(self.entries@, name)].shard_names@),
        )
    }
}

impl Manifest {
    /// No file name occurs twice.
    pub open spec fn wf(&self) -> bool {
        entry_names(self.entries@).no_duplicates()
    }

    /// A manifest without entries.
    pub fn new() -> (m: Manifest)
        ensures
            m.wf(),
            m@ == Map::<Seq<char>, Seq<Seq<char>>>::empty(),
    {
        let m = Manifest { entries: Vec::new() };
        assert(m@ =~= Map::<Seq<char>, Seq<Seq<char>>>::empty());
        m
    }

    /// Looks for the entry of `filename`: the first one of that name.
    pub fn position(&self, filename: &str) -> (found: Option<usize>)
        ensures
            match found {
                Some(i) => {
                    &&& i < self.entries@.len()
                    &&& self.entries@[i as int].filename@ == filename@
                    &&& forall|j: int| 0 <= j < i ==> self.entries@[j].filename@ != filename@
                },
                None => !entry_names(self.entries@).contains(filename@),
            },
    {
        let mut i: usize = 0;
        while i < self.entries.len()
            invariant
                i <= self.entries@.len(),
                forall|j: int| 0 <= j < i ==> self.entries@[j].filename@ != filename@,
            decreases self.entries@.len() - i,
        {
            if str_eq(self.entries[i].filename.as_str(), filename) {
                return Some(i);
            }
            i += 1;
        }
        None
    }

    /// Records the shards of `filename`, in place of any that were recorded
    /// under that name before.
    pub fn insert(&mut self, filename: String, shard_names: Vec<String>)
        requires
            old(self).wf(),
        ensures
            final(self).wf(),
            final(self)@ == old(self)@.insert(filename@, views(shard_names@)),
    {
        let ghost names = views(shard_names@);
        match self.position(filename.as_str()) {
            Some(i) => {
                self.entries[i].shard_names = shard_names;
                proof {
                    assert(entry_names(self.entries@) =~= entry_names(old(self).entries@));
                    self.lemma_lookup(i as int);
                    let listed = entry_names(self.entries@);
                    assert forall|k: int| 0 <= k < listed.len() implies #[trigger] self@[listed[k]]
                        == old(self)@.insert(filename@, names)[listed[k]] by {
                        self.lemma_lookup(k);
                        old(self).lemma_lookup(k);
                    }
                    assert(self@ =~= old(self)@.insert(filename@, names));
                }
            },
            None => {
                let ghost key = filename@;
                self.entries.push(ManifestEntry { filename, shard_names });
                proof {
                    assert(entry_names(self.entries@) =~= entry_names(old(self).entries@).push(
                        key,
                    ));
                    let listed = entry_names(self.entries@);
                    assert forall|k: int| 0 <= k < listed.len() implies #[trigger] self@[listed[k]]
                        == old(self)@.insert(key, names)[listed[k]] by {
                        self.lemma_lookup(k);
                        if k < old(self).entries@.len() {
                            old(self).lemma_lookup(k);
                        }
                    }
                    assert forall|name: Seq<char>| self@.dom().contains(name) <==> old(
                        self,
                    )@.insert(key, names).dom().contains(name) by {
                        if entry_names(self.entries@).contains(name) {
                            let k = choose|k: int|
                                0 <= k < self.entries@.len() && entry_names(self.entries@)[k]
                                    == name;
                            if k < old(self).entries@.len() {
                                assert(entry_names(old(self).entries@)[k] == name);
                            }
                        }
                        if entry_names(old(self).entries@).contains(name) {
                            let k = choose|k: int|
                                0 <= k < old(self).entries@.len() && entry_names(
                                    old(self).entries@,
                                )[k] == name;
                            assert(entry_names(self.entries@)[k] == name);
                        }
                        if name == key {
                            assert(entry_names(self.entries@)[old(self).entries@.len() as int]
                                == name);
                        }
                    }
                    assert(self@ =~= old(self)@.insert(key, names));
                }
            },
        }
    }

    /// The shards recorded for `filename`, if there are any.
    pub fn get(&self, filename: &str) -> (found: Option<&Vec<String>>)
        requires
            self.wf(),
        ensures
            match found {
                Some(shard_names) => self@.dom().contains(filename@) && views(shard_names@)
                    == self@[filename@],
                None => !self@.dom().contains(filename@),
            },
    {
        match self.position(filename) {
            Some(i) => {
                proof {
                    self.lemma_lookup(i as int);
                }
                Some(&self.entries[i].shard_names)
            },
            None => None,
        }
    }

    /// The entry at position `i` is what the map holds under its name.
    pub proof fn lemma_lookup(&self, i: int)
        requires
            self.wf(),
            0 <= i < self.entries@.len(),
        ensures
            self@.dom().contains(self.entries@[i].filename@),
            self@[self.entries@[i].filename@] == views(self.entries@[i].shard_names@),
    {
        let name = self.entries@[i].filename@;
        assert(entry_names(self.entries@)[i] == name);
        let j = entry_of(self.entries@, name);
        assert(entry_names(self.entries@)[j] == name);
    }
}

} // verus!
