use vstd::prelude::*;

use crate::meta::{metas_view, names_view, MetaSpec, MetaStore};

verus! {

/// The predicate picking the descriptors of the file called `name`.
pub open spec fn name_matches(name: Seq<char>) -> spec_fn(MetaSpec) -> bool {
    |d: MetaSpec| d.file_name == name
}

/// The predicate picking the descriptors of every file but `name`.
pub open spec fn name_differs(name: Seq<char>) -> spec_fn(MetaSpec) -> bool {
    |d: MetaSpec| d.file_name != name
}

/// The file names carried by a sequence of descriptors, in order, one per
/// descriptor.
pub open spec fn file_names(s: Seq<MetaSpec>) -> Seq<Seq<char>> {
    s.map_values(|d: MetaSpec| d.file_name)
}

/// `s` with every repetition of an earlier element dropped: each value keeps
/// its first position.
pub open spec fn dedup_first(s: Seq<Seq<char>>) -> Seq<Seq<char>>
    decreases s.len(),
{
    if s.len() == 0 {
        Seq::empty()
    } else {
        let front = dedup_first(s.drop_last());
        if s.drop_last().contains(s.last()) {
            front
        } else {
            front.push(s.last())
        }
    }
}

/// Taking one more element of `s` extends its filtered image by that element
/// exactly when the predicate accepts it.
pub proof fn lemma_filter_step<A>(s: Seq<A>, pred: spec_fn(A) -> bool, i: int)
    requires
        0 <= i < s.len(),
    ensures
        s.take(i + 1).filter(pred) == if pred(s[i]) {
            s.take(i).filter(pred).push(s[i])
        } else {
            s.take(i).filter(pred)
        },
{
    reveal(Seq::filter);
    assert(s.take(i + 1).drop_last() =~= s.take(i));
    assert(s.take(i + 1).last() == s[i]);
}

/// `dedup_first` neither invents nor loses values: membership is unchanged.
pub proof fn lemma_dedup_first_membership(s: Seq<Seq<char>>, x: Seq<char>)
    ensures
        dedup_first(s).contains(x) <==> s.contains(x),
    decreases s.len(),
{
    if s.len() > 0 {
        lemma_dedup_first_membership(s.drop_last(), x);
        let front = dedup_first(s.drop_last());
        if s.contains(x) {
            let i = choose|i: int| 0 <= i < s.len() && s[i] == x;
            if i < s.len() - 1 {
                assert(s.drop_last()[i] == x);
                let k = choose|k: int| 0 <= k < front.len() && front[k] == x;
                assert(dedup_first(s)[k] == x);
            } else {
                if s.drop_last().contains(x) {
                    let k = choose|k: int| 0 <= k < front.len() && front[k] == x;
                    assert(dedup_first(s)[k] == x);
                } else {
                    assert(dedup_first(s)[dedup_first(s).len() - 1] == x);
                }
            }
            assert(dedup_first(s).contains(x));
        } else {
            assert(!s.drop_last().contains(x)) by {
                if s.drop_last().contains(x) {
                    let i = choose|i: int| 0 <= i < s.drop_last().len() && s.drop_last()[i] == x;
                    assert(s[i] == x);
                }
            }
            assert(!dedup_first(s).contains(x)) by {
                if dedup_first(s).contains(x) {
                    let k = choose|k: int|
                        0 <= k < dedup_first(s).len() && dedup_first(s)[k] == x;
                    if k < front.len() {
                        assert(front[k] == x);
                    } else {
                        assert(s.contains(s.last()));
                    }
                }
            }
        }
    }
}

/// No value appears twice in `dedup_first(s)`.
pub proof fn lemma_dedup_first_distinct(s: Seq<Seq<char>>)
    ensures
        forall|i: int, j: int|
            0 <= i < j < dedup_first(s).len() ==> dedup_first(s)[i] != dedup_first(s)[j],
    decreases s.len(),
{
    if s.len() > 0 {
        lemma_dedup_first_distinct(s.drop_last());
        if !s.drop_last().contains(s.last()) {
            lemma_dedup_first_membership(s.drop_last(), s.last());
            assert forall|i: int, j: int|
                0 <= i < j < dedup_first(s).len() implies dedup_first(s)[i] != dedup_first(
                s,
            )[j] by {
                let d = dedup_first(s);
                let front = dedup_first(s.drop_last());
                if j == d.len() - 1 {
                    assert(d[i] == front[i]);
                    assert(front.contains(front[i]));
                }
            }
        }
    }
}

/// The coordinator's in-memory, authoritative index of chunk descriptors.
/// It is built from the persistence log at boot and mutated at runtime; the
/// caller serializes access to it.
pub struct MetadataStore {
    entries: Vec<MetaStore>,
}

impl View for MetadataStore {
    type V = Seq<MetaSpec>;

    closed spec fn view(&self) -> Seq<MetaSpec> {
        metas_view(self.entries@)
    }
}

impl MetadataStore {
    /// An empty index.
    pub fn new() -> (r: MetadataStore)
        ensures
            r@ =~= Seq::<MetaSpec>::empty(),
    {
        MetadataStore { entries: Vec::new() }
    }

    /// How many descriptors the index holds.
    pub fn len(&self) -> (r: usize)
        ensures
            r == self@.len(),
    {
        self.entries.len()
    }

    /// Appends a batch of descriptors; used once at startup to install the
    /// compacted snapshot.
    pub fn load(&mut self, batch: Vec<MetaStore>)
        ensures
            final(self)@ =~= old(self)@ + metas_view(batch@),
    {
        let mut i: usize = 0;
        let ghost base = self@;
        while i < batch.len()
            invariant
                0 <= i <= batch@.len(),
                self@ =~= base + metas_view(batch@.take(i as int)),
            decreases batch@.len() - i,
        {
            let ghost prev = self@;
            let d = batch[i].duplicate();
            self.entries.push(d);
            proof {
                assert(self@ =~= prev.push(batch@[i as int]@));
                assert(metas_view(batch@.take(i + 1)) =~= metas_view(batch@.take(i as int)).push(
                    batch@[i as int]@,
                ));
                assert(self@ =~= base + metas_view(batch@.take(i + 1)));
            }
            i = i + 1;
        }
        proof {
            assert(batch@.take(batch@.len() as int) =~= batch@);
        }
    }

    /// The names of all files that have at least one descriptor, without
    /// repetition, each name at the position of its first descriptor.
    pub fn list_files(&self) -> (r: Vec<String>)
        ensures
            names_view(r@) =~= dedup_first(file_names(self@)),
            forall|i: int, j: int| 0 <= i < j < r@.len() ==> r@[i]@ != r@[j]@,
    {
        proof {
            lemma_dedup_first_distinct(file_names(self@));
        }
        let mut r: Vec<String> = Vec::new();
        let mut i: usize = 0;
        while i < self.entries.len()
            invariant
                0 <= i <= self@.len(),
                names_view(r@) =~= dedup_first(file_names(self@).take(i as int)),
            decreases self@.len() - i,
        {
            proof {
                lemma_dedup_first_membership(
                    file_names(self@).take(i as int),
                    self@[i as int].file_name,
                );
                assert(file_names(self@).take(i + 1).drop_last() =~= file_names(self@).take(
                    i as int,
                ));
                assert(file_names(self@).take(i + 1).last() == self@[i as int].file_name);
            }
            let seen = contains_string(&r, &self.entries[i].file_name);
            proof {
                assert(seen == file_names(self@).take(i as int).contains(
                    self@[i as int].file_name,
                )) by {
                    if seen {
                        let k = choose|k: int| 0 <= k < r@.len() && r@[k]@ == self@[i as int].file_name;
                        assert(names_view(r@)[k] == self@[i as int].file_name);
                        assert(dedup_first(file_names(self@).take(i as int)).contains(
                            self@[i as int].file_name,
                        ));
                    } else {
                        if file_names(self@).take(i as int).contains(self@[i as int].file_name) {
                            let k = choose|k: int|
                                0 <= k < names_view(r@).len() && names_view(r@)[k] == self@[
                                    i as int
                                ].file_name;
                            assert(r@[k]@ == self@[i as int].file_name);
                        }
                    }
                }
            }
            if !seen {
                let ghost prev = r@;
                r.push(self.entries[i].file_name.clone());
                proof {
                    assert(names_view(r@) =~= names_view(prev).push(self@[i as int].file_name));
                }
            }
            i = i + 1;
        }
        proof {
            assert(file_names(self@).take(self@.len() as int) =~= file_names(self@));
            assert forall|i: int, j: int| 0 <= i < j < r@.len() implies r@[i]@ != r@[j]@ by {
                assert(names_view(r@)[i] == r@[i]@);
                assert(names_view(r@)[j] == r@[j]@);
            }
        }
        r
    }

    /// Copies of every descriptor of the file called `name`, in index order;
    /// empty when the file is unknown.
    pub fn get(&self, name: &String) -> (r: Vec<MetaStore>)
        ensures
            metas_view(r@) =~= self@.filter(name_matches(name@)),
    {
        let mut r: Vec<MetaStore> = Vec::new();
        let mut i: usize = 0;
        while i < self.entries.len()
            invariant
                0 <= i <= self@.len(),
                metas_view(r@) =~= self@.take(i as int).filter(name_matches(name@)),
            decreases self@.len() - i,
        {
            proof {
                lemma_filter_step(self@, name_matches(name@), i as int);
            }
            if self.entries[i].file_name == *name {
                let ghost prev = r@;
                let d = self.entries[i].duplicate();
                r.push(d);
                proof {
                    assert(metas_view(r@) =~= metas_view(prev).push(self@[i as int]));
                }
            }
            i = i + 1;
        }
        proof {
            assert(self@.take(self@.len() as int) =~= self@);
        }
        r
    }

    /// Every descriptor the index holds, in order: what an export writes
    /// out, one line each. Serializing the lines and swapping the snapshot
    /// file is the caller's I/O.
    pub fn descriptors(&self) -> (r: &Vec<MetaStore>)
        ensures
            metas_view(r@) == self@,
    {
        &self.entries
    }

    /// Atomically fetches and purges every descriptor of the file called
    /// `name`: the removed descriptors are returned, in index order, and the
    /// index afterwards holds exactly the descriptors of the other files, in
    /// their old order.
    pub fn remove(&mut self, name: &String) -> (r: Vec<MetaStore>)
        ensures
            metas_view(r@) =~= old(self)@.filter(name_matches(name@)),
            final(self)@ =~= old(self)@.filter(name_differs(name@)),
    {
        let mut removed: Vec<MetaStore> = Vec::new();
        let mut kept: Vec<MetaStore> = Vec::new();
        let mut i: usize = 0;
        while i < self.entries.len()
            invariant
                0 <= i <= self@.len(),
                metas_view(removed@) =~= self@.take(i as int).filter(name_matches(name@)),
                metas_view(kept@) =~= self@.take(i as int).filter(name_differs(name@)),
            decreases self@.len() - i,
        {
            proof {
                lemma_filter_step(self@, name_matches(name@), i as int);
                lemma_filter_step(self@, name_differs(name@), i as int);
            }
            let d = self.entries[i].duplicate();
            if d.file_name == *name {
                let ghost prev = removed@;
                removed.push(d);
                proof {
                    assert(metas_view(removed@) =~= metas_view(prev).push(self@[i as int]));
                }
            } else {
                let ghost prev = kept@;
                kept.push(d);
                proof {
                    assert(metas_view(kept@) =~= metas_view(prev).push(self@[i as int]));
                }
            }
            i = i + 1;
        }
        proof {
            assert(self@.take(self@.len() as int) =~= self@);
        }
        self.entries = kept;
        removed
    }
}

/// Whether some element of `v` equals `x`, compared by contents.
pub fn contains_string(v: &Vec<String>, x: &String) -> (r: bool)
    ensures
        r == exists|i: int| 0 <= i < v@.len() && v@[i]@ == x@,
{
    let mut i: usize = 0;
    while i < v.len()
        invariant
            0 <= i <= v@.len(),
            forall|j: int| 0 <= j < i ==> v@[j]@ != x@,
        decreases v@.len() - i,
    {
        if v[i] == *x {
            return true;
        }
        i = i + 1;
    }
    false
}

} // verus!
