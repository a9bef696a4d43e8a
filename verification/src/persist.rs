use vstd::prelude::*;

use crate::meta::{metas_view, names_view, Host, MetaSpec, MetaStore, Status};
use crate::store::{contains_string, MetadataStore};

verus! {

/// The views of a sequence of parse results, one per snapshot line: a
/// malformed line is `None`, a well-formed one carries its descriptor.
pub open spec fn records_view(s: Seq<Option<MetaStore>>) -> Seq<Option<MetaSpec>> {
    s.map_values(
        |o: Option<MetaStore>|
            match o {
                Option::Some(m) => Option::Some(m@),
                Option::None => Option::<MetaSpec>::None,
            },
    )
}

/// Every descriptor wrapped as a well-formed record, as re-reading an
/// exported snapshot would parse it.
pub open spec fn lift(s: Seq<MetaSpec>) -> Seq<Option<MetaSpec>> {
    s.map_values(|d: MetaSpec| Option::Some(d))
}

/// No two descriptors share a compaction key.
pub open spec fn unique_keys(s: Seq<MetaSpec>) -> bool {
    forall|i: int, j: int| 0 <= i < j < s.len() ==> s[i].key() != s[j].key()
}

/// The position in `acc` of the descriptor with key `k`, scanning from the
/// back, or -1 when no descriptor has that key.
pub open spec fn find_key(acc: Seq<MetaSpec>, k: (Seq<char>, int)) -> int
    decreases acc.len(),
{
    if acc.len() == 0 {
        -1
    } else if acc.last().key() == k {
        acc.len() - 1
    } else {
        find_key(acc.drop_last(), k)
    }
}

/// Last-write-wins insertion: a descriptor replaces, in place, the entry
/// that shares its key, and is appended when its key is new.
pub open spec fn upsert(acc: Seq<MetaSpec>, d: MetaSpec) -> Seq<MetaSpec> {
    let i = find_key(acc, d.key());
    if i >= 0 {
        acc.update(i, d)
    } else {
        acc.push(d)
    }
}

/// The compaction of a snapshot against a prune list: malformed lines are
/// skipped, records whose hash is pruned are discarded, and of the records
/// sharing a key the one latest in file order survives, at the position
/// where its key first appeared.
pub open spec fn spec_compact(records: Seq<Option<MetaSpec>>, prune: Seq<Seq<char>>) -> Seq<
    MetaSpec,
>
    decreases records.len(),
{
    if records.len() == 0 {
        Seq::empty()
    } else {
        let front = spec_compact(records.drop_last(), prune);
        match records.last() {
            Option::Some(d) => if prune.contains(d.hash) {
                front
            } else {
                upsert(front, d)
            },
            Option::None => front,
        }
    }
}

/// What `find_key` answers: a non-negative result points at an entry with
/// the key, and -1 means no entry has it.
pub proof fn lemma_find_key(acc: Seq<MetaSpec>, k: (Seq<char>, int))
    ensures
        find_key(acc, k) == -1 || 0 <= find_key(acc, k) < acc.len(),
        find_key(acc, k) >= 0 ==> acc[find_key(acc, k)].key() == k,
        find_key(acc, k) == -1 <==> forall|i: int| 0 <= i < acc.len() ==> acc[i].key() != k,
    decreases acc.len(),
{
    if acc.len() > 0 {
        lemma_find_key(acc.drop_last(), k);
        if acc.last().key() == k {
        } else {
            assert(forall|i: int|
                0 <= i < acc.len() - 1 ==> acc.drop_last()[i] == acc[i]);
            if find_key(acc, k) == -1 {
                assert forall|i: int| 0 <= i < acc.len() implies acc[i].key() != k by {
                    if i < acc.len() - 1 {
                        assert(acc.drop_last()[i].key() != k);
                    }
                }
            }
        }
    }
}

/// Under unique keys, `find_key` finds exactly the entry whose key matches.
pub proof fn lemma_find_key_unique(acc: Seq<MetaSpec>, k: (Seq<char>, int), i: int)
    requires
        unique_keys(acc),
        0 <= i < acc.len(),
        acc[i].key() == k,
    ensures
        find_key(acc, k) == i,
{
    lemma_find_key(acc, k);
    let f = find_key(acc, k);
    assert(f >= 0);
    if f != i {
        assert(acc[f].key() == acc[i].key());
    }
}

/// Compaction never produces two descriptors with the same key.
pub proof fn lemma_compact_unique(records: Seq<Option<MetaSpec>>, prune: Seq<Seq<char>>)
    ensures
        unique_keys(spec_compact(records, prune)),
    decreases records.len(),
{
    if records.len() > 0 {
        lemma_compact_unique(records.drop_last(), prune);
        let front = spec_compact(records.drop_last(), prune);
        match records.last() {
            Option::Some(d) => {
                if !prune.contains(d.hash) {
                    lemma_find_key(front, d.key());
                    let f = find_key(front, d.key());
                    if f >= 0 {
                        assert forall|i: int, j: int|
                            0 <= i < j < upsert(front, d).len() implies upsert(front, d)[i].key()
                            != upsert(front, d)[j].key() by {
                            assert(upsert(front, d)[i] == if i == f {
                                d
                            } else {
                                front[i]
                            });
                            assert(upsert(front, d)[j] == if j == f {
                                d
                            } else {
                                front[j]
                            });
                        }
                    } else {
                        assert forall|i: int, j: int|
                            0 <= i < j < upsert(front, d).len() implies upsert(front, d)[i].key()
                            != upsert(front, d)[j].key() by {
                            if j == front.len() as int {
                                assert(upsert(front, d)[i] == front[i]);
                                assert(front[i].key() != d.key());
                            }
                        }
                    }
                }
            },
            Option::None => {},
        }
    }
}

/// The position of the last record that is well formed and carries key `k`,
/// or -1 when none does.
pub open spec fn last_with_key(records: Seq<Option<MetaSpec>>, k: (Seq<char>, int)) -> int
    decreases records.len(),
{
    if records.len() == 0 {
        -1
    } else if records.last() matches Option::Some(d) && d.key() == k {
        records.len() - 1
    } else {
        last_with_key(records.drop_last(), k)
    }
}

/// `last_with_key` is -1 or a position inside `records`.
pub proof fn lemma_last_with_key_bounds(records: Seq<Option<MetaSpec>>, k: (Seq<char>, int))
    ensures
        last_with_key(records, k) == -1 || 0 <= last_with_key(records, k) < records.len(),
    decreases records.len(),
{
    if records.len() > 0 {
        lemma_last_with_key_bounds(records.drop_last(), k);
    }
}

/// Tombstone exclusion: no descriptor whose hash stands in the prune list
/// survives compaction.
pub proof fn tombstone_exclusion(records: Seq<Option<MetaSpec>>, prune: Seq<Seq<char>>)
    ensures
        forall|i: int|
            0 <= i < spec_compact(records, prune).len() ==> !prune.contains(
                #[trigger] spec_compact(records, prune)[i].hash,
            ),
    decreases records.len(),
{
    if records.len() > 0 {
        tombstone_exclusion(records.drop_last(), prune);
        let front = spec_compact(records.drop_last(), prune);
        let c = spec_compact(records, prune);
        match records.last() {
            Option::Some(d) => {
                if !prune.contains(d.hash) {
                    lemma_find_key(front, d.key());
                    let f = find_key(front, d.key());
                    assert forall|i: int| 0 <= i < c.len() implies !prune.contains(
                        #[trigger] c[i].hash,
                    ) by {
                        if f >= 0 {
                            assert(c[i] == if i == f {
                                d
                            } else {
                                front[i]
                            });
                        } else {
                            assert(c[i] == if i == front.len() as int {
                                d
                            } else {
                                front[i]
                            });
                        }
                    }
                }
            },
            Option::None => {},
        }
    }
}

/// Last write wins: whenever some well-formed record carries key `k` and
/// `k`'s hash is not pruned, the compaction holds exactly one descriptor
/// with that key, and it is the one latest in file order.
pub proof fn last_write_wins(records: Seq<Option<MetaSpec>>, prune: Seq<Seq<char>>, k: (
    Seq<char>,
    int,
))
    requires
        !prune.contains(k.0),
    ensures
        ({
            let c = spec_compact(records, prune);
            let l = last_with_key(records, k);
            &&& (l >= 0 <==> find_key(c, k) >= 0)
            &&& (l >= 0 ==> (records[l] matches Option::Some(d) && 0 <= find_key(c, k) < c.len()
                && c[find_key(c, k)] == d))
        }),
    decreases records.len(),
{
    let c = spec_compact(records, prune);
    let l = last_with_key(records, k);
    lemma_compact_unique(records, prune);
    lemma_last_with_key_bounds(records, k);
    if records.len() == 0 {
        lemma_find_key(c, k);
    } else {
        let fr = records.drop_last();
        last_write_wins(fr, prune, k);
        let front = spec_compact(fr, prune);
        let fl = last_with_key(fr, k);
        lemma_compact_unique(fr, prune);
        lemma_last_with_key_bounds(fr, k);
        lemma_find_key(front, k);
        lemma_find_key(c, k);
        match records.last() {
            Option::Some(d) => {
                if prune.contains(d.hash) {
                    assert(d.key() != k);
                    assert(c == front && l == fl);
                    if fl >= 0 {
                        assert(records[fl] == fr[fl]);
                    }
                } else {
                    let f = find_key(front, d.key());
                    lemma_find_key(front, d.key());
                    if d.key() == k {
                        assert(l == records.len() - 1);
                        if f >= 0 {
                            assert(c == front.update(f, d));
                            assert(c[f] == d);
                            lemma_find_key_unique(c, k, f);
                        } else {
                            assert(c == front.push(d));
                            assert(c[front.len() as int] == d);
                            lemma_find_key_unique(c, k, front.len() as int);
                        }
                    } else {
                        assert(l == fl);
                        if fl >= 0 {
                            assert(records[fl] == fr[fl]);
                        }
                        if find_key(front, k) >= 0 {
                            let j = find_key(front, k);
                            assert(front[j].key() == k);
                            assert(f != j);
                            if f >= 0 {
                                assert(c == front.update(f, d));
                                assert(c[j] == front[j]);
                            } else {
                                assert(c == front.push(d));
                                assert(c[j] == front[j]);
                            }
                            lemma_find_key_unique(c, k, j);
                        } else {
                            assert(forall|i: int| 0 <= i < front.len() ==> front[i].key() != k);
                            assert forall|i: int| 0 <= i < c.len() implies c[i].key() != k by {
                                if f >= 0 {
                                    assert(c[i] == if i == f {
                                        d
                                    } else {
                                        front[i]
                                    });
                                } else {
                                    assert(c[i] == if i == front.len() as int {
                                        d
                                    } else {
                                        front[i]
                                    });
                                }
                            }
                        }
                    }
                }
            },
            Option::None => {
                assert(c == front && l == fl);
                if fl >= 0 {
                    assert(records[fl] == fr[fl]);
                }
            },
        }
    }
}

/// Compacting descriptors that already have unique keys and no pruned hash
/// reproduces them unchanged.
pub proof fn lemma_compact_of_compacted(s: Seq<MetaSpec>, prune: Seq<Seq<char>>)
    requires
        unique_keys(s),
        forall|i: int| 0 <= i < s.len() ==> !prune.contains(#[trigger] s[i].hash),
    ensures
        spec_compact(lift(s), prune) =~= s,
    decreases s.len(),
{
    if s.len() > 0 {
        assert(lift(s).drop_last() =~= lift(s.drop_last()));
        lemma_compact_of_compacted(s.drop_last(), prune);
        let front = spec_compact(lift(s).drop_last(), prune);
        assert(front =~= s.drop_last());
        let d = s.last();
        assert(!prune.contains(d.hash));
        lemma_find_key(front, d.key());
        assert(forall|i: int| 0 <= i < front.len() ==> #[trigger] front[i].key() != d.key());
        assert(find_key(front, d.key()) == -1);
        assert(spec_compact(lift(s), prune) == front.push(d));
        assert(front.push(d) =~= s);
    }
}

/// Compaction idempotence: the compaction of a snapshot, written back out
/// and read in again with the prune log cleared (as a successful export
/// leaves it), compacts to itself.
pub proof fn compaction_idempotent(records: Seq<Option<MetaSpec>>, prune: Seq<Seq<char>>)
    ensures
        spec_compact(lift(spec_compact(records, prune)), Seq::<Seq<char>>::empty())
            =~= spec_compact(records, prune),
{
    let c = spec_compact(records, prune);
    lemma_compact_unique(records, prune);
    assert forall|i: int| 0 <= i < c.len() implies !Seq::<Seq<char>>::empty().contains(
        #[trigger] c[i].hash,
    ) by {
        if Seq::<Seq<char>>::empty().contains(c[i].hash) {
            let j = choose|j: int|
                0 <= j < Seq::<Seq<char>>::empty().len() && Seq::<Seq<char>>::empty()[j] == c[
                    i
                ].hash;
        }
    }
    lemma_compact_of_compacted(c, Seq::<Seq<char>>::empty());
}

/// Whether `pruned` agrees, value for value, with membership of `hash@` in
/// the view of `prune`.
fn hash_is_pruned(prune: &Vec<String>, hash: &String) -> (r: bool)
    ensures
        r == names_view(prune@).contains(hash@),
{
    let r = contains_string(prune, hash);
    proof {
        if r {
            let k = choose|k: int| 0 <= k < prune@.len() && prune@[k]@ == hash@;
            assert(names_view(prune@)[k] == hash@);
        } else {
            if names_view(prune@).contains(hash@) {
                let k = choose|k: int|
                    0 <= k < names_view(prune@).len() && names_view(prune@)[k] == hash@;
                assert(prune@[k]@ == hash@);
            }
        }
    }
    r
}

/// The position in `acc` of the descriptor sharing `hash` and `chunk_id`,
/// if any.
fn find_descriptor(acc: &Vec<MetaStore>, hash: &String, chunk_id: i32) -> (r: Option<usize>)
    ensures
        match r {
            Option::Some(i) => 0 <= i < acc@.len() && metas_view(acc@)[i as int].key() == (
                hash@,
                chunk_id as int,
            ),
            Option::None => forall|j: int|
                0 <= j < acc@.len() ==> metas_view(acc@)[j].key() != (hash@, chunk_id as int),
        },
{
    let mut i: usize = 0;
    while i < acc.len()
        invariant
            0 <= i <= acc@.len(),
            forall|j: int| 0 <= j < i ==> metas_view(acc@)[j].key() != (hash@, chunk_id as int),
        decreases acc@.len() - i,
    {
        if acc[i].hash == *hash && acc[i].chunk_id == chunk_id {
            return Some(i);
        }
        i = i + 1;
    }
    None
}

/// Compacts the parsed snapshot lines against the prune list, in file
/// order: exactly the mathematical compaction of the records' views.
pub fn compact(records: &Vec<Option<MetaStore>>, prune: &Vec<String>) -> (r: Vec<MetaStore>)
    ensures
        metas_view(r@) =~= spec_compact(records_view(records@), names_view(prune@)),
{
    let ghost rv = records_view(records@);
    let ghost pv = names_view(prune@);
    let mut acc: Vec<MetaStore> = Vec::new();
    let mut i: usize = 0;
    while i < records.len()
        invariant
            0 <= i <= records@.len(),
            rv == records_view(records@),
            pv == names_view(prune@),
            metas_view(acc@) =~= spec_compact(rv.take(i as int), pv),
        decreases records@.len() - i,
    {
        proof {
            assert(rv.take(i + 1).drop_last() =~= rv.take(i as int));
            assert(rv.take(i + 1).last() == rv[i as int]);
            lemma_compact_unique(rv.take(i as int), pv);
        }
        let ghost front = spec_compact(rv.take(i as int), pv);
        match &records[i] {
            Some(d) => {
                proof {
                    assert(rv[i as int] == Option::Some(d@));
                }
                let pruned = hash_is_pruned(prune, &d.hash);
                if !pruned {
                    let ghost k = d@.key();
                    match find_descriptor(&acc, &d.hash, d.chunk_id) {
                        Some(j) => {
                            proof {
                                lemma_find_key_unique(front, k, j as int);
                            }
                            let ghost prev = acc@;
                            acc.set(j, d.duplicate());
                            proof {
                                assert(metas_view(acc@) =~= metas_view(prev).update(
                                    j as int,
                                    d@,
                                ));
                                assert(metas_view(acc@) =~= upsert(front, d@));
                            }
                        },
                        None => {
                            proof {
                                lemma_find_key(front, k);
                            }
                            let ghost prev = acc@;
                            acc.push(d.duplicate());
                            proof {
                                assert(metas_view(acc@) =~= metas_view(prev).push(d@));
                                assert(metas_view(acc@) =~= upsert(front, d@));
                            }
                        },
                    }
                }
            },
            None => {
                proof {
                    assert(rv[i as int] matches Option::None);
                }
            },
        }
        proof {
            assert(metas_view(acc@) =~= spec_compact(rv.take(i + 1), pv));
        }
        i = i + 1;
    }
    proof {
        assert(rv.take(records@.len() as int) =~= rv);
    }
    acc
}

/// A host marked healthy at the given address.
fn sample_host(ip: &str) -> (r: Host)
    ensures
        r@.ip == ip@,
        r@.status == Status::Healthy,
{
    Host { ip: ip.to_owned(), status: Status::Healthy }
}

/// Sample snapshot content for exercising compaction by hand: three
/// descriptors of one file, the last two sharing a compaction key, so that
/// compacting them keeps the first and the third only.
pub fn sample_snapshot() -> (r: Vec<MetaStore>)
    ensures
        metas_view(r@).len() == 3,
        forall|k: int|
            0 <= k < 3 ==> (#[trigger] metas_view(r@)[k]).file_name == "README.md"@
                && metas_view(r@)[k].hash == "5c9d231c8b6d10f43fd0768ca80755d2"@,
        metas_view(r@)[0].chunk_id == 1,
        metas_view(r@)[1].chunk_id == 2,
        metas_view(r@)[2].chunk_id == 2,
        metas_view(r@)[0].hosts.len() == 2,
        metas_view(r@)[1].hosts.len() == 2,
        metas_view(r@)[2].hosts.len() == 2,
        metas_view(r@)[0].hosts[0].ip == "192.168.1.80"@,
        metas_view(r@)[0].hosts[1].ip == "192.168.1.83"@,
        metas_view(r@)[1].hosts[0].ip == "192.168.1.81"@,
        metas_view(r@)[1].hosts[1].ip == "192.168.1.82"@,
        metas_view(r@)[2].hosts[0].ip == "192.168.1.82"@,
        metas_view(r@)[2].hosts[1].ip == "192.168.1.255"@,
        forall|k: int, a: int|
            0 <= k < 3 && 0 <= a < 2 ==> (#[trigger] metas_view(r@)[k].hosts[a]).status
                == Status::Healthy,
{
    let mut hosts_a: Vec<Host> = Vec::new();
    hosts_a.push(sample_host("192.168.1.80"));
    hosts_a.push(sample_host("192.168.1.83"));
    let a = MetaStore {
        file_name: "README.md".to_owned(),
        hash: "5c9d231c8b6d10f43fd0768ca80755d2".to_owned(),
        chunk_id: 1,
        hosts: hosts_a,
    };
    let mut hosts_b: Vec<Host> = Vec::new();
    hosts_b.push(sample_host("192.168.1.81"));
    hosts_b.push(sample_host("192.168.1.82"));
    let b = MetaStore {
        file_name: "README.md".to_owned(),
        hash: "5c9d231c8b6d10f43fd0768ca80755d2".to_owned(),
        chunk_id: 2,
        hosts: hosts_b,
    };
    let mut hosts_c: Vec<Host> = Vec::new();
    hosts_c.push(sample_host("192.168.1.82"));
    hosts_c.push(sample_host("192.168.1.255"));
    let c = MetaStore {
        file_name: "README.md".to_owned(),
        hash: "5c9d231c8b6d10f43fd0768ca80755d2".to_owned(),
        chunk_id: 2,
        hosts: hosts_c,
    };
    let mut r: Vec<MetaStore> = Vec::new();
    r.push(a);
    r.push(b);
    r.push(c);
    r
}

/// Boot-time load: compacts the parsed snapshot lines against the prune
/// list and installs the survivors in a fresh metadata store.
pub fn load_snapshot(records: &Vec<Option<MetaStore>>, prune: &Vec<String>) -> (r: MetadataStore)
    ensures
        r@ =~= spec_compact(records_view(records@), names_view(prune@)),
{
    let compacted = compact(records, prune);
    let mut store = MetadataStore::new();
    store.load(compacted);
    store
}

} // verus!
