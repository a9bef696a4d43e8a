use vstd::prelude::*;

use crate::meta::{metas_view, HostSpec, MetaSpec, MetaStore};
use crate::store::{name_differs, name_matches, MetadataStore};

verus! {

/// One remote delete owed after a removal: the chunk with `chunk_id` and
/// content hash `hash`, held on the worker at `ip`. The wire identifier the
/// worker is asked for is formed at the boundary as "<chunk_id>-<hash>".
#[derive(Clone, Debug)]
pub struct RemoteDelete {
    pub chunk_id: i32,
    pub hash: String,
    pub ip: String,
}

/// Mathematical image of a `RemoteDelete`.
#[verifier::ext_equal]
pub ghost struct RemoteDeleteSpec {
    pub chunk_id: int,
    pub hash: Seq<char>,
    pub ip: Seq<char>,
}

impl View for RemoteDelete {
    type V = RemoteDeleteSpec;

    open spec fn view(&self) -> RemoteDeleteSpec {
        RemoteDeleteSpec { chunk_id: self.chunk_id as int, hash: self.hash@, ip: self.ip@ }
    }
}

/// The views of a sequence of remote deletes.
pub open spec fn deletes_view(s: Seq<RemoteDelete>) -> Seq<RemoteDeleteSpec> {
    s.map_values(|x: RemoteDelete| x@)
}

/// The fan-out of one descriptor: one delete per host, in host order.
pub open spec fn chunk_fan_out(d: MetaSpec) -> Seq<RemoteDeleteSpec> {
    d.hosts.map_values(
        |h: HostSpec| RemoteDeleteSpec { chunk_id: d.chunk_id, hash: d.hash, ip: h.ip },
    )
}

/// The fan-out of the removed descriptors, in removal order: every host of
/// every removed descriptor receives exactly one delete.
pub open spec fn fan_out(removed: Seq<MetaSpec>) -> Seq<RemoteDeleteSpec>
    decreases removed.len(),
{
    if removed.len() == 0 {
        Seq::empty()
    } else {
        fan_out(removed.drop_last()) + chunk_fan_out(removed.last())
    }
}

/// The hash that the removal appends to the prune log: of the removed
/// descriptors that have at least one host, the hash of the last; empty
/// when none of them has a host.
pub open spec fn last_hash_with_hosts(removed: Seq<MetaSpec>) -> Seq<char>
    decreases removed.len(),
{
    if removed.len() == 0 {
        Seq::empty()
    } else if removed.last().hosts.len() > 0 {
        removed.last().hash
    } else {
        last_hash_with_hosts(removed.drop_last())
    }
}

/// What a removal leaves to do: the remote deletes to fan out, best effort,
/// and the tombstone line to append to the prune log, if any.
pub struct RemoveOutcome {
    pub deletes: Vec<RemoteDelete>,
    pub tombstone: Option<String>,
}

/// The coordinator's removal step for `name`: atomically purges the file's
/// descriptors from the store and plans the remote fan-out. When the file
/// is unknown, the fan-out touches no host and no tombstone is produced.
/// Issuing the deletes and appending the tombstone are the caller's I/O.
pub fn plan_remove(store: &mut MetadataStore, name: &String) -> (r: RemoveOutcome)
    ensures
        final(store)@ =~= old(store)@.filter(name_differs(name@)),
        deletes_view(r.deletes@) =~= fan_out(old(store)@.filter(name_matches(name@))),
        r.tombstone matches Some(t) ==> old(store)@.filter(name_matches(name@)).len() > 0 && t@
            == last_hash_with_hosts(old(store)@.filter(name_matches(name@))),
        r.tombstone is None <==> old(store)@.filter(name_matches(name@)).len() == 0,
        old(store)@.filter(name_matches(name@)).len() == 0 ==> r.deletes@.len() == 0,
{
    let removed = store.remove(name);
    let ghost rv = metas_view(removed@);
    let mut deletes: Vec<RemoteDelete> = Vec::new();
    let mut kill_hash = String::new();
    let mut i: usize = 0;
    while i < removed.len()
        invariant
            0 <= i <= removed@.len(),
            rv == metas_view(removed@),
            deletes_view(deletes@) =~= fan_out(rv.take(i as int)),
            kill_hash@ == last_hash_with_hosts(rv.take(i as int)),
        decreases removed@.len() - i,
    {
        let ghost outer = deletes_view(deletes@);
        let d = &removed[i];
        let ghost dv = rv[i as int];
        let mut j: usize = 0;
        while j < d.hosts.len()
            invariant
                0 <= j <= d.hosts@.len(),
                dv == rv[i as int],
                d == removed@[i as int],
                0 <= i < removed@.len(),
                rv == metas_view(removed@),
                dv.hosts.len() == d.hosts@.len(),
                deletes_view(deletes@) =~= outer + chunk_fan_out(dv).take(j as int),
            decreases d.hosts@.len() - j,
        {
            let ghost prev = deletes_view(deletes@);
            let rd = RemoteDelete {
                chunk_id: d.chunk_id,
                hash: d.hash.clone(),
                ip: d.hosts[j].ip.clone(),
            };
            deletes.push(rd);
            proof {
                assert(dv.hosts[j as int] == d.hosts@[j as int]@);
                assert(rd@ == chunk_fan_out(dv)[j as int]);
                assert(deletes_view(deletes@) =~= prev.push(rd@));
                assert(chunk_fan_out(dv).take(j + 1) =~= chunk_fan_out(dv).take(j as int).push(
                    chunk_fan_out(dv)[j as int],
                ));
                assert(deletes_view(deletes@) =~= outer + chunk_fan_out(dv).take(j + 1));
            }
            j = j + 1;
        }
        if d.hosts.len() > 0 {
            kill_hash = d.hash.clone();
        }
        proof {
            assert(chunk_fan_out(dv).take(chunk_fan_out(dv).len() as int) =~= chunk_fan_out(dv));
            assert(rv.take(i + 1).drop_last() =~= rv.take(i as int));
            assert(rv.take(i + 1).last() == dv);
            assert(deletes_view(deletes@) =~= fan_out(rv.take(i + 1)));
            assert(kill_hash@ == last_hash_with_hosts(rv.take(i + 1)));
        }
        i = i + 1;
    }
    proof {
        assert(rv.take(removed@.len() as int) =~= rv);
    }
    let tombstone = if removed.len() > 0 {
        Some(kill_hash)
    } else {
        None
    };
    RemoveOutcome { deletes, tombstone }
}

} // verus!
