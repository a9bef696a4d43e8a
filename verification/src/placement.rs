use vstd::prelude::*;

use rand::seq::SliceRandom;

use crate::liveness::{is_live, live_pred, seq_contains_view, LivenessTracker};
use crate::meta::{Host, MetaStore, Status};
use crate::{FILE_CHUNK_SIZE, REPLICATION_FACTOR};

verus! {

/// Planning fails when fewer eligible workers exist than the replication
/// factor asks for; the caller may retry once more workers report in.
#[derive(Clone, Copy, Debug, PartialEq, Eq, Structural)]
pub enum PlanError {
    Capacity,
}

/// How many whole chunks a file of `size` bytes is accounted as:
/// floor(size / chunk size).
pub open spec fn chunk_count(size: u64) -> int {
    size as int / FILE_CHUNK_SIZE as int
}

/// How many descriptors a successful plan holds. The planner iterates chunk
/// ids from 1 up to but excluding the chunk count, so a plan carries one
/// descriptor fewer than the count, and none at all for files under two
/// chunks.
pub open spec fn planned_chunks(size: u64) -> int {
    if chunk_count(size) >= 1 {
        chunk_count(size) - 1
    } else {
        0
    }
}

/// What every descriptor of a successful plan for (`name`, `hash`, `size`)
/// over `workers` satisfies: its position determines its chunk id, and its
/// hosts are `REPLICATION_FACTOR` distinct workers, each marked healthy.
pub open spec fn plan_ensures(
    plan: Seq<MetaStore>,
    name: Seq<char>,
    hash: Seq<char>,
    size: u64,
    workers: Seq<String>,
) -> bool {
    &&& plan.len() == planned_chunks(size)
    &&& forall|k: int|
        0 <= k < plan.len() ==> {
            let d = #[trigger] plan[k]@;
            &&& d.file_name == name
            &&& d.hash == hash
            &&& d.chunk_id == (((k + 1) as u64) as i32) as int
            &&& d.hosts.len() == REPLICATION_FACTOR
            &&& (forall|a: int|
                0 <= a < d.hosts.len() ==> (#[trigger] d.hosts[a]).status == Status::Healthy)
            &&& (forall|a: int|
                0 <= a < d.hosts.len() ==> seq_contains_view(
                    workers,
                    (#[trigger] d.hosts[a]).ip,
                ))
            &&& (forall|a: int, b: int|
                0 <= a < b < d.hosts.len() ==> d.hosts[a].ip != d.hosts[b].ip)
        }
}

/// Relies on rand's `SliceRandom::choose_multiple`, driven by
/// `rand::thread_rng`: it yields `min(amount, pool.len())` elements drawn
/// at distinct positions of the slice, without repetition, in random order.
/// Nothing is assumed about which positions are drawn.
#[verifier::external_body]
fn choose_distinct(pool: &Vec<String>, amount: usize) -> (r: Vec<String>)
    ensures
        r@.len() == if amount <= pool@.len() {
            amount as int
        } else {
            pool@.len() as int
        },
        forall|i: int|
            0 <= i < r@.len() ==> exists|w: int| 0 <= w < pool@.len() && pool@[w]@ == #[trigger] r@[
                i
            ]@,
        (forall|i: int, j: int| 0 <= i < j < pool@.len() ==> pool@[i]@ != pool@[j]@) ==> (forall|
            i: int,
            j: int,
        |
            0 <= i < j < r@.len() ==> r@[i]@ != r@[j]@),
{
    pool.choose_multiple(&mut rand::thread_rng(), amount).cloned().collect()
}

/// The chosen addresses as placement hosts, each marked healthy.
fn healthy_hosts(ips: Vec<String>) -> (r: Vec<Host>)
    ensures
        r@.len() == ips@.len(),
        forall|i: int|
            0 <= i < r@.len() ==> (#[trigger] r@[i])@.ip == ips@[i]@ && r@[i]@.status
                == Status::Healthy,
{
    let mut r: Vec<Host> = Vec::new();
    let mut i: usize = 0;
    while i < ips.len()
        invariant
            0 <= i <= ips@.len(),
            r@.len() == i,
            forall|j: int|
                0 <= j < i ==> (#[trigger] r@[j])@.ip == ips@[j]@ && r@[j]@.status
                    == Status::Healthy,
        decreases ips@.len() - i,
    {
        let ip = ips[i].clone();
        r.push(Host { ip, status: Status::Healthy });
        i = i + 1;
    }
    r
}

/// Plans a replicated chunk layout for an upload of `size` bytes under
/// `name` with content hash `hash`, drawing hosts from `workers` (the
/// eligible set, without repeated addresses). No state is touched: the plan
/// only becomes durable if the caller later persists it. Planning fails
/// exactly when fewer workers are offered than the replication factor.
pub fn plan_upload(name: &String, hash: &String, size: u64, workers: &Vec<String>) -> (r: Result<
    Vec<MetaStore>,
    PlanError,
>)
    requires
        forall|i: int, j: int| 0 <= i < j < workers@.len() ==> workers@[i]@ != workers@[j]@,
    ensures
        r matches Err(e) ==> e == PlanError::Capacity && workers@.len() < REPLICATION_FACTOR,
        r matches Ok(plan) ==> workers@.len() >= REPLICATION_FACTOR && plan_ensures(
            plan@,
            name@,
            hash@,
            size,
            workers@,
        ),
{
    if workers.len() < REPLICATION_FACTOR {
        return Err(PlanError::Capacity);
    }
    let chunks: u64 = size / FILE_CHUNK_SIZE;
    let mut plan: Vec<MetaStore> = Vec::new();
    let mut chunk: u64 = 1;
    while chunk < chunks
        invariant
            1 <= chunk,
            chunks == chunk_count(size),
            chunk <= if chunks >= 1 {
                chunks as int
            } else {
                1
            },
            workers@.len() >= REPLICATION_FACTOR,
            forall|i: int, j: int| 0 <= i < j < workers@.len() ==> workers@[i]@ != workers@[j]@,
            plan@.len() == chunk - 1,
            forall|k: int|
                0 <= k < plan@.len() ==> {
                    let d = #[trigger] plan@[k]@;
                    &&& d.file_name == name@
                    &&& d.hash == hash@
                    &&& d.chunk_id == (((k + 1) as u64) as i32) as int
                    &&& d.hosts.len() == REPLICATION_FACTOR
                    &&& (forall|a: int|
                        0 <= a < d.hosts.len() ==> (#[trigger] d.hosts[a]).status
                            == Status::Healthy)
                    &&& (forall|a: int|
                        0 <= a < d.hosts.len() ==> seq_contains_view(
                            workers@,
                            (#[trigger] d.hosts[a]).ip,
                        ))
                    &&& (forall|a: int, b: int|
                        0 <= a < b < d.hosts.len() ==> d.hosts[a].ip != d.hosts[b].ip)
                },
        decreases chunks - chunk,
    {
        let chosen = choose_distinct(workers, REPLICATION_FACTOR);
        let ghost cv = chosen@;
        let hosts = healthy_hosts(chosen);
        let ghost prev = plan@;
        let d = MetaStore {
            file_name: name.clone(),
            hash: hash.clone(),
            chunk_id: #[verifier::truncate] (chunk as i32),
            hosts,
        };
        plan.push(d);
        proof {
            assert(forall|k: int| 0 <= k < prev.len() ==> plan@[k] == prev[k]);
            assert(plan@[plan@.len() - 1] == d);
            let dv = d@;
            assert(((plan@.len() - 1 + 1) as u64) == chunk);
            assert(dv.chunk_id == (((plan@.len() - 1 + 1) as u64) as i32) as int);
            assert(cv.len() == REPLICATION_FACTOR);
            assert(forall|i: int, j: int| 0 <= i < j < cv.len() ==> cv[i]@ != cv[j]@);
            assert(dv.hosts.len() == REPLICATION_FACTOR);
            assert forall|a: int| 0 <= a < dv.hosts.len() implies {
                &&& (#[trigger] dv.hosts[a]).status == Status::Healthy
                &&& dv.hosts[a].ip == cv[a]@
            } by {
                assert(dv.hosts[a] == d.hosts@[a]@);
                assert(d.hosts@[a]@.ip == cv[a]@);
            }
            assert forall|a: int| 0 <= a < dv.hosts.len() implies seq_contains_view(
                workers@,
                (#[trigger] dv.hosts[a]).ip,
            ) by {
                let w = choose|w: int| 0 <= w < workers@.len() && workers@[w]@ == cv[a]@;
                assert(workers@[w]@ == dv.hosts[a].ip);
            }
            assert forall|a: int, b: int|
                0 <= a < b < dv.hosts.len() implies dv.hosts[a].ip != dv.hosts[b].ip by {
                assert(dv.hosts[a].ip == cv[a]@ && dv.hosts[b].ip == cv[b]@);
            }
        }
        chunk = chunk + 1;
    }
    Ok(plan)
}

/// The upload planning step of the coordinator: reads the liveness snapshot
/// at `now`, and plans against the workers eligible then. It fails with the
/// capacity error exactly when fewer than `REPLICATION_FACTOR` workers are
/// live, and every planned host is one whose recorded heartbeat is live at
/// `now`.
pub fn upload(
    tracker: &LivenessTracker,
    now: i64,
    name: &String,
    hash: &String,
    size: u64,
) -> (r: Result<Vec<MetaStore>, PlanError>)
    requires
        tracker.well_formed(),
    ensures
        (r matches Err(e) && e == PlanError::Capacity) <==> tracker@.filter(
            live_pred(now as int),
        ).len() < REPLICATION_FACTOR,
        r matches Ok(plan) ==> {
            &&& plan@.len() == planned_chunks(size)
            &&& forall|k: int|
                0 <= k < plan@.len() ==> {
                    let d = #[trigger] plan@[k]@;
                    &&& d.file_name == name@
                    &&& d.hash == hash@
                    &&& d.chunk_id == (((k + 1) as u64) as i32) as int
                    &&& d.hosts.len() == REPLICATION_FACTOR
                    &&& (forall|a: int|
                        0 <= a < d.hosts.len() ==> (#[trigger] d.hosts[a]).status
                            == Status::Healthy)
                    &&& (forall|a: int|
                        0 <= a < d.hosts.len() ==> tracker.as_map().contains_key(
                            (#[trigger] d.hosts[a]).ip,
                        ) && is_live(tracker.as_map()[d.hosts[a].ip], now as int))
                    &&& (forall|a: int, b: int|
                        0 <= a < b < d.hosts.len() ==> d.hosts[a].ip != d.hosts[b].ip)
                }
        },
{
    let workers = tracker.eligible_workers(now);
    proof {
        assert(workers@.len() == LivenessTracker::live_keys(tracker@, now as int).len());
    }
    let r = plan_upload(name, hash, size, &workers);
    match &r {
        Ok(plan) => proof {
            assert forall|k: int, a: int|
                0 <= k < plan@.len() && 0 <= a < plan@[k]@.hosts.len() implies {
                &&& tracker.as_map().contains_key((#[trigger] plan@[k]@.hosts[a]).ip)
                &&& is_live(tracker.as_map()[plan@[k]@.hosts[a].ip], now as int)
            } by {
                let d = plan@[k]@;
                let w = choose|w: int|
                    0 <= w < workers@.len() && workers@[w]@ == d.hosts[a].ip;
                assert(crate::liveness::seq_contains_view(workers@, d.hosts[a].ip));
            }
        },
        Err(_) => {},
    }
    r
}

} // verus!
