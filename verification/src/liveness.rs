use vstd::prelude::*;
use vstd::pervasive::VecAdditionalExecFns;

use crate::meta::names_view;
use crate::store::lemma_filter_step;
use crate::TIMEOUT_IN_MINUTES;

verus! {

/// A worker whose last heartbeat is `ts` counts as live at `now` exactly
/// when the whole minutes elapsed between the two are at most
/// `TIMEOUT_IN_MINUTES`; with timestamps in seconds that is a strict bound
/// of `(TIMEOUT_IN_MINUTES + 1) * 60` seconds. A heartbeat from the future
/// is trivially live.
pub open spec fn is_live(ts: int, now: int) -> bool {
    now - ts < (TIMEOUT_IN_MINUTES + 1) * 60
}

/// Records the last-seen time of every worker identity, one entry per
/// address. Entries are never evicted; staleness is judged lazily against
/// the liveness window whenever eligibility is read.
pub struct LivenessTracker {
    entries: Vec<(String, i64)>,
}

impl View for LivenessTracker {
    type V = Seq<(Seq<char>, int)>;

    closed spec fn view(&self) -> Seq<(Seq<char>, int)> {
        Seq::new(self.entries@.len(), |i: int| (self.entries@[i].0@, self.entries@[i].1 as int))
    }
}

impl LivenessTracker {
    /// No two entries share a worker address.
    pub open spec fn well_formed(self) -> bool {
        forall|i: int, j: int| 0 <= i < j < self@.len() ==> self@[i].0 != self@[j].0
    }

    /// The tracker as a map from worker address to last-seen time.
    pub open spec fn as_map(self) -> Map<Seq<char>, int> {
        Map::new(
            |ip: Seq<char>| exists|i: int| 0 <= i < self@.len() && self@[i].0 == ip,
            |ip: Seq<char>|
                self@[choose|i: int| 0 <= i < self@.len() && self@[i].0 == ip].1,
        )
    }

    pub fn new() -> (r: LivenessTracker)
        ensures
            r@ =~= Seq::<(Seq<char>, int)>::empty(),
            r.well_formed(),
    {
        LivenessTracker { entries: Vec::new() }
    }

    /// The position of the entry for `ip`, if one exists.
    fn find(&self, ip: &String) -> (r: Option<usize>)
        ensures
            match r {
                Some(i) => 0 <= i < self@.len() && self@[i as int].0 == ip@,
                None => forall|i: int| 0 <= i < self@.len() ==> self@[i].0 != ip@,
            },
    {
        let mut i: usize = 0;
        while i < self.entries.len()
            invariant
                0 <= i <= self@.len(),
                forall|j: int| 0 <= j < i ==> self@[j].0 != ip@,
            decreases self@.len() - i,
        {
            if self.entries[i].0 == *ip {
                return Some(i);
            }
            i = i + 1;
        }
        None
    }

    /// Upserts the last-seen time for `ip`: an existing entry is overwritten
    /// in place, a new address is appended. At most one entry per address
    /// ever exists.
    pub fn record_heartbeat(&mut self, ip: String, now: i64)
        requires
            old(self).well_formed(),
        ensures
            final(self).well_formed(),
            final(self).as_map() =~= old(self).as_map().insert(ip@, now as int),
            final(self)@.len() == if old(self).as_map().contains_key(ip@) {
                old(self)@.len()
            } else {
                old(self)@.len() + 1
            },
    {
        proof {
            self.lemma_as_map();
        }
        let ghost ipv = ip@;
        match self.find(&ip) {
            Some(i) => {
                self.entries.set(i, (ip, now));
                proof {
                    assert(self@ =~= old(self)@.update(i as int, (ipv, now as int)));
                    assert(self.well_formed());
                    self.lemma_upsert(*old(self), i as int, ipv, now as int);
                }
            },
            None => {
                self.entries.push((ip, now));
                proof {
                    assert(self@ =~= old(self)@.push((ipv, now as int)));
                    assert forall|k: int, l: int|
                        0 <= k < l < self@.len() implies self@[k].0 != self@[l].0 by {
                        if l == self@.len() - 1 {
                            assert(old(self)@[k].0 != ipv);
                        }
                    }
                    self.lemma_upsert(*old(self), old(self)@.len() as int, ipv, now as int);
                }
            },
        }
    }

    /// If this tracker's entries are those of `prev` with the time for `ip`
    /// written at position `i` (overwriting the entry that held `ip`, or
    /// appended at the end when `ip` is new), its map view is the upsert of
    /// `prev`'s map view.
    proof fn lemma_upsert(self, prev: LivenessTracker, i: int, ip: Seq<char>, now: int)
        requires
            self.well_formed(),
            prev.well_formed(),
            0 <= i < self@.len(),
            self@[i] == (ip, now),
            self@.len() == if i < prev@.len() {
                prev@.len()
            } else {
                prev@.len() + 1
            },
            i < prev@.len() ==> prev@[i].0 == ip,
            forall|k: int| 0 <= k < self@.len() && k != i ==> self@[k] == prev@[k],
        ensures
            self.as_map() =~= prev.as_map().insert(ip, now),
    {
        self.lemma_as_map();
        prev.lemma_as_map();
        let m0 = prev.as_map();
        let m1 = self.as_map();
        assert forall|w: Seq<char>| #[trigger] m1.contains_key(w) implies m0.insert(
            ip,
            now,
        ).contains_key(w) && m1[w] == m0.insert(ip, now)[w] by {
            let k = choose|k: int| 0 <= k < self@.len() && self@[k].0 == w;
            assert(m1[self@[k].0] == self@[k].1);
            if w == ip {
                assert(k == i);
            } else {
                assert(k != i);
                assert(prev@[k] == self@[k]);
                assert(m0[prev@[k].0] == prev@[k].1);
            }
        }
        assert forall|w: Seq<char>| #[trigger] m0.insert(ip, now).contains_key(w) implies
        m1.contains_key(w) by {
            if w == ip {
                assert(self@[i].0 == w);
            } else {
                let k = choose|k: int| 0 <= k < prev@.len() && prev@[k].0 == w;
                if k != i {
                    assert(self@[k].0 == w);
                }
            }
        }
    }

    /// Every address in the entry list carries exactly the time that the
    /// map view assigns to it.
    pub proof fn lemma_as_map(self)
        requires
            self.well_formed(),
        ensures
            forall|i: int|
                0 <= i < self@.len() ==> self.as_map().contains_key(#[trigger] self@[i].0)
                    && self.as_map()[self@[i].0] == self@[i].1,
            forall|ip: Seq<char>|
                self.as_map().contains_key(ip) ==> exists|i: int|
                    0 <= i < self@.len() && self@[i].0 == ip,
    {
        assert forall|i: int| 0 <= i < self@.len() implies self.as_map().contains_key(
            #[trigger] self@[i].0,
        ) && self.as_map()[self@[i].0] == self@[i].1 by {
            let ip = self@[i].0;
            let w = choose|k: int| 0 <= k < self@.len() && self@[k].0 == ip;
            assert(self@[w].0 == ip);
        }
    }

    /// Some entry of `t` records a heartbeat for `ip` that is live at `now`.
    pub open spec fn has_live_entry(t: Seq<(Seq<char>, int)>, ip: Seq<char>, now: int) -> bool {
        exists|j: int| 0 <= j < t.len() && t[j].0 == ip && is_live(t[j].1, now)
    }

    /// The addresses of the entries that are live at `now`, in entry order.
    pub open spec fn live_keys(t: Seq<(Seq<char>, int)>, now: int) -> Seq<Seq<char>> {
        t.filter(live_pred(now)).map_values(|e: (Seq<char>, int)| e.0)
    }

    /// The addresses whose last heartbeat falls within the liveness window
    /// at `now`, in the order their first heartbeats arrived. Stale entries
    /// stay in the tracker but are excluded here.
    pub fn eligible_workers(&self, now: i64) -> (r: Vec<String>)
        requires
            self.well_formed(),
        ensures
            names_view(r@) =~= Self::live_keys(self@, now as int),
            forall|i: int, j: int| 0 <= i < j < r@.len() ==> r@[i]@ != r@[j]@,
            forall|ip: Seq<char>|
                #[trigger] seq_contains_view(r@, ip) <==> self.as_map().contains_key(ip)
                    && is_live(self.as_map()[ip], now as int),
    {
        let mut r: Vec<String> = Vec::new();
        let mut i: usize = 0;
        while i < self.entries.len()
            invariant
                self.well_formed(),
                0 <= i <= self@.len(),
                names_view(r@) =~= Self::live_keys(self@.take(i as int), now as int),
                forall|k: int|
                    0 <= k < r@.len() ==> Self::has_live_entry(self@, #[trigger] r@[k]@, now as int),
                forall|j: int|
                    i <= j < self@.len() ==> !seq_contains_view(r@, #[trigger] self@[j].0),
                forall|j: int|
                    0 <= j < i && is_live(self@[j].1, now as int) ==> seq_contains_view(
                        r@,
                        #[trigger] self@[j].0,
                    ),
                forall|k: int, l: int| 0 <= k < l < r@.len() ==> r@[k]@ != r@[l]@,
            decreases self@.len() - i,
        {
            let live = {
                let diff: i128 = (now as i128) - (self.entries[i].1 as i128);
                diff < (TIMEOUT_IN_MINUTES as i128 + 1) * 60
            };
            proof {
                lemma_filter_step(self@, live_pred(now as int), i as int);
                assert(self@.take(i + 1).filter(live_pred(now as int)) == if live_pred(
                    now as int,
                )(self@[i as int]) {
                    self@.take(i as int).filter(live_pred(now as int)).push(self@[i as int])
                } else {
                    self@.take(i as int).filter(live_pred(now as int))
                });
                assert(live == live_pred(now as int)(self@[i as int]));
            }
            if live {
                let ghost prev = r@;
                r.push(self.entries[i].0.clone());
                proof {
                    assert(forall|k: int| 0 <= k < prev.len() ==> r@[k] == prev[k]);
                    assert(is_live(self@[i as int].1, now as int));
                    assert(r@[prev.len() as int]@ == self@[i as int].0);
                    assert forall|ip: Seq<char>| #[trigger] seq_contains_view(r@, ip) implies (
                    seq_contains_view(prev, ip) || ip == self@[i as int].0) by {
                        let k = choose|k: int| 0 <= k < r@.len() && r@[k]@ == ip;
                        if k < prev.len() {
                            assert(prev[k]@ == ip);
                        }
                    }
                    assert forall|ip: Seq<char>| seq_contains_view(prev, ip) implies
                    #[trigger] seq_contains_view(r@, ip) by {
                        let k = choose|k: int| 0 <= k < prev.len() && prev[k]@ == ip;
                        assert(r@[k]@ == ip);
                    }
                    assert(Self::has_live_entry(self@, self@[i as int].0, now as int));
                    assert forall|k: int| 0 <= k < r@.len() implies Self::has_live_entry(
                        self@,
                        #[trigger] r@[k]@,
                        now as int,
                    ) by {
                        if k < prev.len() {
                            assert(r@[k]@ == prev[k]@);
                        } else {
                            assert(r@[k]@ == self@[i as int].0);
                        }
                    }
                    assert(!seq_contains_view(prev, self@[i as int].0));
                    assert forall|k: int, l: int| 0 <= k < l < r@.len() implies r@[k]@
                        != r@[l]@ by {
                        if l == prev.len() as int {
                            assert(r@[k]@ == prev[k]@);
                            if r@[k]@ == r@[l]@ {
                                assert(seq_contains_view(prev, self@[i as int].0));
                            }
                        }
                    }
                    assert(seq_contains_view(r@, self@[i as int].0));
                    assert(names_view(r@) =~= names_view(prev).push(self@[i as int].0));
                    assert(Self::live_keys(self@.take(i + 1), now as int) =~= Self::live_keys(
                        self@.take(i as int),
                        now as int,
                    ).push(self@[i as int].0));
                    assert(names_view(r@) =~= Self::live_keys(self@.take(i + 1), now as int));
                }
            } else {
                proof {
                    assert(!is_live(self@[i as int].1, now as int));
                    assert(Self::live_keys(self@.take(i + 1), now as int) =~= Self::live_keys(
                        self@.take(i as int),
                        now as int,
                    ));
                }
            }
            i = i + 1;
        }
        proof {
            assert(self@.take(self@.len() as int) =~= self@);
            self.lemma_as_map();
            assert forall|ip: Seq<char>| #[trigger] seq_contains_view(r@, ip) implies
            self.as_map().contains_key(ip) && is_live(self.as_map()[ip], now as int) by {
                let k = choose|k: int| 0 <= k < r@.len() && r@[k]@ == ip;
                assert(Self::has_live_entry(self@, r@[k]@, now as int));
                let j = choose|j: int|
                    0 <= j < self@.len() && self@[j].0 == r@[k]@ && is_live(
                        self@[j].1,
                        now as int,
                    );
                assert(self.as_map()[self@[j].0] == self@[j].1);
            }
            assert forall|ip: Seq<char>|
                self.as_map().contains_key(ip) && is_live(
                    self.as_map()[ip],
                    now as int,
                ) implies #[trigger] seq_contains_view(r@, ip) by {
                let j = choose|j: int| 0 <= j < self@.len() && self@[j].0 == ip;
                assert(self.as_map()[self@[j].0] == self@[j].1);
            }
        }
        r
    }

    /// How many workers the tracker has ever heard from.
    pub fn len(&self) -> (r: usize)
        ensures
            r == self@.len(),
    {
        self.entries.len()
    }

    /// The last-seen time recorded for `ip`, if any.
    pub fn last_seen(&self, ip: &String) -> (r: Option<i64>)
        requires
            self.well_formed(),
        ensures
            match r {
                Some(ts) => self.as_map().contains_key(ip@) && self.as_map()[ip@] == ts as int,
                None => !self.as_map().contains_key(ip@),
            },
    {
        proof {
            self.lemma_as_map();
        }
        match self.find(ip) {
            Some(i) => Some(self.entries[i].1),
            None => None,
        }
    }
}

/// Heartbeat upsert: two heartbeats from the same worker identity leave the
/// tracker's map with exactly one binding for it, carrying the later time —
/// `record_heartbeat` turns the map `m` into `m.insert(ip, now)`, and two
/// such upserts collapse to the last one.
pub proof fn heartbeat_upsert(m: Map<Seq<char>, int>, ip: Seq<char>, first: int, second: int)
    ensures
        m.insert(ip, first).insert(ip, second) =~= m.insert(ip, second),
        m.insert(ip, first).insert(ip, second)[ip] == second,
        m.insert(ip, first).insert(ip, second).dom() =~= m.dom().insert(ip),
{
}

/// Whether some element of `s` has the view `ip`.
pub open spec fn seq_contains_view(s: Seq<String>, ip: Seq<char>) -> bool {
    exists|i: int| 0 <= i < s.len() && s[i]@ == ip
}

/// The predicate picking the tracker entries that are live at `now`.
pub open spec fn live_pred(now: int) -> spec_fn((Seq<char>, int)) -> bool {
    |e: (Seq<char>, int)| is_live(e.1, now)
}

} // verus!
