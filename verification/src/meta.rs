use vstd::prelude::*;

verus! {

/// Health of a host as recorded at placement time. The status is set once
/// when a chunk is placed and is never re-validated afterwards.
#[derive(Clone, Copy, Debug, PartialEq, Eq, Structural)]
pub enum Status {
    Unknown,
    Healthy,
    Dead,
}

/// One storage host assigned to a chunk: its address and the health it had
/// when the placement was made.
#[derive(Clone, Debug)]
pub struct Host {
    pub ip: String,
    pub status: Status,
}

/// Mathematical image of a `Host`.
#[verifier::ext_equal]
pub ghost struct HostSpec {
    pub ip: Seq<char>,
    pub status: Status,
}

impl View for Host {
    type V = HostSpec;

    open spec fn view(&self) -> HostSpec {
        HostSpec { ip: self.ip@, status: self.status }
    }
}

/// A chunk descriptor: the metadata record identifying one chunk of a file
/// and the hosts that are meant to hold it. The identity key for compaction
/// is the pair (`hash`, `chunk_id`); `file_name` collisions are not resolved
/// beyond last-write-wins at compaction time.
#[derive(Clone, Debug)]
pub struct MetaStore {
    pub file_name: String,
    pub hash: String,
    pub chunk_id: i32,
    pub hosts: Vec<Host>,
}

/// Mathematical image of a `MetaStore` descriptor.
#[verifier::ext_equal]
pub ghost struct MetaSpec {
    pub file_name: Seq<char>,
    pub hash: Seq<char>,
    pub chunk_id: int,
    pub hosts: Seq<HostSpec>,
}

/// The views of a sequence of hosts.
pub open spec fn hosts_view(s: Seq<Host>) -> Seq<HostSpec> {
    s.map_values(|h: Host| h@)
}

/// The views of a sequence of descriptors.
pub open spec fn metas_view(s: Seq<MetaStore>) -> Seq<MetaSpec> {
    s.map_values(|m: MetaStore| m@)
}

/// The views of a sequence of strings.
pub open spec fn names_view(s: Seq<String>) -> Seq<Seq<char>> {
    s.map_values(|x: String| x@)
}

impl View for MetaStore {
    type V = MetaSpec;

    open spec fn view(&self) -> MetaSpec {
        MetaSpec {
            file_name: self.file_name@,
            hash: self.hash@,
            chunk_id: self.chunk_id as int,
            hosts: hosts_view(self.hosts@),
        }
    }
}

impl MetaSpec {
    /// The compaction identity of a descriptor.
    pub open spec fn key(self) -> (Seq<char>, int) {
        (self.hash, self.chunk_id)
    }
}

impl Host {
    /// An exact copy, with its contents pinned down (unlike `clone`, whose
    /// effect on the view is not visible to the verifier).
    pub fn duplicate(&self) -> (r: Host)
        ensures
            r@ == self@,
    {
        Host { ip: self.ip.clone(), status: self.status }
    }
}

impl MetaStore {
    /// An exact copy, with its contents pinned down.
    pub fn duplicate(&self) -> (r: MetaStore)
        ensures
            r@ == self@,
    {
        let mut hosts: Vec<Host> = Vec::new();
        let mut i: usize = 0;
        while i < self.hosts.len()
            invariant
                0 <= i <= self.hosts.len(),
                hosts@.len() == i,
                forall|j: int| 0 <= j < i ==> hosts@[j]@ == self.hosts@[j]@,
            decreases self.hosts.len() - i,
        {
            let d = self.hosts[i].duplicate();
            hosts.push(d);
            i = i + 1;
        }
        proof {
            assert(hosts_view(hosts@) =~= hosts_view(self.hosts@));
        }
        let r = MetaStore {
            file_name: self.file_name.clone(),
            hash: self.hash.clone(),
            chunk_id: self.chunk_id,
            hosts,
        };
        proof {
            assert(r@ =~= self@);
        }
        r
    }
}

} // verus!
