use vstd::prelude::*;
use vstd::pervasive::VecAdditionalExecFns;

verus! {

/// How a worker request can fail: the chunk identifier is unknown, or the
/// payload is not valid base64.
#[derive(Clone, Copy, Debug, PartialEq, Eq, Structural)]
pub enum ChunkError {
    NotFound,
    BadEncoding,
}

/// What base64's standard engine encodes a byte string to. The result is a
/// function of the bytes alone.
pub uninterp spec fn b64_of(bytes: Seq<u8>) -> Seq<char>;

/// What base64's standard engine decodes a text to: the bytes, or nothing
/// when the text is not valid base64. The result is a function of the text
/// alone.
pub uninterp spec fn b64_decode_of(text: Seq<char>) -> Option<Seq<u8>>;

/// The error base64 reports for text it cannot decode.
#[verifier::external_type_specification]
#[verifier::external_body]
pub struct ExDecodeError(base64::DecodeError);

/// Relies on base64's `Engine::encode` with the standard engine
/// (`BASE64_STANDARD`): the result depends on the input bytes alone, and
/// `Engine::decode` of it with the same engine returns the input bytes.
#[verifier::external_body]
fn encode_bytes(bytes: &Vec<u8>) -> (r: String)
    ensures
        r@ == b64_of(bytes@),
        b64_decode_of(r@) == Some(bytes@),
{
    base64::Engine::encode(&base64::prelude::BASE64_STANDARD, bytes)
}

/// Relies on base64's `Engine::decode` with the standard engine: the result
/// depends on the input text alone, and it fails exactly on text that is
/// not valid base64.
#[verifier::external_body]
fn decode_text(text: &String) -> (r: Result<Vec<u8>, base64::DecodeError>)
    ensures
        r matches Ok(v) ==> b64_decode_of(text@) == Some(v@),
        r is Err ==> b64_decode_of(text@) is None,
{
    base64::Engine::decode(&base64::prelude::BASE64_STANDARD, text)
}

/// A worker's local chunk storage: raw bytes keyed by an opaque chunk
/// identifier string. The identifier's format is the caller's convention;
/// nothing is enforced here.
pub struct ChunkStore {
    entries: Vec<(String, Vec<u8>)>,
}

impl View for ChunkStore {
    type V = Seq<(Seq<char>, Seq<u8>)>;

    closed spec fn view(&self) -> Seq<(Seq<char>, Seq<u8>)> {
        Seq::new(self.entries@.len(), |i: int| (self.entries@[i].0@, self.entries@[i].1@))
    }
}

/// One chunk as it crosses the wire: its identifier and its bytes, base64
/// encoded.
#[derive(Clone, Debug)]
pub struct ChunkMsg {
    pub id: String,
    pub chunk: String,
}

impl ChunkStore {
    /// No two entries share an identifier.
    pub open spec fn well_formed(self) -> bool {
        forall|i: int, j: int| 0 <= i < j < self@.len() ==> self@[i].0 != self@[j].0
    }

    /// The store as a map from identifier to bytes.
    pub open spec fn as_map(self) -> Map<Seq<char>, Seq<u8>> {
        Map::new(
            |id: Seq<char>| exists|i: int| 0 <= i < self@.len() && self@[i].0 == id,
            |id: Seq<char>| self@[choose|i: int| 0 <= i < self@.len() && self@[i].0 == id].1,
        )
    }

    /// Every identifier in the entry list carries exactly the bytes that
    /// the map view assigns to it.
    pub proof fn lemma_as_map(self)
        requires
            self.well_formed(),
        ensures
            forall|i: int|
                0 <= i < self@.len() ==> self.as_map().contains_key(#[trigger] self@[i].0)
                    && self.as_map()[self@[i].0] == self@[i].1,
            forall|id: Seq<char>|
                self.as_map().contains_key(id) ==> exists|i: int|
                    0 <= i < self@.len() && self@[i].0 == id,
    {
        assert forall|i: int| 0 <= i < self@.len() implies self.as_map().contains_key(
            #[trigger] self@[i].0,
        ) && self.as_map()[self@[i].0] == self@[i].1 by {
            let id = self@[i].0;
            let w = choose|k: int| 0 <= k < self@.len() && self@[k].0 == id;
            assert(self@[w].0 == id);
        }
    }

    /// An empty store.
    pub fn new() -> (r: ChunkStore)
        ensures
            r@ =~= Seq::<(Seq<char>, Seq<u8>)>::empty(),
            r.well_formed(),
    {
        ChunkStore { entries: Vec::new() }
    }

    /// The position of the entry for `id`, if one exists.
    fn find(&self, id: &String) -> (r: Option<usize>)
        ensures
            match r {
                Some(i) => 0 <= i < self@.len() && self@[i as int].0 == id@,
                None => forall|i: int| 0 <= i < self@.len() ==> self@[i].0 != id@,
            },
    {
        let mut i: usize = 0;
        while i < self.entries.len()
            invariant
                0 <= i <= self@.len(),
                forall|j: int| 0 <= j < i ==> self@[j].0 != id@,
            decreases self@.len() - i,
        {
            if self.entries[i].0 == *id {
                return Some(i);
            }
            i = i + 1;
        }
        None
    }

    /// If this store's entries are those of `prev` with `bytes` written at
    /// position `i` under `id` (in place over the entry that held `id`, or
    /// appended when `id` is new), its map view is the upsert of `prev`'s.
    proof fn lemma_upsert(
        self,
        prev: ChunkStore,
        i: int,
        id: Seq<char>,
        bytes: Seq<u8>,
    )
        requires
            self.well_formed(),
            prev.well_formed(),
            0 <= i < self@.len(),
            self@[i] == (id, bytes),
            self@.len() == if i < prev@.len() {
                prev@.len()
            } else {
                prev@.len() + 1
            },
            i < prev@.len() ==> prev@[i].0 == id,
            forall|k: int| 0 <= k < self@.len() && k != i ==> self@[k] == prev@[k],
        ensures
            self.as_map() =~= prev.as_map().insert(id, bytes),
    {
        self.lemma_as_map();
        prev.lemma_as_map();
        let m0 = prev.as_map();
        let m1 = self.as_map();
        assert forall|w: Seq<char>| #[trigger] m1.contains_key(w) implies m0.insert(
            id,
            bytes,
        ).contains_key(w) && m1[w] == m0.insert(id, bytes)[w] by {
            let k = choose|k: int| 0 <= k < self@.len() && self@[k].0 == w;
            assert(m1[self@[k].0] == self@[k].1);
            if w == id {
                assert(k == i);
            } else {
                assert(k != i);
                assert(prev@[k] == self@[k]);
                assert(m0[prev@[k].0] == prev@[k].1);
            }
        }
        assert forall|w: Seq<char>| #[trigger] m0.insert(id, bytes).contains_key(w) implies
        m1.contains_key(w) by {
            if w == id {
                assert(self@[i].0 == w);
            } else {
                let k = choose|k: int| 0 <= k < prev@.len() && prev@[k].0 == w;
                if k != i {
                    assert(self@[k].0 == w);
                }
            }
        }
    }

    /// Creates or overwrites the bytes stored under `id`.
    pub fn store(&mut self, id: String, bytes: Vec<u8>)
        requires
            old(self).well_formed(),
        ensures
            final(self).well_formed(),
            final(self).as_map() =~= old(self).as_map().insert(id@, bytes@),
    {
        let ghost idv = id@;
        let ghost bv = bytes@;
        match self.find(&id) {
            Some(i) => {
                self.entries.set(i, (id, bytes));
                proof {
                    assert(self@ =~= old(self)@.update(i as int, (idv, bv)));
                    assert(self.well_formed());
                    self.lemma_upsert(*old(self), i as int, idv, bv);
                }
            },
            None => {
                self.entries.push((id, bytes));
                proof {
                    assert(self@ =~= old(self)@.push((idv, bv)));
                    assert forall|k: int, l: int|
                        0 <= k < l < self@.len() implies self@[k].0 != self@[l].0 by {
                        if l == self@.len() - 1 {
                            assert(old(self)@[k].0 != idv);
                        }
                    }
                    self.lemma_upsert(*old(self), old(self)@.len() as int, idv, bv);
                }
            },
        }
    }

    /// The bytes stored under `id`, if any.
    pub fn get(&self, id: &String) -> (r: Option<&Vec<u8>>)
        requires
            self.well_formed(),
        ensures
            match r {
                Some(v) => self.as_map().contains_key(id@) && v@ == self.as_map()[id@],
                None => !self.as_map().contains_key(id@),
            },
    {
        proof {
            self.lemma_as_map();
        }
        match self.find(id) {
            Some(i) => Some(&self.entries[i].1),
            None => None,
        }
    }

    /// Removes the bytes stored under `id`; fails when the identifier is
    /// unknown, and then changes nothing.
    pub fn delete(&mut self, id: &String) -> (r: Result<(), ChunkError>)
        requires
            old(self).well_formed(),
        ensures
            final(self).well_formed(),
            r matches Ok(()) <==> old(self).as_map().contains_key(id@),
            r matches Ok(()) ==> final(self).as_map() =~= old(self).as_map().remove(id@),
            r is Err ==> (r matches Err(e) && e == ChunkError::NotFound && final(self)@ == old(
                self,
            )@),
    {
        proof {
            self.lemma_as_map();
        }
        match self.find(id) {
            Some(i) => {
                self.entries.remove(i);
                proof {
                    assert(self@ =~= old(self)@.remove(i as int));
                    assert forall|k: int, l: int|
                        0 <= k < l < self@.len() implies self@[k].0 != self@[l].0 by {
                        assert(self@[k] == if k < i as int {
                            old(self)@[k]
                        } else {
                            old(self)@[k + 1]
                        });
                        assert(self@[l] == if l < i as int {
                            old(self)@[l]
                        } else {
                            old(self)@[l + 1]
                        });
                    }
                    self.lemma_as_map();
                    old(self).lemma_as_map();
                    let m0 = old(self).as_map();
                    let m1 = self.as_map();
                    assert forall|w: Seq<char>| #[trigger] m1.contains_key(w) implies
                    m0.remove(id@).contains_key(w) && m1[w] == m0.remove(id@)[w] by {
                        let k = choose|k: int| 0 <= k < self@.len() && self@[k].0 == w;
                        assert(m1[self@[k].0] == self@[k].1);
                        let k0 = if k < i as int {
                            k
                        } else {
                            k + 1
                        };
                        assert(self@[k] == old(self)@[k0]);
                        assert(m0[old(self)@[k0].0] == old(self)@[k0].1);
                        assert(w != id@);
                    }
                    assert forall|w: Seq<char>| #[trigger] m0.remove(id@).contains_key(
                        w,
                    ) implies m1.contains_key(w) by {
                        let k = choose|k: int| 0 <= k < old(self)@.len() && old(self)@[k].0 == w;
                        assert(k != i as int);
                        let k1 = if k < i as int {
                            k
                        } else {
                            k - 1
                        };
                        assert(self@[k1] == old(self)@[k]);
                        assert(self@[k1].0 == w);
                    }
                    assert(self.as_map() =~= old(self).as_map().remove(id@));
                }
                Ok(())
            },
            None => Err(ChunkError::NotFound),
        }
    }
}

/// The worker's answer to a fetch: the stored bytes under `id`, base64
/// encoded for the wire, or not-found. The same payload serves the chunk
/// forwarding path, whose remote call is the caller's I/O.
pub fn get_chunk(store: &ChunkStore, id: &String) -> (r: Result<ChunkMsg, ChunkError>)
    requires
        store.well_formed(),
    ensures
        r is Ok <==> store.as_map().contains_key(id@),
        r matches Ok(c) ==> c.id@ == id@ && c.chunk@ == b64_of(store.as_map()[id@])
            && b64_decode_of(c.chunk@) == Some(store.as_map()[id@]),
        r is Err ==> (r matches Err(e) && e == ChunkError::NotFound),
{
    match store.get(id) {
        Some(bytes) => {
            let chunk = encode_bytes(bytes);
            Ok(ChunkMsg { id: id.clone(), chunk })
        },
        None => Err(ChunkError::NotFound),
    }
}

/// The worker's handling of a store request: decodes the base64 payload
/// and stores the bytes under `id`, overwriting any previous content. It
/// fails exactly on payloads that are not valid base64, and then changes
/// nothing.
pub fn store_chunk(store: &mut ChunkStore, id: &String, payload: &String) -> (r: Result<
    String,
    ChunkError,
>)
    requires
        old(store).well_formed(),
    ensures
        final(store).well_formed(),
        r is Ok <==> b64_decode_of(payload@) is Some,
        r matches Ok(rid) ==> rid@ == id@ && (b64_decode_of(payload@) matches Some(b)
            && final(store).as_map() =~= old(store).as_map().insert(id@, b)),
        r is Err ==> (r matches Err(e) && e == ChunkError::BadEncoding && final(store)@ == old(
            store,
        )@),
{
    match decode_text(payload) {
        Ok(bytes) => {
            store.store(id.clone(), bytes);
            Ok(id.clone())
        },
        Err(_) => Err(ChunkError::BadEncoding),
    }
}

/// The worker's handling of a delete request: forwards to the store and
/// reports its result under the wire identifier.
pub fn delete_chunk(store: &mut ChunkStore, id: &String) -> (r: Result<String, ChunkError>)
    requires
        old(store).well_formed(),
    ensures
        final(store).well_formed(),
        r is Ok <==> old(store).as_map().contains_key(id@),
        r matches Ok(rid) ==> rid@ == id@ && final(store).as_map() =~= old(store).as_map().remove(
            id@,
        ),
        r is Err ==> (r matches Err(e) && e == ChunkError::NotFound && final(store)@ == old(
            store,
        )@),
{
    match store.delete(id) {
        Ok(()) => Ok(id.clone()),
        Err(e) => Err(e),
    }
}

/// Chunk round trip: pushing bytes through the wire encoding into a worker
/// store under `id`, and then fetching and decoding that same `id`, always
/// succeeds and returns byte-identical content.
pub fn chunk_round_trip(store: &mut ChunkStore, id: &String, bytes: &Vec<u8>) -> (r: Option<
    Vec<u8>,
>)
    requires
        old(store).well_formed(),
    ensures
        final(store).well_formed(),
        r matches Some(b) && b@ == bytes@,
{
    let wire = encode_bytes(bytes);
    match store_chunk(store, id, &wire) {
        Ok(_) => {},
        Err(_) => {
            return None;
        },
    }
    match get_chunk(store, id) {
        Ok(msg) => match decode_text(&msg.chunk) {
            Ok(b) => Some(b),
            Err(_) => None,
        },
        Err(_) => None,
    }
}

} // verus!
