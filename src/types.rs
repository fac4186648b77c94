use std::collections::HashMap;
use vstd::prelude::*;

verus! {

/// How an asset's bytes are encoded.
#[derive(Clone, Copy, Debug, PartialEq, Eq, Structural)]
pub enum ContentEncoding {
    Identity,
    GZIP,
}

/// A fragment as it is handed in by a caller: its position and its bytes.
pub struct ChunkArg {
    pub order: u32,
    pub content: Vec<u8>,
}

/// A pending fragment, owned by the caller that uploaded it.
///
/// `owner` holds the bytes of the caller's principal.
pub struct StableChunk {
    pub content: Vec<u8>,
    pub owner: Vec<u8>,
    pub created_at: u64,
    pub order: u32,
    pub checksum: u32,
    pub id: u128,
}

/// What a fragment shows of itself: everything but its bytes.
pub struct ChunkQuery {
    pub owner: Vec<u8>,
    pub created_at: u64,
    pub order: u32,
    pub checksum: u32,
    pub id: u128,
}

/// A committed, immutable asset. `content[i]` is the payload of chunk `i`.
pub struct StableAsset {
    pub content: Vec<Vec<u8>>,
    pub file_name: String,
    pub owner: Vec<u8>,
    pub content_encoding: ContentEncoding,
    pub url: String,
    pub chunk_size: u32,
    pub id: u128,
    pub content_type: String,
}

/// What an asset shows of itself: everything but its bytes.
pub struct AssetQuery {
    pub file_name: String,
    pub owner: Vec<u8>,
    pub content_encoding: ContentEncoding,
    pub url: String,
    pub id: u128,
    pub content_type: String,
}

/// Errors of the storage operations.
#[derive(Debug)]
pub enum StorageError {
    /// The listed chunk or asset ids do not exist.
    NotFound(Vec<u128>),
    /// The listed ids belong to another caller.
    NotOwned(Vec<u128>),
    /// The aggregate of the fragments' checksums differs from the declared one.
    ChecksumMismatch { expected: u32, actual: u32 },
    /// None of the claimed fragments can be assembled.
    EmptyCommit,
    /// An id counter is exhausted.
    AllocationFailure,
    /// A locator whose last path segment is not an unsigned integer.
    MalformedLocator,
    /// A continuation token that refers to no chunk of a stored asset.
    InvalidContinuationToken,
}

impl StableAsset {
    /// The payload of each chunk, in position order.
    pub open spec fn content_view(&self) -> Seq<Seq<u8>> {
        self.content@.map_values(|v: Vec<u8>| v@)
    }

    /// The asset holds exactly `chunk_size` chunks, and at least one.
    pub open spec fn wf(&self) -> bool {
        &&& self.content@.len() == self.chunk_size as int
        &&& self.chunk_size >= 1
    }
}

/// One HTTP header: its name and its value.
pub struct HeaderField(pub String, pub String);

/// An HTTP request as the transport hands it in.
pub struct HttpRequest {
    pub method: String,
    pub url: String,
    pub headers: Vec<HeaderField>,
    pub body: Vec<u8>,
}

/// An HTTP response, with the strategy for fetching the rest of a long body.
pub struct HttpResponse {
    pub status_code: u16,
    pub headers: Vec<HeaderField>,
    pub body: Vec<u8>,
    pub streaming_strategy: Option<StreamingStrategy>,
}

/// Where a delivery stands: the chunk just served and the asset's chunk count.
pub struct CreateStrategyArgs {
    pub asset_id: u128,
    pub chunk_index: u32,
    pub chunk_size: u32,
}

/// A continuation token: everything needed to serve the next chunk.
pub struct StreamingCallbackToken {
    pub asset_id: u128,
    pub chunk_index: u32,
    pub chunk_size: u32,
    pub content_encoding: String,
}

/// The method to call back with a token: the canister's principal bytes and the
/// method's name.
pub struct CallbackFunc {
    pub principal: Vec<u8>,
    pub method: String,
}

/// How the client fetches the rest of a body.
pub enum StreamingStrategy {
    Callback { token: StreamingCallbackToken, callback: CallbackFunc },
}

/// The answer to a continuation request: one more chunk and, unless it was the
/// last, the next token.
pub struct StreamingCallbackHttpResponse {
    pub body: Vec<u8>,
    pub token: Option<StreamingCallbackToken>,
}

/// The whole storage: pending fragments, committed assets and two id counters.
pub struct State {
    pub chunk_count: u128,
    pub chunks: HashMap<u128, StableChunk>,
    pub asset_count: u128,
    pub assets: HashMap<u128, StableAsset>,
}

impl State {
    /// Each entry is stored under its own id, below the counter of its kind, and
    /// each asset is well formed.
    pub open spec fn wf(&self) -> bool {
        &&& self.chunk_count >= 1
        &&& self.asset_count >= 1
        &&& forall|k: u128| #[trigger]
            self.chunks@.contains_key(k) ==> self.chunks@[k].id == k && 1 <= k
                < self.chunk_count
        &&& forall|k: u128| #[trigger]
            self.assets@.contains_key(k) ==> self.assets@[k].id == k && 1 <= k
                < self.asset_count && self.assets@[k].wf()
    }

    /// Hands out the next fragment id.
    pub fn get_chunk_id(&mut self) -> (id: u128)
        requires
            old(self).chunk_count < u128::MAX,
        ensures
            id == old(self).chunk_count,
            final(self).chunk_count == old(self).chunk_count + 1,
            final(self).chunks@ == old(self).chunks@,
            final(self).asset_count == old(self).asset_count,
            final(self).assets@ == old(self).assets@,
    {
        let id = self.chunk_count;
        self.chunk_count = self.chunk_count + 1;
        id
    }

    /// Hands out the next asset id.
    pub fn get_asset_id(&mut self) -> (id: u128)
        requires
            old(self).asset_count < u128::MAX,
        ensures
            id == old(self).asset_count,
            final(self).asset_count == old(self).asset_count + 1,
            final(self).assets@ == old(self).assets@,
            final(self).chunk_count == old(self).chunk_count,
            final(self).chunks@ == old(self).chunks@,
    {
        let id = self.asset_count;
        self.asset_count = self.asset_count + 1;
        id
    }
}

impl Default for State {
    fn default() -> (s: State)
        ensures
            s.wf(),
            s.chunk_count == 1,
            s.asset_count == 1,
            s.chunks@ == Map::<u128, StableChunk>::empty(),
            s.assets@ == Map::<u128, StableAsset>::empty(),
    {
        State {
            chunk_count: 1,
            chunks: HashMap::new(),
            asset_count: 1,
            assets: HashMap::new(),
        }
    }
}

/// Whether two principals, given by their bytes, are the same.
pub fn same_principal(a: &Vec<u8>, b: &Vec<u8>) -> (r: bool)
    ensures
        r == (a@ == b@),
{
    if a.len() != b.len() {
        return false;
    }
    let mut i: usize = 0;
    while i < a.len()
        invariant
            a@.len() == b@.len(),
            i <= a@.len(),
            forall|j: int| 0 <= j < i ==> a@[j] == b@[j],
        decreases a@.len() - i,
    {
        if a[i] != b[i] {
            return false;
        }
        i = i + 1;
    }
    assert(a@ =~= b@);
    true
}

/// A copy of a byte vector.
pub fn copy_bytes(v: &Vec<u8>) -> (r: Vec<u8>)
    ensures
        r@ == v@,
{
    let mut r: Vec<u8> = Vec::new();
    let mut i: usize = 0;
    while i < v.len()
        invariant
            i <= v@.len(),
            r@ == v@.subrange(0, i as int),
        decreases v@.len() - i,
    {
        r.push(v[i]);
        i = i + 1;
        assert(r@ =~= v@.subrange(0, i as int));
    }
    assert(r@ =~= v@);
    r
}

impl ChunkQuery {
    /// The public view of a fragment.
    pub fn of(c: &StableChunk) -> (q: ChunkQuery)
        ensures
            q.owner@ == c.owner@,
            q.created_at == c.created_at,
            q.order == c.order,
            q.checksum == c.checksum,
            q.id == c.id,
    {
        ChunkQuery {
            owner: copy_bytes(&c.owner),
            created_at: c.created_at,
            order: c.order,
            checksum: c.checksum,
            id: c.id,
        }
    }
}

impl AssetQuery {
    /// The public view of an asset.
    pub fn of(a: &StableAsset) -> (q: AssetQuery)
        ensures
            q.file_name@ == a.file_name@,
            q.owner@ == a.owner@,
            q.content_encoding == a.content_encoding,
            q.url@ == a.url@,
            q.id == a.id,
            q.content_type@ == a.content_type@,
    {
        AssetQuery {
            file_name: a.file_name.clone(),
            owner: copy_bytes(&a.owner),
            content_encoding: a.content_encoding,
            url: a.url.clone(),
            id: a.id,
            content_type: a.content_type.clone(),
        }
    }
}

/// Every key of a map, in the order in which the map yields them.
pub(crate) fn keys_of<V>(m: &HashMap<u128, V>) -> (r: Vec<u128>)
    ensures
        forall|x: u128| r@.contains(x) <==> m@.contains_key(x),
{
    let mut r: Vec<u128> = Vec::new();
    for k in it: m.keys()
        invariant
            r@ == it.seq().unref().subrange(0, it.index() as int),
            it.seq().unref().to_set() == m@.dom(),
            it.index() == it.seq().len() ==> forall|x: u128| m@.contains_key(x) ==> r@.contains(x),
            forall|x: u128| r@.contains(x) ==> m@.contains_key(x),
    {
        r.push(*k);
        assert(r@ =~= it.seq().unref().subrange(0, it.index() + 1));
        assert forall|x: u128| r@.contains(x) implies m@.contains_key(x) by {
            let j = choose|j: int| 0 <= j < r@.len() && r@[j] == x;
            assert(it.seq().unref()[j] == x);
            assert(it.seq().unref().contains(x));
        }
        assert forall|x: u128|
            it.index() + 1 == it.seq().len() && m@.contains_key(x) implies r@.contains(x) by {
            assert(it.seq().unref().to_set().contains(x));
            let j = choose|j: int| 0 <= j < it.seq().len() && it.seq().unref()[j] == x;
            assert(r@[j] == x);
        }
    }
    r
}

/// Pushing `v` adds exactly `v` to what a sequence contains.
pub(crate) proof fn lemma_push_contains(s: Seq<u128>, v: u128)
    ensures
        forall|x: u128| #[trigger] s.push(v).contains(x) <==> (s.contains(x) || x == v),
{
    assert forall|x: u128| #[trigger] s.push(v).contains(x) <==> (s.contains(x) || x == v) by {
        if s.push(v).contains(x) {
            let k = choose|k: int| 0 <= k < s.len() + 1 && s.push(v)[k] == x;
            if k < s.len() {
                assert(s[k] == x);
            }
        }
        if s.contains(x) {
            let k = choose|k: int| 0 <= k < s.len() && s[k] == x;
            assert(s.push(v)[k] == x);
        }
        if x == v {
            assert(s.push(v)[s.len() as int] == x);
        }
    }
}

} // verus!
