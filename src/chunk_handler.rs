use vstd::prelude::*;

use crate::checksum::{content_hash, crc32_of};
use crate::types::{keys_of, lemma_push_contains, ChunkQuery, ChunkArg, StableChunk, State, StorageError};

verus! {

/// How long a pending fragment is kept: ten minutes, in nanoseconds.
pub const RETENTION_NANOS: u64 = 600_000_000_000;

/// The fragment is older than the retention window at time `now`.
pub open spec fn is_expired(c: StableChunk, now: u64) -> bool {
    (c.created_at as int) + (RETENTION_NANOS as int) < (now as int)
}

/// The fragments that a sweep at time `now` keeps.
pub open spec fn swept(m: Map<u128, StableChunk>, now: u64) -> Map<u128, StableChunk> {
    m.restrict(m.dom().filter(|k: u128| !is_expired(m[k], now)))
}

/// `c` is the fragment `id` that `caller` uploaded at `now` with the given order,
/// bytes and checksum.
pub open spec fn is_new_chunk(
    c: StableChunk,
    id: u128,
    caller: Seq<u8>,
    now: u64,
    order: u32,
    content: Seq<u8>,
    checksum: u32,
) -> bool {
    &&& c.id == id
    &&& c.owner@ == caller
    &&& c.created_at == now
    &&& c.order == order
    &&& c.content@ == content
    &&& c.checksum == checksum
}

/// The outcome of storing a fragment whose checksum is `checksum`.
pub open spec fn stored(
    pre: State,
    post: State,
    caller: Seq<u8>,
    now: u64,
    order: u32,
    content: Seq<u8>,
    checksum: u32,
    r: Result<u128, StorageError>,
) -> bool {
    if pre.chunk_count == u128::MAX {
        &&& r matches Err(StorageError::AllocationFailure)
        &&& post.chunks@ == pre.chunks@
        &&& post.chunk_count == pre.chunk_count
        &&& post.assets@ == pre.assets@
        &&& post.asset_count == pre.asset_count
    } else {
        &&& r == Ok::<u128, StorageError>(pre.chunk_count)
        &&& post.chunk_count == pre.chunk_count + 1
        &&& post.chunks@.contains_key(pre.chunk_count)
        &&& post.chunks@.remove(pre.chunk_count) == pre.chunks@
        &&& is_new_chunk(post.chunks@[pre.chunk_count], pre.chunk_count, caller, now, order, content, checksum)
        &&& post.assets@ == pre.assets@
        &&& post.asset_count == pre.asset_count
    }
}

/// Stores a fragment of `caller` under the next fragment id, with the given checksum.
pub fn store_chunk(state: &mut State, caller: &Vec<u8>, now: u64, arg: ChunkArg, checksum: u32) -> (r:
    Result<u128, StorageError>)
    requires
        old(state).wf(),
    ensures
        final(state).wf(),
        stored(*old(state), *final(state), caller@, now, arg.order, arg.content@, checksum, r),
{
    if state.chunk_count == u128::MAX {
        return Err(StorageError::AllocationFailure);
    }
    let ghost pre = state.chunks@;
    let id = state.get_chunk_id();
    let chunk = StableChunk {
        content: arg.content,
        owner: crate::types::copy_bytes(caller),
        created_at: now,
        order: arg.order,
        checksum,
        id,
    };
    state.chunks.insert(id, chunk);
    assert(state.chunks@.remove(id) =~= pre);
    Ok(id)
}

/// Stores a fragment of `caller`, uploaded at `now`, under the next fragment id; its
/// checksum is the CRC-32 of its bytes.
pub fn upload_chunk(state: &mut State, caller: &Vec<u8>, now: u64, arg: ChunkArg) -> (r: Result<
    u128,
    StorageError,
>)
    requires
        old(state).wf(),
    ensures
        final(state).wf(),
        stored(*old(state), *final(state), caller@, now, arg.order, arg.content@, crc32_of(arg.content@), r),
{
    let checksum = content_hash(&arg.content);
    store_chunk(state, caller, now, arg, checksum)
}

/// Every id of `ids` names a stored fragment.
pub open spec fn all_stored(m: Map<u128, StableChunk>, ids: Seq<u128>) -> bool {
    forall|i: int| 0 <= i < ids.len() ==> m.contains_key(#[trigger] ids[i])
}

/// Whether every queried fragment is stored.
pub fn chunk_availability_check(state: &State, ids: &Vec<u128>) -> (r: bool)
    ensures
        r == all_stored(state.chunks@, ids@),
{
    let mut i: usize = 0;
    while i < ids.len()
        invariant
            i <= ids@.len(),
            forall|j: int| 0 <= j < i ==> state.chunks@.contains_key(#[trigger] ids@[j]),
        decreases ids@.len() - i,
    {
        if !state.chunks.contains_key(&ids[i]) {
            return false;
        }
        i = i + 1;
    }
    true
}

/// Removes every fragment older than the retention window at time `now`.
pub fn clear_expired_chunks(state: &mut State, now: u64)
    requires
        old(state).wf(),
    ensures
        final(state).wf(),
        final(state).chunks@ == swept(old(state).chunks@, now),
        final(state).chunk_count == old(state).chunk_count,
        final(state).assets@ == old(state).assets@,
        final(state).asset_count == old(state).asset_count,
{
    let ghost m = state.chunks@;
    let ids = keys_of(&state.chunks);
    let mut i: usize = 0;
    while i < ids.len()
        invariant
            i <= ids@.len(),
            forall|x: u128| ids@.contains(x) <==> m.contains_key(x),
            forall|x: u128| #[trigger] state.chunks@.contains_key(x) ==> m.contains_key(x) && state.chunks@[x] == m[x],
            forall|x: u128|
                #[trigger] m.contains_key(x) ==> (state.chunks@.contains_key(x) <==> (!is_expired(m[x], now)
                    || !ids@.subrange(0, i as int).contains(x))),
            state.chunk_count == old(state).chunk_count,
            state.assets@ == old(state).assets@,
            state.asset_count == old(state).asset_count,
        decreases ids@.len() - i,
    {
        let id = ids[i];
        proof {
            assert(ids@.subrange(0, i + 1) =~= ids@.subrange(0, i as int).push(id));
            assert(ids@.contains(id));
            lemma_push_contains(ids@.subrange(0, i as int), id);
        }
        let expired = match state.chunks.get(&id) {
            Some(c) => c.created_at < now && now - c.created_at > RETENTION_NANOS,
            None => false,
        };
        if expired {
            state.chunks.remove(&id);
        }
        i = i + 1;
    }
    proof {
        assert(ids@.subrange(0, ids@.len() as int) =~= ids@);
        assert(state.chunks@ =~= swept(m, now));
    }
}

/// The public view of fragment `id`, or `NotFound` listing `id`.
pub fn get_chunk(state: &State, id: u128) -> (r: Result<ChunkQuery, StorageError>)
    requires
        state.wf(),
    ensures
        match r {
            Ok(q) => state.chunks@.contains_key(id) && q.id == id
                && q.owner@ == state.chunks@[id].owner@
                && q.created_at == state.chunks@[id].created_at
                && q.order == state.chunks@[id].order
                && q.checksum == state.chunks@[id].checksum,
            Err(e) => !state.chunks@.contains_key(id) && (e matches StorageError::NotFound(v) && v@ == seq![id]),
        },
{
    match state.chunks.get(&id) {
        None => Err(StorageError::NotFound(vec![id])),
        Some(c) => Ok(ChunkQuery::of(c)),
    }
}

/// The availability check answers false exactly when some queried id is absent,
/// so two queries naming the same ids, in any order and with any repetition, get
/// the same answer.
pub proof fn lemma_availability_ignores_order(m: Map<u128, StableChunk>, a: Seq<u128>, b: Seq<u128>)
    requires
        forall|x: u128| a.contains(x) <==> b.contains(x),
    ensures
        all_stored(m, a) == all_stored(m, b),
        !all_stored(m, a) <==> exists|i: int| 0 <= i < a.len() && !m.contains_key(#[trigger] a[i]),
{
    if all_stored(m, a) {
        assert forall|i: int| 0 <= i < b.len() implies m.contains_key(#[trigger] b[i]) by {
            assert(b.contains(b[i]));
            let k = choose|k: int| 0 <= k < a.len() && a[k] == b[i];
        }
    }
    if all_stored(m, b) {
        assert forall|i: int| 0 <= i < a.len() implies m.contains_key(#[trigger] a[i]) by {
            assert(a.contains(a[i]));
            let k = choose|k: int| 0 <= k < b.len() && b[k] == a[i];
        }
    }
}

/// A sweep removes exactly the fragments older than the retention window and keeps
/// the younger ones unchanged; a second sweep at the same time removes nothing more.
pub proof fn lemma_sweep_idempotent(m: Map<u128, StableChunk>, now: u64)
    ensures
        forall|k: u128| #[trigger]
            swept(m, now).contains_key(k) <==> (m.contains_key(k) && !is_expired(m[k], now)),
        forall|k: u128| #[trigger] swept(m, now).contains_key(k) ==> swept(m, now)[k] == m[k],
        swept(swept(m, now), now) == swept(m, now),
{
    assert(swept(swept(m, now), now) =~= swept(m, now));
}

} // verus!
