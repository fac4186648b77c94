use std::collections::HashMap;
use vstd::prelude::*;

use crate::checksum::{aggregate, lemma_aggregate_is_total_mod, lemma_total_concat, total, MODULO_VALUE};
use crate::types::{
    keys_of, lemma_push_contains, same_principal, AssetQuery, ContentEncoding, StableAsset, StableChunk,
    State, StorageError,
};
use crate::utils::{asset_url, generate_url};

verus! {

/// What a caller hands in to assemble an asset from its fragments.
pub struct AssetArg {
    pub checksum: u32,
    pub chunk_ids: Vec<u128>,
    pub content_type: String,
    pub file_name: String,
    pub content_encoding: ContentEncoding,
}

/// The claimed ids that name no stored fragment, each once, in claim order.
pub open spec fn missing_ids(m: Map<u128, StableChunk>, ids: Seq<u128>) -> Seq<u128>
    decreases ids.len(),
{
    if ids.len() == 0 {
        Seq::empty()
    } else {
        let p = ids.drop_last();
        let x = ids.last();
        if !m.contains_key(x) && !p.contains(x) {
            missing_ids(m, p).push(x)
        } else {
            missing_ids(m, p)
        }
    }
}

/// The claimed ids (first claims only) whose fragment belongs to someone else.
pub open spec fn foreign_ids(m: Map<u128, StableChunk>, caller: Seq<u8>, ids: Seq<u128>) -> Seq<u128>
    decreases ids.len(),
{
    if ids.len() == 0 {
        Seq::empty()
    } else {
        let p = ids.drop_last();
        let x = ids.last();
        if m.contains_key(x) && !p.contains(x) && m[x].owner@ != caller {
            foreign_ids(m, caller, p).push(x)
        } else {
            foreign_ids(m, caller, p)
        }
    }
}

/// The claims of a caller's own fragment that repeat an earlier claim of it, in claim
/// order (a fragment is consumed by its first claim).
pub open spec fn repeated_ids(m: Map<u128, StableChunk>, caller: Seq<u8>, ids: Seq<u128>) -> Seq<u128>
    decreases ids.len(),
{
    if ids.len() == 0 {
        Seq::empty()
    } else {
        let p = ids.drop_last();
        let x = ids.last();
        if m.contains_key(x) && p.contains(x) && m[x].owner@ == caller {
            repeated_ids(m, caller, p).push(x)
        } else {
            repeated_ids(m, caller, p)
        }
    }
}

/// The claimed ids (first claims only) whose fragment belongs to the caller.
pub open spec fn owned_ids(m: Map<u128, StableChunk>, caller: Seq<u8>, ids: Seq<u128>) -> Seq<u128>
    decreases ids.len(),
{
    if ids.len() == 0 {
        Seq::empty()
    } else {
        let p = ids.drop_last();
        let x = ids.last();
        if m.contains_key(x) && !p.contains(x) && m[x].owner@ == caller {
            owned_ids(m, caller, p).push(x)
        } else {
            owned_ids(m, caller, p)
        }
    }
}

/// `p` lists the same ids as `q`, each once, in some order.
pub open spec fn is_permutation(p: Seq<u128>, q: Seq<u128>) -> bool {
    &&& p.no_duplicates()
    &&& q.no_duplicates()
    &&& p.len() == q.len()
    &&& forall|x: u128| p.contains(x) <==> q.contains(x)
}

/// The fragments named by `p` come in ascending `order`.
pub open spec fn sorted_by_order(m: Map<u128, StableChunk>, p: Seq<u128>) -> bool {
    forall|i: int, j: int|
        0 <= i < j < p.len() ==> #[trigger] m[p[i]].order <= #[trigger] m[p[j]].order
}

/// The fragments' checksums, in the order of `p`.
pub open spec fn checksums_of(m: Map<u128, StableChunk>, p: Seq<u128>) -> Seq<u32> {
    p.map_values(|id: u128| m[id].checksum)
}

/// The fragments' bytes, in the order of `p`.
pub open spec fn contents_of(m: Map<u128, StableChunk>, p: Seq<u128>) -> Seq<Seq<u8>> {
    p.map_values(|id: u128| m[id].content@)
}

/// `p` is an order in which the caller's claimed fragments may be assembled.
pub open spec fn is_assembly_order(
    m: Map<u128, StableChunk>,
    caller: Seq<u8>,
    ids: Seq<u128>,
    p: Seq<u128>,
) -> bool {
    &&& is_permutation(p, owned_ids(m, caller, ids))
    &&& sorted_by_order(m, p)
}

proof fn lemma_partition_step(m: Map<u128, StableChunk>, caller: Seq<u8>, ids: Seq<u128>, i: int)
    requires
        0 <= i < ids.len(),
    ensures
        ids.subrange(0, i + 1).drop_last() == ids.subrange(0, i),
        ids.subrange(0, i + 1).last() == ids[i],
{
    assert(ids.subrange(0, i + 1).drop_last() =~= ids.subrange(0, i));
}

proof fn lemma_owned_ids_facts(m: Map<u128, StableChunk>, caller: Seq<u8>, ids: Seq<u128>)
    ensures
        owned_ids(m, caller, ids).no_duplicates(),
        forall|x: u128|
            #[trigger] owned_ids(m, caller, ids).contains(x) <==> (ids.contains(x) && m.contains_key(x)
                && m[x].owner@ == caller),
    decreases ids.len(),
{
    if ids.len() > 0 {
        let p = ids.drop_last();
        let v = ids.last();
        lemma_owned_ids_facts(m, caller, p);
        assert(ids =~= p.push(v));
        lemma_push_contains(p, v);
        let o = owned_ids(m, caller, p);
        if m.contains_key(v) && !p.contains(v) && m[v].owner@ == caller {
            lemma_push_contains(o, v);
            assert(!o.contains(v));
            assert forall|a: int, b: int| 0 <= a < b < o.push(v).len() implies o.push(v)[a]
                != o.push(v)[b] by {
                if b == o.len() {
                    assert(o.contains(o[a]));
                }
            }
        }
    }
}

/// Splits the claimed ids into those missing, those of another owner and those
/// of the caller, each in claim order.
fn partition_claims(state: &State, caller: &Vec<u8>, ids: &Vec<u128>) -> (r: (
    Vec<u128>,
    Vec<u128>,
    Vec<u128>,
    Vec<u128>,
))
    ensures
        r.0@ == missing_ids(state.chunks@, ids@),
        r.1@ == foreign_ids(state.chunks@, caller@, ids@),
        r.2@ == repeated_ids(state.chunks@, caller@, ids@),
        r.3@ == owned_ids(state.chunks@, caller@, ids@),
{
    let ghost m = state.chunks@;
    let mut missing: Vec<u128> = Vec::new();
    let mut foreign: Vec<u128> = Vec::new();
    let mut repeated: Vec<u128> = Vec::new();
    let mut owned: Vec<u128> = Vec::new();
    let mut i: usize = 0;
    while i < ids.len()
        invariant
            i <= ids@.len(),
            m == state.chunks@,
            missing@ == missing_ids(m, ids@.subrange(0, i as int)),
            foreign@ == foreign_ids(m, caller@, ids@.subrange(0, i as int)),
            repeated@ == repeated_ids(m, caller@, ids@.subrange(0, i as int)),
            owned@ == owned_ids(m, caller@, ids@.subrange(0, i as int)),
        decreases ids@.len() - i,
    {
        let id = ids[i];
        proof {
            lemma_partition_step(m, caller@, ids@, i as int);
        }
        // an id seen before has been consumed by its first claim
        let mut seen = false;
        let mut j: usize = 0;
        while j < i
            invariant
                j <= i < ids@.len(),
                id == ids@[i as int],
                seen == (exists|k: int| 0 <= k < j && ids@[k] == id),
            decreases i - j,
        {
            if ids[j] == id {
                seen = true;
            }
            j = j + 1;
        }
        proof {
            let s = ids@.subrange(0, i as int);
            if seen {
                let k = choose|k: int| 0 <= k < i && ids@[k] == id;
                assert(s[k] == id);
            }
        }
        match state.chunks.get(&id) {
            None => {
                if !seen {
                    missing.push(id);
                }
            },
            Some(chunk) => {
                if !same_principal(&chunk.owner, caller) {
                    if !seen {
                        foreign.push(id);
                    }
                } else if seen {
                    repeated.push(id);
                } else {
                    owned.push(id);
                }
            },
        }
        i = i + 1;
    }
    proof {
        assert(ids@.subrange(0, ids@.len() as int) =~= ids@);
    }
    (missing, foreign, repeated, owned)
}

/// The `order` of a stored fragment.
fn order_of(chunks: &HashMap<u128, StableChunk>, id: u128) -> (o: u32)
    requires
        chunks@.contains_key(id),
    ensures
        o == chunks@[id].order,
{
    match chunks.get(&id) {
        Some(c) => c.order,
        None => 0,
    }
}

proof fn lemma_insert_contains(s: Seq<u128>, pos: int, v: u128)
    requires
        0 <= pos <= s.len(),
    ensures
        forall|x: u128| #[trigger] s.insert(pos, v).contains(x) <==> (s.contains(x) || x == v),
{
    s.insert_ensures(pos, v);
    let t = s.insert(pos, v);
    assert forall|x: u128| #[trigger] t.contains(x) <==> (s.contains(x) || x == v) by {
        if t.contains(x) {
            let k = choose|k: int| 0 <= k < t.len() && t[k] == x;
            if k < pos {
                assert(s[k] == x);
            } else if k > pos {
                assert(s[k - 1] == x);
            }
        }
        if s.contains(x) {
            let k = choose|k: int| 0 <= k < s.len() && s[k] == x;
            if k < pos {
                assert(t[k] == x);
            } else {
                assert(t[k + 1] == x);
            }
        }
        if x == v {
            assert(t[pos] == x);
        }
    }
}

/// Orders the ids by their fragments' `order`; ids of equal order keep their
/// relative position.
fn sort_by_order(chunks: &HashMap<u128, StableChunk>, ids: &Vec<u128>) -> (r: Vec<u128>)
    requires
        ids@.no_duplicates(),
        forall|x: u128| ids@.contains(x) ==> chunks@.contains_key(x),
    ensures
        is_permutation(r@, ids@),
        sorted_by_order(chunks@, r@),
{
    let ghost m = chunks@;
    let mut r: Vec<u128> = Vec::new();
    let mut i: usize = 0;
    while i < ids.len()
        invariant
            i <= ids@.len(),
            m == chunks@,
            ids@.no_duplicates(),
            forall|x: u128| ids@.contains(x) ==> m.contains_key(x),
            r@.no_duplicates(),
            r@.len() == i,
            forall|x: u128| #[trigger] r@.contains(x) <==> ids@.subrange(0, i as int).contains(x),
            sorted_by_order(m, r@),
            forall|k: int| 0 <= k < r@.len() ==> m.contains_key(#[trigger] r@[k]),
        decreases ids@.len() - i,
    {
        let id = ids[i];
        assert(ids@.contains(id));
        let o = order_of(chunks, id);
        let mut j: usize = 0;
        while j < r.len() && order_of(chunks, r[j]) <= o
            invariant
                j <= r@.len(),
                m == chunks@,
                forall|k: int| 0 <= k < r@.len() ==> m.contains_key(#[trigger] r@[k]),
                forall|k: int| 0 <= k < j ==> #[trigger] m[r@[k]].order <= o,
            decreases r@.len() - j,
        {
            j = j + 1;
        }
        proof {
            assert forall|x: u128| ids@.subrange(0, i + 1).contains(x) <==> (ids@.subrange(
                0,
                i as int,
            ).contains(x) || x == id) by {
                lemma_push_contains(ids@.subrange(0, i as int), id);
                assert(ids@.subrange(0, i + 1) =~= ids@.subrange(0, i as int).push(id));
            }
            if r@.contains(id) {
                let k = choose|k: int| 0 <= k < i && ids@[k] == id;
                assert(ids@[k] == ids@[i as int]);
            }
            if j < r@.len() {
                assert(r@.contains(r@[j as int]));
            }
        }
        let ghost old_r = r@;
        r.insert(j, id);
        proof {
            old_r.insert_ensures(j as int, id);
            lemma_insert_contains(old_r, j as int, id);
            assert forall|a: int, b: int| 0 <= a < b < r@.len() implies r@[a] != r@[b] by {
                if a == j as int {
                    assert(old_r.contains(r@[b]));
                } else if b == j as int {
                    assert(old_r.contains(r@[a]));
                }
            }
            assert forall|a: int, b: int| 0 <= a < b < r@.len() implies #[trigger] m[r@[a]].order
                <= #[trigger] m[r@[b]].order by {
                if b == j as int {
                } else if a == j as int {
                    assert(j < old_r.len());
                    assert(m[old_r[j as int]].order <= m[old_r[b - 1]].order || b - 1 == j);
                }
            }
        }
        i = i + 1;
    }
    proof {
        assert(ids@.subrange(0, ids@.len() as int) =~= ids@);
    }
    r
}

/// Neither store nor counter has changed.
pub open spec fn unchanged(pre: State, post: State) -> bool {
    &&& post.chunks@ == pre.chunks@
    &&& post.assets@ == pre.assets@
    &&& post.chunk_count == pre.chunk_count
    &&& post.asset_count == pre.asset_count
}

/// `a` is the asset `id` that `caller` assembled from `content` with the metadata of `args`.
pub open spec fn is_new_asset(
    a: StableAsset,
    id: u128,
    caller: Seq<u8>,
    host: Seq<char>,
    args: AssetArg,
    content: Seq<Seq<u8>>,
) -> bool {
    &&& a.content_view() == content
    &&& a.chunk_size == content.len()
    &&& a.owner@ == caller
    &&& a.file_name@ == args.file_name@
    &&& a.content_type@ == args.content_type@
    &&& a.content_encoding == args.content_encoding
    &&& a.url@ == asset_url(host, id as nat)
    &&& a.id == id
}

/// The outcome of a successful commit that assembled the fragments in the order `p`.
pub open spec fn assembled(
    pre: State,
    post: State,
    caller: Seq<u8>,
    host: Seq<char>,
    args: AssetArg,
    p: Seq<u128>,
    r: Result<u128, StorageError>,
) -> bool {
    let m = pre.chunks@;
    &&& r == Ok::<u128, StorageError>(pre.asset_count)
    &&& post.chunks@ == m.remove_keys(p.to_set())
    &&& post.chunk_count == pre.chunk_count
    &&& post.asset_count == pre.asset_count + 1
    &&& post.assets@.contains_key(pre.asset_count)
    &&& post.assets@.remove(pre.asset_count) == pre.assets@
    &&& is_new_asset(post.assets@[pre.asset_count], pre.asset_count, caller, host, args, contents_of(m, p))
}

/// The outcome of `commit_batch` by `caller`: the first failing check decides the
/// error, and on any error nothing changes.
pub open spec fn commit_outcome(
    pre: State,
    post: State,
    caller: Seq<u8>,
    host: Seq<char>,
    args: AssetArg,
    r: Result<u128, StorageError>,
) -> bool {
    let m = pre.chunks@;
    let ids = args.chunk_ids@;
    if missing_ids(m, ids).len() > 0 {
        &&& r matches Err(StorageError::NotFound(v)) && v@ == missing_ids(m, ids)
        &&& unchanged(pre, post)
    } else if foreign_ids(m, caller, ids).len() > 0 {
        &&& r matches Err(StorageError::NotOwned(v)) && v@ == foreign_ids(m, caller, ids)
        &&& unchanged(pre, post)
    } else if repeated_ids(m, caller, ids).len() > 0 {
        &&& r matches Err(StorageError::NotFound(v)) && v@ == repeated_ids(m, caller, ids)
        &&& unchanged(pre, post)
    } else if ids.len() == 0 {
        &&& r matches Err(StorageError::EmptyCommit)
        &&& unchanged(pre, post)
    } else if aggregate(checksums_of(m, ids)) != args.checksum as int {
        &&& r == Err::<u128, StorageError>(
            StorageError::ChecksumMismatch {
                expected: args.checksum,
                actual: aggregate(checksums_of(m, ids)) as u32,
            },
        )
        &&& unchanged(pre, post)
    } else if pre.asset_count == u128::MAX || ids.len() > u32::MAX {
        &&& r matches Err(StorageError::AllocationFailure)
        &&& unchanged(pre, post)
    } else {
        exists|p: Seq<u128>|
            is_assembly_order(m, caller, ids, p) && assembled(pre, post, caller, host, args, p, r)
    }
}

/// Assembles the caller's fragments `args.chunk_ids` into one asset.
///
/// Fails with `NotFound` listing each claimed id that names no stored fragment, then
/// with `NotOwned` listing each claimed id of another owner, each once. Then a repeated
/// claim of one of the caller's fragments fails with `NotFound` listing the repeats,
/// as the fragment is consumed by its first claim; then `EmptyCommit` when nothing is
/// claimed.
/// Otherwise the fragments are ordered by `order` (fragments of equal order are
/// assembled in an unspecified order) and their checksums folded into the aggregate,
/// which does not depend on that order; a mismatch with `args.checksum` fails with
/// `ChecksumMismatch`. All of these checks come before any fragment is consumed, so a
/// failed commit changes nothing. On success the fragments are removed and the new asset, numbered by the
/// asset counter, holds their bytes as chunks `0..n` in that order.
pub fn commit_batch(state: &mut State, caller: &Vec<u8>, canister_id: &str, args: AssetArg) -> (r:
    Result<u128, StorageError>)
    requires
        old(state).wf(),
    ensures
        final(state).wf(),
        commit_outcome(*old(state), *final(state), caller@, canister_id@, args, r),
{
    let ghost pre = *state;
    let ghost m = state.chunks@;
    let (missing, foreign, repeated, owned) = partition_claims(state, caller, &args.chunk_ids);
    if missing.len() > 0 {
        return Err(StorageError::NotFound(missing));
    }
    if foreign.len() > 0 {
        return Err(StorageError::NotOwned(foreign));
    }
    if repeated.len() > 0 {
        return Err(StorageError::NotFound(repeated));
    }
    proof {
        lemma_owned_ids_facts(m, caller@, args.chunk_ids@);
        lemma_all_claims_owned(m, caller@, args.chunk_ids@);
    }
    if owned.len() == 0 {
        return Err(StorageError::EmptyCommit);
    }
    let order = sort_by_order(&state.chunks, &owned);
    proof {
        assert forall|k: int| 0 <= k < order@.len() implies m.contains_key(#[trigger] order@[k]) by {
            assert(order@.contains(order@[k]));
        }
    }
    // fold the checksums without consuming anything
    let mut checksum: u32 = 0;
    let mut k: usize = 0;
    while k < order.len()
        invariant
            k <= order@.len(),
            m == state.chunks@,
            forall|j: int| 0 <= j < order@.len() ==> m.contains_key(#[trigger] order@[j]),
            checksum as int == aggregate(checksums_of(m, order@.subrange(0, k as int))),
            checksum < MODULO_VALUE,
        decreases order@.len() - k,
    {
        let c: u32 = match state.chunks.get(&order[k]) {
            Some(chunk) => chunk.checksum,
            None => 0,
        };
        proof {
            let s = checksums_of(m, order@.subrange(0, k + 1));
            assert(s.drop_last() =~= checksums_of(m, order@.subrange(0, k as int)));
        }
        checksum = ((checksum as u64 + c as u64) % (MODULO_VALUE as u64)) as u32;
        k = k + 1;
    }
    proof {
        assert(order@.subrange(0, order@.len() as int) =~= order@);
        assert(is_assembly_order(m, caller@, args.chunk_ids@, order@));
        lemma_all_claims_owned(m, caller@, args.chunk_ids@);
        lemma_aggregate_ignores_order(m, order@, args.chunk_ids@);
    }
    if checksum != args.checksum {
        return Err(StorageError::ChecksumMismatch { expected: args.checksum, actual: checksum });
    }
    if state.asset_count == u128::MAX || order.len() > u32::MAX as usize {
        return Err(StorageError::AllocationFailure);
    }
    // consume the fragments in assembly order
    let mut content: Vec<Vec<u8>> = Vec::new();
    let mut k: usize = 0;
    while k < order.len()
        invariant
            k <= order@.len(),
            order@.no_duplicates(),
            forall|j: int| 0 <= j < order@.len() ==> m.contains_key(#[trigger] order@[j]),
            state.chunks@ == m.remove_keys(order@.subrange(0, k as int).to_set()),
            content@.map_values(|v: Vec<u8>| v@) == contents_of(m, order@.subrange(0, k as int)),
            state.assets@ == pre.assets@,
            state.chunk_count == pre.chunk_count,
            state.asset_count == pre.asset_count,
        decreases order@.len() - k,
    {
        let id = order[k];
        proof {
            assert(!order@.subrange(0, k as int).contains(id));
            assert(order@.subrange(0, k + 1).to_set() =~= order@.subrange(0, k as int).to_set().insert(id)) by {
                assert(order@.subrange(0, k + 1) =~= order@.subrange(0, k as int).push(id));
                lemma_push_contains(order@.subrange(0, k as int), id);
            }
        }
        let ghost before = content@;
        assert(state.chunks@.contains_key(id) && state.chunks@[id] == m[id]);
        match state.chunks.remove(&id) {
            Some(chunk) => {
                content.push(chunk.content);
            },
            None => {},
        }
        proof {
            assert(state.chunks@ =~= m.remove_keys(order@.subrange(0, k + 1).to_set()));
            assert(order@.subrange(0, k + 1) =~= order@.subrange(0, k as int).push(id));
            assert(contents_of(m, order@.subrange(0, k + 1)) =~= contents_of(
                m,
                order@.subrange(0, k as int),
            ).push(m[id].content@));
            assert(content@.map_values(|v: Vec<u8>| v@) =~= before.map_values(|v: Vec<u8>| v@).push(
                m[id].content@,
            ));
        }
        k = k + 1;
    }
    proof {
        assert(order@.subrange(0, order@.len() as int) =~= order@);
    }
    let id = state.get_asset_id();
    let url = generate_url(canister_id, id);
    let asset = StableAsset {
        content,
        file_name: args.file_name,
        owner: crate::types::copy_bytes(caller),
        content_encoding: args.content_encoding,
        url,
        chunk_size: order.len() as u32,
        id,
        content_type: args.content_type,
    };
    state.assets.insert(id, asset);
    proof {
        assert(state.assets@.remove(id) =~= pre.assets@);
        assert(is_assembly_order(m, caller@, args.chunk_ids@, order@));
    }
    Ok(id)
}

/// `q` shows asset `a` without its bytes.
pub open spec fn shows_asset(q: AssetQuery, a: StableAsset) -> bool {
    &&& q.file_name@ == a.file_name@
    &&& q.owner@ == a.owner@
    &&& q.content_encoding == a.content_encoding
    &&& q.url@ == a.url@
    &&& q.id == a.id
    &&& q.content_type@ == a.content_type@
}

/// The outcome of `delete_asset(id)` by `caller`.
pub open spec fn delete_outcome(
    pre: State,
    post: State,
    caller: Seq<u8>,
    id: u128,
    r: Result<bool, StorageError>,
) -> bool {
    &&& post.chunks@ == pre.chunks@
    &&& post.chunk_count == pre.chunk_count
    &&& post.asset_count == pre.asset_count
    &&& if !pre.assets@.contains_key(id) {
        &&& r matches Err(StorageError::NotFound(v)) && v@ == seq![id]
        &&& post.assets@ == pre.assets@
    } else if pre.assets@[id].owner@ != caller {
        &&& r matches Err(StorageError::NotOwned(v)) && v@ == seq![id]
        &&& post.assets@ == pre.assets@
    } else {
        &&& r == Ok::<bool, StorageError>(true)
        &&& post.assets@ == pre.assets@.remove(id)
    }
}

/// The outcome of `get_asset(id)`.
pub open spec fn lookup_outcome(state: State, id: u128, r: Result<AssetQuery, StorageError>) -> bool {
    match r {
        Ok(q) => state.assets@.contains_key(id) && shows_asset(q, state.assets@[id]),
        Err(e) => !state.assets@.contains_key(id) && (e matches StorageError::NotFound(v) && v@
            == seq![id]),
    }
}

/// Deletes asset `id` on behalf of its owner.
///
/// Fails with `NotFound` when there is no such asset and with `NotOwned` when it
/// belongs to another caller; either way nothing changes.
pub fn delete_asset(state: &mut State, caller: &Vec<u8>, id: u128) -> (r: Result<bool, StorageError>)
    requires
        old(state).wf(),
    ensures
        final(state).wf(),
        delete_outcome(*old(state), *final(state), caller@, id, r),
{
    let owned = match state.assets.get(&id) {
        None => {
            let v = vec![id];
            assert(v@ =~= seq![id]);
            return Err(StorageError::NotFound(v));
        },
        Some(asset) => same_principal(&asset.owner, caller),
    };
    if !owned {
        let v = vec![id];
        assert(v@ =~= seq![id]);
        return Err(StorageError::NotOwned(v));
    }
    state.assets.remove(&id);
    Ok(true)
}

/// The public view of asset `id`, or `NotFound` listing `id`.
pub fn get_asset(state: &State, id: u128) -> (r: Result<AssetQuery, StorageError>)
    requires
        state.wf(),
    ensures
        lookup_outcome(*state, id, r),
{
    match state.assets.get(&id) {
        None => {
            let v = vec![id];
            assert(v@ =~= seq![id]);
            Err(StorageError::NotFound(v))
        },
        Some(asset) => Ok(AssetQuery::of(asset)),
    }
}

/// The public view of every stored asset, keyed by asset id.
pub fn asset_list(state: &State) -> (r: HashMap<u128, AssetQuery>)
    requires
        state.wf(),
    ensures
        r@.dom() == state.assets@.dom(),
        forall|k: u128| #[trigger] r@.contains_key(k) ==> shows_asset(r@[k], state.assets@[k]),
{
    let ids = keys_of(&state.assets);
    let mut r: HashMap<u128, AssetQuery> = HashMap::new();
    let mut i: usize = 0;
    while i < ids.len()
        invariant
            i <= ids@.len(),
            forall|x: u128| ids@.contains(x) <==> state.assets@.contains_key(x),
            forall|x: u128| #[trigger] r@.contains_key(x) <==> ids@.subrange(0, i as int).contains(x),
            forall|x: u128| #[trigger] r@.contains_key(x) ==> shows_asset(r@[x], state.assets@[x]),
        decreases ids@.len() - i,
    {
        let id = ids[i];
        proof {
            assert(ids@.subrange(0, i + 1) =~= ids@.subrange(0, i as int).push(id));
            lemma_push_contains(ids@.subrange(0, i as int), id);
            assert(ids@.contains(id));
        }
        match state.assets.get(&id) {
            Some(asset) => {
                r.insert(id, AssetQuery::of(asset));
            },
            None => {},
        }
        i = i + 1;
    }
    proof {
        assert(ids@.subrange(0, ids@.len() as int) =~= ids@);
        assert(r@.dom() =~= state.assets@.dom());
    }
    r
}

proof fn lemma_missing_nonempty(m: Map<u128, StableChunk>, ids: Seq<u128>, i: int)
    requires
        0 <= i < ids.len(),
        !m.contains_key(ids[i]),
    ensures
        missing_ids(m, ids).len() > 0,
    decreases ids.len(),
{
    let p = ids.drop_last();
    if i < ids.len() - 1 {
        lemma_missing_nonempty(m, p, i);
    } else if p.contains(ids[i]) {
        let k = choose|k: int| 0 <= k < p.len() && p[k] == ids[i];
        lemma_missing_nonempty(m, p, k);
    }
}

proof fn lemma_foreign_nonempty(m: Map<u128, StableChunk>, caller: Seq<u8>, ids: Seq<u128>, i: int)
    requires
        0 <= i < ids.len(),
        m.contains_key(ids[i]),
        m[ids[i]].owner@ != caller,
    ensures
        foreign_ids(m, caller, ids).len() > 0,
    decreases ids.len(),
{
    let p = ids.drop_last();
    if i < ids.len() - 1 {
        lemma_foreign_nonempty(m, caller, p, i);
    } else if p.contains(ids[i]) {
        let k = choose|k: int| 0 <= k < p.len() && p[k] == ids[i];
        lemma_foreign_nonempty(m, caller, p, k);
    }
}

proof fn lemma_all_claims_owned(m: Map<u128, StableChunk>, caller: Seq<u8>, ids: Seq<u128>)
    requires
        missing_ids(m, ids).len() == 0,
        foreign_ids(m, caller, ids).len() == 0,
        repeated_ids(m, caller, ids).len() == 0,
    ensures
        owned_ids(m, caller, ids) == ids,
    decreases ids.len(),
{
    if ids.len() > 0 {
        let p = ids.drop_last();
        lemma_all_claims_owned(m, caller, p);
        lemma_owned_ids_facts(m, caller, p);
        let x = ids.last();
        if p.contains(x) {
            assert(owned_ids(m, caller, p).contains(x));
        }
        assert(p.push(x) =~= ids);
    }
}

proof fn lemma_total_permutation(m: Map<u128, StableChunk>, p: Seq<u128>, q: Seq<u128>)
    requires
        is_permutation(p, q),
    ensures
        total(checksums_of(m, p)) == total(checksums_of(m, q)),
    decreases p.len(),
{
    if p.len() > 0 {
        let x = p.last();
        assert(p.contains(x)) by {
            assert(p[p.len() - 1] == x);
        }
        let k = choose|k: int| 0 <= k < q.len() && q[k] == x;
        let a = q.subrange(0, k);
        let b = q.subrange(k + 1, q.len() as int);
        let q2 = a + b;
        let p2 = p.drop_last();
        assert forall|i: int, j: int| 0 <= i < j < q2.len() implies q2[i] != q2[j] by {
            let ii = if i < k {
                i
            } else {
                i + 1
            };
            let jj = if j < k {
                j
            } else {
                j + 1
            };
            assert(q2[i] == q[ii]);
            assert(q2[j] == q[jj]);
        }
        assert forall|y: u128| p2.contains(y) <==> q2.contains(y) by {
            if p2.contains(y) {
                let i = choose|i: int| 0 <= i < p2.len() && p2[i] == y;
                assert(p[i] == y);
                assert(p.contains(y));
                let j = choose|j: int| 0 <= j < q.len() && q[j] == y;
                assert(j != k);
                if j < k {
                    assert(q2[j] == y);
                } else {
                    assert(q2[j - 1] == y);
                }
            }
            if q2.contains(y) {
                let j = choose|j: int| 0 <= j < q2.len() && q2[j] == y;
                let jj = if j < k {
                    j
                } else {
                    j + 1
                };
                assert(q[jj] == y);
                assert(q.contains(y));
                let i = choose|i: int| 0 <= i < p.len() && p[i] == y;
                assert(i != p.len() - 1);
                assert(p2[i] == y);
            }
        }
        lemma_total_permutation(m, p2, q2);
        let ca = checksums_of(m, a);
        let cb = checksums_of(m, b);
        let cx = seq![m[x].checksum];
        assert(checksums_of(m, q) =~= ca + cx + cb);
        assert(checksums_of(m, q2) =~= ca + cb);
        lemma_total_concat(ca + cx, cb);
        lemma_total_concat(ca, cx);
        lemma_total_concat(ca, cb);
        assert(cx.drop_last() =~= Seq::<u32>::empty());
        assert(total(Seq::<u32>::empty()) == 0);
        assert(total(cx) == m[x].checksum);
        assert(checksums_of(m, p).drop_last() =~= checksums_of(m, p2));
        assert(checksums_of(m, p).last() == m[x].checksum);
        assert(total(checksums_of(m, p)) == total(checksums_of(m, p2)) + m[x].checksum);
        assert(total(checksums_of(m, q2)) == total(ca) + total(cb));
        assert(total(checksums_of(m, q)) == total(ca) + total(cx) + total(cb));
    } else {
        assert(checksums_of(m, q).len() == 0);
        assert(checksums_of(m, p).len() == 0);
    }
}

/// The aggregate checksum depends on which fragments are assembled, not on their
/// order: any two orderings of the same fragments give the same aggregate, so the
/// order chosen among fragments of equal `order` never changes a commit's outcome.
pub proof fn lemma_aggregate_ignores_order(m: Map<u128, StableChunk>, p: Seq<u128>, q: Seq<u128>)
    requires
        is_permutation(p, q),
    ensures
        aggregate(checksums_of(m, p)) == aggregate(checksums_of(m, q)),
{
    lemma_total_permutation(m, p, q);
    lemma_aggregate_is_total_mod(checksums_of(m, p));
    lemma_aggregate_is_total_mod(checksums_of(m, q));
}

/// A commit that claims a missing fragment, or a fragment of another owner, fails,
/// and every fragment stays where it was.
pub proof fn lemma_invalid_claim_keeps_fragments(
    pre: State,
    post: State,
    caller: Seq<u8>,
    host: Seq<char>,
    args: AssetArg,
    r: Result<u128, StorageError>,
    i: int,
)
    requires
        commit_outcome(pre, post, caller, host, args, r),
        0 <= i < args.chunk_ids@.len(),
        !pre.chunks@.contains_key(args.chunk_ids@[i]) || pre.chunks@[args.chunk_ids@[i]].owner@
            != caller,
    ensures
        r is Err,
        post.chunks@ == pre.chunks@,
{
    if !pre.chunks@.contains_key(args.chunk_ids@[i]) {
        lemma_missing_nonempty(pre.chunks@, args.chunk_ids@, i);
    } else {
        lemma_foreign_nonempty(pre.chunks@, caller, args.chunk_ids@, i);
    }
}

/// A commit succeeds only if the aggregate of the claimed fragments' checksums, taken
/// in ascending `order`, equals the declared checksum, and the new asset then holds the
/// claimed fragments' bytes, one per chunk, in ascending `order`. A commit that fails
/// with `ChecksumMismatch` reports that aggregate, which differs from the declared one.
pub proof fn lemma_commit_checks_and_assembles(
    pre: State,
    post: State,
    caller: Seq<u8>,
    host: Seq<char>,
    args: AssetArg,
    r: Result<u128, StorageError>,
)
    requires
        commit_outcome(pre, post, caller, host, args, r),
    ensures
        r matches Ok(id) ==> exists|p: Seq<u128>|
            #![trigger checksums_of(pre.chunks@, p)]
            is_permutation(p, args.chunk_ids@) && sorted_by_order(pre.chunks@, p) && aggregate(
                checksums_of(pre.chunks@, p),
            ) == args.checksum && post.assets@.contains_key(id)
                && post.assets@[id].content_view() == contents_of(pre.chunks@, p),
        r matches Err(StorageError::ChecksumMismatch { expected, actual }) ==> expected
            == args.checksum && actual != expected && forall|p: Seq<u128>|
            #![trigger checksums_of(pre.chunks@, p)]
            is_permutation(p, args.chunk_ids@) && sorted_by_order(pre.chunks@, p) ==> aggregate(
                checksums_of(pre.chunks@, p),
            ) == actual,
{
    let m = pre.chunks@;
    let ids = args.chunk_ids@;
    if missing_ids(m, ids).len() == 0 && foreign_ids(m, caller, ids).len() == 0
        && repeated_ids(m, caller, ids).len() == 0 {
        lemma_all_claims_owned(m, caller, ids);
        lemma_owned_ids_facts(m, caller, ids);
        assert forall|p: Seq<u128>| #[trigger]
            is_permutation(p, ids) implies aggregate(checksums_of(m, p)) == aggregate(
            checksums_of(m, ids),
        ) by {
            lemma_aggregate_ignores_order(m, p, ids);
        }
        if r is Ok {
            let p = choose|p: Seq<u128>|
                is_assembly_order(m, caller, ids, p) && assembled(pre, post, caller, host, args, p, r);
            assert(is_permutation(p, ids));
        }
    }
}

/// Deleting an asset as another caller fails with `NotOwned`; deleting it as its
/// owner removes it, so that looking it up afterwards fails with `NotFound`.
pub proof fn lemma_delete_then_lookup(
    pre: State,
    post: State,
    caller: Seq<u8>,
    id: u128,
    r: Result<bool, StorageError>,
    q: Result<AssetQuery, StorageError>,
)
    requires
        pre.assets@.contains_key(id),
        delete_outcome(pre, post, caller, id, r),
        lookup_outcome(post, id, q),
    ensures
        pre.assets@[id].owner@ != caller ==> r matches Err(StorageError::NotOwned(_)),
        pre.assets@[id].owner@ == caller ==> r is Ok && q matches Err(StorageError::NotFound(_)),
{
}

} // verus!
