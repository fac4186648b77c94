use vstd::prelude::*;
use vstd::string::StringExecFns;

use crate::types::{
    copy_bytes, CallbackFunc, CreateStrategyArgs, HeaderField, HttpRequest, HttpResponse,
    StableAsset, State, StorageError, StreamingCallbackHttpResponse, StreamingCallbackToken,
    StreamingStrategy,
};
use crate::utils::{get_asset_id, locator_id};

verus! {

/// The chunk to serve after chunk `i` of an asset of `k` chunks, if any.
pub open spec fn next_index(i: int, k: int) -> Option<int> {
    if i + 1 < k {
        Some(i + 1)
    } else {
        None
    }
}

/// `t` is the continuation token that follows chunk `i` of asset `id`, of `k` chunks.
pub open spec fn is_next_token(t: Option<StreamingCallbackToken>, id: u128, i: u32, k: u32) -> bool {
    match next_index(i as int, k as int) {
        None => t is None,
        Some(j) => t matches Some(tok) && tok.asset_id == id && tok.chunk_index == j
            && tok.chunk_size == k && tok.content_encoding@ == "gzip"@,
    }
}

/// The body of a not-found response: "Asset Not Found".
pub open spec fn not_found_text() -> Seq<u8> {
    seq![65u8, 115, 115, 101, 116, 32, 78, 111, 116, 32, 70, 111, 117, 110, 100]
}

/// The asset id that a request's locator names, if it is a well-formed one.
pub open spec fn requested_id(url: Seq<char>) -> Option<u128> {
    match locator_id(url) {
        Some(n) => if n <= u128::MAX {
            Some(n as u128)
        } else {
            None
        },
        None => None,
    }
}

/// `h` holds the headers served with asset `a`.
pub open spec fn asset_headers(h: Seq<HeaderField>, a: StableAsset) -> bool {
    &&& h.len() == 4
    &&& h[0].0@ == "Content-Type"@ && h[0].1@ == a.content_type@
    &&& h[1].0@ == "accept-ranges"@ && h[1].1@ == "bytes"@
    &&& h[2].0@ == "Content-Disposition"@ && h[2].1@ == "attachment; filename="@ + a.file_name@
    &&& h[3].0@ == "cache-control"@ && h[3].1@ == "private, max-age=0"@
}

/// The outcome of a first delivery request for `url`, served for `canister`.
pub open spec fn first_outcome(
    state: State,
    canister: Seq<u8>,
    url: Seq<char>,
    r: Result<HttpResponse, StorageError>,
) -> bool {
    match requested_id(url) {
        None => r matches Err(StorageError::MalformedLocator),
        Some(id) => match r {
            Err(_) => false,
            Ok(resp) => if !state.assets@.contains_key(id) {
                &&& resp.status_code == 404
                &&& resp.body@ == not_found_text()
                &&& resp.headers@.len() == 0
                &&& resp.streaming_strategy is None
            } else {
                let a = state.assets@[id];
                &&& resp.status_code == 200
                &&& resp.body@ == a.content_view()[0]
                &&& asset_headers(resp.headers@, a)
                &&& match resp.streaming_strategy {
                    None => is_next_token(None, id, 0, a.chunk_size),
                    Some(StreamingStrategy::Callback { token, callback }) => is_next_token(
                        Some(token),
                        id,
                        0,
                        a.chunk_size,
                    ) && callback.principal@ == canister && callback.method@
                        == "http_request_streaming_callback"@,
                }
            },
        },
    }
}

/// The outcome of a continuation request with token `t`.
pub open spec fn callback_outcome(
    state: State,
    t: StreamingCallbackToken,
    r: Result<StreamingCallbackHttpResponse, StorageError>,
) -> bool {
    ({
        let id = t.asset_id;
        let valid = state.assets@.contains_key(id) && state.assets@[id].chunk_size
            == t.chunk_size && t.chunk_index < t.chunk_size;
        match r {
            Err(e) => !valid && e matches StorageError::InvalidContinuationToken,
            Ok(resp) => valid && resp.body@ == state.assets@[id].content_view()[t.chunk_index as int]
                && is_next_token(resp.token, id, t.chunk_index, t.chunk_size),
        }
    })
}

/// The token for the chunk after `arg.chunk_index`, or none when that was the last.
pub fn create_token(arg: CreateStrategyArgs) -> (r: Option<StreamingCallbackToken>)
    ensures
        is_next_token(r, arg.asset_id, arg.chunk_index, arg.chunk_size),
{
    if arg.chunk_index as u64 + 1 >= arg.chunk_size as u64 {
        return None;
    }
    Some(
        StreamingCallbackToken {
            asset_id: arg.asset_id,
            chunk_index: arg.chunk_index + 1,
            content_encoding: String::from_str("gzip"),
            chunk_size: arg.chunk_size,
        },
    )
}

/// The streaming strategy after `arg.chunk_index`: call back `canister` with the next
/// token, or none when that was the last chunk.
pub fn create_strategy(arg: CreateStrategyArgs, canister: &Vec<u8>) -> (r: Option<StreamingStrategy>)
    ensures
        match r {
            None => is_next_token(None, arg.asset_id, arg.chunk_index, arg.chunk_size),
            Some(StreamingStrategy::Callback { token, callback }) => is_next_token(
                Some(token),
                arg.asset_id,
                arg.chunk_index,
                arg.chunk_size,
            ) && callback.principal@ == canister@ && callback.method@
                == "http_request_streaming_callback"@,
        },
{
    match create_token(arg) {
        None => None,
        Some(token) => Some(
            StreamingStrategy::Callback {
                token,
                callback: CallbackFunc {
                    principal: copy_bytes(canister),
                    method: String::from_str("http_request_streaming_callback"),
                },
            },
        ),
    }
}

fn header(name: &str, value: String) -> (h: HeaderField)
    ensures
        h.0@ == name@,
        h.1@ == value@,
{
    HeaderField(String::from_str(name), value)
}

/// Serves the first chunk of the asset that `request.url` names, with its headers and
/// the strategy for the rest; the canister `canister` is called back for it.
///
/// A locator that names no id fails with `MalformedLocator`; an id with no asset gets
/// a 404 response.
pub fn http_request(state: &State, canister: &Vec<u8>, request: &HttpRequest) -> (r: Result<
    HttpResponse,
    StorageError,
>)
    requires
        state.wf(),
    ensures
        first_outcome(*state, canister@, request.url@, r),
{
    let asset_id = match get_asset_id(request.url.as_str()) {
        Ok(id) => id,
        Err(e) => {
            return Err(e);
        },
    };
    match state.assets.get(&asset_id) {
        None => Ok(
            HttpResponse {
                body: vec![65u8, 115, 115, 101, 116, 32, 78, 111, 116, 32, 70, 111, 117, 110, 100],
                status_code: 404,
                headers: Vec::new(),
                streaming_strategy: None,
            },
        ),
        Some(asset) => {
            let mut disposition = String::from_str("attachment; filename=");
            disposition.append(asset.file_name.as_str());
            let mut headers: Vec<HeaderField> = Vec::new();
            headers.push(header("Content-Type", asset.content_type.clone()));
            headers.push(header("accept-ranges", String::from_str("bytes")));
            headers.push(header("Content-Disposition", disposition));
            headers.push(header("cache-control", String::from_str("private, max-age=0")));
            let body = copy_bytes(&asset.content[0]);
            let strategy = create_strategy(
                CreateStrategyArgs { asset_id, chunk_index: 0, chunk_size: asset.chunk_size },
                canister,
            );
            Ok(HttpResponse { body, status_code: 200, headers, streaming_strategy: strategy })
        },
    }
}

/// Serves the chunk that `token_arg` names, with the token for the chunk after it.
///
/// A token whose asset is gone, whose chunk count differs from the asset's, or whose
/// chunk index is out of range fails with `InvalidContinuationToken`.
pub fn http_request_streaming_callback(state: &State, token_arg: StreamingCallbackToken) -> (r: Result<
    StreamingCallbackHttpResponse,
    StorageError,
>)
    requires
        state.wf(),
    ensures
        callback_outcome(*state, token_arg, r),
{
    match state.assets.get(&token_arg.asset_id) {
        None => Err(StorageError::InvalidContinuationToken),
        Some(asset) => {
            if asset.chunk_size != token_arg.chunk_size || token_arg.chunk_index >= token_arg.chunk_size {
                return Err(StorageError::InvalidContinuationToken);
            }
            let body = copy_bytes(&asset.content[token_arg.chunk_index as usize]);
            let token = create_token(
                CreateStrategyArgs {
                    asset_id: token_arg.asset_id,
                    chunk_index: token_arg.chunk_index,
                    chunk_size: token_arg.chunk_size,
                },
            );
            Ok(StreamingCallbackHttpResponse { token, body })
        },
    }
}

/// The continuation token that a first response carries, if any.
pub open spec fn strategy_token(s: Option<StreamingStrategy>) -> Option<StreamingCallbackToken> {
    match s {
        Some(StreamingStrategy::Callback { token, callback }) => Some(token),
        None => None,
    }
}

/// The continuation requests follow the tokens: the first response carries
/// `tokens[0]`, and each continuation response but the last carries the next token.
pub open spec fn follows_tokens(
    first: HttpResponse,
    tokens: Seq<StreamingCallbackToken>,
    rest: Seq<Result<StreamingCallbackHttpResponse, StorageError>>,
) -> bool {
    &&& rest.len() == tokens.len()
    &&& tokens.len() > 0 ==> strategy_token(first.streaming_strategy) == Some(tokens[0])
    &&& forall|i: int|
        0 <= i < rest.len() - 1 ==> (#[trigger] rest[i] matches Ok(x) && x.token == Some(
            tokens[i + 1],
        ))
}

/// The last response of the delivery carries no continuation token.
pub open spec fn delivery_ends(
    first: HttpResponse,
    rest: Seq<Result<StreamingCallbackHttpResponse, StorageError>>,
) -> bool {
    if rest.len() == 0 {
        strategy_token(first.streaming_strategy) is None
    } else {
        rest.last() matches Ok(x) && x.token is None
    }
}

/// The bodies of a delivery, first response first.
pub open spec fn delivered_bodies(
    first: HttpResponse,
    rest: Seq<Result<StreamingCallbackHttpResponse, StorageError>>,
) -> Seq<Seq<u8>> {
    seq![first.body@] + rest.map_values(
        |r: Result<StreamingCallbackHttpResponse, StorageError>|
            match r {
                Ok(x) => x.body@,
                Err(_) => Seq::empty(),
            },
    )
}

proof fn lemma_chain_step(
    state: State,
    canister: Seq<u8>,
    url: Seq<char>,
    id: u128,
    first: HttpResponse,
    tokens: Seq<StreamingCallbackToken>,
    rest: Seq<Result<StreamingCallbackHttpResponse, StorageError>>,
    i: int,
)
    requires
        state.wf(),
        requested_id(url) == Some(id),
        state.assets@.contains_key(id),
        first_outcome(state, canister, url, Ok(first)),
        follows_tokens(first, tokens, rest),
        forall|j: int| 0 <= j < rest.len() ==> callback_outcome(state, tokens[j], #[trigger] rest[j]),
        0 <= i < tokens.len(),
    ensures
        tokens[i].asset_id == id,
        tokens[i].chunk_index == i + 1,
        tokens[i].chunk_size == state.assets@[id].chunk_size,
        i + 1 < state.assets@[id].chunk_size,
    decreases i,
{
    if i > 0 {
        lemma_chain_step(state, canister, url, id, first, tokens, rest, i - 1);
        assert(callback_outcome(state, tokens[i - 1], rest[i - 1]));
        assert(rest[i - 1] matches Ok(x) && x.token == Some(tokens[i]));
    }
}

/// A delivery that follows the continuation tokens through real responses serves the
/// asset's chunks in order: the first response holds chunk 0 and the `i`-th token names
/// chunk `i + 1`, whose body its response holds. When the last response carries no
/// token, exactly `k - 1` tokens were issued for an asset of `k` chunks, and the bodies,
/// joined, are the asset's whole content.
pub proof fn lemma_delivery_chain(
    state: State,
    canister: Seq<u8>,
    url: Seq<char>,
    id: u128,
    first: HttpResponse,
    tokens: Seq<StreamingCallbackToken>,
    rest: Seq<Result<StreamingCallbackHttpResponse, StorageError>>,
)
    requires
        state.wf(),
        requested_id(url) == Some(id),
        state.assets@.contains_key(id),
        first_outcome(state, canister, url, Ok(first)),
        follows_tokens(first, tokens, rest),
        forall|j: int| 0 <= j < rest.len() ==> callback_outcome(state, tokens[j], #[trigger] rest[j]),
    ensures
        first.body@ == state.assets@[id].content_view()[0],
        tokens.len() < state.assets@[id].chunk_size,
        forall|i: int| 0 <= i < tokens.len() ==> (#[trigger] tokens[i]).chunk_index == i + 1,
        forall|i: int|
            0 <= i < rest.len() ==> (#[trigger] rest[i] matches Ok(x) && x.body@
                == state.assets@[id].content_view()[i + 1]),
        delivery_ends(first, rest) ==> tokens.len() == state.assets@[id].chunk_size - 1
            && delivered_bodies(first, rest).flatten() == state.assets@[id].content_view().flatten(),
{
    let a = state.assets@[id];
    let k = a.chunk_size as int;
    assert forall|i: int| 0 <= i < tokens.len() implies (#[trigger] tokens[i]).chunk_index == i + 1
        && i + 1 < k && (rest[i] matches Ok(x) && x.body@ == a.content_view()[i + 1]) by {
        lemma_chain_step(state, canister, url, id, first, tokens, rest, i);
        assert(callback_outcome(state, tokens[i], rest[i]));
    }
    if tokens.len() > 0 {
        lemma_chain_step(state, canister, url, id, first, tokens, rest, tokens.len() - 1);
    }
    if delivery_ends(first, rest) {
        if rest.len() > 0 {
            let n = rest.len() - 1;
            assert(callback_outcome(state, tokens[n], rest[n]));
        }
        let b = delivered_bodies(first, rest);
        assert(b.len() == k);
        assert forall|i: int| 0 <= i < k implies b[i] == a.content_view()[i] by {
            if i > 0 {
                assert(rest[i - 1] matches Ok(x) && x.body@ == a.content_view()[i]);
            }
        }
        assert(b =~= a.content_view());
    }
}

} // verus!
