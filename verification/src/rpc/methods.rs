//! Requests and responses of the JSON-RPC methods.
use vstd::prelude::*;

verus! {

#[derive(Debug, Clone)]
pub struct GetBlockchainInfoResponse {
    pub chain: String,
    pub blocks: u32,
    pub headers: u32,
    pub bestblockhash: String,
}

#[derive(Debug, Clone, Copy)]
pub struct MineBlocksRequest {
    pub nblocks: u32,
}

#[derive(Debug, Clone)]
pub struct MineBlocksResponse {
    pub blocks: Vec<String>,
}

#[derive(Debug, Clone)]
pub struct GetBlockRequest {
    pub blockhash: String,
}

#[derive(Debug, Clone)]
pub struct GetBlockResponse {
    pub hash: String,
    pub height: u32,
    pub version: u32,
    pub merkleroot: String,
    pub time: u64,
    pub nonce: u64,
    pub bits: String,
    pub tx: Vec<String>,
}

#[derive(Debug, Clone)]
pub struct GetNewAddressResponse {
    pub address: String,
}

#[derive(Debug, Clone)]
pub struct SendToAddressResponse {
    pub txid: String,
    pub blockhash: String,
}


/// What one JSON-RPC request is: not a request (not an object, or no
/// method name), a notification (no `id`: run, nothing answered), or a
/// call to answer; either of the last two asks the node to stop when the
/// method is `stop`.
#[derive(Debug, Clone, Copy, PartialEq, Eq)]
pub enum RequestKind {
    Invalid,
    Notification { stop: bool },
    Call { stop: bool },
}

/// Classifies a request from what the server reads of it: whether it is a
/// JSON object, its method name (empty when missing or not a string), and
/// whether it carries an `id`.
pub fn classify_request(is_object: bool, method: &str, id_present: bool) -> (r: RequestKind)
    ensures
        (!is_object || method@.len() == 0) ==> r == RequestKind::Invalid,
        (is_object && method@.len() > 0 && !id_present) ==> r == (RequestKind::Notification {
            stop: method@ == "stop"@,
        }),
        (is_object && method@.len() > 0 && id_present) ==> r == (RequestKind::Call {
            stop: method@ == "stop"@,
        }),
{
    if !is_object || method.unicode_len() == 0 {
        return RequestKind::Invalid;
    }
    let stop = method_is_stop(method);
    if id_present {
        RequestKind::Call { stop }
    } else {
        RequestKind::Notification { stop }
    }
}

/// Whether the method name is `stop`.
fn method_is_stop(method: &str) -> (r: bool)
    ensures
        r == (method@ == "stop"@),
{
    proof {
        reveal_strlit("stop");
    }
    let n = method.unicode_len();
    if n != 4 {
        return false;
    }
    let ok = method.get_char(0) == 's' && method.get_char(1) == 't' && method.get_char(2) == 'o'
        && method.get_char(3) == 'p';
    proof {
        if ok {
            assert(method@ =~= "stop"@);
        }
    }
    ok
}

/// How the server answers a body: a batch that is empty is an invalid
/// request (-32600); a batch, or a single request, with no answers gets an
/// empty reply (HTTP 204); otherwise the answers are sent.
#[derive(Debug, Clone, Copy, PartialEq, Eq)]
pub enum BodyReply {
    InvalidRequest,
    NoContent,
    Answers,
}

/// The reply to a body of `items` requests (a batch when `is_batch`) that
/// produced `answers` answers.
pub fn body_reply(is_batch: bool, items: usize, answers: usize) -> (r: BodyReply)
    ensures
        (is_batch && items == 0) ==> r == BodyReply::InvalidRequest,
        !(is_batch && items == 0) ==> r == (if answers == 0 {
            BodyReply::NoContent
        } else {
            BodyReply::Answers
        }),
{
    if is_batch && items == 0 {
        BodyReply::InvalidRequest
    } else if answers == 0 {
        BodyReply::NoContent
    } else {
        BodyReply::Answers
    }
}

} // verus!
