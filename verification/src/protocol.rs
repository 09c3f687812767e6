//! The message model: the wire envelope and its tagged payload variants,
//! well-formedness of their text fields, and the dispatcher that builds the
//! reply for a request.

use vstd::prelude::*;

verus! {

/// One protocol transmission: sender, recipient, payload.  On the wire the
/// sender's key is `src` and the recipient's key is `dest`.
#[derive(Debug, Clone, PartialEq, Eq)]
pub struct Message {
    pub src: String,
    pub dst: String,
    pub body: Body,
}

/// The payload of an envelope: either a request (an action to perform) or a
/// response (the outcome of an earlier request).  The wire form carries no
/// outer marker for this choice; only the `type` tag inside the payload
/// decides it.
#[derive(Debug, Clone, PartialEq, Eq)]
pub enum Body {
    Rpc(Rpc),
    Responses(Responses),
}

/// The request payloads.
#[derive(Debug, Clone, PartialEq, Eq)]
pub enum Rpc {
    /// Tag `init`: assigns this node its identifier and the cluster
    /// membership list.  `node_id` and `node_ids` are accepted but do not
    /// influence the reply.
    Init { msg_id: usize, node_id: String, node_ids: Vec<String> },
    /// Tag `echo`: asks the node to mirror `echo` back.
    Echo { echo: String, msg_id: usize },
}

/// The response payloads.
#[derive(Debug, Clone, PartialEq, Eq)]
pub enum Responses {
    /// Tag `init_ok`: acknowledges an `init` request.
    InitOk { in_reply_to: usize },
    /// Tag `error`: a protocol-level failure reply.  The model defines it,
    /// but no request path constructs it.
    Error { in_reply_to: usize, code: u16, text: String },
    /// Tag `echo_ok`: mirrors an `echo` request back to its sender.
    EchoOk { echo: String, msg_id: usize, in_reply_to: usize },
}

/// Decoding failed: the line is not the canonical encoding of any envelope
/// (not well-formed JSON in the canonical single-line shape, a missing or
/// ill-typed field, or an unrecognized `type` tag).
#[derive(Debug, Clone, Copy, PartialEq, Eq)]
pub struct DecodeError;

/// Equality of two requests up to the views of their text fields.
pub open spec fn rpc_eq(a: Rpc, b: Rpc) -> bool {
    match (a, b) {
        (
            Rpc::Init { msg_id: m1, node_id: n1, node_ids: v1 },
            Rpc::Init { msg_id: m2, node_id: n2, node_ids: v2 },
        ) => m1 == m2 && n1@ == n2@ && v1.deep_view() == v2.deep_view(),
        (Rpc::Echo { echo: e1, msg_id: m1 }, Rpc::Echo { echo: e2, msg_id: m2 }) => e1@ == e2@
            && m1 == m2,
        _ => false,
    }
}

/// Equality of two responses up to the views of their text fields.
pub open spec fn resp_eq(a: Responses, b: Responses) -> bool {
    match (a, b) {
        (Responses::InitOk { in_reply_to: r1 }, Responses::InitOk { in_reply_to: r2 }) => r1 == r2,
        (
            Responses::Error { in_reply_to: r1, code: c1, text: t1 },
            Responses::Error { in_reply_to: r2, code: c2, text: t2 },
        ) => r1 == r2 && c1 == c2 && t1@ == t2@,
        (
            Responses::EchoOk { echo: e1, msg_id: m1, in_reply_to: r1 },
            Responses::EchoOk { echo: e2, msg_id: m2, in_reply_to: r2 },
        ) => e1@ == e2@ && m1 == m2 && r1 == r2,
        _ => false,
    }
}

pub open spec fn body_eq(a: Body, b: Body) -> bool {
    match (a, b) {
        (Body::Rpc(x), Body::Rpc(y)) => rpc_eq(x, y),
        (Body::Responses(x), Body::Responses(y)) => resp_eq(x, y),
        _ => false,
    }
}

/// Equality of two envelopes up to the views of their text fields; this is
/// full information equality of everything the wire carries.
pub open spec fn msg_eq(a: Message, b: Message) -> bool {
    a.src@ == b.src@ && a.dst@ == b.dst@ && body_eq(a.body, b.body)
}

/// The response payload owed to a request: `init` is answered by `init_ok`
/// carrying the request's `msg_id` as `in_reply_to`; `echo` is answered by
/// `echo_ok` mirroring the text, with both `msg_id` and `in_reply_to` equal
/// to the request's `msg_id`.
pub open spec fn response_body_for(rpc: Rpc) -> Responses {
    match rpc {
        Rpc::Init { msg_id, .. } => Responses::InitOk { in_reply_to: msg_id },
        Rpc::Echo { echo, msg_id } => Responses::EchoOk { echo, msg_id, in_reply_to: msg_id },
    }
}

/// Builds the one reply an incoming request is owed.  The caller passes the
/// identifiers already swapped: `src` is the replying node (the request's
/// recipient) and `dst` is the requester.
pub fn build_response(rpc: Rpc, src: String, dst: String) -> (r: Message)
    ensures
        r.src == src,
        r.dst == dst,
        r.body == Body::Responses(response_body_for(rpc)),
{
    let response_body: Body = match rpc {
        Rpc::Init { msg_id, node_id: _, node_ids: _ } => {
            let response = Responses::InitOk { in_reply_to: msg_id };
            Body::Responses(response)
        },
        Rpc::Echo { echo, msg_id } => {
            let response = Responses::EchoOk { echo, msg_id, in_reply_to: msg_id };
            Body::Responses(response)
        },
    };
    Message { src, dst, body: response_body }
}

} // verus!
