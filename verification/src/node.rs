//! The node's one unit of work: interpret one wire line, and decide what to
//! put on the protocol channel.  A request line earns exactly one reply
//! line; a response line earns only a diagnostic; anything else is
//! rejected.  The process driver around this function performs the actual
//! reading and writing.

use vstd::prelude::*;

use crate::decode::decode;
use crate::encode::encode;
use crate::grammar::{denotes, lemma_denotes_unique, sp_line};
use crate::protocol::{resp_eq, Body, DecodeError, Message, Responses};
use crate::wire::{lemma_reply_line_eq, spec_reply_line};

verus! {

/// What one line of input leads to.
#[derive(Debug)]
pub enum Outcome {
    /// The line carried a request: this reply line goes to the protocol
    /// channel.
    Reply(String),
    /// The line carried a response: nothing goes to the protocol channel,
    /// and the payload is handed back for diagnostic reporting.
    Seen(Responses),
    /// The line denotes no envelope.
    Rejected(DecodeError),
}

/// What `handle_line` owes for a line that denotes the envelope `m`: a
/// request envelope is answered with exactly its reply line, and a response
/// envelope is only reported, never answered.
pub open spec fn outcome_ok(r: Outcome, m: Message) -> bool {
    match m.body {
        Body::Rpc(_) => match r {
            Outcome::Reply(out) => out@ == spec_reply_line(m),
            _ => false,
        },
        Body::Responses(y) => match r {
            Outcome::Seen(x) => resp_eq(x, y),
            _ => false,
        },
    }
}

/// Handles one line of input: decode it, and for a request build and encode
/// the one reply it is owed, with sender and recipient swapped.
pub fn handle_line(line: &str) -> (r: Outcome)
    ensures
        (sp_line(line@) is None) ==> (r matches Outcome::Rejected(_)),
        forall|m: Message| #[trigger] denotes(line@, m) ==> outcome_ok(r, m),
{
    match decode(line) {
        Err(e) => {
            proof {
                assert forall|m: Message| #[trigger] denotes(line@, m) implies outcome_ok(
                    Outcome::Rejected(e),
                    m,
                ) by {
                    assert(sp_line(line@) is None);
                    assert(false);
                }
            }
            Outcome::Rejected(e)
        },
        Ok(m) => {
            let ghost m0 = m;
            let Message { src, dst, body } = m;
            match body {
                Body::Rpc(rpc) => {
                    let resp = crate::protocol::build_response(rpc, dst, src);
                    let out = encode(&resp);
                    proof {
                        assert(crate::wire::spec_line(resp) == spec_reply_line(m0));
                        assert forall|mc: Message| #[trigger] denotes(line@, mc) implies outcome_ok(
                            Outcome::Reply(out),
                            mc,
                        ) by {
                            lemma_denotes_unique(line@, m0, mc);
                            lemma_reply_line_eq(m0, mc);
                        }
                    }
                    Outcome::Reply(out)
                },
                Body::Responses(resp) => {
                    proof {
                        assert forall|mc: Message| #[trigger] denotes(line@, mc) implies outcome_ok(
                            Outcome::Seen(resp),
                            mc,
                        ) by {
                            lemma_denotes_unique(line@, m0, mc);
                        }
                    }
                    Outcome::Seen(resp)
                },
            }
        },
    }
}

} // verus!
