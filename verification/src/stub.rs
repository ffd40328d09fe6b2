//! Request identifiers on the client side and the reply that the server
//! sends for each request it reads.

use vstd::prelude::*;
use vstd::string::StringExecFns;

verus! {

/// The header of a packed message: method, tag and body length.
pub struct PackHeader {
    /// The method name.
    pub m: String,
    /// The request tag.
    pub t: u64,
    /// The body length.
    pub l: usize,
}

/// A request as the server reads it: the method name and the encoded argument.
pub struct PackReq {
    /// The method name.
    pub m: String,
    /// The encoded argument.
    pub body: Vec<u8>,
}

/// Packages client requests; each request gets a fresh identifier.
pub struct ClientStub {
    /// The identifier of the last request sent; 0 before the first.
    pub tag: u64,
}

impl ClientStub {
    /// A stub that has sent nothing yet.
    pub fn new() -> (r: Self)
        ensures
            r.tag == 0,
    {
        ClientStub { tag: 0 }
    }

    /// The identifier of the next request: one more than the last one.
    pub fn next_id(&mut self) -> (id: u64)
        requires
            old(self).tag < u64::MAX,
        ensures
            id == old(self).tag + 1,
            final(self).tag == id,
    {
        let id = self.tag + 1;
        self.tag = id;
        id
    }
}

/// Identifiers handed out one after another by one stub increase, so no two
/// requests of a stub share an identifier.
pub proof fn law_ids_increase(tag0: u64, id1: u64, tag1: u64, id2: u64)
    requires
        id1 == tag0 + 1,
        tag1 == id1,
        id2 == tag1 + 1,
    ensures
        tag0 < id1 < id2,
{
}

/// What the server learned while handling one request frame.
pub enum RequestOutcome {
    /// The frame did not hold a packed request.
    Undecodable,
    /// The request named a method with no registered handler.
    UnknownMethod(String),
    /// The handler answered with these bytes.
    Accepted(Vec<u8>),
    /// The handler failed with this message.
    Rejected(String),
}

/// The frame that the server sends back for one request.
pub struct ServerReply {
    /// The identifier of the request answered.
    pub id: u64,
    /// The answer bytes, or the error text.
    pub body: Result<Vec<u8>, String>,
    /// Whether the server stops serving this connection after sending it.
    pub close: bool,
}

/// The error text for a request whose method is not registered.
pub open spec fn unknown_method_text(method: Seq<char>) -> Seq<char> {
    "method "@ + method + " not find!"@
}

/// The error text for a request whose handler failed.
pub open spec fn rejected_text(message: Seq<char>) -> Seq<char> {
    "accept "@ + message + " fail!"@
}

/// The reply owed for a request with the given identifier and outcome.
pub open spec fn reply_for(id: u64, outcome: RequestOutcome) -> (u64, Result<Seq<u8>, Seq<char>>, bool) {
    match outcome {
        RequestOutcome::Undecodable => (id, Ok(Seq::empty()), false),
        RequestOutcome::UnknownMethod(m) => (id, Err(unknown_method_text(m@)), true),
        RequestOutcome::Accepted(bytes) => (id, Ok(bytes@), false),
        RequestOutcome::Rejected(e) => (id, Err(rejected_text(e@)), true),
    }
}

impl ServerReply {
    /// The reply as plain values: identifier, answer or error text, and whether it closes.
    pub open spec fn parts(&self) -> (u64, Result<Seq<u8>, Seq<char>>, bool) {
        (
            self.id,
            match self.body {
                Ok(b) => Ok(b@),
                Err(e) => Err(e@),
            },
            self.close,
        )
    }
}

/// Receives the requests sent by clients and answers each one.
pub struct ServerStub {}

impl ServerStub {
    /// A server stub.
    pub fn new() -> Self {
        ServerStub {  }
    }

    /// The reply to send for a request: an undecodable frame gets an empty
    /// answer, an unknown method or a failed handler gets an error text and
    /// ends the connection, an answered request gets the handler's bytes.
    pub fn reply(&self, id: u64, outcome: RequestOutcome) -> (r: ServerReply)
        ensures
            r.parts() == reply_for(id, outcome),
    {
        match outcome {
            RequestOutcome::Undecodable => ServerReply { id, body: Ok(Vec::new()), close: false },
            RequestOutcome::UnknownMethod(m) => {
                let mut text = "method ".to_owned();
                text.append(m.as_str());
                text.append(" not find!");
                ServerReply { id, body: Err(text), close: true }
            },
            RequestOutcome::Accepted(bytes) => ServerReply { id, body: Ok(bytes), close: false },
            RequestOutcome::Rejected(e) => {
                let mut text = "accept ".to_owned();
                text.append(e.as_str());
                text.append(" fail!");
                ServerReply { id, body: Err(text), close: true }
            },
        }
    }
}

/// Zero every byte of `buf`, keeping its length.
pub fn reset(buf: &mut Vec<u8>)
    ensures
        final(buf)@ == Seq::new(old(buf)@.len(), |i: int| 0u8),
{
    let n = buf.len();
    let mut i: usize = 0;
    while i < n
        invariant
            n == buf@.len(),
            n == old(buf)@.len(),
            i <= n,
            forall|j: int| 0 <= j < i ==> buf@[j] == 0u8,
        decreases n - i,
    {
        buf[i] = 0;
        i = i + 1;
    }
    assert(buf@ =~= Seq::new(old(buf)@.len(), |i: int| 0u8));
}

} // verus!
