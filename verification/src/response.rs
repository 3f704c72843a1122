//! Responses the store hands the network layer.
//!
//! A `Response` pairs a status with optional content; the conversions to
//! and from the wire-message form mirror each other, with the decoder's
//! fallback rules for unknown codes and missing content.

use vstd::prelude::*;
use vstd::string::StringExecFns;

use crate::proto;
use crate::proto::{spec_status, STATUS_ERROR, STATUS_NOT_FOUND, STATUS_OK, STATUS_UNESPECIFIED};

verus! {

/// The outcome a response reports.
#[derive(Debug, Clone, Copy, PartialEq, Eq, Structural)]
pub enum Status {
    Unespecified,
    NotFound,
    Okay,
    Error,
}

/// The wire code of each status.
pub open spec fn spec_status_code(status: Status) -> i32 {
    match status {
        Status::Unespecified => STATUS_UNESPECIFIED,
        Status::NotFound => STATUS_NOT_FOUND,
        Status::Okay => STATUS_OK,
        Status::Error => STATUS_ERROR,
    }
}

/// A status plus the content that goes with it.
pub struct Response {
    pub status: Status,
    pub content: Option<String>,
}

impl Response {
    /// Builds the wire message for this response: the status's code and
    /// a copy of the content.
    pub fn to_proto_response(&self) -> (r: proto::Response)
        ensures
            r.status == spec_status_code(self.status),
            match self.content {
                Some(c) => r.content matches Some(rc) && rc@ == c@,
                None => r.content is None,
            },
    {
        let status: i32 = match self.status {
            Status::Unespecified => STATUS_UNESPECIFIED,
            Status::NotFound => STATUS_NOT_FOUND,
            Status::Okay => STATUS_OK,
            Status::Error => STATUS_ERROR,
        };
        let content: Option<String> = match &self.content {
            Some(c) => Some(c.clone()),
            None => None,
        };
        proto::Response { status, content }
    }

    /// Reads a wire message back into a response.  A not-found message
    /// carries no content; every other status reads its content through
    /// the decoder's accessor, so missing content becomes the empty
    /// string.
    pub fn from_proto_response(proto_response: proto::Response) -> (r: Response)
        ensures
            spec_status_code(r.status) == spec_status(proto_response.status),
            r.status == Status::NotFound ==> r.content is None,
            r.status != Status::NotFound ==> (r.content matches Some(c) && c@ == (
            match proto_response.content {
                Some(pc) => pc@,
                None => Seq::<char>::empty(),
            })),
    {
        let status = proto_response.status();
        let content = proto_response.content();
        if status == STATUS_NOT_FOUND {
            Response { status: Status::NotFound, content: None }
        } else {
            let owned = String::from_str(content);
            if status == STATUS_OK {
                Response { status: Status::Okay, content: Some(owned) }
            } else if status == STATUS_ERROR {
                Response { status: Status::Error, content: Some(owned) }
            } else {
                Response { status: Status::Unespecified, content: Some(owned) }
            }
        }
    }
}

} // verus!
