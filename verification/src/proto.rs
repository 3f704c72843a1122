//! The wire-message data model.
//!
//! These structs mirror, field for field, the request and response
//! messages of the network protocol: an operation code, a key, and an
//! optional value or content.  Unknown operation and status codes fall
//! back to the first (zero) code when read, as the wire layer's decoder
//! does.  The byte-level wire encoding itself belongs to the network
//! layer, outside this crate.

use vstd::prelude::*;

verus! {

/// Operation code: read a key.
pub const OPERATION_GET: i32 = 0;

/// Operation code: bind a key to a value.
pub const OPERATION_SET: i32 = 1;

/// Operation code: delete a key.
pub const OPERATION_DEL: i32 = 2;

/// Operation code: list all live keys.
pub const OPERATION_LIST: i32 = 3;

/// Status code: no status was set.
pub const STATUS_UNESPECIFIED: i32 = 0;

/// Status code: the key has no current value.
pub const STATUS_NOT_FOUND: i32 = 1;

/// Status code: the operation succeeded.
pub const STATUS_OK: i32 = 2;

/// Status code: the operation failed.
pub const STATUS_ERROR: i32 = 3;

/// The operation code an unknown code falls back to when read.
pub open spec fn spec_operation(code: i32) -> i32 {
    if OPERATION_GET <= code <= OPERATION_LIST {
        code
    } else {
        OPERATION_GET
    }
}

/// The status code an unknown code falls back to when read.
pub open spec fn spec_status(code: i32) -> i32 {
    if STATUS_UNESPECIFIED <= code <= STATUS_ERROR {
        code
    } else {
        STATUS_UNESPECIFIED
    }
}

/// A request message: which operation, on which key, with which value.
pub struct Command {
    pub key: String,
    pub operation: i32,
    pub value: Option<String>,
}

impl Command {
    /// The operation this message asks for; an unknown code reads as
    /// the default operation, as the wire decoder's accessor does.
    pub fn operation(&self) -> (r: i32)
        ensures
            r == spec_operation(self.operation),
    {
        if OPERATION_GET <= self.operation && self.operation <= OPERATION_LIST {
            self.operation
        } else {
            OPERATION_GET
        }
    }

    /// The value carried, or the empty string when none was set.
    pub fn value(&self) -> (r: &str)
        ensures
            r@ == (match self.value {
                Some(v) => v@,
                None => Seq::<char>::empty(),
            }),
    {
        proof {
            reveal_strlit("");
        }
        match &self.value {
            Some(v) => v.as_str(),
            None => "",
        }
    }
}

/// A response message: a status code and optional content.
pub struct Response {
    pub status: i32,
    pub content: Option<String>,
}

impl Response {
    /// The status this message carries; an unknown code reads as
    /// unspecified, as the wire decoder's accessor does.
    pub fn status(&self) -> (r: i32)
        ensures
            r == spec_status(self.status),
    {
        if STATUS_UNESPECIFIED <= self.status && self.status <= STATUS_ERROR {
            self.status
        } else {
            STATUS_UNESPECIFIED
        }
    }

    /// The content carried, or the empty string when none was set.
    pub fn content(&self) -> (r: &str)
        ensures
            r@ == (match self.content {
                Some(c) => c@,
                None => Seq::<char>::empty(),
            }),
    {
        proof {
            reveal_strlit("");
        }
        match &self.content {
            Some(c) => c.as_str(),
            None => "",
        }
    }
}

} // verus!
