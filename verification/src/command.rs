//! Commands the store understands, and how they are read and run.
//!
//! A `Command` is one of the four operations of the engine contract.
//! It can be converted to and from the wire-message form, parsed from a
//! text line, and run against an engine.

use vstd::prelude::*;
use vstd::string::{StrSliceExecFns, StringExecFns};
use vstd::utf8::encode_utf8;

use crate::error::EngineError;
use crate::proto;
use crate::proto::{
    spec_operation, OPERATION_DEL, OPERATION_GET, OPERATION_LIST, OPERATION_SET,
};
use crate::response::{Response, Status};
use crate::storage::Engine;

verus! {

/// The whitespace that separates the words of a command line.
pub open spec fn is_ws(c: char) -> bool {
    c == ' ' || c == '\t' || c == '\n' || c == '\r'
}

/// The leading run of non-whitespace characters.
pub open spec fn take_token(s: Seq<char>) -> Seq<char>
    decreases s.len(),
{
    if s.len() == 0 || is_ws(s[0]) {
        Seq::empty()
    } else {
        seq![s[0]] + take_token(s.drop_first())
    }
}

/// What remains after the leading run of non-whitespace characters.
pub open spec fn skip_token(s: Seq<char>) -> Seq<char>
    decreases s.len(),
{
    if s.len() == 0 || is_ws(s[0]) {
        s
    } else {
        skip_token(s.drop_first())
    }
}

/// The whitespace-separated words of a line, in order.
pub open spec fn tokens(s: Seq<char>) -> Seq<Seq<char>>
    decreases s.len(),
    via tokens_decreases
{
    if s.len() == 0 {
        Seq::empty()
    } else if is_ws(s[0]) {
        tokens(s.drop_first())
    } else {
        seq![take_token(s)] + tokens(skip_token(s))
    }
}

#[via_fn]
proof fn tokens_decreases(s: Seq<char>) {
    if s.len() != 0 && !is_ws(s[0]) {
        lemma_skip_token_shrinks(s);
    }
}

/// Skipping a token consumes at least its leading character.
proof fn lemma_skip_token_shrinks(s: Seq<char>)
    requires
        s.len() > 0,
        !is_ws(s[0]),
    ensures
        skip_token(s).len() < s.len(),
    decreases s.len(),
{
    let rest = s.drop_first();
    if rest.len() == 0 || is_ws(rest[0]) {
        assert(skip_token(rest) == rest);
    } else {
        lemma_skip_token_shrinks(rest);
    }
}

/// When the first `j` characters are the leading word — no whitespace
/// among them, whitespace or the end right after — taking and skipping
/// the token split the sequence at `j`.
proof fn lemma_token_split(t: Seq<char>, j: int)
    requires
        0 <= j <= t.len(),
        forall|m: int| 0 <= m < j ==> !is_ws(t[m]),
        j == t.len() || is_ws(t[j]),
    ensures
        take_token(t) == t.subrange(0, j),
        skip_token(t) == t.skip(j),
    decreases j,
{
    if j == 0 {
        assert(t.subrange(0, 0) =~= Seq::<char>::empty());
        assert(t.skip(0) =~= t);
    } else {
        assert(!is_ws(t[0]));
        lemma_token_split(t.drop_first(), j - 1);
        assert(t.drop_first().subrange(0, j - 1) =~= t.subrange(1, j));
        assert(seq![t[0]] + t.subrange(1, j) =~= t.subrange(0, j));
        assert(t.drop_first().skip(j - 1) =~= t.skip(j));
    }
}

/// Whether `c` separates words.
fn is_ws_char(c: char) -> (r: bool)
    ensures
        r == is_ws(c),
{
    c == ' ' || c == '\t' || c == '\n' || c == '\r'
}

/// The next word of `s` at or after position `start`, with the position
/// just past it; `None` when only whitespace remains.
fn next_token(s: &str, start: usize, n: usize) -> (r: Option<(String, usize)>)
    requires
        n == s@.len(),
        start <= n,
    ensures
        match r {
            Some((tok, end)) => end <= n && tokens(s@.skip(start as int)) == seq![tok@] + tokens(
                s@.skip(end as int),
            ),
            None => tokens(s@.skip(start as int)) == Seq::<Seq<char>>::empty(),
        },
{
    let mut i = start;
    while i < n && is_ws_char(s.get_char(i))
        invariant
            start <= i <= n,
            n == s@.len(),
            tokens(s@.skip(start as int)) == tokens(s@.skip(i as int)),
        decreases n - i,
    {
        proof {
            assert(s@.skip(i as int).drop_first() =~= s@.skip(i as int + 1));
        }
        i += 1;
    }
    if i == n {
        proof {
            assert(s@.skip(n as int) =~= Seq::<char>::empty());
        }
        return None;
    }
    let token_start = i;
    while i < n && !is_ws_char(s.get_char(i))
        invariant
            token_start <= i <= n,
            n == s@.len(),
            forall|m: int| token_start <= m < i ==> !is_ws(s@[m]),
        decreases n - i,
    {
        i += 1;
    }
    let tok = String::from_str(s.substring_char(token_start, i));
    proof {
        let t = s@.skip(token_start as int);
        assert forall|m: int| 0 <= m < i - token_start implies !is_ws(t[m]) by {
            assert(t[m] == s@[token_start + m]);
        }
        lemma_token_split(t, i - token_start);
        assert(t.subrange(0, i - token_start) =~= s@.subrange(token_start as int, i as int));
        assert(t.skip(i - token_start) =~= s@.skip(i as int));
        assert(!is_ws(t[0]));
        assert(tokens(t) == seq![take_token(t)] + tokens(skip_token(t)));
    }
    Some((tok, i))
}

/// One operation on the store.
#[derive(Debug)]
pub enum Command {
    /// Get the value for the specified key.
    Get { key: String },
    /// Sets the value for the specified key.
    Put { key: String, value: String },
    /// Deletes the specified key.
    Del { key: String },
    /// Lists all keys in the database.
    List,
}

/// Why a text line failed to parse as a command.
#[derive(Debug, Clone, Copy, PartialEq, Eq, Structural)]
pub enum ParseError {
    /// The line holds no command word.
    CommandMissing,
    /// The command needs a key and none was given.
    KeyMissing,
    /// The set command needs a value and none was given.
    ValueMissing,
    /// The command word is not one the store knows.
    UnknownCommand,
}

impl ParseError {
    /// A short description of the parse failure, for callers that print.
    pub fn message(&self) -> (r: String)
        ensures
            r@ == self.spec_message(),
    {
        match self {
            ParseError::CommandMissing => String::from_str("Command not found"),
            ParseError::KeyMissing => String::from_str("Key not found"),
            ParseError::ValueMissing => String::from_str("Value not found in set command"),
            ParseError::UnknownCommand => String::from_str("Unknown command"),
        }
    }

    /// What `message` returns for each variant.
    pub open spec fn spec_message(self) -> Seq<char> {
        match self {
            ParseError::CommandMissing => "Command not found"@,
            ParseError::KeyMissing => "Key not found"@,
            ParseError::ValueMissing => "Value not found in set command"@,
            ParseError::UnknownCommand => "Unknown command"@,
        }
    }
}

impl Command {
    /// Builds the wire message for this command: the operation's code,
    /// the key (empty for a listing), and the value only for a set.
    pub fn to_proto_command(&self) -> (r: proto::Command)
        ensures
            match self {
                Command::Get { key } => r.operation == OPERATION_GET && r.key@ == key@
                    && r.value is None,
                Command::Put { key, value } => r.operation == OPERATION_SET && r.key@ == key@ && (
                r.value matches Some(v) && v@ == value@),
                Command::Del { key } => r.operation == OPERATION_DEL && r.key@ == key@
                    && r.value is None,
                Command::List => r.operation == OPERATION_LIST && r.key@ == Seq::<char>::empty()
                    && r.value is None,
            },
    {
        match self {
            Command::Get { key } => proto::Command {
                key: key.clone(),
                operation: OPERATION_GET,
                value: None,
            },
            Command::Put { key, value } => proto::Command {
                key: key.clone(),
                operation: OPERATION_SET,
                value: Some(value.clone()),
            },
            Command::Del { key } => proto::Command {
                key: key.clone(),
                operation: OPERATION_DEL,
                value: None,
            },
            Command::List => proto::Command {
                key: String::new(),
                operation: OPERATION_LIST,
                value: None,
            },
        }
    }

    /// Reads a wire message back into a command.  An unknown operation
    /// code reads as a get, the decoder's default; a set with no value
    /// reads its value as the empty string.
    pub fn from_proto_command(cmd: proto::Command) -> (r: Command)
        ensures
            ({
                let op = spec_operation(cmd.operation);
                match r {
                    Command::Get { key } => op == OPERATION_GET && key@ == cmd.key@,
                    Command::Put { key, value } => op == OPERATION_SET && key@ == cmd.key@ && value@
                        == (match cmd.value {
                        Some(v) => v@,
                        None => Seq::<char>::empty(),
                    }),
                    Command::Del { key } => op == OPERATION_DEL && key@ == cmd.key@,
                    Command::List => op == OPERATION_LIST,
                }
            }),
    {
        let op = cmd.operation();
        if op == OPERATION_SET {
            let value = String::from_str(cmd.value());
            Command::Put { key: cmd.key, value }
        } else if op == OPERATION_DEL {
            Command::Del { key: cmd.key }
        } else if op == OPERATION_LIST {
            Command::List
        } else {
            Command::Get { key: cmd.key }
        }
    }

    /// Parses a command line: a command word, then the key and value it
    /// needs, separated by whitespace.  Words beyond those needed are
    /// ignored.  Fails naming exactly what was missing or unknown.
    pub fn from_str(s: &str) -> (r: Result<Command, ParseError>)
        ensures
            ({
                let ts = tokens(s@);
                match r {
                    Ok(cmd) => ts.len() >= 1 && match cmd {
                        Command::Get { key } => ts[0] == "get"@ && ts.len() >= 2 && key@ == ts[1],
                        Command::Put { key, value } => ts[0] == "set"@ && ts.len() >= 3 && key@
                            == ts[1] && value@ == ts[2],
                        Command::Del { key } => ts[0] == "del"@ && ts.len() >= 2 && key@ == ts[1],
                        Command::List => ts[0] == "list"@,
                    },
                    Err(e) => match e {
                        ParseError::CommandMissing => ts.len() == 0,
                        ParseError::KeyMissing => ts.len() == 1 && (ts[0] == "get"@ || ts[0]
                            == "set"@ || ts[0] == "del"@),
                        ParseError::ValueMissing => ts.len() == 2 && ts[0] == "set"@,
                        ParseError::UnknownCommand => ts.len() >= 1 && ts[0] != "get"@ && ts[0]
                            != "set"@ && ts[0] != "del"@ && ts[0] != "list"@,
                    },
                }
            }),
    {
        let n = s.unicode_len();
        proof {
            assert(s@.skip(0) =~= s@);
        }
        let word_get = String::from_str("get");
        let word_set = String::from_str("set");
        let word_del = String::from_str("del");
        let word_list = String::from_str("list");
        match next_token(s, 0, n) {
            None => Err(ParseError::CommandMissing),
            Some((word, after_word)) => {
                if word == word_get {
                    match next_token(s, after_word, n) {
                        None => Err(ParseError::KeyMissing),
                        Some((key, _)) => Ok(Command::Get { key }),
                    }
                } else if word == word_set {
                    match next_token(s, after_word, n) {
                        None => Err(ParseError::KeyMissing),
                        Some((key, after_key)) => match next_token(s, after_key, n) {
                            None => Err(ParseError::ValueMissing),
                            Some((value, _)) => Ok(Command::Put { key, value }),
                        },
                    }
                } else if word == word_del {
                    match next_token(s, after_word, n) {
                        None => Err(ParseError::KeyMissing),
                        Some((key, _)) => Ok(Command::Del { key }),
                    }
                } else if word == word_list {
                    Ok(Command::List)
                } else {
                    Err(ParseError::UnknownCommand)
                }
            },
        }
    }
}

/// The text a listing prints: one `- key` line per key, in order, then a
/// blank line.
pub open spec fn spec_list_lines(keys: Seq<String>) -> Seq<char>
    decreases keys.len(),
{
    if keys.len() == 0 {
        Seq::empty()
    } else {
        "- "@ + keys.first()@ + "\n"@ + spec_list_lines(keys.drop_first())
    }
}

/// Appending one key appends one line.
proof fn lemma_list_lines_push(keys: Seq<String>, k: String)
    ensures
        spec_list_lines(keys.push(k)) == spec_list_lines(keys) + "- "@ + k@ + "\n"@,
    decreases keys.len(),
{
    if keys.len() == 0 {
        assert(keys.push(k).drop_first() =~= Seq::<String>::empty());
        assert(spec_list_lines(Seq::<String>::empty()) == Seq::<char>::empty());
        assert("- "@ + k@ + "\n"@ + Seq::<char>::empty() =~= Seq::<char>::empty() + "- "@ + k@
            + "\n"@);
    } else {
        assert(keys.push(k).drop_first() =~= keys.drop_first().push(k));
        assert(keys.push(k).first() == keys.first());
        lemma_list_lines_push(keys.drop_first(), k);
        assert("- "@ + keys.first()@ + "\n"@ + (spec_list_lines(keys.drop_first()) + "- "@ + k@
            + "\n"@) =~= ("- "@ + keys.first()@ + "\n"@ + spec_list_lines(keys.drop_first()))
            + "- "@ + k@ + "\n"@);
    }
}

/// Runs the listing and renders its lines, then a closing blank line.
fn render_list(engine: &Engine) -> (r: String)
    requires
        engine.wf(),
    ensures
        exists|ks: Seq<String>|
            #[trigger] engine.lists_live_keys(ks) && r@ == spec_list_lines(ks) + "\n"@,
{
    let keys = match engine.list() {
        Ok(keys) => keys,
        Err(_) => {
            // unreachable: list never fails on a well-formed engine
            proof {
                assert(false);
            }
            Vec::new()
        },
    };
    let mut out = String::new();
    let mut i: usize = 0;
    proof {
        assert(keys@.take(0) =~= Seq::<String>::empty());
    }
    while i < keys.len()
        invariant
            i <= keys@.len(),
            out@ == spec_list_lines(keys@.take(i as int)),
        decreases keys@.len() - i,
    {
        proof {
            lemma_list_lines_push(keys@.take(i as int), keys@[i as int]);
            assert(keys@.take(i as int).push(keys@[i as int]) =~= keys@.take(i as int + 1));
        }
        out.append("- ");
        out.append(keys[i].as_str());
        out.append("\n");
        i += 1;
    }
    proof {
        assert(keys@.take(keys@.len() as int) =~= keys@);
    }
    out.append("\n");
    out
}

/// Runs one command against the engine and renders the outcome as the
/// line-protocol text: the value or `(nil)` for a get, `ok` for a set
/// or delete, one line per key for a listing; an engine error is
/// rendered as its message.
pub fn run(engine: &mut Engine, command: Command) -> (r: Result<String, EngineError>)
    requires
        old(engine).wf(),
    ensures
        final(engine).wf(),
        r is Ok,
        match command {
            Command::Get { key } => *final(engine) == *old(engine) && (r matches Ok(s) && s@ == (
            if old(engine).kv().contains_key(key@) {
                old(engine).kv()[key@] + "\n"@
            } else {
                "(nil)\n"@
            })),
            Command::Put { key, value } => (r matches Ok(s) && (if encode_utf8(key@).len() <= 255
                && encode_utf8(value@).len() <= 65535 {
                final(engine).kv() == old(engine).kv().insert(key@, value@) && s@ == "ok\n"@
            } else {
                *final(engine) == *old(engine) && s@ == (if encode_utf8(key@).len() > 255 {
                    EngineError::KeyTooLong
                } else {
                    EngineError::ValueTooLong
                }).spec_message()
            })),
            Command::Del { key } => (r matches Ok(s) && (if encode_utf8(key@).len() <= 255 {
                final(engine).kv() == old(engine).kv().remove(key@) && s@ == "ok\n"@
            } else {
                *final(engine) == *old(engine) && s@ == EngineError::KeyTooLong.spec_message()
            })),
            Command::List => *final(engine) == *old(engine) && (r matches Ok(s) && exists|
                ks: Seq<String>,
            |
                #[trigger] old(engine).lists_live_keys(ks) && s@ == spec_list_lines(ks) + "\n"@),
        },
{
    match command {
        Command::Get { key } => match engine.get(key.as_str()) {
            Ok(Some(value)) => Ok(value.concat("\n")),
            Ok(None) => Ok(String::from_str("(nil)\n")),
            Err(_) => {
                // unreachable: get never fails on a well-formed engine
                proof {
                    assert(false);
                }
                Ok(String::new())
            },
        },
        Command::Put { key, value } => match engine.set(key.as_str(), value.as_str()) {
            Ok(()) => Ok(String::from_str("ok\n")),
            Err(e) => Ok(e.message()),
        },
        Command::Del { key } => match engine.delete(key.as_str()) {
            Ok(()) => Ok(String::from_str("ok\n")),
            Err(e) => Ok(e.message()),
        },
        Command::List => Ok(render_list(engine)),
    }
}

/// Runs one command against the engine and wraps the outcome as a
/// response message: the value with an ok status for a get that found
/// one, not-found for one that did not, ok for a set or delete, the
/// rendered listing for a list; an engine error becomes an error
/// response carrying its message.
pub fn run_proto(engine: &mut Engine, command: Command) -> (r: Response)
    requires
        old(engine).wf(),
    ensures
        final(engine).wf(),
        match command {
            Command::Get { key } => *final(engine) == *old(engine) && (if old(
                engine,
            ).kv().contains_key(key@) {
                r.status == Status::Okay && (r.content matches Some(c) && c@ == old(
                    engine,
                ).kv()[key@])
            } else {
                r.status == Status::NotFound && r.content is None
            }),
            Command::Put { key, value } => (if encode_utf8(key@).len() <= 255 && encode_utf8(
                value@,
            ).len() <= 65535 {
                final(engine).kv() == old(engine).kv().insert(key@, value@) && r.status
                    == Status::Okay && r.content is None
            } else {
                *final(engine) == *old(engine) && r.status == Status::Error && (
                r.content matches Some(c) && c@ == "error: "@ + (if encode_utf8(key@).len() > 255 {
                    EngineError::KeyTooLong
                } else {
                    EngineError::ValueTooLong
                }).spec_message())
            }),
            Command::Del { key } => (if encode_utf8(key@).len() <= 255 {
                final(engine).kv() == old(engine).kv().remove(key@) && r.status == Status::Okay
                    && r.content is None
            } else {
                *final(engine) == *old(engine) && r.status == Status::Error && (
                r.content matches Some(c) && c@ == "error: "@
                    + EngineError::KeyTooLong.spec_message())
            }),
            Command::List => *final(engine) == *old(engine) && r.status == Status::Okay && (
            r.content matches Some(s) && exists|ks: Seq<String>|
                #[trigger] old(engine).lists_live_keys(ks) && s@ == spec_list_lines(ks) + "\n"@),
        },
{
    match command {
        Command::Get { key } => match engine.get(key.as_str()) {
            Ok(Some(value)) => Response { status: Status::Okay, content: Some(value) },
            Ok(None) => Response { status: Status::NotFound, content: None },
            Err(_) => {
                // unreachable: get never fails on a well-formed engine
                proof {
                    assert(false);
                }
                Response { status: Status::Error, content: None }
            },
        },
        Command::Put { key, value } => match engine.set(key.as_str(), value.as_str()) {
            Ok(()) => Response { status: Status::Okay, content: None },
            Err(e) => Response {
                status: Status::Error,
                content: Some(String::from_str("error: ").concat(e.message().as_str())),
            },
        },
        Command::Del { key } => match engine.delete(key.as_str()) {
            Ok(()) => Response { status: Status::Okay, content: None },
            Err(e) => Response {
                status: Status::Error,
                content: Some(String::from_str("error: ").concat(e.message().as_str())),
            },
        },
        Command::List => Response { status: Status::Okay, content: Some(render_list(engine)) },
    }
}

} // verus!
