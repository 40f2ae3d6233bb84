//! Commands against the key-value mapping and their binary wire format.
//!
//! The format is fixed so that any two conforming implementations produce
//! interoperable bytes: one tag byte ([`TAG_PUT`] or [`TAG_GET`]) followed
//! by each string field as a length-prefixed record (see [`crate::wire`]).
//! Decoding consumes the whole input; trailing bytes are rejected as
//! corruption.

use crate::error::ApplyError;
use crate::wire::lemma_encode_str_len;
use crate::wire::lemma_encode_str_prefix_unique;
use crate::wire::no_record_at;
use crate::wire::read_str;
use crate::wire::record_at;
use crate::wire::spec_encode_str;
use crate::wire::write_str;
use vstd::prelude::*;
use vstd::utf8::encode_utf8;

verus! {

/// Tag byte that opens the encoding of a `Put` command.
pub const TAG_PUT: u8 = 0;

/// Tag byte that opens the encoding of a `Get` command.
pub const TAG_GET: u8 = 1;

/// A single request against the key-value mapping: write one key/value
/// pair, or read one key.  Commands are transient: constructed, then
/// encoded or applied, never stored.  Any strings are accepted, including
/// empty ones.  These two variants are the closed set: bytes that encode
/// anything else fail to decode rather than becoming a new variant.
#[derive(Debug, Clone, PartialEq)]
pub enum Command {
    Put { key: String, value: String },
    Get { key: String },
}

/// The mathematical value of a [`Command`]: the same two variants over
/// character sequences.
pub enum CommandView {
    Put { key: Seq<char>, value: Seq<char> },
    Get { key: Seq<char> },
}

impl View for Command {
    type V = CommandView;

    open spec fn view(&self) -> CommandView {
        match self {
            Command::Put { key, value } => CommandView::Put { key: key@, value: value@ },
            Command::Get { key } => CommandView::Get { key: key@ },
        }
    }
}

impl CommandView {
    /// The command's strings are encodable: each one's UTF-8 byte count
    /// fits the 64-bit length prefix.  Every `Command` built at run time
    /// satisfies this, since a string's byte count is bounded by `usize`.
    pub open spec fn wf(self) -> bool {
        match self {
            CommandView::Put { key, value } => encode_utf8(key).len() <= u64::MAX && encode_utf8(
                value,
            ).len() <= u64::MAX,
            CommandView::Get { key } => encode_utf8(key).len() <= u64::MAX,
        }
    }
}

/// The wire format: the variant's tag byte followed by its string fields,
/// each as a length-prefixed record.
pub open spec fn spec_encode(c: CommandView) -> Seq<u8> {
    match c {
        CommandView::Put { key, value } => seq![TAG_PUT] + spec_encode_str(key) + spec_encode_str(
            value,
        ),
        CommandView::Get { key } => seq![TAG_GET] + spec_encode_str(key),
    }
}

/// The partial inverse of [`spec_encode`]: the command that a byte
/// sequence encodes, or `None` when it encodes none.
pub open spec fn spec_decode(bytes: Seq<u8>) -> Option<CommandView> {
    if exists|c: CommandView| c.wf() && spec_encode(c) == bytes {
        Some(choose|c: CommandView| c.wf() && spec_encode(c) == bytes)
    } else {
        None
    }
}

proof fn lemma_tagged_single_parts(t: u8, x: Seq<u8>)
    ensures
        (seq![t] + x).len() == 1 + x.len(),
        (seq![t] + x)[0] == t,
        (seq![t] + x).subrange(1, 1 + x.len() as int) == x,
{
    assert((seq![t] + x).subrange(1, 1 + x.len() as int) =~= x);
}

proof fn lemma_tagged_pair_parts(t: u8, x: Seq<u8>, y: Seq<u8>)
    ensures
        (seq![t] + x + y).len() == 1 + x.len() + y.len(),
        (seq![t] + x + y)[0] == t,
        (seq![t] + x + y).subrange(1, 1 + x.len() as int) == x,
        (seq![t] + x + y).subrange(1 + x.len() as int, 1 + x.len() + y.len() as int) == y,
{
    assert((seq![t] + x + y).subrange(1, 1 + x.len() as int) =~= x);
    assert((seq![t] + x + y).subrange(1 + x.len() as int, 1 + x.len() + y.len() as int) =~= y);
}

/// A well-formed `Put` command's encoding, read as its parts: the tag and
/// the two records it is made of.
proof fn lemma_put_encoding_parts(k: Seq<char>, v: Seq<char>)
    ensures
        ({
            let b = spec_encode(CommandView::Put { key: k, value: v });
            let mid = 1 + spec_encode_str(k).len() as int;
            &&& b.len() == 1 + spec_encode_str(k).len() + spec_encode_str(v).len()
            &&& b[0] == TAG_PUT
            &&& record_at(b, 1, k, mid)
            &&& record_at(b, mid, v, b.len() as int)
        }),
{
    lemma_tagged_pair_parts(TAG_PUT, spec_encode_str(k), spec_encode_str(v));
    lemma_encode_str_len(k);
    lemma_encode_str_len(v);
}

/// A well-formed `Get` command's encoding, read as its parts: the tag and
/// the single record it is made of.
proof fn lemma_get_encoding_parts(k: Seq<char>)
    ensures
        ({
            let b = spec_encode(CommandView::Get { key: k });
            &&& b.len() == 1 + spec_encode_str(k).len()
            &&& b[0] == TAG_GET
            &&& record_at(b, 1, k, b.len() as int)
        }),
{
    lemma_tagged_single_parts(TAG_GET, spec_encode_str(k));
    lemma_encode_str_len(k);
}

/// The encoding is unambiguous: two well-formed commands with the same
/// encoding are the same command.
pub proof fn lemma_encode_injective(c1: CommandView, c2: CommandView)
    requires
        c1.wf(),
        c2.wf(),
        spec_encode(c1) == spec_encode(c2),
    ensures
        c1 == c2,
{
    let b = spec_encode(c1);
    match c1 {
        CommandView::Put { key: k1, value: v1 } => {
            lemma_put_encoding_parts(k1, v1);
            match c2 {
                CommandView::Put { key: k2, value: v2 } => {
                    lemma_put_encoding_parts(k2, v2);
                    let e1 = 1 + spec_encode_str(k1).len() as int;
                    let e2 = 1 + spec_encode_str(k2).len() as int;
                    lemma_encode_str_prefix_unique(b, 1, k1, e1, k2, e2);
                    lemma_encode_str_prefix_unique(b, e1, v1, b.len() as int, v2, b.len() as int);
                },
                CommandView::Get { key: k2 } => {
                    lemma_get_encoding_parts(k2);
                    assert(b[0] == TAG_PUT && b[0] == TAG_GET);
                },
            }
        },
        CommandView::Get { key: k1 } => {
            lemma_get_encoding_parts(k1);
            match c2 {
                CommandView::Put { key: k2, value: v2 } => {
                    lemma_put_encoding_parts(k2, v2);
                    assert(b[0] == TAG_PUT && b[0] == TAG_GET);
                },
                CommandView::Get { key: k2 } => {
                    lemma_get_encoding_parts(k2);
                    lemma_encode_str_prefix_unique(b, 1, k1, b.len() as int, k2, b.len() as int);
                },
            }
        },
    }
}

/// Round trip: decoding the encoding of a well-formed command gives back
/// exactly that command.  Well-formedness only rules out strings whose
/// byte count overflows the 64-bit length prefix, which no run-time
/// command can hold.
pub proof fn lemma_decode_encode(c: CommandView)
    requires
        c.wf(),
    ensures
        spec_decode(spec_encode(c)) == Some(c),
{
    assert(c.wf() && spec_encode(c) == spec_encode(c));
    let c2 = choose|c2: CommandView| c2.wf() && spec_encode(c2) == spec_encode(c);
    lemma_encode_injective(c2, c);
}

/// Nothing decodes from the empty byte sequence.
proof fn lemma_none_empty(b: Seq<u8>)
    requires
        b.len() == 0,
    ensures
        spec_decode(b) is None,
{
    assert forall|c: CommandView| !(c.wf() && spec_encode(c) == b) by {
        match c {
            CommandView::Put { key, value } => lemma_put_encoding_parts(key, value),
            CommandView::Get { key } => lemma_get_encoding_parts(key),
        }
    }
}

/// Nothing decodes from bytes whose first byte is no known tag.
proof fn lemma_none_bad_tag(b: Seq<u8>)
    requires
        b.len() >= 1,
        b[0] != TAG_PUT,
        b[0] != TAG_GET,
    ensures
        spec_decode(b) is None,
{
    assert forall|c: CommandView| !(c.wf() && spec_encode(c) == b) by {
        match c {
            CommandView::Put { key, value } => lemma_put_encoding_parts(key, value),
            CommandView::Get { key } => lemma_get_encoding_parts(key),
        }
    }
}

/// Nothing decodes from bytes that open with the `Put` tag but carry no
/// key record after it.
proof fn lemma_none_put_no_key(b: Seq<u8>)
    requires
        b.len() >= 1,
        b[0] == TAG_PUT,
        no_record_at(b, 1),
    ensures
        spec_decode(b) is None,
{
    assert forall|c: CommandView| !(c.wf() && spec_encode(c) == b) by {
        if c.wf() && spec_encode(c) == b {
            match c {
                CommandView::Put { key, value } => {
                    lemma_put_encoding_parts(key, value);
                    let mid = 1 + spec_encode_str(key).len() as int;
                    assert(record_at(b, 1, key, mid));
                    assert(false);
                },
                CommandView::Get { key } => {
                    lemma_get_encoding_parts(key);
                    assert(false);
                },
            }
        }
    }
}

/// Nothing decodes from bytes that open with the `Put` tag and a key
/// record but carry no value record after it.
proof fn lemma_none_put_no_value(b: Seq<u8>, k0: Seq<char>, mid: int)
    requires
        b.len() >= 1,
        b.len() <= u64::MAX,
        b[0] == TAG_PUT,
        record_at(b, 1, k0, mid),
        no_record_at(b, mid),
    ensures
        spec_decode(b) is None,
{
    assert forall|c: CommandView| !(c.wf() && spec_encode(c) == b) by {
        if c.wf() && spec_encode(c) == b {
            match c {
                CommandView::Put { key, value } => {
                    lemma_put_encoding_parts(key, value);
                    lemma_encode_str_len(k0);
                    let e = 1 + spec_encode_str(key).len() as int;
                    lemma_encode_str_prefix_unique(b, 1, key, e, k0, mid);
                    assert(record_at(b, mid, value, b.len() as int));
                    assert(false);
                },
                CommandView::Get { key } => {
                    lemma_get_encoding_parts(key);
                    assert(false);
                },
            }
        }
    }
}

/// Nothing decodes from bytes that open with the `Put` tag, a key record
/// and a value record, but do not end with the value record: trailing
/// bytes are corruption, not a command.
proof fn lemma_none_put_trailing(b: Seq<u8>, k0: Seq<char>, mid: int, v0: Seq<char>, end: int)
    requires
        b.len() >= 1,
        b.len() <= u64::MAX,
        b[0] == TAG_PUT,
        record_at(b, 1, k0, mid),
        record_at(b, mid, v0, end),
        end != b.len(),
    ensures
        spec_decode(b) is None,
{
    assert forall|c: CommandView| !(c.wf() && spec_encode(c) == b) by {
        if c.wf() && spec_encode(c) == b {
            match c {
                CommandView::Put { key, value } => {
                    lemma_put_encoding_parts(key, value);
                    lemma_encode_str_len(k0);
                    lemma_encode_str_len(v0);
                    let e = 1 + spec_encode_str(key).len() as int;
                    lemma_encode_str_prefix_unique(b, 1, key, e, k0, mid);
                    lemma_encode_str_prefix_unique(b, mid, value, b.len() as int, v0, end);
                    assert(false);
                },
                CommandView::Get { key } => {
                    lemma_get_encoding_parts(key);
                    assert(false);
                },
            }
        }
    }
}

/// Nothing decodes from bytes that open with the `Get` tag but carry no
/// key record after it.
proof fn lemma_none_get_no_key(b: Seq<u8>)
    requires
        b.len() >= 1,
        b[0] == TAG_GET,
        no_record_at(b, 1),
    ensures
        spec_decode(b) is None,
{
    assert forall|c: CommandView| !(c.wf() && spec_encode(c) == b) by {
        if c.wf() && spec_encode(c) == b {
            match c {
                CommandView::Put { key, value } => {
                    lemma_put_encoding_parts(key, value);
                    assert(false);
                },
                CommandView::Get { key } => {
                    lemma_get_encoding_parts(key);
                    assert(record_at(b, 1, key, b.len() as int));
                    assert(false);
                },
            }
        }
    }
}

/// Nothing decodes from bytes that open with the `Get` tag and a key
/// record but do not end with it: trailing bytes are corruption.
proof fn lemma_none_get_trailing(b: Seq<u8>, k0: Seq<char>, end: int)
    requires
        b.len() >= 1,
        b.len() <= u64::MAX,
        b[0] == TAG_GET,
        record_at(b, 1, k0, end),
        end != b.len(),
    ensures
        spec_decode(b) is None,
{
    assert forall|c: CommandView| !(c.wf() && spec_encode(c) == b) by {
        if c.wf() && spec_encode(c) == b {
            match c {
                CommandView::Put { key, value } => {
                    lemma_put_encoding_parts(key, value);
                    assert(false);
                },
                CommandView::Get { key } => {
                    lemma_get_encoding_parts(key);
                    lemma_encode_str_len(k0);
                    lemma_encode_str_prefix_unique(b, 1, key, b.len() as int, k0, end);
                    assert(false);
                },
            }
        }
    }
}

/// Bytes that open with the `Put` tag and consist of exactly a key record
/// and a value record decode to that `Put` command.
proof fn lemma_decode_put_ok(b: Seq<u8>, k0: Seq<char>, mid: int, v0: Seq<char>, end: int)
    requires
        b.len() >= 1,
        b.len() <= u64::MAX,
        b[0] == TAG_PUT,
        record_at(b, 1, k0, mid),
        record_at(b, mid, v0, end),
        end == b.len(),
    ensures
        spec_decode(b) == Some(CommandView::Put { key: k0, value: v0 }),
{
    let c0 = CommandView::Put { key: k0, value: v0 };
    lemma_encode_str_len(k0);
    lemma_encode_str_len(v0);
    assert(c0.wf());
    lemma_put_encoding_parts(k0, v0);
    assert(spec_encode(c0) =~= b);
    let c2 = choose|c2: CommandView| c2.wf() && spec_encode(c2) == b;
    lemma_encode_injective(c2, c0);
}

/// Bytes that open with the `Get` tag and consist of exactly a key record
/// decode to that `Get` command.
proof fn lemma_decode_get_ok(b: Seq<u8>, k0: Seq<char>, end: int)
    requires
        b.len() >= 1,
        b.len() <= u64::MAX,
        b[0] == TAG_GET,
        record_at(b, 1, k0, end),
        end == b.len(),
    ensures
        spec_decode(b) == Some(CommandView::Get { key: k0 }),
{
    let c0 = CommandView::Get { key: k0 };
    lemma_encode_str_len(k0);
    assert(c0.wf());
    lemma_get_encoding_parts(k0);
    assert(spec_encode(c0) =~= b);
    let c2 = choose|c2: CommandView| c2.wf() && spec_encode(c2) == b;
    lemma_encode_injective(c2, c0);
}

impl Command {
    /// Constructs a write intent for the given key and value.
    pub fn new_set(k: &str, v: &str) -> (c: Command)
        ensures
            c@ == (CommandView::Put { key: k@, value: v@ }),
    {
        Command::Put { key: k.to_owned(), value: v.to_owned() }
    }

    /// Constructs a read intent for the given key.
    pub fn new_get(k: &str) -> (c: Command)
        ensures
            c@ == (CommandView::Get { key: k@ }),
    {
        Command::Get { key: k.to_owned() }
    }

    /// Serializes the command into its wire format.  Encoding a command
    /// never fails; the `Result` surfaces the `EncodingFailure` arm of the
    /// error taxonomy instead of reserving a panic for it.
    pub fn encode(&self) -> (r: Result<Vec<u8>, ApplyError>)
        ensures
            r is Ok,
            (r matches Ok(bytes) ==> bytes@ == spec_encode(self@)),
            self@.wf(),
    {
        let mut out: Vec<u8> = Vec::new();
        match self {
            Command::Put { key, value } => {
                out.push(TAG_PUT);
                write_str(&mut out, key.as_str());
                write_str(&mut out, value.as_str());
                proof {
                    assert(out@ =~= spec_encode(self@));
                }
            },
            Command::Get { key } => {
                out.push(TAG_GET);
                write_str(&mut out, key.as_str());
                proof {
                    assert(out@ =~= spec_encode(self@));
                }
            },
        }
        Ok(out)
    }

    /// Parses a byte sequence produced by [`Command::encode`], or by any
    /// producer following the same wire contract.  Fails with
    /// `DecodingFailure` when the bytes are truncated, malformed, carry an
    /// unknown tag, or leave trailing bytes after a complete command.
    pub fn decode(bytes: &[u8]) -> (r: Result<Command, ApplyError>)
        ensures
            (r matches Ok(c) ==> spec_decode(bytes@) == Some(c@)),
            (r matches Err(e) ==> spec_decode(bytes@) is None && e == ApplyError::DecodingFailure),
    {
        let len: usize = bytes.len();
        proof {
            assert(bytes@.len() <= u64::MAX);
        }
        if len == 0 {
            proof {
                lemma_none_empty(bytes@);
            }
            return Err(ApplyError::DecodingFailure);
        }
        let tag: u8 = bytes[0];
        if tag == TAG_PUT {
            match read_str(bytes, 1) {
                Some((key, mid)) => match read_str(bytes, mid) {
                    Some((value, end)) => {
                        if end == len {
                            proof {
                                lemma_decode_put_ok(
                                    bytes@,
                                    key@,
                                    mid as int,
                                    value@,
                                    end as int,
                                );
                            }
                            Ok(Command::Put { key, value })
                        } else {
                            proof {
                                lemma_none_put_trailing(
                                    bytes@,
                                    key@,
                                    mid as int,
                                    value@,
                                    end as int,
                                );
                            }
                            Err(ApplyError::DecodingFailure)
                        }
                    },
                    None => {
                        proof {
                            lemma_none_put_no_value(bytes@, key@, mid as int);
                        }
                        Err(ApplyError::DecodingFailure)
                    },
                },
                None => {
                    proof {
                        lemma_none_put_no_key(bytes@);
                    }
                    Err(ApplyError::DecodingFailure)
                },
            }
        } else if tag == TAG_GET {
            match read_str(bytes, 1) {
                Some((key, end)) => {
                    if end == len {
                        proof {
                            lemma_decode_get_ok(bytes@, key@, end as int);
                        }
                        Ok(Command::Get { key })
                    } else {
                        proof {
                            lemma_none_get_trailing(bytes@, key@, end as int);
                        }
                        Err(ApplyError::DecodingFailure)
                    }
                },
                None => {
                    proof {
                        lemma_none_get_no_key(bytes@);
                    }
                    Err(ApplyError::DecodingFailure)
                },
            }
        } else {
            proof {
                lemma_none_bad_tag(bytes@);
            }
            Err(ApplyError::DecodingFailure)
        }
    }
}

} // verus!
