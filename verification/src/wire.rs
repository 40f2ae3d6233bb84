//! Length-prefixed string records, the building block of the command wire
//! format: each string travels as an 8-byte little-endian count of its
//! UTF-8 bytes followed by those bytes.

use vstd::bytes::lemma_auto_spec_u64_to_from_le_bytes;
use vstd::bytes::spec_u64_from_le_bytes;
use vstd::bytes::spec_u64_to_le_bytes;
use vstd::bytes::u64_from_le_bytes;
use vstd::bytes::u64_to_le_bytes;
use vstd::prelude::*;
use vstd::slice::slice_subrange;
use vstd::utf8::encode_utf8;
use vstd::utf8::decode_utf8;
use vstd::utf8::valid_utf8;

verus! {

broadcast use vstd::utf8::group_utf8_lib;

/// The encoding of one string field: an 8-byte little-endian count of the
/// string's UTF-8 bytes, followed by those bytes.
pub open spec fn spec_encode_str(s: Seq<char>) -> Seq<u8> {
    spec_u64_to_le_bytes(encode_utf8(s).len() as u64) + encode_utf8(s)
}

/// A string record is its 8-byte length prefix plus its payload.
pub proof fn lemma_encode_str_len(s: Seq<char>)
    ensures
        spec_encode_str(s).len() == 8 + encode_utf8(s).len(),
{
    lemma_auto_spec_u64_to_from_le_bytes();
    assert(spec_u64_to_le_bytes(encode_utf8(s).len() as u64).len() == 8);
    assert(spec_encode_str(s).len() == spec_u64_to_le_bytes(encode_utf8(s).len() as u64).len()
        + encode_utf8(s).len());
}

/// One string record sits in `b` exactly from `start` to `end`.
pub open spec fn record_at(b: Seq<u8>, start: int, s: Seq<char>, end: int) -> bool {
    &&& start + 8 <= end <= b.len()
    &&& b.subrange(start, end) == spec_encode_str(s)
}

/// No string record can be read from `b` at `start`.
pub open spec fn no_record_at(b: Seq<u8>, start: int) -> bool {
    forall|s: Seq<char>, e: int|
        #![trigger spec_encode_str(s), b.subrange(start, e)]
        start <= e <= b.len() ==> b.subrange(start, e) != spec_encode_str(s)
}

/// The length prefix makes a record parsed at a given position unique:
/// two string records that start at the same place in the same byte
/// sequence are the same record and end at the same place.
pub proof fn lemma_encode_str_prefix_unique(
    b: Seq<u8>,
    start: int,
    s1: Seq<char>,
    e1: int,
    s2: Seq<char>,
    e2: int,
)
    requires
        0 <= start,
        start <= e1 <= b.len(),
        start <= e2 <= b.len(),
        b.subrange(start, e1) == spec_encode_str(s1),
        b.subrange(start, e2) == spec_encode_str(s2),
        encode_utf8(s1).len() <= u64::MAX,
        encode_utf8(s2).len() <= u64::MAX,
    ensures
        e1 == e2,
        s1 == s2,
{
    lemma_auto_spec_u64_to_from_le_bytes();
    let u1 = encode_utf8(s1);
    let u2 = encode_utf8(s2);
    lemma_encode_str_len(s1);
    lemma_encode_str_len(s2);
    assert(e1 - start == 8 + u1.len());
    assert(e2 - start == 8 + u2.len());
    assert(b.subrange(start, start + 8) =~= b.subrange(start, e1).subrange(0, 8));
    assert(b.subrange(start, e1).subrange(0, 8) =~= spec_u64_to_le_bytes(u1.len() as u64));
    assert(b.subrange(start, start + 8) =~= b.subrange(start, e2).subrange(0, 8));
    assert(b.subrange(start, e2).subrange(0, 8) =~= spec_u64_to_le_bytes(u2.len() as u64));
    assert(u1.len() as u64 == spec_u64_from_le_bytes(spec_u64_to_le_bytes(u1.len() as u64)));
    assert(u1.len() as u64 == u2.len() as u64);
    assert(u1.len() == u2.len());
    assert(e1 == e2);
    assert(u1 =~= b.subrange(start, e1).subrange(8, e1 - start));
    assert(u2 =~= b.subrange(start, e2).subrange(8, e2 - start));
    assert(u1 == u2);
    assert(decode_utf8(u1) == s1);
    assert(decode_utf8(u2) == s2);
}

/// Relies on `String::from_utf8`: it succeeds exactly when the input bytes
/// are valid UTF-8, and the returned string then wraps exactly those bytes.
#[verifier::external_body]
fn string_from_utf8(v: &[u8]) -> (r: Option<String>)
    ensures
        r is Some <==> valid_utf8(v@),
        (r matches Some(s) ==> encode_utf8(s@) == v@),
{
    String::from_utf8(v.to_vec()).ok()
}

/// Appends one string record to the output buffer.
pub(crate) fn write_str(out: &mut Vec<u8>, s: &str)
    ensures
        final(out)@ == old(out)@ + spec_encode_str(s@),
        encode_utf8(s@).len() <= u64::MAX,
{
    let b: &[u8] = s.as_bytes();
    let n: usize = b.len();
    let len_bytes: Vec<u8> = u64_to_le_bytes(n as u64);
    out.extend_from_slice(len_bytes.as_slice());
    out.extend_from_slice(b);
    proof {
        lemma_auto_spec_u64_to_from_le_bytes();
        assert(out@ =~= old(out)@ + spec_encode_str(s@));
    }
}

/// Reads one string record starting at `start`: the string and the offset
/// just past the record, or `None` when no record starts there.  `None`
/// covers a truncated length prefix, a length that overruns the input, and
/// a payload that is not valid UTF-8.
pub(crate) fn read_str(bytes: &[u8], start: usize) -> (r: Option<(String, usize)>)
    requires
        start <= bytes@.len(),
    ensures
        (r matches Some(p) ==> record_at(bytes@, start as int, p.0@, p.1 as int)),
        (r is None ==> no_record_at(bytes@, start as int)),
{
    let len: usize = bytes.len();
    if len - start < 8 {
        proof {
            lemma_auto_spec_u64_to_from_le_bytes();
            assert forall|s: Seq<char>, e: int|
                #![trigger spec_encode_str(s), bytes@.subrange(start as int, e)]
                start <= e <= bytes@.len() implies bytes@.subrange(start as int, e)
                != spec_encode_str(s) by {
                lemma_encode_str_len(s);
            }
        }
        return None;
    }
    let len_prefix: &[u8] = slice_subrange(bytes, start, start + 8);
    let n64: u64 = u64_from_le_bytes(len_prefix);
    let rem: usize = len - (start + 8);
    if n64 > rem as u64 {
        proof {
            lemma_auto_spec_u64_to_from_le_bytes();
            assert forall|s: Seq<char>, e: int|
                #![trigger spec_encode_str(s), bytes@.subrange(start as int, e)]
                start <= e <= bytes@.len() implies bytes@.subrange(start as int, e)
                != spec_encode_str(s) by {
                if bytes@.subrange(start as int, e) == spec_encode_str(s) {
                    let u = encode_utf8(s);
                    lemma_encode_str_len(s);
                    assert(e - start == 8 + u.len());
                    assert(bytes@.subrange(start as int, start + 8) =~= bytes@.subrange(
                        start as int,
                        e,
                    ).subrange(0, 8));
                    assert(bytes@.subrange(start as int, e).subrange(0, 8)
                        =~= spec_u64_to_le_bytes(u.len() as u64));
                    assert(n64 == u.len() as u64);
                    assert(u.len() <= rem);
                    assert(false);
                }
            }
        }
        return None;
    }
    let n: usize = n64 as usize;
    let end: usize = start + 8 + n;
    let payload: &[u8] = slice_subrange(bytes, start + 8, end);
    proof {
        lemma_auto_spec_u64_to_from_le_bytes();
    }
    match string_from_utf8(payload) {
        Some(s) => {
            proof {
                assert(bytes@.subrange(start as int, end as int) =~= spec_u64_to_le_bytes(n64)
                    + payload@);
                assert(encode_utf8(s@).len() == n);
                assert(spec_u64_to_le_bytes(encode_utf8(s@).len() as u64) == spec_u64_to_le_bytes(
                    n64,
                ));
                assert(bytes@.subrange(start as int, end as int) == spec_encode_str(s@));
            }
            Some((s, end))
        },
        None => {
            proof {
                assert forall|s: Seq<char>, e: int|
                    #![trigger spec_encode_str(s), bytes@.subrange(start as int, e)]
                    start <= e <= bytes@.len() implies bytes@.subrange(start as int, e)
                    != spec_encode_str(s) by {
                    if bytes@.subrange(start as int, e) == spec_encode_str(s) {
                        let u = encode_utf8(s);
                        lemma_encode_str_len(s);
                        assert(e - start == 8 + u.len());
                        assert(bytes@.subrange(start as int, start + 8) =~= bytes@.subrange(
                            start as int,
                            e,
                        ).subrange(0, 8));
                        assert(bytes@.subrange(start as int, e).subrange(0, 8)
                            =~= spec_u64_to_le_bytes(u.len() as u64));
                        assert(n64 == u.len() as u64);
                        assert(u.len() == n);
                        assert(e == end);
                        assert(u =~= bytes@.subrange(start as int, e).subrange(8, e - start));
                        assert(u =~= payload@);
                        assert(valid_utf8(payload@));
                        assert(false);
                    }
                }
            }
            None
        },
    }
}

} // verus!
