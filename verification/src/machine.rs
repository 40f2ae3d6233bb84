//! The state-machine core: one replica's key-value mapping, mutated only
//! by applying serialized commands.

use crate::command::Command;
use crate::command::CommandView;
use crate::command::spec_decode;
use crate::error::ApplyError;
use vstd::hash_map::StringHashMap;
use vstd::prelude::*;
use vstd::slice::slice_to_vec;
use vstd::utf8::encode_utf8;

verus! {

/// What one decoded command does to a mapping, and what it answers: `Put`
/// stores the pair and answers no bytes; `Get` leaves the mapping alone
/// and answers the stored value's UTF-8 bytes, or `NotFound` when the key
/// is absent.
pub open spec fn spec_apply(m: Map<Seq<char>, Seq<char>>, c: CommandView) -> (Map<
    Seq<char>,
    Seq<char>,
>, Result<Seq<u8>, ApplyError>) {
    match c {
        CommandView::Put { key, value } => (m.insert(key, value), Ok(Seq::empty())),
        CommandView::Get { key } => (
            m,
            if m.contains_key(key) {
                Ok(encode_utf8(m[key]))
            } else {
                Err(ApplyError::NotFound)
            },
        ),
    }
}

/// The answer of [`StateMachine::apply`] as a mathematical value.
pub open spec fn result_view(r: Result<Vec<u8>, ApplyError>) -> Result<Seq<u8>, ApplyError> {
    match r {
        Ok(bytes) => Ok(bytes@),
        Err(e) => Err(e),
    }
}

/// One replica of the store: a mapping from string keys to string values,
/// owned exclusively, plus the replica's node id.  The mapping reflects
/// exactly the sequence of `Put` commands applied so far, each overwriting
/// any prior value for the same key; the caller supplies the apply order.
///
/// `apply` takes the machine by exclusive borrow, so the borrow checker is
/// the concurrency guard: no torn read or write is possible, and there is
/// no poisonable lock inside the core.  Callers that share one machine
/// across threads put it behind a lock of their own and report a poisoned
/// guard as [`ApplyError::LockFailure`].
pub struct StateMachine {
    table: StringHashMap<String>,
    id: u64,
}

impl View for StateMachine {
    type V = Map<Seq<char>, Seq<char>>;

    /// The mapping as a mathematical map over character sequences.
    closed spec fn view(&self) -> Map<Seq<char>, Seq<char>> {
        Map::new(|k: Seq<char>| self.table@.dom().contains(k), |k: Seq<char>| self.table@[k]@)
    }
}

impl StateMachine {
    /// The node id given at construction: an opaque identifier of the
    /// owning replica, kept for diagnostics, never consulted by `apply`.
    pub closed spec fn spec_id(&self) -> u64 {
        self.id
    }

    /// Creates a replica with the given node id and an empty mapping.
    pub fn new(server_id: u64) -> (r: StateMachine)
        ensures
            r@ == Map::<Seq<char>, Seq<char>>::empty(),
            r.spec_id() == server_id,
    {
        let r = StateMachine { table: StringHashMap::new(), id: server_id };
        proof {
            assert(r@ =~= Map::<Seq<char>, Seq<char>>::empty());
        }
        r
    }

    /// Decodes one command and executes it against the mapping: the single
    /// entry point of the core.  On a decode failure the mapping is left
    /// untouched and `DecodingFailure` is returned; a `Put` stores its
    /// pair and answers an empty byte result; a `Get` answers the stored
    /// value's bytes or fails with `NotFound`.  Each call is one atomic
    /// insert or lookup; no other outcome exists, so neither
    /// `EncodingFailure` nor `LockFailure` is ever returned here.
    pub fn apply(&mut self, cmd: &[u8]) -> (result: Result<Vec<u8>, ApplyError>)
        ensures
            match spec_decode(cmd@) {
                Some(c) => final(self)@ == spec_apply(old(self)@, c).0 && result_view(result)
                    == spec_apply(old(self)@, c).1,
                None => final(self)@ == old(self)@ && result == Err::<Vec<u8>, ApplyError>(
                    ApplyError::DecodingFailure,
                ),
            },
            final(self).spec_id() == old(self).spec_id(),
    {
        let c = match Command::decode(cmd) {
            Ok(c) => c,
            Err(e) => {
                return Err(e);
            },
        };
        match c {
            Command::Put { key, value } => {
                let ghost gk = key@;
                let ghost gv = value@;
                self.table.insert(key, value);
                proof {
                    assert(self@ =~= old(self)@.insert(gk, gv));
                }
                Ok(Vec::new())
            },
            Command::Get { key } => {
                match self.table.get(key.as_str()) {
                    Some(item) => {
                        let out = slice_to_vec(item.as_str().as_bytes());
                        proof {
                            assert(self@[key@] == self.table@[key@]@);
                        }
                        Ok(out)
                    },
                    None => {
                        proof {
                            assert(!self@.contains_key(key@));
                        }
                        Err(ApplyError::NotFound)
                    },
                }
            },
        }
    }
}

/// Reads are idempotent: a `Get` leaves the mapping untouched, so a second
/// `Get` of the same key answers exactly what the first one answered.
pub proof fn lemma_get_idempotent(m: Map<Seq<char>, Seq<char>>, key: Seq<char>)
    ensures
        spec_apply(m, CommandView::Get { key }).0 == m,
        spec_apply(spec_apply(m, CommandView::Get { key }).0, CommandView::Get { key }).1
            == spec_apply(m, CommandView::Get { key }).1,
{
}

/// The last write wins: after `Put{key, v1}` and then `Put{key, v2}`, a
/// `Get` of `key` answers `v2`'s bytes.
pub proof fn lemma_last_write_wins(
    m: Map<Seq<char>, Seq<char>>,
    key: Seq<char>,
    v1: Seq<char>,
    v2: Seq<char>,
)
    ensures
        ({
            let m1 = spec_apply(m, CommandView::Put { key, value: v1 }).0;
            let m2 = spec_apply(m1, CommandView::Put { key, value: v2 }).0;
            spec_apply(m2, CommandView::Get { key }).1 == Ok::<Seq<u8>, ApplyError>(
                encode_utf8(v2),
            )
        }),
{
}

/// Keys are isolated: a `Put` under one key never changes what a `Get` of
/// a different key answers.
pub proof fn lemma_keys_isolated(
    m: Map<Seq<char>, Seq<char>>,
    k1: Seq<char>,
    v1: Seq<char>,
    k2: Seq<char>,
)
    requires
        k1 != k2,
    ensures
        ({
            let m1 = spec_apply(m, CommandView::Put { key: k1, value: v1 }).0;
            spec_apply(m1, CommandView::Get { key: k2 }).1 == spec_apply(
                m,
                CommandView::Get { key: k2 },
            ).1
        }),
{
}

/// A fresh replica holds no keys: on the empty mapping, a `Get` of any key
/// fails with `NotFound`, never with a disguised success.
pub proof fn lemma_fresh_get_not_found(key: Seq<char>)
    ensures
        spec_apply(Map::<Seq<char>, Seq<char>>::empty(), CommandView::Get { key }).1 == Err::<
            Seq<u8>,
            ApplyError,
        >(ApplyError::NotFound),
{
}

} // verus!
