//! Reveal reduction: the independently produced result payloads are tried
//! in input order; the first that parses as the result-array format is
//! re-emitted in its canonical re-encoding, without requiring the others
//! to agree — price feeds drift between fetch times, and strict byte
//! agreement would fail batches spuriously. A payload that does not parse,
//! or parses as something other than an array, is discarded; only a list
//! with nothing acceptable is an error.

use vstd::prelude::*;
use crate::interpret::json_parses;

verus! {

/// The canonical re-encoding of a JSON document: a function of the
/// document bytes alone.
pub uninterp spec fn json_reencoding(b: Seq<u8>) -> Seq<u8>;

/// Relies on `serde_json::from_slice::<Value>` and `serde_json::to_vec`:
/// parsing is deterministic in the bytes and accepts the same byte
/// strings as [`json_parses`]; a parsed `Value` serializes to one
/// canonical text, and serializing a `Value` cannot fail — so the
/// composition is a function of the bytes alone, succeeding exactly where
/// parsing does.
#[verifier::external_body]
fn json_reencode(b: &[u8]) -> (r: Option<Vec<u8>>)
    ensures
        r is Some <==> json_parses(b@),
        match r {
            Some(v) => v@ == json_reencoding(b@),
            None => true,
        },
{
    match serde_json::from_slice::<serde_json::Value>(b) {
        Ok(v) => serde_json::to_vec(&v).ok(),
        Err(_) => None,
    }
}

/// Whether a reveal payload is accepted: it parses as JSON and its
/// canonical re-encoding opens an array — the result-array format the
/// execution pipeline emits. A payload that is valid JSON of any other
/// shape is discarded like an unparseable one.
pub open spec fn reveal_accepted(b: Seq<u8>) -> bool {
    json_parses(b) && json_reencoding(b).len() > 0 && json_reencoding(b)[0] == 91
}

/// Reduces the reveals to one accepted output: the canonical re-encoding
/// of the first payload that parses as a result array. Later payloads are
/// never consulted, acceptable or not. `None` — the batch-fatal outcome —
/// exactly when no payload is acceptable.
pub fn reduce_reveals(reveals: &Vec<Vec<u8>>) -> (r: Option<Vec<u8>>)
    ensures
        match r {
            Some(out) => exists|i: int|
                0 <= i < reveals@.len() && #[trigger] reveal_accepted(reveals@[i]@) && (
                forall|j: int| 0 <= j < i ==> !reveal_accepted(#[trigger] reveals@[j]@)) && out@
                    == json_reencoding(reveals@[i]@),
            None => forall|i: int| 0 <= i < reveals@.len() ==> !reveal_accepted(
                #[trigger] reveals@[i]@,
            ),
        },
{
    let mut i: usize = 0;
    while i < reveals.len()
        invariant
            i <= reveals@.len(),
            forall|j: int| 0 <= j < i ==> !reveal_accepted(#[trigger] reveals@[j]@),
        decreases reveals@.len() - i,
    {
        match json_reencode(reveals[i].as_slice()) {
            Some(out) => {
                if out.len() > 0 && out[0] == 91 {
                    proof {
                        assert(reveal_accepted(reveals@[i as int]@));
                    }
                    return Some(out);
                }
                // valid JSON, but not an array: not a result set
                proof {
                    assert(!reveal_accepted(reveals@[i as int]@));
                }
            },
            None => {
                proof {
                    assert(!reveal_accepted(reveals@[i as int]@));
                }
            },
        }
        i = i + 1;
    }
    None
}

} // verus!
