//! Result assembly: the derived prices are sorted — ascending by symbol
//! key, ties by price — and written as the canonical JSON array
//! `[{"symbol":…,"price":…},…]`. The sort is the output's sole determinism
//! mechanism: executors that derived the same set of prices emit the same
//! bytes whatever order their queries or fetches completed in.

use vstd::prelude::*;
use vstd::relations::{sorted_by, total_ordering};
use vstd::seq_lib::lemma_sorted_unique;
use vstd::multiset::Multiset;
use crate::bytes::{lex_le, le_bytes, bytes_eq};
use crate::bytes::{lemma_lex_le_connected, lemma_lex_le_antisymmetric, lemma_lex_le_transitive};
use crate::decimal::{CENTS_MAX, spec_format_cents, format_cents};

verus! {

/// One derived price, keyed by the symbol key that located it in the
/// response, so the output is traceable to its source mapping.
pub struct PriceResult {
    pub symbol_key: Vec<u8>,
    pub price_cents: i64,
}

/// The mathematical shape of a [`PriceResult`].
pub struct PriceModel {
    pub symbol_key: Seq<u8>,
    pub price_cents: int,
}

impl View for PriceResult {
    type V = PriceModel;

    open spec fn view(&self) -> PriceModel {
        PriceModel { symbol_key: self.symbol_key@, price_cents: self.price_cents as int }
    }
}

/// A price the serializer can write.
pub open spec fn wf_price(p: PriceModel) -> bool {
    -CENTS_MAX <= p.price_cents <= CENTS_MAX
}

/// Output order: ascending by symbol key, ties broken by price, so that
/// equal result sets have exactly one sorted form.
pub open spec fn result_le(a: PriceModel, b: PriceModel) -> bool {
    if a.symbol_key == b.symbol_key {
        a.price_cents <= b.price_cents
    } else {
        lex_le(a.symbol_key, b.symbol_key)
    }
}

/// [`result_le`] as a relation value.
pub open spec fn result_order() -> spec_fn(PriceModel, PriceModel) -> bool {
    |a: PriceModel, b: PriceModel| result_le(a, b)
}

pub proof fn lemma_result_le_connected(a: PriceModel, b: PriceModel)
    ensures
        result_le(a, b) || result_le(b, a),
{
    lemma_lex_le_connected(a.symbol_key, b.symbol_key);
}

pub proof fn lemma_result_le_antisymmetric(a: PriceModel, b: PriceModel)
    requires
        result_le(a, b),
        result_le(b, a),
    ensures
        a == b,
{
    if a.symbol_key != b.symbol_key {
        lemma_lex_le_antisymmetric(a.symbol_key, b.symbol_key);
    }
}

pub proof fn lemma_result_le_transitive(a: PriceModel, b: PriceModel, c: PriceModel)
    ensures
        result_le(a, b) && result_le(b, c) ==> result_le(a, c),
{
    if result_le(a, b) && result_le(b, c) {
        if a.symbol_key == b.symbol_key && b.symbol_key == c.symbol_key {
        } else if a.symbol_key == b.symbol_key {
        } else if b.symbol_key == c.symbol_key {
        } else {
            lemma_lex_le_transitive(a.symbol_key, b.symbol_key, c.symbol_key);
            if a.symbol_key == c.symbol_key {
                lemma_lex_le_antisymmetric(a.symbol_key, b.symbol_key);
            }
        }
    }
}

/// The output order is a total order, so a result multiset has exactly one
/// sorted sequence.
pub proof fn lemma_result_order_total()
    ensures
        total_ordering(result_order()),
{
    let leq = result_order();
    assert forall|a: PriceModel| #[trigger] leq(a, a) by {
        lemma_result_le_connected(a, a);
    }
    assert forall|a: PriceModel, b: PriceModel| #[trigger] leq(a, b) && #[trigger] leq(b, a)
        implies a == b by {
        lemma_result_le_antisymmetric(a, b);
    }
    assert forall|a: PriceModel, b: PriceModel, c: PriceModel|
        #[trigger] leq(a, b) && #[trigger] leq(b, c) implies leq(a, c) by {
        lemma_result_le_transitive(a, b, c);
    }
    assert forall|a: PriceModel, b: PriceModel| #[trigger] leq(a, b) || #[trigger] leq(b, a) by {
        lemma_result_le_connected(a, b);
    }
}

/// Compares two results in output order.
pub fn result_le_exec(a: &PriceResult, b: &PriceResult) -> (r: bool)
    ensures
        r == result_le(a@, b@),
{
    if bytes_eq(a.symbol_key.as_slice(), b.symbol_key.as_slice()) {
        a.price_cents <= b.price_cents
    } else {
        le_bytes(a.symbol_key.as_slice(), b.symbol_key.as_slice())
    }
}

/// Sorts the results into output order.
pub fn sort_results(rs: Vec<PriceResult>) -> (r: Vec<PriceResult>)
    ensures
        r@.map_values(|p: PriceResult| p@) == rs@.map_values(|p: PriceResult| p@).sort_by(
            result_order(),
        ),
{
    broadcast use vstd::seq_lib::group_to_multiset_ensures;
    broadcast use vstd::multiset::group_multiset_axioms;

    let ghost total: Seq<PriceModel> = rs@.map_values(|p: PriceResult| p@);
    let mut rest = rs;
    let mut out: Vec<PriceResult> = Vec::new();
    proof {
        assert(out@.map_values(|p: PriceResult| p@).to_multiset().add(
            rest@.map_values(|p: PriceResult| p@).to_multiset(),
        ) =~= total.to_multiset());
    }
    while rest.len() > 0
        invariant
            sorted_by(out@.map_values(|p: PriceResult| p@), result_order()),
            out@.map_values(|p: PriceResult| p@).to_multiset().add(
                rest@.map_values(|p: PriceResult| p@).to_multiset(),
            ) == total.to_multiset(),
        decreases rest@.len(),
    {
        broadcast use vstd::seq_lib::group_to_multiset_ensures;
        broadcast use vstd::multiset::group_multiset_axioms;

        let ghost om = out@.map_values(|p: PriceResult| p@);
        let ghost rm = rest@.map_values(|p: PriceResult| p@);
        let x = rest.remove(0);
        proof {
            assert(rest@.map_values(|p: PriceResult| p@) =~= rm.remove(0));
            assert(rm.remove(0).to_multiset() =~= rm.to_multiset().remove(rm[0]));
            assert(rm[0] == x@);
        }
        let mut p: usize = 0;
        while p < out.len() && !result_le_exec(&x, &out[p])
            invariant
                p <= out@.len(),
                om == out@.map_values(|q: PriceResult| q@),
                forall|k: int| 0 <= k < p ==> !result_le(x@, om[k]),
            decreases out@.len() - p,
        {
            p = p + 1;
        }
        proof {
            assert forall|k: int| 0 <= k < p implies result_le(om[k], x@) by {
                lemma_result_le_connected(x@, om[k]);
            }
        }
        out.insert(p, x);
        proof {
            om.insert_ensures(p as int, x@);
            let om2 = out@.map_values(|q: PriceResult| q@);
            assert(om2 =~= om.insert(p as int, x@));
            vstd::seq_lib::to_multiset_insert(om, p as int, x@);
            assert(om2.to_multiset() =~= om.to_multiset().insert(x@));
            assert(om2.to_multiset().add(rm.remove(0).to_multiset()) =~= total.to_multiset());
            let leq = result_order();
            assert(forall|k: int| 0 <= k < p ==> om2[k] == om[k]);
            assert(om2[p as int] == x@);
            assert(forall|k: int| p < k < om2.len() ==> om2[k] == om[k - 1]);
            assert forall|i: int, j: int| 0 <= i < j < om2.len() implies #[trigger] leq(
                om2[i],
                om2[j],
            ) by {
                if j < p {
                    assert(leq(om[i], om[j]));
                } else if i > p {
                    assert(leq(om[i - 1], om[j - 1]));
                } else if i < p && j == p {
                    assert(result_le(om[i], x@));
                } else if i == p {
                    // x sits just before the first element it precedes
                    assert(p < om.len() && result_le(x@, om[p as int]));
                    if j == p + 1 {
                        assert(result_le(x@, om[j - 1]));
                    } else {
                        assert(leq(om[p as int], om[j - 1]));
                        lemma_result_le_transitive(x@, om[p as int], om[j - 1]);
                    }
                } else {
                    // i < p < j: go through the inserted element
                    assert(result_le(om[i], x@));
                    assert(p < om.len() && result_le(x@, om[p as int]));
                    if j == p + 1 {
                        lemma_result_le_transitive(om[i], x@, om[p as int]);
                    } else {
                        assert(leq(om[p as int], om[j - 1]));
                        lemma_result_le_transitive(x@, om[p as int], om[j - 1]);
                        lemma_result_le_transitive(om[i], x@, om[j - 1]);
                    }
                }
            }
            assert(sorted_by(om2, result_order()));
        }
    }
    proof {
        lemma_result_order_total();
        let om = out@.map_values(|p: PriceResult| p@);
        assert(rest@.map_values(|p: PriceResult| p@).to_multiset() =~= Multiset::<
            PriceModel,
        >::empty());
        assert(om.to_multiset() =~= total.to_multiset());
        total.lemma_sort_by_ensures(result_order());
        lemma_sorted_unique(om, total.sort_by(result_order()), result_order());
    }
    out
}

/// The assembled output is determined by the set of derived prices alone:
/// result lists holding the same prices sort — and therefore serialize —
/// identically, whatever order the queries or the fetches completed in.
pub proof fn lemma_output_order_independent(a: Seq<PriceModel>, b: Seq<PriceModel>)
    requires
        a.to_multiset() == b.to_multiset(),
    ensures
        a.sort_by(result_order()) == b.sort_by(result_order()),
{
    lemma_result_order_total();
    a.lemma_sort_by_ensures(result_order());
    b.lemma_sort_by_ensures(result_order());
    lemma_sorted_unique(a.sort_by(result_order()), b.sort_by(result_order()), result_order());
}

/// The assembled output lists its entries in ascending symbol-key order.
pub proof fn lemma_output_sorted(rs: Seq<PriceModel>)
    ensures
        sorted_by(rs.sort_by(result_order()), result_order()),
        rs.sort_by(result_order()).to_multiset() == rs.to_multiset(),
{
    lemma_result_order_total();
    rs.lemma_sort_by_ensures(result_order());
    assert(rs.to_multiset() =~= rs.sort_by(result_order()).to_multiset());
}

/// A lowercase hexadecimal digit.
pub open spec fn spec_hex_digit(n: u8) -> u8 {
    if n < 10 {
        (48 + n) as u8
    } else {
        (87 + n) as u8
    }
}

/// How one byte of a symbol key is written inside a JSON string: quote,
/// backslash and control characters are escaped, everything else is copied.
pub open spec fn spec_escape_byte(b: u8) -> Seq<u8> {
    if b == 34 {
        seq![92u8, 34u8]
    } else if b == 92 {
        seq![92u8, 92u8]
    } else if b == 8 {
        seq![92u8, 98u8]
    } else if b == 9 {
        seq![92u8, 116u8]
    } else if b == 10 {
        seq![92u8, 110u8]
    } else if b == 12 {
        seq![92u8, 102u8]
    } else if b == 13 {
        seq![92u8, 114u8]
    } else if b < 32 {
        seq![92u8, 117u8, 48u8, 48u8, spec_hex_digit(b / 16), spec_hex_digit(b % 16)]
    } else {
        seq![b]
    }
}

pub open spec fn spec_escape(s: Seq<u8>) -> Seq<u8>
    decreases s.len(),
{
    if s.len() == 0 {
        Seq::<u8>::empty()
    } else {
        spec_escape(s.drop_last()) + spec_escape_byte(s.last())
    }
}

/// Appends `s` to `out`, escaped for a JSON string body.
fn escape_into(out: &mut Vec<u8>, s: &[u8])
    ensures
        final(out)@ == old(out)@ + spec_escape(s@),
{
    let mut i: usize = 0;
    proof {
        assert(s@.take(0) =~= Seq::<u8>::empty());
        assert(out@ =~= old(out)@ + spec_escape(s@.take(0)));
    }
    while i < s.len()
        invariant
            i <= s@.len(),
            out@ == old(out)@ + spec_escape(s@.take(i as int)),
        decreases s@.len() - i,
    {
        let b = s[i];
        if b == 34 {
            out.push(92);
            out.push(34);
        } else if b == 92 {
            out.push(92);
            out.push(92);
        } else if b == 8 {
            out.push(92);
            out.push(98);
        } else if b == 9 {
            out.push(92);
            out.push(116);
        } else if b == 10 {
            out.push(92);
            out.push(110);
        } else if b == 12 {
            out.push(92);
            out.push(102);
        } else if b == 13 {
            out.push(92);
            out.push(114);
        } else if b < 32 {
            out.push(92);
            out.push(117);
            out.push(48);
            out.push(48);
            let hi = b / 16;
            let lo = b % 16;
            out.push(if hi < 10 { 48 + hi } else { 87 + hi });
            out.push(if lo < 10 { 48 + lo } else { 87 + lo });
        } else {
            out.push(b);
        }
        proof {
            assert(s@.take(i + 1).drop_last() =~= s@.take(i as int));
            assert(s@.take(i + 1).last() == s@[i as int]);
            assert(out@ =~= old(out)@ + spec_escape(s@.take(i + 1)));
        }
        i = i + 1;
    }
    proof {
        assert(s@.take(s@.len() as int) =~= s@);
    }
}

/// The bytes of `"{\"symbol\":\""`.
pub open spec fn spec_obj_head() -> Seq<u8> {
    seq![123u8, 34u8, 115u8, 121u8, 109u8, 98u8, 111u8, 108u8, 34u8, 58u8, 34u8]
}

/// The bytes of `"\",\"price\":"`.
pub open spec fn spec_obj_mid() -> Seq<u8> {
    seq![34u8, 44u8, 34u8, 112u8, 114u8, 105u8, 99u8, 101u8, 34u8, 58u8]
}

/// One result as a JSON object.
pub open spec fn spec_result_json(p: PriceModel) -> Seq<u8> {
    spec_obj_head() + spec_escape(p.symbol_key) + spec_obj_mid() + spec_format_cents(
        p.price_cents,
    ) + seq![125u8]
}

/// The comma-joined object list.
pub open spec fn spec_items_json(rs: Seq<PriceModel>) -> Seq<u8>
    decreases rs.len(),
{
    if rs.len() == 0 {
        Seq::<u8>::empty()
    } else {
        spec_items_json(rs.drop_last()) + (if rs.len() > 1 {
            seq![44u8]
        } else {
            Seq::<u8>::empty()
        }) + spec_result_json(rs.last())
    }
}

/// The canonical JSON array for a result list, in the order given.
pub open spec fn spec_results_json(rs: Seq<PriceModel>) -> Seq<u8> {
    seq![91u8] + spec_items_json(rs) + seq![93u8]
}

/// Writes one result as its JSON object.
fn result_json(p: &PriceResult) -> (r: Vec<u8>)
    requires
        wf_price(p@),
    ensures
        r@ == spec_result_json(p@),
{
    let mut out: Vec<u8> = Vec::new();
    // "{\"symbol\":\""
    out.push(123); out.push(34); out.push(115); out.push(121); out.push(109);
    out.push(98); out.push(111); out.push(108); out.push(34); out.push(58);
    out.push(34);
    proof {
        assert(out@ =~= spec_obj_head());
    }
    escape_into(&mut out, p.symbol_key.as_slice());
    // "\",\"price\":"
    out.push(34); out.push(44); out.push(34); out.push(112); out.push(114);
    out.push(105); out.push(99); out.push(101); out.push(34); out.push(58);
    let mut num = format_cents(p.price_cents);
    out.append(&mut num);
    out.push(125);
    proof {
        assert(out@ =~= spec_result_json(p@));
    }
    out
}

/// Writes a result list, in the order given, as the canonical JSON array.
pub fn serialize_results(rs: &Vec<PriceResult>) -> (r: Vec<u8>)
    requires
        forall|i: int| 0 <= i < rs@.len() ==> wf_price(#[trigger] rs@[i]@),
    ensures
        r@ == spec_results_json(rs@.map_values(|p: PriceResult| p@)),
{
    let ghost models = rs@.map_values(|p: PriceResult| p@);
    let mut out: Vec<u8> = Vec::new();
    out.push(91);
    let mut i: usize = 0;
    proof {
        assert(models.take(0) =~= Seq::<PriceModel>::empty());
        assert(out@ =~= seq![91u8] + spec_items_json(models.take(0)));
    }
    while i < rs.len()
        invariant
            i <= rs@.len(),
            models == rs@.map_values(|p: PriceResult| p@),
            forall|k: int| 0 <= k < rs@.len() ==> wf_price(#[trigger] rs@[k]@),
            out@ == seq![91u8] + spec_items_json(models.take(i as int)),
        decreases rs@.len() - i,
    {
        if i > 0 {
            out.push(44);
        }
        proof {
            assert(wf_price(rs@[i as int]@));
        }
        let mut obj = result_json(&rs[i]);
        out.append(&mut obj);
        proof {
            assert(models.take(i + 1).drop_last() =~= models.take(i as int));
            assert(models.take(i + 1).last() == rs@[i as int]@);
            assert(out@ =~= seq![91u8] + spec_items_json(models.take(i + 1)));
        }
        i = i + 1;
    }
    out.push(93);
    proof {
        assert(models.take(models.len() as int) =~= models);
        assert(out@ =~= spec_results_json(models));
    }
    out
}

/// Sorts the derived prices into output order and serializes them: the
/// execution pipeline's success payload. An empty result list yields the
/// empty array, which is a success, not an error.
pub fn assemble(results: Vec<PriceResult>) -> (r: Vec<u8>)
    requires
        forall|i: int| 0 <= i < results@.len() ==> wf_price(#[trigger] results@[i]@),
    ensures
        r@ == spec_results_json(
            results@.map_values(|p: PriceResult| p@).sort_by(result_order()),
        ),
{
    broadcast use vstd::seq_lib::group_to_multiset_ensures;

    let ghost models = results@.map_values(|p: PriceResult| p@);
    let sorted = sort_results(results);
    proof {
        lemma_output_sorted(models);
        let sm = sorted@.map_values(|p: PriceResult| p@);
        assert forall|i: int| 0 <= i < sm.len() implies wf_price(#[trigger] sm[i]) by {
            assert(sm.to_multiset().count(sm[i]) > 0);
            assert(models.to_multiset().count(sm[i]) > 0);
            assert(models.contains(sm[i]));
            let j = choose|j: int| 0 <= j < models.len() && models[j] == sm[i];
            assert(wf_price(results@[j]@));
        }
        assert forall|i: int| 0 <= i < sorted@.len() implies wf_price(
            #[trigger] sorted@[i]@,
        ) by {
            assert(sorted@.map_values(|p: PriceResult| p@)[i] == sorted@[i]@);
        }
    }
    serialize_results(&sorted)
}

} // verus!
