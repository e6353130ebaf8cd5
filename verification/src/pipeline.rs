//! The execution pipeline as one specification, and the order-independence
//! law over it.
//!
//! Each stage of the pipeline keeps the items a step accepts and drops the
//! rest: segments to queries, queries to request descriptors, descriptors
//! to derived prices. [`filtered`] is that shape; the permutation lemma
//! over it carries a reordering of the input segments through every stage
//! to the sorted output, whose bytes are then equal.

use vstd::prelude::*;
use vstd::seq_lib::lemma_multiset_commutative;
use crate::query::{QueryModel, spec_parse_segment, spec_parsed_queries, spec_segments, spec_queries};
use crate::request::{RequestModel, spec_url, spec_key, spec_plan};
use crate::interpret::{json_parses, json_fields_of, spec_derive_cents};
use crate::assemble::{PriceModel, result_order, spec_results_json, lemma_output_order_independent};

verus! {

/// A sequence of an optional element.
pub open spec fn one_or_none<B>(o: Option<B>) -> Seq<B> {
    match o {
        Some(x) => seq![x],
        None => Seq::<B>::empty(),
    }
}

/// The elements `f` accepts, in order: the common shape of every pipeline
/// stage.
pub open spec fn filtered<A, B>(s: Seq<A>, f: spec_fn(A) -> Option<B>) -> Seq<B>
    decreases s.len(),
{
    if s.len() == 0 {
        Seq::<B>::empty()
    } else {
        filtered(s.drop_last(), f) + one_or_none(f(s.last()))
    }
}

pub proof fn lemma_filtered_append<A, B>(s1: Seq<A>, s2: Seq<A>, f: spec_fn(A) -> Option<B>)
    ensures
        filtered(s1 + s2, f) == filtered(s1, f) + filtered(s2, f),
    decreases s2.len(),
{
    if s2.len() == 0 {
        assert(s1 + s2 =~= s1);
        assert(filtered(s1, f) + filtered(s2, f) =~= filtered(s1, f));
    } else {
        lemma_filtered_append(s1, s2.drop_last(), f);
        assert((s1 + s2).drop_last() =~= s1 + s2.drop_last());
        assert((s1 + s2).len() > 0);
        assert((s1 + s2).last() == s2.last());
        assert(filtered(s1 + s2, f) == (filtered(s1, f) + filtered(s2.drop_last(), f))
            + one_or_none(f(s2.last())));
        assert((filtered(s1, f) + filtered(s2.drop_last(), f)) + one_or_none(f(s2.last())) =~=
            filtered(s1, f) + (filtered(s2.drop_last(), f) + one_or_none(f(s2.last()))));
    }
}

/// Inputs holding the same elements keep the same accepted elements,
/// whatever their order.
pub proof fn lemma_filtered_permutation<A, B>(s: Seq<A>, t: Seq<A>, f: spec_fn(A) -> Option<B>)
    requires
        s.to_multiset() == t.to_multiset(),
    ensures
        filtered(s, f).to_multiset() == filtered(t, f).to_multiset(),
    decreases s.len(),
{
    broadcast use vstd::seq_lib::group_to_multiset_ensures;
    broadcast use vstd::multiset::group_multiset_axioms;

    if s.len() == 0 {
        s.to_multiset_ensures();
        t.to_multiset_ensures();
        assert(t.len() == 0);
        assert(filtered(s, f).to_multiset() =~= filtered(t, f).to_multiset());
    } else {
        let x = s.last();
        assert(s.contains(x));
        assert(t.to_multiset().count(x) > 0);
        assert(t.contains(x));
        let i = choose|i: int| 0 <= i < t.len() && t[i] == x;
        let t1 = t.take(i);
        let t2 = t.skip(i + 1);
        let tr = t1 + t2;
        assert(t =~= (t1 + seq![x]) + t2);
        assert(t.remove(i) =~= tr);
        assert(tr.to_multiset() =~= t.to_multiset().remove(x));
        assert(s.drop_last() =~= s.remove(s.len() - 1));
        assert(s.drop_last().to_multiset() =~= s.to_multiset().remove(x));
        lemma_filtered_permutation(s.drop_last(), tr, f);
        // decompose the filtered image of t around the chosen occurrence
        lemma_filtered_append(t1 + seq![x], t2, f);
        lemma_filtered_append(t1, seq![x], f);
        lemma_filtered_append(t1, t2, f);
        assert(seq![x].drop_last() =~= Seq::<A>::empty());
        assert(filtered(Seq::<A>::empty(), f) == Seq::<B>::empty());
        assert(seq![x].len() == 1 && seq![x].last() == x);
        assert(filtered(seq![x], f) == filtered(seq![x].drop_last(), f) + one_or_none(
            f(seq![x].last()),
        ));
        assert(filtered(seq![x], f) =~= one_or_none(f(x)));
        lemma_multiset_commutative(filtered(t1, f) + filtered(seq![x], f), filtered(t2, f));
        lemma_multiset_commutative(filtered(t1, f), filtered(seq![x], f));
        lemma_multiset_commutative(filtered(t1, f), filtered(t2, f));
        lemma_multiset_commutative(filtered(s.drop_last(), f), one_or_none(f(x)));
        assert(filtered(s, f) == filtered(s.drop_last(), f) + one_or_none(f(x)));
        assert(filtered(s, f).to_multiset() =~= filtered(t, f).to_multiset());
    }
}

/// What one query segment contributes.
pub open spec fn parse_step() -> spec_fn(Seq<u8>) -> Option<QueryModel> {
    |t: Seq<u8>| spec_parse_segment(t)
}

/// What one query contributes to the request plan.
pub open spec fn plan_step() -> spec_fn(QueryModel) -> Option<RequestModel> {
    |q: QueryModel|
        match spec_url(q) {
            Some(u) => Some(RequestModel { url: u, expected_key: spec_key(q) }),
            None => None,
        }
}

pub proof fn lemma_parsed_is_filtered(segs: Seq<Seq<u8>>)
    ensures
        spec_parsed_queries(segs) == filtered(segs, parse_step()),
    decreases segs.len(),
{
    if segs.len() > 0 {
        lemma_parsed_is_filtered(segs.drop_last());
    }
    assert(spec_parsed_queries(segs) =~= filtered(segs, parse_step()));
}

pub proof fn lemma_plan_is_filtered(qs: Seq<QueryModel>)
    ensures
        spec_plan(qs) == filtered(qs, plan_step()),
    decreases qs.len(),
{
    if qs.len() > 0 {
        lemma_plan_is_filtered(qs.drop_last());
    }
    assert(spec_plan(qs) =~= filtered(qs, plan_step()));
}

/// One fetch outcome: whether the transport succeeded, and the payload.
pub struct ResponseModel {
    pub ok: bool,
    pub body: Seq<u8>,
}

/// What one fetched response contributes for one descriptor: exactly what
/// `interpret_response`'s contract fixes — nothing on a failed transport
/// or an unparseable payload, else the price the fallback order derives
/// from the payload's fields under the expected key.
pub open spec fn spec_interpreted(d: RequestModel, r: ResponseModel) -> Option<PriceModel> {
    if r.ok && json_parses(r.body) {
        match spec_derive_cents(json_fields_of(r.body, d.expected_key)) {
            Some(c) => Some(PriceModel { symbol_key: d.expected_key, price_cents: c }),
            None => None,
        }
    } else {
        None
    }
}

/// The interpretation stage over a whole plan, the data source modeled as
/// a function from URL to outcome.
pub open spec fn interpret_step(resp: spec_fn(Seq<u8>) -> ResponseModel) -> spec_fn(
    RequestModel,
) -> Option<PriceModel> {
    |d: RequestModel| spec_interpreted(d, resp(d.url))
}

/// The derived prices of a request plan.
pub open spec fn spec_derived(
    plan: Seq<RequestModel>,
    resp: spec_fn(Seq<u8>) -> ResponseModel,
) -> Seq<PriceModel> {
    filtered(plan, interpret_step(resp))
}

/// The whole execution pipeline: `None` is the batch-fatal empty-input
/// error, otherwise the canonical serialization of the derived prices in
/// output order. Each stage is what the contract of the function running
/// it fixes: `plan_requests` equals `spec_plan` over `spec_queries`,
/// `interpret_response` on each descriptor's fetch outcome equals
/// [`spec_interpreted`], and `assemble` writes the sorted serialization.
pub open spec fn spec_execution_output(
    input: Seq<u8>,
    resp: spec_fn(Seq<u8>) -> ResponseModel,
) -> Option<Seq<u8>> {
    if spec_segments(input).len() == 0 {
        None
    } else {
        Some(
            spec_results_json(
                spec_derived(spec_plan(spec_queries(input)), resp).sort_by(result_order()),
            ),
        )
    }
}

/// The execution pipeline's output is independent of query order: two
/// inputs whose trimmed segments hold the same multiset, run against the
/// same data source, report byte-identical outcomes.
pub proof fn lemma_execution_output_order_independent(
    a: Seq<u8>,
    b: Seq<u8>,
    resp: spec_fn(Seq<u8>) -> ResponseModel,
)
    requires
        spec_segments(a).to_multiset() == spec_segments(b).to_multiset(),
    ensures
        spec_execution_output(a, resp) == spec_execution_output(b, resp),
{
    broadcast use vstd::seq_lib::group_to_multiset_ensures;

    spec_segments(a).to_multiset_ensures();
    spec_segments(b).to_multiset_ensures();
    assert(spec_segments(a).len() == spec_segments(b).len());
    if spec_segments(a).len() > 0 {
        lemma_parsed_is_filtered(spec_segments(a));
        lemma_parsed_is_filtered(spec_segments(b));
        lemma_filtered_permutation(spec_segments(a), spec_segments(b), parse_step());
        lemma_plan_is_filtered(spec_queries(a));
        lemma_plan_is_filtered(spec_queries(b));
        lemma_filtered_permutation(spec_queries(a), spec_queries(b), plan_step());
        lemma_filtered_permutation(
            spec_plan(spec_queries(a)),
            spec_plan(spec_queries(b)),
            interpret_step(resp),
        );
        lemma_output_order_independent(
            spec_derived(spec_plan(spec_queries(a)), resp),
            spec_derived(spec_plan(spec_queries(b)), resp),
        );
    }
}

} // verus!
