//! Request building: maps an asset query to the request descriptor the
//! fetch needs. The URL symbol convention and the response key convention
//! differ on purpose: the data source's request shape and response shape
//! name symbols differently per category.

use vstd::prelude::*;
use crate::query::{AssetQuery, QueryModel};
use crate::query::{spec_segments, spec_queries, parse_queries};
use crate::bytes::bytes_eq;

verus! {

/// The bytes of `"equity"`.
pub open spec fn spec_cat_equity() -> Seq<u8> {
    seq![101u8, 113u8, 117u8, 105u8, 116u8, 121u8]
}

/// The bytes of `"equity"`.
pub fn cat_equity() -> (r: Vec<u8>)
    ensures
        r@ == spec_cat_equity(),
{
    let mut v: Vec<u8> = Vec::new();
    v.push(101); v.push(113); v.push(117); v.push(105); v.push(116); v.push(121);
    proof {
        assert(v@ =~= spec_cat_equity());
    }
    v
}

/// The bytes of `"uslf_q"`.
pub open spec fn spec_cat_uslf_q() -> Seq<u8> {
    seq![117u8, 115u8, 108u8, 102u8, 95u8, 113u8]
}

/// The bytes of `"uslf_q"`.
pub fn cat_uslf_q() -> (r: Vec<u8>)
    ensures
        r@ == spec_cat_uslf_q(),
{
    let mut v: Vec<u8> = Vec::new();
    v.push(117); v.push(115); v.push(108); v.push(102); v.push(95); v.push(113);
    proof {
        assert(v@ =~= spec_cat_uslf_q());
    }
    v
}

/// The bytes of `"uslf_t"`.
pub open spec fn spec_cat_uslf_t() -> Seq<u8> {
    seq![117u8, 115u8, 108u8, 102u8, 95u8, 116u8]
}

/// The bytes of `"uslf_t"`.
pub fn cat_uslf_t() -> (r: Vec<u8>)
    ensures
        r@ == spec_cat_uslf_t(),
{
    let mut v: Vec<u8> = Vec::new();
    v.push(117); v.push(115); v.push(108); v.push(102); v.push(95); v.push(116);
    proof {
        assert(v@ =~= spec_cat_uslf_t());
    }
    v
}

/// The bytes of `"fx"`.
pub open spec fn spec_cat_fx() -> Seq<u8> {
    seq![102u8, 120u8]
}

/// The bytes of `"fx"`.
pub fn cat_fx() -> (r: Vec<u8>)
    ensures
        r@ == spec_cat_fx(),
{
    let mut v: Vec<u8> = Vec::new();
    v.push(102); v.push(120);
    proof {
        assert(v@ =~= spec_cat_fx());
    }
    v
}

/// The bytes of `"fx_r"`.
pub open spec fn spec_cat_fx_r() -> Seq<u8> {
    seq![102u8, 120u8, 95u8, 114u8]
}

/// The bytes of `"fx_r"`.
pub fn cat_fx_r() -> (r: Vec<u8>)
    ensures
        r@ == spec_cat_fx_r(),
{
    let mut v: Vec<u8> = Vec::new();
    v.push(102); v.push(120); v.push(95); v.push(114);
    proof {
        assert(v@ =~= spec_cat_fx_r());
    }
    v
}

/// The bytes of `"cfd"`.
pub open spec fn spec_cat_cfd() -> Seq<u8> {
    seq![99u8, 102u8, 100u8]
}

/// The bytes of `"cfd"`.
pub fn cat_cfd() -> (r: Vec<u8>)
    ensures
        r@ == spec_cat_cfd(),
{
    let mut v: Vec<u8> = Vec::new();
    v.push(99); v.push(102); v.push(100);
    proof {
        assert(v@ =~= spec_cat_cfd());
    }
    v
}

/// The bytes of `"https://api.binance.com/api/v3/ticker/price?symbol="`.
pub open spec fn spec_base_url() -> Seq<u8> {
    seq![104u8, 116u8, 116u8, 112u8, 115u8, 58u8, 47u8, 47u8, 97u8, 112u8, 105u8, 46u8, 98u8, 105u8, 110u8, 97u8, 110u8, 99u8, 101u8, 46u8, 99u8, 111u8, 109u8, 47u8, 97u8, 112u8, 105u8, 47u8, 118u8, 51u8, 47u8, 116u8, 105u8, 99u8, 107u8, 101u8, 114u8, 47u8, 112u8, 114u8, 105u8, 99u8, 101u8, 63u8, 115u8, 121u8, 109u8, 98u8, 111u8, 108u8, 61u8]
}

/// The bytes of `"https://api.binance.com/api/v3/ticker/price?symbol="`.
pub fn base_url() -> (r: Vec<u8>)
    ensures
        r@ == spec_base_url(),
{
    let mut v: Vec<u8> = Vec::new();
    v.push(104); v.push(116); v.push(116); v.push(112); v.push(115); v.push(58); v.push(47); v.push(47); v.push(97); v.push(112); v.push(105); v.push(46); v.push(98); v.push(105); v.push(110); v.push(97); v.push(110); v.push(99); v.push(101); v.push(46); v.push(99); v.push(111); v.push(109); v.push(47); v.push(97); v.push(112); v.push(105); v.push(47); v.push(118); v.push(51); v.push(47); v.push(116); v.push(105); v.push(99); v.push(107); v.push(101); v.push(114); v.push(47); v.push(112); v.push(114); v.push(105); v.push(99); v.push(101); v.push(63); v.push(115); v.push(121); v.push(109); v.push(98); v.push(111); v.push(108); v.push(61);
    proof {
        assert(v@ =~= spec_base_url());
    }
    v
}

/// The bytes of `"USD"`.
pub open spec fn spec_usd() -> Seq<u8> {
    seq![85u8, 83u8, 68u8]
}

/// The bytes of `"USD"`.
pub fn usd() -> (r: Vec<u8>)
    ensures
        r@ == spec_usd(),
{
    let mut v: Vec<u8> = Vec::new();
    v.push(85); v.push(83); v.push(68);
    proof {
        assert(v@ =~= spec_usd());
    }
    v
}

/// The bytes of `"/USD"`.
pub open spec fn spec_slash_usd() -> Seq<u8> {
    seq![47u8, 85u8, 83u8, 68u8]
}

/// The bytes of `"/USD"`.
pub fn slash_usd() -> (r: Vec<u8>)
    ensures
        r@ == spec_slash_usd(),
{
    let mut v: Vec<u8> = Vec::new();
    v.push(47); v.push(85); v.push(83); v.push(68);
    proof {
        assert(v@ =~= spec_slash_usd());
    }
    v
}

/// The bytes of `"USD/"`.
pub open spec fn spec_usd_slash() -> Seq<u8> {
    seq![85u8, 83u8, 68u8, 47u8]
}

/// The bytes of `"USD/"`.
pub fn usd_slash() -> (r: Vec<u8>)
    ensures
        r@ == spec_usd_slash(),
{
    let mut v: Vec<u8> = Vec::new();
    v.push(85); v.push(83); v.push(68); v.push(47);
    proof {
        assert(v@ =~= spec_usd_slash());
    }
    v
}

/// The bytes of `"/"`.
pub open spec fn spec_slash() -> Seq<u8> {
    seq![47u8]
}

/// The bytes of `"/"`.
pub fn slash() -> (r: Vec<u8>)
    ensures
        r@ == spec_slash(),
{
    let mut v: Vec<u8> = Vec::new();
    v.push(47);
    proof {
        assert(v@ =~= spec_slash());
    }
    v
}

/// The bytes of `":BFX"`.
pub open spec fn spec_bfx_suffix() -> Seq<u8> {
    seq![58u8, 66u8, 70u8, 88u8]
}

/// The bytes of `":BFX"`.
pub fn bfx_suffix() -> (r: Vec<u8>)
    ensures
        r@ == spec_bfx_suffix(),
{
    let mut v: Vec<u8> = Vec::new();
    v.push(58); v.push(66); v.push(70); v.push(88);
    proof {
        assert(v@ =~= spec_bfx_suffix());
    }
    v
}

/// The bytes of `":USLF24"`.
pub open spec fn spec_uslf24_suffix() -> Seq<u8> {
    seq![58u8, 85u8, 83u8, 76u8, 70u8, 50u8, 52u8]
}

/// The bytes of `":USLF24"`.
pub fn uslf24_suffix() -> (r: Vec<u8>)
    ensures
        r@ == spec_uslf24_suffix(),
{
    let mut v: Vec<u8> = Vec::new();
    v.push(58); v.push(85); v.push(83); v.push(76); v.push(70); v.push(50); v.push(52);
    proof {
        assert(v@ =~= spec_uslf24_suffix());
    }
    v
}

/// A fetch target together with the key under which the response holds
/// this asset's data.
pub struct RequestDescriptor {
    pub url: Vec<u8>,
    pub expected_key: Vec<u8>,
}

/// The mathematical shape of a [`RequestDescriptor`].
pub struct RequestModel {
    pub url: Seq<u8>,
    pub expected_key: Seq<u8>,
}

impl View for RequestDescriptor {
    type V = RequestModel;

    open spec fn view(&self) -> RequestModel {
        RequestModel { url: self.url@, expected_key: self.expected_key@ }
    }
}

/// The fetch URL for a query: the ticker endpoint with the per-category
/// symbol parameter; `None` for an unknown category and for a pair
/// category without its quote currency.
pub open spec fn spec_url(q: QueryModel) -> Option<Seq<u8>> {
    if q.category == spec_cat_equity() || q.category == spec_cat_uslf_q() || q.category
        == spec_cat_uslf_t() || q.category == spec_cat_fx() {
        Some(spec_base_url() + q.symbol + spec_usd())
    } else if q.category == spec_cat_fx_r() {
        Some(spec_base_url() + spec_usd() + q.symbol)
    } else if q.category == spec_cat_cfd() {
        match q.quote {
            Some(quote) => Some(spec_base_url() + q.symbol + quote),
            None => None,
        }
    } else {
        None
    }
}

/// The key under which the response names this asset, per category.
pub open spec fn spec_key(q: QueryModel) -> Seq<u8> {
    if q.category == spec_cat_fx() {
        q.symbol + spec_slash_usd()
    } else if q.category == spec_cat_fx_r() {
        spec_usd_slash() + q.symbol
    } else if q.category == spec_cat_cfd() {
        match q.quote {
            Some(quote) => q.symbol + spec_slash() + quote + spec_bfx_suffix(),
            None => q.symbol,
        }
    } else if q.category == spec_cat_uslf_q() {
        q.symbol + spec_uslf24_suffix()
    } else {
        q.symbol
    }
}

/// Builds the request descriptor for one query, or signals that the query
/// cannot be requested (unknown category, or a pair category missing its
/// quote currency) and is to be skipped.
pub fn build_request(q: &AssetQuery) -> (r: Option<RequestDescriptor>)
    ensures
        match r {
            Some(d) => spec_url(q@) == Some(d.url@) && d.expected_key@ == spec_key(q@),
            None => spec_url(q@) is None,
        },
{
    let cat = q.category.as_slice();
    let is_fx = bytes_eq(cat, cat_fx().as_slice());
    let is_fx_r = bytes_eq(cat, cat_fx_r().as_slice());
    let is_cfd = bytes_eq(cat, cat_cfd().as_slice());
    let is_uslf_q = bytes_eq(cat, cat_uslf_q().as_slice());
    let plain = bytes_eq(cat, cat_equity().as_slice()) || is_uslf_q || bytes_eq(
        cat,
        cat_uslf_t().as_slice(),
    ) || is_fx;

    let mut url: Vec<u8> = base_url();
    if plain {
        url.extend_from_slice(q.symbol.as_slice());
        url.extend_from_slice(usd().as_slice());
    } else if is_fx_r {
        url.extend_from_slice(usd().as_slice());
        url.extend_from_slice(q.symbol.as_slice());
    } else if is_cfd {
        match &q.quote {
            Some(quote) => {
                url.extend_from_slice(q.symbol.as_slice());
                url.extend_from_slice(quote.as_slice());
            },
            None => {
                return None;
            },
        }
    } else {
        return None;
    }

    let mut key: Vec<u8> = Vec::new();
    if is_fx {
        key.extend_from_slice(q.symbol.as_slice());
        key.extend_from_slice(slash_usd().as_slice());
    } else if is_fx_r {
        key.extend_from_slice(usd_slash().as_slice());
        key.extend_from_slice(q.symbol.as_slice());
    } else if is_cfd {
        match &q.quote {
            Some(quote) => {
                key.extend_from_slice(q.symbol.as_slice());
                key.extend_from_slice(slash().as_slice());
                key.extend_from_slice(quote.as_slice());
                key.extend_from_slice(bfx_suffix().as_slice());
            },
            None => {
                key.extend_from_slice(q.symbol.as_slice());
            },
        }
    } else if is_uslf_q {
        key.extend_from_slice(q.symbol.as_slice());
        key.extend_from_slice(uslf24_suffix().as_slice());
    } else {
        key.extend_from_slice(q.symbol.as_slice());
    }
    proof {
        assert(url@ =~= match spec_url(q@) {
            Some(u) => u,
            None => url@,
        });
        assert(key@ =~= spec_key(q@));
    }
    Some(RequestDescriptor { url, expected_key: key })
}

/// The request descriptors of the queries that can be requested, in query
/// order.
pub open spec fn spec_plan(qs: Seq<QueryModel>) -> Seq<RequestModel>
    decreases qs.len(),
{
    if qs.len() == 0 {
        Seq::<RequestModel>::empty()
    } else {
        spec_plan(qs.drop_last()) + match spec_url(qs.last()) {
            Some(u) => seq![RequestModel { url: u, expected_key: spec_key(qs.last()) }],
            None => Seq::<RequestModel>::empty(),
        }
    }
}

/// Parses the raw input and plans one request per requestable query.
/// `None` — the batch-fatal outcome — exactly when the input holds no
/// non-empty segment; a `Some` with an empty list means every query was
/// dropped, which is not a batch error.
pub fn plan_requests(input: &[u8]) -> (r: Option<Vec<RequestDescriptor>>)
    ensures
        match r {
            Some(ds) => spec_segments(input@).len() > 0 && ds@.map_values(
                |d: RequestDescriptor| d@,
            ) == spec_plan(spec_queries(input@)),
            None => spec_segments(input@).len() == 0,
        },
{
    let queries = match parse_queries(input) {
        Some(qs) => qs,
        None => {
            return None;
        },
    };
    let ghost sqs = spec_queries(input@);
    let mut ds: Vec<RequestDescriptor> = Vec::new();
    let mut i: usize = 0;
    proof {
        assert(sqs.take(0) =~= Seq::<QueryModel>::empty());
        assert(ds@.map_values(|d: RequestDescriptor| d@) =~= spec_plan(sqs.take(0)));
    }
    while i < queries.len()
        invariant
            i <= queries@.len(),
            queries@.map_values(|q: AssetQuery| q@) == sqs,
            ds@.map_values(|d: RequestDescriptor| d@) == spec_plan(sqs.take(i as int)),
        decreases queries@.len() - i,
    {
        proof {
            assert(sqs.take(i + 1).drop_last() =~= sqs.take(i as int));
            assert(sqs.take(i + 1).last() == queries@[i as int]@);
        }
        match build_request(&queries[i]) {
            Some(d) => {
                ds.push(d);
            },
            None => {},
        }
        proof {
            assert(ds@.map_values(|d: RequestDescriptor| d@) =~= spec_plan(sqs.take(i + 1)));
        }
        i = i + 1;
    }
    proof {
        assert(sqs.take(sqs.len() as int) =~= sqs);
    }
    Some(ds)
}

} // verus!
