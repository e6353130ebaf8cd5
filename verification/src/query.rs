//! Query parsing: the raw input string is split at commas into segments,
//! each segment trimmed; a segment splits at colons into category, symbol
//! and optional quote currency. Segments missing a category or a symbol
//! are discarded without failing the batch; only an input with no
//! segments at all is a batch-level error.

use vstd::prelude::*;
use crate::bytes::find_byte;

verus! {

/// Index of the first occurrence of `sep` in `s`, or the length.
pub open spec fn sep_index(s: Seq<u8>, sep: u8) -> int
    decreases s.len(),
{
    if s.len() == 0 {
        0
    } else if s[0] == sep {
        0
    } else {
        1 + sep_index(s.drop_first(), sep)
    }
}

pub proof fn lemma_sep_index(s: Seq<u8>, sep: u8)
    ensures
        0 <= sep_index(s, sep) <= s.len(),
        sep_index(s, sep) < s.len() ==> s[sep_index(s, sep)] == sep,
        forall|j: int| 0 <= j < sep_index(s, sep) ==> s[j] != sep,
    decreases s.len(),
{
    if s.len() > 0 && s[0] != sep {
        lemma_sep_index(s.drop_first(), sep);
        assert forall|j: int| 0 <= j < sep_index(s, sep) implies s[j] != sep by {
            if j > 0 {
                assert(s[j] == s.drop_first()[j - 1]);
            }
        }
    }
}

/// The pieces of `s` between occurrences of `sep`: always one more piece
/// than there are separators.
pub open spec fn spec_split(s: Seq<u8>, sep: u8) -> Seq<Seq<u8>>
    decreases s.len(),
{
    let i = sep_index(s, sep);
    if 0 <= i < s.len() {
        seq![s.take(i)] + spec_split(s.skip(i + 1), sep)
    } else {
        seq![s]
    }
}

/// Splits a byte slice at every occurrence of `sep`.
pub fn split_bytes(s: &[u8], sep: u8) -> (r: Vec<Vec<u8>>)
    ensures
        r@.map_values(|v: Vec<u8>| v@) == spec_split(s@, sep),
    decreases s@.len(),
{
    proof {
        lemma_sep_index(s@, sep);
    }
    match find_byte(s, sep) {
        None => {
            let mut r: Vec<Vec<u8>> = Vec::new();
            r.push(vstd::slice::slice_to_vec(s));
            proof {
                assert(sep_index(s@, sep) >= s@.len());
                assert(r@.map_values(|v: Vec<u8>| v@) =~= spec_split(s@, sep));
            }
            r
        },
        Some(i) => {
            let n = s.len();
            proof {
                assert(i < n);
                assert(sep_index(s@, sep) == i);
            }
            let head = vstd::slice::slice_to_vec(vstd::slice::slice_subrange(s, 0, i));
            let tail = vstd::slice::slice_subrange(s, i + 1, n);
            let mut r = split_bytes(tail, sep);
            r.insert(0, head);
            proof {
                assert(head@ == s@.take(i as int));
                assert(tail@ == s@.skip(i + 1));
                assert(r@.map_values(|v: Vec<u8>| v@) =~= spec_split(s@, sep));
            }
            r
        },
    }
}

/// ASCII whitespace — space and the control range tab through carriage
/// return — as trimmed from query segments. Whitespace beyond ASCII is
/// not trimmed: a segment padded with it keeps the padding and is then
/// discarded as no known category matches.
pub open spec fn is_space(c: u8) -> bool {
    c == 32 || 9 <= c <= 13
}

pub open spec fn trim_front(s: Seq<u8>) -> Seq<u8>
    decreases s.len(),
{
    if s.len() > 0 && is_space(s[0]) {
        trim_front(s.drop_first())
    } else {
        s
    }
}

pub open spec fn trim_back(s: Seq<u8>) -> Seq<u8>
    decreases s.len(),
{
    if s.len() > 0 && is_space(s.last()) {
        trim_back(s.drop_last())
    } else {
        s
    }
}

/// `s` without leading or trailing ASCII whitespace.
pub open spec fn spec_trim(s: Seq<u8>) -> Seq<u8> {
    trim_back(trim_front(s))
}

/// Trims ASCII whitespace from both ends.
pub fn trim_bytes(s: &[u8]) -> (r: Vec<u8>)
    ensures
        r@ == spec_trim(s@),
{
    let mut lo: usize = 0;
    proof {
        assert(s@.skip(0) =~= s@);
    }
    while lo < s.len() && (s[lo] == 32 || (9 <= s[lo] && s[lo] <= 13))
        invariant
            lo <= s@.len(),
            trim_front(s@) == trim_front(s@.skip(lo as int)),
        decreases s@.len() - lo,
    {
        proof {
            assert(s@.skip(lo as int).drop_first() =~= s@.skip(lo + 1));
        }
        lo = lo + 1;
    }
    proof {
        assert(trim_front(s@) == s@.skip(lo as int));
        assert(s@.skip(lo as int) =~= s@.subrange(lo as int, s@.len() as int));
    }
    let mut hi: usize = s.len();
    while hi > lo && (s[hi - 1] == 32 || (9 <= s[hi - 1] && s[hi - 1] <= 13))
        invariant
            lo <= hi <= s@.len(),
            spec_trim(s@) == trim_back(s@.subrange(lo as int, hi as int)),
        decreases hi,
    {
        proof {
            assert(s@.subrange(lo as int, hi as int).drop_last() =~= s@.subrange(
                lo as int,
                hi - 1,
            ));
        }
        hi = hi - 1;
    }
    proof {
        assert(spec_trim(s@) == s@.subrange(lo as int, hi as int));
    }
    vstd::slice::slice_to_vec(vstd::slice::slice_subrange(s, lo, hi))
}

/// One asset query: a category selecting the request and interpretation
/// rules, the asset symbol, and, for pair categories, a quote currency.
pub struct AssetQuery {
    pub category: Vec<u8>,
    pub symbol: Vec<u8>,
    pub quote: Option<Vec<u8>>,
}

/// The mathematical shape of an [`AssetQuery`].
pub struct QueryModel {
    pub category: Seq<u8>,
    pub symbol: Seq<u8>,
    pub quote: Option<Seq<u8>>,
}

impl View for AssetQuery {
    type V = QueryModel;

    open spec fn view(&self) -> QueryModel {
        QueryModel {
            category: self.category@,
            symbol: self.symbol@,
            quote: match self.quote {
                Option::Some(q) => Option::Some(q@),
                Option::None => Option::None,
            },
        }
    }
}

/// The query a trimmed segment denotes: colon-separated category, symbol
/// and optional quote currency; `None` when category or symbol is missing.
pub open spec fn spec_parse_segment(seg: Seq<u8>) -> Option<QueryModel> {
    let parts = spec_split(seg, 58);
    if parts.len() < 2 || parts[0].len() == 0 || parts[1].len() == 0 {
        None
    } else {
        Some(
            QueryModel {
                category: parts[0],
                symbol: parts[1],
                quote: if parts.len() >= 3 {
                    Some(parts[2])
                } else {
                    None
                },
            },
        )
    }
}

/// Parses one trimmed segment.
pub fn parse_segment(seg: &[u8]) -> (r: Option<AssetQuery>)
    ensures
        match r {
            Some(q) => spec_parse_segment(seg@) == Some(q@),
            None => spec_parse_segment(seg@) is None,
        },
{
    let mut parts = split_bytes(seg, 58);
    if parts.len() < 2 {
        return None;
    }
    let category = parts.remove(0);
    let symbol = parts.remove(0);
    if category.len() == 0 || symbol.len() == 0 {
        return None;
    }
    let quote = if parts.len() > 0 {
        Some(parts.remove(0))
    } else {
        None
    };
    proof {
        let sparts = spec_split(seg@, 58);
        assert(category@ == sparts[0]);
        assert(symbol@ == sparts[1]);
    }
    Some(AssetQuery { category, symbol, quote })
}

/// The trimmed, non-empty segments of the raw input.
pub open spec fn spec_clean(parts: Seq<Seq<u8>>) -> Seq<Seq<u8>>
    decreases parts.len(),
{
    if parts.len() == 0 {
        Seq::<Seq<u8>>::empty()
    } else {
        spec_clean(parts.drop_last()) + {
            let t = spec_trim(parts.last());
            if t.len() > 0 {
                seq![t]
            } else {
                Seq::<Seq<u8>>::empty()
            }
        }
    }
}

pub open spec fn spec_segments(input: Seq<u8>) -> Seq<Seq<u8>> {
    spec_clean(spec_split(input, 44))
}

/// The queries the well-formed segments denote, in input order.
pub open spec fn spec_parsed_queries(segs: Seq<Seq<u8>>) -> Seq<QueryModel>
    decreases segs.len(),
{
    if segs.len() == 0 {
        Seq::<QueryModel>::empty()
    } else {
        spec_parsed_queries(segs.drop_last()) + match spec_parse_segment(segs.last()) {
            Some(q) => seq![q],
            None => Seq::<QueryModel>::empty(),
        }
    }
}

/// The queries the raw input denotes, once the batch is known non-empty.
pub open spec fn spec_queries(input: Seq<u8>) -> Seq<QueryModel> {
    spec_parsed_queries(spec_segments(input))
}

/// Parses the raw input into asset queries. Returns `None` — the only
/// batch-fatal parse outcome — exactly when the input holds no non-empty
/// segment; ill-formed segments are dropped, not fatal.
pub fn parse_queries(input: &[u8]) -> (r: Option<Vec<AssetQuery>>)
    ensures
        match r {
            Some(qs) => spec_segments(input@).len() > 0 && qs@.map_values(|q: AssetQuery| q@)
                == spec_queries(input@),
            None => spec_segments(input@).len() == 0,
        },
{
    let parts = split_bytes(input, 44);
    let ghost sparts = spec_split(input@, 44);
    let mut segs: Vec<Vec<u8>> = Vec::new();
    let mut i: usize = 0;
    proof {
        assert(sparts.take(0) =~= Seq::<Seq<u8>>::empty());
        assert(segs@.map_values(|v: Vec<u8>| v@) =~= spec_clean(sparts.take(0)));
    }
    while i < parts.len()
        invariant
            i <= parts@.len(),
            parts@.map_values(|v: Vec<u8>| v@) == sparts,
            segs@.map_values(|v: Vec<u8>| v@) == spec_clean(sparts.take(i as int)),
        decreases parts@.len() - i,
    {
        let t = trim_bytes(parts[i].as_slice());
        proof {
            assert(sparts.take(i + 1).drop_last() =~= sparts.take(i as int));
            assert(sparts.take(i + 1).last() == parts@[i as int]@);
        }
        if t.len() > 0 {
            segs.push(t);
        }
        proof {
            assert(segs@.map_values(|v: Vec<u8>| v@) =~= spec_clean(sparts.take(i + 1)));
        }
        i = i + 1;
    }
    proof {
        assert(sparts.take(sparts.len() as int) =~= sparts);
    }
    if segs.len() == 0 {
        return None;
    }
    let ghost ssegs = spec_segments(input@);
    let mut queries: Vec<AssetQuery> = Vec::new();
    let mut j: usize = 0;
    proof {
        assert(ssegs.take(0) =~= Seq::<Seq<u8>>::empty());
        assert(queries@.map_values(|q: AssetQuery| q@) =~= spec_parsed_queries(ssegs.take(0)));
    }
    while j < segs.len()
        invariant
            j <= segs@.len(),
            segs@.map_values(|v: Vec<u8>| v@) == ssegs,
            queries@.map_values(|q: AssetQuery| q@) == spec_parsed_queries(ssegs.take(j as int)),
        decreases segs@.len() - j,
    {
        proof {
            assert(ssegs.take(j + 1).drop_last() =~= ssegs.take(j as int));
            assert(ssegs.take(j + 1).last() == segs@[j as int]@);
        }
        match parse_segment(segs[j].as_slice()) {
            Some(q) => {
                queries.push(q);
            },
            None => {},
        }
        proof {
            assert(queries@.map_values(|q: AssetQuery| q@) =~= spec_parsed_queries(
                ssegs.take(j + 1),
            ));
        }
        j = j + 1;
    }
    proof {
        assert(ssegs.take(ssegs.len() as int) =~= ssegs);
    }
    Some(queries)
}

} // verus!
