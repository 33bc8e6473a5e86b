//! The directory resolver.
//!
//! A directory is an ordered catalog of `name -> url` links (names are
//! the lower-cased display names of the devices).  A free-text query
//! resolves to an exact hit, a narrowed suggestion list (every name that
//! contains all the query's tokens as substrings, in catalog order), or
//! not found.  Resolution is pure and deterministic.
use vstd::prelude::*;

use crate::text::{
    bytes_eq, contains_bytes, contains_seq, lower_bytes, lower_seq, split_ws, sub_vec, trim_seq,
    views_of, ws_tokens,
};

verus! {

/// One directory entry: a device name and the link to its data.
#[derive(Debug, Clone, PartialEq, Eq)]
pub struct Link {
    pub name: Vec<u8>,
    pub url: Vec<u8>,
}

impl Link {
    /// Pairs a name with its link.
    pub fn new(name: Vec<u8>, url: Vec<u8>) -> (r: Link)
        ensures
            r.name == name,
            r.url == url,
    {
        Link { name, url }
    }
}

/// The lower-cased, trimmed form of a query.
pub open spec fn norm_query(q: Seq<u8>) -> Seq<u8> {
    lower_seq(trim_seq(q))
}

/// The url of the first entry whose name is exactly `nq`, if any.
pub open spec fn lookup_link(es: Seq<Link>, nq: Seq<u8>) -> Option<Seq<u8>>
    decreases es.len(),
{
    if es.len() == 0 {
        Option::None
    } else if es[0].name@ == nq {
        Option::Some(es[0].url@)
    } else {
        lookup_link(es.drop_first(), nq)
    }
}

pub proof fn lemma_lookup_link_some(es: Seq<Link>, nq: Seq<u8>)
    ensures
        lookup_link(es, nq) is Some <==> exists|i: int|
            0 <= i < es.len() && (#[trigger] es[i]).name@ == nq,
    decreases es.len(),
{
    if es.len() == 0 {
    } else if es[0].name@ == nq {
    } else {
        lemma_lookup_link_some(es.drop_first(), nq);
        let t = es.drop_first();
        if exists|i: int| 0 <= i < t.len() && (#[trigger] t[i]).name@ == nq {
            let i = choose|i: int| 0 <= i < t.len() && (#[trigger] t[i]).name@ == nq;
            assert(es[i + 1].name@ == nq);
        }
        if exists|i: int| 0 <= i < es.len() && (#[trigger] es[i]).name@ == nq {
            let i = choose|i: int| 0 <= i < es.len() && (#[trigger] es[i]).name@ == nq;
            assert(i > 0);
            assert(t[i - 1].name@ == nq);
        }
    }
}

/// Exact lookup of a query in the catalog.  The returned link carries the
/// query as its name (as the caller wrote it) and the url stored under
/// the lower-cased, trimmed form of the query.
pub fn filter_link_list(link_list: &Vec<Link>, query: &[u8]) -> (r: Option<Link>)
    ensures
        r is Some <==> lookup_link(link_list@, norm_query(query@)) is Some,
        r matches Some(l) ==> l.name@ == query@ && Option::Some(l.url@) == lookup_link(
            link_list@,
            norm_query(query@),
        ),
{
    let trimmed = crate::text::trim_bytes(query);
    let nq = lower_bytes(trimmed.as_slice());
    let n: usize = link_list.len();
    let mut i: usize = 0;
    while i < n
        invariant
            0 <= i <= n,
            n == link_list@.len(),
            nq@ == norm_query(query@),
            forall|j: int| 0 <= j < i ==> (#[trigger] link_list@[j]).name@ != nq@,
        decreases n - i,
    {
        if bytes_eq(link_list[i].name.as_slice(), nq.as_slice()) {
            let url = sub_vec(link_list[i].url.as_slice(), 0, link_list[i].url.len());
            let name = sub_vec(query, 0, query.len());
            proof {
                lemma_lookup_link_first(link_list@, nq@, i as int);
                assert(name@ =~= query@);
            }
            return Some(Link { name, url });
        }
        i += 1;
    }
    proof {
        lemma_lookup_link_some(link_list@, nq@);
    }
    None
}

/// If the first `i` entries miss and entry `i` hits, the lookup answers
/// with entry `i`.
proof fn lemma_lookup_link_first(es: Seq<Link>, nq: Seq<u8>, i: int)
    requires
        0 <= i < es.len(),
        es[i].name@ == nq,
        forall|j: int| 0 <= j < i ==> (#[trigger] es[j]).name@ != nq,
    ensures
        lookup_link(es, nq) == Option::Some(es[i].url@),
    decreases i,
{
    if i == 0 {
    } else {
        assert(es[0].name@ != nq);
        let t = es.drop_first();
        assert forall|j: int| 0 <= j < i - 1 implies (#[trigger] t[j]).name@ != nq by {
            assert(t[j] == es[j + 1]);
        }
        assert(t[i - 1] == es[i]);
        lemma_lookup_link_first(t, nq, i - 1);
    }
}

/// The entry's lower-cased name contains `ql` as a substring.
pub open spec fn link_matches(e: Link, ql: Seq<u8>) -> bool {
    contains_seq(lower_seq(e.name@), ql)
}

/// The first entry whose lower-cased name contains the lower-cased query,
/// as (name, url), if any.
pub open spec fn pick_spec(es: Seq<Link>, ql: Seq<u8>) -> Option<(Seq<u8>, Seq<u8>)>
    decreases es.len(),
{
    if es.len() == 0 {
        Option::None
    } else if link_matches(es[0], ql) {
        Option::Some((es[0].name@, es[0].url@))
    } else {
        pick_spec(es.drop_first(), ql)
    }
}

proof fn lemma_pick_spec_first(es: Seq<Link>, ql: Seq<u8>, i: int)
    requires
        0 <= i < es.len(),
        link_matches(es[i], ql),
        forall|j: int| 0 <= j < i ==> !link_matches(#[trigger] es[j], ql),
    ensures
        pick_spec(es, ql) == Option::Some((es[i].name@, es[i].url@)),
    decreases i,
{
    if i == 0 {
    } else {
        let t = es.drop_first();
        assert forall|j: int| 0 <= j < i - 1 implies !link_matches(#[trigger] t[j], ql) by {
            assert(t[j] == es[j + 1]);
        }
        assert(t[i - 1] == es[i]);
        lemma_pick_spec_first(t, ql, i - 1);
    }
}

proof fn lemma_pick_spec_none(es: Seq<Link>, ql: Seq<u8>)
    requires
        forall|j: int| 0 <= j < es.len() ==> !link_matches(#[trigger] es[j], ql),
    ensures
        pick_spec(es, ql) is None,
    decreases es.len(),
{
    if es.len() == 0 {
    } else {
        let t = es.drop_first();
        assert forall|j: int| 0 <= j < t.len() implies !link_matches(#[trigger] t[j], ql) by {
            assert(t[j] == es[j + 1]);
        }
        lemma_pick_spec_none(t, ql);
    }
}

/// Substring pick: the first entry whose lower-cased name contains the
/// lower-cased query.
pub fn pick_url(link_list: &Vec<Link>, query: &[u8]) -> (r: Option<Link>)
    ensures
        r is Some <==> pick_spec(link_list@, lower_seq(query@)) is Some,
        r matches Some(l) ==> pick_spec(link_list@, lower_seq(query@)) == Option::Some(
            (l.name@, l.url@),
        ),
{
    let ql = lower_bytes(query);
    let n: usize = link_list.len();
    let mut i: usize = 0;
    while i < n
        invariant
            0 <= i <= n,
            n == link_list@.len(),
            ql@ == lower_seq(query@),
            forall|j: int| 0 <= j < i ==> !link_matches(#[trigger] link_list@[j], ql@),
        decreases n - i,
    {
        let lname = lower_bytes(link_list[i].name.as_slice());
        if contains_bytes(lname.as_slice(), ql.as_slice()) {
            let name = sub_vec(link_list[i].name.as_slice(), 0, link_list[i].name.len());
            let url = sub_vec(link_list[i].url.as_slice(), 0, link_list[i].url.len());
            proof {
                lemma_pick_spec_first(link_list@, ql@, i as int);
                assert(name@ =~= link_list@[i as int].name@);
                assert(url@ =~= link_list@[i as int].url@);
            }
            return Some(Link { name, url });
        }
        i += 1;
    }
    proof {
        lemma_pick_spec_none(link_list@, ql@);
    }
    None
}

/// The outcome of resolving a query against the directory.
#[derive(Debug, Clone, PartialEq, Eq)]
pub enum Resolution {
    /// The trimmed, lower-cased query is itself a catalog name.
    Exact { name: Vec<u8>, url: Vec<u8> },
    /// The names that survive narrowing by every query token, in catalog
    /// order.
    Suggestions { names: Vec<Vec<u8>> },
    /// No name contains every token of the query.
    NotFound,
}

/// The entry's lower-cased name contains every token as a substring.
pub open spec fn matches_all_tokens(e: Link, toks: Seq<Seq<u8>>) -> bool {
    forall|k: int| 0 <= k < toks.len() ==> contains_seq(lower_seq(e.name@), #[trigger] toks[k])
}

/// The names that survive narrowing, in catalog order.
pub open spec fn match_names(es: Seq<Link>, toks: Seq<Seq<u8>>) -> Seq<Seq<u8>>
    decreases es.len(),
{
    if es.len() == 0 {
        Seq::empty()
    } else if matches_all_tokens(es[0], toks) {
        seq![es[0].name@] + match_names(es.drop_first(), toks)
    } else {
        match_names(es.drop_first(), toks)
    }
}

pub proof fn lemma_match_names_push(es: Seq<Link>, e: Link, toks: Seq<Seq<u8>>)
    ensures
        match_names(es.push(e), toks) =~= match_names(es, toks) + (if matches_all_tokens(e, toks) {
            seq![e.name@]
        } else {
            Seq::<Seq<u8>>::empty()
        }),
    decreases es.len(),
{
    let p = es.push(e);
    let part = if matches_all_tokens(e, toks) {
        seq![e.name@]
    } else {
        Seq::<Seq<u8>>::empty()
    };
    if es.len() == 0 {
        assert(p[0] == e);
        assert(p.drop_first() =~= Seq::<Link>::empty());
        assert(match_names(Seq::<Link>::empty(), toks) =~= Seq::<Seq<u8>>::empty());
        if matches_all_tokens(e, toks) {
            assert(match_names(p, toks) == seq![p[0].name@] + match_names(p.drop_first(), toks));
            assert(match_names(p, toks) =~= match_names(es, toks) + part);
        } else {
            assert(match_names(p, toks) == match_names(p.drop_first(), toks));
            assert(match_names(p, toks) =~= match_names(es, toks) + part);
        }
    } else {
        assert(p[0] == es[0]);
        assert(p.drop_first() =~= es.drop_first().push(e));
        lemma_match_names_push(es.drop_first(), e, toks);
        assert(match_names(p.drop_first(), toks) =~= match_names(es.drop_first(), toks) + part);
        if matches_all_tokens(es[0], toks) {
            assert(match_names(p, toks) == seq![p[0].name@] + match_names(p.drop_first(), toks));
            assert(match_names(es, toks) == seq![es[0].name@] + match_names(es.drop_first(), toks));
            assert(match_names(p, toks) =~= match_names(es, toks) + part);
        } else {
            assert(match_names(p, toks) == match_names(p.drop_first(), toks));
            assert(match_names(es, toks) == match_names(es.drop_first(), toks));
            assert(match_names(p, toks) =~= match_names(es, toks) + part);
        }
    }
}

/// Resolves a device query against the directory: an exact hit on the
/// trimmed, lower-cased query wins; otherwise the query's whitespace
/// tokens narrow the catalog to the names containing every token, giving
/// suggestions, or nothing at all.
pub fn resolve(link_list: &Vec<Link>, query: &[u8]) -> (r: Resolution)
    ensures
        lookup_link(link_list@, norm_query(query@)) is Some ==> (r matches Resolution::Exact {
            name,
            url,
        } && name@ == norm_query(query@) && Option::Some(url@) == lookup_link(
            link_list@,
            norm_query(query@),
        )),
        lookup_link(link_list@, norm_query(query@)) is None ==> {
            let found = match_names(link_list@, ws_tokens(norm_query(query@)));
            if found.len() > 0 {
                r matches Resolution::Suggestions { names } && views_of(names@) == found
            } else {
                r == Resolution::NotFound
            }
        },
{
    let trimmed = crate::text::trim_bytes(query);
    let nq = lower_bytes(trimmed.as_slice());
    let n: usize = link_list.len();
    let mut i: usize = 0;
    while i < n
        invariant
            0 <= i <= n,
            n == link_list@.len(),
            nq@ == norm_query(query@),
            forall|j: int| 0 <= j < i ==> (#[trigger] link_list@[j]).name@ != nq@,
        decreases n - i,
    {
        if bytes_eq(link_list[i].name.as_slice(), nq.as_slice()) {
            let name = sub_vec(link_list[i].name.as_slice(), 0, link_list[i].name.len());
            let url = sub_vec(link_list[i].url.as_slice(), 0, link_list[i].url.len());
            proof {
                lemma_lookup_link_first(link_list@, nq@, i as int);
                assert(name@ =~= link_list@[i as int].name@);
                assert(url@ =~= link_list@[i as int].url@);
            }
            return Resolution::Exact { name, url };
        }
        i += 1;
    }
    proof {
        lemma_lookup_link_some(link_list@, nq@);
    }
    let toks = split_ws(nq.as_slice());
    let ghost tokviews = ws_tokens(nq@);
    let mut names: Vec<Vec<u8>> = Vec::new();
    let mut e: usize = 0;
    proof {
        assert(link_list@.subrange(0, 0) =~= Seq::<Link>::empty());
        assert(views_of(names@) =~= Seq::<Seq<u8>>::empty());
    }
    while e < n
        invariant
            0 <= e <= n,
            n == link_list@.len(),
            views_of(toks@) == tokviews,
            views_of(names@) == match_names(link_list@.subrange(0, e as int), tokviews),
        decreases n - e,
    {
        let lname = lower_bytes(link_list[e].name.as_slice());
        let tn: usize = toks.len();
        let mut k: usize = 0;
        let mut all = true;
        while k < tn
            invariant
                0 <= k <= tn,
                tn == toks@.len(),
                views_of(toks@) == tokviews,
                lname@ == lower_seq(link_list@[e as int].name@),
                e < n && n == link_list@.len(),
                all == (forall|t: int|
                    0 <= t < k ==> contains_seq(lname@, #[trigger] tokviews[t])),
            decreases tn - k,
        {
            proof {
                assert(tokviews[k as int] == toks@[k as int]@);
            }
            if !contains_bytes(lname.as_slice(), toks[k].as_slice()) {
                all = false;
            }
            k += 1;
        }
        proof {
            assert(link_list@.subrange(0, e + 1) =~= link_list@.subrange(0, e as int).push(
                link_list@[e as int],
            ));
            lemma_match_names_push(link_list@.subrange(0, e as int), link_list@[e as int], tokviews);
            assert(all == matches_all_tokens(link_list@[e as int], tokviews));
        }
        if all {
            let name = sub_vec(link_list[e].name.as_slice(), 0, link_list[e].name.len());
            proof {
                assert(name@ =~= link_list@[e as int].name@);
                crate::text::lemma_views_of_push(names@, name);
            }
            names.push(name);
        }
        e += 1;
    }
    proof {
        assert(link_list@.subrange(0, n as int) =~= link_list@);
        assert(views_of(names@).len() == names@.len());
    }
    if names.len() == 0 {
        Resolution::NotFound
    } else {
        Resolution::Suggestions { names }
    }
}

} // verus!
