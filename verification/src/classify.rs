//! Assigning a broadcast to at most one query term: first by a cached tag
//! label, then by a trimmed title token, first match winning in both
//! phases.

use vstd::prelude::*;

use crate::stream::Stream;
use crate::tags::TagCache;
use crate::text;

verus! {

/// The first query index at or after `k` whose term equals `tok`
/// case-insensitively.
pub open spec fn first_ci_index(query: Seq<Seq<char>>, tok: Seq<char>, k: int) -> Option<int>
    decreases query.len() - k,
        when 0 <= k <= query.len()
{
    if k == query.len() {
        None
    } else if text::ci_equal(query[k], tok) {
        Some(k)
    } else {
        first_ci_index(query, tok, k + 1)
    }
}

pub proof fn lemma_first_ci_index_exists(query: Seq<Seq<char>>, tok: Seq<char>, k: int)
    requires
        0 <= k <= query.len(),
    ensures
        first_ci_index(query, tok, k) is Some <==> exists|q: int|
            k <= q < query.len() && text::ci_equal(query[q], tok),
        first_ci_index(query, tok, k) matches Some(q) ==> k <= q < query.len() && text::ci_equal(
            query[q],
            tok,
        ),
    decreases query.len() - k,
{
    if k < query.len() && !text::ci_equal(query[k], tok) {
        lemma_first_ci_index_exists(query, tok, k + 1);
    }
}

/// The query index the tag phase picks, scanning tag ids from position
/// `t` on: the first cached tag id whose label matches a query term, and
/// among the terms the earliest.
pub open spec fn tag_pick(
    ids: Seq<Seq<char>>,
    cache: Map<Seq<char>, Seq<char>>,
    query: Seq<Seq<char>>,
    t: int,
) -> Option<int>
    decreases ids.len() - t,
        when 0 <= t <= ids.len()
{
    if t == ids.len() {
        None
    } else if cache.contains_key(ids[t]) && first_ci_index(query, cache[ids[t]], 0) is Some {
        first_ci_index(query, cache[ids[t]], 0)
    } else {
        tag_pick(ids, cache, query, t + 1)
    }
}

/// The query index the title phase picks, scanning raw tokens from
/// position `t` on: tokens are trimmed, empty ones discarded, and the
/// first remaining token equal to a query term decides.
pub open spec fn token_pick(toks: Seq<Seq<char>>, query: Seq<Seq<char>>, t: int) -> Option<int>
    decreases toks.len() - t,
        when 0 <= t <= toks.len()
{
    if t == toks.len() {
        None
    } else {
        let w = text::trim_boundaries(toks[t]);
        if w.len() > 0 && first_ci_index(query, w, 0) is Some {
            first_ci_index(query, w, 0)
        } else {
            token_pick(toks, query, t + 1)
        }
    }
}

/// The classification of one broadcast: the tag phase decides if it can,
/// else the title phase; no hit drops the broadcast.
pub open spec fn classify_spec(
    title: Seq<char>,
    ids: Seq<Seq<char>>,
    cache: Map<Seq<char>, Seq<char>>,
    query: Seq<Seq<char>>,
) -> Option<int> {
    if tag_pick(ids, cache, query, 0) is Some {
        tag_pick(ids, cache, query, 0)
    } else {
        token_pick(text::split_from(title, 0), query, 0)
    }
}

/// Law: a broadcast carrying a cached tag whose label equals some query
/// term case-insensitively is classified by the tag phase alone; the
/// title is never consulted.
pub proof fn lemma_tag_match_wins(
    title: Seq<char>,
    ids: Seq<Seq<char>>,
    cache: Map<Seq<char>, Seq<char>>,
    query: Seq<Seq<char>>,
)
    requires
        exists|t: int, q: int|
            0 <= t < ids.len() && cache.contains_key(ids[t]) && 0 <= q < query.len()
                && text::ci_equal(query[q], cache[ids[t]]),
    ensures
        tag_pick(ids, cache, query, 0) is Some,
        classify_spec(title, ids, cache, query) == tag_pick(ids, cache, query, 0),
{
    let (t, q) = choose|t: int, q: int|
        0 <= t < ids.len() && cache.contains_key(ids[t]) && 0 <= q < query.len()
            && text::ci_equal(query[q], cache[ids[t]]);
    lemma_tag_pick_some_from(ids, cache, query, 0, t, q);
}

proof fn lemma_tag_pick_some_from(
    ids: Seq<Seq<char>>,
    cache: Map<Seq<char>, Seq<char>>,
    query: Seq<Seq<char>>,
    k: int,
    t: int,
    q: int,
)
    requires
        0 <= k <= t < ids.len(),
        cache.contains_key(ids[t]),
        0 <= q < query.len(),
        text::ci_equal(query[q], cache[ids[t]]),
    ensures
        tag_pick(ids, cache, query, k) is Some,
    decreases t - k,
{
    if k == t {
        lemma_first_ci_index_exists(query, cache[ids[t]], 0);
    } else {
        lemma_tag_pick_some_from(ids, cache, query, k + 1, t, q);
    }
}

/// Law: with no tag match anywhere, classification is exactly what title
/// tokenization and trimming yield against the query terms.
pub proof fn lemma_title_fallback(
    title: Seq<char>,
    ids: Seq<Seq<char>>,
    cache: Map<Seq<char>, Seq<char>>,
    query: Seq<Seq<char>>,
)
    requires
        tag_pick(ids, cache, query, 0) is None,
    ensures
        classify_spec(title, ids, cache, query) == token_pick(
            text::split_from(title, 0),
            query,
            0,
        ),
{
}

proof fn lemma_token_pick_shift(
    p: Seq<char>,
    rest: Seq<Seq<char>>,
    query: Seq<Seq<char>>,
    t: int,
)
    requires
        0 <= t <= rest.len(),
    ensures
        token_pick(seq![p] + rest, query, t + 1) == token_pick(rest, query, t),
    decreases rest.len() - t,
{
    let toks = seq![p] + rest;
    assert(toks.len() == rest.len() + 1);
    if t == rest.len() {
    } else {
        assert(toks[t + 1] == rest[t]);
        lemma_token_pick_shift(p, rest, query, t + 1);
    }
}

/// The first query term matching `w` case-insensitively, in query order.
fn first_ci_match(query: &Vec<String>, w: &str) -> (r: Option<usize>)
    ensures
        match r {
            Some(q) => q < query@.len() && first_ci_index(query.deep_view(), w@, 0) == Some(
                q as int,
            ),
            None => first_ci_index(query.deep_view(), w@, 0) is None,
        },
{
    let n = query.len();
    let mut k: usize = 0;
    while k < n
        invariant
            n == query@.len(),
            k <= n,
            first_ci_index(query.deep_view(), w@, 0) == first_ci_index(
                query.deep_view(),
                w@,
                k as int,
            ),
        decreases n - k,
    {
        proof {
            assert(query.deep_view()[k as int] == query@[k as int]@);
        }
        if text::eq_ignore_case(query[k].as_str(), w) {
            return Some(k);
        }
        k += 1;
    }
    None
}

/// Classifies one broadcast against the query set, returning the index
/// of the query term it belongs to, if any.
pub fn classify(stream: &Stream, cache: &TagCache, query: &Vec<String>) -> (r: Option<usize>)
    requires
        cache.wf(),
    ensures
        r is Some ==> r->Some_0 < query@.len() && classify_spec(
            stream.title@,
            stream.tag_id_views(),
            cache@,
            query.deep_view(),
        ) == Some(r->Some_0 as int),
        r is None ==> classify_spec(
            stream.title@,
            stream.tag_id_views(),
            cache@,
            query.deep_view(),
        ) is None,
{
    let ghost qv = query.deep_view();
    let ghost idsv = stream.tag_id_views();
    let picked = match &stream.tag_ids {
        Some(ids) => tag_phase(ids, cache, query),
        None => None,
    };
    match picked {
        Some(q) => Some(q),
        None => {
            assert(tag_pick(idsv, cache@, qv, 0) is None);
            title_match(&stream.title, query)
        },
    }
}

/// The tag phase alone: the first cached tag id whose label equals a
/// query term case-insensitively, the earliest such term winning.
fn tag_phase(ids: &Vec<String>, cache: &TagCache, query: &Vec<String>) -> (r: Option<usize>)
    requires
        cache.wf(),
    ensures
        match r {
            Some(q) => q < query@.len() && tag_pick(
                ids.deep_view(),
                cache@,
                query.deep_view(),
                0,
            ) == Some(q as int),
            None => tag_pick(ids.deep_view(), cache@, query.deep_view(), 0) is None,
        },
{
    let ghost qv = query.deep_view();
    let ghost idsv = ids.deep_view();
    let n = ids.len();
    let mut t: usize = 0;
    while t < n
        invariant
            cache.wf(),
            n == ids@.len(),
            t <= n,
            idsv == ids.deep_view(),
            qv == query.deep_view(),
            tag_pick(idsv, cache@, qv, 0) == tag_pick(idsv, cache@, qv, t as int),
        decreases n - t,
    {
        proof {
            assert(idsv[t as int] == ids@[t as int]@);
        }
        match cache.get(ids[t].as_str()) {
            Some(label) => {
                match first_ci_match(query, label.as_str()) {
                    Some(q) => {
                        proof {
                            assert(cache@.contains_key(idsv[t as int]));
                            assert(first_ci_index(qv, cache@[idsv[t as int]], 0) == Some(
                                q as int,
                            ));
                            assert(tag_pick(idsv, cache@, qv, t as int) == Some(q as int));
                        }
                        return Some(q);
                    },
                    None => {},
                }
            },
            None => {},
        }
        t += 1;
    }
    None
}

/// The title phase alone: tokenizes the title at spaces, trims each
/// token, and returns the first query term a nonempty token equals.
pub fn title_match(title: &String, query: &Vec<String>) -> (r: Option<usize>)
    ensures
        ({
            let c = token_pick(text::split_from(title@, 0), query.deep_view(), 0);
            match r {
                Some(q) => q < query@.len() && c == Some(q as int),
                None => c is None,
            }
        }),
{
    let ghost qv = query.deep_view();
    let ghost toks0 = text::split_from(title@, 0);
    let s = title.as_str();
    let n = s.unicode_len();
    let mut start: usize = 0;
    loop
        invariant
            n == s@.len(),
            s@ == title@,
            qv == query.deep_view(),
            toks0 == text::split_from(title@, 0),
            start <= n,
            token_pick(toks0, qv, 0) == token_pick(text::split_from(s@, start as int), qv, 0),
        decreases n - start,
    {
        let mut e: usize = start;
        while e < n && s.get_char(e) != ' '
            invariant
                n == s@.len(),
                start <= e <= n,
                forall|i: int| start <= i < e ==> s@[i] != ' ',
            decreases n - e,
        {
            e += 1;
        }
        proof {
            text::lemma_first_space_at(s@, start as int);
            assert(text::first_space_at(s@, start as int) == e as int) by {
                if text::first_space_at(s@, start as int) < e as int {
                    assert(s@[text::first_space_at(s@, start as int)] == ' ');
                }
            }
        }
        let tok = s.substring_char(start, e);
        let w = text::trim_word_boundaries(tok);
        let ghost toks_here = text::split_from(s@, start as int);
        proof {
            assert(toks_here[0] == s@.subrange(start as int, e as int));
            assert(tok@ == toks_here[0]);
        }
        if w.unicode_len() > 0 {
            match first_ci_match(query, w) {
                Some(q) => {
                    proof {
                        assert(token_pick(toks_here, qv, 0) == Some(q as int));
                    }
                    return Some(q);
                },
                None => {},
            }
        }
        if e == n {
            proof {
                assert(toks_here =~= seq![toks_here[0]]);
                assert(token_pick(toks_here, qv, 0) is None);
            }
            return None;
        }
        proof {
            let rest = text::split_from(s@, e + 1);
            assert(toks_here =~= seq![toks_here[0]] + rest);
            lemma_token_pick_shift(toks_here[0], rest, qv, 0);
            assert(token_pick(toks_here, qv, 0) == token_pick(toks_here, qv, 1));
        }
        start = e + 1;
    }
}

} // verus!
