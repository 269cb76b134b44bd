//! The discovery pipeline's state and its per-page decisions.  The
//! blocking transport lives outside: a driver fetches pages, tag
//! descriptors and identities, and hands the decoded values to these
//! functions, which decide everything else.

use vstd::prelude::*;

use crate::classify;
use crate::sort::SortAction;
use crate::stream::{Resp, Stream};
use crate::tags::TagCache;
use crate::text;

verus! {

/// The listing category for science and technology broadcasts.
pub const SCIENCE_AND_TECH_CATEGORY: &'static str = "509670";

/// The listing category for software and game development broadcasts.
pub const SOFTWARE_AND_GAME_DEV_CATEGORY: &'static str = "1469308723";

/// The views of a string list's elements.
pub open spec fn str_views(qs: Seq<String>) -> Seq<Seq<char>> {
    qs.map_values(|s: String| s@)
}

/// Some element's view equals `v`.
pub open spec fn has_str(s: Seq<String>, v: Seq<char>) -> bool {
    exists|k: int| 0 <= k < s.len() && s[k]@ == v
}

/// The list with every later repetition of a value dropped: the first
/// occurrence of each term survives, order kept.
pub open spec fn dedup_strs(s: Seq<String>) -> Seq<String>
    decreases s.len(),
{
    if s.len() == 0 {
        Seq::empty()
    } else if has_str(s.drop_last(), s.last()@) {
        dedup_strs(s.drop_last())
    } else {
        dedup_strs(s.drop_last()).push(s.last())
    }
}

/// One tag descriptor as the tag-lookup endpoint returns it, decoded to
/// plain values: the id, the auto-generated flag, and the mapping from
/// locale to display label.
pub struct TagRecord {
    pub tag_id: String,
    pub is_auto: bool,
    pub localization_names: Vec<(String, String)>,
}

/// The pipeline's owner for one invocation: the query set, the language
/// allow-list, the categories to page through, and the tag cache.
pub struct WhatStream {
    pub query: Vec<String>,
    pub languages: Vec<String>,
    pub categories: Vec<String>,
    pub tag_cache: TagCache,
}

/// Whether the allow-list admits the broadcast's language: an empty
/// list admits everything, otherwise a case-insensitive exact match.
pub open spec fn language_admitted(langs: Seq<Seq<char>>, s: Stream) -> bool {
    langs.len() == 0 || exists|k: int| 0 <= k < langs.len() && text::ci_equal(s.language@, langs[k])
}

/// The page after language filtering, order kept.
pub open spec fn language_filtered(langs: Seq<Seq<char>>, page: Seq<Stream>) -> Seq<Stream>
    decreases page.len(),
{
    if page.len() == 0 {
        Seq::empty()
    } else if language_admitted(langs, page.last()) {
        language_filtered(langs, page.drop_last()).push(page.last())
    } else {
        language_filtered(langs, page.drop_last())
    }
}

/// The classified pairs a page contributes, in page order: each
/// broadcast the classifier accepts, keyed by its query term.
pub open spec fn classified_pairs(
    qs: Seq<String>,
    cache: Map<Seq<char>, Seq<char>>,
    page: Seq<Stream>,
) -> Seq<(String, Stream)>
    decreases page.len(),
{
    if page.len() == 0 {
        Seq::empty()
    } else {
        let rest = classified_pairs(qs, cache, page.drop_last());
        let s = page.last();
        match classify::classify_spec(s.title@, s.tag_id_views(), cache, str_views(qs)) {
            Some(q) => rest.push((qs[q], s)),
            None => rest,
        }
    }
}

pub proof fn lemma_classified_len(
    qs: Seq<String>,
    cache: Map<Seq<char>, Seq<char>>,
    page: Seq<Stream>,
)
    ensures
        classified_pairs(qs, cache, page).len() <= page.len(),
    decreases page.len(),
{
    if page.len() > 0 {
        lemma_classified_len(qs, cache, page.drop_last());
    }
}

/// Pairwise distinct query terms.
pub open spec fn unique_terms(s: Seq<String>) -> bool {
    forall|i: int, j: int| 0 <= i < j < s.len() ==> s[i]@ != s[j]@
}

pub proof fn lemma_dedup_strs_unique(s: Seq<String>)
    ensures
        unique_terms(dedup_strs(s)),
    decreases s.len(),
{
    if s.len() > 0 {
        lemma_dedup_strs_unique(s.drop_last());
        let prev = dedup_strs(s.drop_last());
        if !has_str(s.drop_last(), s.last()@) {
            lemma_dedup_strs_terms(s.drop_last());
            assert(!has_str(prev, s.last()@));
            let p = prev.push(s.last());
            assert forall|i: int, j: int| 0 <= i < j < p.len() implies p[i]@ != p[j]@ by {
                if j == p.len() - 1 {
                    assert(p[i] == prev[i]);
                    if p[i]@ == s.last()@ {
                        assert(has_str(prev, s.last()@));
                    }
                } else {
                    assert(p[i] == prev[i] && p[j] == prev[j]);
                }
            }
        }
    }
}

impl WhatStream {
    /// The tag cache carries its invariant and the query terms are
    /// pairwise distinct, as deduplication leaves them.
    pub open spec fn wf(&self) -> bool {
        self.tag_cache.wf() && unique_terms(self.query@)
    }

    /// Builds the pipeline state.  The query terms are deduplicated,
    /// first occurrence winning, so each term owns one result bucket.
    pub fn new(
        query: Vec<String>,
        languages: Vec<String>,
        categories: Vec<String>,
        tag_cache: TagCache,
    ) -> (r: WhatStream)
        requires
            tag_cache.wf(),
        ensures
            r.wf(),
            r.query@ == dedup_strs(query@),
            r.languages == languages,
            r.categories == categories,
            r.tag_cache == tag_cache,
    {
        let mut rest = query;
        let mut kept: Vec<String> = Vec::new();
        let ghost orig = rest@;
        let ghost mut done: int = 0;
        while rest.len() > 0
            invariant
                0 <= done <= orig.len(),
                rest@ == orig.skip(done),
                kept@ == dedup_strs(orig.take(done)),
            decreases rest@.len(),
        {
            let x = rest.remove(0);
            proof {
                assert(orig.skip(done)[0] == orig[done]);
                assert(orig.skip(done).remove(0) =~= orig.skip(done + 1));
                assert(orig.take(done + 1).drop_last() =~= orig.take(done));
                assert(orig.take(done + 1).last() == orig[done]);
            }
            let dup = contains_str(&kept, x.as_str());
            proof {
                lemma_dedup_strs_terms(orig.take(done));
            }
            if !dup {
                kept.push(x);
            }
            proof {
                done = done + 1;
            }
        }
        proof {
            assert(orig.take(orig.len() as int) =~= orig);
            lemma_dedup_strs_unique(orig);
        }
        WhatStream { query: kept, languages, categories, tag_cache }
    }

    /// The finishing pass over one result bucket; see the free
    /// function of the same name.
    pub fn sort_streams(streams: &mut Vec<Stream>, option: Option<SortAction>)
        ensures
            crate::sort::finished(option, old(streams)@, final(streams)@),
    {
        crate::sort::sort_streams(streams, option);
    }

    /// Whether a fetched page advances the loop at all: an empty page or
    /// a cursor equal to the one just used ends pagination, the latter
    /// being the stall guard against a non-advancing endpoint.
    pub fn page_accept(&self, cursor: &String, resp: &Resp<Stream>) -> (r: bool)
        ensures
            r == (resp.data@.len() > 0 && resp.pagination.cursor@ != cursor@),
    {
        if resp.data.len() == 0 {
            return false;
        }
        !text::str_eq(resp.pagination.cursor.as_str(), cursor.as_str())
    }

    /// Keeps the broadcasts whose language the allow-list admits.
    pub fn filter_by_language(&self, page: Vec<Stream>) -> (r: Vec<Stream>)
        ensures
            r@ == language_filtered(str_views(self.languages@), page@),
    {
        let ghost langs = str_views(self.languages@);
        let mut rest = page;
        let mut out: Vec<Stream> = Vec::new();
        let ghost orig = rest@;
        let ghost mut done: int = 0;
        while rest.len() > 0
            invariant
                0 <= done <= orig.len(),
                rest@ == orig.skip(done),
                out@ == language_filtered(langs, orig.take(done)),
                langs == str_views(self.languages@),
            decreases rest@.len(),
        {
            let x = rest.remove(0);
            proof {
                assert(orig.skip(done)[0] == orig[done]);
                assert(orig.skip(done).remove(0) =~= orig.skip(done + 1));
                assert(orig.take(done + 1).drop_last() =~= orig.take(done));
                assert(orig.take(done + 1).last() == orig[done]);
            }
            let admitted = self.language_ok(&x);
            if admitted {
                out.push(x);
            }
            proof {
                done = done + 1;
            }
        }
        proof {
            assert(orig.take(orig.len() as int) =~= orig);
        }
        out
    }

    /// Whether one broadcast's language passes the allow-list.
    fn language_ok(&self, s: &Stream) -> (r: bool)
        ensures
            r == language_admitted(str_views(self.languages@), *s),
    {
        let n = self.languages.len();
        if n == 0 {
            return true;
        }
        let mut k: usize = 0;
        while k < n
            invariant
                n == self.languages@.len(),
                k <= n,
                forall|j: int|
                    0 <= j < k ==> !text::ci_equal(s.language@, str_views(self.languages@)[j]),
            decreases n - k,
        {
            proof {
                assert(str_views(self.languages@)[k as int] == self.languages@[k as int]@);
            }
            if text::eq_ignore_case(s.language.as_str(), self.languages[k].as_str()) {
                return true;
            }
            k += 1;
        }
        false
    }

    /// Classifies a filtered page, appending each accepted broadcast to
    /// the accumulator under its query term, and says how many this page
    /// contributed; a page contributing none ends pagination.
    pub fn classify_page(&self, page: Vec<Stream>, out: &mut Vec<(String, Stream)>) -> (r: usize)
        requires
            self.wf(),
        ensures
            final(out)@ == old(out)@ + classified_pairs(self.query@, self.tag_cache@, page@),
            r == classified_pairs(self.query@, self.tag_cache@, page@).len(),
    {
        let ghost base = out@;
        let mut rest = page;
        let ghost orig = rest@;
        let total = rest.len();
        proof {
            assert(orig.len() == total);
        }
        let ghost mut done: int = 0;
        let mut added: usize = 0;
        while rest.len() > 0
            invariant
                self.wf(),
                orig.len() <= usize::MAX,
                added <= done,
                0 <= done <= orig.len(),
                rest@ == orig.skip(done),
                out@ == base + classified_pairs(self.query@, self.tag_cache@, orig.take(done)),
                added == classified_pairs(self.query@, self.tag_cache@, orig.take(done)).len(),
            decreases rest@.len(),
        {
            let x = rest.remove(0);
            proof {
                assert(orig.skip(done)[0] == orig[done]);
                assert(orig.skip(done).remove(0) =~= orig.skip(done + 1));
                assert(orig.take(done + 1).drop_last() =~= orig.take(done));
                assert(orig.take(done + 1).last() == orig[done]);
            }
            match classify::classify(&x, &self.tag_cache, &self.query) {
                Some(q) => {
                    proof {
                        assert(str_views(self.query@) == self.query.deep_view()) by {
                            assert(str_views(self.query@) =~= self.query.deep_view());
                        }
                    }
                    let term = self.query[q].clone();
                    out.push((term, x));
                    proof {
                        lemma_classified_len(self.query@, self.tag_cache@, orig.take(done + 1));
                    }
                    added += 1;
                },
                None => {
                    proof {
                        assert(str_views(self.query@) =~= self.query.deep_view());
                    }
                },
            }
            proof {
                done = done + 1;
            }
        }
        proof {
            assert(orig.take(orig.len() as int) =~= orig);
        }
        added
    }
}

/// The English display label of one tag descriptor, if it carries one.
pub open spec fn en_label(names: Seq<(String, String)>) -> Option<Seq<char>>
    decreases names.len(),
{
    if names.len() == 0 {
        None
    } else if names[0].0@ == "en-us"@ {
        Some(names[0].1@)
    } else {
        en_label(names.drop_first())
    }
}

/// What the cache holds after absorbing a batch of tag descriptors:
/// auto-generated tags are skipped, tags without an English label are
/// skipped, and a tag already cached is left untouched.
pub open spec fn absorbed(
    cache: Map<Seq<char>, Seq<char>>,
    tags: Seq<TagRecord>,
) -> Map<Seq<char>, Seq<char>>
    decreases tags.len(),
{
    if tags.len() == 0 {
        cache
    } else {
        let m = absorbed(cache, tags.drop_last());
        let t = tags.last();
        if t.is_auto {
            m
        } else {
            match en_label(t.localization_names@) {
                Some(l) => if m.contains_key(t.tag_id@) {
                    m
                } else {
                    m.insert(t.tag_id@, l)
                },
                None => m,
            }
        }
    }
}

/// Law: absorbing tag descriptors only ever adds entries — whatever
/// the cache held before is still there, unchanged, afterwards.
pub proof fn lemma_absorb_monotonic(cache: Map<Seq<char>, Seq<char>>, tags: Seq<TagRecord>)
    ensures
        forall|k: Seq<char>| #[trigger]
            cache.contains_key(k) ==> absorbed(cache, tags).contains_key(k) && absorbed(
                cache,
                tags,
            )[k] == cache[k],
    decreases tags.len(),
{
    if tags.len() > 0 {
        lemma_absorb_monotonic(cache, tags.drop_last());
    }
}

/// Some broadcast on the page carries this tag id.
pub open spec fn page_has_tag(page: Seq<Stream>, id: Seq<char>) -> bool {
    exists|k: int, b: int|
        0 <= k < page.len() && 0 <= b < page[k].tag_id_views().len() && page[k].tag_id_views()[b]
            == id
}

impl WhatStream {
    /// Folds a batch of tag descriptors into the cache: non-auto tags
    /// with an English label are cached under their id, existing entries
    /// are never rewritten, and nothing else changes.
    pub fn absorb_tags(&mut self, tags: Vec<TagRecord>)
        requires
            old(self).wf(),
        ensures
            final(self).wf(),
            final(self).tag_cache@ == absorbed(old(self).tag_cache@, tags@),
            final(self).query == old(self).query,
            final(self).languages == old(self).languages,
            final(self).categories == old(self).categories,
    {
        let ghost cache0 = self.tag_cache@;
        let mut rest = tags;
        let ghost orig = rest@;
        let ghost mut done: int = 0;
        while rest.len() > 0
            invariant
                self.wf(),
                0 <= done <= orig.len(),
                rest@ == orig.skip(done),
                self.tag_cache@ == absorbed(cache0, orig.take(done)),
                self.query == old(self).query,
                self.languages == old(self).languages,
                self.categories == old(self).categories,
            decreases rest@.len(),
        {
            let t = rest.remove(0);
            proof {
                assert(orig.skip(done)[0] == orig[done]);
                assert(orig.skip(done).remove(0) =~= orig.skip(done + 1));
                assert(orig.take(done + 1).drop_last() =~= orig.take(done));
                assert(orig.take(done + 1).last() == orig[done]);
            }
            let TagRecord { tag_id, is_auto, localization_names } = t;
            if !is_auto {
                match english_name(localization_names) {
                    Some(label) => {
                        self.tag_cache.insert_if_absent(tag_id, label);
                    },
                    None => {},
                }
            }
            proof {
                done = done + 1;
            }
        }
        proof {
            assert(orig.take(orig.len() as int) =~= orig);
        }
    }

    /// The tag ids on the page that the cache does not know yet, each
    /// once: the batch the tag-lookup endpoint is asked about.
    pub fn unresolved_tag_ids(&self, page: &Vec<Stream>) -> (r: Vec<String>)
        requires
            self.wf(),
        ensures
            forall|i: int|
                0 <= i < r@.len() ==> page_has_tag(page@, r@[i]@) && !self.tag_cache@.contains_key(
                    r@[i]@,
                ),
            forall|i: int, j: int| 0 <= i < j < r@.len() ==> r@[i]@ != r@[j]@,
            forall|id: Seq<char>|
                page_has_tag(page@, id) && !self.tag_cache@.contains_key(id) ==> has_str(r@, id),
    {
        let mut out: Vec<String> = Vec::new();
        let n = page.len();
        let mut k: usize = 0;
        while k < n
            invariant
                self.wf(),
                n == page@.len(),
                k <= n,
                forall|i: int|
                    0 <= i < out@.len() ==> page_has_tag(page@, out@[i]@)
                        && !self.tag_cache@.contains_key(out@[i]@),
                forall|i: int, j: int| 0 <= i < j < out@.len() ==> out@[i]@ != out@[j]@,
                forall|a: int, b: int|
                    0 <= a < k && 0 <= b < page@[a].tag_id_views().len()
                        && !self.tag_cache@.contains_key(page@[a].tag_id_views()[b]) ==> has_str(
                        out@,
                        page@[a].tag_id_views()[b],
                    ),
            decreases n - k,
        {
            match &page[k].tag_ids {
                Some(ids) => {
                    let m = ids.len();
                    let mut b: usize = 0;
                    while b < m
                        invariant
                            self.wf(),
                            n == page@.len(),
                            k < n,
                            m == ids@.len(),
                            b <= m,
                            ids.deep_view() == page@[k as int].tag_id_views(),
                            forall|i: int|
                                0 <= i < out@.len() ==> page_has_tag(page@, out@[i]@)
                                    && !self.tag_cache@.contains_key(out@[i]@),
                            forall|i: int, j: int|
                                0 <= i < j < out@.len() ==> out@[i]@ != out@[j]@,
                            forall|a: int, c: int|
                                0 <= a < k && 0 <= c < page@[a].tag_id_views().len()
                                    && !self.tag_cache@.contains_key(page@[a].tag_id_views()[c])
                                    ==> has_str(out@, page@[a].tag_id_views()[c]),
                            forall|c: int|
                                0 <= c < b && !self.tag_cache@.contains_key(
                                    page@[k as int].tag_id_views()[c],
                                ) ==> has_str(out@, page@[k as int].tag_id_views()[c]),
                        decreases m - b,
                    {
                        proof {
                            assert(page@[k as int].tag_id_views()[b as int] == ids@[b as int]@);
                        }
                        let id = &ids[b];
                        if !self.tag_cache.contains(id.as_str()) && !contains_str(&out, id.as_str())
                        {
                            let ghost before = out@;
                            out.push(id.clone());
                            proof {
                                assert(out@[out@.len() - 1]@ == ids@[b as int]@);
                                assert(forall|i: int|
                                    0 <= i < before.len() ==> out@[i] == before[i]);
                                assert(page_has_tag(page@, ids@[b as int]@));
                            }
                        }
                        b += 1;
                    }
                },
                None => {},
            }
            k += 1;
        }
        out
    }
}

/// The English-labelled entry of a descriptor's locale map, if any.
fn english_name(names: Vec<(String, String)>) -> (r: Option<String>)
    ensures
        match r {
            Some(l) => en_label(names@) == Some(l@),
            None => en_label(names@) is None,
        },
{
    let n = names.len();
    let mut i: usize = 0;
    proof {
        assert(names@.skip(0) =~= names@);
    }
    while i < n
        invariant
            n == names@.len(),
            i <= n,
            en_label(names@) == en_label(names@.skip(i as int)),
        decreases n - i,
    {
        if text::str_eq(names[i].0.as_str(), "en-us") {
            proof {
                assert(names@.skip(i as int)[0] == names@[i as int]);
            }
            let mut names = names;
            let pair = names.remove(i);
            return Some(pair.1);
        }
        proof {
            assert(names@.skip(i as int)[0] == names@[i as int]);
            assert(names@.skip(i as int).drop_first() =~= names@.skip(i + 1));
        }
        i += 1;
    }
    None
}

/// A wire timestamp that did not parse; the uptime pass stops on it.
#[derive(Debug)]
pub struct TimestampError {
    pub started_at: String,
}

/// Field-wise equality of two broadcasts except the two time fields.
pub open spec fn same_but_time(a: Stream, b: Stream) -> bool {
    &&& a.title == b.title
    &&& a.user_name == b.user_name
    &&& a.user_id == b.user_id
    &&& a.viewer_count == b.viewer_count
    &&& a.language == b.language
    &&& a.tag_ids == b.tag_ids
    &&& a.user_tag_map == b.user_tag_map
}

/// Index of the first broadcast in `[from, end)` carrying this
/// identity, or `end` when none does.
pub open spec fn first_with_id(
    s: Seq<(String, Stream)>,
    from: int,
    end: int,
    id: Seq<char>,
) -> int
    decreases end - from,
        when 0 <= from <= end <= s.len()
{
    if from == end {
        end
    } else if s[from].1.user_id@ == id {
        from
    } else {
        first_with_id(s, from + 1, end, id)
    }
}

pub proof fn lemma_first_with_id(s: Seq<(String, Stream)>, from: int, end: int, id: Seq<char>)
    requires
        0 <= from <= end <= s.len(),
    ensures
        from <= first_with_id(s, from, end, id) <= end,
        forall|i: int| from <= i < first_with_id(s, from, end, id) ==> s[i].1.user_id@ != id,
        first_with_id(s, from, end, id) < end ==> s[first_with_id(s, from, end, id)].1.user_id@
            == id,
    decreases end - from,
{
    if from < end && s[from].1.user_id@ != id {
        lemma_first_with_id(s, from + 1, end, id);
    }
}

/// The pair list after one resolved identity is written back: the first
/// broadcast in the chunk with that identity takes the login name.
pub open spec fn apply_one(
    s: Seq<(String, Stream)>,
    from: int,
    end: int,
    pr: (String, String),
) -> Seq<(String, Stream)> {
    let k = first_with_id(s, from, end, pr.0@);
    if 0 <= from <= k < end <= s.len() {
        s.update(k, (s[k].0, Stream { user_name: pr.1, ..s[k].1 }))
    } else {
        s
    }
}

/// The pair list after a whole identity response is written back, pair
/// by pair in response order.
pub open spec fn names_applied(
    s: Seq<(String, Stream)>,
    from: int,
    end: int,
    pairs: Seq<(String, String)>,
) -> Seq<(String, Stream)>
    decreases pairs.len(),
{
    if pairs.len() == 0 {
        s
    } else {
        names_applied(apply_one(s, from, end, pairs[0]), from, end, pairs.drop_first())
    }
}

/// The resolved-tag mapping of one broadcast: each of its tag ids that
/// the cache knows, bound to the cached label.
pub open spec fn tag_labels(
    cache: Map<Seq<char>, Seq<char>>,
    ids: Seq<Seq<char>>,
) -> Map<Seq<char>, Seq<char>>
    decreases ids.len(),
{
    if ids.len() == 0 {
        Map::empty()
    } else {
        let m = tag_labels(cache, ids.drop_last());
        if cache.contains_key(ids.last()) {
            m.insert(ids.last(), cache[ids.last()])
        } else {
            m
        }
    }
}

pub proof fn lemma_tag_labels_sub(cache: Map<Seq<char>, Seq<char>>, ids: Seq<Seq<char>>)
    ensures
        forall|k: Seq<char>| #[trigger]
            tag_labels(cache, ids).contains_key(k) ==> cache.contains_key(k) && tag_labels(
                cache,
                ids,
            )[k] == cache[k],
    decreases ids.len(),
{
    if ids.len() > 0 {
        lemma_tag_labels_sub(cache, ids.drop_last());
        assert forall|k: Seq<char>| #[trigger]
            tag_labels(cache, ids).contains_key(k) implies cache.contains_key(k) && tag_labels(
            cache,
            ids,
        )[k] == cache[k] by {
            if !(cache.contains_key(ids.last()) && k == ids.last()) {
                assert(tag_labels(cache, ids.drop_last()).contains_key(k));
            }
        }
    }
}

/// The broadcasts classified under this term, in arrival order.
pub open spec fn bucket_of(pairs: Seq<(String, Stream)>, q: Seq<char>) -> Seq<Stream>
    decreases pairs.len(),
{
    if pairs.len() == 0 {
        Seq::empty()
    } else if pairs.last().0@ == q {
        bucket_of(pairs.drop_last(), q).push(pairs.last().1)
    } else {
        bucket_of(pairs.drop_last(), q)
    }
}

/// The result groups in query order, one per term that received at
/// least one broadcast.
pub open spec fn grouped(
    query: Seq<String>,
    pairs: Seq<(String, Stream)>,
) -> Seq<(Seq<char>, Seq<Stream>)>
    decreases query.len(),
{
    if query.len() == 0 {
        Seq::empty()
    } else {
        let rest = grouped(query.drop_last(), pairs);
        let b = bucket_of(pairs, query.last()@);
        if b.len() > 0 {
            rest.push((query.last()@, b))
        } else {
            rest
        }
    }
}

/// One pair's time fields, filled against the instant `now`.
pub open spec fn uptime_filled(before: (String, Stream), after: (String, Stream), now: int) -> bool {
    &&& after.0 == before.0
    &&& same_but_time(after.1, before.1)
    &&& crate::clock::timestamp_parse(before.1.started_at@) matches Some(ts) && after.1.uptime
        == now - ts && after.1.started_at@ == crate::timefmt::elapsed_text(now - ts)
}

/// The whole uptime pass succeeded against the instant `now`.
pub open spec fn uptimes_filled(
    before: Seq<(String, Stream)>,
    after: Seq<(String, Stream)>,
    now: int,
) -> bool {
    after.len() == before.len() && (forall|i: int|
        0 <= i < after.len() ==> uptime_filled(before[i], after[i], now))
}

impl WhatStream {
    /// Replaces each broadcast's wire timestamp with its elapsed-time
    /// text and fills the derived uptime seconds, a one-way
    /// transformation; the first malformed timestamp is fatal.
    #[verifier::loop_isolation(false)]
    pub fn apply_uptimes(streams: Vec<(String, Stream)>, now: i64) -> (r: Result<
        Vec<(String, Stream)>,
        TimestampError,
    >)
        requires
            -9_000_000_000_000 < now < 9_000_000_000_000,
        ensures
            match r {
                Ok(v) => uptimes_filled(streams@, v@, now as int),
                Err(e) => crate::clock::timestamp_parse(e.started_at@) is None && (exists|i: int|
                    0 <= i < streams@.len() && streams@[i].1.started_at == e.started_at),
            },
    {
        let mut rest = streams;
        let mut out: Vec<(String, Stream)> = Vec::new();
        let ghost orig = rest@;
        let ghost mut done: int = 0;
        while rest.len() > 0
            invariant
                -9_000_000_000_000 < now < 9_000_000_000_000,
                0 <= done <= orig.len(),
                rest@ == orig.skip(done),
                out@.len() == done,
                forall|i: int| 0 <= i < done ==> uptime_filled(orig[i], out@[i], now as int),
            decreases rest@.len(),
        {
            let (term, mut st) = rest.remove(0);
            proof {
                assert(orig.skip(done)[0] == orig[done]);
                assert(orig.skip(done).remove(0) =~= orig.skip(done + 1));
            }
            match crate::clock::parse_timestamp(st.started_at.as_str()) {
                Some(ts) => {
                    let up = now - ts;
                    st.uptime = up;
                    st.started_at = crate::timefmt::format_elapsed(up);
                    out.push((term, st));
                },
                None => {
                    proof {
                        assert(orig[done].1.started_at == st.started_at);
                        assert(exists|i: int|
                            0 <= i < orig.len() && orig[i].1.started_at == st.started_at);
                    }
                    return Err(TimestampError { started_at: st.started_at });
                },
            }
            proof {
                done = done + 1;
            }
        }
        Ok(out)
    }

    /// The uptime pass against the clock's reading of the instant now,
    /// as one discovery run performs it.
    pub fn apply_current_uptimes(streams: Vec<(String, Stream)>) -> (r: Result<
        Vec<(String, Stream)>,
        TimestampError,
    >)
        ensures
            match r {
                Ok(v) => exists|now: int| #[trigger]
                    uptimes_filled(streams@, v@, now) && -9_000_000_000_000 < now
                        < 9_000_000_000_000,
                Err(e) => crate::clock::timestamp_parse(e.started_at@) is None && (exists|i: int|
                    0 <= i < streams@.len() && streams@[i].1.started_at == e.started_at),
            },
    {
        let now = crate::clock::now_seconds();
        Self::apply_uptimes(streams, now)
    }

    /// The identities of one chunk of accumulated broadcasts, in order,
    /// ready for one batched identity lookup.
    pub fn collect_user_ids(streams: &Vec<(String, Stream)>, start: usize, end: usize) -> (r: Vec<
        String,
    >)
        requires
            start <= end <= streams@.len(),
        ensures
            r@.len() == end - start,
            forall|i: int| 0 <= i < r@.len() ==> r@[i]@ == streams@[start + i].1.user_id@,
    {
        let mut out: Vec<String> = Vec::new();
        let mut k: usize = start;
        while k < end
            invariant
                start <= k <= end <= streams@.len(),
                out@.len() == k - start,
                forall|i: int| 0 <= i < out@.len() ==> out@[i]@ == streams@[start + i].1.user_id@,
            decreases end - k,
        {
            out.push(streams[k].1.user_id.clone());
            k += 1;
        }
        out
    }

    /// Writes a batch of resolved login names back onto the chunk
    /// `[start, end)`: each `(id, login)` pair names the first broadcast
    /// of that identity in the chunk.
    #[verifier::loop_isolation(false)]
    pub fn apply_usernames(
        streams: &mut Vec<(String, Stream)>,
        start: usize,
        end: usize,
        pairs: &Vec<(String, String)>,
    )
        requires
            start <= end <= old(streams)@.len(),
        ensures
            final(streams)@ == names_applied(old(streams)@, start as int, end as int, pairs@),
    {
        let n = pairs.len();
        let mut p: usize = 0;
        proof {
            assert(pairs@.skip(0) =~= pairs@);
        }
        while p < n
            invariant
                n == pairs@.len(),
                p <= n,
                start <= end <= streams@.len(),
                names_applied(old(streams)@, start as int, end as int, pairs@) == names_applied(
                    streams@,
                    start as int,
                    end as int,
                    pairs@.skip(p as int),
                ),
            decreases n - p,
        {
            proof {
                assert(pairs@.skip(p as int)[0] == pairs@[p as int]);
                assert(pairs@.skip(p as int).drop_first() =~= pairs@.skip(p + 1));
            }
            let ghost before = streams@;
            let id = &pairs[p].0;
            proof {
                assert(id@ == pairs@[p as int].0@);
            }
            let mut k: usize = start;
            let mut found = false;
            while k < end && !found
                invariant
                    n == pairs@.len(),
                    p < n,
                    start <= k <= end <= streams@.len(),
                    !found ==> streams@ == before,
                    !found ==> forall|i: int|
                        start <= i < k ==> streams@[i].1.user_id@ != pairs@[p as int].0@,
                    found ==> k > start && first_with_id(
                        before,
                        start as int,
                        end as int,
                        pairs@[p as int].0@,
                    ) == k - 1 && streams@ == apply_one(before, start as int, end as int, pairs@[p as int]),
                decreases end - k, (if found { 0int } else { 1int }),
            {
                let hit = text::str_eq(streams[k].1.user_id.as_str(), id.as_str());
                if hit {
                    proof {
                        lemma_first_with_id(before, start as int, end as int, pairs@[p as int].0@);
                        assert(streams@[k as int] == before[k as int]);
                        assert(first_with_id(before, start as int, end as int, pairs@[p as int].0@)
                            == k as int) by {
                            let f = first_with_id(
                                before,
                                start as int,
                                end as int,
                                pairs@[p as int].0@,
                            );
                            if f < k as int {
                                assert(streams@[f].1.user_id@ != pairs@[p as int].0@);
                                assert(before[f].1.user_id@ == pairs@[p as int].0@);
                            }
                            if f > k as int {
                                assert(before[k as int].1.user_id@ != pairs@[p as int].0@);
                            }
                        }
                    }
                    let (term, mut st) = streams.remove(k);
                    st.user_name = pairs[p].1.clone();
                    streams.insert(k, (term, st));
                    proof {
                        assert(streams@ =~= apply_one(
                            before,
                            start as int,
                            end as int,
                            pairs@[p as int],
                        ));
                    }
                    found = true;
                } else {
                    proof {
                        assert(streams@[k as int].1.user_id@ != pairs@[p as int].0@);
                    }
                }
                k += 1;
            }
            proof {
                if !found {
                    lemma_first_with_id(before, start as int, end as int, pairs@[p as int].0@);
                    assert(first_with_id(before, start as int, end as int, pairs@[p as int].0@)
                        == end as int) by {
                        let f = first_with_id(
                            before,
                            start as int,
                            end as int,
                            pairs@[p as int].0@,
                        );
                        if f < end as int {
                            assert(before[f].1.user_id@ == pairs@[p as int].0@);
                        }
                    }
                    assert(streams@ == apply_one(before, start as int, end as int, pairs@[p as int]));
                }
            }
            p += 1;
        }
        proof {
            assert(pairs@.skip(n as int).len() == 0);
        }
    }

    /// Rebuilds each broadcast's resolved-tag mapping from the cache:
    /// every tag id the cache knows appears with its label, nothing
    /// else does.
    pub fn attach_known_tags(&self, streams: Vec<(String, Stream)>) -> (r: Vec<(String, Stream)>)
        requires
            self.wf(),
        ensures
            r@.len() == streams@.len(),
            forall|i: int|
                0 <= i < r@.len() ==> {
                    &&& r@[i].0 == streams@[i].0
                    &&& r@[i].1.title == streams@[i].1.title
                    &&& r@[i].1.user_name == streams@[i].1.user_name
                    &&& r@[i].1.user_id == streams@[i].1.user_id
                    &&& r@[i].1.viewer_count == streams@[i].1.viewer_count
                    &&& r@[i].1.language == streams@[i].1.language
                    &&& r@[i].1.tag_ids == streams@[i].1.tag_ids
                    &&& r@[i].1.started_at == streams@[i].1.started_at
                    &&& r@[i].1.uptime == streams@[i].1.uptime
                    &&& crate::tags::unique_keys(r@[i].1.user_tag_map@)
                    &&& crate::tags::map_of_pairs(r@[i].1.user_tag_map@) == tag_labels(
                        self.tag_cache@,
                        streams@[i].1.tag_id_views(),
                    )
                },
    {
        let mut rest = streams;
        let mut out: Vec<(String, Stream)> = Vec::new();
        let ghost orig = rest@;
        let ghost mut done: int = 0;
        while rest.len() > 0
            invariant
                self.wf(),
                0 <= done <= orig.len(),
                rest@ == orig.skip(done),
                out@.len() == done,
                forall|i: int|
                    0 <= i < done ==> {
                        &&& out@[i].0 == orig[i].0
                        &&& out@[i].1.title == orig[i].1.title
                        &&& out@[i].1.user_name == orig[i].1.user_name
                        &&& out@[i].1.user_id == orig[i].1.user_id
                        &&& out@[i].1.viewer_count == orig[i].1.viewer_count
                        &&& out@[i].1.language == orig[i].1.language
                        &&& out@[i].1.tag_ids == orig[i].1.tag_ids
                        &&& out@[i].1.started_at == orig[i].1.started_at
                        &&& out@[i].1.uptime == orig[i].1.uptime
                        &&& crate::tags::unique_keys(out@[i].1.user_tag_map@)
                        &&& crate::tags::map_of_pairs(out@[i].1.user_tag_map@) == tag_labels(
                            self.tag_cache@,
                            orig[i].1.tag_id_views(),
                        )
                    },
            decreases rest@.len(),
        {
            let (term, mut st) = rest.remove(0);
            proof {
                assert(orig.skip(done)[0] == orig[done]);
                assert(orig.skip(done).remove(0) =~= orig.skip(done + 1));
            }
            let resolved = self.resolve_tags_of(&st);
            st.user_tag_map = resolved;
            out.push((term, st));
            proof {
                done = done + 1;
            }
        }
        out
    }

    /// The resolved-tag pairs of one broadcast, keys unique.
    fn resolve_tags_of(&self, st: &Stream) -> (r: Vec<(String, String)>)
        requires
            self.wf(),
        ensures
            crate::tags::unique_keys(r@),
            crate::tags::map_of_pairs(r@) == tag_labels(self.tag_cache@, st.tag_id_views()),
    {
        let mut acc: Vec<(String, String)> = Vec::new();
        match &st.tag_ids {
            Some(ids) => {
                let m = ids.len();
                let mut b: usize = 0;
                while b < m
                    invariant
                        self.wf(),
                        m == ids@.len(),
                        b <= m,
                        ids.deep_view() == st.tag_id_views(),
                        crate::tags::unique_keys(acc@),
                        crate::tags::map_of_pairs(acc@) == tag_labels(
                            self.tag_cache@,
                            st.tag_id_views().take(b as int),
                        ),
                    decreases m - b,
                {
                    proof {
                        assert(st.tag_id_views()[b as int] == ids@[b as int]@);
                        assert(st.tag_id_views().take(b + 1).drop_last() =~= st.tag_id_views().take(
                            b as int,
                        ));
                        assert(st.tag_id_views().take(b + 1).last() == st.tag_id_views()[b as int]);
                    }
                    let id = &ids[b];
                    match self.tag_cache.get(id.as_str()) {
                        Some(label) => {
                            let present = pairs_contain(&acc, id.as_str());
                            proof {
                                crate::tags::lemma_map_of_pairs_domain(acc@);
                                lemma_tag_labels_sub(
                                    self.tag_cache@,
                                    st.tag_id_views().take(b as int),
                                );
                            }
                            if !present {
                                let ghost before = acc@;
                                acc.push((id.clone(), label.clone()));
                                proof {
                                    assert(acc@.drop_last() =~= before);
                                }
                            } else {
                                proof {
                                    assert(tag_labels(
                                        self.tag_cache@,
                                        st.tag_id_views().take(b + 1),
                                    ) =~= tag_labels(
                                        self.tag_cache@,
                                        st.tag_id_views().take(b as int),
                                    ));
                                }
                            }
                        },
                        None => {},
                    }
                    b += 1;
                }
                proof {
                    assert(st.tag_id_views().take(m as int) =~= st.tag_id_views());
                }
            },
            None => {
                proof {
                    assert(tag_labels(self.tag_cache@, st.tag_id_views()) =~= Map::<
                        Seq<char>,
                        Seq<char>,
                    >::empty());
                }
            },
        }
        acc
    }

    /// Groups the accumulated pairs by query term, in the order the
    /// terms were supplied; a term nothing was classified under is left
    /// out.
    pub fn group_results(&self, pairs: Vec<(String, Stream)>) -> (r: Vec<(String, Vec<Stream>)>)
        requires
            self.wf(),
        ensures
            r@.len() == grouped(self.query@, pairs@).len(),
            forall|i: int|
                0 <= i < r@.len() ==> r@[i].0@ == grouped(self.query@, pairs@)[i].0 && r@[i].1@
                    == grouped(self.query@, pairs@)[i].1,
    {
        let nq = self.query.len();
        let mut buckets: Vec<Vec<Stream>> = Vec::new();
        while buckets.len() < nq
            invariant
                nq == self.query@.len(),
                buckets@.len() <= nq,
                forall|qi: int| 0 <= qi < buckets@.len() ==> buckets@[qi]@ =~= Seq::<
                    Stream,
                >::empty(),
            decreases nq - buckets@.len(),
        {
            buckets.push(Vec::new());
        }
        let mut rest = pairs;
        let ghost orig = rest@;
        let ghost mut done: int = 0;
        proof {
            assert forall|qi: int| 0 <= qi < nq implies buckets@[qi]@ =~= bucket_of(
                orig.take(0),
                self.query@[qi]@,
            ) by {
                assert(orig.take(0) =~= Seq::<(String, Stream)>::empty());
            }
        }
        while rest.len() > 0
            invariant
                self.wf(),
                nq == self.query@.len(),
                buckets@.len() == nq,
                0 <= done <= orig.len(),
                rest@ == orig.skip(done),
                forall|qi: int|
                    0 <= qi < nq ==> buckets@[qi]@ == bucket_of(
                        orig.take(done),
                        self.query@[qi]@,
                    ),
            decreases rest@.len(),
        {
            let (term, st) = rest.remove(0);
            proof {
                assert(orig.skip(done)[0] == orig[done]);
                assert(orig.skip(done).remove(0) =~= orig.skip(done + 1));
            }
            let mut qi: usize = 0;
            let mut slot: usize = nq;
            while qi < nq && slot == nq
                invariant
                    nq == self.query@.len(),
                    qi <= nq,
                    slot == nq ==> forall|j: int| 0 <= j < qi ==> self.query@[j]@ != term@,
                    slot < nq ==> self.query@[slot as int]@ == term@,
                    slot <= nq,
                decreases nq - qi, (if slot == nq { 1int } else { 0int }),
            {
                if text::str_eq(self.query[qi].as_str(), term.as_str()) {
                    slot = qi;
                }
                qi += 1;
            }
            let ghost bks = buckets@;
            if slot < nq {
                let mut b = buckets.remove(slot);
                b.push(st);
                buckets.insert(slot, b);
                proof {
                    assert(buckets@.len() == bks.len());
                    assert(buckets@[slot as int]@ == bks[slot as int]@.push(orig[done].1));
                    assert(forall|qi: int|
                        0 <= qi < bks.len() && qi != slot as int ==> buckets@[qi] == bks[qi]);
                }
            }
            proof {
                assert(orig.take(done + 1).drop_last() =~= orig.take(done));
                assert(orig.take(done + 1).last() == orig[done]);
                assert forall|q2: int| 0 <= q2 < nq implies buckets@[q2]@ == bucket_of(
                    orig.take(done + 1),
                    self.query@[q2]@,
                ) by {
                    if self.query@[q2]@ == term@ {
                        assert(slot < nq) by {
                            if slot == nq {
                                assert(self.query@[q2]@ != term@);
                            }
                        }
                        assert(q2 == slot as int);
                    }
                }
                done = done + 1;
            }
        }
        proof {
            assert(orig.take(orig.len() as int) =~= orig);
        }
        let mut out: Vec<(String, Vec<Stream>)> = Vec::new();
        let mut q: usize = 0;
        let mut taken = buckets;
        while q < nq
            invariant
                self.wf(),
                nq == self.query@.len(),
                q <= nq,
                taken@.len() == nq - q,
                forall|qi: int|
                    0 <= qi < taken@.len() ==> taken@[qi]@ == bucket_of(
                        orig,
                        self.query@[q + qi]@,
                    ),
                out@.len() == grouped(self.query@.take(q as int), orig).len(),
                forall|i: int|
                    0 <= i < out@.len() ==> out@[i].0@ == grouped(
                        self.query@.take(q as int),
                        orig,
                    )[i].0 && out@[i].1@ == grouped(self.query@.take(q as int), orig)[i].1,
            decreases nq - q,
        {
            proof {
                assert(self.query@.take(q + 1).drop_last() =~= self.query@.take(q as int));
                assert(self.query@.take(q + 1).last() == self.query@[q as int]);
            }
            let b = taken.remove(0);
            if b.len() > 0 {
                out.push((self.query[q].clone(), b));
            }
            q += 1;
        }
        proof {
            assert(self.query@.take(nq as int) =~= self.query@);
        }
        out
    }
}

/// Whether some pair in the list already carries this key.
fn pairs_contain(v: &Vec<(String, String)>, key: &str) -> (r: bool)
    ensures
        r == exists|k: int| 0 <= k < v@.len() && v@[k].0@ == key@,
{
    let n = v.len();
    let mut i: usize = 0;
    while i < n
        invariant
            n == v@.len(),
            i <= n,
            forall|j: int| 0 <= j < i ==> v@[j].0@ != key@,
        decreases n - i,
    {
        if text::str_eq(v[i].0.as_str(), key) {
            return true;
        }
        i += 1;
    }
    false
}

/// Some element of the list equals this string.
fn contains_str(v: &Vec<String>, s: &str) -> (r: bool)
    ensures
        r == has_str(v@, s@),
{
    let n = v.len();
    let mut i: usize = 0;
    while i < n
        invariant
            n == v@.len(),
            i <= n,
            forall|j: int| 0 <= j < i ==> v@[j]@ != s@,
        decreases n - i,
    {
        if text::str_eq(v[i].as_str(), s) {
            return true;
        }
        i += 1;
    }
    false
}

/// Deduplication keeps exactly the terms that were there.
pub proof fn lemma_dedup_strs_terms(s: Seq<String>)
    ensures
        forall|v: Seq<char>| has_str(dedup_strs(s), v) <==> has_str(s, v),
    decreases s.len(),
{
    if s.len() > 0 {
        lemma_dedup_strs_terms(s.drop_last());
        let prev = dedup_strs(s.drop_last());
        assert forall|v: Seq<char>| has_str(dedup_strs(s), v) <==> has_str(s, v) by {
            if has_str(dedup_strs(s), v) {
                if has_str(s.drop_last(), s.last()@) {
                    assert(has_str(s.drop_last(), v));
                    let m = choose|m: int| 0 <= m < s.drop_last().len() && s.drop_last()[m]@ == v;
                    assert(s[m]@ == v);
                } else {
                    let k = choose|k: int|
                        0 <= k < dedup_strs(s).len() && dedup_strs(s)[k]@ == v;
                    if k < prev.len() {
                        assert(prev[k]@ == v);
                        assert(has_str(s.drop_last(), v));
                        let m = choose|m: int|
                            0 <= m < s.drop_last().len() && s.drop_last()[m]@ == v;
                        assert(s[m]@ == v);
                    } else {
                        assert(s[s.len() - 1]@ == v);
                    }
                }
            }
            if has_str(s, v) {
                let k = choose|k: int| 0 <= k < s.len() && s[k]@ == v;
                if k < s.len() - 1 {
                    assert(s.drop_last()[k]@ == v);
                    assert(has_str(s.drop_last(), v));
                    assert(has_str(prev, v));
                    let m = choose|m: int| 0 <= m < prev.len() && prev[m]@ == v;
                    if !has_str(s.drop_last(), s.last()@) {
                        assert(prev.push(s.last())[m]@ == v);
                    }
                } else {
                    if has_str(s.drop_last(), s.last()@) {
                        assert(has_str(s.drop_last(), v));
                        assert(has_str(prev, v));
                        let m = choose|m: int| 0 <= m < prev.len() && prev[m]@ == v;
                        assert(dedup_strs(s)[m]@ == v);
                    } else {
                        let p = prev.push(s.last());
                        assert(p[p.len() - 1]@ == v);
                    }
                }
            }
        }
    }
}

} // verus!
