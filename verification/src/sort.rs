//! The finishing stage: the sort option, its parser, the orders it
//! induces on broadcasts, and the dedup-and-sort pass itself.

use vstd::prelude::*;

use crate::stream::Stream;
use crate::text;

verus! {

/// The sortable columns.
#[derive(Debug, Copy, Clone, PartialEq, Eq, Structural)]
pub enum Column {
    Viewers,
    Uptime,
    Name,
}

/// The sort direction.
#[derive(Debug, Copy, Clone, PartialEq, Eq, Structural)]
pub enum Direction {
    Descending,
    Ascending,
}

/// A requested ordering: a column and a direction.
#[derive(Debug, Copy, Clone, PartialEq, Eq, Structural)]
pub struct SortAction {
    pub column: Column,
    pub direction: Direction,
}

/// The column a flag names, if it names one.
pub open spec fn column_of(h: Seq<char>) -> Option<Column> {
    if h == "viewers"@ {
        Some(Column::Viewers)
    } else if h == "uptime"@ {
        Some(Column::Uptime)
    } else if h == "name"@ {
        Some(Column::Name)
    } else {
        None
    }
}

/// The direction a flag names; an empty direction reads as descending.
pub open spec fn direction_of(t: Seq<char>) -> Option<Direction> {
    if t == "asc"@ || t == "ascending"@ {
        Some(Direction::Ascending)
    } else if t == "desc"@ || t == "descending"@ || t.len() == 0 {
        Some(Direction::Descending)
    } else {
        None
    }
}

/// The flag's column part: everything before the first comma.
pub open spec fn sort_head(s: Seq<char>) -> Seq<char> {
    s.subrange(0, text::first_index_of(s, ',', 0))
}

/// The flag's direction part: everything after the first comma, absent
/// when there is none.
pub open spec fn sort_tail(s: Seq<char>) -> Option<Seq<char>> {
    let e = text::first_index_of(s, ',', 0);
    if e == s.len() {
        None
    } else {
        Some(s.subrange(e + 1, s.len() as int))
    }
}

/// What a sort flag denotes: a known column, then an optional known
/// direction, descending when the direction is missing.
pub open spec fn parsed_sort(s: Seq<char>) -> Option<SortAction> {
    match column_of(sort_head(s)) {
        Some(column) => match sort_tail(s) {
            None => Some(SortAction { column, direction: Direction::Descending }),
            Some(t) => match direction_of(t) {
                Some(direction) => Some(SortAction { column, direction }),
                None => None,
            },
        },
        None => None,
    }
}

/// Why a sort flag was rejected, carrying the offending part.
#[derive(Debug)]
pub enum SortParseError {
    UnknownColumn(String),
    UnknownDirection(String),
}

impl SortAction {
    /// Reads a sort flag of the shape `column` or `column,direction`.
    pub fn parse(flag: &str) -> (r: Result<SortAction, SortParseError>)
        ensures
            match r {
                Ok(sa) => parsed_sort(flag@) == Some(sa),
                Err(SortParseError::UnknownColumn(w)) => column_of(sort_head(flag@)) is None && w@
                    == sort_head(flag@),
                Err(SortParseError::UnknownDirection(w)) => column_of(sort_head(flag@)) is Some
                    && (sort_tail(flag@) matches Some(t) && direction_of(t) is None && w@ == t),
            },
    {
        let n = flag.unicode_len();
        let mut e: usize = 0;
        while e < n && flag.get_char(e) != ','
            invariant
                n == flag@.len(),
                e <= n,
                forall|i: int| 0 <= i < e ==> flag@[i] != ',',
            decreases n - e,
        {
            e += 1;
        }
        proof {
            text::lemma_first_index_of(flag@, ',', 0);
            assert(text::first_index_of(flag@, ',', 0) == e as int) by {
                if text::first_index_of(flag@, ',', 0) < e as int {
                    assert(flag@[text::first_index_of(flag@, ',', 0)] == ',');
                }
            }
        }
        let head = flag.substring_char(0, e);
        let column = if text::str_eq(head, "viewers") {
            Some(Column::Viewers)
        } else if text::str_eq(head, "uptime") {
            Some(Column::Uptime)
        } else if text::str_eq(head, "name") {
            Some(Column::Name)
        } else {
            None
        };
        match column {
            None => Err(SortParseError::UnknownColumn(head.to_owned())),
            Some(column) => {
                if e == n {
                    Ok(SortAction { column, direction: Direction::Descending })
                } else {
                    let tail = flag.substring_char(e + 1, n);
                    let direction = if text::str_eq(tail, "asc") || text::str_eq(
                        tail,
                        "ascending",
                    ) {
                        Some(Direction::Ascending)
                    } else if text::str_eq(tail, "desc") || text::str_eq(tail, "descending")
                        || tail.unicode_len() == 0 {
                        Some(Direction::Descending)
                    } else {
                        None
                    };
                    match direction {
                        Some(direction) => Ok(SortAction { column, direction }),
                        None => Err(SortParseError::UnknownDirection(tail.to_owned())),
                    }
                }
            },
        }
    }
}

impl SortParseError {
    /// The rejection, worded for the operator.
    pub fn message(&self) -> (r: String)
        ensures
            match self {
                SortParseError::UnknownColumn(w) => r@ == "invalid column: "@ + w@
                    + ". supported columns: [viewers | uptime | name]"@,
                SortParseError::UnknownDirection(w) => r@ == "invalid direction: "@ + w@
                    + ". supported directions: [asc | ascending | desc | descending]"@,
            },
    {
        let mut out = String::new();
        match self {
            SortParseError::UnknownColumn(w) => {
                out.append("invalid column: ");
                out.append(w.as_str());
                out.append(". supported columns: [viewers | uptime | name]");
            },
            SortParseError::UnknownDirection(w) => {
                out.append("invalid direction: ");
                out.append(w.as_str());
                out.append(". supported directions: [asc | ascending | desc | descending]");
            },
        }
        out
    }
}

/// Lexicographic order on character sequences, by code point.
pub open spec fn chars_le(a: Seq<char>, b: Seq<char>) -> bool
    decreases a.len(),
{
    if a.len() == 0 {
        true
    } else if b.len() == 0 {
        false
    } else if a[0] != b[0] {
        a[0] < b[0]
    } else {
        chars_le(a.drop_first(), b.drop_first())
    }
}

pub proof fn lemma_chars_le_total(a: Seq<char>, b: Seq<char>)
    ensures
        chars_le(a, b) || chars_le(b, a),
    decreases a.len(),
{
    if a.len() > 0 && b.len() > 0 && a[0] == b[0] {
        lemma_chars_le_total(a.drop_first(), b.drop_first());
    }
}

pub proof fn lemma_chars_le_antisym(a: Seq<char>, b: Seq<char>)
    requires
        chars_le(a, b),
        chars_le(b, a),
    ensures
        a == b,
    decreases a.len(),
{
    if a.len() > 0 && b.len() > 0 && a[0] == b[0] {
        lemma_chars_le_antisym(a.drop_first(), b.drop_first());
        assert(a.drop_first() == b.drop_first());
        assert(a.drop_first().len() == b.drop_first().len());
        assert(a.len() == a.drop_first().len() + 1);
        assert(a.len() == b.len());
        assert forall|i: int| 0 <= i < a.len() implies a[i] == b[i] by {
            if i > 0 {
                assert(a.drop_first()[i - 1] == b.drop_first()[i - 1]);
            }
        }
        assert(a =~= b);
    } else {
        assert(a =~= b);
    }
}

pub proof fn lemma_chars_le_trans(a: Seq<char>, b: Seq<char>, c: Seq<char>)
    requires
        chars_le(a, b),
        chars_le(b, c),
    ensures
        chars_le(a, c),
    decreases a.len(),
{
    if a.len() > 0 && b.len() > 0 && c.len() > 0 && a[0] == b[0] && b[0] == c[0] {
        lemma_chars_le_trans(a.drop_first(), b.drop_first(), c.drop_first());
    }
}

/// The column's own non-strict order.  Name comparisons run in reverse,
/// so that the descending direction yields the conventional A-to-Z
/// listing; this inversion is intentional and preserved.
pub open spec fn column_le(col: Column, a: Stream, b: Stream) -> bool {
    match col {
        Column::Viewers => a.viewer_count <= b.viewer_count,
        Column::Uptime => a.uptime <= b.uptime,
        Column::Name => chars_le(b.user_name@, a.user_name@),
    }
}

/// The order the requested option induces: the column order, reversed
/// when the direction is descending; no option sorts by viewer count
/// ascending.
pub open spec fn option_le(option: Option<SortAction>, a: Stream, b: Stream) -> bool {
    match option {
        None => a.viewer_count <= b.viewer_count,
        Some(sa) => match sa.direction {
            Direction::Ascending => column_le(sa.column, a, b),
            Direction::Descending => column_le(sa.column, b, a),
        },
    }
}

/// Law: sorting by name in the descending direction orders broadcasts by
/// name ascending, A to Z, because of the reversed name comparator.
pub proof fn lemma_name_descending_is_alphabetical(a: Stream, b: Stream)
    ensures
        option_le(
            Some(SortAction { column: Column::Name, direction: Direction::Descending }),
            a,
            b,
        ) == chars_le(a.user_name@, b.user_name@),
{
}

/// The complete order the finisher establishes: the option's order,
/// with ties broken by identity so that the result is unique.
pub open spec fn stream_le(option: Option<SortAction>, a: Stream, b: Stream) -> bool {
    if option_le(option, a, b) && option_le(option, b, a) {
        chars_le(a.user_id@, b.user_id@)
    } else {
        option_le(option, a, b)
    }
}

pub proof fn lemma_option_le_total(option: Option<SortAction>, a: Stream, b: Stream)
    ensures
        option_le(option, a, b) || option_le(option, b, a),
{
    lemma_chars_le_total(a.user_name@, b.user_name@);
}

pub proof fn lemma_option_le_trans(option: Option<SortAction>, a: Stream, b: Stream, c: Stream)
    requires
        option_le(option, a, b),
        option_le(option, b, c),
    ensures
        option_le(option, a, c),
{
    match option {
        None => {},
        Some(sa) => {
            if sa.column is Name {
                match sa.direction {
                    Direction::Ascending => {
                        lemma_chars_le_trans(c.user_name@, b.user_name@, a.user_name@);
                    },
                    Direction::Descending => {
                        lemma_chars_le_trans(a.user_name@, b.user_name@, c.user_name@);
                    },
                }
            }
        },
    }
}

pub proof fn lemma_stream_le_total(option: Option<SortAction>, a: Stream, b: Stream)
    ensures
        stream_le(option, a, b) || stream_le(option, b, a),
{
    lemma_option_le_total(option, a, b);
    lemma_chars_le_total(a.user_id@, b.user_id@);
}

pub proof fn lemma_stream_le_trans(option: Option<SortAction>, a: Stream, b: Stream, c: Stream)
    requires
        stream_le(option, a, b),
        stream_le(option, b, c),
    ensures
        stream_le(option, a, c),
{
    lemma_option_le_total(option, a, b);
    lemma_option_le_total(option, b, c);
    lemma_option_le_total(option, a, c);
    if option_le(option, a, b) && option_le(option, b, a) && option_le(option, b, c)
        && option_le(option, c, b) {
        lemma_option_le_trans(option, a, b, c);
        lemma_option_le_trans(option, c, b, a);
        lemma_chars_le_trans(a.user_id@, b.user_id@, c.user_id@);
    } else {
        if option_le(option, a, b) && option_le(option, b, c) {
            lemma_option_le_trans(option, a, b, c);
        }
        if option_le(option, c, a) {
            if option_le(option, a, b) {
                lemma_option_le_trans(option, c, a, b);
            }
            if option_le(option, b, c) {
                lemma_option_le_trans(option, b, c, a);
            }
        }
    }
}

/// Ties under `stream_le` both ways force equal identities.
pub proof fn lemma_stream_le_ties(option: Option<SortAction>, a: Stream, b: Stream)
    requires
        stream_le(option, a, b),
        stream_le(option, b, a),
    ensures
        a.user_id@ == b.user_id@,
{
    lemma_option_le_total(option, a, b);
    lemma_chars_le_antisym(a.user_id@, b.user_id@);
}

/// Pairwise distinct identities.
pub open spec fn unique_ids(s: Seq<Stream>) -> bool {
    forall|i: int, j: int| 0 <= i < j < s.len() ==> s[i].user_id@ != s[j].user_id@
}

/// Some broadcast in the sequence carries this identity.
pub open spec fn has_id(s: Seq<Stream>, id: Seq<char>) -> bool {
    exists|k: int| 0 <= k < s.len() && s[k].user_id@ == id
}

/// The sequence with every broadcast dropped whose identity appeared
/// earlier: the first broadcast of each identity survives.
pub open spec fn dedup_first(s: Seq<Stream>) -> Seq<Stream>
    decreases s.len(),
{
    if s.len() == 0 {
        Seq::empty()
    } else if has_id(s.drop_last(), s.last().user_id@) {
        dedup_first(s.drop_last())
    } else {
        dedup_first(s.drop_last()).push(s.last())
    }
}

pub proof fn lemma_dedup_first_ids(s: Seq<Stream>)
    ensures
        forall|id: Seq<char>| has_id(dedup_first(s), id) <==> has_id(s, id),
    decreases s.len(),
{
    if s.len() > 0 {
        lemma_dedup_first_ids(s.drop_last());
        let prev = dedup_first(s.drop_last());
        assert forall|id: Seq<char>| has_id(dedup_first(s), id) <==> has_id(s, id) by {
            if has_id(dedup_first(s), id) {
                let k = choose|k: int|
                    0 <= k < dedup_first(s).len() && dedup_first(s)[k].user_id@ == id;
                if has_id(s.drop_last(), s.last().user_id@) {
                    assert(has_id(s.drop_last(), id));
                    let m = choose|m: int|
                        0 <= m < s.drop_last().len() && s.drop_last()[m].user_id@ == id;
                    assert(s[m].user_id@ == id);
                } else {
                    if k < prev.len() {
                        assert(prev[k].user_id@ == id);
                        assert(has_id(s.drop_last(), id));
                        let m = choose|m: int|
                            0 <= m < s.drop_last().len() && s.drop_last()[m].user_id@ == id;
                        assert(s[m].user_id@ == id);
                    } else {
                        assert(s[s.len() - 1].user_id@ == id);
                    }
                }
            }
            if has_id(s, id) {
                let k = choose|k: int| 0 <= k < s.len() && s[k].user_id@ == id;
                if k < s.len() - 1 {
                    assert(s.drop_last()[k].user_id@ == id);
                    assert(has_id(s.drop_last(), id));
                    assert(has_id(prev, id));
                    let m = choose|m: int| 0 <= m < prev.len() && prev[m].user_id@ == id;
                    if !has_id(s.drop_last(), s.last().user_id@) {
                        assert(prev.push(s.last())[m].user_id@ == id);
                    }
                } else {
                    if has_id(s.drop_last(), s.last().user_id@) {
                        assert(has_id(s.drop_last(), id));
                        assert(has_id(prev, id));
                        let m = choose|m: int| 0 <= m < prev.len() && prev[m].user_id@ == id;
                        assert(dedup_first(s)[m].user_id@ == id);
                    } else {
                        let p = prev.push(s.last());
                        assert(p[p.len() - 1].user_id@ == id);
                    }
                }
            }
        }
    }
}

pub proof fn lemma_dedup_first_unique(s: Seq<Stream>)
    ensures
        unique_ids(dedup_first(s)),
    decreases s.len(),
{
    if s.len() > 0 {
        lemma_dedup_first_unique(s.drop_last());
        let prev = dedup_first(s.drop_last());
        if !has_id(s.drop_last(), s.last().user_id@) {
            lemma_dedup_first_ids(s.drop_last());
            assert(!has_id(prev, s.last().user_id@));
            let p = prev.push(s.last());
            assert forall|i: int, j: int| 0 <= i < j < p.len() implies p[i].user_id@
                != p[j].user_id@ by {
                if j == p.len() - 1 {
                    assert(p[i] == prev[i]);
                    if p[i].user_id@ == s.last().user_id@ {
                        assert(has_id(prev, s.last().user_id@));
                    }
                } else {
                    assert(p[i] == prev[i] && p[j] == prev[j]);
                }
            }
        }
    }
}

/// A sequence whose identities are already unique dedups to itself.
pub proof fn lemma_dedup_unique_identity(s: Seq<Stream>)
    requires
        unique_ids(s),
    ensures
        dedup_first(s) == s,
    decreases s.len(),
{
    if s.len() > 0 {
        assert(unique_ids(s.drop_last()));
        lemma_dedup_unique_identity(s.drop_last());
        if has_id(s.drop_last(), s.last().user_id@) {
            let k = choose|k: int|
                0 <= k < s.drop_last().len() && s.drop_last()[k].user_id@ == s.last().user_id@;
            assert(s[k].user_id@ == s[s.len() - 1].user_id@);
            assert(false);
        }
        assert(dedup_first(s) =~= s);
    }
}

/// Sorted under the finisher's complete order.
pub open spec fn stream_sorted(option: Option<SortAction>, s: Seq<Stream>) -> bool {
    forall|i: int, j: int| 0 <= i < j < s.len() ==> stream_le(option, s[i], s[j])
}

/// Everything the finisher promises of its output for a given input.
pub open spec fn finished(
    option: Option<SortAction>,
    input: Seq<Stream>,
    out: Seq<Stream>,
) -> bool {
    &&& out.to_multiset() == dedup_first(input).to_multiset()
    &&& stream_sorted(option, out)
    &&& unique_ids(out)
}

/// Law: the finisher's contract pins its output down completely — two
/// sequences that both finish the same input are equal.
pub proof fn lemma_finisher_deterministic(
    option: Option<SortAction>,
    input: Seq<Stream>,
    o1: Seq<Stream>,
    o2: Seq<Stream>,
)
    requires
        finished(option, input, o1),
        finished(option, input, o2),
    ensures
        o1 == o2,
{
    lemma_sorted_unique_ids_equal(option, o1, o2);
}

/// Law: running the finisher on its own output returns that output
/// unchanged — deduplication and sorting are idempotent.
pub proof fn lemma_finisher_idempotent(
    option: Option<SortAction>,
    input: Seq<Stream>,
    once: Seq<Stream>,
    twice: Seq<Stream>,
)
    requires
        finished(option, input, once),
        finished(option, once, twice),
    ensures
        twice == once,
{
    lemma_dedup_unique_identity(once);
    lemma_sorted_unique_ids_equal(option, twice, once);
}

/// Decides `stream_le` on two broadcasts.
fn stream_le_exec(option: Option<SortAction>, a: &Stream, b: &Stream) -> (r: bool)
    ensures
        r == stream_le(option, *a, *b),
{
    let ab = option_le_exec(option, a, b);
    let ba = option_le_exec(option, b, a);
    if ab && ba {
        str_le_exec(a.user_id.as_str(), b.user_id.as_str())
    } else {
        ab
    }
}

/// Decides `option_le` on two broadcasts.
fn option_le_exec(option: Option<SortAction>, a: &Stream, b: &Stream) -> (r: bool)
    ensures
        r == option_le(option, *a, *b),
{
    match option {
        None => a.viewer_count <= b.viewer_count,
        Some(sa) => {
            let (x, y) = match sa.direction {
                Direction::Ascending => (a, b),
                Direction::Descending => (b, a),
            };
            match sa.column {
                Column::Viewers => x.viewer_count <= y.viewer_count,
                Column::Uptime => x.uptime <= y.uptime,
                Column::Name => str_le_exec(y.user_name.as_str(), x.user_name.as_str()),
            }
        },
    }
}

/// Decides the lexicographic order on two strings.
fn str_le_exec(a: &str, b: &str) -> (r: bool)
    ensures
        r == chars_le(a@, b@),
{
    let an = a.unicode_len();
    let bn = b.unicode_len();
    let min = if an < bn {
        an
    } else {
        bn
    };
    let mut i: usize = 0;
    proof {
        assert(a@.skip(0) =~= a@);
        assert(b@.skip(0) =~= b@);
    }
    while i < min
        invariant
            an == a@.len(),
            bn == b@.len(),
            min == if an < bn {
                an
            } else {
                bn
            },
            i <= min,
            chars_le(a@, b@) == chars_le(a@.skip(i as int), b@.skip(i as int)),
            chars_le(b@, a@) == chars_le(b@.skip(i as int), a@.skip(i as int)),
        decreases min - i,
    {
        let ca = a.get_char(i);
        let cb = b.get_char(i);
        if ca != cb {
            proof {
                assert(a@.skip(i as int)[0] == ca && b@.skip(i as int)[0] == cb);
            }
            return ca < cb;
        }
        proof {
            assert(a@.skip(i as int).drop_first() =~= a@.skip(i + 1));
            assert(b@.skip(i as int).drop_first() =~= b@.skip(i + 1));
            assert(a@.skip(i as int)[0] == b@.skip(i as int)[0]);
        }
        i += 1;
    }
    proof {
        if an <= bn {
            assert(a@.skip(i as int).len() == 0);
        } else {
            assert(b@.skip(i as int).len() == 0 && a@.skip(i as int).len() > 0);
        }
    }
    an <= bn
}

/// Whether some kept broadcast already carries this identity.
fn contains_id(v: &Vec<Stream>, id: &str) -> (r: bool)
    ensures
        r == has_id(v@, id@),
{
    let n = v.len();
    let mut i: usize = 0;
    while i < n
        invariant
            n == v@.len(),
            i <= n,
            forall|j: int| 0 <= j < i ==> v@[j].user_id@ != id@,
        decreases n - i,
    {
        if text::str_eq(v[i].user_id.as_str(), id) {
            return true;
        }
        i += 1;
    }
    false
}

/// The finishing pass: drops every broadcast whose identity appeared
/// earlier in the list, then sorts what is left by the requested column
/// and direction, ties resolved by identity.
pub fn sort_streams(streams: &mut Vec<Stream>, option: Option<SortAction>)
    ensures
        finished(option, old(streams)@, final(streams)@),
{
    broadcast use vstd::seq_lib::group_to_multiset_ensures, vstd::seq_lib::to_multiset_insert;

    let ghost orig = streams@;
    let mut kept: Vec<Stream> = Vec::new();
    let ghost mut done: int = 0;
    while streams.len() > 0
        invariant
            0 <= done <= orig.len(),
            streams@ == orig.skip(done),
            kept@ == dedup_first(orig.take(done)),
        decreases streams@.len(),
    {
        let x = streams.remove(0);
        proof {
            broadcast use vstd::seq_lib::group_to_multiset_ensures;

            assert(orig.skip(done)[0] == orig[done]);
            assert(orig.skip(done).remove(0) =~= orig.skip(done + 1));
        }
        let dup = contains_id(&kept, x.user_id.as_str());
        proof {
            lemma_dedup_first_ids(orig.take(done));
            assert(orig.take(done + 1).drop_last() =~= orig.take(done));
            assert(orig.take(done + 1).last() == orig[done]);
        }
        if !dup {
            kept.push(x);
        }
        proof {
            done = done + 1;
        }
    }
    proof {
        assert(orig.take(orig.len() as int) =~= orig);
        lemma_dedup_first_unique(orig);
    }
    let ghost deduped = kept@;
    let mut si: usize = 1;
    while si < kept.len()
        invariant
            kept@.len() == deduped.len(),
            kept@.to_multiset() == deduped.to_multiset(),
            unique_ids(kept@),
            si >= 1,
            forall|p: int, q: int| 0 <= p < q < si && q < kept@.len() ==> stream_le(
                option,
                kept@[p],
                kept@[q],
            ),
        decreases kept@.len() - si,
    {
        let ghost before = kept@;
        let mut j: usize = si;
        while j > 0 && !stream_le_exec(option, &kept[j - 1], &kept[si])
            invariant
                kept@ == before,
                si < kept@.len(),
                j <= si,
                forall|k: int| j <= k < si ==> !stream_le(option, kept@[k], kept@[si as int]),
            decreases j,
        {
            j -= 1;
        }
        let x = kept.remove(si);
        kept.insert(j, x);
        proof {
            broadcast use vstd::seq_lib::group_to_multiset_ensures;

            let after = kept@;
            assert(after == before.remove(si as int).insert(j as int, x));
            assert(before[si as int] == x);
            assert(before.contains(x));
            assert(before.to_multiset().count(x) > 0);
            vstd::seq_lib::to_multiset_remove(before, si as int);
            vstd::seq_lib::to_multiset_insert(before.remove(si as int), j as int, x);
            assert(after.to_multiset() == before.to_multiset().remove(x).insert(x));
            assert(after.to_multiset() =~= before.to_multiset());
            assert forall|k: int| 0 <= k < after.len() implies after[k] == (if k < j {
                before[k]
            } else if k == j {
                x
            } else if k <= si {
                before[k - 1]
            } else {
                before[k]
            }) by {}
            assert forall|k: int| j <= k < si implies stream_le(option, x, before[k]) by {
                lemma_stream_le_total(option, before[k], x);
            }
            assert forall|p: int| 0 <= p < j implies stream_le(option, before[p], x) by {
                if p < j - 1 {
                    lemma_stream_le_trans(option, before[p], before[j - 1], x);
                }
            }
            assert forall|p: int, q: int| 0 <= p < q < si + 1 && q < after.len()
                implies stream_le(option, after[p], after[q]) by {}
            assert forall|p: int, q: int| 0 <= p < q < after.len() implies after[p].user_id@
                != after[q].user_id@ by {}
        }
        si += 1;
    }
    proof {
        if deduped.len() == 0 {
            assert(kept@ =~= deduped);
        }
    }
    *streams = kept;
}

proof fn lemma_sorted_unique_ids_equal(option: Option<SortAction>, s1: Seq<Stream>, s2: Seq<Stream>)
    requires
        s1.to_multiset() == s2.to_multiset(),
        stream_sorted(option, s1),
        stream_sorted(option, s2),
        unique_ids(s1),
        unique_ids(s2),
    ensures
        s1 == s2,
    decreases s1.len(),
{
    broadcast use vstd::seq_lib::group_to_multiset_ensures;

    assert(s1.len() == s1.to_multiset().len());
    assert(s2.len() == s2.to_multiset().len());
    assert(s1.len() == s2.len());
    if s1.len() == 0 {
        assert(s1 =~= s2);
    } else {
        let x1 = s1[0];
        let x2 = s2[0];
        assert(s2.contains(x2));
        assert(s1.to_multiset().count(x2) > 0);
        assert(s1.contains(x2));
        let k = choose|k: int| 0 <= k < s1.len() && s1[k] == x2;
        assert(s2.to_multiset().count(x1) > 0);
        assert(s2.contains(x1));
        let m = choose|m: int| 0 <= m < s2.len() && s2[m] == x1;
        lemma_stream_le_total(option, x1, x2);
        if k > 0 {
            assert(stream_le(option, x1, x2));
        }
        if m > 0 {
            assert(stream_le(option, x2, x1));
        }
        if k == 0 || m == 0 {
            assert(x1 == x2);
        } else {
            lemma_stream_le_ties(option, x1, x2);
            assert(s1[0].user_id@ == s1[k].user_id@);
            assert(x1 == x2);
        }
        let t1 = s1.drop_first();
        let t2 = s2.drop_first();
        assert(s1.remove(0) =~= t1);
        assert(s2.remove(0) =~= t2);
        assert(s1.remove(0).to_multiset() == s1.to_multiset().remove(x1));
        assert(s2.remove(0).to_multiset() == s2.to_multiset().remove(x2));
        assert(t1.to_multiset() == s1.to_multiset().remove(x1));
        assert(t2.to_multiset() == s2.to_multiset().remove(x2));
        assert(t1.to_multiset() == t2.to_multiset());
        assert forall|i: int, j: int| 0 <= i < j < t1.len() implies stream_le(
            option,
            t1[i],
            t1[j],
        ) && t1[i].user_id@ != t1[j].user_id@ by {
            assert(t1[i] == s1[i + 1] && t1[j] == s1[j + 1]);
        }
        assert forall|i: int, j: int| 0 <= i < j < t2.len() implies stream_le(
            option,
            t2[i],
            t2[j],
        ) && t2[i].user_id@ != t2[j].user_id@ by {
            assert(t2[i] == s2[i + 1] && t2[j] == s2[j + 1]);
        }
        lemma_sorted_unique_ids_equal(option, t1, t2);
        assert forall|i: int| 0 <= i < s1.len() implies s1[i] == s2[i] by {
            if i > 0 {
                assert(t1[i - 1] == t2[i - 1]);
            }
        }
        assert(s1 =~= s2);
    }
}

} // verus!
