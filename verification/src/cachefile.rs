//! The durable tag-cache document: one JSON object whose single member
//! maps tag ids to display labels.  Encoding is canonical; parsing
//! accepts the usual JSON spellings of the same document, and a caller
//! treats an unreadable document as an empty cache.

use vstd::prelude::*;

use crate::tags::TagCache;

verus! {

/// The whitespace JSON allows between tokens.
pub open spec fn json_ws(c: char) -> bool {
    c == ' ' || c == '\t' || c == '\n' || c == '\r'
}

/// The input without its leading JSON whitespace.
pub open spec fn trim_ws(s: Seq<char>) -> Seq<char>
    decreases s.len(),
{
    if s.len() > 0 && json_ws(s[0]) {
        trim_ws(s.drop_first())
    } else {
        s
    }
}

/// The lower-case hex digit for a value below sixteen.
pub open spec fn hex_digit_char(d: nat) -> char {
    if d == 0 {
        '0'
    } else if d == 1 {
        '1'
    } else if d == 2 {
        '2'
    } else if d == 3 {
        '3'
    } else if d == 4 {
        '4'
    } else if d == 5 {
        '5'
    } else if d == 6 {
        '6'
    } else if d == 7 {
        '7'
    } else if d == 8 {
        '8'
    } else if d == 9 {
        '9'
    } else if d == 10 {
        'a'
    } else if d == 11 {
        'b'
    } else if d == 12 {
        'c'
    } else if d == 13 {
        'd'
    } else if d == 14 {
        'e'
    } else {
        'f'
    }
}

/// The value of one hex digit, upper or lower case.
pub open spec fn hex_val(c: char) -> Option<int> {
    if '0' <= c && c <= '9' {
        Some((c as u32) - 48)
    } else if 'a' <= c && c <= 'f' {
        Some((c as u32) - 87)
    } else if 'A' <= c && c <= 'F' {
        Some((c as u32) - 55)
    } else {
        None
    }
}

/// How one character is written inside a JSON string: the two
/// characters that need escaping, the five short escapes, a `\u`
/// escape for the remaining control characters, and the character
/// itself for everything else.
pub open spec fn escape_char(c: char) -> Seq<char> {
    if c == '"' {
        seq!['\\', '"']
    } else if c == '\\' {
        seq!['\\', '\\']
    } else if c == '\u{8}' {
        seq!['\\', 'b']
    } else if c == '\u{c}' {
        seq!['\\', 'f']
    } else if c == '\n' {
        seq!['\\', 'n']
    } else if c == '\r' {
        seq!['\\', 'r']
    } else if c == '\t' {
        seq!['\\', 't']
    } else if (c as u32) < 32 {
        seq!['\\', 'u', '0', '0', hex_digit_char(((c as u32) / 16) as nat), hex_digit_char(
            ((c as u32) % 16) as nat,
        )]
    } else {
        seq![c]
    }
}

/// A string's characters as they are written, escapes applied.
pub open spec fn escape_str(s: Seq<char>) -> Seq<char>
    decreases s.len(),
{
    if s.len() == 0 {
        Seq::empty()
    } else {
        escape_char(s[0]) + escape_str(s.drop_first())
    }
}

/// A string as written: quoted and escaped.
pub open spec fn quoted(s: Seq<char>) -> Seq<char> {
    seq!['"'] + escape_str(s) + seq!['"']
}

/// One written member: key, colon, value.
pub open spec fn member_text(k: Seq<char>, v: Seq<char>) -> Seq<char> {
    quoted(k) + seq![':'] + quoted(v)
}

/// The members after the first, each preceded by a comma.
pub open spec fn rest_members_text(entries: Seq<(String, String)>) -> Seq<char>
    decreases entries.len(),
{
    if entries.len() == 0 {
        Seq::empty()
    } else {
        seq![','] + member_text(entries[0].0@, entries[0].1@) + rest_members_text(
            entries.drop_first(),
        )
    }
}

/// All written members, comma separated.
pub open spec fn members_text(entries: Seq<(String, String)>) -> Seq<char> {
    if entries.len() == 0 {
        Seq::empty()
    } else {
        member_text(entries[0].0@, entries[0].1@) + rest_members_text(entries.drop_first())
    }
}

/// The whole document the cache is persisted as.
pub open spec fn cache_document(entries: Seq<(String, String)>) -> Seq<char> {
    seq!['{'] + quoted("cache"@) + seq![':', '{'] + members_text(entries) + seq!['}', '}']
}

/// What one simple escape character stands for; `None` refuses the
/// escape.
pub open spec fn unescaped(c: char) -> Option<char> {
    if c == '"' {
        Some('"')
    } else if c == '\\' {
        Some('\\')
    } else if c == '/' {
        Some('/')
    } else if c == 'b' {
        Some('\u{8}')
    } else if c == 'f' {
        Some('\u{c}')
    } else if c == 'n' {
        Some('\n')
    } else if c == 'r' {
        Some('\r')
    } else if c == 't' {
        Some('\t')
    } else {
        None
    }
}

/// Reads a string body up to its closing quote, starting just after the
/// opening quote; yields the decoded characters and what follows the
/// string.  A `\u` escape is read when it names a code point below 256;
/// anything else JSON would refuse is refused here too.
pub open spec fn parse_str_body(s: Seq<char>) -> Option<(Seq<char>, Seq<char>)>
    decreases s.len(),
{
    if s.len() == 0 {
        None
    } else if s[0] == '"' {
        Some((Seq::empty(), s.drop_first()))
    } else if s[0] == '\\' {
        if s.len() < 2 {
            None
        } else if s[1] == 'u' {
            if s.len() < 6 {
                None
            } else {
                match (hex_val(s[2]), hex_val(s[3]), hex_val(s[4]), hex_val(s[5])) {
                    (Some(a), Some(b), Some(c), Some(d)) => {
                        let code = a * 4096 + b * 256 + c * 16 + d;
                        if code < 256 {
                            match parse_str_body(s.skip(6)) {
                                Some((t, rest)) => Some((seq![(code as u8) as char] + t, rest)),
                                None => None,
                            }
                        } else {
                            None
                        }
                    },
                    _ => None,
                }
            }
        } else {
            match unescaped(s[1]) {
                Some(c) => match parse_str_body(s.skip(2)) {
                    Some((t, rest)) => Some((seq![c] + t, rest)),
                    None => None,
                },
                None => None,
            }
        }
    } else if (s[0] as u32) < 32 {
        None
    } else {
        match parse_str_body(s.drop_first()) {
            Some((t, rest)) => Some((seq![s[0]] + t, rest)),
            None => None,
        }
    }
}

pub proof fn lemma_parse_str_body_consumes(s: Seq<char>)
    ensures
        parse_str_body(s) matches Some(p) ==> p.1.len() < s.len(),
    decreases s.len(),
{
    if s.len() > 0 && s[0] != '"' {
        if s[0] == '\\' && s.len() >= 2 && s[1] == 'u' && s.len() >= 6 {
            lemma_parse_str_body_consumes(s.skip(6));
        } else if s[0] == '\\' && s.len() >= 2 {
            lemma_parse_str_body_consumes(s.skip(2));
        } else {
            lemma_parse_str_body_consumes(s.drop_first());
        }
    }
}

/// Reads a quoted string after optional whitespace.
pub open spec fn parse_quoted(s: Seq<char>) -> Option<(Seq<char>, Seq<char>)> {
    let t = trim_ws(s);
    if t.len() > 0 && t[0] == '"' {
        parse_str_body(t.drop_first())
    } else {
        None
    }
}

pub proof fn lemma_trim_ws_len(s: Seq<char>)
    ensures
        trim_ws(s).len() <= s.len(),
    decreases s.len(),
{
    if s.len() > 0 && json_ws(s[0]) {
        lemma_trim_ws_len(s.drop_first());
    }
}

pub proof fn lemma_parse_quoted_consumes(s: Seq<char>)
    ensures
        parse_quoted(s) matches Some(p) ==> p.1.len() < s.len(),
{
    lemma_trim_ws_len(s);
    let t = trim_ws(s);
    if t.len() > 0 && t[0] == '"' {
        lemma_parse_str_body_consumes(t.drop_first());
    }
}

/// Reads one `key: value` member, both strings.
pub open spec fn parse_member(s: Seq<char>) -> Option<((Seq<char>, Seq<char>), Seq<char>)> {
    match parse_quoted(s) {
        Some((k, rest)) => {
            let r = trim_ws(rest);
            if r.len() > 0 && r[0] == ':' {
                match parse_quoted(r.drop_first()) {
                    Some((v, rest2)) => Some(((k, v), rest2)),
                    None => None,
                }
            } else {
                None
            }
        },
        None => None,
    }
}

pub proof fn lemma_parse_member_consumes(s: Seq<char>)
    ensures
        parse_member(s) matches Some(p) ==> p.1.len() < s.len(),
{
    lemma_parse_quoted_consumes(s);
    match parse_quoted(s) {
        Some((k, rest)) => {
            lemma_trim_ws_len(rest);
            let r = trim_ws(rest);
            if r.len() > 0 && r[0] == ':' {
                lemma_parse_quoted_consumes(r.drop_first());
            }
        },
        None => {},
    }
}

/// Reads the members of an object, positioned just after its opening
/// brace, through the closing brace.  `first` says whether a bare
/// closing brace (an empty object) is still allowed.
pub open spec fn parse_members(s: Seq<char>, first: bool) -> Option<
    (Seq<(Seq<char>, Seq<char>)>, Seq<char>),
>
    decreases s.len(),
        via parse_members_decreases
{
    let t = trim_ws(s);
    if first && t.len() > 0 && t[0] == '}' {
        Some((Seq::empty(), t.drop_first()))
    } else {
        match parse_member(s) {
            Some((kv, rest)) => {
                let r = trim_ws(rest);
                if r.len() > 0 && r[0] == '}' {
                    Some((seq![kv], r.drop_first()))
                } else if r.len() > 0 && r[0] == ',' {
                    match parse_members(r.drop_first(), false) {
                        Some((more, rest2)) => Some((seq![kv] + more, rest2)),
                        None => None,
                    }
                } else {
                    None
                }
            },
            None => None,
        }
    }
}

#[via_fn]
proof fn parse_members_decreases(s: Seq<char>, first: bool) {
    lemma_parse_member_consumes(s);
    match parse_member(s) {
        Some((kv, rest)) => {
            lemma_trim_ws_len(rest);
        },
        None => {},
    }
}

/// Reads the whole cache document: an object with the single member
/// `cache`, itself an object of string members, and nothing after it.
pub open spec fn parse_document(s: Seq<char>) -> Option<Seq<(Seq<char>, Seq<char>)>> {
    let t = trim_ws(s);
    if t.len() > 0 && t[0] == '{' {
        match parse_quoted(t.drop_first()) {
            Some((key, rest)) => {
                if key == "cache"@ {
                    let r = trim_ws(rest);
                    if r.len() > 0 && r[0] == ':' {
                        let r2 = trim_ws(r.drop_first());
                        if r2.len() > 0 && r2[0] == '{' {
                            match parse_members(r2.drop_first(), true) {
                                Some((entries, rest3)) => {
                                    let r4 = trim_ws(rest3);
                                    if r4.len() > 0 && r4[0] == '}' && trim_ws(
                                        r4.drop_first(),
                                    ).len() == 0 {
                                        Some(entries)
                                    } else {
                                        None
                                    }
                                },
                                None => None,
                            }
                        } else {
                            None
                        }
                    } else {
                        None
                    }
                } else {
                    None
                }
            },
            None => None,
        }
    } else {
        None
    }
}

/// The views of a pair list's strings.
pub open spec fn pair_views(v: Seq<(String, String)>) -> Seq<(Seq<char>, Seq<char>)> {
    v.map_values(|p: (String, String)| (p.0@, p.1@))
}

/// The mapping a list of view pairs denotes, a later pair winning.
pub open spec fn map_of_view_pairs(s: Seq<(Seq<char>, Seq<char>)>) -> Map<Seq<char>, Seq<char>>
    decreases s.len(),
{
    if s.len() == 0 {
        Map::empty()
    } else {
        map_of_view_pairs(s.drop_last()).insert(s.last().0, s.last().1)
    }
}

pub proof fn lemma_map_of_pairs_views(v: Seq<(String, String)>)
    ensures
        crate::tags::map_of_pairs(v) == map_of_view_pairs(pair_views(v)),
    decreases v.len(),
{
    if v.len() > 0 {
        lemma_map_of_pairs_views(v.drop_last());
        assert(pair_views(v).drop_last() =~= pair_views(v.drop_last()));
        assert(crate::tags::map_of_pairs(v) =~= map_of_view_pairs(pair_views(v)));
    }
}

/// The mapping a whole document denotes; an unreadable document reads
/// as the empty cache.
pub open spec fn document_map(s: Seq<char>) -> Map<Seq<char>, Seq<char>> {
    match parse_document(s) {
        Some(entries) => map_of_view_pairs(entries),
        None => Map::empty(),
    }
}

/// The lower-case hex digit of a value below sixteen.
fn hex_digit(d: u32) -> (r: char)
    requires
        d < 16,
    ensures
        r == hex_digit_char(d as nat),
{
    match d {
        0 => '0',
        1 => '1',
        2 => '2',
        3 => '3',
        4 => '4',
        5 => '5',
        6 => '6',
        7 => '7',
        8 => '8',
        9 => '9',
        10 => 'a',
        11 => 'b',
        12 => 'c',
        13 => 'd',
        14 => 'e',
        _ => 'f',
    }
}

/// Appends one string's characters, escapes applied.
#[verifier::loop_isolation(false)]
fn write_escaped(out: &mut String, s: &str)
    ensures
        final(out)@ == old(out)@ + escape_str(s@),
{
    let n = s.unicode_len();
    let mut i: usize = 0;
    proof {
        assert(s@.skip(0) =~= s@);
    }
    while i < n
        invariant
            i <= n,
            out@ + escape_str(s@.skip(i as int)) == old(out)@ + escape_str(s@),
        decreases n - i,
    {
        let c = s.get_char(i);
        proof {
            assert(s@.skip(i as int)[0] == c);
            assert(s@.skip(i as int).drop_first() =~= s@.skip(i + 1));
        }
        if c == '"' {
            crate::text::push_char(out, '\\');
            crate::text::push_char(out, '"');
        } else if c == '\\' {
            crate::text::push_char(out, '\\');
            crate::text::push_char(out, '\\');
        } else if c == '\u{8}' {
            crate::text::push_char(out, '\\');
            crate::text::push_char(out, 'b');
        } else if c == '\u{c}' {
            crate::text::push_char(out, '\\');
            crate::text::push_char(out, 'f');
        } else if c == '\n' {
            crate::text::push_char(out, '\\');
            crate::text::push_char(out, 'n');
        } else if c == '\r' {
            crate::text::push_char(out, '\\');
            crate::text::push_char(out, 'r');
        } else if c == '\t' {
            crate::text::push_char(out, '\\');
            crate::text::push_char(out, 't');
        } else if (c as u32) < 32 {
            crate::text::push_char(out, '\\');
            crate::text::push_char(out, 'u');
            crate::text::push_char(out, '0');
            crate::text::push_char(out, '0');
            crate::text::push_char(out, hex_digit((c as u32) / 16));
            crate::text::push_char(out, hex_digit((c as u32) % 16));
        } else {
            crate::text::push_char(out, c);
        }
        proof {
            assert(out@ + escape_str(s@.skip(i + 1)) =~= old(out)@ + escape_str(s@));
        }
        i += 1;
    }
    proof {
        assert(escape_str(s@.skip(n as int)) =~= Seq::<char>::empty());
        assert(final(out)@ =~= old(out)@ + escape_str(s@));
    }
}

/// Appends one string as written: quoted and escaped.
fn write_quoted(out: &mut String, s: &str)
    ensures
        final(out)@ == old(out)@ + quoted(s@),
{
    crate::text::push_char(out, '"');
    write_escaped(out, s);
    crate::text::push_char(out, '"');
    proof {
        assert(final(out)@ =~= old(out)@ + quoted(s@));
    }
}

/// Appends the members after position `i`, each preceded by a comma.
fn write_rest_members(out: &mut String, entries: &Vec<(String, String)>, i: usize)
    requires
        i <= entries@.len(),
    ensures
        final(out)@ == old(out)@ + rest_members_text(entries@.skip(i as int)),
    decreases entries@.len() - i,
{
    if i == entries.len() {
        proof {
            assert(final(out)@ =~= old(out)@ + rest_members_text(entries@.skip(i as int)));
        }
    } else {
        crate::text::push_char(out, ',');
        write_quoted(out, entries[i].0.as_str());
        crate::text::push_char(out, ':');
        write_quoted(out, entries[i].1.as_str());
        write_rest_members(out, entries, i + 1);
        proof {
            assert(entries@.skip(i as int)[0] == entries@[i as int]);
            assert(entries@.skip(i as int).drop_first() =~= entries@.skip(i + 1));
            assert(final(out)@ =~= old(out)@ + rest_members_text(entries@.skip(i as int)));
        }
    }
}

impl TagCache {
    /// Writes the cache as its durable JSON document.
    pub fn to_json(&self) -> (r: String)
        ensures
            r@ == cache_document(self.cache@),
    {
        let mut out = String::new();
        crate::text::push_char(&mut out, '{');
        write_quoted(&mut out, "cache");
        crate::text::push_char(&mut out, ':');
        crate::text::push_char(&mut out, '{');
        let entries = self.entries();
        if entries.len() > 0 {
            write_quoted(&mut out, entries[0].0.as_str());
            crate::text::push_char(&mut out, ':');
            write_quoted(&mut out, entries[0].1.as_str());
            write_rest_members(&mut out, entries, 1);
            proof {
                assert(entries@.skip(1) =~= entries@.drop_first());
            }
        }
        crate::text::push_char(&mut out, '}');
        crate::text::push_char(&mut out, '}');
        proof {
            reveal_strlit("cache");
            assert(out@ =~= cache_document(self.cache@));
        }
        out
    }

    /// Reads a cache back from its durable document; an unreadable
    /// document yields the empty cache.
    pub fn parse_json(s: &str) -> (r: TagCache)
        ensures
            r.wf(),
            r@ == document_map(s@),
    {
        match document_at(s) {
            Some(entries) => {
                let cache = TagCache::from_entries(&entries);
                proof {
                    lemma_map_of_pairs_views(entries@);
                }
                cache
            },
            None => TagCache::new(),
        }
    }
}

/// Whether position `j` holds a JSON whitespace character.
fn ws_at(s: &str, j: usize) -> (r: bool)
    requires
        j <= s@.len(),
    ensures
        r == (j < s@.len() && json_ws(s@[j as int])),
{
    if j < s.unicode_len() {
        let c = s.get_char(j);
        c == ' ' || c == '\t' || c == '\n' || c == '\r'
    } else {
        false
    }
}

/// Position just past the leading whitespace from `i` on.
#[verifier::loop_isolation(false)]
fn skip_ws_at(s: &str, i: usize) -> (r: usize)
    requires
        i <= s@.len(),
    ensures
        i <= r <= s@.len(),
        trim_ws(s@.skip(i as int)) == s@.skip(r as int),
{
    let n = s.unicode_len();
    let mut j = i;
    while ws_at(s, j)
        invariant
            i <= j <= n,
            trim_ws(s@.skip(i as int)) == trim_ws(s@.skip(j as int)),
        decreases n - j,
    {
        proof {
            assert(s@.skip(j as int)[0] == s@[j as int]);
            assert(s@.skip(j as int).drop_first() =~= s@.skip(j + 1));
        }
        j += 1;
    }
    proof {
        if j < n {
            assert(s@.skip(j as int)[0] == s@[j as int]);
        } else {
            assert(s@.skip(j as int).len() == 0);
        }
    }
    j
}

/// The value of one hex digit character.
fn hex_value(c: char) -> (r: Option<u32>)
    ensures
        match r {
            Some(v) => hex_val(c) == Some(v as int) && v < 16,
            None => hex_val(c) is None,
        },
{
    if '0' <= c && c <= '9' {
        Some((c as u32) - 48)
    } else if 'a' <= c && c <= 'f' {
        Some((c as u32) - 87)
    } else if 'A' <= c && c <= 'F' {
        Some((c as u32) - 55)
    } else {
        None
    }
}

/// Reads a quoted string starting at `i` (whitespace allowed first);
/// yields the decoded text and the position after the closing quote.
#[verifier::loop_isolation(false)]
fn string_at(s: &str, i: usize) -> (r: Option<(String, usize)>)
    requires
        i <= s@.len(),
    ensures
        match r {
            Some(p) => p.1 <= s@.len() && parse_quoted(s@.skip(i as int)) == Some(
                (p.0@, s@.skip(p.1 as int)),
            ),
            None => parse_quoted(s@.skip(i as int)) is None,
        },
{
    let n = s.unicode_len();
    let j = skip_ws_at(s, i);
    if j >= n {
        proof {
            assert(s@.skip(j as int).len() == 0);
        }
        return None;
    }
    proof {
        assert(s@.skip(j as int)[0] == s@[j as int]);
    }
    if s.get_char(j) != '"' {
        return None;
    }
    let ghost start = j + 1;
    let mut k = j + 1;
    let mut acc = String::new();
    proof {
        assert(s@.skip(j as int).drop_first() =~= s@.skip(start));
    }
    loop
        invariant
            start <= k <= n,
            n == s@.len(),
            parse_quoted(s@.skip(i as int)) == (match parse_str_body(s@.skip(k as int)) {
                Some(p) => Some((acc@ + p.0, p.1)),
                None => None,
            }),
        decreases n - k,
    {
        if k >= n {
            proof {
                assert(s@.skip(k as int).len() == 0);
            }
            return None;
        }
        let c = s.get_char(k);
        proof {
            assert(s@.skip(k as int)[0] == c);
            assert(s@.skip(k as int).drop_first() =~= s@.skip(k + 1));
        }
        if c == '"' {
            proof {
                assert(acc@ + Seq::<char>::empty() =~= acc@);
            }
            return Some((acc, k + 1));
        }
        if c == '\\' {
            if k + 1 >= n {
                proof {
                    assert(s@.skip(k as int).len() < 2);
                }
                return None;
            }
            let e = s.get_char(k + 1);
            proof {
                assert(s@.skip(k as int)[1] == e);
            }
            if e == 'u' {
                if n - k < 6 {
                    proof {
                        assert(s@.skip(k as int).len() < 6);
                    }
                    return None;
                }
                proof {
                    assert(s@.skip(k as int)[2] == s@[k + 2]);
                    assert(s@.skip(k as int)[3] == s@[k + 3]);
                    assert(s@.skip(k as int)[4] == s@[k + 4]);
                    assert(s@.skip(k as int)[5] == s@[k + 5]);
                    assert(s@.skip(k as int).skip(6) =~= s@.skip(k + 6));
                }
                let (h1, h2, h3, h4) = (
                    hex_value(s.get_char(k + 2)),
                    hex_value(s.get_char(k + 3)),
                    hex_value(s.get_char(k + 4)),
                    hex_value(s.get_char(k + 5)),
                );
                match (h1, h2, h3, h4) {
                    (Some(a), Some(b), Some(c2), Some(d)) => {
                        let code = a * 4096 + b * 256 + c2 * 16 + d;
                        if code < 256 {
                            crate::text::push_char(&mut acc, (code as u8) as char);
                            k += 6;
                        } else {
                            return None;
                        }
                    },
                    _ => {
                        return None;
                    },
                }
            } else {
                proof {
                    assert(s@.skip(k as int).skip(2) =~= s@.skip(k + 2));
                }
                if e == '"' {
                    crate::text::push_char(&mut acc, '"');
                } else if e == '\\' {
                    crate::text::push_char(&mut acc, '\\');
                } else if e == '/' {
                    crate::text::push_char(&mut acc, '/');
                } else if e == 'b' {
                    crate::text::push_char(&mut acc, '\u{8}');
                } else if e == 'f' {
                    crate::text::push_char(&mut acc, '\u{c}');
                } else if e == 'n' {
                    crate::text::push_char(&mut acc, '\n');
                } else if e == 'r' {
                    crate::text::push_char(&mut acc, '\r');
                } else if e == 't' {
                    crate::text::push_char(&mut acc, '\t');
                } else {
                    return None;
                }
                k += 2;
            }
        } else if (c as u32) < 32 {
            return None;
        } else {
            crate::text::push_char(&mut acc, c);
            k += 1;
        }
    }
}

/// Reads one `key: value` member starting at `i`.
fn member_at(s: &str, i: usize) -> (r: Option<(String, String, usize)>)
    requires
        i <= s@.len(),
    ensures
        match r {
            Some(p) => p.2 <= s@.len() && parse_member(s@.skip(i as int)) == Some(
                ((p.0@, p.1@), s@.skip(p.2 as int)),
            ),
            None => parse_member(s@.skip(i as int)) is None,
        },
{
    match string_at(s, i) {
        Some((key, j)) => {
            let j2 = skip_ws_at(s, j);
            let n = s.unicode_len();
            if j2 < n {
                proof {
                    assert(s@.skip(j2 as int)[0] == s@[j2 as int]);
                }
                if s.get_char(j2) == ':' {
                    proof {
                        assert(s@.skip(j2 as int).drop_first() =~= s@.skip(j2 + 1));
                    }
                    match string_at(s, j2 + 1) {
                        Some((value, j3)) => Some((key, value, j3)),
                        None => None,
                    }
                } else {
                    None
                }
            } else {
                proof {
                    assert(s@.skip(j2 as int).len() == 0);
                }
                None
            }
        },
        None => None,
    }
}

/// Reads an object's members from just after its opening brace through
/// the closing brace.
fn members_at(s: &str, i: usize, first: bool) -> (r: Option<(Vec<(String, String)>, usize)>)
    requires
        i <= s@.len(),
    ensures
        match r {
            Some(p) => p.1 <= s@.len() && parse_members(s@.skip(i as int), first) == Some(
                (pair_views(p.0@), s@.skip(p.1 as int)),
            ),
            None => parse_members(s@.skip(i as int), first) is None,
        },
    decreases s@.len() - i,
{
    let n = s.unicode_len();
    let j = skip_ws_at(s, i);
    if first && j < n {
        proof {
            assert(s@.skip(j as int)[0] == s@[j as int]);
        }
        if s.get_char(j) == '}' {
            proof {
                assert(s@.skip(j as int).drop_first() =~= s@.skip(j + 1));
                assert(pair_views(Seq::<(String, String)>::empty()) =~= Seq::<
                    (Seq<char>, Seq<char>),
                >::empty());
            }
            return Some((Vec::new(), j + 1));
        }
    }
    match member_at(s, i) {
        Some((key, value, j2)) => {
            let j3 = skip_ws_at(s, j2);
            if j3 >= n {
                proof {
                    assert(s@.skip(j3 as int).len() == 0);
                }
                return None;
            }
            proof {
                assert(s@.skip(j3 as int)[0] == s@[j3 as int]);
                assert(s@.skip(j3 as int).drop_first() =~= s@.skip(j3 + 1));
            }
            let c = s.get_char(j3);
            if c == '}' {
                let mut out: Vec<(String, String)> = Vec::new();
                out.push((key, value));
                proof {
                    assert(pair_views(out@) =~= seq![(out@[0].0@, out@[0].1@)]);
                }
                Some((out, j3 + 1))
            } else if c == ',' {
                proof {
                    assert(j3 + 1 > i) by {
                        lemma_parse_member_consumes(s@.skip(i as int));
                        lemma_trim_ws_len(s@.skip(j2 as int));
                    }
                }
                match members_at(s, j3 + 1, false) {
                    Some((more, end)) => {
                        let mut out = more;
                        out.insert(0, (key, value));
                        proof {
                            assert(pair_views(out@) =~= seq![(out@[0].0@, out@[0].1@)]
                                + pair_views(out@.drop_first()));
                            assert(out@.drop_first() =~= out@.subrange(1, out@.len() as int));
                        }
                        Some((out, end))
                    },
                    None => None,
                }
            } else {
                None
            }
        },
        None => None,
    }
}

/// Reads the whole document, yielding its cache entries.
fn document_at(s: &str) -> (r: Option<Vec<(String, String)>>)
    ensures
        match r {
            Some(entries) => parse_document(s@) == Some(pair_views(entries@)),
            None => parse_document(s@) is None,
        },
{
    let n = s.unicode_len();
    proof {
        assert(s@.skip(0) =~= s@);
    }
    let t = skip_ws_at(s, 0);
    if t >= n {
        proof {
            assert(s@.skip(t as int).len() == 0);
        }
        return None;
    }
    proof {
        assert(s@.skip(t as int)[0] == s@[t as int]);
        assert(s@.skip(t as int).drop_first() =~= s@.skip(t + 1));
    }
    if s.get_char(t) != '{' {
        return None;
    }
    match string_at(s, t + 1) {
        Some((key, j)) => {
            if !crate::text::str_eq(key.as_str(), "cache") {
                return None;
            }
            let j2 = skip_ws_at(s, j);
            if j2 >= n {
                proof {
                    assert(s@.skip(j2 as int).len() == 0);
                }
                return None;
            }
            proof {
                assert(s@.skip(j2 as int)[0] == s@[j2 as int]);
                assert(s@.skip(j2 as int).drop_first() =~= s@.skip(j2 + 1));
            }
            if s.get_char(j2) != ':' {
                return None;
            }
            let j3 = skip_ws_at(s, j2 + 1);
            if j3 >= n {
                proof {
                    assert(s@.skip(j3 as int).len() == 0);
                }
                return None;
            }
            proof {
                assert(s@.skip(j3 as int)[0] == s@[j3 as int]);
                assert(s@.skip(j3 as int).drop_first() =~= s@.skip(j3 + 1));
            }
            if s.get_char(j3) != '{' {
                return None;
            }
            match members_at(s, j3 + 1, true) {
                Some((entries, j4)) => {
                    let j5 = skip_ws_at(s, j4);
                    if j5 >= n {
                        proof {
                            assert(s@.skip(j5 as int).len() == 0);
                        }
                        return None;
                    }
                    proof {
                        assert(s@.skip(j5 as int)[0] == s@[j5 as int]);
                        assert(s@.skip(j5 as int).drop_first() =~= s@.skip(j5 + 1));
                    }
                    if s.get_char(j5) != '}' {
                        return None;
                    }
                    let j6 = skip_ws_at(s, j5 + 1);
                    if j6 < n {
                        proof {
                            assert(s@.skip(j6 as int).len() > 0);
                        }
                        return None;
                    }
                    proof {
                        assert(s@.skip(j6 as int).len() == 0);
                    }
                    Some(entries)
                },
                None => None,
            }
        },
        None => None,
    }
}

proof fn lemma_cast_round(c: char)
    requires
        (c as u32) < 256,
    ensures
        (((c as u32) as u8) as char) == c,
{
}

proof fn lemma_hex_inverse(d: nat)
    requires
        d < 16,
    ensures
        hex_val(hex_digit_char(d)) == Some(d as int),
{
}

/// A written string body reads back as the characters it was written
/// from, leaving exactly what followed the closing quote.
proof fn lemma_read_escaped(v: Seq<char>, rest: Seq<char>)
    ensures
        parse_str_body(escape_str(v) + seq!['"'] + rest) == Some((v, rest)),
    decreases v.len(),
{
    let s = escape_str(v) + seq!['"'] + rest;
    if v.len() == 0 {
        assert(escape_str(v) =~= Seq::<char>::empty());
        assert(s[0] == '"');
        assert(s.drop_first() =~= rest);
        assert(parse_str_body(s) == Some((Seq::<char>::empty(), rest)));
        assert(v =~= Seq::<char>::empty());
    } else {
        let c = v[0];
        let e = escape_char(c);
        let tail_text = escape_str(v.drop_first()) + seq!['"'] + rest;
        assert(escape_str(v) == e + escape_str(v.drop_first()));
        assert(s =~= e + tail_text);
        lemma_read_escaped(v.drop_first(), rest);
        if c == '"' || c == '\\' || c == '\u{8}' || c == '\u{c}' || c == '\n' || c == '\r' || c
            == '\t' {
            assert(e.len() == 2 && e[0] == '\\');
            assert(s[0] == '\\' && s[1] == e[1]);
            assert(s.len() >= 2);
            assert(s[1] != 'u');
            assert(unescaped(e[1]) == Some(c));
            assert(s.skip(2) =~= tail_text);
            assert(seq![c] + v.drop_first() =~= v);
        } else if (c as u32) < 32 {
            let hi = ((c as u32) / 16) as nat;
            let lo = ((c as u32) % 16) as nat;
            assert(e =~= seq!['\\', 'u', '0', '0', hex_digit_char(hi), hex_digit_char(lo)]);
            assert(s[0] == '\\' && s[1] == 'u');
            assert(s.len() >= 6);
            assert(s[2] == '0' && s[3] == '0' && s[4] == hex_digit_char(hi) && s[5]
                == hex_digit_char(lo));
            lemma_hex_inverse(0);
            lemma_hex_inverse(hi);
            lemma_hex_inverse(lo);
            assert(hex_val('0') == Some(0int));
            let code = 0 * 4096 + 0 * 256 + (hi as int) * 16 + lo as int;
            assert(code == c as u32);
            assert(code < 256);
            lemma_cast_round(c);
            assert((code as u8) as char == c);
            assert(s.skip(6) =~= tail_text);
            assert(seq![c] + v.drop_first() =~= v);
        } else {
            assert(e =~= seq![c]);
            assert(s[0] == c);
            assert(c != '"' && c != '\\' && (c as u32) >= 32);
            assert(s.drop_first() =~= tail_text);
            assert(seq![c] + v.drop_first() =~= v);
        }
    }
}

/// A written member reads back as its key and value.
proof fn lemma_read_member(k: Seq<char>, v: Seq<char>, rest: Seq<char>)
    ensures
        parse_member(member_text(k, v) + rest) == Some(((k, v), rest)),
{
    let s = member_text(k, v) + rest;
    let after_key = seq![':'] + quoted(v) + rest;
    assert(s[0] == '"');
    assert(!json_ws('"'));
    assert(trim_ws(s) == s);
    assert(s.drop_first() =~= escape_str(k) + seq!['"'] + after_key);
    lemma_read_escaped(k, after_key);
    assert(parse_quoted(s) == Some((k, after_key)));
    assert(after_key[0] == ':');
    assert(!json_ws(':'));
    assert(trim_ws(after_key) == after_key);
    assert(after_key.drop_first() =~= quoted(v) + rest);
    let qv = quoted(v) + rest;
    assert(qv[0] == '"');
    assert(trim_ws(qv) == qv);
    assert(qv.drop_first() =~= escape_str(v) + seq!['"'] + rest);
    lemma_read_escaped(v, rest);
    assert(parse_quoted(after_key.drop_first()) == Some((v, rest)));
}

/// Written members read back in order through the closing brace.
proof fn lemma_read_members(entries: Seq<(String, String)>, rest: Seq<char>, first: bool)
    requires
        first || entries.len() > 0,
    ensures
        parse_members(members_text(entries) + seq!['}'] + rest, first) == Some(
            (pair_views(entries), rest),
        ),
    decreases entries.len(),
{
    let s = members_text(entries) + seq!['}'] + rest;
    if entries.len() == 0 {
        assert(members_text(entries) =~= Seq::<char>::empty());
        assert(s[0] == '}');
        assert(!json_ws('}'));
        assert(trim_ws(s) == s);
        assert(s.drop_first() =~= rest);
        assert(pair_views(entries) =~= Seq::<(Seq<char>, Seq<char>)>::empty());
    } else {
        let k = entries[0].0@;
        let v = entries[0].1@;
        let more = entries.drop_first();
        let after_member = rest_members_text(more) + seq!['}'] + rest;
        assert(s =~= member_text(k, v) + after_member);
        lemma_read_member(k, v, after_member);
        assert(s[0] == '"');
        assert(!json_ws('"'));
        assert(trim_ws(s) == s);
        assert(s[0] != '}');
        if more.len() == 0 {
            assert(rest_members_text(more) =~= Seq::<char>::empty());
            assert(after_member =~= seq!['}'] + rest);
            assert(after_member[0] == '}');
            assert(!json_ws('}'));
            assert(trim_ws(after_member) == after_member);
            assert(after_member.drop_first() =~= rest);
            assert(pair_views(entries) =~= seq![(k, v)]);
        } else {
            assert(after_member =~= seq![','] + (members_text(more) + seq!['}'] + rest));
            assert(after_member[0] == ',');
            assert(!json_ws(','));
            assert(trim_ws(after_member) == after_member);
            assert(after_member.drop_first() =~= members_text(more) + seq!['}'] + rest);
            lemma_read_members(more, rest, false);
            assert(pair_views(entries) =~= seq![(k, v)] + pair_views(more));
        }
    }
}

/// Law: a cache written as its durable document reads back as exactly
/// the same entries, whatever their labels hold.
pub proof fn lemma_document_round_trip(entries: Seq<(String, String)>)
    ensures
        parse_document(cache_document(entries)) == Some(pair_views(entries)),
{
    let s = cache_document(entries);
    let inner = members_text(entries) + seq!['}'] + seq!['}'];
    let after_key = seq![':', '{'] + inner;
    assert(s[0] == '{');
    assert(!json_ws('{'));
    assert(trim_ws(s) == s);
    assert(quoted("cache"@) == seq!['"'] + escape_str("cache"@) + seq!['"']);
    assert(s =~= seq!['{'] + (seq!['"'] + escape_str("cache"@) + seq!['"']) + after_key);
    let q = s.drop_first();
    assert(q =~= seq!['"'] + escape_str("cache"@) + seq!['"'] + after_key);
    assert(q[0] == '"');
    assert(!json_ws('"'));
    assert(trim_ws(q) == q);
    assert(q.drop_first() =~= escape_str("cache"@) + seq!['"'] + after_key);
    lemma_read_escaped("cache"@, after_key);
    assert(parse_quoted(q) == Some(("cache"@, after_key)));
    assert(after_key[0] == ':');
    assert(!json_ws(':'));
    assert(trim_ws(after_key) == after_key);
    let after_colon = seq!['{'] + inner;
    assert(after_key.drop_first() =~= after_colon);
    assert(after_colon[0] == '{');
    assert(trim_ws(after_colon) == after_colon);
    assert(after_colon.drop_first() =~= members_text(entries) + seq!['}'] + seq!['}']);
    lemma_read_members(entries, seq!['}'], true);
    let closing = seq!['}'];
    assert(closing[0] == '}');
    assert(!json_ws('}'));
    assert(trim_ws(closing) == closing);
    assert(trim_ws(closing.drop_first()) =~= Seq::<char>::empty());
}

} // verus!
