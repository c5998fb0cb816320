//! Parsing `[LEVEL] timestamp source: message` log lines, and summaries of
//! the parsed entries.
//!
//! The grammar is stated over the characters of a line by [`parse_spec`];
//! [`LogParser::parse_line`] computes exactly that.  Whitespace means the
//! Unicode `White_Space` characters, as `char::is_whitespace` has it.
use vstd::prelude::*;
use crate::assoc::{assoc_map, has_key, keys_unique, lemma_assoc_dom, lemma_assoc_facts, lemma_assoc_len, lemma_assoc_push, lemma_assoc_update};
use crate::text::{bytes_lt, chars_of, lemma_bytes_lt_irrefl, lemma_bytes_lt_total, lemma_bytes_lt_trans, str_eq, str_lt, string_of};
use vstd::utf8::encode_utf8;

verus! {

broadcast use vstd::utf8::encode_utf8_decode_utf8;

/// `char::is_whitespace`: the characters with the Unicode `White_Space`
/// property.
pub open spec fn is_ws(c: char) -> bool {
    let u = c as u32;
    ||| 0x09 <= u <= 0x0d
    ||| u == 0x20
    ||| u == 0x85
    ||| u == 0xa0
    ||| u == 0x1680
    ||| 0x2000 <= u <= 0x200a
    ||| u == 0x2028
    ||| u == 0x2029
    ||| u == 0x202f
    ||| u == 0x205f
    ||| u == 0x3000
}

/// `s` without leading whitespace.
pub open spec fn trim_start(s: Seq<char>) -> Seq<char>
    decreases s.len(),
{
    if s.len() > 0 && is_ws(s[0]) {
        trim_start(s.drop_first())
    } else {
        s
    }
}

/// `s` without trailing whitespace.
pub open spec fn trim_end(s: Seq<char>) -> Seq<char>
    decreases s.len(),
{
    if s.len() > 0 && is_ws(s.last()) {
        trim_end(s.drop_last())
    } else {
        s
    }
}

/// `str::trim`: `s` without leading and trailing whitespace.
pub open spec fn trim(s: Seq<char>) -> Seq<char> {
    trim_end(trim_start(s))
}

/// `s` without its trailing `':'` characters (`trim_end_matches(':')`).
pub open spec fn strip_colons(s: Seq<char>) -> Seq<char>
    decreases s.len(),
{
    if s.len() > 0 && s.last() == ':' {
        strip_colons(s.drop_last())
    } else {
        s
    }
}

/// What a parsed entry is: its four text fields.
pub struct EntryView {
    pub level: Seq<char>,
    pub timestamp: Seq<char>,
    pub source: Seq<char>,
    pub message: Seq<char>,
}

/// The entry that a line holds, if it holds one.  The trimmed line must
/// start with `[`; the level is the trimmed text up to the first `]`; one
/// character after the `]` is skipped and the rest, trimmed, is split at its
/// first two spaces into timestamp, source (trailing colons removed) and
/// message, each trimmed.  A line without the `]`, or whose rest has no
/// space to end the timestamp, holds no entry.
pub open spec fn parse_spec(line: Seq<char>) -> Option<EntryView> {
    let t = trim(line);
    if t.len() == 0 || t[0] != '[' {
        None
    } else {
        let rest = t.drop_first();
        match rest.index_of_first(']') {
            None => None,
            Some(b) => {
                split_fields(trim(rest.take(b)), trim(rest.skip(b + 2)))
            },
        }
    }
}

/// The entry with level `level` whose other fields are read from `after`:
/// split at its first two spaces into timestamp, source (trailing colons
/// removed) and message, each trimmed; `None` when `after` has no space.
pub open spec fn split_fields(level: Seq<char>, after: Seq<char>) -> Option<EntryView> {
    match after.index_of_first(' ') {
        None => None,
        Some(i) => {
            let tail = after.skip(i + 1);
            let (src, msg) = match tail.index_of_first(' ') {
                Some(j) => (tail.take(j), tail.skip(j + 1)),
                None => (tail, Seq::<char>::empty()),
            };
            Some(
                EntryView {
                    level,
                    timestamp: trim(after.take(i)),
                    source: strip_colons(trim(src)),
                    message: trim(msg),
                },
            )
        },
    }
}

/// The lines on which parsing cannot go on: the byte after the `]` that the
/// parser skips is missing, or is not a whole character (the character after
/// the `]` is not ASCII).  Slicing the line there panics.
pub open spec fn parse_panics(line: Seq<char>) -> bool {
    let t = trim(line);
    &&& t.len() > 0
    &&& t[0] == '['
    &&& match t.drop_first().index_of_first(']') {
        Some(b) => !(b + 1 < t.len() - 1 && (t[b + 2] as u32) < 0x80),
        None => false,
    }
}

/// One parsed log line.
#[derive(Debug, Clone, PartialEq)]
pub struct LogEntry {
    pub level: String,
    pub timestamp: String,
    pub source: String,
    pub message: String,
}

impl View for LogEntry {
    type V = EntryView;

    open spec fn view(&self) -> EntryView {
        EntryView {
            level: self.level@,
            timestamp: self.timestamp@,
            source: self.source@,
            message: self.message@,
        }
    }
}

/// The text of an optional entry.
pub open spec fn opt_entry_view(r: Option<LogEntry>) -> Option<EntryView> {
    match r {
        Some(e) => Some(e@),
        None => None,
    }
}

/// `char::is_whitespace`.
fn is_whitespace(c: char) -> (r: bool)
    ensures
        r == is_ws(c),
{
    let u = c as u32;
    (0x09 <= u && u <= 0x0d) || u == 0x20 || u == 0x85 || u == 0xa0 || u == 0x1680 || (0x2000 <= u
        && u <= 0x200a) || u == 0x2028 || u == 0x2029 || u == 0x202f || u == 0x205f || u == 0x3000
}

/// The start of `cs[lo..hi]` with its leading whitespace skipped.
fn skip_ws_start(cs: &Vec<char>, lo: usize, hi: usize) -> (r: usize)
    requires
        lo <= hi <= cs@.len(),
    ensures
        lo <= r <= hi,
        cs@.subrange(r as int, hi as int) == trim_start(cs@.subrange(lo as int, hi as int)),
{
    let mut i = lo;
    while i < hi && is_whitespace(cs[i])
        invariant
            lo <= i <= hi <= cs@.len(),
            trim_start(cs@.subrange(lo as int, hi as int)) == trim_start(
                cs@.subrange(i as int, hi as int),
            ),
        decreases hi - i,
    {
        assert(cs@.subrange(i as int, hi as int).drop_first() =~= cs@.subrange(i + 1, hi as int));
        i = i + 1;
    }
    i
}

/// The end of `cs[lo..hi]` with its trailing whitespace dropped.
fn skip_ws_end(cs: &Vec<char>, lo: usize, hi: usize) -> (r: usize)
    requires
        lo <= hi <= cs@.len(),
    ensures
        lo <= r <= hi,
        cs@.subrange(lo as int, r as int) == trim_end(cs@.subrange(lo as int, hi as int)),
{
    let mut j = hi;
    while j > lo && is_whitespace(cs[j - 1])
        invariant
            lo <= j <= hi <= cs@.len(),
            trim_end(cs@.subrange(lo as int, hi as int)) == trim_end(
                cs@.subrange(lo as int, j as int),
            ),
        decreases j - lo,
    {
        assert(cs@.subrange(lo as int, j as int).drop_last() =~= cs@.subrange(lo as int, j - 1));
        j = j - 1;
    }
    j
}

/// The bounds of `cs[lo..hi]` trimmed.
fn trim_range(cs: &Vec<char>, lo: usize, hi: usize) -> (r: (usize, usize))
    requires
        lo <= hi <= cs@.len(),
    ensures
        lo <= r.0 <= r.1 <= hi,
        cs@.subrange(r.0 as int, r.1 as int) == trim(cs@.subrange(lo as int, hi as int)),
{
    let a = skip_ws_start(cs, lo, hi);
    let b = skip_ws_end(cs, a, hi);
    (a, b)
}

/// The end of `cs[lo..hi]` with its trailing colons dropped.
fn skip_colons_end(cs: &Vec<char>, lo: usize, hi: usize) -> (r: usize)
    requires
        lo <= hi <= cs@.len(),
    ensures
        lo <= r <= hi,
        cs@.subrange(lo as int, r as int) == strip_colons(cs@.subrange(lo as int, hi as int)),
{
    let mut j = hi;
    while j > lo && cs[j - 1] == ':'
        invariant
            lo <= j <= hi <= cs@.len(),
            strip_colons(cs@.subrange(lo as int, hi as int)) == strip_colons(
                cs@.subrange(lo as int, j as int),
            ),
        decreases j - lo,
    {
        assert(cs@.subrange(lo as int, j as int).drop_last() =~= cs@.subrange(lo as int, j - 1));
        j = j - 1;
    }
    j
}

/// The position of the first `c` in `cs[lo..hi]`.
fn find_in(cs: &Vec<char>, lo: usize, hi: usize, c: char) -> (r: Option<usize>)
    requires
        lo <= hi <= cs@.len(),
    ensures
        match r {
            Some(k) => lo <= k < hi && cs@.subrange(lo as int, hi as int).index_of_first(c) == Some(
                k - lo,
            ),
            None => cs@.subrange(lo as int, hi as int).index_of_first(c) is None,
        },
{
    let ghost s = cs@.subrange(lo as int, hi as int);
    proof {
        s.index_of_first_ensures(c);
    }
    let mut k = lo;
    while k < hi
        invariant
            lo <= k <= hi <= cs@.len(),
            s == cs@.subrange(lo as int, hi as int),
            forall|j: int| lo <= j < k ==> cs@[j] != c,
        decreases hi - k,
    {
        if cs[k] == c {
            proof {
                s.index_of_first_ensures(c);
                assert(s[k - lo] == c);
                assert(s.contains(c));
                let x = s.index_of_first(c)->0;
                assert(s[x] == cs@[lo + x]);
                if x > k - lo {
                    assert(s[k - lo] != c);
                }
            }
            return Some(k);
        }
        k = k + 1;
    }
    proof {
        s.index_of_first_ensures(c);
        if s.contains(c) {
            let x = choose|x: int| 0 <= x < s.len() && s[x] == c;
            assert(s[x] == cs@[lo + x]);
        }
    }
    None
}

/// The entry with level `level` whose other fields come from `cs[aa..ab]`.
fn split_line_fields(cs: &Vec<char>, aa: usize, ab: usize, level: String) -> (r: Option<LogEntry>)
    requires
        aa <= ab <= cs@.len(),
    ensures
        opt_entry_view(r) == split_fields(level@, cs@.subrange(aa as int, ab as int)),
{
    let ghost l = cs@;
    let ghost after = l.subrange(aa as int, ab as int);
    let i1 = match find_in(cs, aa, ab, ' ') {
        Some(k) => k,
        None => {
            return None;
        },
    };
    let (ta, tb) = trim_range(cs, aa, i1);
    let ghost ir = i1 - aa;
    let ghost tail = after.skip(ir + 1);
    proof {
        assert(after.take(ir) =~= l.subrange(aa as int, i1 as int));
        assert(tail =~= l.subrange(i1 + 1, ab as int));
    }
    let second = find_in(cs, i1 + 1, ab, ' ');
    let (p2lo, p2hi, p3lo, p3hi) = match second {
        Some(k) => (i1 + 1, k, k + 1, ab),
        None => (i1 + 1, ab, ab, ab),
    };
    proof {
        match second {
            Some(k) => {
                let jr = k - (i1 + 1);
                assert(tail.take(jr) =~= l.subrange(p2lo as int, p2hi as int));
                assert(tail.skip(jr + 1) =~= l.subrange(p3lo as int, p3hi as int));
            },
            None => {
                assert(l.subrange(p3lo as int, p3hi as int) =~= Seq::<char>::empty());
            },
        }
    }
    let (sa, sb) = trim_range(cs, p2lo, p2hi);
    let sc = skip_colons_end(cs, sa, sb);
    let (ma, mb) = trim_range(cs, p3lo, p3hi);
    Some(
        LogEntry {
            level,
            timestamp: string_of(cs, ta, tb),
            source: string_of(cs, sa, sc),
            message: string_of(cs, ma, mb),
        },
    )
}

/// A parser that keeps every entry it has parsed.
pub struct LogParser {
    entries: Vec<LogEntry>,
}

impl View for LogParser {
    type V = Seq<EntryView>;

    /// The entries parsed so far, in order.
    closed spec fn view(&self) -> Seq<EntryView> {
        self.entries@.map_values(|e: LogEntry| e@)
    }
}

impl LogParser {
    /// A parser with no entries.
    pub fn new() -> (r: Self)
        ensures
            r@ == Seq::<EntryView>::empty(),
    {
        let r = LogParser { entries: Vec::new() };
        assert(r@ =~= Seq::<EntryView>::empty());
        r
    }

    /// Parse one line.  An entry parsed is kept and returned; a line that
    /// holds no entry returns `None` and changes nothing.
    pub fn parse_line(&mut self, line: &str) -> (r: Option<LogEntry>)
        requires
            !parse_panics(line@),
        ensures
            opt_entry_view(r) == parse_spec(line@),
            final(self)@ == match parse_spec(line@) {
                Some(e) => old(self)@.push(e),
                None => old(self)@,
            },
    {
        let cs = chars_of(line);
        let ghost l = cs@;
        let (a, b) = trim_range(&cs, 0, cs.len());
        proof {
            assert(l.subrange(0, l.len() as int) =~= l);
        }
        let ghost t = l.subrange(a as int, b as int);
        if a == b {
            return None;
        }
        if cs[a] != '[' {
            return None;
        }
        let rs = a + 1;
        let ghost rest = t.drop_first();
        proof {
            assert(rest =~= l.subrange(rs as int, b as int));
        }
        let be = match find_in(&cs, rs, b, ']') {
            Some(k) => k,
            None => {
                return None;
            },
        };
        let ghost br = be - rs;
        proof {
            assert(t[br + 2] == l[be + 1]);
        }
        let (la, lb) = trim_range(&cs, rs, be);
        let (aa, ab) = trim_range(&cs, be + 2, b);
        proof {
            assert(rest.take(br) =~= l.subrange(rs as int, be as int));
            assert(rest.skip(br + 2) =~= l.subrange(be + 2, b as int));
        }
        let level = string_of(&cs, la, lb);
        let entry = match split_line_fields(&cs, aa, ab, level) {
            Some(e) => e,
            None => {
                return None;
            },
        };
        let kept = LogEntry {
            level: entry.level.clone(),
            timestamp: entry.timestamp.clone(),
            source: entry.source.clone(),
            message: entry.message.clone(),
        };
        let ghost before = self@;
        self.entries.push(kept);
        proof {
            assert(self@ =~= before.push(entry@));
        }
        Some(entry)
    }
}

/// No character of `s` is whitespace.
pub open spec fn no_ws(s: Seq<char>) -> bool {
    forall|i: int| 0 <= i < s.len() ==> !is_ws(#[trigger] s[i])
}

/// `s` neither starts nor ends with whitespace.
pub open spec fn is_trimmed(s: Seq<char>) -> bool {
    s.len() == 0 || (!is_ws(s[0]) && !is_ws(s.last()))
}

/// The line `[level] timestamp source: message` that writes out `e`.
pub open spec fn format_line(e: EntryView) -> Seq<char> {
    seq!['['] + e.level + seq![']', ' '] + e.timestamp + seq![' '] + e.source + seq![':', ' ']
        + e.message
}

/// The entries that [`format_line`] writes so that they read back unchanged:
/// the level holds no `]` and is trimmed, the timestamp is a non-empty word,
/// the source is a word (possibly empty) that does not end in `:`, and the
/// message is trimmed.
pub open spec fn formattable(e: EntryView) -> bool {
    &&& !e.level.contains(']')
    &&& is_trimmed(e.level)
    &&& e.timestamp.len() > 0
    &&& no_ws(e.timestamp)
    &&& no_ws(e.source)
    &&& !(e.source.len() > 0 && e.source.last() == ':')
    &&& is_trimmed(e.message)
}

proof fn lemma_trim_noop(s: Seq<char>)
    requires
        is_trimmed(s),
    ensures
        trim(s) == s,
{
    assert(trim_start(s) == s);
    assert(trim_end(s) == s);
}

proof fn lemma_first_at<A>(s: Seq<A>, x: A, k: int)
    requires
        0 <= k < s.len(),
        s[k] == x,
        forall|j: int| 0 <= j < k ==> s[j] != x,
    ensures
        s.index_of_first(x) == Some(k),
{
    assert(s.contains(x));
    s.index_of_first_ensures(x);
}

proof fn lemma_first_none<A>(s: Seq<A>, x: A)
    requires
        forall|j: int| 0 <= j < s.len() ==> s[j] != x,
    ensures
        s.index_of_first(x) is None,
{
    s.index_of_first_ensures(x);
}

/// The message part of a trimmed formatted line: a space and the message,
/// or nothing when the message is empty.
spec fn msg_tail(m: Seq<char>) -> Seq<char> {
    if m.len() > 0 {
        seq![' '] + m
    } else {
        Seq::<char>::empty()
    }
}

/// What follows `"] "` in a trimmed formatted line.
spec fn fields_text(e: EntryView) -> Seq<char> {
    e.timestamp + seq![' '] + e.source + seq![':'] + msg_tail(e.message)
}

proof fn lemma_formatted_trim(e: EntryView)
    requires
        formattable(e),
    ensures
        trim(format_line(e)) == seq!['['] + e.level + seq![']', ' '] + fields_text(e),
{
    let m = e.message;
    assert(is_ws(' ') && !is_ws('[') && !is_ws(':'));
    let core = seq!['['] + e.level + seq![']', ' '] + e.timestamp + seq![' '] + e.source + seq![
        ':',
    ];
    let line = format_line(e);
    let t = seq!['['] + e.level + seq![']', ' '] + fields_text(e);
    assert(line =~= core + seq![' '] + m);
    assert(trim_start(line) == line);
    if m.len() > 0 {
        assert(line.last() == m.last());
        assert(trim_end(line) == line);
        assert(line =~= t);
    } else {
        assert(line.drop_last() =~= core);
        assert(trim_end(core) == core);
        assert(trim_end(line) == core);
        assert(core =~= t);
    }
}

proof fn lemma_fields_split(e: EntryView)
    requires
        formattable(e),
    ensures
        trim(fields_text(e)) == fields_text(e),
        split_fields(e.level, fields_text(e)) == Some(e),
{
    let ts = e.timestamp;
    let s = e.source;
    let m = e.message;
    let after = fields_text(e);
    assert(is_ws(' ') && !is_ws(':'));
    assert(!is_ws(ts[0]));
    assert(after[0] == ts[0]);
    if m.len() > 0 {
        assert(after.last() == m.last());
    } else {
        assert(after.last() == ':');
    }
    lemma_trim_noop(after);
    let k = ts.len() as int;
    assert forall|j: int| 0 <= j < k implies after[j] != ' ' by {
        assert(after[j] == ts[j]);
        assert(!is_ws(ts[j]));
    }
    lemma_first_at(after, ' ', k);
    assert(after.take(k) =~= ts);
    assert(!is_ws(ts.last()));
    lemma_trim_noop(ts);
    let tail = after.skip(k + 1);
    let src = s + seq![':'];
    assert(tail =~= src + msg_tail(m));
    assert forall|j: int| 0 <= j < s.len() implies tail[j] != ' ' by {
        assert(tail[j] == s[j]);
        assert(!is_ws(s[j]));
    }
    let sl = s.len() as int;
    if m.len() > 0 {
        lemma_first_at(tail, ' ', sl + 1);
        assert(tail.take(sl + 1) =~= src);
        assert(tail.skip(sl + 2) =~= m);
    } else {
        assert(tail =~= src);
        lemma_first_none(tail, ' ');
    }
    if s.len() > 0 {
        assert(!is_ws(s[0]));
    }
    assert(src[0] == (if s.len() > 0 { s[0] } else { ':' }));
    lemma_trim_noop(src);
    assert(src.drop_last() =~= s);
    assert(strip_colons(s) == s);
    assert(strip_colons(src) == s);
    lemma_trim_noop(m);
    lemma_trim_noop(Seq::<char>::empty());
    let r = split_fields(e.level, after);
    assert(r is Some);
    assert(r->0.level == e.level);
    assert(r->0.timestamp == ts);
    assert(r->0.source == s);
    assert(r->0.message == m);
}

/// A formatted entry reads back as itself: parsing `[level] timestamp
/// source: message` gives the entry that was written, and the parser does
/// not stop on such a line.
pub proof fn law_parse_formatted_line(e: EntryView)
    requires
        formattable(e),
    ensures
        parse_spec(format_line(e)) == Some(e),
        !parse_panics(format_line(e)),
{
    let l = e.level;
    let n = l.len() as int;
    let after = fields_text(e);
    let t = seq!['['] + l + seq![']', ' '] + after;
    lemma_formatted_trim(e);
    lemma_fields_split(e);
    let rest = t.drop_first();
    assert(rest =~= l + seq![']', ' '] + after);
    assert forall|j: int| 0 <= j < n implies rest[j] != ']' by {
        assert(rest[j] == l[j]);
        if l[j] == ']' {
            assert(l.contains(']'));
        }
    }
    lemma_first_at(rest, ']', n);
    assert(rest.take(n) =~= l);
    lemma_trim_noop(l);
    assert(rest.skip(n + 2) =~= after);
    assert(t[n + 2] == ' ');
    assert(after.len() >= 3);
}

/// `n` spaces.
pub open spec fn spaces(n: nat) -> Seq<char> {
    Seq::new(n, |i: int| ' ')
}

/// [`format_line`] with `n` more spaces after the `"] "`.
pub open spec fn padded_line(e: EntryView, n: nat) -> Seq<char> {
    seq!['['] + e.level + seq![']', ' '] + spaces(n) + e.timestamp + seq![' '] + e.source + seq![
        ':',
        ' ',
    ] + e.message
}

proof fn lemma_trim_start_spaces(n: nat, s: Seq<char>)
    ensures
        trim_start(spaces(n) + s) == trim_start(s),
    decreases n,
{
    assert(is_ws(' '));
    if n > 0 {
        let u = spaces(n) + s;
        assert(u[0] == ' ');
        assert(u.drop_first() =~= spaces((n - 1) as nat) + s);
        lemma_trim_start_spaces((n - 1) as nat, s);
    } else {
        assert(spaces(n) + s =~= s);
    }
}

proof fn lemma_padded_trim(e: EntryView, n: nat)
    requires
        formattable(e),
    ensures
        trim(padded_line(e, n)) == seq!['['] + e.level + seq![']', ' '] + spaces(n) + fields_text(e),
{
    let m = e.message;
    assert(is_ws(' ') && !is_ws('[') && !is_ws(':'));
    let core = seq!['['] + e.level + seq![']', ' '] + spaces(n) + e.timestamp + seq![' '] + e.source
        + seq![':'];
    let line = padded_line(e, n);
    let t = seq!['['] + e.level + seq![']', ' '] + spaces(n) + fields_text(e);
    assert(line =~= core + seq![' '] + m);
    assert(trim_start(line) == line);
    if m.len() > 0 {
        assert(line.last() == m.last());
        assert(trim_end(line) == line);
        assert(line =~= t);
    } else {
        assert(line.drop_last() =~= core);
        assert(trim_end(core) == core);
        assert(trim_end(line) == core);
        assert(core =~= t);
    }
}

/// Spaces after the `]` do not change the parse: a formatted line with any
/// number of extra spaces between `"] "` and the timestamp reads back as the
/// same entry, and the parser does not stop on it.
pub proof fn law_spaces_after_bracket(e: EntryView, n: nat)
    requires
        formattable(e),
    ensures
        parse_spec(padded_line(e, n)) == Some(e),
        parse_spec(padded_line(e, n)) == parse_spec(format_line(e)),
        !parse_panics(padded_line(e, n)),
{
    law_parse_formatted_line(e);
    let l = e.level;
    let nl = l.len() as int;
    let after = fields_text(e);
    let t = seq!['['] + l + seq![']', ' '] + spaces(n) + after;
    lemma_padded_trim(e, n);
    lemma_fields_split(e);
    let rest = t.drop_first();
    assert(rest =~= l + seq![']', ' '] + (spaces(n) + after));
    assert forall|j: int| 0 <= j < nl implies rest[j] != ']' by {
        assert(rest[j] == l[j]);
        if l[j] == ']' {
            assert(l.contains(']'));
        }
    }
    lemma_first_at(rest, ']', nl);
    assert(rest.take(nl) =~= l);
    lemma_trim_noop(l);
    assert(rest.skip(nl + 2) =~= spaces(n) + after);
    lemma_trim_start_spaces(n, after);
    assert(trim_start(after) == after) by {
        assert(!is_ws(e.timestamp[0]));
        assert(after[0] == e.timestamp[0]);
    }
    assert(trim(spaces(n) + after) == after);
    assert(t[nl + 2] == ' ');
    assert(t.len() >= nl + 5);
}

proof fn lemma_trim_start_shape(s: Seq<char>)
    ensures
        trim_start(s).len() <= s.len(),
        trim_start(s) == s.skip(s.len() - trim_start(s).len()),
        trim_start(s).len() > 0 ==> !is_ws(trim_start(s)[0]),
    decreases s.len(),
{
    if s.len() > 0 && is_ws(s[0]) {
        let r = s.drop_first();
        lemma_trim_start_shape(r);
        assert(r.skip(r.len() - trim_start(r).len()) =~= s.skip(s.len() - trim_start(r).len()));
    } else {
        assert(s.skip(0) =~= s);
    }
}

proof fn lemma_trim_end_shape(s: Seq<char>)
    ensures
        trim_end(s).len() <= s.len(),
        trim_end(s) == s.take(trim_end(s).len() as int),
        trim_end(s).len() > 0 ==> !is_ws(trim_end(s).last()),
        s.len() > 0 && !is_ws(s[0]) ==> trim_end(s).len() > 0,
    decreases s.len(),
{
    if s.len() > 0 && is_ws(s.last()) {
        let r = s.drop_last();
        lemma_trim_end_shape(r);
        assert(r.take(trim_end(r).len() as int) =~= s.take(trim_end(r).len() as int));
        if s.len() > 0 && !is_ws(s[0]) {
            assert(s.len() >= 2);
            assert(r[0] == s[0]);
        }
    } else {
        assert(s.take(s.len() as int) =~= s);
    }
}

/// What trimming gives: a run of `s` that neither starts nor ends with
/// whitespace, and is not empty when `s` starts with a non-space.
proof fn lemma_trim_shape(s: Seq<char>) -> (a: int)
    ensures
        0 <= a,
        a + trim(s).len() <= s.len(),
        trim(s) == s.subrange(a, a + trim(s).len()),
        is_trimmed(trim(s)),
        s.len() > 0 && !is_ws(s[0]) ==> trim(s).len() > 0,
{
    let u = trim_start(s);
    lemma_trim_start_shape(s);
    lemma_trim_end_shape(u);
    let t = trim_end(u);
    let a = s.len() - u.len();
    if s.len() > 0 && !is_ws(s[0]) {
        assert(u == s);
    }
    if t.len() > 0 {
        assert(t[0] == u[0]);
    }
    assert(t =~= s.subrange(a, a + t.len()));
    a
}

/// Every parsed entry has a timestamp: a non-empty word with no space in it
/// and no whitespace at its ends, however the text after the `]` is spaced.
pub proof fn law_parsed_timestamp_is_word(line: Seq<char>)
    ensures
        parse_spec(line) matches Some(e) ==> e.timestamp.len() > 0 && is_trimmed(e.timestamp)
            && !e.timestamp.contains(' '),
{
    let t = trim(line);
    if t.len() > 0 && t[0] == '[' {
        let rest = t.drop_first();
        if let Some(b) = rest.index_of_first(']') {
            let after = trim(rest.skip(b + 2));
            if let Some(i) = after.index_of_first(' ') {
                after.index_of_first_ensures(' ');
                lemma_trim_shape(rest.skip(b + 2));
                assert(is_ws(' '));
                assert(i > 0);
                let x = after.take(i);
                assert(x[0] == after[0]);
                let a = lemma_trim_shape(x);
                let ts = trim(x);
                assert(ts == split_fields(trim(rest.take(b)), after)->0.timestamp);
                if ts.contains(' ') {
                    let j = choose|j: int| 0 <= j < ts.len() && ts[j] == ' ';
                    assert(ts[j] == x[a + j]);
                    assert(x[a + j] == after[a + j]);
                }
            }
        }
    }
}

/// How many times `k` occurs in `keys`.
pub open spec fn occurrences(keys: Seq<Seq<char>>, k: Seq<char>) -> nat
    decreases keys.len(),
{
    if keys.len() == 0 {
        0
    } else {
        occurrences(keys.drop_last(), k) + if keys.last() == k {
            1nat
        } else {
            0nat
        }
    }
}

/// Each key of `keys` with the number of times it occurs.
pub open spec fn tally(keys: Seq<Seq<char>>) -> Map<Seq<char>, nat> {
    Map::new(|k: Seq<char>| keys.contains(k), |k: Seq<char>| occurrences(keys, k))
}

/// The levels of the entries, in order.
pub open spec fn levels(s: Seq<EntryView>) -> Seq<Seq<char>> {
    s.map_values(|e: EntryView| e.level)
}

/// The sources of the entries at level `level`, in order.
pub open spec fn sources_at(s: Seq<EntryView>, level: Seq<char>) -> Seq<Seq<char>>
    decreases s.len(),
{
    if s.len() == 0 {
        Seq::empty()
    } else if s.last().level == level {
        sources_at(s.drop_last(), level).push(s.last().source)
    } else {
        sources_at(s.drop_last(), level)
    }
}

/// The view of a list of counts.
pub open spec fn counts_view(v: Seq<(String, usize)>) -> Seq<(Seq<char>, nat)> {
    v.map_values(|p: (String, usize)| (p.0@, p.1 as nat))
}

/// What `tally` holds.
pub proof fn lemma_tally_facts(keys: Seq<Seq<char>>)
    ensures
        forall|k: Seq<char>| #[trigger] tally(keys).contains_key(k) <==> keys.contains(k),
        forall|k: Seq<char>| keys.contains(k) ==> #[trigger] tally(keys)[k] == occurrences(keys, k),
{
    broadcast use vstd::map_lib::group_map_properties;

}

pub proof fn lemma_occurrences_bound(keys: Seq<Seq<char>>, k: Seq<char>)
    ensures
        occurrences(keys, k) <= keys.len(),
        !keys.contains(k) ==> occurrences(keys, k) == 0,
    decreases keys.len(),
{
    if keys.len() > 0 {
        lemma_occurrences_bound(keys.drop_last(), k);
        if !keys.contains(k) {
            assert(!keys.drop_last().contains(k)) by {
                if keys.drop_last().contains(k) {
                    let i = choose|i: int| 0 <= i < keys.drop_last().len() && keys.drop_last()[i] == k;
                    assert(keys[i] == k);
                }
            }
            assert(keys.last() != k) by {
                assert(keys[keys.len() - 1] == keys.last());
            }
        }
    }
}

/// Counting one more key adds one to its count.
pub proof fn lemma_tally_push(keys: Seq<Seq<char>>, k: Seq<char>)
    ensures
        tally(keys.push(k)) == tally(keys).insert(k, occurrences(keys, k) + 1),
{
    let ks = keys.push(k);
    assert(ks.drop_last() =~= keys);
    assert forall|j: Seq<char>| ks.contains(j) <==> keys.contains(j) || j == k by {
        if ks.contains(j) {
            let i = choose|i: int| 0 <= i < ks.len() && ks[i] == j;
            if i < keys.len() {
                assert(keys[i] == j);
            }
        }
        if keys.contains(j) {
            let i = choose|i: int| 0 <= i < keys.len() && keys[i] == j;
            assert(ks[i] == j);
        }
        if j == k {
            assert(ks[keys.len() as int] == j);
        }
    }
    assert(tally(ks) =~= tally(keys).insert(k, occurrences(keys, k) + 1));
}

/// The sum of the counts of a list of counts.
pub open spec fn sum_counts(s: Seq<(Seq<char>, nat)>) -> nat
    decreases s.len(),
{
    if s.len() == 0 {
        0
    } else {
        sum_counts(s.drop_last()) + s.last().1
    }
}

/// Adding one to one count adds one to the sum.
pub proof fn lemma_sum_counts_bump(s: Seq<(Seq<char>, nat)>, i: int)
    requires
        0 <= i < s.len(),
    ensures
        sum_counts(s.update(i, (s[i].0, s[i].1 + 1))) == sum_counts(s) + 1,
    decreases s.len(),
{
    let t = s.update(i, (s[i].0, s[i].1 + 1));
    if i == s.len() - 1 {
        assert(t.drop_last() =~= s.drop_last());
    } else {
        lemma_sum_counts_bump(s.drop_last(), i);
        assert(t.drop_last() =~= s.drop_last().update(i, (s[i].0, s[i].1 + 1)));
    }
}

/// Count one more occurrence of `key` in `counts`.
fn tally_add(counts: &mut Vec<(String, usize)>, key: &String, Ghost(keys): Ghost<Seq<Seq<char>>>)
    requires
        keys_unique(counts_view(old(counts)@)),
        assoc_map(counts_view(old(counts)@)) == tally(keys),
        keys.len() < usize::MAX,
    ensures
        keys_unique(counts_view(final(counts)@)),
        assoc_map(counts_view(final(counts)@)) == tally(keys.push(key@)),
        sum_counts(counts_view(final(counts)@)) == sum_counts(counts_view(old(counts)@)) + 1,
{
    let ghost cv = counts_view(counts@);
    proof {
        lemma_assoc_facts(cv);
        lemma_tally_push(keys, key@);
        lemma_occurrences_bound(keys, key@);
    }
    let mut i: usize = 0;
    while i < counts.len()
        invariant
            i <= counts@.len(),
            cv == counts_view(counts@),
            cv == counts_view(old(counts)@),
            keys_unique(cv),
            assoc_map(cv) == tally(keys),
            keys.len() < usize::MAX,
            forall|j: int| 0 <= j < i ==> counts@[j].0@ != key@,
        decreases counts@.len() - i,
    {
        if str_eq(counts[i].0.as_str(), key.as_str()) {
            let c = counts[i].1;
            proof {
                lemma_assoc_facts(cv);
                lemma_tally_facts(keys);
                lemma_occurrences_bound(keys, key@);
                lemma_tally_push(keys, key@);
                assert(cv[i as int] == (counts@[i as int].0@, c as nat));
                assert(has_key(cv, key@));
                assert(assoc_map(cv)[cv[i as int].0] == cv[i as int].1);
            }
            counts.set(i, (key.clone(), c + 1));
            proof {
                lemma_assoc_update(cv, i as int, (c + 1) as nat);
                lemma_sum_counts_bump(cv, i as int);
                assert(counts_view(counts@) =~= cv.update(i as int, (cv[i as int].0, (c + 1) as nat)));
            }
            return ;
        }
        i = i + 1;
    }
    proof {
        lemma_assoc_dom(cv);
        if has_key(cv, key@) {
            let j = choose|j: int| 0 <= j < cv.len() && cv[j].0 == key@;
            assert(cv[j].0 == counts@[j].0@);
        }
        lemma_tally_facts(keys);
        assert(!has_key(cv, key@));
        assert(!assoc_map(cv).contains_key(key@));
        assert(!tally(keys).contains_key(key@));
        assert(!keys.contains(key@));
    }
    counts.push((key.clone(), 1));
    proof {
        lemma_assoc_push(cv, key@, 1nat);
        assert(counts_view(counts@) =~= cv.push((key@, 1nat)));
        assert(counts_view(counts@).drop_last() =~= cv);
    }
}

impl LogParser {
    /// For each level that occurs among the entries, the number of entries
    /// at that level; each level is listed once, and every entry is counted
    /// exactly once.
    pub fn count_by_level(&self) -> (r: Vec<(String, usize)>)
        ensures
            keys_unique(counts_view(r@)),
            assoc_map(counts_view(r@)) == tally(levels(self@)),
            sum_counts(counts_view(r@)) == self@.len(),
    {
        let mut counts: Vec<(String, usize)> = Vec::new();
        let ghost all = levels(self@);
        proof {
            assert(counts_view(counts@) =~= Seq::empty());
            assert(tally(all.take(0)) =~= Map::empty());
        }
        let mut i: usize = 0;
        while i < self.entries.len()
            invariant
                i <= self.entries@.len(),
                all == levels(self@),
                all.len() == self.entries@.len(),
                keys_unique(counts_view(counts@)),
                assoc_map(counts_view(counts@)) == tally(all.take(i as int)),
                sum_counts(counts_view(counts@)) == i,
            decreases self.entries@.len() - i,
        {
            proof {
                assert(all.take(i + 1) =~= all.take(i as int).push(self.entries@[i as int].level@));
            }
            tally_add(&mut counts, &self.entries[i].level, Ghost(all.take(i as int)));
            i = i + 1;
        }
        proof {
            assert(all.take(i as int) =~= all);
        }
        counts
    }
}

/// `tv` lists the (at most) `n` keys of `t` with the largest counts, each
/// once, with its count, largest first; every key left out counts no more
/// than any key listed.
pub open spec fn is_top(t: Map<Seq<char>, nat>, n: nat, tv: Seq<(Seq<char>, nat)>) -> bool {
    &&& tv.len() == if n <= t.len() {
        n
    } else {
        t.len()
    }
    &&& keys_unique(tv)
    &&& forall|i: int| 0 <= i < tv.len() ==> t.contains_key(#[trigger] tv[i].0) && t[tv[i].0] == tv[i].1
    &&& forall|i: int, j: int| 0 <= i < j < tv.len() ==> #[trigger] tv[i].1 >= #[trigger] tv[j].1
    &&& forall|k: Seq<char>, i: int|
        #[trigger] t.contains_key(k) && !has_key(tv, k) && 0 <= i < tv.len() ==> t[k] <= #[trigger] tv[i].1
}

pub proof fn lemma_sources_at_len(s: Seq<EntryView>, level: Seq<char>)
    ensures
        sources_at(s, level).len() <= s.len(),
    decreases s.len(),
{
    if s.len() > 0 {
        lemma_sources_at_len(s.drop_last(), level);
    }
}

/// Inserting into a sequence adds one copy to its multiset.
pub proof fn lemma_insert_to_multiset<A>(s: Seq<A>, pos: int, x: A)
    requires
        0 <= pos <= s.len(),
    ensures
        s.insert(pos, x).to_multiset() == s.to_multiset().insert(x),
{
    let t = s.insert(pos, x);
    s.insert_ensures(pos, x);
    assert(t.remove(pos) =~= s);
    t.to_multiset_ensures();
    assert(t[pos] == x);
    assert(t.contains(x));
    assert(t.to_multiset() =~= s.to_multiset().insert(x));
}

/// `pairs` ordered by count, largest first; pairs of equal count keep their
/// relative order.
fn sort_by_count_desc(pairs: &Vec<(String, usize)>) -> (r: Vec<(String, usize)>)
    ensures
        counts_view(r@).to_multiset() == counts_view(pairs@).to_multiset(),
        forall|i: int, j: int| 0 <= i < j < r@.len() ==> #[trigger] r@[i].1 >= #[trigger] r@[j].1,
{
    let ghost pv = counts_view(pairs@);
    let mut out: Vec<(String, usize)> = Vec::new();
    proof {
        assert(counts_view(out@) =~= pv.take(0));
    }
    let mut i: usize = 0;
    while i < pairs.len()
        invariant
            i <= pairs@.len(),
            pv == counts_view(pairs@),
            counts_view(out@).to_multiset() == pv.take(i as int).to_multiset(),
            forall|a: int, b: int| 0 <= a < b < out@.len() ==> #[trigger] out@[a].1 >= #[trigger] out@[b].1,
        decreases pairs@.len() - i,
    {
        let c = pairs[i].1;
        let mut pos: usize = 0;
        while pos < out.len() && out[pos].1 >= c
            invariant
                pos <= out@.len(),
                forall|m: int| 0 <= m < pos ==> #[trigger] out@[m].1 >= c,
            decreases out@.len() - pos,
        {
            pos = pos + 1;
        }
        let ghost ov = out@;
        let item = (pairs[i].0.clone(), c);
        let ghost iv = (item.0@, item.1 as nat);
        out.insert(pos, item);
        proof {
            ov.insert_ensures(pos as int, item);
            assert(counts_view(out@) =~= counts_view(ov).insert(pos as int, iv));
            lemma_insert_to_multiset(counts_view(ov), pos as int, iv);
            assert(pv.take(i + 1) =~= pv.take(i as int).push(pv[i as int]));
            assert(pv[i as int] == iv);
            pv.take(i as int).to_multiset_ensures();
            assert forall|a: int, b: int| 0 <= a < b < out@.len() implies #[trigger] out@[a].1
                >= #[trigger] out@[b].1 by {
                if b < pos {
                } else if b == pos {
                    assert(out@[a] == ov[a]);
                } else if a < pos {
                    assert(out@[b] == ov[b - 1]);
                    assert(ov[pos as int].1 < c);
                    if b - 1 > pos {
                        assert(ov[pos as int].1 >= ov[b - 1].1);
                    }
                } else if a == pos {
                    assert(out@[b] == ov[b - 1]);
                    assert(ov[pos as int].1 < c);
                    if b - 1 > pos {
                        assert(ov[pos as int].1 >= ov[b - 1].1);
                    }
                } else {
                    assert(out@[a] == ov[a - 1]);
                    assert(out@[b] == ov[b - 1]);
                }
            }
        }
        i = i + 1;
    }
    proof {
        assert(pv.take(i as int) =~= pv);
    }
    out
}

impl LogParser {
    /// For each source of an entry at level `level`, the number of such
    /// entries from it; each source listed once.
    fn source_counts(&self, level: &str) -> (r: Vec<(String, usize)>)
        ensures
            keys_unique(counts_view(r@)),
            assoc_map(counts_view(r@)) == tally(sources_at(self@, level@)),
    {
        let mut counts: Vec<(String, usize)> = Vec::new();
        proof {
            assert(counts_view(counts@) =~= Seq::empty());
            assert(sources_at(self@.take(0), level@) =~= Seq::empty());
            assert(tally(Seq::<Seq<char>>::empty()) =~= Map::empty());
        }
        let mut i: usize = 0;
        while i < self.entries.len()
            invariant
                i <= self.entries@.len(),
                keys_unique(counts_view(counts@)),
                assoc_map(counts_view(counts@)) == tally(sources_at(self@.take(i as int), level@)),
            decreases self.entries@.len() - i,
        {
            let ghost pre = self@.take(i as int);
            proof {
                assert(self@.take(i + 1).drop_last() =~= pre);
                assert(self@.take(i + 1).last() == self.entries@[i as int]@);
                lemma_sources_at_len(pre, level@);
            }
            if str_eq(self.entries[i].level.as_str(), level) {
                tally_add(&mut counts, &self.entries[i].source, Ghost(sources_at(pre, level@)));
            }
            i = i + 1;
        }
        proof {
            assert(self@.take(i as int) =~= self@);
        }
        counts
    }

    /// The (at most) `n` sources with the most entries at level `level`,
    /// most entries first, each with its number of entries.  Sources with
    /// equal counts may come in any order; every source left out has no more
    /// entries than any source listed.
    pub fn top_n_sources(&self, n: usize, level: &str) -> (r: Vec<(String, usize)>)
        ensures
            is_top(tally(sources_at(self@, level@)), n as nat, counts_view(r@)),
    {
        let pairs = self.source_counts(level);
        let mut sorted = sort_by_count_desc(&pairs);
        let ghost t = tally(sources_at(self@, level@));
        let ghost pv = counts_view(pairs@);
        let ghost sv = counts_view(sorted@);
        let ghost s0 = sorted@;
        proof {
            lemma_assoc_facts(pv);
            lemma_assoc_len(pv);
            pv.to_multiset_ensures();
            sv.to_multiset_ensures();
            assert(pv.no_duplicates()) by {
                assert forall|a: int, b: int| 0 <= a < pv.len() && 0 <= b < pv.len() && a != b implies pv[a]
                    != pv[b] by {
                    assert(pv[a].0 != pv[b].0);
                }
            }
            pv.lemma_multiset_has_no_duplicates();
            sv.lemma_multiset_has_no_duplicates_conv();
            assert forall|a: int| 0 <= a < sv.len() implies #[trigger] pv.contains(sv[a]) by {
                assert(sv.contains(sv[a]));
                assert(sv.to_multiset().count(sv[a]) > 0);
                assert(pv.to_multiset().count(sv[a]) > 0);
            }
            assert forall|a: int| 0 <= a < pv.len() implies #[trigger] sv.contains(pv[a]) by {
                assert(pv.contains(pv[a]));
                assert(pv.to_multiset().count(pv[a]) > 0);
                assert(sv.to_multiset().count(pv[a]) > 0);
            }
        }
        sorted.truncate(n);
        proof {
            let rv = counts_view(sorted@);
            assert(rv =~= sv.take(rv.len() as int));
            assert forall|i: int| 0 <= i < rv.len() implies t.contains_key(#[trigger] rv[i].0) && t[rv[i].0]
                == rv[i].1 by {
                assert(rv[i] == sv[i]);
                assert(pv.contains(sv[i]));
                let a = choose|a: int| 0 <= a < pv.len() && pv[a] == sv[i];
                assert(assoc_map(pv)[pv[a].0] == pv[a].1);
                assert(has_key(pv, pv[a].0));
            }
            assert forall|i: int, j: int| 0 <= i < j < rv.len() implies #[trigger] rv[i].1 >= #[trigger] rv[j].1 by {
                assert(rv[i] == sv[i]);
                assert(rv[j] == sv[j]);
                assert(sv[i].1 == s0[i].1);
                assert(sv[j].1 == s0[j].1);
            }
            assert forall|a: int, b: int| 0 <= a < rv.len() && 0 <= b < rv.len() && a != b implies rv[a].0
                != rv[b].0 by {
                assert(rv[a] == sv[a]);
                assert(rv[b] == sv[b]);
                assert(sv[a] != sv[b]);
                assert(pv.contains(sv[a]));
                assert(pv.contains(sv[b]));
                let x = choose|x: int| 0 <= x < pv.len() && pv[x] == sv[a];
                let y = choose|y: int| 0 <= y < pv.len() && pv[y] == sv[b];
                assert(x != y);
            }
            assert forall|k: Seq<char>, i: int|
                #[trigger] t.contains_key(k) && !has_key(rv, k) && 0 <= i < rv.len() implies t[k]
                <= #[trigger] rv[i].1 by {
                let a = choose|a: int| 0 <= a < pv.len() && pv[a].0 == k;
                assert(assoc_map(pv)[pv[a].0] == pv[a].1);
                assert(sv.contains(pv[a]));
                let m = choose|m: int| 0 <= m < sv.len() && sv[m] == pv[a];
                if m < rv.len() {
                    assert(rv[m] == sv[m]);
                }
                assert(rv[i] == sv[i]);
                assert(sv[i].1 == s0[i].1);
                assert(sv[m].1 == s0[m].1);
            }
        }
        sorted
    }
}

/// The decimal digit `d`.
pub open spec fn digit(d: nat) -> char {
    if d == 0 {
        '0'
    } else if d == 1 {
        '1'
    } else if d == 2 {
        '2'
    } else if d == 3 {
        '3'
    } else if d == 4 {
        '4'
    } else if d == 5 {
        '5'
    } else if d == 6 {
        '6'
    } else if d == 7 {
        '7'
    } else if d == 8 {
        '8'
    } else {
        '9'
    }
}

/// The decimal form of `n`, as `{}` formats it.
pub open spec fn dec(n: nat) -> Seq<char>
    decreases n,
{
    if n < 10 {
        seq![digit(n)]
    } else {
        dec(n / 10).push(digit(n % 10))
    }
}

/// `s` padded with spaces on the right to six characters, as `{:<6}` does.
pub open spec fn pad6(s: Seq<char>) -> Seq<char> {
    if s.len() >= 6 {
        s
    } else {
        s + Seq::new((6 - s.len()) as nat, |i: int| ' ')
    }
}

/// The summary line of one level.
pub open spec fn level_line(level: Seq<char>, count: nat) -> Seq<char> {
    " "@ + pad6(level) + " : "@ + dec(count) + " entries\n"@
}

/// The summary lines of the levels, in order.
pub open spec fn level_block(ls: Seq<(Seq<char>, nat)>) -> Seq<char>
    decreases ls.len(),
{
    if ls.len() == 0 {
        Seq::empty()
    } else {
        level_block(ls.drop_last()) + level_line(ls.last().0, ls.last().1)
    }
}

/// The summary line of the `rank`-th top source.
pub open spec fn top_line(rank: nat, source: Seq<char>, count: nat) -> Seq<char> {
    " "@ + dec(rank) + ". "@ + source + " ("@ + dec(count) + " errors)\n"@
}

/// The summary lines of the top sources, ranked from 1.
pub open spec fn top_block(top: Seq<(Seq<char>, nat)>) -> Seq<char>
    decreases top.len(),
{
    if top.len() == 0 {
        Seq::empty()
    } else {
        top_block(top.drop_last()) + top_line(top.len(), top.last().0, top.last().1)
    }
}

/// The whole summary of `n` entries with level counts `ls` and top error
/// sources `top`.
pub open spec fn render_summary(n: nat, ls: Seq<(Seq<char>, nat)>, top: Seq<(Seq<char>, nat)>) -> Seq<
    char,
> {
    "=== Log Summary ("@ + dec(n) + " entries) ===\n"@ + level_block(ls) + if top.len() == 0 {
        Seq::<char>::empty()
    } else {
        "--- Top ERROR sources ---\n"@ + top_block(top)
    }
}

/// `ls` lists every level of `entries` once, with its count, in the byte
/// order of the level names (the order of `String`'s `Ord`).
pub open spec fn levels_in_order(entries: Seq<EntryView>, ls: Seq<(Seq<char>, nat)>) -> bool {
    &&& keys_unique(ls)
    &&& assoc_map(ls) == tally(levels(entries))
    &&& forall|i: int, j: int|
        0 <= i < j < ls.len() ==> bytes_lt(encode_utf8(#[trigger] ls[i].0), encode_utf8(#[trigger] ls[j].0))
}

/// The characters of the decimal digit `d`.
fn digit_char(d: usize) -> (r: char)
    requires
        d < 10,
    ensures
        r == digit(d as nat),
{
    if d == 0 {
        '0'
    } else if d == 1 {
        '1'
    } else if d == 2 {
        '2'
    } else if d == 3 {
        '3'
    } else if d == 4 {
        '4'
    } else if d == 5 {
        '5'
    } else if d == 6 {
        '6'
    } else if d == 7 {
        '7'
    } else if d == 8 {
        '8'
    } else {
        '9'
    }
}

/// Append the decimal form of `n`.
fn push_dec(out: &mut String, n: usize)
    ensures
        final(out)@ == old(out)@ + dec(n as nat),
    decreases n,
{
    if n >= 10 {
        push_dec(out, n / 10);
    }
    out.push(digit_char(n % 10));
    proof {
        if n >= 10 {
            assert(dec(n as nat) == dec((n / 10) as nat).push(digit((n % 10) as nat)));
        }
    }
}

/// Two key-unique lists with the same pairs stand for the same map.
proof fn lemma_same_pairs_same_map(a: Seq<(Seq<char>, nat)>, b: Seq<(Seq<char>, nat)>)
    requires
        keys_unique(a),
        keys_unique(b),
        a.to_multiset() == b.to_multiset(),
    ensures
        assoc_map(a) == assoc_map(b),
{
    lemma_assoc_facts(a);
    lemma_assoc_facts(b);
    a.to_multiset_ensures();
    b.to_multiset_ensures();
    assert forall|x: (Seq<char>, nat)| a.contains(x) <==> b.contains(x) by {
        if a.contains(x) {
            assert(a.to_multiset().count(x) > 0);
        }
        if b.contains(x) {
            assert(b.to_multiset().count(x) > 0);
        }
    }
    assert forall|k: Seq<char>| #[trigger] assoc_map(a).contains_key(k) <==> assoc_map(b).contains_key(k) by {
        if has_key(a, k) {
            let i = choose|i: int| 0 <= i < a.len() && a[i].0 == k;
            assert(a.contains(a[i]));
            let j = choose|j: int| 0 <= j < b.len() && b[j] == a[i];
            assert(has_key(b, k));
        }
        if has_key(b, k) {
            let i = choose|i: int| 0 <= i < b.len() && b[i].0 == k;
            assert(b.contains(b[i]));
            let j = choose|j: int| 0 <= j < a.len() && a[j] == b[i];
            assert(has_key(a, k));
        }
    }
    assert forall|k: Seq<char>| #[trigger] assoc_map(a).contains_key(k) implies assoc_map(a)[k] == assoc_map(b)[k] by {
        let i = choose|i: int| 0 <= i < a.len() && a[i].0 == k;
        assert(assoc_map(a)[a[i].0] == a[i].1);
        assert(a.contains(a[i]));
        let j = choose|j: int| 0 <= j < b.len() && b[j] == a[i];
        assert(assoc_map(b)[b[j].0] == b[j].1);
    }
    assert(assoc_map(a) =~= assoc_map(b));
}

/// `pairs` (keys distinct) ordered by the byte order of their keys.
fn sort_by_key(pairs: &Vec<(String, usize)>) -> (r: Vec<(String, usize)>)
    requires
        keys_unique(counts_view(pairs@)),
    ensures
        counts_view(r@).to_multiset() == counts_view(pairs@).to_multiset(),
        forall|i: int, j: int|
            0 <= i < j < r@.len() ==> bytes_lt(encode_utf8(#[trigger] r@[i].0@), encode_utf8(#[trigger] r@[j].0@)),
{
    let ghost pv = counts_view(pairs@);
    let mut out: Vec<(String, usize)> = Vec::new();
    proof {
        assert(counts_view(out@) =~= pv.take(0));
    }
    let mut i: usize = 0;
    while i < pairs.len()
        invariant
            i <= pairs@.len(),
            pv == counts_view(pairs@),
            keys_unique(pv),
            counts_view(out@).to_multiset() == pv.take(i as int).to_multiset(),
            forall|a: int, b: int|
                0 <= a < b < out@.len() ==> bytes_lt(encode_utf8(#[trigger] out@[a].0@), encode_utf8(#[trigger] out@[b].0@)),
        decreases pairs@.len() - i,
    {
        let ghost ov = out@;
        let ghost x = pv[i as int];
        proof {
            let ovv = counts_view(ov);
            ovv.to_multiset_ensures();
            pv.take(i as int).to_multiset_ensures();
            assert forall|m: int| 0 <= m < ov.len() implies #[trigger] ov[m].0@ != x.0 by {
                assert(ovv[m] == (ov[m].0@, ov[m].1 as nat));
                assert(ovv.contains(ovv[m]));
                assert(ovv.to_multiset().count(ovv[m]) > 0);
                assert(pv.take(i as int).contains(ovv[m]));
                let j = choose|j: int| 0 <= j < i && pv.take(i as int)[j] == ovv[m];
                assert(pv[j] == ovv[m]);
            }
        }
        let mut pos: usize = 0;
        while pos < out.len() && str_lt(out[pos].0.as_str(), pairs[i].0.as_str())
            invariant
                pos <= out@.len(),
                i < pairs@.len(),
                forall|m: int|
                    0 <= m < pos ==> bytes_lt(encode_utf8(#[trigger] out@[m].0@), encode_utf8(pairs@[i as int].0@)),
            decreases out@.len() - pos,
        {
            pos = pos + 1;
        }
        let item = (pairs[i].0.clone(), pairs[i].1);
        let ghost iv = (item.0@, item.1 as nat);
        out.insert(pos, item);
        proof {
            ov.insert_ensures(pos as int, item);
            assert(counts_view(out@) =~= counts_view(ov).insert(pos as int, iv));
            lemma_insert_to_multiset(counts_view(ov), pos as int, iv);
            assert(pv.take(i + 1) =~= pv.take(i as int).push(pv[i as int]));
            assert(pv[i as int] == iv);
            pv.take(i as int).to_multiset_ensures();
            let xe = encode_utf8(x.0);
            if pos < ov.len() {
                lemma_bytes_lt_total(xe, encode_utf8(ov[pos as int].0@));
                if xe == encode_utf8(ov[pos as int].0@) {
                    assert(vstd::utf8::decode_utf8(xe) == x.0);
                    assert(vstd::utf8::decode_utf8(encode_utf8(ov[pos as int].0@)) == ov[pos as int].0@);
                }
            }
            assert forall|a: int, b: int| 0 <= a < b < out@.len() implies bytes_lt(
                encode_utf8(#[trigger] out@[a].0@),
                encode_utf8(#[trigger] out@[b].0@),
            ) by {
                if b < pos {
                } else if b == pos {
                    assert(out@[a] == ov[a]);
                } else if a < pos {
                    assert(out@[b] == ov[b - 1]);
                    if b - 1 > pos {
                        lemma_bytes_lt_trans(xe, encode_utf8(ov[pos as int].0@), encode_utf8(ov[b - 1].0@));
                    }
                    lemma_bytes_lt_trans(encode_utf8(ov[a].0@), xe, encode_utf8(ov[b - 1].0@));
                } else if a == pos {
                    assert(out@[b] == ov[b - 1]);
                    if b - 1 > pos {
                        lemma_bytes_lt_trans(xe, encode_utf8(ov[pos as int].0@), encode_utf8(ov[b - 1].0@));
                    }
                } else {
                    assert(out@[a] == ov[a - 1]);
                    assert(out@[b] == ov[b - 1]);
                }
            }
        }
        i = i + 1;
    }
    proof {
        assert(pv.take(i as int) =~= pv);
    }
    out
}

impl LogParser {
    /// The human-readable summary of the parsed entries: a header with the
    /// number of entries, one line per level (in the byte order of level
    /// names) with its count, and, when there are `ERROR` entries, the top
    /// three sources of errors.
    pub fn summary(&self) -> (r: String)
        ensures
            exists|ls: Seq<(Seq<char>, nat)>, top: Seq<(Seq<char>, nat)>|
                #[trigger] levels_in_order(self@, ls) && #[trigger] is_top(
                    tally(sources_at(self@, "ERROR"@)),
                    3,
                    top,
                ) && r@ == render_summary(self@.len(), ls, top),
    {
        let mut out = String::new();
        out.append("=== Log Summary (");
        push_dec(&mut out, self.entries.len());
        out.append(" entries) ===\n");
        let ghost header = out@;
        let counts = self.count_by_level();
        let sorted = sort_by_key(&counts);
        let ghost ls = counts_view(sorted@);
        proof {
            assert(self@.len() == self.entries@.len());
            let cv = counts_view(counts@);
            ls.to_multiset_ensures();
            cv.to_multiset_ensures();
            assert forall|a: int, b: int| 0 <= a < ls.len() && 0 <= b < ls.len() && a != b implies ls[a].0
                != ls[b].0 by {
                let (lo, hi) = if a < b { (a, b) } else { (b, a) };
                assert(bytes_lt(encode_utf8(sorted@[lo].0@), encode_utf8(sorted@[hi].0@)));
                lemma_bytes_lt_irrefl(encode_utf8(sorted@[lo].0@));
            }
            lemma_same_pairs_same_map(ls, cv);
            assert forall|i: int, j: int| 0 <= i < j < ls.len() implies bytes_lt(
                encode_utf8(#[trigger] ls[i].0),
                encode_utf8(#[trigger] ls[j].0),
            ) by {
                assert(bytes_lt(encode_utf8(sorted@[i].0@), encode_utf8(sorted@[j].0@)));
            }
            assert(levels_in_order(self@, ls));
            assert(ls.take(0) =~= Seq::<(Seq<char>, nat)>::empty());
        }
        let mut i: usize = 0;
        while i < sorted.len()
            invariant
                i <= sorted@.len(),
                ls == counts_view(sorted@),
                out@ == header + level_block(ls.take(i as int)),
            decreases sorted@.len() - i,
        {
            let ghost before = out@;
            let level = sorted[i].0.as_str();
            out.append(" ");
            out.append(level);
            let width = chars_of(level).len();
            let mut w = width;
            while w < 6
                invariant
                    width <= 6 ==> width <= w <= 6,
                    width > 6 ==> w == width,
                    out@ == before + " "@ + level@ + Seq::new((w - width) as nat, |k: int| ' '),
                decreases 6 - w,
            {
                out.push(' ');
                w = w + 1;
                assert(out@ =~= before + " "@ + level@ + Seq::new((w - width) as nat, |k: int| ' '));
            }
            out.append(" : ");
            push_dec(&mut out, sorted[i].1);
            out.append(" entries\n");
            proof {
                assert(ls[i as int] == (level@, sorted@[i as int].1 as nat));
                assert(ls.take(i + 1).drop_last() =~= ls.take(i as int));
                if width >= 6 {
                    assert(Seq::new((w - width) as nat, |k: int| ' ') =~= Seq::<char>::empty());
                    assert(pad6(level@) == level@);
                    assert(level@ + Seq::<char>::empty() =~= level@);
                } else {
                    assert(pad6(level@) =~= level@ + Seq::new((w - width) as nat, |k: int| ' '));
                }
                assert(out@ =~= before + level_line(level@, sorted@[i as int].1 as nat));
            }
            i = i + 1;
        }
        proof {
            assert(ls.take(i as int) =~= ls);
        }
        let ghost with_levels = out@;
        let top = self.top_n_sources(3, "ERROR");
        let ghost tv = counts_view(top@);
        if top.len() > 0 {
            out.append("--- Top ERROR sources ---\n");
            let ghost top_header = out@;
            proof {
                assert(tv.take(0) =~= Seq::<(Seq<char>, nat)>::empty());
            }
            let mut j: usize = 0;
            while j < top.len()
                invariant
                    j <= top@.len(),
                    top@.len() <= 3,
                    tv == counts_view(top@),
                    out@ == top_header + top_block(tv.take(j as int)),
                decreases top@.len() - j,
            {
                let ghost before = out@;
                out.append(" ");
                push_dec(&mut out, j + 1);
                out.append(". ");
                out.append(top[j].0.as_str());
                out.append(" (");
                push_dec(&mut out, top[j].1);
                out.append(" errors)\n");
                proof {
                    assert(tv[j as int] == (top@[j as int].0@, top@[j as int].1 as nat));
                    assert(tv.take(j + 1).drop_last() =~= tv.take(j as int));
                    assert(tv.take(j + 1).len() == j + 1);
                    assert(out@ =~= before + top_line((j + 1) as nat, top@[j as int].0@, top@[j as int].1 as nat));
                }
                j = j + 1;
            }
            proof {
                assert(tv.take(j as int) =~= tv);
                assert(out@ =~= render_summary(self@.len(), ls, tv));
            }
        } else {
            proof {
                assert(out@ =~= render_summary(self@.len(), ls, tv));
            }
        }
        out
    }
}

} // verus!
