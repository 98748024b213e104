//! Delimiters and delimiter-based list parsing.

use vstd::prelude::*;

pub use crate::json::parse_json_to_list;

use crate::text::{find_char, lemma_find_char, lemma_find_char_is, push_char, views};

verus! {

/// Supported delimiters for parsing lists.
#[derive(Debug, Clone, Copy, PartialEq, Eq, Structural)]
pub enum Delimiter {
    /// Newline character (`\n`).
    Newline,
    /// Tab character (`\t`).
    Tab,
    /// Comma (`,`).
    Comma,
    /// Semicolon (`;`).
    Semicolon,
    /// JSON format; split through the JSON path, not by a character.
    Json,
}

/// The split character of each delimiter. The JSON variant has no
/// meaningful split character; its fallback is `'{'`.
pub open spec fn delim_char(d: Delimiter) -> char {
    match d {
        Delimiter::Newline => '\n',
        Delimiter::Tab => '\t',
        Delimiter::Comma => ',',
        Delimiter::Semicolon => ';',
        Delimiter::Json => '{',
    }
}

/// The display label of each delimiter.
pub open spec fn spec_display_name(d: Delimiter) -> Seq<char> {
    match d {
        Delimiter::Newline => "\\n"@,
        Delimiter::Tab => "\\t"@,
        Delimiter::Comma => ","@,
        Delimiter::Semicolon => ";"@,
        Delimiter::Json => "JSON"@,
    }
}

/// The successor of each delimiter in the fixed cycle
/// Newline, Tab, Comma, Semicolon, Json, Newline, ...
pub open spec fn spec_next_delimiter(d: Delimiter) -> Delimiter {
    match d {
        Delimiter::Newline => Delimiter::Tab,
        Delimiter::Tab => Delimiter::Comma,
        Delimiter::Comma => Delimiter::Semicolon,
        Delimiter::Semicolon => Delimiter::Json,
        Delimiter::Json => Delimiter::Newline,
    }
}

impl Delimiter {
    /// Get the character representation of the delimiter.
    pub fn as_char(&self) -> (r: char)
        ensures
            r == delim_char(*self),
    {
        match self {
            Delimiter::Newline => '\n',
            Delimiter::Tab => '\t',
            Delimiter::Comma => ',',
            Delimiter::Semicolon => ';',
            Delimiter::Json => '{',
        }
    }

    /// Get a display string for the delimiter.
    pub fn display_name(&self) -> (r: &'static str)
        ensures
            r@ == spec_display_name(*self),
    {
        match self {
            Delimiter::Newline => "\\n",
            Delimiter::Tab => "\\t",
            Delimiter::Comma => ",",
            Delimiter::Semicolon => ";",
            Delimiter::Json => "JSON",
        }
    }

    /// Cycle to the next delimiter.
    pub fn next(&self) -> (r: Self)
        ensures
            r == spec_next_delimiter(*self),
    {
        match self {
            Delimiter::Newline => Delimiter::Tab,
            Delimiter::Tab => Delimiter::Comma,
            Delimiter::Comma => Delimiter::Semicolon,
            Delimiter::Semicolon => Delimiter::Json,
            Delimiter::Json => Delimiter::Newline,
        }
    }
}

/// Line-ending normalization: each CRLF pair becomes one LF, and every
/// remaining lone CR becomes LF. This is what replacing `"\r\n"` with
/// `"\n"` and then `"\r"` with `"\n"` leaves.
pub open spec fn spec_norm_eol(s: Seq<char>) -> Seq<char>
    decreases s.len(),
{
    if s.len() == 0 {
        Seq::empty()
    } else if s[0] == '\r' && s.len() >= 2 && s[1] == '\n' {
        seq!['\n'] + spec_norm_eol(s.subrange(2, s.len() as int))
    } else if s[0] == '\r' {
        seq!['\n'] + spec_norm_eol(s.drop_first())
    } else {
        seq![s[0]] + spec_norm_eol(s.drop_first())
    }
}

/// The normalized text never contains CR.
pub proof fn lemma_norm_eol_no_cr(s: Seq<char>)
    ensures
        forall|k: int| 0 <= k < spec_norm_eol(s).len() ==> spec_norm_eol(s)[k] != '\r',
    decreases s.len(),
{
    if s.len() == 0 {
    } else if s[0] == '\r' && s.len() >= 2 && s[1] == '\n' {
        let rest = spec_norm_eol(s.subrange(2, s.len() as int));
        lemma_norm_eol_no_cr(s.subrange(2, s.len() as int));
        assert forall|k: int| 0 <= k < spec_norm_eol(s).len() implies spec_norm_eol(s)[k] != '\r' by {
            if k > 0 {
                assert(spec_norm_eol(s)[k] == rest[k - 1]);
            }
        }
    } else if s[0] == '\r' {
        let rest = spec_norm_eol(s.drop_first());
        lemma_norm_eol_no_cr(s.drop_first());
        assert forall|k: int| 0 <= k < spec_norm_eol(s).len() implies spec_norm_eol(s)[k] != '\r' by {
            if k > 0 {
                assert(spec_norm_eol(s)[k] == rest[k - 1]);
            }
        }
    } else {
        let rest = spec_norm_eol(s.drop_first());
        lemma_norm_eol_no_cr(s.drop_first());
        assert forall|k: int| 0 <= k < spec_norm_eol(s).len() implies spec_norm_eol(s)[k] != '\r' by {
            if k > 0 {
                assert(spec_norm_eol(s)[k] == rest[k - 1]);
            }
        }
    }
}

/// Normalization leaves CR-free text unchanged.
pub proof fn lemma_norm_eol_id(s: Seq<char>)
    requires
        forall|k: int| 0 <= k < s.len() ==> s[k] != '\r',
    ensures
        spec_norm_eol(s) == s,
    decreases s.len(),
{
    if s.len() == 0 {
        assert(spec_norm_eol(s) =~= s);
    } else {
        let t = s.drop_first();
        assert(forall|k: int| 0 <= k < t.len() ==> t[k] != '\r');
        lemma_norm_eol_id(t);
        assert(spec_norm_eol(s) =~= s);
    }
}

/// Normalizing twice is the same as normalizing once.
pub proof fn lemma_norm_eol_idempotent(s: Seq<char>)
    ensures
        spec_norm_eol(spec_norm_eol(s)) == spec_norm_eol(s),
{
    lemma_norm_eol_no_cr(s);
    lemma_norm_eol_id(spec_norm_eol(s));
}

/// Normalization yields an empty text only for an empty input.
pub proof fn lemma_norm_eol_empty(s: Seq<char>)
    ensures
        spec_norm_eol(s).len() == 0 <==> s.len() == 0,
{
    if s.len() > 0 {
        assert(spec_norm_eol(s).len() >= 1);
    }
}

/// Replace CRLF/CR with LF to keep parsing consistent across platforms.
pub fn normalize_line_endings(input: &str) -> (r: String)
    ensures
        r@ == spec_norm_eol(input@),
{
    let n = input.unicode_len();
    let mut out = String::new();
    let mut i: usize = 0;
    proof {
        assert(input@.subrange(0, n as int) =~= input@);
        assert(out@ + spec_norm_eol(input@) =~= spec_norm_eol(input@));
    }
    while i < n
        invariant
            0 <= i <= n,
            n == input@.len(),
            out@ + spec_norm_eol(input@.subrange(i as int, n as int)) == spec_norm_eol(input@),
        decreases n - i,
    {
        let ghost suf = input@.subrange(i as int, n as int);
        let c = input.get_char(i);
        if c == '\r' {
            if i + 1 < n && input.get_char(i + 1) == '\n' {
                push_char(&mut out, '\n');
                proof {
                    assert(suf[0] == '\r' && suf.len() >= 2 && suf[1] == '\n');
                    assert(suf.subrange(2, suf.len() as int) =~= input@.subrange(
                        i + 2,
                        n as int,
                    ));
                    assert(out@ + spec_norm_eol(input@.subrange(i + 2, n as int))
                        =~= spec_norm_eol(input@));
                }
                i = i + 2;
            } else {
                push_char(&mut out, '\n');
                proof {
                    assert(suf[0] == '\r');
                    assert(!(suf.len() >= 2 && suf[1] == '\n'));
                    assert(suf.drop_first() =~= input@.subrange(i + 1, n as int));
                    assert(out@ + spec_norm_eol(input@.subrange(i + 1, n as int))
                        =~= spec_norm_eol(input@));
                }
                i = i + 1;
            }
        } else {
            push_char(&mut out, c);
            proof {
                assert(suf[0] == c && c != '\r');
                assert(suf.drop_first() =~= input@.subrange(i + 1, n as int));
                assert(out@ + spec_norm_eol(input@.subrange(i + 1, n as int)) =~= spec_norm_eol(
                    input@,
                ));
            }
            i = i + 1;
        }
    }
    proof {
        assert(input@.subrange(n as int, n as int) =~= Seq::<char>::empty());
        assert(out@ =~= spec_norm_eol(input@));
    }
    out
}

/// Splitting a text on a character: the segments between occurrences,
/// in order, including empty segments and a final (possibly empty)
/// segment. An empty text yields one empty segment.
pub open spec fn spec_split(s: Seq<char>, c: char) -> Seq<Seq<char>>
    decreases s.len(),
    via spec_split_decreases
{
    let i = find_char(s, c);
    if i == s.len() {
        seq![s]
    } else {
        seq![s.subrange(0, i)] + spec_split(s.subrange(i + 1, s.len() as int), c)
    }
}

#[via_fn]
proof fn spec_split_decreases(s: Seq<char>, c: char) {
    lemma_find_char(s, c);
}

/// What `parse_list` returns: empty input gives no items; otherwise the
/// normalized text is split on the delimiter's character, and a trailing
/// empty segment (from a trailing delimiter) is dropped.
pub open spec fn spec_parse(s: Seq<char>, d: Delimiter) -> Seq<Seq<char>> {
    if s.len() == 0 {
        Seq::empty()
    } else {
        let parts = spec_split(spec_norm_eol(s), delim_char(d));
        if parts.len() > 0 && parts.last().len() == 0 {
            parts.drop_last()
        } else {
            parts
        }
    }
}

/// Parse a string into a vector of items using the specified delimiter.
///
/// Empty input yields no items; a trailing delimiter does not produce a
/// trailing empty item; interior empty items are preserved.
pub fn parse_list(input: &str, delimiter: Delimiter) -> (r: Vec<String>)
    ensures
        views(r@) == spec_parse(input@, delimiter),
{
    if input.is_empty() {
        let r: Vec<String> = Vec::new();
        proof {
            assert(views(r@) =~= spec_parse(input@, delimiter));
        }
        return r;
    }
    let normalized = normalize_line_endings(input);
    let t = normalized.as_str();
    let n = t.unicode_len();
    let c = delimiter.as_char();
    let ghost s = t@;
    let mut items: Vec<String> = Vec::new();
    let mut start: usize = 0;
    let mut j: usize = 0;
    proof {
        assert(s.subrange(0, n as int) =~= s);
        assert(views(items@) =~= Seq::<Seq<char>>::empty());
        assert(views(items@) + spec_split(s, c) =~= spec_split(s, c));
    }
    while j < n
        invariant
            0 <= start <= j <= n,
            n == s.len(),
            t@ == s,
            c == delim_char(delimiter),
            forall|k: int| start <= k < j ==> s[k] != c,
            views(items@) + spec_split(s.subrange(start as int, n as int), c) == spec_split(s, c),
        decreases n - j,
    {
        if t.get_char(j) == c {
            let piece = t.substring_char(start, j).to_owned();
            let ghost old_items = items@;
            items.push(piece);
            proof {
                let suf = s.subrange(start as int, n as int);
                assert(forall|k: int| 0 <= k < j - start ==> suf[k] != c);
                assert(suf[j - start] == c);
                lemma_find_char_is(suf, c, j - start);
                assert(suf.subrange(0, j - start) =~= s.subrange(start as int, j as int));
                assert(suf.subrange(j - start + 1, suf.len() as int) =~= s.subrange(
                    j + 1,
                    n as int,
                ));
                assert(spec_split(suf, c) == seq![s.subrange(start as int, j as int)] + spec_split(
                    s.subrange(j + 1, n as int),
                    c,
                ));
                assert(views(items@) =~= views(old_items).push(piece@));
                assert(views(items@) + spec_split(s.subrange(j + 1, n as int), c) =~= views(
                    old_items,
                ) + spec_split(suf, c));
            }
            start = j + 1;
        }
        j = j + 1;
    }
    let piece = t.substring_char(start, n).to_owned();
    let ghost old_items = items@;
    items.push(piece);
    proof {
        let suf = s.subrange(start as int, n as int);
        assert(forall|k: int| 0 <= k < suf.len() ==> suf[k] != c);
        lemma_find_char_is(suf, c, suf.len() as int);
        assert(spec_split(suf, c) == seq![suf]);
        assert(piece@ == suf);
        assert(views(items@) =~= views(old_items).push(piece@));
        assert(views(items@) =~= spec_split(s, c));
    }
    let last_is_empty = items[items.len() - 1].as_str().is_empty();
    if last_is_empty {
        let _ = items.pop();
        proof {
            let parts = spec_split(s, c);
            assert(parts.last().len() == 0);
            assert(views(items@) =~= parts.drop_last());
        }
    }
    proof {
        assert(spec_norm_eol(input@) == s);
        assert(views(items@) == spec_parse(input@, delimiter));
    }
    items
}

/// Joining items with a separator character: the items in order with one
/// separator between neighbours.
pub open spec fn spec_join(m: Seq<Seq<char>>, c: char) -> Seq<char>
    decreases m.len(),
{
    if m.len() == 0 {
        Seq::empty()
    } else if m.len() == 1 {
        m[0]
    } else {
        m[0] + seq![c] + spec_join(m.drop_first(), c)
    }
}

/// Appending one more item extends the join by a separator and the item.
pub proof fn lemma_join_push(m: Seq<Seq<char>>, x: Seq<char>, c: char)
    requires
        m.len() >= 1,
    ensures
        spec_join(m.push(x), c) == spec_join(m, c) + seq![c] + x,
    decreases m.len(),
{
    let e = m.push(x);
    if m.len() == 1 {
        assert(e.drop_first() =~= seq![x]);
        assert(spec_join(e.drop_first(), c) == x);
        assert(e[0] == m[0]);
        assert(spec_join(e, c) =~= m[0] + seq![c] + x);
    } else {
        assert(e.drop_first() =~= m.drop_first().push(x));
        lemma_join_push(m.drop_first(), x, c);
        assert(spec_join(e, c) =~= spec_join(m, c) + seq![c] + x);
    }
}

/// Join lines using the given delimiter so parsing respects the selected
/// separator.
pub fn join_lines_with_delimiter(lines: &Vec<String>, delimiter: Delimiter) -> (r: String)
    ensures
        r@ == spec_join(views(lines@), delim_char(delimiter)),
{
    join_with_char(lines, delimiter.as_char())
}

/// Join items with a separator character.
pub fn join_with_char(lines: &Vec<String>, c: char) -> (r: String)
    ensures
        r@ == spec_join(views(lines@), c),
{
    let mut out = String::new();
    let mut i: usize = 0;
    while i < lines.len()
        invariant
            0 <= i <= lines@.len(),
            out@ == spec_join(views(lines@).subrange(0, i as int), c),
        decreases lines@.len() - i,
    {
        let ghost m = views(lines@);
        if i > 0 {
            push_char(&mut out, c);
        }
        out.append(lines[i].as_str());
        proof {
            assert(m.subrange(0, i + 1) =~= m.subrange(0, i as int).push(m[i as int]));
            if i == 0 {
                assert(m.subrange(0, 1) =~= seq![m[0]]);
                assert(spec_join(m.subrange(0, 1), c) == m[0]);
            } else {
                lemma_join_push(m.subrange(0, i as int), m[i as int], c);
            }
            assert(out@ == spec_join(m.subrange(0, i + 1), c));
        }
        i = i + 1;
    }
    proof {
        assert(views(lines@).subrange(0, lines@.len() as int) =~= views(lines@));
    }
    out
}

/// Every character of every item differs from the separator and from CR
/// and LF.
pub open spec fn items_clean(m: Seq<Seq<char>>, c: char) -> bool {
    forall|i: int, k: int|
        0 <= i < m.len() && 0 <= k < m[i].len() ==> #[trigger] m[i][k] != c && m[i][k] != '\r'
            && m[i][k] != '\n'
}

/// A join of CR-free items with a CR-free separator contains no CR.
proof fn lemma_join_no_cr(m: Seq<Seq<char>>, c: char)
    requires
        items_clean(m, c),
        c != '\r',
    ensures
        forall|k: int| 0 <= k < spec_join(m, c).len() ==> spec_join(m, c)[k] != '\r',
    decreases m.len(),
{
    if m.len() == 0 {
    } else if m.len() == 1 {
        assert(forall|k: int| 0 <= k < m[0].len() ==> #[trigger] m[0][k] != '\r');
    } else {
        let t = m.drop_first();
        assert(items_clean(t, c)) by {
            assert(forall|i: int, k: int|
                0 <= i < t.len() && 0 <= k < t[i].len() ==> #[trigger] t[i][k] == m[i + 1][k]);
        }
        lemma_join_no_cr(t, c);
        let j = spec_join(m, c);
        let jt = spec_join(t, c);
        assert forall|k: int| 0 <= k < j.len() implies j[k] != '\r' by {
            if k < m[0].len() {
                assert(j[k] == m[0][k]);
            } else if k == m[0].len() {
                assert(j[k] == c);
            } else {
                assert(j[k] == jt[k - m[0].len() - 1]);
            }
        }
    }
}

/// Splitting a join of separator-free items recovers the items; a
/// trailing separator adds one empty segment at the end.
proof fn lemma_split_join(m: Seq<Seq<char>>, c: char, trailing: bool)
    requires
        m.len() >= 1,
        forall|i: int, k: int| 0 <= i < m.len() && 0 <= k < m[i].len() ==> #[trigger] m[i][k] != c,
    ensures
        spec_split(
            spec_join(m, c) + (if trailing {
                seq![c]
            } else {
                Seq::<char>::empty()
            }),
            c,
        ) == (if trailing {
            m.push(Seq::<char>::empty())
        } else {
            m
        }),
    decreases m.len(),
{
    let tail: Seq<char> = if trailing {
        seq![c]
    } else {
        Seq::empty()
    };
    let x = spec_join(m, c) + tail;
    if m.len() == 1 {
        if trailing {
            assert(forall|k: int| 0 <= k < m[0].len() ==> x[k] == #[trigger] m[0][k]);
            assert(x[m[0].len() as int] == c);
            lemma_find_char_is(x, c, m[0].len() as int);
            let rest = x.subrange(m[0].len() as int + 1, x.len() as int);
            assert(rest =~= Seq::<char>::empty());
            lemma_find_char_is(rest, c, 0);
            assert(spec_split(rest, c) == seq![rest]);
            assert(x.subrange(0, m[0].len() as int) =~= m[0]);
            assert(spec_split(x, c) =~= m.push(Seq::<char>::empty()));
        } else {
            assert(x =~= m[0]);
            assert(forall|k: int| 0 <= k < x.len() ==> x[k] == #[trigger] m[0][k]);
            lemma_find_char_is(x, c, x.len() as int);
            assert(spec_split(x, c) =~= m);
        }
    } else {
        let t = m.drop_first();
        let jt = spec_join(t, c);
        assert(spec_join(m, c) == m[0] + seq![c] + jt);
        assert(forall|k: int| 0 <= k < m[0].len() ==> x[k] == #[trigger] m[0][k]);
        assert(x[m[0].len() as int] == c);
        lemma_find_char_is(x, c, m[0].len() as int);
        let rest = x.subrange(m[0].len() as int + 1, x.len() as int);
        assert(rest =~= jt + tail);
        assert(forall|i: int, k: int|
            0 <= i < t.len() && 0 <= k < t[i].len() ==> #[trigger] t[i][k] == m[i + 1][k]);
        lemma_split_join(t, c, trailing);
        assert(x.subrange(0, m[0].len() as int) =~= m[0]);
        if trailing {
            assert(spec_split(x, c) =~= m.push(Seq::<char>::empty()));
        } else {
            assert(spec_split(x, c) =~= m);
        }
    }
}

/// Parsing an empty text yields no items, whatever the delimiter.
pub proof fn lemma_parse_empty(d: Delimiter)
    ensures
        spec_parse(Seq::<char>::empty(), d) == Seq::<Seq<char>>::empty(),
{
}

/// Parsing is invariant under line-ending normalization: a text and its
/// CRLF/CR-normalized form parse to the same items, for every delimiter.
pub proof fn lemma_parse_line_endings(s: Seq<char>, d: Delimiter)
    ensures
        spec_parse(spec_norm_eol(s), d) == spec_parse(s, d),
{
    lemma_norm_eol_idempotent(s);
    lemma_norm_eol_empty(s);
}

/// Round trip: joining items with a delimiter's character, with or
/// without one trailing delimiter, and parsing the result reproduces the
/// items exactly — for every delimiter other than Json, provided no item
/// embeds the delimiter character, CR or LF, the last item is not empty,
/// and a trailing delimiter only follows at least one item.
pub proof fn lemma_parse_join_round_trip(m: Seq<Seq<char>>, d: Delimiter, trailing: bool)
    requires
        d != Delimiter::Json,
        items_clean(m, delim_char(d)),
        trailing ==> m.len() >= 1,
        m.len() >= 1 ==> m.last().len() >= 1,
    ensures
        spec_parse(
            spec_join(m, delim_char(d)) + (if trailing {
                seq![delim_char(d)]
            } else {
                Seq::<char>::empty()
            }),
            d,
        ) == m,
{
    let c = delim_char(d);
    let tail: Seq<char> = if trailing {
        seq![c]
    } else {
        Seq::empty()
    };
    let x = spec_join(m, c) + tail;
    if m.len() == 0 {
        assert(x =~= Seq::<char>::empty());
        assert(spec_parse(x, d) =~= m);
    } else {
        assert(c != '\r');
        lemma_join_no_cr(m, c);
        assert forall|k: int| 0 <= k < x.len() implies x[k] != '\r' by {
            if k < spec_join(m, c).len() {
                assert(x[k] == spec_join(m, c)[k]);
            } else {
                assert(x[k] == c);
            }
        }
        lemma_norm_eol_id(x);
        if m.len() == 1 {
            assert(x.len() >= m[0].len());
        } else {
            assert(spec_join(m, c).len() >= m[0].len() + 1);
        }
        assert(x.len() > 0);
        lemma_split_join(m, c, trailing);
        let parts = spec_split(x, c);
        if trailing {
            assert(parts.last().len() == 0);
            assert(parts.drop_last() =~= m);
        } else {
            assert(parts.last() == m.last());
            assert(parts.last().len() > 0);
        }
    }
}

} // verus!
