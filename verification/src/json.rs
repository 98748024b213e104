//! Tolerant JSON parsing: unquoted-key repair, strict parsing through
//! serde, and flattening of arrays to delimiter-joined rows.
//!
//! The repair step rewrites every unquoted identifier-like key that is
//! followed by a colon and preceded by `{`, `[`, `,` or the start of the
//! text into a double-quoted key, exactly as two text-substitution
//! passes would: one over the whole text for keys after `{`, `[` or
//! `,`, and one for a key at the very start.

use vstd::prelude::*;

use crate::numeric::Rel;
use crate::operations::single_list::remove_duplicates;
use crate::parser::{join_with_char, spec_join};
use crate::sorting::{lex_cmp, lex_le};
use crate::text::{
    is_space_char, push_char, spec_dedup, spec_trim, trim_str, views,
};

verus! {

/// Whether `c` can open an identifier-like key.
pub open spec fn is_ident_start(c: char) -> bool {
    (65 <= c as u32 <= 90) || (97 <= c as u32 <= 122) || c == '_'
}

/// Whether `c` can continue an identifier-like key.
pub open spec fn is_ident_char(c: char) -> bool {
    is_ident_start(c) || (48 <= c as u32 <= 57)
}

/// Whether `c` can precede a key: an opening brace or bracket, or a comma.
pub open spec fn is_opener(c: char) -> bool {
    c == '{' || c == '[' || c == ','
}

/// The length of the whitespace run of `s` starting at `from`.
pub open spec fn space_run(s: Seq<char>, from: int) -> int
    decreases s.len() - from,
{
    if from < 0 || from >= s.len() || !is_space_char(s[from]) {
        0
    } else {
        1 + space_run(s, from + 1)
    }
}

/// The length of the identifier-character run of `s` starting at `from`.
pub open spec fn word_run(s: Seq<char>, from: int) -> int
    decreases s.len() - from,
{
    if from < 0 || from >= s.len() || !is_ident_char(s[from]) {
        0
    } else {
        1 + word_run(s, from + 1)
    }
}

/// The length of the identifier starting at `at`, or zero when no
/// identifier starts there.
pub open spec fn ident_len(s: Seq<char>, at: int) -> int {
    if 0 <= at < s.len() && is_ident_start(s[at]) {
        1 + word_run(s, at + 1)
    } else {
        0
    }
}

pub proof fn lemma_space_run(s: Seq<char>, from: int)
    requires
        0 <= from <= s.len(),
    ensures
        0 <= space_run(s, from),
        from + space_run(s, from) <= s.len(),
        forall|k: int| from <= k < from + space_run(s, from) ==> is_space_char(s[k]),
        from + space_run(s, from) < s.len() ==> !is_space_char(s[from + space_run(s, from)]),
    decreases s.len() - from,
{
    if from < s.len() && is_space_char(s[from]) {
        lemma_space_run(s, from + 1);
    }
}

pub proof fn lemma_word_run(s: Seq<char>, from: int)
    requires
        0 <= from <= s.len(),
    ensures
        0 <= word_run(s, from),
        from + word_run(s, from) <= s.len(),
        forall|k: int| from <= k < from + word_run(s, from) ==> is_ident_char(s[k]),
        from + word_run(s, from) < s.len() ==> !is_ident_char(s[from + word_run(s, from)]),
    decreases s.len() - from,
{
    if from < s.len() && is_ident_char(s[from]) {
        lemma_word_run(s, from + 1);
    }
}

/// `space_run` only looks at the suffix: it is invariant under shifting.
pub proof fn lemma_space_run_shift(s: Seq<char>, i: int, k: int)
    requires
        0 <= i <= s.len(),
        0 <= k <= s.len() - i,
    ensures
        space_run(s.subrange(i, s.len() as int), k) == space_run(s, i + k),
    decreases s.len() - i - k,
{
    let t = s.subrange(i, s.len() as int);
    if k < t.len() && is_space_char(t[k]) {
        lemma_space_run_shift(s, i, k + 1);
    }
}

/// `word_run` only looks at the suffix: it is invariant under shifting.
pub proof fn lemma_word_run_shift(s: Seq<char>, i: int, k: int)
    requires
        0 <= i <= s.len(),
        0 <= k <= s.len() - i,
    ensures
        word_run(s.subrange(i, s.len() as int), k) == word_run(s, i + k),
    decreases s.len() - i - k,
{
    let t = s.subrange(i, s.len() as int);
    if k < t.len() && is_ident_char(t[k]) {
        lemma_word_run_shift(s, i, k + 1);
    }
}

/// Whether the first pass matches an unquoted key at the very start of
/// `s`: an opener, optional whitespace, an identifier, optional
/// whitespace, and a colon.
pub open spec fn match_key(s: Seq<char>) -> bool {
    s.len() >= 1 && is_opener(s[0]) && {
        let w = space_run(s, 1);
        let il = ident_len(s, 1 + w);
        let w2 = space_run(s, 1 + w + il);
        il >= 1 && 1 + w + il + w2 < s.len() && s[1 + w + il + w2] == ':'
    }
}

/// Position just after the colon of the key match at the start of `s`.
pub open spec fn match_end(s: Seq<char>) -> int {
    let w = space_run(s, 1);
    let il = ident_len(s, 1 + w);
    let w2 = space_run(s, 1 + w + il);
    1 + w + il + w2 + 1
}

/// The rewritten text of the key match at the start of `s`: the opener
/// and its whitespace kept, the identifier double-quoted, the
/// whitespace before the colon dropped.
pub open spec fn match_repl(s: Seq<char>) -> Seq<char> {
    let w = space_run(s, 1);
    let il = ident_len(s, 1 + w);
    s.subrange(0, 1 + w) + seq!['"'] + s.subrange(1 + w, 1 + w + il) + seq!['"', ':']
}

/// The first repair pass: rewrite every unquoted key that follows an
/// opener, scanning left to right without overlap.
pub open spec fn repair_pass1(s: Seq<char>) -> Seq<char>
    decreases s.len(),
    via repair_pass1_decreases
{
    if s.len() == 0 {
        Seq::empty()
    } else if match_key(s) {
        match_repl(s) + repair_pass1(s.subrange(match_end(s), s.len() as int))
    } else {
        seq![s[0]] + repair_pass1(s.drop_first())
    }
}

#[via_fn]
proof fn repair_pass1_decreases(s: Seq<char>) {
    if s.len() > 0 && match_key(s) {
        lemma_match_bounds(s);
    }
}

/// The match region is inside the text and at least two characters long.
pub proof fn lemma_match_bounds(s: Seq<char>)
    requires
        match_key(s),
    ensures
        2 <= match_end(s) <= s.len(),
{
    lemma_space_run(s, 1);
    let w = space_run(s, 1);
    lemma_word_run(s, if 1 + w + 1 <= s.len() {
        1 + w + 1
    } else {
        s.len() as int
    });
    let il = ident_len(s, 1 + w);
    assert(il >= 1);
    assert(1 + w + il <= s.len()) by {
        if 1 + w < s.len() && is_ident_start(s[1 + w]) {
            lemma_word_run(s, 1 + w + 1);
        }
    }
    lemma_space_run(s, 1 + w + il);
}

/// The second repair pass: rewrite one unquoted key at the very start
/// of the text (optional whitespace, identifier, optional whitespace,
/// colon).
pub open spec fn repair_pass2(s: Seq<char>) -> Seq<char> {
    let w = space_run(s, 0);
    let il = ident_len(s, w);
    let w2 = space_run(s, w + il);
    if il >= 1 && w + il + w2 < s.len() && s[w + il + w2] == ':' {
        s.subrange(0, w) + seq!['"'] + s.subrange(w, w + il) + seq!['"', ':'] + s.subrange(
            w + il + w2 + 1,
            s.len() as int,
        )
    } else {
        s
    }
}

/// Both repair passes in order.
pub open spec fn spec_repair(s: Seq<char>) -> Seq<char> {
    repair_pass2(repair_pass1(s))
}

/// Runtime check for `is_ident_start`.
fn ident_start_check(c: char) -> (r: bool)
    ensures
        r == is_ident_start(c),
{
    let u = c as u32;
    (65 <= u && u <= 90) || (97 <= u && u <= 122) || c == '_'
}

/// Runtime check for `is_ident_char`.
fn ident_char_check(c: char) -> (r: bool)
    ensures
        r == is_ident_char(c),
{
    let u = c as u32;
    ident_start_check(c) || (48 <= u && u <= 57)
}

/// The end of the whitespace run starting at `from`.
fn scan_spaces(t: &str, from: usize) -> (r: usize)
    requires
        from <= t@.len(),
    ensures
        from + space_run(t@, from as int) == r,
        from <= r <= t@.len(),
{
    let n = t.unicode_len();
    let mut j = from;
    while j < n && crate::text::is_space(t.get_char(j))
        invariant
            from <= j <= n,
            n == t@.len(),
            forall|k: int| from <= k < j ==> is_space_char(t@[k]),
            space_run(t@, j as int) + j == space_run(t@, from as int) + from,
        decreases n - j,
    {
        proof {
            assert(space_run(t@, j as int) == 1 + space_run(t@, j + 1));
        }
        j = j + 1;
    }
    proof {
        assert(space_run(t@, j as int) == 0);
    }
    j
}

/// The end of the identifier starting at `from`, or `from` when none
/// starts there.
fn scan_ident(t: &str, from: usize) -> (r: usize)
    requires
        from <= t@.len(),
    ensures
        from + ident_len(t@, from as int) == r,
        from <= r <= t@.len(),
{
    let n = t.unicode_len();
    if from >= n || !ident_start_check(t.get_char(from)) {
        return from;
    }
    let mut j = from + 1;
    while j < n && ident_char_check(t.get_char(j))
        invariant
            from + 1 <= j <= n,
            n == t@.len(),
            word_run(t@, j as int) + j == word_run(t@, from + 1) + from + 1,
        decreases n - j,
    {
        proof {
            assert(word_run(t@, j as int) == 1 + word_run(t@, j + 1));
        }
        j = j + 1;
    }
    proof {
        assert(word_run(t@, j as int) == 0);
    }
    j
}

/// Rewrite every unquoted identifier-like object key into a quoted key.
/// The rewrite is a best-effort textual pass, not a tokenizer: it
/// applies wherever the pattern occurs, as the contract states.
pub fn repair_json(input: &str) -> (r: String)
    ensures
        r@ == spec_repair(input@),
{
    let pass1 = repair_json_pass1(input);
    repair_json_pass2(pass1.as_str())
}

/// First pass: keys after `{`, `[` or `,`.
#[verifier::rlimit(100)]
fn repair_json_pass1(input: &str) -> (r: String)
    ensures
        r@ == repair_pass1(input@),
{
    let n = input.unicode_len();
    let mut out = String::new();
    let mut i: usize = 0;
    proof {
        assert(input@.subrange(0, n as int) =~= input@);
        assert(out@ + repair_pass1(input@) =~= repair_pass1(input@));
    }
    while i < n
        invariant
            0 <= i <= n,
            n == input@.len(),
            out@ + repair_pass1(input@.subrange(i as int, n as int)) == repair_pass1(input@),
        decreases n - i,
    {
        let ghost suf = input@.subrange(i as int, n as int);
        let c = input.get_char(i);
        let mut matched = false;
        let mut w_end: usize = 0;
        let mut id_end: usize = 0;
        let mut colon: usize = 0;
        if c == '{' || c == '[' || c == ',' {
            let we = scan_spaces(input, i + 1);
            let ie = scan_ident(input, we);
            if ie > we {
                let ce = scan_spaces(input, ie);
                if ce < n && input.get_char(ce) == ':' {
                    matched = true;
                    w_end = we;
                    id_end = ie;
                    colon = ce;
                }
            }
        }
        proof {
            assert(suf[0] == c);
            lemma_space_run_shift(input@, i as int, 1);
            lemma_space_run(input@, i + 1);
            let we = i + 1 + space_run(input@, i + 1);
            assert(space_run(suf, 1) == we - i - 1);
            if we < n {
                assert(suf[we - i] == input@[we]);
            }
            if we < n && is_ident_start(input@[we]) {
                lemma_word_run(input@, we + 1);
                lemma_word_run_shift(input@, i as int, we - i + 1);
                assert(ident_len(suf, we - i) == ident_len(input@, we));
            } else {
                assert(ident_len(suf, we - i) == 0);
                assert(ident_len(input@, we) == 0);
            }
            let il = ident_len(input@, we);
            assert(we + il <= n) by {
                if we < n && is_ident_start(input@[we]) {
                    lemma_word_run(input@, we + 1);
                }
            }
            lemma_space_run(input@, we + il);
            lemma_space_run_shift(input@, i as int, we - i + il);
            let ce = we + il + space_run(input@, we + il);
            assert(space_run(suf, we - i + il) == ce - we - il);
            if ce < n {
                assert(suf[ce - i] == input@[ce]);
            }
            if matched {
                assert(w_end == we && id_end == we + il && colon == ce);
                assert(il >= 1);
                assert(input@[ce] == ':');
                assert(match_key(suf));
                assert(match_end(suf) == colon + 1 - i);
            } else {
                assert(!match_key(suf)) by {
                    if match_key(suf) {
                        assert(is_opener(c));
                        assert(il >= 1);
                        assert(ce - i < suf.len());
                        assert(suf[ce - i] == ':');
                        assert(false);
                    }
                }
            }
        }
        if matched {
            let ghost out0 = out@;
            let prefix = input.substring_char(i, w_end);
            out.append(prefix);
            push_char(&mut out, '"');
            let ident = input.substring_char(w_end, id_end);
            out.append(ident);
            push_char(&mut out, '"');
            push_char(&mut out, ':');
            proof {
                assert(suf.subrange(0, w_end - i) =~= input@.subrange(i as int, w_end as int));
                assert(suf.subrange(w_end - i, id_end - i) =~= input@.subrange(
                    w_end as int,
                    id_end as int,
                ));
                assert(out@ =~= out0 + match_repl(suf));
                assert(suf.subrange(match_end(suf), suf.len() as int) =~= input@.subrange(
                    colon + 1,
                    n as int,
                ));
                assert(out@ + repair_pass1(input@.subrange(colon + 1, n as int)) =~= repair_pass1(
                    input@,
                ));
            }
            i = colon + 1;
        } else {
            push_char(&mut out, c);
            proof {
                assert(suf[0] == c);
                assert(suf.drop_first() =~= input@.subrange(i + 1, n as int));
                assert(out@ + repair_pass1(input@.subrange(i + 1, n as int)) =~= repair_pass1(
                    input@,
                ));
            }
            i = i + 1;
        }
    }
    proof {
        assert(input@.subrange(n as int, n as int) =~= Seq::<char>::empty());
        assert(out@ =~= repair_pass1(input@));
    }
    out
}

/// Second pass: one key at the very start of the text.
fn repair_json_pass2(input: &str) -> (r: String)
    ensures
        r@ == repair_pass2(input@),
{
    let n = input.unicode_len();
    let we = scan_spaces(input, 0);
    let ie = scan_ident(input, we);
    if ie > we {
        let ce = scan_spaces(input, ie);
        if ce < n && input.get_char(ce) == ':' {
            let mut out = input.substring_char(0, we).to_owned();
            push_char(&mut out, '"');
            out.append(input.substring_char(we, ie));
            push_char(&mut out, '"');
            push_char(&mut out, ':');
            out.append(input.substring_char(ce + 1, n));
            proof {
                assert(out@ =~= repair_pass2(input@));
            }
            return out;
        }
    }
    proof {
        if we < n && is_ident_start(input@[we as int]) {
            lemma_word_run(input@, we + 1);
        }
        lemma_space_run(input@, ie as int);
    }
    input.to_owned()
}

#[verifier::external_type_specification]
#[verifier::external_body]
pub struct ExValue(serde_json::Value);

/// The outcome of parsing a text as strict JSON: the parsed value, or
/// the parser's error message.
pub uninterp spec fn json_parse_result(s: Seq<char>) -> Result<serde_json::Value, Seq<char>>;

/// The parser's error message for a text, or nothing when it parses.
pub open spec fn json_parse_err(s: Seq<char>) -> Option<Seq<char>> {
    match json_parse_result(s) {
        Result::Ok(_) => Option::None,
        Result::Err(m) => Option::Some(m),
    }
}

/// Whether the value is a JSON array.
pub uninterp spec fn json_is_array(v: serde_json::Value) -> bool;

/// The elements of a JSON array value, in order.
pub uninterp spec fn json_elems(v: serde_json::Value) -> Seq<serde_json::Value>;

/// Whether the value is a JSON object.
pub uninterp spec fn json_is_object(v: serde_json::Value) -> bool;

/// The keys of a JSON object value, in the map's iteration order.
pub uninterp spec fn json_keys(v: serde_json::Value) -> Seq<Seq<char>>;

/// The entry of a JSON object value under the given key.
pub uninterp spec fn json_get(v: serde_json::Value, k: Seq<char>) -> Option<serde_json::Value>;

/// Whether the value is a JSON string.
pub uninterp spec fn json_is_string(v: serde_json::Value) -> bool;

/// The content of a JSON string value.
pub uninterp spec fn json_str(v: serde_json::Value) -> Seq<char>;

/// The canonical JSON text of a value.
pub uninterp spec fn json_text(v: serde_json::Value) -> Seq<char>;

/// Relies on `serde_json::from_str`: the parsed value, or the parser's
/// error message when the text does not parse, depend on the text
/// alone.
#[verifier::external_body]
fn json_from_str(s: &str) -> (r: Result<serde_json::Value, String>)
    ensures
        (r is Err) <==> (json_parse_result(s@) is Err),
        r is Err ==> r->Err_0@ == json_parse_result(s@)->Err_0,
        r is Ok ==> r->Ok_0 == json_parse_result(s@)->Ok_0,
{
    match serde_json::from_str::<serde_json::Value>(s) {
        Ok(v) => Ok(v),
        Err(e) => Err(e.to_string()),
    }
}

/// Relies on `serde_json::Value::as_array`: returns the array's
/// elements exactly when the value is an array.
#[verifier::external_body]
fn json_as_array(v: &serde_json::Value) -> (r: Option<Vec<serde_json::Value>>)
    ensures
        (r is Some) <==> json_is_array(*v),
        r is Some ==> r->Some_0@ == json_elems(*v),
{
    v.as_array().cloned()
}

/// Relies on `serde_json::Value::is_object`.
#[verifier::external_body]
fn json_is_object_exec(v: &serde_json::Value) -> (r: bool)
    ensures
        r == json_is_object(*v),
{
    v.is_object()
}

/// Relies on `serde_json::Value::as_object` and `serde_json::Map::keys`:
/// the keys of an object, in the map's iteration order.
#[verifier::external_body]
fn json_obj_keys(v: &serde_json::Value) -> (r: Option<Vec<String>>)
    ensures
        (r is Some) <==> json_is_object(*v),
        r is Some ==> views(r->Some_0@) == json_keys(*v),
{
    v.as_object().map(|m| m.keys().cloned().collect())
}

/// Relies on `serde_json::Value::get` with a string index: an object's
/// entry under the key, `None` for a missing key or a non-object.
#[verifier::external_body]
fn json_obj_get(v: &serde_json::Value, k: &String) -> (r: Option<serde_json::Value>)
    ensures
        json_is_object(*v) ==> ((r is Some) <==> (json_get(*v, k@) is Some)),
        json_is_object(*v) && r is Some ==> r->Some_0 == json_get(*v, k@)->Some_0,
        !json_is_object(*v) ==> r is None,
{
    v.get(k.as_str()).cloned()
}

/// Relies on `serde_json::Value::as_str`: the string's content exactly
/// when the value is a string.
#[verifier::external_body]
fn json_as_str(v: &serde_json::Value) -> (r: Option<String>)
    ensures
        (r is Some) <==> json_is_string(*v),
        r is Some ==> r->Some_0@ == json_str(*v),
{
    v.as_str().map(|s| s.to_string())
}

/// Relies on `serde_json::Value::to_string`: the canonical JSON text of
/// a value depends on the value alone.
#[verifier::external_body]
fn json_to_text(v: &serde_json::Value) -> (r: String)
    ensures
        r@ == json_text(*v),
{
    v.to_string()
}

/// How one cell of a tabular row renders: the raw string content for a
/// string value, the canonical JSON text otherwise, and the empty text
/// for a missing key. A non-object element has every key missing, so
/// all its cells are empty.
pub open spec fn cell_text(elem: serde_json::Value, k: Seq<char>) -> Seq<char> {
    if json_is_object(elem) {
        match json_get(elem, k) {
            Option::Some(val) => if json_is_string(val) {
                json_str(val)
            } else {
                json_text(val)
            },
            Option::None => Seq::empty(),
        }
    } else {
        Seq::empty()
    }
}

/// The cells of one row, in header-key order.
pub open spec fn cells(e: serde_json::Value, hk: Seq<Seq<char>>) -> Seq<Seq<char>>
    decreases hk.len(),
{
    if hk.len() == 0 {
        Seq::empty()
    } else {
        cells(e, hk.drop_last()).push(cell_text(e, hk.last()))
    }
}

/// One row: its cells joined with the separator.
pub open spec fn row_text(e: serde_json::Value, hk: Seq<Seq<char>>, sep: char) -> Seq<char> {
    spec_join(cells(e, hk), sep)
}

/// One row per array element, in array order. A non-object element
/// yields a row of empty cells, every key counting as missing.
pub open spec fn row_texts(es: Seq<serde_json::Value>, hk: Seq<Seq<char>>, sep: char) -> Seq<
    Seq<char>,
>
    decreases es.len(),
{
    if es.len() == 0 {
        Seq::empty()
    } else {
        row_texts(es.drop_last(), hk, sep).push(row_text(es.last(), hk, sep))
    }
}

/// The keys of all object elements, concatenated in array order.
pub open spec fn all_keys(es: Seq<serde_json::Value>) -> Seq<Seq<char>>
    decreases es.len(),
{
    if es.len() == 0 {
        Seq::empty()
    } else {
        all_keys(es.drop_last()) + (if json_is_object(es.last()) {
            json_keys(es.last())
        } else {
            Seq::<Seq<char>>::empty()
        })
    }
}

/// Insertion into a lexicographically sorted sequence, before the first
/// element that is not smaller.
pub open spec fn insert_sorted(m: Seq<Seq<char>>, x: Seq<char>) -> Seq<Seq<char>>
    decreases m.len(),
{
    if m.len() == 0 {
        seq![x]
    } else if lex_le(x, m[0]) {
        seq![x] + m
    } else {
        seq![m[0]] + insert_sorted(m.drop_first(), x)
    }
}

/// Lexicographic insertion sort.
pub open spec fn sort_keys(ks: Seq<Seq<char>>) -> Seq<Seq<char>>
    decreases ks.len(),
{
    if ks.len() == 0 {
        ks
    } else {
        insert_sorted(sort_keys(ks.drop_last()), ks.last())
    }
}

/// The header row's keys: the distinct keys of all object elements, in
/// lexicographic order.
pub open spec fn header_keys(es: Seq<serde_json::Value>) -> Seq<Seq<char>> {
    sort_keys(spec_dedup(all_keys(es)))
}

/// How a primitive element renders: the raw content of a string value,
/// the canonical JSON text of anything else.
pub open spec fn prim_texts(es: Seq<serde_json::Value>) -> Seq<Seq<char>>
    decreases es.len(),
{
    if es.len() == 0 {
        Seq::empty()
    } else {
        prim_texts(es.drop_last()).push(
            if json_is_string(es.last()) {
                json_str(es.last())
            } else {
                json_text(es.last())
            },
        )
    }
}

/// What flattening an array yields: when the first element is an
/// object, a header row of the sorted union of all object keys followed
/// by one row per array element (a non-object element giving a row of
/// empty cells); otherwise each element rendered as a primitive.
pub open spec fn flatten_model(es: Seq<serde_json::Value>, sep: char) -> Seq<Seq<char>> {
    if es.len() == 0 {
        Seq::empty()
    } else if json_is_object(es[0]) {
        seq![spec_join(header_keys(es), sep)] + row_texts(es, header_keys(es), sep)
    } else {
        prim_texts(es)
    }
}

/// Runtime check of the lexicographic order.
fn lex_le_exec(a: &String, b: &String) -> (r: bool)
    ensures
        r == lex_le(a@, b@),
{
    match lex_cmp(a, b) {
        Rel::Gt => false,
        _ => true,
    }
}

/// Inserting at the first position whose element is not smaller matches
/// `insert_sorted`.
proof fn lemma_insert_sorted_at(m: Seq<Seq<char>>, x: Seq<char>, p: int)
    requires
        0 <= p <= m.len(),
        forall|t: int| 0 <= t < p ==> !lex_le(x, #[trigger] m[t]),
        p < m.len() ==> lex_le(x, m[p]),
    ensures
        insert_sorted(m, x) == m.subrange(0, p) + seq![x] + m.subrange(p, m.len() as int),
    decreases p,
{
    if m.len() == 0 {
        assert(insert_sorted(m, x) =~= m.subrange(0, p) + seq![x] + m.subrange(
            p,
            m.len() as int,
        ));
    } else if p == 0 {
        assert(insert_sorted(m, x) =~= m.subrange(0, 0) + seq![x] + m.subrange(0, m.len() as int));
    } else {
        let t = m.drop_first();
        assert(!lex_le(x, m[0]));
        assert(forall|k: int| 0 <= k < p - 1 ==> !lex_le(x, #[trigger] t[k]));
        lemma_insert_sorted_at(t, x, p - 1);
        assert(insert_sorted(m, x) =~= m.subrange(0, p) + seq![x] + m.subrange(p, m.len() as int));
    }
}

/// The distinct keys of all object elements, sorted lexicographically.
fn header_of(elems: &Vec<serde_json::Value>) -> (r: Vec<String>)
    ensures
        views(r@) == header_keys(elems@),
{
    let mut all: Vec<String> = Vec::new();
    let mut i: usize = 0;
    proof {
        assert(elems@.subrange(0, 0) =~= Seq::<serde_json::Value>::empty());
        assert(views(all@) =~= all_keys(elems@.subrange(0, 0)));
    }
    while i < elems.len()
        invariant
            0 <= i <= elems@.len(),
            views(all@) == all_keys(elems@.subrange(0, i as int)),
        decreases elems@.len() - i,
    {
        let ghost pfx = elems@.subrange(0, i as int);
        proof {
            assert(elems@.subrange(0, i + 1) =~= pfx.push(elems@[i as int]));
            assert(pfx.push(elems@[i as int]).drop_last() =~= pfx);
        }
        let keys_opt = json_obj_keys(&elems[i]);
        match keys_opt {
            Some(mut ks) => {
                let ghost old_all = views(all@);
                let ghost ks_views = views(ks@);
                all.append(&mut ks);
                proof {
                    assert(views(all@) =~= old_all + ks_views);
                }
            },
            None => {
                proof {
                    assert(views(all@) =~= views(all@) + Seq::<Seq<char>>::empty());
                }
            },
        }
        i = i + 1;
    }
    proof {
        assert(elems@.subrange(0, elems@.len() as int) =~= elems@);
    }
    let ded = remove_duplicates(&all);
    let mut out: Vec<String> = Vec::new();
    let mut j: usize = 0;
    proof {
        assert(views(ded@).subrange(0, 0) =~= Seq::<Seq<char>>::empty());
        assert(views(out@) =~= sort_keys(views(ded@).subrange(0, 0)));
    }
    while j < ded.len()
        invariant
            0 <= j <= ded@.len(),
            views(out@) == sort_keys(views(ded@).subrange(0, j as int)),
        decreases ded@.len() - j,
    {
        let x = ded[j].clone();
        let mut pos: usize = 0;
        while pos < out.len() && !lex_le_exec(&x, &out[pos])
            invariant
                0 <= pos <= out@.len(),
                x@ == ded@[j as int]@,
                forall|t: int| 0 <= t < pos ==> !lex_le(x@, #[trigger] views(out@)[t]),
            decreases out@.len() - pos,
        {
            pos = pos + 1;
        }
        let ghost old_out = views(out@);
        out.insert(pos, x);
        proof {
            lemma_insert_sorted_at(old_out, ded@[j as int]@, pos as int);
            assert(views(out@) =~= old_out.subrange(0, pos as int) + seq![ded@[j as int]@]
                + old_out.subrange(pos as int, old_out.len() as int));
            assert(views(ded@).subrange(0, j + 1) =~= views(ded@).subrange(0, j as int).push(
                ded@[j as int]@,
            ));
            assert(views(ded@).subrange(0, j + 1).drop_last() =~= views(ded@).subrange(
                0,
                j as int,
            ));
        }
        j = j + 1;
    }
    proof {
        assert(views(ded@).subrange(0, ded@.len() as int) =~= views(ded@));
    }
    out
}

/// One tabular row for an array element: each header key's value,
/// rendered and joined with the separator. A non-object element yields
/// a row of empty cells.
fn row_of(elem: &serde_json::Value, hk: &Vec<String>, sep: char) -> (r: String)
    ensures
        r@ == row_text(*elem, views(hk@), sep),
{
    let mut cells_v: Vec<String> = Vec::new();
    let mut j: usize = 0;
    proof {
        assert(views(hk@).subrange(0, 0) =~= Seq::<Seq<char>>::empty());
        assert(views(cells_v@) =~= cells(*elem, views(hk@).subrange(0, 0)));
    }
    while j < hk.len()
        invariant
            0 <= j <= hk@.len(),
            views(cells_v@) == cells(*elem, views(hk@).subrange(0, j as int)),
        decreases hk@.len() - j,
    {
        let cell = match json_obj_get(elem, &hk[j]) {
            None => String::new(),
            Some(val) => match json_as_str(&val) {
                Some(s) => s,
                None => json_to_text(&val),
            },
        };
        let ghost old_cells = views(cells_v@);
        cells_v.push(cell);
        proof {
            assert(views(cells_v@) =~= old_cells.push(cell_text(*elem, hk@[j as int]@)));
            assert(views(hk@).subrange(0, j + 1) =~= views(hk@).subrange(0, j as int).push(
                hk@[j as int]@,
            ));
            assert(views(hk@).subrange(0, j + 1).drop_last() =~= views(hk@).subrange(0, j as int));
        }
        j = j + 1;
    }
    proof {
        assert(views(hk@).subrange(0, hk@.len() as int) =~= views(hk@));
    }
    join_with_char(&cells_v, sep)
}

/// Flatten a parsed JSON array to text rows: tabular rows under a
/// header when the first element is an object, primitive renderings
/// otherwise.
pub fn flatten_json_array(elems: &Vec<serde_json::Value>, sep: char) -> (r: Vec<String>)
    ensures
        views(r@) == flatten_model(elems@, sep),
{
    if elems.len() == 0 {
        let r: Vec<String> = Vec::new();
        proof {
            assert(views(r@) =~= flatten_model(elems@, sep));
        }
        return r;
    }
    if json_is_object_exec(&elems[0]) {
        let hk = header_of(elems);
        let mut out: Vec<String> = Vec::new();
        out.push(join_with_char(&hk, sep));
        let mut i: usize = 0;
        proof {
            assert(elems@.subrange(0, 0) =~= Seq::<serde_json::Value>::empty());
            assert(views(out@) =~= seq![spec_join(header_keys(elems@), sep)] + row_texts(
                elems@.subrange(0, 0),
                views(hk@),
                sep,
            ));
        }
        while i < elems.len()
            invariant
                0 <= i <= elems@.len(),
                views(hk@) == header_keys(elems@),
                views(out@) == seq![spec_join(header_keys(elems@), sep)] + row_texts(
                    elems@.subrange(0, i as int),
                    views(hk@),
                    sep,
                ),
            decreases elems@.len() - i,
        {
            let ghost pfx = elems@.subrange(0, i as int);
            proof {
                assert(elems@.subrange(0, i + 1) =~= pfx.push(elems@[i as int]));
                assert(pfx.push(elems@[i as int]).drop_last() =~= pfx);
            }
            let ghost old_out = views(out@);
            let row = row_of(&elems[i], &hk, sep);
            out.push(row);
            proof {
                assert(views(out@) =~= old_out.push(row_text(elems@[i as int], views(hk@), sep)));
                assert(views(out@) =~= seq![spec_join(header_keys(elems@), sep)] + row_texts(
                    elems@.subrange(0, i + 1),
                    views(hk@),
                    sep,
                ));
            }
            i = i + 1;
        }
        proof {
            assert(elems@.subrange(0, elems@.len() as int) =~= elems@);
        }
        out
    } else {
        let mut out: Vec<String> = Vec::new();
        let mut i: usize = 0;
        proof {
            assert(elems@.subrange(0, 0) =~= Seq::<serde_json::Value>::empty());
            assert(views(out@) =~= prim_texts(elems@.subrange(0, 0)));
        }
        while i < elems.len()
            invariant
                0 <= i <= elems@.len(),
                views(out@) == prim_texts(elems@.subrange(0, i as int)),
            decreases elems@.len() - i,
        {
            let ghost pfx = elems@.subrange(0, i as int);
            proof {
                assert(elems@.subrange(0, i + 1) =~= pfx.push(elems@[i as int]));
                assert(pfx.push(elems@[i as int]).drop_last() =~= pfx);
            }
            let text = match json_as_str(&elems[i]) {
                Some(s) => s,
                None => json_to_text(&elems[i]),
            };
            let ghost old_out = views(out@);
            out.push(text);
            proof {
                assert(views(out@) =~= old_out.push(prim_texts(elems@.subrange(0, i + 1)).last()));
            }
            i = i + 1;
        }
        proof {
            assert(elems@.subrange(0, elems@.len() as int) =~= elems@);
        }
        out
    }
}

/// Turn a parsed top-level value into item rows: an array is
/// flattened, a bare object counts as a one-element array, and any
/// other value is the one unsupported shape.
pub fn value_to_rows(v: serde_json::Value, sep: char) -> (r: Result<Vec<String>, String>)
    ensures
        json_is_array(v) ==> r is Ok && views(r->Ok_0@) == flatten_model(json_elems(v), sep),
        !json_is_array(v) && json_is_object(v) ==> r is Ok && views(r->Ok_0@) == flatten_model(
            seq![v],
            sep,
        ),
        (r is Err) <==> !json_is_array(v) && !json_is_object(v),
        r is Err ==> r->Err_0@ == "JSON input must be an array or a single object"@,
{
    match json_as_array(&v) {
        Some(a) => Ok(flatten_json_array(&a, sep)),
        None => {
            if json_is_object_exec(&v) {
                let mut one: Vec<serde_json::Value> = Vec::new();
                one.push(v);
                proof {
                    assert(one@ =~= seq![one@[0]]);
                }
                Ok(flatten_json_array(&one, sep))
            } else {
                Err(String::from_str("JSON input must be an array or a single object"))
            }
        },
    }
}

/// Whether the input holds only whitespace.
pub open spec fn blank_input(s: Seq<char>) -> bool {
    spec_trim(s).len() == 0
}

/// The message reported when strict parsing fails after repair: the
/// parser's own message, marked as following an attempted repair when
/// the repair changed the text.
pub open spec fn repair_error_msg(input: Seq<char>) -> Seq<char> {
    let rep = spec_repair(input);
    let msg = json_parse_err(rep)->Some_0;
    if rep != input {
        "JSON Error (after auto-repair): "@ + msg
    } else {
        msg
    }
}

/// Whether the text parses as strict JSON whose top-level value is an
/// array or an object — the shapes the conversion accepts.
pub open spec fn json_top_ok(s: Seq<char>) -> bool {
    match json_parse_result(s) {
        Result::Ok(v) => json_is_array(v) || json_is_object(v),
        Result::Err(_) => false,
    }
}

/// The items the conversion yields for a text whose top level is an
/// array or an object: the array's flattening, a bare object counting
/// as a one-element array.
pub open spec fn json_items_model(s: Seq<char>, sep: char) -> Seq<Seq<char>> {
    let v = json_parse_result(s)->Ok_0;
    if json_is_array(v) {
        flatten_model(json_elems(v), sep)
    } else {
        flatten_model(seq![v], sep)
    }
}

/// Parse a string as (lax) JSON and convert it to a list of items.
/// Returns the items and the repaired JSON text.
///
/// Whitespace-only input yields no items and an empty repaired text.
/// Otherwise the input is repaired and parsed strictly, and the call
/// fails exactly when the repaired text does not parse or its top-level
/// value is neither an array nor an object: a parse failure reports the
/// parser's message (marked when repair was attempted), an unsupported
/// shape reports a fixed message. On success the items are the
/// flattening of the parsed value (a bare object counting as a
/// one-element array) and the repaired text is returned for display.
pub fn parse_json_to_list(input: &str, target_sep: char) -> (r: Result<(Vec<String>, String), String>)
    ensures
        blank_input(input@) ==> r is Ok && r->Ok_0.0@.len() == 0 && r->Ok_0.1@.len() == 0,
        !blank_input(input@) ==> ((r is Err) <==> !json_top_ok(spec_repair(input@))),
        !blank_input(input@) && json_parse_err(spec_repair(input@)) is Some ==> r is Err
            && r->Err_0@ == repair_error_msg(input@),
        !blank_input(input@) && r is Ok ==> r->Ok_0.1@ == spec_repair(input@) && views(
            r->Ok_0.0@,
        ) == json_items_model(spec_repair(input@), target_sep),
        !blank_input(input@) && json_parse_err(spec_repair(input@)) is None && r is Err ==> r->Err_0@
            == "JSON input must be an array or a single object"@,
{
    let trimmed = trim_str(input);
    if trimmed.as_str().is_empty() {
        return Ok((Vec::new(), String::new()));
    }
    let repaired = repair_json(input);
    match json_from_str(repaired.as_str()) {
        Err(e) => {
            let orig = input.to_owned();
            if !(repaired == orig) {
                let mut msg = String::from_str("JSON Error (after auto-repair): ");
                msg.append(e.as_str());
                Err(msg)
            } else {
                Err(e)
            }
        },
        Ok(v) => match value_to_rows(v, target_sep) {
            Ok(items) => Ok((items, repaired)),
            Err(e) => Err(e),
        },
    }
}

} // verus!
