//! The data model and writer of localisation files: a language header followed by
//! `key:version "text"` entries and comments, one per line.
use vstd::prelude::*;
use crate::serializer::{nat_text, push_nat};
use crate::string_utils::{escape_string, escaped};
use crate::lexer::{is_space, lemma_line_stop_bounds, lemma_skip_space_bounds, line_stop, skip_space};
use crate::string_utils::{unescape_string, unescaped};
use crate::text::{chars_of, push_char};
use crate::words::{digits_end, digits_end_from, digits_value, digits_value_capped, string_of};

verus! {

broadcast use vstd::string::group_string_axioms, vstd::std_specs::vec::group_vec_axioms,
    vstd::seq::group_seq_axioms;

/// A localisation file: its language header and its entries in order.
#[derive(Debug, Clone, PartialEq)]
pub struct File {
    pub header: Header,
    pub items: Vec<Item>,
}

/// The header line, naming the language (`l_english`).
#[derive(Debug, Clone, PartialEq)]
pub struct Header {
    pub lang: String,
}

/// An entry of a localisation file.
#[derive(Debug, Clone, PartialEq)]
pub enum Item {
    Pair(Pair),
    Comment(String),
}

/// `key:version "value"`; the value is held unescaped.
#[derive(Debug, Clone, PartialEq)]
pub struct Pair {
    pub key: String,
    pub version: Option<u32>,
    pub value: String,
}

/// A value escaped and put between double quotes.
pub open spec fn quoted_text(value: Seq<char>) -> Seq<char> {
    seq!['"'] + escaped(value) + seq!['"']
}

/// ` key:version "value"` and a line break; the version is left out when there is none.
pub open spec fn pair_line(p: Pair) -> Seq<char> {
    seq![' '] + p.key@ + seq![':'] + match p.version {
        Some(v) => nat_text(v as nat),
        None => Seq::empty(),
    } + seq![' '] + quoted_text(p.value@) + seq!['\n']
}

/// A comment on its own line; a `# ` is put in front of text that does not start with `#`.
pub open spec fn comment_line(c: Seq<char>) -> Seq<char> {
    if c.len() > 0 && c[0] == '#' {
        seq![' '] + c + seq!['\n']
    } else {
        seq![' ', '#', ' '] + c + seq!['\n']
    }
}

/// The line that an entry is written as.
pub open spec fn item_line(i: Item) -> Seq<char> {
    match i {
        Item::Pair(p) => pair_line(p),
        Item::Comment(c) => comment_line(c@),
    }
}

/// The lines of the entries, in order.
pub open spec fn item_lines(items: Seq<Item>) -> Seq<char>
    decreases items.len(),
{
    if items.len() == 0 {
        Seq::empty()
    } else {
        item_lines(items.drop_last()) + item_line(items.last())
    }
}

/// A byte order mark, the language and a colon on the first line, then the entries.
pub open spec fn file_text(f: File) -> Seq<char> {
    seq!['\u{feff}'] + f.header.lang@ + seq![':', '\n'] + item_lines(f.items@)
}

/// A value escaped and put between double quotes.
pub fn normalize_localisation_value(value: &str) -> (r: String)
    ensures
        r@ == quoted_text(value@),
{
    let mut out = String::new();
    push_char(&mut out, '"');
    let e = escape_string(value);
    out.append(e.as_str());
    push_char(&mut out, '"');
    assert(out@ =~= quoted_text(value@));
    out
}

fn serialize_pair(p: &Pair) -> (r: String)
    ensures
        r@ == pair_line(*p),
{
    let mut out = String::new();
    push_char(&mut out, ' ');
    out.append(p.key.as_str());
    push_char(&mut out, ':');
    let ghost after_colon = out@;
    match p.version {
        Some(v) => push_nat(&mut out, v),
        None => {},
    }
    push_char(&mut out, ' ');
    let q = normalize_localisation_value(p.value.as_str());
    out.append(q.as_str());
    push_char(&mut out, '\n');
    assert(out@ =~= pair_line(*p));
    out
}

fn serialize_item(i: &Item) -> (r: String)
    ensures
        r@ == item_line(*i),
{
    match i {
        Item::Pair(p) => serialize_pair(p),
        Item::Comment(c) => {
            let mut out = String::new();
            push_char(&mut out, ' ');
            let s = c.as_str();
            if !(s.unicode_len() > 0 && s.get_char(0) == '#') {
                push_char(&mut out, '#');
                push_char(&mut out, ' ');
            }
            out.append(s);
            push_char(&mut out, '\n');
            assert(out@ =~= comment_line(c@));
            out
        },
    }
}

/// Writes a localisation file.
pub fn serialize_ast(ast: &File) -> (r: String)
    ensures
        r@ == file_text(*ast),
{
    let mut out = String::new();
    push_char(&mut out, '\u{feff}');
    out.append(ast.header.lang.as_str());
    push_char(&mut out, ':');
    push_char(&mut out, '\n');
    let ghost head = out@;
    let mut i: usize = 0;
    assert(ast.items@.take(0) =~= Seq::<Item>::empty());
    assert(out@ =~= head + item_lines(ast.items@.take(0)));
    while i < ast.items.len()
        invariant
            i <= ast.items@.len(),
            out@ == head + item_lines(ast.items@.take(i as int)),
        decreases ast.items@.len() - i,
    {
        let s = serialize_item(&ast.items[i]);
        out.append(s.as_str());
        proof {
            let next = ast.items@.take(i + 1);
            assert(next.drop_last() =~= ast.items@.take(i as int));
            assert(next.last() == ast.items@[i as int]);
        }
        i += 1;
    }
    assert(ast.items@.take(i as int) =~= ast.items@);
    assert(out@ =~= file_text(*ast));
    out
}

/// What the reader looked for where a localisation text went wrong.
#[derive(Debug, Clone, Copy, PartialEq, Eq)]
pub enum LocExpected {
    /// The language header, `name:`, as the first thing in the text.
    Header,
    /// The colon after an entry's key.
    Colon,
    /// A version that fits a `u32`.
    VersionInRange,
    /// The quote that opens an entry's text, on the line of its key.
    Quote,
    /// A quote that closes an entry's text, on the same line.
    ClosingQuote,
}

/// Why a localisation text could not be read; positions count characters.
#[derive(Debug, Clone, Copy, PartialEq, Eq)]
pub struct LocError {
    pub position: usize,
    pub expected: LocExpected,
}

/// What an entry holds.
pub enum LocItemModel {
    Pair(Seq<char>, Option<u32>, Seq<char>),
    Comment(Seq<char>),
}

/// What an entry holds.
pub open spec fn loc_item_model(i: Item) -> LocItemModel {
    match i {
        Item::Pair(p) => LocItemModel::Pair(p.key@, p.version, p.value@),
        Item::Comment(c) => LocItemModel::Comment(c@),
    }
}

/// What the entries hold, in order.
pub open spec fn loc_items_model(items: Seq<Item>) -> Seq<LocItemModel> {
    items.map_values(|i: Item| loc_item_model(i))
}

/// Characters that end a key.
pub open spec fn ends_key(c: char) -> bool {
    is_space(c) || c == ':' || c == '"' || c == '#'
}

/// The end of the key that starts at `i`.
pub open spec fn key_end(s: Seq<char>, i: int) -> int
    decreases s.len() - i,
{
    if 0 <= i < s.len() && !ends_key(s[i]) {
        key_end(s, i + 1)
    } else {
        i
    }
}

/// The first position at or after `i` that is not a space or a tab.
pub open spec fn skip_blank(s: Seq<char>, i: int) -> int
    decreases s.len() - i,
{
    if 0 <= i < s.len() && (s[i] == ' ' || s[i] == '\t') {
        skip_blank(s, i + 1)
    } else {
        i
    }
}

/// The position of the last quote in `s[a..b]`, or `a - 1` if there is none.
pub open spec fn last_quote(s: Seq<char>, a: int, b: int) -> int
    decreases b - a,
{
    if b <= a {
        a - 1
    } else if s[b - 1] == '"' {
        b - 1
    } else {
        last_quote(s, a, b - 1)
    }
}

/// The error at position `p`.
pub open spec fn loc_error(p: int, e: LocExpected) -> LocError {
    LocError { position: p as usize, expected: e }
}

/// The entries from position `i` to the end: comments run to the end of their line; an entry is
/// `key:version` followed, on the same line, by text between the first quote and the last quote
/// of the line, held unescaped.
pub open spec fn loc_entries(s: Seq<char>, i: int) -> Result<Seq<LocItemModel>, LocError>
    decreases s.len() - i,
    when 0 <= i <= s.len()
{
    proof {
        lemma_skip_space_bounds(s, i);
        let p = skip_space(s, i);
        if p < s.len() {
            lemma_line_stop_bounds(s, p + 1);
            lemma_key_end_bounds(s, p);
            lemma_digits_end_ge(s, key_end(s, p) + 1);
            lemma_skip_blank_ge(s, digits_end(s, key_end(s, p) + 1));
        }
    }
    let p = skip_space(s, i);
    if p >= s.len() {
        Ok(Seq::empty())
    } else if s[p] == '#' {
        let e = line_stop(s, p);
        match loc_entries(s, e) {
            Ok(rest) => Ok(seq![LocItemModel::Comment(s.subrange(p, e))] + rest),
            Err(x) => Err(x),
        }
    } else {
        let k = key_end(s, p);
        let v = digits_end(s, k + 1);
        let q0 = skip_blank(s, v);
        let q1 = last_quote(s, q0 + 1, line_stop(s, q0));
        if k == p || k >= s.len() || s[k] != ':' {
            Err(loc_error(k, LocExpected::Colon))
        } else if digits_value(s.subrange(k + 1, v)) > u32::MAX {
            Err(loc_error(k + 1, LocExpected::VersionInRange))
        } else if q0 >= s.len() || s[q0] != '"' {
            Err(loc_error(q0, LocExpected::Quote))
        } else if q1 <= q0 || q1 >= s.len() {
            Err(loc_error(q0, LocExpected::ClosingQuote))
        } else {
            let version = if v == k + 1 {
                None
            } else {
                Some(digits_value(s.subrange(k + 1, v)) as u32)
            };
            let entry = LocItemModel::Pair(
                s.subrange(p, k),
                version,
                unescaped(s.subrange(q0 + 1, q1)),
            );
            match loc_entries(s, q1 + 1) {
                Ok(rest) => Ok(seq![entry] + rest),
                Err(x) => Err(x),
            }
        }
    }
}

/// A whole localisation text: after any whitespace (a byte order mark included), the header
/// `name:`, then the entries.
pub open spec fn loc_document(s: Seq<char>) -> Result<(Seq<char>, Seq<LocItemModel>), LocError> {
    let p = skip_space(s, 0);
    let k = key_end(s, p);
    if k == p || k >= s.len() || s[k] != ':' {
        Err(loc_error(p, LocExpected::Header))
    } else {
        match loc_entries(s, k + 1) {
            Ok(items) => Ok((s.subrange(p, k), items)),
            Err(x) => Err(x),
        }
    }
}

/// A run of digits ends at or after its start.
pub proof fn lemma_digits_end_ge(s: Seq<char>, i: int)
    ensures
        digits_end(s, i) >= i,
    decreases s.len() - i,
{
    if 0 <= i < s.len() && crate::ast::is_digit(s[i]) {
        lemma_digits_end_ge(s, i + 1);
    }
}

/// Skipping blanks ends at or after the start.
pub proof fn lemma_skip_blank_ge(s: Seq<char>, i: int)
    ensures
        skip_blank(s, i) >= i,
    decreases s.len() - i,
{
    if 0 <= i < s.len() && (s[i] == ' ' || s[i] == '\t') {
        lemma_skip_blank_ge(s, i + 1);
    }
}

/// A key ends between its start and the end of the text.
pub proof fn lemma_key_end_bounds(s: Seq<char>, i: int)
    requires
        0 <= i <= s.len(),
    ensures
        i <= key_end(s, i) <= s.len(),
    decreases s.len() - i,
{
    if i < s.len() && !ends_key(s[i]) {
        lemma_key_end_bounds(s, i + 1);
    }
}

fn skip_space_from(cs: &Vec<char>, i: usize) -> (r: usize)
    requires
        i <= cs@.len(),
    ensures
        r == skip_space(cs@, i as int),
        i <= r <= cs@.len(),
{
    let mut p = i;
    while p < cs.len() && (cs[p] == ' ' || cs[p] == '\t' || cs[p] == '\n' || cs[p] == '\r' || cs[p]
        == '\u{feff}')
        invariant
            i <= p <= cs@.len(),
            skip_space(cs@, p as int) == skip_space(cs@, i as int),
        decreases cs@.len() - p,
    {
        p += 1;
    }
    p
}

fn key_end_from(cs: &Vec<char>, i: usize) -> (r: usize)
    requires
        i <= cs@.len(),
    ensures
        r == key_end(cs@, i as int),
        i <= r <= cs@.len(),
{
    let mut p = i;
    while p < cs.len() && !(cs[p] == ' ' || cs[p] == '\t' || cs[p] == '\n' || cs[p] == '\r'
        || cs[p] == '\u{feff}' || cs[p] == ':' || cs[p] == '"' || cs[p] == '#')
        invariant
            i <= p <= cs@.len(),
            key_end(cs@, p as int) == key_end(cs@, i as int),
        decreases cs@.len() - p,
    {
        p += 1;
    }
    p
}

fn line_stop_from(cs: &Vec<char>, i: usize) -> (r: usize)
    requires
        i <= cs@.len(),
    ensures
        r == line_stop(cs@, i as int),
        i <= r <= cs@.len(),
{
    let mut p = i;
    while p < cs.len() && cs[p] != '\n' && cs[p] != '\r'
        invariant
            i <= p <= cs@.len(),
            line_stop(cs@, p as int) == line_stop(cs@, i as int),
        decreases cs@.len() - p,
    {
        p += 1;
    }
    p
}

fn skip_blank_from(cs: &Vec<char>, i: usize) -> (r: usize)
    requires
        i <= cs@.len(),
    ensures
        r == skip_blank(cs@, i as int),
        i <= r <= cs@.len(),
{
    let mut p = i;
    while p < cs.len() && (cs[p] == ' ' || cs[p] == '\t')
        invariant
            i <= p <= cs@.len(),
            skip_blank(cs@, p as int) == skip_blank(cs@, i as int),
        decreases cs@.len() - p,
    {
        p += 1;
    }
    p
}

/// The position of the last quote in `cs[a..b]`, if there is one.
fn last_quote_in(cs: &Vec<char>, a: usize, b: usize) -> (r: Option<usize>)
    requires
        a <= b <= cs@.len(),
    ensures
        match r {
            Some(q) => q as int == last_quote(cs@, a as int, b as int) && a <= q < b,
            None => last_quote(cs@, a as int, b as int) == a - 1,
        },
{
    let mut e = b;
    while e > a
        invariant
            a <= e <= b,
            b <= cs@.len(),
            last_quote(cs@, a as int, e as int) == last_quote(cs@, a as int, b as int),
        decreases e,
    {
        if cs[e - 1] == '"' {
            return Some(e - 1);
        }
        e -= 1;
    }
    None
}

/// `r` is the read `m`: the same entries, or the same error.
pub open spec fn entries_result(
    r: Result<Vec<Item>, LocError>,
    m: Result<Seq<LocItemModel>, LocError>,
) -> bool {
    match r {
        Ok(items) => m == Ok::<_, LocError>(loc_items_model(items@)),
        Err(x) => m is Err && m->Err_0 == x,
    }
}

/// `pre` put in front of the entries of a successful read.
pub open spec fn prepend_entries(
    pre: Seq<LocItemModel>,
    r: Result<Seq<LocItemModel>, LocError>,
) -> Result<Seq<LocItemModel>, LocError> {
    match r {
        Ok(rest) => Ok(pre + rest),
        Err(x) => Err(x),
    }
}

/// Reads the entries from position `i` to the end of `cs`.
fn parse_entries(cs: &Vec<char>, i: usize) -> (r: Result<Vec<Item>, LocError>)
    requires
        i <= cs@.len(),
    ensures
        entries_result(r, loc_entries(cs@, i as int)),
{
    let ghost s = cs@;
    let mut items: Vec<Item> = Vec::new();
    let mut pos = i;
    assert(prepend_entries(Seq::empty(), loc_entries(s, i as int)) =~= loc_entries(s, i as int))
        by {
        match loc_entries(s, i as int) {
            Ok(rest) => {
                assert(Seq::<LocItemModel>::empty() + rest =~= rest);
            },
            Err(_) => {},
        }
    }
    loop
        invariant
            i <= pos <= s.len(),
            s == cs@,
            loc_entries(s, i as int) == prepend_entries(
                loc_items_model(items@),
                loc_entries(s, pos as int),
            ),
        decreases s.len() - pos,
    {
        let p = skip_space_from(cs, pos);
        if p >= cs.len() {
            assert(loc_items_model(items@) + Seq::<LocItemModel>::empty() =~= loc_items_model(
                items@,
            ));
            return Ok(items);
        }
        let ghost before = items@;
        let next: usize;
        proof {
            lemma_line_stop_bounds(s, p + 1);
        }
        if cs[p] == '#' {
            let e = line_stop_from(cs, p);
            let c = string_of(cs, p, e);
            items.push(Item::Comment(c));
            next = e;
        } else {
            let k = key_end_from(cs, p);
            if k == p || k >= cs.len() || cs[k] != ':' {
                return Err(LocError { position: k, expected: LocExpected::Colon });
            }
            let v = digits_end_from(cs, k + 1);
            let number = match digits_value_capped(cs, k + 1, v, 4294967295) {
                Some(x) => x,
                None => {
                    return Err(LocError { position: k + 1, expected: LocExpected::VersionInRange });
                },
            };
            let q0 = skip_blank_from(cs, v);
            if q0 >= cs.len() || cs[q0] != '"' {
                return Err(LocError { position: q0, expected: LocExpected::Quote });
            }
            let le = line_stop_from(cs, q0);
            proof {
                lemma_line_stop_bounds(s, q0 + 1);
            }
            let q1 = match last_quote_in(cs, q0 + 1, le) {
                Some(q) => q,
                None => {
                    return Err(LocError { position: q0, expected: LocExpected::ClosingQuote });
                },
            };
            let version = if v == k + 1 {
                None
            } else {
                Some(number as u32)
            };
            let key = string_of(cs, p, k);
            let raw = string_of(cs, q0 + 1, q1);
            let value = unescape_string(raw.as_str());
            items.push(Item::Pair(Pair { key, version, value }));
            next = q1 + 1;
        }
        proof {
            assert(items@.drop_last() =~= before);
            let pre = loc_items_model(before);
            let x = loc_item_model(items@.last());
            assert(loc_items_model(items@) =~= pre.push(x));
            match loc_entries(s, next as int) {
                Ok(rest) => {
                    assert(pre.push(x) + rest =~= pre + (seq![x] + rest));
                },
                Err(_) => {},
            }
        }
        pos = next;
    }
}

/// Reads a localisation text: its header, then its entries.
pub fn parse_str(input: &str) -> (r: Result<File, LocError>)
    ensures
        match r {
            Ok(f) => loc_document(input@) == Ok::<_, LocError>(
                (f.header.lang@, loc_items_model(f.items@)),
            ),
            Err(x) => loc_document(input@) is Err && loc_document(input@)->Err_0 == x,
        },
{
    let cs = chars_of(input);
    let p = skip_space_from(&cs, 0);
    let k = key_end_from(&cs, p);
    if k == p || k >= cs.len() || cs[k] != ':' {
        return Err(LocError { position: p, expected: LocExpected::Header });
    }
    let lang = string_of(&cs, p, k);
    match parse_entries(&cs, k + 1) {
        Ok(items) => Ok(File { header: Header { lang }, items }),
        Err(x) => Err(x),
    }
}

} // verus!
