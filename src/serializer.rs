//! Rendering a document back to script text.
use vstd::prelude::*;
use crate::ast::{Array, ArrayItem, Block, Date, Item, Key, Number, Operator, Value};
use crate::string_utils::{escape_string, escaped};
use crate::text::{chars_of, push_char};

verus! {

broadcast use vstd::string::group_string_axioms, vstd::std_specs::vec::group_vec_axioms,
    vstd::seq::group_seq_axioms;

/// The unit of indentation written once per nesting level.
#[derive(Debug, Clone, Copy, PartialEq, Eq)]
pub enum IndentStyle {
    /// One tab character per level.
    Tab,
    /// Four spaces per level.
    FourSpaces,
}

/// Array entries are packed onto one line until the line would grow past this many characters.
pub const WRAP_WIDTH: usize = 120;

/// The text of one level of indentation.
pub open spec fn indent_unit(style: IndentStyle) -> Seq<char> {
    match style {
        IndentStyle::Tab => seq!['\t'],
        IndentStyle::FourSpaces => seq![' ', ' ', ' ', ' '],
    }
}

/// The decimal digit for `d < 10`.
pub open spec fn digit_char(d: nat) -> char {
    if d == 0 {
        '0'
    } else if d == 1 {
        '1'
    } else if d == 2 {
        '2'
    } else if d == 3 {
        '3'
    } else if d == 4 {
        '4'
    } else if d == 5 {
        '5'
    } else if d == 6 {
        '6'
    } else if d == 7 {
        '7'
    } else if d == 8 {
        '8'
    } else {
        '9'
    }
}

/// The decimal notation of `n`, without leading zeros.
pub open spec fn nat_text(n: nat) -> Seq<char>
    decreases n,
{
    if n < 10 {
        seq![digit_char(n)]
    } else {
        nat_text(n / 10).push(digit_char(n % 10))
    }
}

/// `Y.M.D` unquoted, or `"Y.M.D.H"` quoted when the date has an hour.
pub open spec fn date_text(d: Date) -> Seq<char> {
    let ymd = nat_text(d.y as nat) + seq!['.'] + nat_text(d.m as nat) + seq!['.'] + nat_text(
        d.d as nat,
    );
    match d.h {
        Some(h) => seq!['"'] + ymd + seq!['.'] + nat_text(h as nat) + seq!['"'],
        None => ymd,
    }
}

/// A number: its sign, its whole digits, and a point with the fraction digits if there are any.
pub open spec fn number_text(n: Number) -> Seq<char> {
    (if n.negative {
        seq!['-']
    } else {
        Seq::empty()
    }) + n.whole@ + (if n.fraction@.len() > 0 {
        seq!['.'] + n.fraction@
    } else {
        Seq::empty()
    })
}

/// A key as written before its operator.
pub open spec fn key_text(k: Key) -> Seq<char> {
    match k {
        Key::Identifier(s) => s@,
        Key::Number(n) => number_text(n),
        Key::Date(d) => date_text(d),
    }
}

/// An operator as written.
pub open spec fn op_text(op: Operator) -> Seq<char> {
    match op {
        Operator::Eq => seq!['='],
        Operator::Le => seq!['<', '='],
        Operator::Ge => seq!['>', '='],
        Operator::Lt => seq!['<'],
        Operator::Gt => seq!['>'],
    }
}

/// Blocks and arrays end with their own line break; every other value needs one added.
pub open spec fn line_end(v: Value) -> Seq<char> {
    match v {
        Value::Block(_) | Value::Array(_) => Seq::empty(),
        _ => seq!['\n'],
    }
}

/// The pending line written out on a line of its own, if it holds anything.
pub open spec fn flush(line: Seq<char>, pad: Seq<char>) -> Seq<char> {
    if line.len() == 0 {
        Seq::empty()
    } else {
        pad + line + seq!['\n']
    }
}

/// The pending line with `e` added after a space, or `e` alone on an empty line.
pub open spec fn joined(line: Seq<char>, e: Seq<char>) -> Seq<char> {
    if line.len() == 0 {
        e
    } else {
        line + seq![' '] + e
    }
}

/// How many bytes the UTF-8 encoding of `c` takes.
pub open spec fn utf8_len(c: char) -> nat {
    if (c as u32) < 0x80 {
        1
    } else if (c as u32) < 0x800 {
        2
    } else if (c as u32) < 0x10000 {
        3
    } else {
        4
    }
}

/// How many bytes the UTF-8 encoding of `s` takes; widths are measured in these bytes.
pub open spec fn byte_len(s: Seq<char>) -> nat
    decreases s.len(),
{
    if s.len() == 0 {
        0
    } else {
        byte_len(s.drop_last()) + utf8_len(s.last())
    }
}

/// The bytes of two texts put together are the bytes of each.
pub proof fn lemma_byte_len_concat(a: Seq<char>, b: Seq<char>)
    ensures
        byte_len(a + b) == byte_len(a) + byte_len(b),
    decreases b.len(),
{
    if b.len() > 0 {
        lemma_byte_len_concat(a, b.drop_last());
        assert((a + b).drop_last() =~= a + b.drop_last());
    } else {
        assert(a + b =~= a);
    }
}

/// A text takes at least as many bytes as it has characters.
pub proof fn lemma_byte_len_at_least(s: Seq<char>)
    ensures
        byte_len(s) >= s.len(),
    decreases s.len(),
{
    if s.len() > 0 {
        lemma_byte_len_at_least(s.drop_last());
    }
}

/// Whether adding `e` to a non-empty pending line would make it longer than the wrap width,
/// measured in UTF-8 bytes.
pub open spec fn overflows(line: Seq<char>, e: Seq<char>) -> bool {
    line.len() > 0 && byte_len(line) + 1 + byte_len(e) > WRAP_WIDTH
}

/// The UTF-8 length of `s`, counted up to one more than the wrap width.
pub open spec fn capped_bytes(s: Seq<char>) -> nat {
    if byte_len(s) > WRAP_WIDTH + 1 {
        (WRAP_WIDTH + 1) as nat
    } else {
        byte_len(s)
    }
}

fn utf8_len_of(c: char) -> (r: usize)
    ensures
        r == utf8_len(c),
{
    let u = c as u32;
    if u < 0x80 {
        1
    } else if u < 0x800 {
        2
    } else if u < 0x10000 {
        3
    } else {
        4
    }
}

/// The UTF-8 length of `s`, counted up to one more than the wrap width.
fn bytes_capped(s: &str) -> (r: usize)
    ensures
        r == capped_bytes(s@),
{
    let cs = chars_of(s);
    let mut acc: usize = 0;
    let mut k: usize = 0;
    while k < cs.len()
        invariant
            k <= cs@.len(),
            cs@ == s@,
            acc == capped_bytes(cs@.take(k as int)),
        decreases cs@.len() - k,
    {
        let u = utf8_len_of(cs[k]);
        assert(cs@.take(k + 1).drop_last() =~= cs@.take(k as int));
        if acc + u > WRAP_WIDTH + 1 {
            acc = WRAP_WIDTH + 1;
        } else {
            acc = acc + u;
        }
        k += 1;
    }
    assert(cs@.take(k as int) =~= s@);
    acc
}

/// A value as written after an operator; `pad` is the indentation of the line it stands on and
/// `unit` one more level of it.
pub open spec fn value_text(v: Value, pad: Seq<char>, unit: Seq<char>) -> Seq<char>
    decreases v,
{
    match v {
        Value::String(s) => seq!['"'] + escaped(s@) + seq!['"'],
        Value::Identifier(s) => s@,
        Value::Number(n) => number_text(n),
        Value::Date(d) => date_text(d),
        Value::Boolean(b) => if b {
            seq!['y', 'e', 's']
        } else {
            seq!['n', 'o']
        },
        Value::Array(a) => seq!['{', '\n'] + packed(a.values@, Seq::empty(), pad + unit, unit) + pad
            + seq!['}', '\n'],
        Value::Block(b) => seq!['{', '\n'] + items_text(b.items@, pad + unit, unit) + pad + seq![
            '}',
            '\n',
        ],
    }
}

/// The lines that the array entries `items` fill, given the pending line `line`; values are
/// rendered with no indentation of their own and packed up to the wrap width, comments stand
/// on lines of their own.
pub open spec fn packed(
    items: Seq<ArrayItem>,
    line: Seq<char>,
    pad: Seq<char>,
    unit: Seq<char>,
) -> Seq<char>
    decreases items,
{
    if items.len() == 0 {
        flush(line, pad)
    } else {
        match items[0] {
            ArrayItem::Comment(c) => flush(line, pad) + pad + c@ + seq!['\n'] + packed(
                items.drop_first(),
                Seq::empty(),
                pad,
                unit,
            ),
            ArrayItem::Value(v) => {
                let e = value_text(v, Seq::empty(), unit);
                if overflows(line, e) {
                    flush(line, pad) + packed(items.drop_first(), e, pad, unit)
                } else {
                    packed(items.drop_first(), joined(line, e), pad, unit)
                }
            },
        }
    }
}

/// One item on its own line(s), indented by `pad`.
pub open spec fn item_text(i: Item, pad: Seq<char>, unit: Seq<char>) -> Seq<char>
    decreases i,
{
    match i {
        Item::Pair(p) => pad + key_text(p.key) + seq![' '] + op_text(p.op) + seq![' '] + value_text(
            p.value,
            pad,
            unit,
        ) + line_end(p.value),
        Item::Value(v) => pad + value_text(v, pad, unit) + line_end(v),
        Item::Comment(c) => pad + c@ + seq!['\n'],
    }
}

/// The items one after the other, each indented by `pad`.
pub open spec fn items_text(items: Seq<Item>, pad: Seq<char>, unit: Seq<char>) -> Seq<char>
    decreases items,
{
    if items.len() == 0 {
        Seq::empty()
    } else {
        item_text(items[0], pad, unit) + items_text(items.drop_first(), pad, unit)
    }
}

/// The text of a whole document written with the given unit of indentation.
pub open spec fn document_text(items: Seq<Item>, style: IndentStyle) -> Seq<char> {
    items_text(items, Seq::empty(), indent_unit(style))
}

fn digit(d: u32) -> (c: char)
    requires
        d < 10,
    ensures
        c == digit_char(d as nat),
{
    match d {
        0 => '0',
        1 => '1',
        2 => '2',
        3 => '3',
        4 => '4',
        5 => '5',
        6 => '6',
        7 => '7',
        8 => '8',
        _ => '9',
    }
}

/// Appends the decimal notation of `n`.
pub(crate) fn push_nat(out: &mut String, n: u32)
    ensures
        final(out)@ == old(out)@ + nat_text(n as nat),
    decreases n,
{
    let ghost start = out@;
    if n >= 10 {
        push_nat(out, n / 10);
    }
    push_char(out, digit(n % 10));
    proof {
        if n >= 10 {
            assert(out@ =~= start + nat_text(n as nat));
        } else {
            assert(out@ =~= start + nat_text(n as nat));
        }
    }
}

/// Writes a date as `Y.M.D`, or as `"Y.M.D.H"` when it has an hour.
pub fn serialize_date(d: &Date) -> (r: String)
    ensures
        r@ == date_text(*d),
{
    let mut out = String::new();
    if d.h.is_some() {
        push_char(&mut out, '"');
    }
    push_nat(&mut out, d.y);
    push_char(&mut out, '.');
    push_nat(&mut out, d.m as u32);
    push_char(&mut out, '.');
    push_nat(&mut out, d.d as u32);
    match d.h {
        Some(h) => {
            push_char(&mut out, '.');
            push_nat(&mut out, h as u32);
            push_char(&mut out, '"');
            assert(out@ =~= date_text(*d));
        },
        None => {
            assert(out@ =~= date_text(*d));
        },
    }
    out
}

/// Writes a number: a minus sign if negative, the whole digits, and the fraction after a point
/// when there is one.
pub fn serialize_number(n: &Number) -> (r: String)
    ensures
        r@ == number_text(*n),
{
    let mut out = String::new();
    if n.negative {
        push_char(&mut out, '-');
    }
    out.append(n.whole.as_str());
    let ghost before = out@;
    if n.fraction.as_str().unicode_len() > 0 {
        push_char(&mut out, '.');
        out.append(n.fraction.as_str());
    }
    assert(out@ =~= number_text(*n));
    out
}

/// Writes a key.
pub fn serialize_key(k: &Key) -> (r: String)
    ensures
        r@ == key_text(*k),
{
    match k {
        Key::Identifier(s) => s.clone(),
        Key::Number(n) => serialize_number(n),
        Key::Date(d) => serialize_date(d),
    }
}

fn push_operator(out: &mut String, op: Operator)
    ensures
        final(out)@ == old(out)@ + op_text(op),
{
    let ghost start = out@;
    match op {
        Operator::Eq => push_char(out, '='),
        Operator::Le => {
            push_char(out, '<');
            push_char(out, '=');
        },
        Operator::Ge => {
            push_char(out, '>');
            push_char(out, '=');
        },
        Operator::Lt => push_char(out, '<'),
        Operator::Gt => push_char(out, '>'),
    }
    assert(out@ =~= start + op_text(op));
}

/// Writes the pending line of an array on a line of its own, if it holds anything.
fn flush_line(out: &mut String, line: &String, line_len: usize, pad: &str)
    requires
        (line_len > 0) == (line@.len() > 0),
    ensures
        final(out)@ == old(out)@ + flush(line@, pad@),
{
    let ghost start = out@;
    if line_len > 0 {
        out.append(pad);
        out.append(line.as_str());
        push_char(out, '\n');
        assert(out@ =~= start + flush(line@, pad@));
    } else {
        assert(out@ =~= start + flush(line@, pad@));
    }
}

/// The lines of an array's body, `pad` being the indentation of its entries.
fn serialize_array(a: &Array, pad: &str, unit: &str) -> (r: String)
    ensures
        r@ == packed(a.values@, Seq::empty(), pad@, unit@),
    decreases a,
{
    let mut out = String::new();
    let mut line = String::new();
    let mut line_len: usize = 0;
    let no_pad = String::new();
    let mut i: usize = 0;
    assert(a.values@.skip(0) =~= a.values@);
    assert(out@ + packed(a.values@, line@, pad@, unit@) =~= packed(
        a.values@,
        Seq::empty(),
        pad@,
        unit@,
    ));
    while i < a.values.len()
        invariant
            i <= a.values@.len(),
            line_len == capped_bytes(line@),
            no_pad@ == Seq::<char>::empty(),
            out@ + packed(a.values@.skip(i as int), line@, pad@, unit@) == packed(
                a.values@,
                Seq::empty(),
                pad@,
                unit@,
            ),
        decreases a.values@.len() - i,
    {
        let ghost rest = a.values@.skip(i as int);
        let ghost before = out@;
        let ghost old_line = line@;
        assert(rest.drop_first() =~= a.values@.skip(i + 1));
        assert(rest[0] == a.values@[i as int]);
        match &a.values[i] {
            ArrayItem::Comment(c) => {
                flush_line(&mut out, &line, line_len, pad);
                out.append(pad);
                out.append(c.as_str());
                push_char(&mut out, '\n');
                line = String::new();
                line_len = 0;
                assert(out@ =~= before + flush(old_line, pad@) + pad@ + c@ + seq!['\n']);
            },
            ArrayItem::Value(v) => {
                let e = serialize_value(v, no_pad.as_str(), unit);
                let e_len = bytes_capped(e.as_str());
                proof {
                    lemma_byte_len_at_least(old_line);
                    lemma_byte_len_at_least(e@);
                    if old_line.len() == 0 {
                        assert(old_line =~= Seq::<char>::empty());
                    }
                }
                if line_len > 0 && (line_len >= WRAP_WIDTH || e_len > WRAP_WIDTH - 1 - line_len) {
                    assert(overflows(old_line, e@));
                    flush_line(&mut out, &line, line_len, pad);
                    line = e;
                    line_len = e_len;
                } else if line_len == 0 {
                    line = e;
                    line_len = e_len;
                    assert(line@ =~= joined(old_line, e@));
                } else {
                    assert(!overflows(old_line, e@));
                    push_char(&mut line, ' ');
                    line.append(e.as_str());
                    line_len = line_len + 1 + e_len;
                    proof {
                        lemma_byte_len_concat(old_line, seq![' ']);
                        lemma_byte_len_concat(old_line + seq![' '], e@);
                        assert(byte_len(seq![' ']) == 1) by {
                            assert(seq![' '].drop_last() =~= Seq::<char>::empty());
                        }
                    }
                    assert(line@ =~= joined(old_line, e@));
                }
            },
        }
        i += 1;
    }
    flush_line(&mut out, &line, line_len, pad);
    assert(a.values@.skip(i as int) =~= Seq::<ArrayItem>::empty());
    out
}

/// Writes a value after an operator; `pad` is the indentation of the line it starts on.
pub fn serialize_value(v: &Value, pad: &str, unit: &str) -> (r: String)
    ensures
        r@ == value_text(*v, pad@, unit@),
    decreases v,
{
    match v {
        Value::String(s) => {
            let mut out = String::new();
            push_char(&mut out, '"');
            let e = escape_string(s.as_str());
            out.append(e.as_str());
            push_char(&mut out, '"');
            assert(out@ =~= value_text(*v, pad@, unit@));
            out
        },
        Value::Identifier(s) => s.clone(),
        Value::Number(n) => serialize_number(n),
        Value::Date(d) => serialize_date(d),
        Value::Boolean(b) => {
            let mut out = String::new();
            if *b {
                push_char(&mut out, 'y');
                push_char(&mut out, 'e');
                push_char(&mut out, 's');
            } else {
                push_char(&mut out, 'n');
                push_char(&mut out, 'o');
            }
            assert(out@ =~= value_text(*v, pad@, unit@));
            out
        },
        Value::Array(a) => {
            let mut inner = String::from_str(pad);
            inner.append(unit);
            let body = serialize_array(a, inner.as_str(), unit);
            let mut out = String::new();
            push_char(&mut out, '{');
            push_char(&mut out, '\n');
            out.append(body.as_str());
            out.append(pad);
            push_char(&mut out, '}');
            push_char(&mut out, '\n');
            assert(out@ =~= value_text(*v, pad@, unit@));
            out
        },
        Value::Block(b) => {
            let mut inner = String::from_str(pad);
            inner.append(unit);
            let body = serialize_items(&b.items, inner.as_str(), unit);
            let mut out = String::new();
            push_char(&mut out, '{');
            push_char(&mut out, '\n');
            out.append(body.as_str());
            out.append(pad);
            push_char(&mut out, '}');
            push_char(&mut out, '\n');
            assert(out@ =~= value_text(*v, pad@, unit@));
            out
        },
    }
}

/// Writes one item at the indentation `pad`.
pub fn serialize_item(i: &Item, pad: &str, unit: &str) -> (r: String)
    ensures
        r@ == item_text(*i, pad@, unit@),
    decreases i,
{
    let mut out = String::from_str(pad);
    match i {
        Item::Pair(p) => {
            let k = serialize_key(&p.key);
            out.append(k.as_str());
            push_char(&mut out, ' ');
            push_operator(&mut out, p.op);
            push_char(&mut out, ' ');
            let val = serialize_value(&p.value, pad, unit);
            out.append(val.as_str());
            match &p.value {
                Value::Block(_) | Value::Array(_) => {},
                _ => push_char(&mut out, '\n'),
            }
        },
        Item::Value(v) => {
            let val = serialize_value(v, pad, unit);
            out.append(val.as_str());
            match v {
                Value::Block(_) | Value::Array(_) => {},
                _ => push_char(&mut out, '\n'),
            }
        },
        Item::Comment(c) => {
            out.append(c.as_str());
            push_char(&mut out, '\n');
        },
    }
    assert(out@ =~= item_text(*i, pad@, unit@));
    out
}

/// Writes the items one after the other at the indentation `pad`.
fn serialize_items(items: &Vec<Item>, pad: &str, unit: &str) -> (r: String)
    ensures
        r@ == items_text(items@, pad@, unit@),
    decreases items,
{
    let mut out = String::new();
    let mut i: usize = 0;
    assert(items@.skip(0) =~= items@);
    assert(out@ + items_text(items@, pad@, unit@) =~= items_text(items@, pad@, unit@));
    while i < items.len()
        invariant
            i <= items@.len(),
            out@ + items_text(items@.skip(i as int), pad@, unit@) == items_text(items@, pad@, unit@),
        decreases items@.len() - i,
    {
        assert(items@.skip(i as int).drop_first() =~= items@.skip(i + 1));
        let s = serialize_item(&items[i], pad, unit);
        out.append(s.as_str());
        i += 1;
    }
    assert(items@.skip(i as int) =~= Seq::<Item>::empty());
    assert(out@ + Seq::<char>::empty() =~= out@);
    out
}

fn indent_text(style: IndentStyle) -> (r: String)
    ensures
        r@ == indent_unit(style),
{
    let mut out = String::new();
    match style {
        IndentStyle::Tab => push_char(&mut out, '\t'),
        IndentStyle::FourSpaces => {
            push_char(&mut out, ' ');
            push_char(&mut out, ' ');
            push_char(&mut out, ' ');
            push_char(&mut out, ' ');
        },
    }
    assert(out@ =~= indent_unit(style));
    out
}

/// Writes a document, indenting nested groups by `style`.
pub fn serialize_ast_with(items: &[Item], style: IndentStyle) -> (r: String)
    ensures
        r@ == document_text(items@, style),
{
    let unit = indent_text(style);
    let pad = String::new();
    let mut out = String::new();
    let mut i: usize = 0;
    assert(items@.skip(0) =~= items@);
    assert(out@ + items_text(items@, pad@, unit@) =~= items_text(items@, pad@, unit@));
    while i < items.len()
        invariant
            i <= items@.len(),
            pad@ == Seq::<char>::empty(),
            unit@ == indent_unit(style),
            out@ + items_text(items@.skip(i as int), pad@, unit@) == items_text(items@, pad@, unit@),
        decreases items@.len() - i,
    {
        assert(items@.skip(i as int).drop_first() =~= items@.skip(i + 1));
        let s = serialize_item(&items[i], pad.as_str(), unit.as_str());
        out.append(s.as_str());
        i += 1;
    }
    assert(items@.skip(i as int) =~= Seq::<Item>::empty());
    assert(out@ + Seq::<char>::empty() =~= out@);
    out
}

/// Writes a document, indenting nested groups by one tab per level.
pub fn serialize_ast(items: &[Item]) -> (r: String)
    ensures
        r@ == document_text(items@, IndentStyle::Tab),
{
    serialize_ast_with(items, IndentStyle::Tab)
}

/// Array wrapping: before a value entry the pending line is written out exactly when adding the
/// entry (after a space) would take it past the wrap width, and the entry then starts the next
/// line; an entry longer than the width never joins a non-empty line, and the line it starts is
/// written out before any further value is added to it. Widths are measured in UTF-8 bytes.
pub proof fn lemma_array_wrapping(
    items: Seq<ArrayItem>,
    line: Seq<char>,
    pad: Seq<char>,
    unit: Seq<char>,
)
    requires
        items.len() > 0,
        items[0] is Value,
    ensures
        ({
            let e = value_text(items[0]->Value_0, Seq::empty(), unit);
            &&& overflows(line, e) ==> packed(items, line, pad, unit) == flush(line, pad) + packed(
                items.drop_first(),
                e,
                pad,
                unit,
            )
            &&& !overflows(line, e) ==> packed(items, line, pad, unit) == packed(
                items.drop_first(),
                joined(line, e),
                pad,
                unit,
            )
            &&& (byte_len(e) > WRAP_WIDTH && line.len() > 0) ==> overflows(line, e)
            &&& byte_len(e) > WRAP_WIDTH ==> forall|f: Seq<char>| #[trigger] overflows(e, f)
        }),
{
    let e = value_text(items[0]->Value_0, Seq::empty(), unit);
    if e.len() == 0 {
        assert(e =~= Seq::<char>::empty());
    }
}

/// Nesting: the items of a block, and the lines of an array, are written one indentation unit
/// deeper than the line that opens the group, and the closing brace stands on its own line at
/// the opening line's indentation.
pub proof fn lemma_nesting_indent(v: Value, pad: Seq<char>, style: IndentStyle)
    ensures
        (pad + indent_unit(style)).len() > pad.len(),
        v matches Value::Block(b) ==> value_text(v, pad, indent_unit(style)) == seq!['{', '\n']
            + items_text(b.items@, pad + indent_unit(style), indent_unit(style)) + pad + seq![
            '}',
            '\n',
        ],
        v matches Value::Array(a) ==> value_text(v, pad, indent_unit(style)) == seq!['{', '\n']
            + packed(a.values@, Seq::empty(), pad + indent_unit(style), indent_unit(style)) + pad
            + seq!['}', '\n'],
{
}

/// Every item's text ends with a line break.
pub proof fn lemma_item_text_ends_line(i: Item, pad: Seq<char>, unit: Seq<char>)
    ensures
        item_text(i, pad, unit).len() > 0,
        item_text(i, pad, unit).last() == '\n',
{
    match i {
        Item::Pair(p) => {
            let head = pad + key_text(p.key) + seq![' '] + op_text(p.op) + seq![' '];
            let vt = value_text(p.value, pad, unit);
            match p.value {
                Value::Block(_) | Value::Array(_) => {
                    assert(vt.len() > 0 && vt.last() == '\n');
                    assert((head + vt + line_end(p.value)).last() == '\n');
                },
                _ => {},
            }
        },
        Item::Value(v) => {
            let vt = value_text(v, pad, unit);
            match v {
                Value::Block(_) | Value::Array(_) => {
                    assert(vt.len() > 0 && vt.last() == '\n');
                    assert((pad + vt + line_end(v)).last() == '\n');
                },
                _ => {},
            }
        },
        Item::Comment(_) => {},
    }
}

/// The text of a list of items is empty or ends with a line break.
pub proof fn lemma_items_text_ends_line(items: Seq<Item>, pad: Seq<char>, unit: Seq<char>)
    ensures
        items_text(items, pad, unit).len() == 0 || items_text(items, pad, unit).last() == '\n',
    decreases items.len(),
{
    if items.len() > 0 {
        lemma_item_text_ends_line(items[0], pad, unit);
        lemma_items_text_ends_line(items.drop_first(), pad, unit);
    }
}

/// The text of a list of items is the text of its first `k` items followed by that of the rest.
pub proof fn lemma_items_text_split(items: Seq<Item>, k: int, pad: Seq<char>, unit: Seq<char>)
    requires
        0 <= k <= items.len(),
    ensures
        items_text(items, pad, unit) == items_text(items.take(k), pad, unit) + items_text(
            items.skip(k),
            pad,
            unit,
        ),
    decreases k,
{
    if k == 0 {
        assert(items.take(0) =~= Seq::<Item>::empty());
        assert(items.skip(0) =~= items);
        assert(items_text(items.take(0), pad, unit) + items_text(items, pad, unit) =~= items_text(
            items,
            pad,
            unit,
        ));
    } else {
        let rest = items.drop_first();
        lemma_items_text_split(rest, k - 1, pad, unit);
        assert(items.take(k).drop_first() =~= rest.take(k - 1));
        assert(items.take(k)[0] == items[0]);
        assert(rest.skip(k - 1) =~= items.skip(k));
        assert(items_text(items, pad, unit) =~= items_text(items.take(k), pad, unit) + items_text(
            items.skip(k),
            pad,
            unit,
        ));
    }
}

/// Comment placement: a comment among the items of a document or block starts a line of its
/// own (everything written before it ends with a line break) and ends it with a line break, so
/// it never shares a line with the items around it.
pub proof fn lemma_comment_own_line(items: Seq<Item>, k: int, pad: Seq<char>, unit: Seq<char>)
    requires
        0 <= k < items.len(),
        items[k] is Comment,
    ensures
        ({
            let before = items_text(items.take(k), pad, unit);
            &&& items_text(items, pad, unit) == before + pad + items[k]->Comment_0@ + seq!['\n']
                + items_text(items.skip(k + 1), pad, unit)
            &&& (before.len() == 0 || before.last() == '\n')
        }),
{
    lemma_items_text_split(items, k, pad, unit);
    lemma_items_text_ends_line(items.take(k), pad, unit);
    let tail = items.skip(k);
    assert(tail[0] == items[k]);
    assert(tail.drop_first() =~= items.skip(k + 1));
    let c = items[k]->Comment_0@;
    assert(tail.len() > 0);
    assert(item_text(tail[0], pad, unit) == pad + c + seq!['\n']);
    assert(items_text(tail, pad, unit) == pad + c + seq!['\n'] + items_text(
        items.skip(k + 1),
        pad,
        unit,
    ));
    assert(items_text(items.take(k), pad, unit) + (pad + c + seq!['\n'] + items_text(
        items.skip(k + 1),
        pad,
        unit,
    )) =~= items_text(items.take(k), pad, unit) + pad + c + seq!['\n'] + items_text(
        items.skip(k + 1),
        pad,
        unit,
    ));
}

} // verus!
