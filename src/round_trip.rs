//! Reading back what the serializer writes.
use vstd::prelude::*;
use crate::ast::{
    array_item_model, array_items_model, is_digit, ArrayItem, Date, Item, ItemModel, Key, KeyModel, Number, Value, ValueModel, item_model, items_model,
    key_model, number_model, value_model,
};
use crate::lexer::{is_delimiter, is_space, line_stop, quote_end, skip_space, token_at, word_end, TokenKind};
use crate::parser::{
    array_entry, has_comment, has_pair, lemma_array_items_model_index, lemma_items_model_index, parse_document, parse_item_spec, parse_items_spec,
    parse_value_spec, ParseError, ParseOptions,
};
use crate::serializer::{
    document_text, indent_unit, key_text, overflows, packed, item_text, items_text, lemma_item_text_ends_line, line_end, op_text,
    date_text, digit_char, nat_text, number_text, value_text, IndentStyle,
};
use crate::string_utils::{
    escape_char_spec, escaped, lemma_escape_round_trip, lemma_escaped_plain, needs_escape,
};
use crate::words::{
    bare_date, quoted_value, digit_value, digits_value, pow10, digits_end, number_of, quoted_date, strip_leading_zeros, strip_trailing_zeros,
    word_key, word_value,
};

verus! {

broadcast use vstd::seq::group_seq_axioms;

proof fn lemma_word_end_run(s: Seq<char>, i: int, n: int)
    requires
        0 <= i,
        0 <= n,
        i + n <= s.len(),
        forall|q: int| i <= q < i + n ==> !is_delimiter(#[trigger] s[q]),
        i + n == s.len() || is_delimiter(s[i + n]),
    ensures
        word_end(s, i) == i + n,
    decreases n,
{
    if n > 0 {
        lemma_word_end_run(s, i + 1, n - 1);
    }
}

proof fn lemma_quote_end_at(s: Seq<char>, j: int, str: Seq<char>)
    requires
        0 <= j,
        j + escaped(str).len() < s.len(),
        forall|q: int| 0 <= q < escaped(str).len() ==> s[j + q] == escaped(str)[q],
        s[j + escaped(str).len()] == '"',
    ensures
        quote_end(s, j) == j + escaped(str).len(),
    decreases str.len(),
{
    if str.len() > 0 {
        let c = str[0];
        let ec = escape_char_spec(c);
        let rest = escaped(str.drop_first());
        assert(escaped(str) == ec + rest);
        assert forall|q: int| 0 <= q < rest.len() implies s[j + ec.len() + q] == rest[q] by {
            assert(escaped(str)[ec.len() + q] == rest[q]);
        }
        lemma_quote_end_at(s, j + ec.len(), str.drop_first());
        assert(s[j] == ec[0]) by {
            assert(escaped(str)[0] == ec[0]);
        }
    }
}

/// The value written after an operator: a space, then the quoted string.
proof fn lemma_read_string_value(s: Seq<char>, i: int, str: Seq<char>, depth: nat, opts: ParseOptions)
    requires
        0 <= i,
        i + escaped(str).len() + 3 <= s.len(),
        forall|q: int|
            0 <= q < escaped(str).len() + 3 ==> s[i + q] == (seq![' ', '"'] + escaped(str)
                + seq!['"'])[q],
        quoted_date(escaped(str)) is None,
    ensures
        parse_value_spec(s, i, depth, opts) == Ok::<_, ParseError>(
            (ValueModel::String(str), i + escaped(str).len() + 3),
        ),
{
    let e = escaped(str);
    let n = e.len() as int;
    let seg = seq![' ', '"'] + e + seq!['"'];
    assert(s[i] == seg[0]);
    assert(s[i + 1] == seg[1]);
    assert(s[i + n + 2] == seg[n + 2]);
    assert(skip_space(s, i + 1) == i + 1);
    assert(skip_space(s, i) == i + 1);
    assert forall|q: int| 0 <= q < n implies s[i + 2 + q] == e[q] by {
        assert(s[i + (q + 2)] == seg[q + 2]);
    }
    lemma_quote_end_at(s, i + 2, str);
    assert(token_at(s, i) == (TokenKind::Quoted, i + 1, i + n + 3));
    assert(s.subrange(i + 2, i + n + 2) =~= e);
    lemma_escape_round_trip(str);
}

/// `t` stands in `s` from position `q` on.
pub open spec fn text_at(s: Seq<char>, q: int, t: Seq<char>) -> bool {
    &&& 0 <= q
    &&& q + t.len() <= s.len()
    &&& forall|x: int| 0 <= x < t.len() ==> s[q + x] == t[x]
}

/// Every character of `p` is a space or a tab.
pub open spec fn is_blank(p: Seq<char>) -> bool {
    forall|x: int| 0 <= x < p.len() ==> (p[x] == ' ' || p[x] == '\t')
}

/// A bare word that reads back as the identifier it spells, both as a key and as a value.
pub open spec fn is_bare_identifier(k: Seq<char>) -> bool {
    &&& k.len() > 0
    &&& forall|q: int| 0 <= q < k.len() ==> !is_delimiter(#[trigger] k[q])
    &&& word_key(k) == KeyModel::Identifier(k)
    &&& word_value(k) == ValueModel::Identifier(k)
}

/// A value that reads back as itself: a string whose escaped text is not shaped like a quoted
/// date; a bare identifier; a boolean; a number in canonical form; a date whose year has at most
/// nine digits (three or four when it has an hour) and whose other fields at most two; an array
/// whose entries are all written as bare words; or a block of simple items that holds at least one
/// pair, nested at most `budget` deep.
pub open spec fn simple_value(v: Value, budget: nat) -> bool
    decreases v,
{
    match v {
        Value::String(s) => quoted_date(escaped(s@)) is None,
        Value::Identifier(w) => is_bare_identifier(w@),
        Value::Boolean(_) => true,
        Value::Number(n) => n.is_canonical(),
        Value::Date(d) => match d.h {
            None => d.y < 1_000_000_000 && d.m < 100 && d.d < 100,
            Some(h) => 100 <= d.y < 10_000 && d.m < 100 && d.d < 100 && h < 100,
        },
        Value::Array(a) => budget > 0 && word_entries(a.values@),
        Value::Block(b) => budget > 0 && (exists|k: int|
            0 <= k < b.items@.len() && #[trigger] b.items@[k] is Pair) && simple_items(
            b.items@,
            (budget - 1) as nat,
        ),
    }
}

/// A comment as the lexer reads it: `#` and the rest of one line.
pub open spec fn is_line_comment(c: Seq<char>) -> bool {
    &&& c.len() > 0
    &&& c[0] == '#'
    &&& forall|q: int| 0 <= q < c.len() ==> #[trigger] c[q] != '\n' && c[q] != '\r'
}

/// A key written as a bare word that reads back as itself: a bare identifier, or a date without
/// an hour whose year has at most nine digits and whose month and day at most two.
pub open spec fn simple_key(k: Key) -> bool {
    match k {
        Key::Identifier(w) => is_bare_identifier(w@),
        Key::Date(d) => d.h is None && d.y < 1_000_000_000 && d.m < 100 && d.d < 100,
        _ => false,
    }
}

/// A comment, or a pair of a simple key and a simple value.
pub open spec fn simple_item(i: Item, budget: nat) -> bool
    decreases i,
{
    match i {
        Item::Pair(p) => simple_key(p.key) && simple_value(p.value, budget),
        Item::Comment(c) => is_line_comment(c@),
        _ => false,
    }
}

/// Every item is a simple pair.
pub open spec fn simple_items(items: Seq<Item>, budget: nat) -> bool
    decreases items,
{
    items.len() == 0 || (simple_item(items[0], budget) && simple_items(items.drop_first(), budget))
}

proof fn lemma_text_at_split(s: Seq<char>, q: int, a: Seq<char>, b: Seq<char>)
    requires
        text_at(s, q, a + b),
    ensures
        text_at(s, q, a),
        text_at(s, q + a.len(), b),
{
    assert forall|x: int| 0 <= x < a.len() implies s[q + x] == a[x] by {
        assert((a + b)[x] == a[x]);
    }
    assert forall|x: int| 0 <= x < b.len() implies s[q + a.len() + x] == b[x] by {
        assert((a + b)[a.len() + x] == b[x]);
        assert(s[q + (a.len() + x)] == (a + b)[a.len() + x]);
    }
}

proof fn lemma_skip_blank_run(s: Seq<char>, q: int, p: Seq<char>)
    requires
        text_at(s, q, p),
        is_blank(p),
    ensures
        skip_space(s, q) == skip_space(s, q + p.len()),
    decreases p.len(),
{
    if p.len() > 0 {
        assert(s[q] == p[0]);
        lemma_text_at_split(s, q, seq![p[0]], p.drop_first());
        assert(seq![p[0]] + p.drop_first() =~= p);
        lemma_skip_blank_run(s, q + 1, p.drop_first());
    }
}

proof fn lemma_read_string_after_space(
    s: Seq<char>,
    i0: int,
    st: Seq<char>,
    depth: nat,
    opts: ParseOptions,
)
    requires
        quoted_date(escaped(st)) is None,
        text_at(s, i0, seq![' '] + (seq!['"'] + escaped(st) + seq!['"']) + seq!['\n']),
    ensures
        parse_value_spec(s, i0, depth, opts) == Ok::<_, ParseError>(
            (ValueModel::String(st), i0 + escaped(st).len() + 3),
        ),
{
    let e = escaped(st);
    let whole = seq![' '] + (seq!['"'] + e + seq!['"']) + seq!['\n'];
    assert forall|x: int| 0 <= x < e.len() + 3 implies s[i0 + x] == (seq![' ', '"'] + e + seq![
        '"',
    ])[x] by {
        assert(whole[x] == (seq![' ', '"'] + e + seq!['"'])[x]);
    }
    lemma_read_string_value(s, i0, st, depth, opts);
}

proof fn lemma_read_identifier_value(
    s: Seq<char>,
    i0: int,
    ww: Seq<char>,
    depth: nat,
    opts: ParseOptions,
)
    requires
        is_bare_identifier(ww),
        text_at(s, i0, seq![' '] + ww + seq!['\n']),
    ensures
        parse_value_spec(s, i0, depth, opts) == Ok::<_, ParseError>(
            (ValueModel::Identifier(ww), i0 + ww.len() + 1),
        ),
{
    let n = ww.len() as int;
    let whole = seq![' '] + ww + seq!['\n'];
    assert(s[i0] == ' ') by {
        assert(whole[0] == ' ');
    }
    assert forall|x: int| i0 + 1 <= x < i0 + 1 + n implies !is_delimiter(#[trigger] s[x]) by {
        assert(whole[x - i0] == ww[x - i0 - 1]);
        assert(s[i0 + (x - i0)] == whole[x - i0]);
    }
    assert(s[i0 + 1 + n] == '\n') by {
        assert(whole[1 + n] == '\n');
    }
    assert(s[i0 + 1] == ww[0]) by {
        assert(whole[1] == ww[0]);
    }
    lemma_word_end_run(s, i0 + 1, n);
    assert(skip_space(s, i0 + 1) == i0 + 1);
    assert(token_at(s, i0) == (TokenKind::Word, i0 + 1, i0 + 1 + n));
    assert(s.subrange(i0 + 1, i0 + 1 + n) =~= ww) by {
        assert forall|x: int| 0 <= x < n implies s.subrange(i0 + 1, i0 + 1 + n)[x] == ww[x] by {
            assert(whole[1 + x] == ww[x]);
            assert(s[i0 + (1 + x)] == whole[1 + x]);
        }
    }
}

proof fn lemma_read_boolean_value(s: Seq<char>, i0: int, b: bool, depth: nat, opts: ParseOptions)
    requires
        text_at(
            s,
            i0,
            seq![' '] + (if b {
                seq!['y', 'e', 's']
            } else {
                seq!['n', 'o']
            }) + seq!['\n'],
        ),
    ensures
        parse_value_spec(s, i0, depth, opts) == Ok::<_, ParseError>(
            (ValueModel::Boolean(b), i0 + (if b {
                4int
            } else {
                3int
            })),
        ),
{
    let w = if b {
        seq!['y', 'e', 's']
    } else {
        seq!['n', 'o']
    };
    let n = w.len() as int;
    let whole = seq![' '] + w + seq!['\n'];
    assert(s[i0] == ' ') by {
        assert(whole[0] == ' ');
    }
    assert forall|x: int| i0 + 1 <= x < i0 + 1 + n implies !is_delimiter(#[trigger] s[x]) by {
        assert(whole[x - i0] == w[x - i0 - 1]);
        assert(s[i0 + (x - i0)] == whole[x - i0]);
    }
    assert(s[i0 + 1 + n] == '\n') by {
        assert(whole[1 + n] == '\n');
    }
    assert(s[i0 + 1] == w[0]) by {
        assert(whole[1] == w[0]);
    }
    lemma_word_end_run(s, i0 + 1, n);
    assert(skip_space(s, i0 + 1) == i0 + 1);
    assert(token_at(s, i0) == (TokenKind::Word, i0 + 1, i0 + 1 + n));
    assert(s.subrange(i0 + 1, i0 + 1 + n) =~= w) by {
        assert forall|x: int| 0 <= x < n implies s.subrange(i0 + 1, i0 + 1 + n)[x] == w[x] by {
            assert(whole[1 + x] == w[x]);
            assert(s[i0 + (1 + x)] == whole[1 + x]);
        }
    }
    assert(digits_end(w, 0) == 0);
    assert(bare_date(w) is None);
    assert(number_of(w) is None);
}

proof fn lemma_digits_run(w: Seq<char>, i: int, n: int)
    requires
        0 <= i,
        0 <= n,
        i + n <= w.len(),
        forall|q: int| i <= q < i + n ==> is_digit(#[trigger] w[q]),
        i + n == w.len() || !is_digit(w[i + n]),
    ensures
        digits_end(w, i) == i + n,
    decreases n,
{
    if n > 0 {
        lemma_digits_run(w, i + 1, n - 1);
    }
}

/// The text of a canonical number reads back, as a bare word, as that number.
proof fn lemma_number_word(n: Number)
    requires
        n.is_canonical(),
    ensures
        word_value(number_text(n)) == ValueModel::Number(number_model(n)),
        forall|q: int| 0 <= q < number_text(n).len() ==> !is_delimiter(#[trigger] number_text(n)[q]),
        number_text(n).len() > 0,
{
    let w = number_text(n);
    let sign = if n.negative {
        seq!['-']
    } else {
        Seq::<char>::empty()
    };
    let wh = n.whole@;
    let fr = n.fraction@;
    let tail = if fr.len() > 0 {
        seq!['.'] + fr
    } else {
        Seq::<char>::empty()
    };
    assert(w == sign + wh + tail);
    let a = sign.len() as int;
    let e = a + wh.len();
    assert forall|q: int| a <= q < e implies is_digit(#[trigger] w[q]) by {
        assert(w[q] == wh[q - a]);
    }
    if fr.len() > 0 {
        assert(w[e] == '.');
    }
    lemma_digits_run(w, a, wh.len() as int);
    assert(w.subrange(a, e) =~= wh);
    assert(strip_leading_zeros(wh) == wh);
    if fr.len() > 0 {
        assert forall|q: int| e + 1 <= q < w.len() implies is_digit(#[trigger] w[q]) by {
            assert(w[q] == fr[q - e - 1]);
        }
        lemma_digits_run(w, e + 1, fr.len() as int);
        assert(w.subrange(e + 1, w.len() as int) =~= fr);
        assert(strip_trailing_zeros(fr) == fr);
    }
    if n.negative {
        assert(w[0] == '-');
        assert(digits_end(w, 0) == 0);
    } else {
        assert(digits_end(w, 0) == e);
        if fr.len() > 0 {
            assert(digits_end(w, e + 1) == w.len());
        }
    }
    assert(bare_date(w) is None);
    if fr.len() == 0 {
        assert(e == w.len());
        assert(fr =~= Seq::<char>::empty());
    }
    assert(number_of(w) == Some(number_model(n)));
    assert forall|q: int| 0 <= q < w.len() implies !is_delimiter(#[trigger] w[q]) by {
        if q < a {
            assert(w[q] == '-');
        } else if q < e {
            assert(is_digit(w[q]));
        } else if q == e {
            assert(w[q] == '.');
        } else {
            assert(is_digit(w[q]));
        }
    }
}

proof fn lemma_read_number_value(s: Seq<char>, i0: int, n: Number, depth: nat, opts: ParseOptions)
    requires
        n.is_canonical(),
        text_at(s, i0, seq![' '] + number_text(n) + seq!['\n']),
    ensures
        parse_value_spec(s, i0, depth, opts) == Ok::<_, ParseError>(
            (ValueModel::Number(number_model(n)), i0 + number_text(n).len() + 1),
        ),
{
    let w = number_text(n);
    let len = w.len() as int;
    lemma_number_word(n);
    let whole = seq![' '] + w + seq!['\n'];
    assert(s[i0] == ' ') by {
        assert(whole[0] == ' ');
    }
    assert forall|x: int| i0 + 1 <= x < i0 + 1 + len implies !is_delimiter(#[trigger] s[x]) by {
        assert(whole[x - i0] == w[x - i0 - 1]);
        assert(s[i0 + (x - i0)] == whole[x - i0]);
    }
    assert(s[i0 + 1 + len] == '\n') by {
        assert(whole[1 + len] == '\n');
    }
    assert(s[i0 + 1] == w[0]) by {
        assert(whole[1] == w[0]);
    }
    lemma_word_end_run(s, i0 + 1, len);
    assert(skip_space(s, i0 + 1) == i0 + 1);
    assert(token_at(s, i0) == (TokenKind::Word, i0 + 1, i0 + 1 + len));
    assert(s.subrange(i0 + 1, i0 + 1 + len) =~= w) by {
        assert forall|x: int| 0 <= x < len implies s.subrange(i0 + 1, i0 + 1 + len)[x] == w[x] by {
            assert(whole[1 + x] == w[x]);
            assert(s[i0 + (1 + x)] == whole[1 + x]);
        }
    }
}

proof fn lemma_digit_char_value(d: nat)
    requires
        d < 10,
    ensures
        is_digit(digit_char(d)),
        digit_value(digit_char(d)) == d,
{
}

/// The decimal text of `n` is a non-empty run of digits that spells `n`, no longer than `k`
/// digits when `n < 10^k`.
proof fn lemma_nat_text(n: nat, k: nat)
    ensures
        nat_text(n).len() > 0,
        forall|q: int| 0 <= q < nat_text(n).len() ==> is_digit(#[trigger] nat_text(n)[q]),
        digits_value(nat_text(n)) == n,
        k >= 1 && n < pow10(k) ==> nat_text(n).len() <= k,
        n >= pow10(k) ==> nat_text(n).len() > k,
    decreases n,
{
    lemma_digit_char_value(n % 10);
    if n >= 10 {
        let k1 = if k >= 1 {
            (k - 1) as nat
        } else {
            0
        };
        lemma_nat_text(n / 10, k1);
        let t = nat_text(n / 10);
        assert(nat_text(n).drop_last() =~= t);
        assert(nat_text(n).last() == digit_char(n % 10));
        assert(digits_value(nat_text(n)) == (n / 10) * 10 + n % 10);
        assert((n / 10) * 10 + n % 10 == n) by (nonlinear_arith);
        assert forall|q: int| 0 <= q < nat_text(n).len() implies is_digit(#[trigger] nat_text(n)[q]) by {
            if q < t.len() {
                assert(nat_text(n)[q] == t[q]);
            }
        }
        if n >= pow10(k) && k >= 1 {
            assert(pow10(k) == 10 * pow10(k1));
            assert(n / 10 >= pow10(k1)) by (nonlinear_arith)
                requires
                    n >= 10 * pow10(k1),
            ;
        }
        if k >= 1 && n < pow10(k) {
            if k == 1 {
                assert(pow10(1) == 10) by {
                    reveal_with_fuel(pow10, 2);
                }
            } else {
                assert(pow10(k) == 10 * pow10(k1));
                assert(n / 10 < pow10(k1)) by (nonlinear_arith)
                    requires
                        n < 10 * pow10(k1),
                ;
            }
        }
    } else {
        if k >= 1 {
            assert(pow10(k) == 10 * pow10((k - 1) as nat));
            lemma_pow10_positive((k - 1) as nat);
        }
        assert(digits_value(nat_text(n)) == digits_value(Seq::<char>::empty()) * 10 + digit_value(
            digit_char(n),
        )) by {
            assert(nat_text(n).drop_last() =~= Seq::<char>::empty());
        }
    }
}

/// The text of a date without an hour, with a year of at most nine digits and a month and day of
/// at most two, reads back, as a bare word, as that date.
proof fn lemma_date_word(d: Date)
    requires
        d.h is None,
        d.y < 1_000_000_000,
        d.m < 100,
        d.d < 100,
    ensures
        word_value(date_text(d)) == ValueModel::Date(d),
        word_key(date_text(d)) == KeyModel::Date(d),
        forall|q: int| 0 <= q < date_text(d).len() ==> !is_delimiter(#[trigger] date_text(d)[q]),
        date_text(d).len() > 0,
{
    reveal_with_fuel(pow10, 10);
    let ty = nat_text(d.y as nat);
    let tm = nat_text(d.m as nat);
    let td = nat_text(d.d as nat);
    lemma_nat_text(d.y as nat, 9);
    lemma_nat_text(d.m as nat, 2);
    lemma_nat_text(d.d as nat, 2);
    let w = date_text(d);
    assert(w == ty + seq!['.'] + tm + seq!['.'] + td);
    let e0 = ty.len() as int;
    let e1 = e0 + 1 + tm.len();
    let e2 = e1 + 1 + td.len();
    assert(w.len() == e2);
    assert forall|q: int| 0 <= q < e0 implies is_digit(#[trigger] w[q]) by {
        assert(w[q] == ty[q]);
    }
    assert(w[e0] == '.');
    lemma_digits_run(w, 0, e0);
    assert forall|q: int| e0 + 1 <= q < e1 implies is_digit(#[trigger] w[q]) by {
        assert(w[q] == tm[q - e0 - 1]);
    }
    assert(w[e1] == '.');
    lemma_digits_run(w, e0 + 1, tm.len() as int);
    assert forall|q: int| e1 + 1 <= q < e2 implies is_digit(#[trigger] w[q]) by {
        assert(w[q] == td[q - e1 - 1]);
    }
    lemma_digits_run(w, e1 + 1, td.len() as int);
    assert(w.subrange(0, e0) =~= ty);
    assert(w.subrange(e0 + 1, e1) =~= tm);
    assert(w.subrange(e1 + 1, e2) =~= td);
    assert(bare_date(w) == Some(d));
    assert forall|q: int| 0 <= q < w.len() implies !is_delimiter(#[trigger] w[q]) by {
        if q < e0 || (e0 < q < e1) || e1 < q {
            assert(is_digit(w[q]));
        }
    }
}

proof fn lemma_read_date_value(s: Seq<char>, i0: int, d: Date, depth: nat, opts: ParseOptions)
    requires
        d.h is None,
        d.y < 1_000_000_000,
        d.m < 100,
        d.d < 100,
        text_at(s, i0, seq![' '] + date_text(d) + seq!['\n']),
    ensures
        parse_value_spec(s, i0, depth, opts) == Ok::<_, ParseError>(
            (ValueModel::Date(d), i0 + date_text(d).len() + 1),
        ),
{
    let w = date_text(d);
    let len = w.len() as int;
    lemma_date_word(d);
    let whole = seq![' '] + w + seq!['\n'];
    assert(s[i0] == ' ') by {
        assert(whole[0] == ' ');
    }
    assert forall|x: int| i0 + 1 <= x < i0 + 1 + len implies !is_delimiter(#[trigger] s[x]) by {
        assert(whole[x - i0] == w[x - i0 - 1]);
        assert(s[i0 + (x - i0)] == whole[x - i0]);
    }
    assert(s[i0 + 1 + len] == '\n') by {
        assert(whole[1 + len] == '\n');
    }
    assert(s[i0 + 1] == w[0]) by {
        assert(whole[1] == w[0]);
    }
    lemma_word_end_run(s, i0 + 1, len);
    assert(skip_space(s, i0 + 1) == i0 + 1);
    assert(token_at(s, i0) == (TokenKind::Word, i0 + 1, i0 + 1 + len));
    assert(s.subrange(i0 + 1, i0 + 1 + len) =~= w) by {
        assert forall|x: int| 0 <= x < len implies s.subrange(i0 + 1, i0 + 1 + len)[x] == w[x] by {
            assert(whole[1 + x] == w[x]);
            assert(s[i0 + (1 + x)] == whole[1 + x]);
        }
    }
}

proof fn lemma_pow10_positive(n: nat)
    ensures
        pow10(n) >= 1,
    decreases n,
{
    if n > 0 {
        lemma_pow10_positive((n - 1) as nat);
    }
}

/// The text between the quotes of a date with an hour, with a year of three or four digits and
/// other fields of at most two, reads back as that date, and holds no quote, backslash or
/// other character that escaping would change.
proof fn lemma_hour_date_inner(d: Date)
    requires
        d.h is Some,
        100 <= d.y < 10_000,
        d.m < 100,
        d.d < 100,
        d.h->Some_0 < 100,
    ensures
        ({
            let inner = date_text(d).subrange(1, date_text(d).len() - 1);
            &&& date_text(d) == seq!['"'] + inner + seq!['"']
            &&& quoted_date(inner) == Some(d)
            &&& escaped(inner) == inner
        }),
{
    reveal_with_fuel(pow10, 5);
    let h = d.h->Some_0;
    let ty = nat_text(d.y as nat);
    let tm = nat_text(d.m as nat);
    let td = nat_text(d.d as nat);
    let th = nat_text(h as nat);
    lemma_nat_text(d.y as nat, 4);
    lemma_nat_text(d.y as nat, 2);
    lemma_nat_text(d.m as nat, 2);
    lemma_nat_text(d.d as nat, 2);
    lemma_nat_text(h as nat, 2);
    let w = ty + seq!['.'] + tm + seq!['.'] + td + seq!['.'] + th;
    assert(date_text(d) == seq!['"'] + w + seq!['"']);
    assert(date_text(d).subrange(1, date_text(d).len() - 1) =~= w);
    let e0 = ty.len() as int;
    let e1 = e0 + 1 + tm.len();
    let e2 = e1 + 1 + td.len();
    let e3 = e2 + 1 + th.len();
    assert(w.len() == e3);
    assert forall|q: int| 0 <= q < e0 implies is_digit(#[trigger] w[q]) by {
        assert(w[q] == ty[q]);
    }
    assert(w[e0] == '.');
    lemma_digits_run(w, 0, e0);
    assert forall|q: int| e0 + 1 <= q < e1 implies is_digit(#[trigger] w[q]) by {
        assert(w[q] == tm[q - e0 - 1]);
    }
    assert(w[e1] == '.');
    lemma_digits_run(w, e0 + 1, tm.len() as int);
    assert forall|q: int| e1 + 1 <= q < e2 implies is_digit(#[trigger] w[q]) by {
        assert(w[q] == td[q - e1 - 1]);
    }
    assert(w[e2] == '.');
    lemma_digits_run(w, e1 + 1, td.len() as int);
    assert forall|q: int| e2 + 1 <= q < e3 implies is_digit(#[trigger] w[q]) by {
        assert(w[q] == th[q - e2 - 1]);
    }
    lemma_digits_run(w, e2 + 1, th.len() as int);
    assert(w.subrange(0, e0) =~= ty);
    assert(w.subrange(e0 + 1, e1) =~= tm);
    assert(w.subrange(e1 + 1, e2) =~= td);
    assert(w.subrange(e2 + 1, e3) =~= th);
    assert(quoted_date(w) == Some(d));
    assert forall|q: int| 0 <= q < w.len() implies !needs_escape(#[trigger] w[q]) by {
        if q < e0 || (e0 < q < e1) || (e1 < q < e2) || e2 < q {
            assert(is_digit(w[q]));
        }
    }
    lemma_escaped_plain(w);
}

/// Text that escaping leaves alone, between quotes after a space, reads back as what that text
/// stands for inside quotes.
proof fn lemma_read_plain_quoted(s: Seq<char>, i0: int, w: Seq<char>, depth: nat, opts: ParseOptions)
    requires
        escaped(w) == w,
        text_at(s, i0, seq![' ', '"'] + w + seq!['"']),
    ensures
        parse_value_spec(s, i0, depth, opts) == Ok::<_, ParseError>(
            (quoted_value(w), i0 + w.len() + 3),
        ),
{
    let n = w.len() as int;
    let whole = seq![' ', '"'] + w + seq!['"'];
    assert(s[i0] == ' ') by {
        assert(whole[0] == ' ');
    }
    assert(s[i0 + 1] == '"') by {
        assert(whole[1] == '"');
    }
    assert(s[i0 + n + 2] == '"') by {
        assert(whole[n + 2] == '"');
    }
    assert forall|q: int| 0 <= q < n implies s[i0 + 2 + q] == escaped(w)[q] by {
        assert(whole[q + 2] == w[q]);
        assert(s[i0 + (q + 2)] == whole[q + 2]);
    }
    assert(skip_space(s, i0 + 1) == i0 + 1);
    assert(skip_space(s, i0) == i0 + 1);
    lemma_quote_end_at(s, i0 + 2, w);
    assert(token_at(s, i0) == (TokenKind::Quoted, i0 + 1, i0 + n + 3));
    assert(s.subrange(i0 + 2, i0 + n + 2) =~= w);
}

#[verifier::rlimit(100)]
proof fn lemma_read_hour_date_value(s: Seq<char>, i0: int, d: Date, depth: nat, opts: ParseOptions)
    requires
        d.h is Some,
        100 <= d.y < 10_000,
        d.m < 100,
        d.d < 100,
        d.h->Some_0 < 100,
        text_at(s, i0, seq![' '] + date_text(d) + seq!['\n']),
    ensures
        parse_value_spec(s, i0, depth, opts) == Ok::<_, ParseError>(
            (ValueModel::Date(d), i0 + date_text(d).len() + 1),
        ),
{
    lemma_hour_date_inner(d);
    let w = date_text(d).subrange(1, date_text(d).len() - 1);
    let whole = seq![' '] + date_text(d) + seq!['\n'];
    let part = seq![' ', '"'] + w + seq!['"'];
    assert(whole =~= part + seq!['\n']);
    lemma_text_at_split(s, i0, part, seq!['\n']);
    lemma_read_plain_quoted(s, i0, w, depth, opts);
    assert(quoted_value(w) == ValueModel::Date(d));
    assert(date_text(d).len() == w.len() + 2);
}

/// A value that an array writes as a bare word: an identifier, a boolean, a canonical number,
/// or a date without an hour whose year has at most nine digits and other fields at most two.
pub open spec fn word_entry(v: Value) -> bool {
    match v {
        Value::Identifier(w) => is_bare_identifier(w@),
        Value::Boolean(_) => true,
        Value::Number(n) => n.is_canonical(),
        Value::Date(d) => d.h is None && d.y < 1_000_000_000 && d.m < 100 && d.d < 100,
        _ => false,
    }
}

/// Every entry is a value written as a bare word.
pub open spec fn word_entries(items: Seq<ArrayItem>) -> bool {
    forall|k: int| 0 <= k < items.len() ==> #[trigger] items[k] is Value && word_entry(
        items[k]->Value_0,
    )
}

/// What the packed lines of an array hold after the pending line `line`: the separators and
/// entries still to come, and the final line break.
pub open spec fn after_line(
    items: Seq<ArrayItem>,
    line: Seq<char>,
    pad: Seq<char>,
    unit: Seq<char>,
) -> Seq<char>
    decreases items.len(),
{
    if items.len() == 0 {
        if line.len() > 0 {
            seq!['\n']
        } else {
            Seq::empty()
        }
    } else {
        let e = value_text(items[0]->Value_0, Seq::empty(), unit);
        if overflows(line, e) {
            seq!['\n'] + pad + e + after_line(items.drop_first(), e, pad, unit)
        } else if line.len() == 0 {
            pad + e + after_line(items.drop_first(), e, pad, unit)
        } else {
            seq![' '] + e + after_line(items.drop_first(), line + seq![' '] + e, pad, unit)
        }
    }
}

proof fn lemma_entry_word(v: Value, pad: Seq<char>, unit: Seq<char>)
    requires
        word_entry(v),
    ensures
        value_text(v, pad, unit) == value_text(v, Seq::empty(), unit),
        value_text(v, pad, unit).len() > 0,
        forall|q: int|
            0 <= q < value_text(v, pad, unit).len() ==> !is_delimiter(
                #[trigger] value_text(v, pad, unit)[q],
            ),
        word_value(value_text(v, pad, unit)) == value_model(v),
{
    match v {
        Value::Number(n) => {
            lemma_number_word(n);
        },
        Value::Date(d) => {
            lemma_date_word(d);
        },
        Value::Boolean(b) => {
            let w = value_text(v, pad, unit);
            assert(digits_end(w, 0) == 0);
            assert(bare_date(w) is None);
            assert(number_of(w) is None);
        },
        _ => {},
    }
}

proof fn lemma_packed_split(items: Seq<ArrayItem>, line: Seq<char>, pad: Seq<char>, unit: Seq<char>)
    requires
        word_entries(items),
    ensures
        packed(items, line, pad, unit) == (if line.len() > 0 {
            pad + line
        } else {
            Seq::empty()
        }) + after_line(items, line, pad, unit),
    decreases items.len(),
{
    let pre = if line.len() > 0 {
        pad + line
    } else {
        Seq::<char>::empty()
    };
    if items.len() == 0 {
        assert(packed(items, line, pad, unit) =~= pre + after_line(items, line, pad, unit));
    } else {
        let v = items[0]->Value_0;
        let e = value_text(v, Seq::empty(), unit);
        let rest = items.drop_first();
        assert(items[0] is Value && word_entry(v));
        lemma_entry_word(v, Seq::empty(), unit);
        assert(word_entries(rest)) by {
            assert forall|k: int| 0 <= k < rest.len() implies #[trigger] rest[k] is Value
                && word_entry(rest[k]->Value_0) by {
                assert(rest[k] == items[k + 1]);
            }
        }
        if overflows(line, e) {
            lemma_packed_split(rest, e, pad, unit);
            assert(packed(items, line, pad, unit) =~= pre + after_line(items, line, pad, unit));
        } else if line.len() == 0 {
            lemma_packed_split(rest, e, pad, unit);
            assert(packed(items, line, pad, unit) =~= pre + after_line(items, line, pad, unit));
        } else {
            lemma_packed_split(rest, line + seq![' '] + e, pad, unit);
            assert(packed(items, line, pad, unit) =~= pre + after_line(items, line, pad, unit));
        }
    }
}

proof fn lemma_skip_space_run(s: Seq<char>, q: int, p: Seq<char>)
    requires
        text_at(s, q, p),
        forall|x: int| 0 <= x < p.len() ==> is_space(#[trigger] p[x]),
    ensures
        skip_space(s, q) == skip_space(s, q + p.len()),
    decreases p.len(),
{
    if p.len() > 0 {
        assert(s[q] == p[0]);
        assert(is_space(p[0]));
        lemma_text_at_split(s, q, seq![p[0]], p.drop_first());
        assert(seq![p[0]] + p.drop_first() =~= p);
        lemma_skip_space_run(s, q + 1, p.drop_first());
    }
}

/// The pending line after the entry `e` is added to `line`.
pub open spec fn next_line(line: Seq<char>, e: Seq<char>) -> Seq<char> {
    if overflows(line, e) || line.len() == 0 {
        e
    } else {
        line + seq![' '] + e
    }
}

proof fn lemma_entry_tokens(
    s: Seq<char>,
    i: int,
    q: int,
    items: Seq<ArrayItem>,
    line: Seq<char>,
    pu: Seq<char>,
    pad: Seq<char>,
    unit: Seq<char>,
)
    requires
        items.len() > 0,
        word_entries(items),
        is_blank(pu),
        0 <= i <= q,
        skip_space(s, i) == skip_space(s, q),
        text_at(s, q, after_line(items, line, pu, unit) + pad + seq!['}']),
    ensures
        ({
            let e = value_text(items[0]->Value_0, Seq::empty(), unit);
            let al = after_line(items, line, pu, unit);
            let al2 = after_line(items.drop_first(), next_line(line, e), pu, unit);
            let j = q + al.len() - al2.len();
            &&& al.len() >= al2.len() + e.len()
            &&& token_at(s, i) == (TokenKind::Word, j - e.len(), j)
            &&& s.subrange(j - e.len(), j) == e
            &&& text_at(s, j, al2 + pad + seq!['}'])
        }),
{
    let al = after_line(items, line, pu, unit);
    let v = items[0]->Value_0;
    let e = value_text(v, Seq::empty(), unit);
    let rest = items.drop_first();
    assert(items[0] is Value && word_entry(v));
    lemma_entry_word(v, Seq::empty(), unit);
    let sep = if overflows(line, e) {
        seq!['\n'] + pu
    } else if line.len() == 0 {
        pu
    } else {
        seq![' ']
    };
    let line2 = next_line(line, e);
    let al2 = after_line(rest, line2, pu, unit);
    assert(al == sep + e + al2);
    assert(line2.len() > 0);
    assert(al2.len() > 0 && (al2[0] == ' ' || al2[0] == '\n'));
    assert(al + pad + seq!['}'] =~= sep + e + (al2 + pad + seq!['}']));
    lemma_text_at_split(s, q, sep + e, al2 + pad + seq!['}']);
    lemma_text_at_split(s, q, sep, e);
    assert forall|x: int| 0 <= x < sep.len() implies is_space(#[trigger] sep[x]) by {
        if overflows(line, e) && x > 0 {
            assert(sep[x] == pu[x - 1]);
        }
    }
    lemma_skip_space_run(s, q, sep);
    let p = q + sep.len();
    let j = p + e.len();
    assert(s[p] == e[0]);
    assert(skip_space(s, p) == p);
    assert forall|x: int| p <= x < j implies !is_delimiter(#[trigger] s[x]) by {
        assert(s[p + (x - p)] == e[x - p]);
    }
    assert(s[j] == al2[0]) by {
        assert((al2 + pad + seq!['}'])[0] == al2[0]);
    }
    lemma_word_end_run(s, p, e.len() as int);
    assert(token_at(s, i) == (TokenKind::Word, p, j));
    assert(s.subrange(p, j) =~= e);
}

/// The entries of an array as the serializer packs them, after the pending line `line`, then the
/// indentation `pad` and the closing brace, read from position `i` whose whitespace runs up to
/// where that text starts at `q` or beyond.
proof fn lemma_read_entries(
    s: Seq<char>,
    i: int,
    q: int,
    items: Seq<ArrayItem>,
    line: Seq<char>,
    pu: Seq<char>,
    pad: Seq<char>,
    unit: Seq<char>,
    depth: nat,
    opts: ParseOptions,
)
    requires
        word_entries(items),
        is_blank(pu),
        is_blank(pad),
        0 <= i <= q,
        skip_space(s, i) == skip_space(s, q),
        text_at(s, q, after_line(items, line, pu, unit) + pad + seq!['}']),
    ensures
        parse_items_spec(s, i, depth, opts, true) == Ok::<_, ParseError>(
            (
                items.map_values(|x: ArrayItem| ItemModel::Value(value_model(x->Value_0))),
                q + after_line(items, line, pu, unit).len() + pad.len() + 1,
            ),
        ),
        items.len() > 0 ==> token_at(s, i).0 == TokenKind::Word,
        items.len() == 0 ==> token_at(s, i).0 == TokenKind::Close,
    decreases items.len(),
{
    let al = after_line(items, line, pu, unit);
    lemma_text_at_split(s, q, al + pad, seq!['}']);
    lemma_text_at_split(s, q, al, pad);
    let c = q + al.len() + pad.len();
    assert(s[c] == '}') by {
        assert(seq!['}'][0] == '}');
    }
    if items.len() == 0 {
        assert forall|x: int| 0 <= x < al.len() implies is_space(#[trigger] al[x]) by {}
        lemma_skip_space_run(s, q, al);
        lemma_skip_blank_run(s, q + al.len(), pad);
        assert(skip_space(s, c) == c);
        assert(token_at(s, i) == (TokenKind::Close, c, c + 1));
        assert(items.map_values(|x: ArrayItem| ItemModel::Value(value_model(x->Value_0)))
            =~= Seq::<ItemModel>::empty());
    } else {
        let v = items[0]->Value_0;
        let e = value_text(v, Seq::empty(), unit);
        let rest = items.drop_first();
        assert(items[0] is Value && word_entry(v));
        lemma_entry_word(v, Seq::empty(), unit);
        assert(word_entries(rest)) by {
            assert forall|k: int| 0 <= k < rest.len() implies #[trigger] rest[k] is Value
                && word_entry(rest[k]->Value_0) by {
                assert(rest[k] == items[k + 1]);
            }
        }
        let line2 = next_line(line, e);
        let al2 = after_line(rest, line2, pu, unit);
        lemma_entry_tokens(s, i, q, items, line, pu, pad, unit);
        let j = q + al.len() - al2.len();
        let p = j - e.len();
        lemma_read_entries(s, j, j, rest, line2, pu, pad, unit, depth, opts);
        assert(!(token_at(s, j).0 is Op));
        assert(word_value(s.subrange(p, j)) == value_model(v));
        assert(parse_item_spec(s, i, depth, opts) == Ok::<_, ParseError>(
            (ItemModel::Value(value_model(v)), j),
        ));
        assert(j <= s.len());
        assert(seq![ItemModel::Value(value_model(v))] + rest.map_values(
            |x: ArrayItem| ItemModel::Value(value_model(x->Value_0)),
        ) =~= items.map_values(|x: ArrayItem| ItemModel::Value(value_model(x->Value_0))));
    }
}

proof fn lemma_read_array_value(
    s: Seq<char>,
    i0: int,
    v: Value,
    pad: Seq<char>,
    unit: Seq<char>,
    depth: nat,
    opts: ParseOptions,
)
    requires
        v is Array,
        depth <= opts.max_depth,
        simple_value(v, (opts.max_depth - depth) as nat),
        is_blank(pad),
        is_blank(unit),
        text_at(s, i0, seq![' '] + value_text(v, pad, unit) + line_end(v)),
    ensures
        parse_value_spec(s, i0, depth, opts) == Ok::<_, ParseError>(
            (value_model(v), i0 + value_text(v, pad, unit).len() + line_end(v).len()),
        ),
{
    let a = v->Array_0;
    let vals = a.values@;
    let pu = pad + unit;
    lemma_packed_split(vals, Seq::empty(), pu, unit);
    let al = after_line(vals, Seq::empty(), pu, unit);
    let vt = value_text(v, pad, unit);
    assert(vt == seq!['{', '\n'] + packed(vals, Seq::empty(), pu, unit) + pad + seq!['}', '\n']);
    assert(packed(vals, Seq::empty(), pu, unit) =~= al);
    assert(line_end(v) =~= Seq::<char>::empty());
    let whole = seq![' '] + vt + line_end(v);
    assert(whole =~= seq![' ', '{', '\n'] + (al + pad + seq!['}']) + seq!['\n']);
    lemma_text_at_split(s, i0, seq![' ', '{', '\n'] + (al + pad + seq!['}']), seq!['\n']);
    lemma_text_at_split(s, i0, seq![' ', '{', '\n'], al + pad + seq!['}']);
    assert(s[i0] == ' ');
    assert(s[i0 + 1] == '{');
    assert(s[i0 + 2] == '\n');
    assert(skip_space(s, i0 + 1) == i0 + 1);
    assert(token_at(s, i0) == (TokenKind::Open, i0 + 1, i0 + 2));
    assert(skip_space(s, i0 + 2) == skip_space(s, i0 + 3));
    assert(is_blank(pu)) by {
        assert forall|x: int| 0 <= x < pu.len() implies (pu[x] == ' ' || pu[x] == '\t') by {
            if x < pad.len() {
                assert(pu[x] == pad[x]);
            } else {
                assert(pu[x] == unit[x - pad.len()]);
            }
        }
    }
    lemma_read_entries(s, i0 + 2, i0 + 3, vals, Seq::empty(), pu, pad, unit, depth + 1, opts);
    let models = vals.map_values(|x: ArrayItem| ItemModel::Value(value_model(x->Value_0)));
    assert(!has_pair(models));
    assert(!has_comment(models));
    lemma_array_items_model_index(vals);
    assert(array_items_model(vals) =~= models.map_values(|it: ItemModel| array_entry(it))) by {
        assert forall|k: int| 0 <= k < vals.len() implies array_items_model(vals)[k]
            == models.map_values(|it: ItemModel| array_entry(it))[k] by {
            assert(vals[k] is Value);
        }
    }
}

proof fn lemma_read_block_value(
    s: Seq<char>,
    i0: int,
    v: Value,
    pad: Seq<char>,
    unit: Seq<char>,
    depth: nat,
    opts: ParseOptions,
)
    requires
        v is Block,
        depth <= opts.max_depth,
        simple_value(v, (opts.max_depth - depth) as nat),
        is_blank(pad),
        is_blank(unit),
        text_at(s, i0, seq![' '] + value_text(v, pad, unit) + line_end(v)),
    ensures
        parse_value_spec(s, i0, depth, opts) == Ok::<_, ParseError>(
            (value_model(v), i0 + value_text(v, pad, unit).len() + line_end(v).len()),
        ),
    decreases v, 0nat,
{
    let b = v->Block_0;
    let vt = value_text(v, pad, unit);
    let whole = seq![' '] + vt + line_end(v);
    let inner = b.items@;
    let pu = pad + unit;
    let it = items_text(inner, pu, unit);
    assert(vt == seq!['{', '\n'] + it + pad + seq!['}', '\n']);
    assert(line_end(v) =~= Seq::<char>::empty());
    assert(whole =~= seq![' ', '{', '\n'] + it + (pad + seq!['}', '\n']));
    lemma_text_at_split(s, i0, seq![' ', '{', '\n'] + it, pad + seq!['}', '\n']);
    lemma_text_at_split(s, i0, seq![' ', '{', '\n'], it);
    lemma_text_at_split(s, i0 + 3 + it.len(), pad, seq!['}', '\n']);
    assert(s[i0 + 1] == '{');
    assert(s[i0 + 2] == '\n');
    assert(skip_space(s, i0 + 1) == i0 + 1);
    assert(token_at(s, i0) == (TokenKind::Open, i0 + 1, i0 + 2));
    let c = i0 + 3 + it.len() + pad.len();
    lemma_skip_blank_run(s, i0 + 3 + it.len(), pad);
    assert(s[c] == '}') by {
        assert(seq!['}', '\n'][0] == '}');
    }
    assert(skip_space(s, c) == c);
    assert(skip_space(s, i0 + 2) == skip_space(s, i0 + 3));
    assert(is_blank(pu)) by {
        assert forall|x: int| 0 <= x < pu.len() implies (pu[x] == ' ' || pu[x] == '\t') by {
            if x < pad.len() {
                assert(pu[x] == pad[x]);
            } else {
                assert(pu[x] == unit[x - pad.len()]);
            }
        }
    }
    lemma_read_items(s, i0 + 2, i0 + 3, inner, pu, unit, depth + 1, opts, true);
    lemma_items_model_index(inner);
    let models = inner.map_values(|x: Item| item_model(x));
    assert(items_model(inner) =~= models);
    let k = choose|k: int| 0 <= k < inner.len() && #[trigger] inner[k] is Pair;
    assert(models[k] is Pair);
    assert(has_pair(models));
}

/// A value as the serializer writes it after an operator, a space first and its line break
/// after, read from the position of that space.
proof fn lemma_read_value(
    s: Seq<char>,
    i0: int,
    v: Value,
    pad: Seq<char>,
    unit: Seq<char>,
    depth: nat,
    opts: ParseOptions,
)
    requires
        depth <= opts.max_depth,
        simple_value(v, (opts.max_depth - depth) as nat),
        is_blank(pad),
        is_blank(unit),
        text_at(s, i0, seq![' '] + value_text(v, pad, unit) + line_end(v)),
    ensures
        parse_value_spec(s, i0, depth, opts) == Ok::<_, ParseError>(
            (value_model(v), i0 + value_text(v, pad, unit).len() + line_end(v).len()),
        ),
    decreases v, 1nat,
{
    match v {
        Value::String(st) => {
            lemma_read_string_after_space(s, i0, st@, depth, opts);
        },
        Value::Identifier(w) => {
            lemma_read_identifier_value(s, i0, w@, depth, opts);
        },
        Value::Boolean(b) => {
            lemma_read_boolean_value(s, i0, b, depth, opts);
        },
        Value::Number(n) => {
            lemma_read_number_value(s, i0, n, depth, opts);
        },
        Value::Date(d) => {
            if d.h is None {
                lemma_read_date_value(s, i0, d, depth, opts);
            } else {
                lemma_read_hour_date_value(s, i0, d, depth, opts);
            }
        },
        Value::Array(_) => {
            lemma_read_array_value(s, i0, v, pad, unit, depth, opts);
        },
        Value::Block(_) => {
            lemma_read_block_value(s, i0, v, pad, unit, depth, opts);
        },
    }
}

proof fn lemma_key_word(k: Key)
    requires
        simple_key(k),
    ensures
        key_text(k).len() > 0,
        forall|q: int| 0 <= q < key_text(k).len() ==> !is_delimiter(#[trigger] key_text(k)[q]),
        word_key(key_text(k)) == key_model(k),
{
    match k {
        Key::Date(d) => {
            lemma_date_word(d);
        },
        _ => {},
    }
}

/// Where the key and the operator of a pair written at indentation `pad` lie.
proof fn lemma_pair_tokens(
    s: Seq<char>,
    i: int,
    q: int,
    it: Item,
    pad: Seq<char>,
    unit: Seq<char>,
    budget: nat,
)
    requires
        it is Pair,
        simple_item(it, budget),
        is_blank(pad),
        0 <= i <= q,
        skip_space(s, i) == skip_space(s, q),
        text_at(s, q, item_text(it, pad, unit)),
    ensures
        ({
            let p = it->Pair_0;
            let kk = key_text(p.key);
            let k0 = q + pad.len();
            let kl = kk.len() as int;
            let ol = op_text(p.op).len() as int;
            &&& token_at(s, i) == (TokenKind::Word, k0, k0 + kl)
            &&& s.subrange(k0, k0 + kl) == kk
            &&& token_at(s, k0 + kl) == (TokenKind::Op(p.op), k0 + kl + 1, k0 + kl + 1 + ol)
            &&& text_at(
                s,
                k0 + kl + 1 + ol,
                seq![' '] + value_text(p.value, pad, unit) + line_end(p.value),
            )
            &&& item_text(it, pad, unit).len() == pad.len() + kl + 1 + ol + (seq![' '] + value_text(
                p.value,
                pad,
                unit,
            ) + line_end(p.value)).len()
        }),
{
    let p = it->Pair_0;
    let kk = key_text(p.key);
    lemma_key_word(p.key);
    let o = op_text(p.op);
    let v = p.value;
    let kl = kk.len() as int;
    let ol = o.len() as int;
    let rest = seq![' '] + value_text(v, pad, unit) + line_end(v);
    let tt = item_text(it, pad, unit);
    assert(tt =~= pad + (kk + (seq![' '] + o)) + rest);
    lemma_text_at_split(s, q, pad + (kk + (seq![' '] + o)), rest);
    lemma_text_at_split(s, q, pad, kk + (seq![' '] + o));
    lemma_text_at_split(s, q + pad.len(), kk, seq![' '] + o);
    let k0 = q + pad.len();
    lemma_skip_blank_run(s, q, pad);
    assert(s[k0] == kk[0]);
    assert(!is_delimiter(kk[0]));
    assert(skip_space(s, k0) == k0);
    assert forall|x: int| k0 <= x < k0 + kl implies !is_delimiter(#[trigger] s[x]) by {
        assert(s[k0 + (x - k0)] == kk[x - k0]);
    }
    assert(s[k0 + kl] == ' ') by {
        assert((seq![' '] + o)[0] == ' ');
    }
    lemma_word_end_run(s, k0, kl);
    assert(token_at(s, i) == (TokenKind::Word, k0, k0 + kl));
    assert(s.subrange(k0, k0 + kl) =~= kk);
    assert(s[k0 + kl + 1] == o[0]) by {
        assert((seq![' '] + o)[1] == o[0]);
    }
    assert(o[0] == '=' || o[0] == '<' || o[0] == '>');
    if ol == 2 {
        assert(s[k0 + kl + 2] == o[1]) by {
            assert((seq![' '] + o)[2] == o[1]);
        }
    } else {
        assert(s[k0 + kl + 2] == ' ') by {
            assert(rest[0] == ' ');
            assert(s[(k0 + kl + 2) + 0] == rest[0]);
        }
    }
    assert(skip_space(s, k0 + kl + 1) == k0 + kl + 1);
    assert(skip_space(s, k0 + kl) == k0 + kl + 1);
    assert(token_at(s, k0 + kl) == (TokenKind::Op(p.op), k0 + kl + 1, k0 + kl + 1 + ol));
}

/// One pair as the serializer writes it at indentation `pad`, read from position `i` whose
/// whitespace runs up to where the pair's text starts at `q` or beyond; the parse stops at the
/// line break that ends the pair.
proof fn lemma_read_pair(
    s: Seq<char>,
    i: int,
    q: int,
    it: Item,
    pad: Seq<char>,
    unit: Seq<char>,
    depth: nat,
    opts: ParseOptions,
)
    requires
        it is Pair,
        depth <= opts.max_depth,
        simple_item(it, (opts.max_depth - depth) as nat),
        is_blank(pad),
        is_blank(unit),
        0 <= i <= q,
        skip_space(s, i) == skip_space(s, q),
        text_at(s, q, item_text(it, pad, unit)),
    ensures
        token_at(s, i).0 == TokenKind::Word,
        parse_item_spec(s, i, depth, opts) == Ok::<_, ParseError>(
            (item_model(it), q + item_text(it, pad, unit).len() - 1),
        ),
    decreases it, 0nat,
{
    let p = it->Pair_0;
    let kl = key_text(p.key).len() as int;
    let ol = op_text(p.op).len() as int;
    lemma_pair_tokens(s, i, q, it, pad, unit, (opts.max_depth - depth) as nat);
    lemma_key_word(p.key);
    lemma_read_value(s, q + pad.len() + kl + 1 + ol, p.value, pad, unit, depth, opts);
}

proof fn lemma_line_stop_run(s: Seq<char>, i: int, n: int)
    requires
        0 <= i,
        0 <= n,
        i + n < s.len(),
        forall|q: int| i <= q < i + n ==> #[trigger] s[q] != '\n' && s[q] != '\r',
        s[i + n] == '\n',
    ensures
        line_stop(s, i) == i + n,
    decreases n,
{
    if n > 0 {
        lemma_line_stop_run(s, i + 1, n - 1);
    }
}

/// A comment as the serializer writes it at indentation `pad`.
proof fn lemma_read_comment(
    s: Seq<char>,
    i: int,
    q: int,
    c: Seq<char>,
    pad: Seq<char>,
    depth: nat,
    opts: ParseOptions,
)
    requires
        is_line_comment(c),
        is_blank(pad),
        0 <= i <= q,
        skip_space(s, i) == skip_space(s, q),
        text_at(s, q, pad + c + seq!['\n']),
    ensures
        token_at(s, i).0 == TokenKind::Comment,
        parse_item_spec(s, i, depth, opts) == Ok::<_, ParseError>(
            (ItemModel::Comment(c), q + pad.len() + c.len()),
        ),
{
    assert(pad + c + seq!['\n'] =~= pad + (c + seq!['\n']));
    lemma_text_at_split(s, q, pad, c + seq!['\n']);
    lemma_skip_blank_run(s, q, pad);
    let p = q + pad.len();
    let n = c.len() as int;
    let rest = c + seq!['\n'];
    assert(s[p] == '#') by {
        assert(rest[0] == c[0]);
    }
    assert(skip_space(s, p) == p);
    assert forall|x: int| p <= x < p + n implies #[trigger] s[x] != '\n' && s[x] != '\r' by {
        assert(s[p + (x - p)] == rest[x - p]);
        assert(rest[x - p] == c[x - p]);
    }
    assert(s[p + n] == '\n') by {
        assert(rest[n] == '\n');
    }
    lemma_line_stop_run(s, p, n);
    assert(token_at(s, i) == (TokenKind::Comment, p, p + n));
    assert(s.subrange(p, p + n) =~= c) by {
        assert forall|x: int| 0 <= x < n implies s.subrange(p, p + n)[x] == c[x] by {
            assert(s[p + x] == rest[x]);
        }
    }
}

/// One item as the serializer writes it at indentation `pad`, read from position `i` whose
/// whitespace runs up to where the item's text starts at `q` or beyond; the parse stops at the
/// line break that ends the item.
proof fn lemma_read_item(
    s: Seq<char>,
    i: int,
    q: int,
    it: Item,
    pad: Seq<char>,
    unit: Seq<char>,
    depth: nat,
    opts: ParseOptions,
)
    requires
        depth <= opts.max_depth,
        simple_item(it, (opts.max_depth - depth) as nat),
        is_blank(pad),
        is_blank(unit),
        0 <= i <= q,
        skip_space(s, i) == skip_space(s, q),
        text_at(s, q, item_text(it, pad, unit)),
    ensures
        token_at(s, i).0 != TokenKind::End,
        token_at(s, i).0 != TokenKind::Close,
        parse_item_spec(s, i, depth, opts) == Ok::<_, ParseError>(
            (item_model(it), q + item_text(it, pad, unit).len() - 1),
        ),
    decreases it, 1nat,
{
    match it {
        Item::Comment(c) => {
            lemma_read_comment(s, i, q, c@, pad, depth, opts);
        },
        _ => {
            lemma_read_pair(s, i, q, it, pad, unit, depth, opts);
        },
    }
}

/// The serializer's text of a list of simple pairs at indentation `pad`, read from position `i`
/// whose whitespace runs up to where that text starts at `q` or beyond. At the top level the text
/// runs to the end of `s`; in a block a `}` follows it after whitespace.
proof fn lemma_read_items(
    s: Seq<char>,
    i: int,
    q: int,
    items: Seq<Item>,
    pad: Seq<char>,
    unit: Seq<char>,
    depth: nat,
    opts: ParseOptions,
    nested: bool,
)
    requires
        depth <= opts.max_depth,
        simple_items(items, (opts.max_depth - depth) as nat),
        is_blank(pad),
        is_blank(unit),
        0 <= i <= q,
        skip_space(s, i) == skip_space(s, q),
        text_at(s, q, items_text(items, pad, unit)),
        !nested ==> q + items_text(items, pad, unit).len() == s.len(),
        nested ==> skip_space(s, q + items_text(items, pad, unit).len()) < s.len() && s[skip_space(
            s,
            q + items_text(items, pad, unit).len(),
        )] == '}',
    ensures
        parse_items_spec(s, i, depth, opts, nested) == Ok::<_, ParseError>(
            (
                items.map_values(|it: Item| item_model(it)),
                if nested {
                    skip_space(s, q + items_text(items, pad, unit).len()) + 1
                } else {
                    s.len() as int
                },
            ),
        ),
    decreases items, 0nat,
{
    if items.len() == 0 {
        assert(items.map_values(|it: Item| item_model(it)) =~= Seq::<ItemModel>::empty());
        crate::lexer::lemma_skip_space_bounds(s, q);
    } else {
        let t0 = item_text(items[0], pad, unit);
        let rest = items.drop_first();
        let r = items_text(rest, pad, unit);
        assert(items_text(items, pad, unit) == t0 + r);
        lemma_text_at_split(s, q, t0, r);
        lemma_read_item(s, i, q, items[0], pad, unit, depth, opts);
        lemma_item_text_ends_line(items[0], pad, unit);
        let j = q + t0.len() - 1;
        assert(s[j] == '\n') by {
            assert(s[q + (t0.len() - 1)] == t0[t0.len() - 1]);
        }
        assert(skip_space(s, j) == skip_space(s, j + 1));
        lemma_read_items(s, j, j + 1, rest, pad, unit, depth, opts, nested);
        assert(seq![item_model(items[0])] + rest.map_values(|it: Item| item_model(it))
            =~= items.map_values(|it: Item| item_model(it)));
    }
}

/// Reading back the text that the serializer writes gives the same document, whatever the
/// indentation style and parse options, for documents made of comments and of pairs of a bare
/// identifier and a simple value (see `simple_value`), nested no deeper than the parse allows.
pub proof fn lemma_simple_document_round_trip(
    items: Seq<Item>,
    style: IndentStyle,
    opts: ParseOptions,
)
    requires
        simple_items(items, opts.max_depth as nat),
    ensures
        parse_document(document_text(items, style), opts) == Ok::<_, ParseError>(
            items_model(items),
        ),
{
    let unit = indent_unit(style);
    let s = document_text(items, style);
    assert(is_blank(unit));
    assert(is_blank(Seq::<char>::empty()));
    lemma_read_items(s, 0, 0, items, Seq::empty(), unit, 0, opts, false);
    lemma_items_model_index(items);
    assert(items_model(items) =~= items.map_values(|it: Item| item_model(it)));
}

proof fn lemma_value_text_model(a: Value, b: Value, pad: Seq<char>, unit: Seq<char>)
    requires
        value_model(a) == value_model(b),
    ensures
        value_text(a, pad, unit) == value_text(b, pad, unit),
        line_end(a) == line_end(b),
    decreases a,
{
    match (a, b) {
        (Value::Array(x), Value::Array(y)) => {
            lemma_array_items_model_index(x.values@);
            lemma_array_items_model_index(y.values@);
            lemma_packed_model(x.values@, y.values@, Seq::empty(), pad + unit, unit);
        },
        (Value::Block(x), Value::Block(y)) => {
            lemma_items_model_index(x.items@);
            lemma_items_model_index(y.items@);
            lemma_items_text_model(x.items@, y.items@, pad + unit, unit);
        },
        _ => {},
    }
}

proof fn lemma_packed_model(
    xs: Seq<ArrayItem>,
    ys: Seq<ArrayItem>,
    line: Seq<char>,
    pad: Seq<char>,
    unit: Seq<char>,
)
    requires
        xs.len() == ys.len(),
        forall|k: int| 0 <= k < xs.len() ==> array_item_model(#[trigger] xs[k]) == array_item_model(
            ys[k],
        ),
    ensures
        packed(xs, line, pad, unit) == packed(ys, line, pad, unit),
    decreases xs,
{
    if xs.len() > 0 {
        assert(array_item_model(xs[0]) == array_item_model(ys[0]));
        let e = match (xs[0], ys[0]) {
            (ArrayItem::Value(v), ArrayItem::Value(w)) => {
                lemma_value_text_model(v, w, Seq::empty(), unit);
                value_text(v, Seq::empty(), unit)
            },
            _ => Seq::empty(),
        };
        assert forall|k: int| 0 <= k < xs.drop_first().len() implies array_item_model(
            #[trigger] xs.drop_first()[k],
        ) == array_item_model(ys.drop_first()[k]) by {
            assert(array_item_model(xs[k + 1]) == array_item_model(ys[k + 1]));
        }
        lemma_packed_model(xs.drop_first(), ys.drop_first(), Seq::empty(), pad, unit);
        lemma_packed_model(xs.drop_first(), ys.drop_first(), e, pad, unit);
        if line.len() > 0 {
            lemma_packed_model(xs.drop_first(), ys.drop_first(), line + seq![' '] + e, pad, unit);
        }
    }
}

proof fn lemma_item_text_model(x: Item, y: Item, pad: Seq<char>, unit: Seq<char>)
    requires
        item_model(x) == item_model(y),
    ensures
        item_text(x, pad, unit) == item_text(y, pad, unit),
    decreases x,
{
    match (x, y) {
        (Item::Pair(p), Item::Pair(r)) => {
            lemma_value_text_model(p.value, r.value, pad, unit);
            assert(key_text(p.key) == key_text(r.key));
        },
        (Item::Value(v), Item::Value(w)) => {
            lemma_value_text_model(v, w, pad, unit);
        },
        _ => {},
    }
}

proof fn lemma_items_text_model(xs: Seq<Item>, ys: Seq<Item>, pad: Seq<char>, unit: Seq<char>)
    requires
        xs.len() == ys.len(),
        forall|k: int| 0 <= k < xs.len() ==> item_model(#[trigger] xs[k]) == item_model(ys[k]),
    ensures
        items_text(xs, pad, unit) == items_text(ys, pad, unit),
    decreases xs,
{
    if xs.len() > 0 {
        lemma_item_text_model(xs[0], ys[0], pad, unit);
        assert forall|k: int| 0 <= k < xs.drop_first().len() implies item_model(
            #[trigger] xs.drop_first()[k],
        ) == item_model(ys.drop_first()[k]) by {
            assert(item_model(xs[k + 1]) == item_model(ys[k + 1]));
        }
        lemma_items_text_model(xs.drop_first(), ys.drop_first(), pad, unit);
    }
}

/// The text the serializer writes depends only on what the items hold.
pub proof fn lemma_document_text_model(a: Seq<Item>, b: Seq<Item>, style: IndentStyle)
    requires
        items_model(a) == items_model(b),
    ensures
        document_text(a, style) == document_text(b, style),
{
    lemma_items_model_index(a);
    lemma_items_model_index(b);
    assert forall|k: int| 0 <= k < a.len() implies item_model(#[trigger] a[k]) == item_model(b[k]) by {
        assert(items_model(a)[k] == items_model(b)[k]);
    }
    lemma_items_text_model(a, b, Seq::empty(), indent_unit(style));
}

/// Idempotence for simple documents: a document read back from the serializer's text is written
/// as the very same text again.
pub proof fn lemma_simple_document_idempotent(
    items: Seq<Item>,
    read: Seq<Item>,
    style: IndentStyle,
    opts: ParseOptions,
)
    requires
        simple_items(items, opts.max_depth as nat),
        parse_document(document_text(items, style), opts) == Ok::<_, ParseError>(
            items_model(read),
        ),
    ensures
        document_text(read, style) == document_text(items, style),
{
    lemma_simple_document_round_trip(items, style, opts);
    lemma_document_text_model(read, items, style);
}

} // verus!
