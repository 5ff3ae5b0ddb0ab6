//! What a bare word or the text of a quoted string stands for: a date, a number, a boolean,
//! an identifier or a string.
use vstd::prelude::*;
use crate::ast::{
    is_digit, Date, Key, KeyModel, Number, NumberModel, Value, ValueModel,
    key_model, number_model, value_model,
};
use crate::string_utils::{unescape_string, unescaped};
use crate::text::{chars_of, push_char};

verus! {

broadcast use vstd::string::group_string_axioms, vstd::std_specs::vec::group_vec_axioms,
    vstd::seq::group_seq_axioms;

/// The value of a decimal digit.
pub open spec fn digit_value(c: char) -> nat {
    if c == '1' {
        1
    } else if c == '2' {
        2
    } else if c == '3' {
        3
    } else if c == '4' {
        4
    } else if c == '5' {
        5
    } else if c == '6' {
        6
    } else if c == '7' {
        7
    } else if c == '8' {
        8
    } else if c == '9' {
        9
    } else {
        0
    }
}

/// The number that a string of decimal digits denotes.
pub open spec fn digits_value(d: Seq<char>) -> nat
    decreases d.len(),
{
    if d.len() == 0 {
        0
    } else {
        digits_value(d.drop_last()) * 10 + digit_value(d.last())
    }
}

/// Ten to the power `n`.
pub open spec fn pow10(n: nat) -> nat
    decreases n,
{
    if n == 0 {
        1
    } else {
        10 * pow10((n - 1) as nat)
    }
}

/// The end of the run of digits that starts at `i`.
pub open spec fn digits_end(w: Seq<char>, i: int) -> int
    decreases w.len() - i,
{
    if 0 <= i < w.len() && is_digit(w[i]) {
        digits_end(w, i + 1)
    } else {
        i
    }
}

/// The date that `w` spells as `Y.M.D` or `Y.M.D.H`, with a year of `year_min` to `year_max`
/// digits and one or two digits in every other field.
pub open spec fn date_of(w: Seq<char>, year_min: int, year_max: int) -> Option<Date> {
    let e0 = digits_end(w, 0);
    let e1 = digits_end(w, e0 + 1);
    let e2 = digits_end(w, e1 + 1);
    let e3 = digits_end(w, e2 + 1);
    if year_min <= e0 <= year_max && e0 < w.len() && w[e0] == '.' && e0 + 2 <= e1 <= e0 + 3
        && e1 < w.len() && w[e1] == '.' && e1 + 2 <= e2 <= e1 + 3 {
        let y = digits_value(w.subrange(0, e0)) as u32;
        let m = digits_value(w.subrange(e0 + 1, e1)) as u8;
        let d = digits_value(w.subrange(e1 + 1, e2)) as u8;
        if e2 == w.len() {
            Some(Date { y, m, d, h: None })
        } else if w[e2] == '.' && e2 + 2 <= e3 <= e2 + 3 && e3 == w.len() {
            Some(Date { y, m, d, h: Some(digits_value(w.subrange(e2 + 1, e3)) as u8) })
        } else {
            None
        }
    } else {
        None
    }
}

/// A bare date: three or four runs of digits joined by dots, `Y.M.D` or `Y.M.D.H`, whose year
/// fits a `u32` and whose month, day and hour fit a `u8`, leading zeros allowed.
pub open spec fn bare_date(w: Seq<char>) -> Option<Date> {
    let e0 = digits_end(w, 0);
    let e1 = digits_end(w, e0 + 1);
    let e2 = digits_end(w, e1 + 1);
    let e3 = digits_end(w, e2 + 1);
    let y = digits_value(w.subrange(0, e0));
    let m = digits_value(w.subrange(e0 + 1, e1));
    let d = digits_value(w.subrange(e1 + 1, e2));
    if 0 < e0 < w.len() && w[e0] == '.' && e0 + 1 < e1 < w.len() && w[e1] == '.' && e1 + 1 < e2
        && y <= u32::MAX && m <= u8::MAX && d <= u8::MAX {
        if e2 == w.len() {
            Some(Date { y: y as u32, m: m as u8, d: d as u8, h: None })
        } else if w[e2] == '.' && e2 + 1 < e3 && e3 == w.len() && digits_value(
            w.subrange(e2 + 1, e3),
        ) <= u8::MAX {
            Some(
                Date {
                    y: y as u32,
                    m: m as u8,
                    d: d as u8,
                    h: Some(digits_value(w.subrange(e2 + 1, e3)) as u8),
                },
            )
        } else {
            None
        }
    } else {
        None
    }
}

/// A date found inside quotes: a year of three or four digits, then month, day and optional hour.
pub open spec fn quoted_date(w: Seq<char>) -> Option<Date> {
    date_of(w, 3, 4)
}

/// `d` without leading zeros, keeping at least one digit.
pub open spec fn strip_leading_zeros(d: Seq<char>) -> Seq<char>
    decreases d.len(),
{
    if d.len() > 1 && d[0] == '0' {
        strip_leading_zeros(d.drop_first())
    } else {
        d
    }
}

/// `d` without trailing zeros.
pub open spec fn strip_trailing_zeros(d: Seq<char>) -> Seq<char>
    decreases d.len(),
{
    if d.len() > 0 && d.last() == '0' {
        strip_trailing_zeros(d.drop_last())
    } else {
        d
    }
}

/// The number that `w` spells: an optional minus sign, digits, and optionally a point followed
/// by digits; held without leading zeros before the point or trailing zeros after it.
pub open spec fn number_of(w: Seq<char>) -> Option<NumberModel> {
    let a: int = if w.len() > 0 && w[0] == '-' {
        1
    } else {
        0
    };
    let e = digits_end(w, a);
    let f = digits_end(w, e + 1);
    if e == a {
        None
    } else if e == w.len() {
        Some(
            NumberModel {
                negative: a == 1,
                whole: strip_leading_zeros(w.subrange(a, e)),
                fraction: Seq::empty(),
            },
        )
    } else if w[e] == '.' && f > e + 1 && f == w.len() {
        Some(
            NumberModel {
                negative: a == 1,
                whole: strip_leading_zeros(w.subrange(a, e)),
                fraction: strip_trailing_zeros(w.subrange(e + 1, f)),
            },
        )
    } else {
        None
    }
}

/// What a bare word stands for as a key: a date, else a number, else an identifier.
pub open spec fn word_key(w: Seq<char>) -> KeyModel {
    match bare_date(w) {
        Some(d) => KeyModel::Date(d),
        None => match number_of(w) {
            Some(n) => KeyModel::Number(n),
            None => KeyModel::Identifier(w),
        },
    }
}

/// What a bare word stands for as a value: a date, else a number, else `yes` or `no`, else an
/// identifier.
pub open spec fn word_value(w: Seq<char>) -> ValueModel {
    match bare_date(w) {
        Some(d) => ValueModel::Date(d),
        None => match number_of(w) {
            Some(n) => ValueModel::Number(n),
            None => if w == seq!['y', 'e', 's'] {
                ValueModel::Boolean(true)
            } else if w == seq!['n', 'o'] {
                ValueModel::Boolean(false)
            } else {
                ValueModel::Identifier(w)
            },
        },
    }
}

/// What the text between a pair of quotes stands for: a date if it has the shape of one, else
/// the string it spells once unescaped.
pub open spec fn quoted_value(raw: Seq<char>) -> ValueModel {
    match quoted_date(raw) {
        Some(d) => ValueModel::Date(d),
        None => ValueModel::String(unescaped(raw)),
    }
}

fn is_digit_char(c: char) -> (r: bool)
    ensures
        r == is_digit(c),
{
    c == '0' || c == '1' || c == '2' || c == '3' || c == '4' || c == '5' || c == '6' || c == '7'
        || c == '8' || c == '9'
}

fn digit_of(c: char) -> (r: u32)
    ensures
        r == digit_value(c),
        r < 10,
{
    match c {
        '1' => 1,
        '2' => 2,
        '3' => 3,
        '4' => 4,
        '5' => 5,
        '6' => 6,
        '7' => 7,
        '8' => 8,
        '9' => 9,
        _ => 0,
    }
}

/// Copies the characters `w[a..b]` into a new string.
pub(crate) fn string_of(w: &Vec<char>, a: usize, b: usize) -> (r: String)
    requires
        a <= b <= w@.len(),
    ensures
        r@ == w@.subrange(a as int, b as int),
{
    let mut out = String::new();
    let mut k = a;
    while k < b
        invariant
            a <= k <= b,
            b <= w@.len(),
            out@ == w@.subrange(a as int, k as int),
        decreases b - k,
    {
        push_char(&mut out, w[k]);
        k += 1;
        assert(out@ =~= w@.subrange(a as int, k as int));
    }
    out
}

pub(crate) fn digits_end_from(w: &Vec<char>, i: usize) -> (r: usize)
    requires
        i <= w@.len(),
    ensures
        r == digits_end(w@, i as int),
        i <= r <= w@.len(),
        forall|k: int| i <= k < r ==> is_digit(#[trigger] w@[k]),
{
    let mut e = i;
    while e < w.len() && is_digit_char(w[e])
        invariant
            i <= e <= w@.len(),
            digits_end(w@, e as int) == digits_end(w@, i as int),
            forall|k: int| i <= k < e ==> is_digit(#[trigger] w@[k]),
        decreases w@.len() - e,
    {
        e += 1;
    }
    e
}

proof fn lemma_pow10_small()
    ensures
        pow10(0) == 1,
        pow10(1) == 10,
        pow10(2) == 100,
        pow10(3) == 1000,
        pow10(4) == 10000,
        pow10(5) == 100000,
        pow10(6) == 1000000,
        pow10(7) == 10000000,
        pow10(8) == 100000000,
        pow10(9) == 1000000000,
{
    reveal_with_fuel(pow10, 10);
}

/// The number spelled by the digits `w[a..b]`, at most nine of them.
pub(crate) fn digits_value_in(w: &Vec<char>, a: usize, b: usize) -> (r: u32)
    requires
        a <= b <= w@.len(),
        b - a <= 9,
    ensures
        r == digits_value(w@.subrange(a as int, b as int)),
        r < pow10((b - a) as nat),
{
    proof {
        lemma_pow10_small();
    }
    let mut v: u32 = 0;
    let mut k = a;
    assert(w@.subrange(a as int, a as int) =~= Seq::<char>::empty());
    while k < b
        invariant
            a <= k <= b,
            b <= w@.len(),
            b - a <= 9,
            v == digits_value(w@.subrange(a as int, k as int)),
            v < pow10((k - a) as nat),
            pow10(9) == 1000000000,
        decreases b - k,
    {
        let dg = digit_of(w[k]);
        let ghost p = pow10((k - a) as nat);
        proof {
            lemma_pow10_mono((k - a + 1) as nat, 9);
            assert(pow10((k - a + 1) as nat) == 10 * p);
            assert(v * 10 + dg < 10 * p) by (nonlinear_arith)
                requires
                    v < p,
                    dg < 10,
            ;
        }
        v = v * 10 + dg;
        k += 1;
        assert(w@.subrange(a as int, k as int).drop_last() =~= w@.subrange(a as int, k - 1));
    }
    v
}

proof fn lemma_pow10_mono(m: nat, n: nat)
    requires
        m <= n,
    ensures
        pow10(m) <= pow10(n),
    decreases n - m,
{
    if m < n {
        lemma_pow10_mono(m, (n - 1) as nat);
    }
}

/// The date that `w` spells, as `date_of` describes it.
pub(crate) fn date_in(w: &Vec<char>, year_min: usize, year_max: usize) -> (r: Option<Date>)
    requires
        1 <= year_min <= year_max <= 9,
    ensures
        r == date_of(w@, year_min as int, year_max as int),
{
    proof {
        lemma_pow10_small();
    }
    let n = w.len();
    let e0 = digits_end_from(w, 0);
    if !(year_min <= e0 && e0 <= year_max && e0 < n && w[e0] == '.') {
        return None;
    }
    let e1 = digits_end_from(w, e0 + 1);
    if !(e0 + 2 <= e1 && e1 <= e0 + 3 && e1 < n && w[e1] == '.') {
        return None;
    }
    let e2 = digits_end_from(w, e1 + 1);
    if !(e1 + 2 <= e2 && e2 <= e1 + 3) {
        return None;
    }
    let y = digits_value_in(w, 0, e0);
    let m = digits_value_in(w, e0 + 1, e1);
    let d = digits_value_in(w, e1 + 1, e2);
    proof {
        lemma_pow10_mono((e1 - e0 - 1) as nat, 2);
        lemma_pow10_mono((e2 - e1 - 1) as nat, 2);
    }
    if e2 == n {
        return Some(Date { y, m: m as u8, d: d as u8, h: None });
    }
    if w[e2] != '.' {
        return None;
    }
    let e3 = digits_end_from(w, e2 + 1);
    if e2 + 2 <= e3 && e3 <= e2 + 3 && e3 == n {
        let h = digits_value_in(w, e2 + 1, e3);
        proof {
            lemma_pow10_mono((e3 - e2 - 1) as nat, 2);
        }
        Some(Date { y, m: m as u8, d: d as u8, h: Some(h as u8) })
    } else {
        None
    }
}

/// A prefix of a run of digits spells at most what the whole run spells.
pub proof fn lemma_digits_value_take(s: Seq<char>, k: int)
    requires
        0 <= k <= s.len(),
    ensures
        digits_value(s.take(k)) <= digits_value(s),
    decreases s.len(),
{
    if k < s.len() {
        lemma_digits_value_take(s.drop_last(), k);
        assert(s.drop_last().take(k) =~= s.take(k));
    } else {
        assert(s.take(k) =~= s);
    }
}

/// The number spelled by the digits `w[a..b]` if it is at most `limit`, else `None`.
pub(crate) fn digits_value_capped(w: &Vec<char>, a: usize, b: usize, limit: u64) -> (r: Option<
    u64,
>)
    requires
        a <= b <= w@.len(),
        limit <= u32::MAX,
    ensures
        match r {
            Some(v) => v == digits_value(w@.subrange(a as int, b as int)) && v <= limit,
            None => digits_value(w@.subrange(a as int, b as int)) > limit,
        },
{
    let mut v: u64 = 0;
    let mut k = a;
    assert(w@.subrange(a as int, a as int) =~= Seq::<char>::empty());
    while k < b
        invariant
            a <= k <= b,
            b <= w@.len(),
            limit <= u32::MAX,
            v == digits_value(w@.subrange(a as int, k as int)),
            v <= limit,
        decreases b - k,
    {
        let dg = digit_of(w[k]);
        let nv = v * 10 + dg as u64;
        assert(w@.subrange(a as int, k + 1).drop_last() =~= w@.subrange(a as int, k as int));
        if nv > limit {
            proof {
                let whole = w@.subrange(a as int, b as int);
                assert(whole.take(k + 1 - a) =~= w@.subrange(a as int, k + 1));
                lemma_digits_value_take(whole, k + 1 - a);
            }
            return None;
        }
        v = nv;
        k += 1;
    }
    Some(v)
}

/// The date that `w` spells, as `bare_date` describes it.
pub(crate) fn bare_date_in(w: &Vec<char>) -> (r: Option<Date>)
    ensures
        r == bare_date(w@),
{
    let n = w.len();
    let e0 = digits_end_from(w, 0);
    if !(0 < e0 && e0 < n && w[e0] == '.') {
        return None;
    }
    let e1 = digits_end_from(w, e0 + 1);
    if !(e0 + 1 < e1 && e1 < n && w[e1] == '.') {
        return None;
    }
    let e2 = digits_end_from(w, e1 + 1);
    if !(e1 + 1 < e2) {
        return None;
    }
    let y = match digits_value_capped(w, 0, e0, 4294967295) {
        Some(v) => v,
        None => {
            return None;
        },
    };
    let m = match digits_value_capped(w, e0 + 1, e1, 255) {
        Some(v) => v,
        None => {
            return None;
        },
    };
    let d = match digits_value_capped(w, e1 + 1, e2, 255) {
        Some(v) => v,
        None => {
            return None;
        },
    };
    if e2 == n {
        return Some(Date { y: y as u32, m: m as u8, d: d as u8, h: None });
    }
    if w[e2] != '.' {
        return None;
    }
    let e3 = digits_end_from(w, e2 + 1);
    if !(e2 + 1 < e3 && e3 == n) {
        return None;
    }
    match digits_value_capped(w, e2 + 1, e3, 255) {
        Some(h) => Some(Date { y: y as u32, m: m as u8, d: d as u8, h: Some(h as u8) }),
        None => None,
    }
}

/// Reads a bare date, `Y.M.D` or `Y.M.D.H`: runs of digits joined by dots, a year that fits a
/// `u32` and other fields that fit a `u8`; `None` for any other text.
pub fn parse_date_str(s: &str) -> (r: Option<Date>)
    ensures
        r == bare_date(s@),
{
    let w = chars_of(s);
    bare_date_in(&w)
}

/// The number that `w` spells, as `number_of` describes it.
fn number_in(w: &Vec<char>) -> (r: Option<Number>)
    ensures
        match r {
            Some(x) => number_of(w@) == Some(number_model(x)),
            None => number_of(w@) is None,
        },
{
    let n = w.len();
    let a: usize = if n > 0 && w[0] == '-' {
        1
    } else {
        0
    };
    let e = digits_end_from(w, a);
    if e == a {
        return None;
    }
    let mut s0 = a;
    while s0 + 1 < e && w[s0] == '0'
        invariant
            a <= s0 < e,
            e <= w@.len(),
            strip_leading_zeros(w@.subrange(a as int, e as int)) == strip_leading_zeros(
                w@.subrange(s0 as int, e as int),
            ),
        decreases e - s0,
    {
        assert(w@.subrange(s0 as int, e as int).drop_first() =~= w@.subrange(s0 + 1, e as int));
        s0 += 1;
    }
    let whole = string_of(w, s0, e);
    if e == n {
        return Some(Number { negative: a == 1, whole, fraction: String::new() });
    }
    if w[e] != '.' {
        return None;
    }
    let f = digits_end_from(w, e + 1);
    if !(f > e + 1 && f == n) {
        return None;
    }
    let mut f0 = f;
    while f0 > e + 1 && w[f0 - 1] == '0'
        invariant
            e + 1 <= f0 <= f,
            f <= w@.len(),
            strip_trailing_zeros(w@.subrange(e + 1, f as int)) == strip_trailing_zeros(
                w@.subrange(e + 1, f0 as int),
            ),
        decreases f0,
    {
        assert(w@.subrange(e + 1, f0 as int).drop_last() =~= w@.subrange(e + 1, f0 - 1));
        f0 -= 1;
    }
    let fraction = string_of(w, e + 1, f0);
    Some(Number { negative: a == 1, whole, fraction })
}

fn is_yes(w: &Vec<char>) -> (r: bool)
    ensures
        r == (w@ == seq!['y', 'e', 's']),
{
    if w.len() != 3 {
        assert(w@.len() != seq!['y', 'e', 's'].len());
        return false;
    }
    let r = w[0] == 'y' && w[1] == 'e' && w[2] == 's';
    if r {
        assert(w@ =~= seq!['y', 'e', 's']);
    }
    r
}

fn is_no(w: &Vec<char>) -> (r: bool)
    ensures
        r == (w@ == seq!['n', 'o']),
{
    if w.len() != 2 {
        assert(w@.len() != seq!['n', 'o'].len());
        return false;
    }
    let r = w[0] == 'n' && w[1] == 'o';
    if r {
        assert(w@ =~= seq!['n', 'o']);
    }
    r
}

/// What a bare word stands for as a value.
pub(crate) fn word_value_of(w: &Vec<char>) -> (r: Value)
    ensures
        value_model(r) == word_value(w@),
{
    match bare_date_in(w) {
        Some(d) => Value::Date(d),
        None => match number_in(w) {
            Some(x) => Value::Number(x),
            None => {
                if is_yes(w) {
                    Value::Boolean(true)
                } else if is_no(w) {
                    Value::Boolean(false)
                } else {
                    let s = string_of(w, 0, w.len());
                    assert(w@.subrange(0, w@.len() as int) =~= w@);
                    Value::Identifier(s)
                }
            },
        },
    }
}

/// What a bare word stands for as a key.
pub(crate) fn word_key_of(w: &Vec<char>) -> (r: Key)
    ensures
        key_model(r) == word_key(w@),
{
    match bare_date_in(w) {
        Some(d) => Key::Date(d),
        None => match number_in(w) {
            Some(x) => Key::Number(x),
            None => {
                let s = string_of(w, 0, w.len());
                assert(w@.subrange(0, w@.len() as int) =~= w@);
                Key::Identifier(s)
            },
        },
    }
}

/// What the text between a pair of quotes stands for.
pub(crate) fn quoted_value_of(raw: &Vec<char>) -> (r: Value)
    ensures
        value_model(r) == quoted_value(raw@),
{
    match date_in(raw, 3, 4) {
        Some(d) => Value::Date(d),
        None => {
            let s = string_of(raw, 0, raw.len());
            assert(raw@.subrange(0, raw@.len() as int) =~= raw@);
            Value::String(unescape_string(s.as_str()))
        },
    }
}

} // verus!
