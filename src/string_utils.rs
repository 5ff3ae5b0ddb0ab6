//! Escaping and unescaping of the text between double quotes.
use vstd::prelude::*;
use crate::text::{chars_of, push_char};

verus! {

broadcast use vstd::string::group_string_axioms;

/// The character that `\c` stands for, if `c` names one of the five escapes.
pub open spec fn unescape_char_spec(c: char) -> Option<char> {
    if c == '"' {
        Some('"')
    } else if c == '\\' {
        Some('\\')
    } else if c == 'n' {
        Some('\n')
    } else if c == 'r' {
        Some('\r')
    } else if c == 't' {
        Some('\t')
    } else {
        None
    }
}

/// Whether `c` is written as a two-character escape inside quotes.
pub open spec fn needs_escape(c: char) -> bool {
    c == '\\' || c == '"' || c == '\n' || c == '\r' || c == '\t'
}

/// How one character is written inside quotes.
pub open spec fn escape_char_spec(c: char) -> Seq<char> {
    if c == '\\' {
        seq!['\\', '\\']
    } else if c == '"' {
        seq!['\\', '"']
    } else if c == '\n' {
        seq!['\\', 'n']
    } else if c == '\r' {
        seq!['\\', 'r']
    } else if c == '\t' {
        seq!['\\', 't']
    } else {
        seq![c]
    }
}

/// `s` with every escapable character written as its escape.
pub open spec fn escaped(s: Seq<char>) -> Seq<char>
    decreases s.len(),
{
    if s.len() == 0 {
        Seq::empty()
    } else {
        escape_char_spec(s[0]) + escaped(s.drop_first())
    }
}

/// `s` with each recognised escape replaced by its character. A backslash before any other
/// character is kept together with that character, and a trailing lone backslash is kept.
pub open spec fn unescaped(s: Seq<char>) -> Seq<char>
    decreases s.len(),
{
    if s.len() == 0 {
        Seq::empty()
    } else if s[0] == '\\' {
        if s.len() == 1 {
            seq!['\\']
        } else {
            match unescape_char_spec(s[1]) {
                Some(c) => seq![c] + unescaped(s.skip(2)),
                None => seq!['\\', s[1]] + unescaped(s.skip(2)),
            }
        }
    } else {
        seq![s[0]] + unescaped(s.drop_first())
    }
}

/// The character that a backslash followed by `c` stands for, or `None` for an unknown escape.
pub fn unescape_char(c: char) -> (r: Option<char>)
    ensures
        r == unescape_char_spec(c),
{
    match c {
        '"' => Some('"'),
        '\\' => Some('\\'),
        'n' => Some('\n'),
        'r' => Some('\r'),
        't' => Some('\t'),
        _ => None,
    }
}

proof fn lemma_unescaped_plain(s: Seq<char>)
    requires
        forall|k: int| 0 <= k < s.len() ==> s[k] != '\\',
    ensures
        unescaped(s) == s,
    decreases s.len(),
{
    if s.len() > 0 {
        lemma_unescaped_plain(s.drop_first());
        assert(seq![s[0]] + s.drop_first() =~= s);
    }
}

/// Text without escapable characters is left as it is by escaping.
pub proof fn lemma_escaped_plain(s: Seq<char>)
    requires
        forall|k: int| 0 <= k < s.len() ==> !needs_escape(#[trigger] s[k]),
    ensures
        escaped(s) == s,
    decreases s.len(),
{
    if s.len() > 0 {
        lemma_escaped_plain(s.drop_first());
        assert(seq![s[0]] + s.drop_first() =~= s);
    }
}

/// Replaces the escapes `\\`, `\"`, `\n`, `\r` and `\t` by the characters they stand for.
/// Any other escape is kept as written.
pub fn unescape_string(s: &str) -> (r: String)
    ensures
        r@ == unescaped(s@),
{
    let cs = chars_of(s);
    let mut has_backslash = false;
    let mut j: usize = 0;
    while j < cs.len()
        invariant
            j <= cs.len(),
            !has_backslash ==> forall|k: int| 0 <= k < j ==> cs@[k] != '\\',
        decreases cs.len() - j,
    {
        if cs[j] == '\\' {
            has_backslash = true;
        }
        j += 1;
    }
    if !has_backslash {
        proof {
            lemma_unescaped_plain(s@);
        }
        return String::from_str(s);
    }
    let mut out = String::new();
    let mut i: usize = 0;
    assert(s@.skip(0) =~= s@);
    assert(out@ + unescaped(s@) =~= unescaped(s@));
    while i < cs.len()
        invariant
            i <= cs.len(),
            cs@ == s@,
            unescaped(s@) == out@ + unescaped(s@.skip(i as int)),
        decreases cs.len() - i,
    {
        let c = cs[i];
        let ghost rest = s@.skip(i as int);
        if c == '\\' {
            if i + 1 == cs.len() {
                push_char(&mut out, '\\');
                i += 1;
                assert(out@ + unescaped(s@.skip(i as int)) =~= out@);
            } else {
                let n = cs[i + 1];
                assert(rest.skip(2) =~= s@.skip(i + 2));
                match unescape_char(n) {
                    Some(m) => {
                        push_char(&mut out, m);
                    },
                    None => {
                        push_char(&mut out, '\\');
                        push_char(&mut out, n);
                    },
                }
                i += 2;
            }
        } else {
            assert(rest.drop_first() =~= s@.skip(i + 1));
            push_char(&mut out, c);
            i += 1;
        }
    }
    assert(s@.skip(i as int) =~= Seq::<char>::empty());
    assert(out@ + Seq::<char>::empty() =~= out@);
    out
}

/// Writes each of backslash, double quote, newline, carriage return and tab as its escape;
/// every other character is kept.
pub fn escape_string(s: &str) -> (r: String)
    ensures
        r@ == escaped(s@),
{
    let cs = chars_of(s);
    let mut plain = true;
    let mut j: usize = 0;
    while j < cs.len()
        invariant
            j <= cs.len(),
            plain ==> forall|k: int| 0 <= k < j ==> !needs_escape(#[trigger] cs@[k]),
        decreases cs.len() - j,
    {
        let c = cs[j];
        if c == '\\' || c == '"' || c == '\n' || c == '\r' || c == '\t' {
            plain = false;
        }
        j += 1;
    }
    if plain {
        proof {
            lemma_escaped_plain(s@);
        }
        return String::from_str(s);
    }
    let mut out = String::new();
    let mut i: usize = 0;
    assert(s@.skip(0) =~= s@);
    assert(out@ + escaped(s@) =~= escaped(s@));
    while i < cs.len()
        invariant
            i <= cs.len(),
            cs@ == s@,
            escaped(s@) == out@ + escaped(s@.skip(i as int)),
        decreases cs.len() - i,
    {
        let c = cs[i];
        let ghost before = out@;
        assert(s@.skip(i as int).drop_first() =~= s@.skip(i + 1));
        if c == '\\' {
            push_char(&mut out, '\\');
            push_char(&mut out, '\\');
        } else if c == '"' {
            push_char(&mut out, '\\');
            push_char(&mut out, '"');
        } else if c == '\n' {
            push_char(&mut out, '\\');
            push_char(&mut out, 'n');
        } else if c == '\r' {
            push_char(&mut out, '\\');
            push_char(&mut out, 'r');
        } else if c == '\t' {
            push_char(&mut out, '\\');
            push_char(&mut out, 't');
        } else {
            push_char(&mut out, c);
        }
        assert(out@ =~= before + escape_char_spec(c));
        i += 1;
    }
    assert(s@.skip(i as int) =~= Seq::<char>::empty());
    assert(out@ + Seq::<char>::empty() =~= out@);
    out
}

proof fn lemma_unescaped_escape_char(c: char, t: Seq<char>)
    ensures
        unescaped(escape_char_spec(c) + t) == seq![c] + unescaped(t),
{
    let e = escape_char_spec(c) + t;
    if needs_escape(c) {
        assert(e.skip(2) =~= t);
    } else {
        assert(e.drop_first() =~= t);
    }
}

/// Unescaping what escaping produced gives back the very same text, for every text.
pub proof fn lemma_escape_round_trip(s: Seq<char>)
    ensures
        unescaped(escaped(s)) == s,
    decreases s.len(),
{
    if s.len() > 0 {
        lemma_escape_round_trip(s.drop_first());
        lemma_unescaped_escape_char(s[0], escaped(s.drop_first()));
        assert(seq![s[0]] + s.drop_first() =~= s);
    }
}

} // verus!
