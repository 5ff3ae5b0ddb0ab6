//! Building the document model from script text.
use vstd::prelude::*;
use crate::ast::{
    Array, ArrayItem, ArrayItemModel, Block, Item, ItemModel, Key, KeyModel, Pair, Value,
    ValueModel,
    array_item_model, array_items_model, item_model, items_model, value_model,
};
use crate::lexer::{lemma_token_bounds, next_token, token_at, TokenKind};
use crate::text::chars_of;
use crate::words::{
    bare_date, bare_date_in, quoted_value, quoted_value_of, string_of, word_key, word_key_of,
    word_value, word_value_of,
};

verus! {

broadcast use vstd::string::group_string_axioms, vstd::std_specs::vec::group_vec_axioms,
    vstd::seq::group_seq_axioms;

/// What the parser looked for where the text went wrong.
#[derive(Debug, Clone, Copy, PartialEq, Eq)]
pub enum Expected {
    /// A value: a brace group, a quoted string or a bare word.
    Value,
    /// The `}` that closes an open brace group.
    ClosingBrace,
    /// The `"` that closes a string.
    ClosingQuote,
    /// An item, or the end of the text, where a stray `}` stands.
    ItemOrEnd,
}

/// Why a text could not be parsed. Positions count characters from the start of the text.
#[derive(Debug, Clone, Copy, PartialEq, Eq)]
pub enum ParseError {
    /// The text does not follow the grammar at `position`.
    Syntax { position: usize, expected: Expected },
    /// The brace at `position` opens a group nested deeper than `limit`.
    TooDeep { position: usize, limit: usize },
}

/// Choices a caller makes about parsing.
#[derive(Debug, Clone, Copy, PartialEq, Eq)]
pub struct ParseOptions {
    /// How many brace groups may be open at once.
    pub max_depth: usize,
    /// Whether a comment in a brace group without pairs makes it a block rather than an array.
    pub comments_force_block: bool,
}

/// The nesting limit of `ParseOptions::new`.
pub const DEFAULT_MAX_DEPTH: usize = 1000;

impl ParseOptions {
    /// The options of `new`.
    pub open spec fn default_spec() -> ParseOptions {
        ParseOptions { max_depth: DEFAULT_MAX_DEPTH, comments_force_block: false }
    }

    /// A nesting limit of `DEFAULT_MAX_DEPTH`, and comments that do not turn arrays into blocks.
    /// The default options.
    pub fn new() -> (r: ParseOptions)
        ensures
            r == ParseOptions::default_spec(),
    {
        ParseOptions { max_depth: DEFAULT_MAX_DEPTH, comments_force_block: false }
    }
}

/// The syntax error at position `p`.
pub open spec fn syntax_error(p: int, e: Expected) -> ParseError {
    ParseError::Syntax { position: p as usize, expected: e }
}

/// Whether some item of `items` is a pair.
pub open spec fn has_pair(items: Seq<ItemModel>) -> bool {
    exists|k: int| 0 <= k < items.len() && #[trigger] items[k] is Pair
}

/// Whether some item of `items` is a comment.
pub open spec fn has_comment(items: Seq<ItemModel>) -> bool {
    exists|k: int| 0 <= k < items.len() && #[trigger] items[k] is Comment
}

/// An item of a group without pairs, as an array entry.
pub open spec fn array_entry(it: ItemModel) -> ArrayItemModel {
    match it {
        ItemModel::Value(v) => ArrayItemModel::Value(v),
        ItemModel::Comment(c) => ArrayItemModel::Comment(c),
        ItemModel::Pair(_, _, _) => ArrayItemModel::Comment(Seq::empty()),
    }
}

/// What a brace group holding `items` becomes: a block if it holds a pair (or, when comments
/// force blocks, a comment), else an array of the same entries in the same order.
pub open spec fn classify(items: Seq<ItemModel>, comments_force_block: bool) -> ValueModel {
    if has_pair(items) || (comments_force_block && has_comment(items)) {
        ValueModel::Block(items)
    } else {
        ValueModel::Array(items.map_values(|it: ItemModel| array_entry(it)))
    }
}

/// The items from position `i` up to the `}` that closes the group (when `nested`) or up to
/// the end of the text (when not), and the position after that.
pub open spec fn parse_items_spec(
    s: Seq<char>,
    i: int,
    depth: nat,
    opts: ParseOptions,
    nested: bool,
) -> Result<(Seq<ItemModel>, int), ParseError>
    decreases s.len() - i, 2nat,
    when 0 <= i <= s.len()
{
    let t = token_at(s, i);
    if t.0 == TokenKind::End {
        if nested {
            Err(syntax_error(t.1, Expected::ClosingBrace))
        } else {
            Ok((Seq::empty(), t.1))
        }
    } else if t.0 == TokenKind::Close {
        if nested {
            Ok((Seq::empty(), t.2))
        } else {
            Err(syntax_error(t.1, Expected::ItemOrEnd))
        }
    } else {
        match parse_item_spec(s, i, depth, opts) {
            Err(x) => Err(x),
            Ok((it, j)) => if i < j <= s.len() {
                match parse_items_spec(s, j, depth, opts, nested) {
                    Ok((rest, m)) => Ok((seq![it] + rest, m)),
                    Err(x) => Err(x),
                }
            } else {
                Err(syntax_error(t.1, Expected::Value))
            },
        }
    }
}

/// One item from position `i`: a comment, a pair `word op value` (or `"date" op value`, a quoted
/// date being the way a date with an hour is written as a key), or a value; and the position
/// after it.
pub open spec fn parse_item_spec(s: Seq<char>, i: int, depth: nat, opts: ParseOptions) -> Result<
    (ItemModel, int),
    ParseError,
>
    decreases s.len() - i, 1nat,
    when 0 <= i <= s.len()
{
    proof {
        lemma_token_bounds(s, i);
        lemma_token_bounds(s, token_at(s, i).2);
        lemma_token_bounds(s, token_at(s, token_at(s, i).2).2);
    }
    let t = token_at(s, i);
    if t.0 == TokenKind::Comment {
        Ok((ItemModel::Comment(s.subrange(t.1, t.2)), t.2))
    } else if t.0 == TokenKind::Word {
        let w = s.subrange(t.1, t.2);
        let u = token_at(s, t.2);
        match u.0 {
            TokenKind::Op(op) => match parse_value_spec(s, u.2, depth, opts) {
                Ok((v, j)) => Ok((ItemModel::Pair(word_key(w), op, v), j)),
                Err(x) => Err(x),
            },
            _ => Ok((ItemModel::Value(word_value(w)), t.2)),
        }
    } else if t.0 == TokenKind::Quoted && token_at(s, t.2).0 is Op && bare_date(
        s.subrange(t.1 + 1, t.2 - 1),
    ) is Some {
        let u = token_at(s, t.2);
        match parse_value_spec(s, u.2, depth, opts) {
            Ok((v, j)) => Ok(
                (
                    ItemModel::Pair(
                        KeyModel::Date(bare_date(s.subrange(t.1 + 1, t.2 - 1))->Some_0),
                        u.0->Op_0,
                        v,
                    ),
                    j,
                ),
            ),
            Err(x) => Err(x),
        }
    } else {
        match parse_value_spec(s, i, depth, opts) {
            Ok((v, j)) => Ok((ItemModel::Value(v), j)),
            Err(x) => Err(x),
        }
    }
}

/// One value from position `i`, inside `depth` open brace groups, and the position after it.
pub open spec fn parse_value_spec(s: Seq<char>, i: int, depth: nat, opts: ParseOptions) -> Result<
    (ValueModel, int),
    ParseError,
>
    decreases s.len() - i, 0nat,
    when 0 <= i <= s.len()
{
    proof {
        lemma_token_bounds(s, i);
    }
    let t = token_at(s, i);
    match t.0 {
        TokenKind::Open => if depth >= opts.max_depth {
            Err(ParseError::TooDeep { position: t.1 as usize, limit: opts.max_depth })
        } else {
            match parse_items_spec(s, t.2, depth + 1, opts, true) {
                Ok((items, j)) => Ok((classify(items, opts.comments_force_block), j)),
                Err(x) => Err(x),
            }
        },
        TokenKind::Quoted => Ok((quoted_value(s.subrange(t.1 + 1, t.2 - 1)), t.2)),
        TokenKind::Word => Ok((word_value(s.subrange(t.1, t.2)), t.2)),
        TokenKind::Unterminated => Err(syntax_error(t.1, Expected::ClosingQuote)),
        _ => Err(syntax_error(t.1, Expected::Value)),
    }
}

/// The items of a whole document.
pub open spec fn parse_document(s: Seq<char>, opts: ParseOptions) -> Result<
    Seq<ItemModel>,
    ParseError,
> {
    match parse_items_spec(s, 0, 0, opts, false) {
        Ok((items, _)) => Ok(items),
        Err(x) => Err(x),
    }
}

/// Classification is monotonic: once a pair has been seen in a brace group, the group is a
/// block whatever follows it, and it keeps all its items in order.
pub proof fn lemma_classify_monotonic(
    seen: Seq<ItemModel>,
    more: Seq<ItemModel>,
    comments_force_block: bool,
)
    requires
        has_pair(seen),
    ensures
        classify(seen + more, comments_force_block) == ValueModel::Block(seen + more),
{
    let k = choose|k: int| 0 <= k < seen.len() && #[trigger] seen[k] is Pair;
    assert((seen + more)[k] is Pair);
}

/// `pre` put in front of the items of a successful parse.
pub open spec fn prepend(pre: Seq<ItemModel>, r: Result<(Seq<ItemModel>, int), ParseError>) -> Result<
    (Seq<ItemModel>, int),
    ParseError,
> {
    match r {
        Ok((rest, m)) => Ok((pre + rest, m)),
        Err(x) => Err(x),
    }
}

/// `r` is the parse `m`: the same items and end position, or the same error.
pub open spec fn items_result(
    r: Result<(Vec<Item>, usize), ParseError>,
    m: Result<(Seq<ItemModel>, int), ParseError>,
) -> bool {
    match r {
        Ok((items, j)) => m == Ok::<_, ParseError>((items_model(items@), j as int)),
        Err(x) => m is Err && m->Err_0 == x,
    }
}

/// `r` is the parse `m`: the same item and end position, or the same error.
pub open spec fn item_result(
    r: Result<(Item, usize), ParseError>,
    m: Result<(ItemModel, int), ParseError>,
) -> bool {
    match r {
        Ok((it, j)) => m == Ok::<_, ParseError>((item_model(it), j as int)),
        Err(x) => m is Err && m->Err_0 == x,
    }
}

/// `r` is the parse `m`: the same value and end position, or the same error.
pub open spec fn value_result(
    r: Result<(Value, usize), ParseError>,
    m: Result<(ValueModel, int), ParseError>,
) -> bool {
    match r {
        Ok((v, j)) => m == Ok::<_, ParseError>((value_model(v), j as int)),
        Err(x) => m is Err && m->Err_0 == x,
    }
}

/// The model of a list of items is the list of the items' models.
pub proof fn lemma_items_model_index(s: Seq<Item>)
    ensures
        items_model(s).len() == s.len(),
        forall|k: int| 0 <= k < s.len() ==> items_model(s)[k] == item_model(#[trigger] s[k]),
    decreases s.len(),
{
    if s.len() > 0 {
        lemma_items_model_index(s.drop_last());
        assert forall|k: int| 0 <= k < s.len() implies items_model(s)[k] == item_model(
            #[trigger] s[k],
        ) by {
            if k < s.len() - 1 {
                assert(s.drop_last()[k] == s[k]);
            }
        }
    }
}

/// The model of a list of array entries is the list of the entries' models.
pub proof fn lemma_array_items_model_index(s: Seq<ArrayItem>)
    ensures
        array_items_model(s).len() == s.len(),
        forall|k: int|
            0 <= k < s.len() ==> array_items_model(s)[k] == array_item_model(#[trigger] s[k]),
    decreases s.len(),
{
    if s.len() > 0 {
        lemma_array_items_model_index(s.drop_last());
        assert forall|k: int| 0 <= k < s.len() implies array_items_model(s)[k] == array_item_model(
            #[trigger] s[k],
        ) by {
            if k < s.len() - 1 {
                assert(s.drop_last()[k] == s[k]);
            }
        }
    }
}

/// Makes a brace group's items a block or an array, as `classify` says.
pub fn classify_block(items: Vec<Item>, comments_force_block: bool) -> (r: Value)
    ensures
        value_model(r) == classify(items_model(items@), comments_force_block),
{
    proof {
        lemma_items_model_index(items@);
    }
    let ghost m = items_model(items@);
    let mut any_pair = false;
    let mut any_comment = false;
    let mut k: usize = 0;
    while k < items.len()
        invariant
            k <= items@.len(),
            m == items_model(items@),
            m.len() == items@.len(),
            forall|q: int| 0 <= q < items@.len() ==> m[q] == item_model(#[trigger] items@[q]),
            any_pair <==> exists|q: int| 0 <= q < k && #[trigger] m[q] is Pair,
            any_comment <==> exists|q: int| 0 <= q < k && #[trigger] m[q] is Comment,
        decreases items@.len() - k,
    {
        match &items[k] {
            Item::Pair(_) => {
                any_pair = true;
            },
            Item::Comment(_) => {
                any_comment = true;
            },
            Item::Value(_) => {},
        }
        assert(m[k as int] == item_model(items@[k as int]));
        k += 1;
    }
    if any_pair || (comments_force_block && any_comment) {
        return Value::Block(Block { items });
    }
    let ghost orig = items@;
    let mut rest = items;
    let mut out: Vec<ArrayItem> = Vec::new();
    while rest.len() > 0
        invariant
            out@.len() + rest@.len() == orig.len(),
            rest@ == orig.skip(out@.len() as int),
            m.len() == orig.len(),
            forall|q: int| 0 <= q < orig.len() ==> m[q] == item_model(#[trigger] orig[q]),
            forall|q: int| 0 <= q < orig.len() ==> !(#[trigger] m[q] is Pair),
            forall|q: int|
                0 <= q < out@.len() ==> array_item_model(#[trigger] out@[q]) == array_entry(m[q]),
        decreases rest@.len(),
    {
        let ghost q = out@.len() as int;
        assert(rest@[0] == orig[q]);
        let it = rest.remove(0);
        assert(rest@ =~= orig.skip(q + 1));
        let entry = match it {
            Item::Value(v) => ArrayItem::Value(v),
            Item::Comment(c) => ArrayItem::Comment(c),
            Item::Pair(_) => {
                proof {
                    assert(m[q] is Pair);
                }
                vstd::pervasive::unreached()
            },
        };
        out.push(entry);
    }
    proof {
        lemma_array_items_model_index(out@);
        assert(out@.len() == m.len());
        assert forall|q: int| 0 <= q < m.len() implies array_items_model(out@)[q] == m.map_values(
            |it: ItemModel| array_entry(it),
        )[q] by {
            assert(array_item_model(out@[q]) == array_entry(m[q]));
        }
        assert(array_items_model(out@) =~= m.map_values(|it: ItemModel| array_entry(it)));
    }
    Value::Array(Array { values: out })
}

/// The value at position `i` of `cs`, inside `depth` open brace groups.
pub fn parse_value(cs: &Vec<char>, i: usize, depth: usize, opts: &ParseOptions) -> (r: Result<
    (Value, usize),
    ParseError,
>)
    requires
        i <= cs@.len(),
        depth <= opts.max_depth,
    ensures
        value_result(r, parse_value_spec(cs@, i as int, depth as nat, *opts)),
        r matches Ok((_, j)) ==> i < j <= cs@.len(),
    decreases cs@.len() - i, 0nat,
{
    proof {
        lemma_token_bounds(cs@, i as int);
    }
    let t = next_token(cs, i);
    match t.kind {
        TokenKind::Open => {
            if depth >= opts.max_depth {
                Err(ParseError::TooDeep { position: t.start, limit: opts.max_depth })
            } else {
                parse_block(cs, t.end, depth + 1, opts)
            }
        },
        TokenKind::Quoted => {
            let raw = chars_between(cs, t.start + 1, t.end - 1);
            Ok((quoted_value_of(&raw), t.end))
        },
        TokenKind::Word => {
            let w = chars_between(cs, t.start, t.end);
            Ok((word_value_of(&w), t.end))
        },
        TokenKind::Unterminated => Err(
            ParseError::Syntax { position: t.start, expected: Expected::ClosingQuote },
        ),
        _ => Err(ParseError::Syntax { position: t.start, expected: Expected::Value }),
    }
}

/// The brace group whose items start at position `i`, classified as a block or an array.
pub fn parse_block(cs: &Vec<char>, i: usize, depth: usize, opts: &ParseOptions) -> (r: Result<
    (Value, usize),
    ParseError,
>)
    requires
        i <= cs@.len(),
        depth <= opts.max_depth,
    ensures
        value_result(
            r,
            match parse_items_spec(cs@, i as int, depth as nat, *opts, true) {
                Ok((items, j)) => Ok((classify(items, opts.comments_force_block), j)),
                Err(x) => Err(x),
            },
        ),
        r matches Ok((_, j)) ==> i <= j <= cs@.len(),
    decreases cs@.len() - i, 3nat,
{
    match parse_items(cs, i, depth, opts, true) {
        Ok((items, j)) => Ok((classify_block(items, opts.comments_force_block), j)),
        Err(x) => Err(x),
    }
}

/// The characters `cs[a..b]`.
fn chars_between(cs: &Vec<char>, a: usize, b: usize) -> (r: Vec<char>)
    requires
        a <= b <= cs@.len(),
    ensures
        r@ == cs@.subrange(a as int, b as int),
{
    let mut out: Vec<char> = Vec::new();
    let mut k = a;
    while k < b
        invariant
            a <= k <= b,
            b <= cs@.len(),
            out@ == cs@.subrange(a as int, k as int),
        decreases b - k,
    {
        out.push(cs[k]);
        k += 1;
        assert(out@ =~= cs@.subrange(a as int, k as int));
    }
    out
}

/// The item at position `i` of `cs`.
fn parse_item(cs: &Vec<char>, i: usize, depth: usize, opts: &ParseOptions) -> (r: Result<
    (Item, usize),
    ParseError,
>)
    requires
        i <= cs@.len(),
        depth <= opts.max_depth,
    ensures
        item_result(r, parse_item_spec(cs@, i as int, depth as nat, *opts)),
        r matches Ok((_, j)) ==> i < j <= cs@.len(),
    decreases cs@.len() - i, 1nat,
{
    proof {
        lemma_token_bounds(cs@, i as int);
    }
    let t = next_token(cs, i);
    match t.kind {
        TokenKind::Comment => {
            let c = string_of(cs, t.start, t.end);
            Ok((Item::Comment(c), t.end))
        },
        TokenKind::Word => {
            proof {
                lemma_token_bounds(cs@, t.end as int);
            }
            let w = chars_between(cs, t.start, t.end);
            let u = next_token(cs, t.end);
            match u.kind {
                TokenKind::Op(op) => {
                    proof {
                        lemma_token_bounds(cs@, u.end as int);
                    }
                    match parse_value(cs, u.end, depth, opts) {
                        Ok((v, j)) => {
                            let key = word_key_of(&w);
                            Ok((Item::Pair(Pair { key, op, value: v }), j))
                        },
                        Err(x) => Err(x),
                    }
                },
                _ => Ok((Item::Value(word_value_of(&w)), t.end)),
            }
        },
        TokenKind::Quoted => {
            proof {
                lemma_token_bounds(cs@, t.end as int);
            }
            let raw = chars_between(cs, t.start + 1, t.end - 1);
            let u = next_token(cs, t.end);
            let date = bare_date_in(&raw);
            match (u.kind, date) {
                (TokenKind::Op(op), Some(d)) => {
                    proof {
                        lemma_token_bounds(cs@, u.end as int);
                    }
                    match parse_value(cs, u.end, depth, opts) {
                        Ok((v, j)) => Ok((Item::Pair(Pair { key: Key::Date(d), op, value: v }), j)),
                        Err(x) => Err(x),
                    }
                },
                _ => match parse_value(cs, i, depth, opts) {
                    Ok((v, j)) => Ok((Item::Value(v), j)),
                    Err(x) => Err(x),
                },
            }
        },
        _ => match parse_value(cs, i, depth, opts) {
            Ok((v, j)) => Ok((Item::Value(v), j)),
            Err(x) => Err(x),
        },
    }
}

/// The items from position `i` up to the closing `}` (when `nested`) or the end of the text.
fn parse_items(cs: &Vec<char>, i: usize, depth: usize, opts: &ParseOptions, nested: bool) -> (r:
    Result<(Vec<Item>, usize), ParseError>)
    requires
        i <= cs@.len(),
        depth <= opts.max_depth,
    ensures
        items_result(r, parse_items_spec(cs@, i as int, depth as nat, *opts, nested)),
        r matches Ok((_, j)) ==> i <= j <= cs@.len(),
    decreases cs@.len() - i, 2nat,
{
    let ghost s = cs@;
    let mut items: Vec<Item> = Vec::new();
    let mut pos = i;
    assert(prepend(Seq::empty(), parse_items_spec(s, i as int, depth as nat, *opts, nested))
        =~= parse_items_spec(s, i as int, depth as nat, *opts, nested)) by {
        match parse_items_spec(s, i as int, depth as nat, *opts, nested) {
            Ok((rest, m)) => {
                assert(Seq::<ItemModel>::empty() + rest =~= rest);
            },
            Err(_) => {},
        }
    }
    loop
        invariant
            i <= pos <= s.len(),
            s == cs@,
            depth <= opts.max_depth,
            parse_items_spec(s, i as int, depth as nat, *opts, nested) == prepend(
                items_model(items@),
                parse_items_spec(s, pos as int, depth as nat, *opts, nested),
            ),
        decreases s.len() - pos,
    {
        proof {
            lemma_token_bounds(s, pos as int);
        }
        let t = next_token(cs, pos);
        match t.kind {
            TokenKind::End => {
                if nested {
                    return Err(ParseError::Syntax { position: t.start, expected: Expected::ClosingBrace });
                } else {
                    assert(items_model(items@) + Seq::<ItemModel>::empty() =~= items_model(items@));
                    return Ok((items, t.start));
                }
            },
            TokenKind::Close => {
                if nested {
                    assert(items_model(items@) + Seq::<ItemModel>::empty() =~= items_model(items@));
                    return Ok((items, t.end));
                } else {
                    return Err(ParseError::Syntax { position: t.start, expected: Expected::ItemOrEnd });
                }
            },
            _ => {
                match parse_item(cs, pos, depth, opts) {
                    Err(x) => {
                        return Err(x);
                    },
                    Ok((it, j)) => {
                        let ghost before = items@;
                        items.push(it);
                        proof {
                            assert(items@.drop_last() =~= before);
                            let pre = items_model(before);
                            let x = item_model(it);
                            assert(items_model(items@) == pre.push(x));
                            match parse_items_spec(s, j as int, depth as nat, *opts, nested) {
                                Ok((rest, m)) => {
                                    assert(pre.push(x) + rest =~= pre + (seq![x] + rest));
                                },
                                Err(_) => {},
                            }
                        }
                        pos = j;
                    },
                }
            },
        }
    }
}

/// `r` is the parse `m`: the same items, or the same error.
pub open spec fn document_result(
    r: Result<Vec<Item>, ParseError>,
    m: Result<Seq<ItemModel>, ParseError>,
) -> bool {
    match r {
        Ok(items) => m == Ok::<_, ParseError>(items_model(items@)),
        Err(x) => m is Err && m->Err_0 == x,
    }
}

/// Parses a document with the given options.
pub fn parse_str_with(input: &str, opts: &ParseOptions) -> (r: Result<Vec<Item>, ParseError>)
    ensures
        document_result(r, parse_document(input@, *opts)),
{
    let cs = chars_of(input);
    match parse_items(&cs, 0, 0, opts, false) {
        Ok((items, _)) => Ok(items),
        Err(x) => Err(x),
    }
}

/// Parses a document with the options of `ParseOptions::new`.
pub fn parse_str(input: &str) -> (r: Result<Vec<Item>, ParseError>)
    ensures
        document_result(r, parse_document(input@, ParseOptions::default_spec())),
{
    let opts = ParseOptions::new();
    parse_str_with(input, &opts)
}

} // verus!
