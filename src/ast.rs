//! The document model: items, pairs, keys and values.
use vstd::prelude::*;

verus! {

broadcast use vstd::std_specs::vec::group_vec_axioms, vstd::seq::group_seq_axioms;

/// A calendar date as written in script files, `Y.M.D` with an optional hour.
#[derive(Debug, Clone, Copy, PartialEq, Eq)]
pub struct Date {
    pub y: u32,
    pub m: u8,
    pub d: u8,
    pub h: Option<u8>,
}

/// The operator between a key and its value.
#[derive(Debug, Clone, Copy, PartialEq, Eq)]
pub enum Operator {
    Eq,
    Le,
    Ge,
    Lt,
    Gt,
}

/// A decimal number held exactly: a sign, the digits before the point and the digits after it.
/// In canonical form `whole` has no leading zero (but is `"0"` for values below one) and
/// `fraction` has no trailing zero.
#[derive(Debug, Clone, PartialEq)]
pub struct Number {
    pub negative: bool,
    pub whole: String,
    pub fraction: String,
}

/// A key: an identifier, a number or a date.
#[derive(Debug, Clone, PartialEq)]
pub enum Key {
    Identifier(String),
    Number(Number),
    Date(Date),
}

/// A value on the right of an operator, or standing alone in a brace group.
#[derive(Debug, PartialEq)]
pub enum Value {
    Block(Block),
    Array(Array),
    Date(Date),
    Number(Number),
    Boolean(bool),
    String(String),
    Identifier(String),
}

/// A brace group that holds at least one pair; all its items are kept in order.
#[derive(Debug, PartialEq)]
pub struct Block {
    pub items: Vec<Item>,
}

/// A brace group without pairs: plain values, possibly with comments between them.
#[derive(Debug, PartialEq)]
pub struct Array {
    pub values: Vec<ArrayItem>,
}

/// An entry of an array.
#[derive(Debug, PartialEq)]
pub enum ArrayItem {
    Value(Value),
    Comment(String),
}

/// `key op value`.
#[derive(Debug, PartialEq)]
pub struct Pair {
    pub key: Key,
    pub op: Operator,
    pub value: Value,
}

/// An entry of a document or of a block.
#[derive(Debug, PartialEq)]
pub enum Item {
    Pair(Pair),
    Value(Value),
    Comment(String),
}

/// Whether `c` is an ASCII decimal digit.
pub open spec fn is_digit(c: char) -> bool {
    c == '0' || c == '1' || c == '2' || c == '3' || c == '4' || c == '5' || c == '6' || c == '7'
        || c == '8' || c == '9'
}

impl Number {
    /// The canonical form described on the type.
    pub open spec fn is_canonical(&self) -> bool {
        &&& self.whole@.len() > 0
        &&& forall|k: int| 0 <= k < self.whole@.len() ==> is_digit(#[trigger] self.whole@[k])
        &&& forall|k: int| 0 <= k < self.fraction@.len() ==> is_digit(#[trigger] self.fraction@[k])
        &&& (self.whole@.len() > 1 ==> self.whole@[0] != '0')
        &&& (self.fraction@.len() > 0 ==> self.fraction@.last() != '0')
    }
}

/// What a number holds: its sign and its two digit strings.
pub struct NumberModel {
    pub negative: bool,
    pub whole: Seq<char>,
    pub fraction: Seq<char>,
}

/// What a key holds.
pub enum KeyModel {
    Identifier(Seq<char>),
    Number(NumberModel),
    Date(Date),
}

/// What a value holds, with texts as character sequences.
pub enum ValueModel {
    Block(Seq<ItemModel>),
    Array(Seq<ArrayItemModel>),
    Date(Date),
    Number(NumberModel),
    Boolean(bool),
    String(Seq<char>),
    Identifier(Seq<char>),
}

/// What an array entry holds.
pub enum ArrayItemModel {
    Value(ValueModel),
    Comment(Seq<char>),
}

/// What an item holds.
pub enum ItemModel {
    Pair(KeyModel, Operator, ValueModel),
    Value(ValueModel),
    Comment(Seq<char>),
}

/// What a number holds.
pub open spec fn number_model(n: Number) -> NumberModel {
    NumberModel { negative: n.negative, whole: n.whole@, fraction: n.fraction@ }
}

/// What a key holds.
pub open spec fn key_model(k: Key) -> KeyModel {
    match k {
        Key::Identifier(s) => KeyModel::Identifier(s@),
        Key::Number(n) => KeyModel::Number(number_model(n)),
        Key::Date(d) => KeyModel::Date(d),
    }
}

/// What a value holds, nested groups included.
pub open spec fn value_model(v: Value) -> ValueModel
    decreases v,
{
    match v {
        Value::Block(b) => ValueModel::Block(items_model(b.items@)),
        Value::Array(a) => ValueModel::Array(array_items_model(a.values@)),
        Value::Date(d) => ValueModel::Date(d),
        Value::Number(n) => ValueModel::Number(number_model(n)),
        Value::Boolean(b) => ValueModel::Boolean(b),
        Value::String(s) => ValueModel::String(s@),
        Value::Identifier(s) => ValueModel::Identifier(s@),
    }
}

/// What an array entry holds.
pub open spec fn array_item_model(a: ArrayItem) -> ArrayItemModel
    decreases a,
{
    match a {
        ArrayItem::Value(v) => ArrayItemModel::Value(value_model(v)),
        ArrayItem::Comment(c) => ArrayItemModel::Comment(c@),
    }
}

/// What the entries of an array hold, in order.
pub open spec fn array_items_model(xs: Seq<ArrayItem>) -> Seq<ArrayItemModel>
    decreases xs,
{
    if xs.len() == 0 {
        Seq::empty()
    } else {
        array_items_model(xs.drop_last()).push(array_item_model(xs.last()))
    }
}

/// What an item holds.
pub open spec fn item_model(i: Item) -> ItemModel
    decreases i,
{
    match i {
        Item::Pair(p) => ItemModel::Pair(key_model(p.key), p.op, value_model(p.value)),
        Item::Value(v) => ItemModel::Value(value_model(v)),
        Item::Comment(c) => ItemModel::Comment(c@),
    }
}

/// What a list of items holds, in order.
pub open spec fn items_model(xs: Seq<Item>) -> Seq<ItemModel>
    decreases xs,
{
    if xs.len() == 0 {
        Seq::empty()
    } else {
        items_model(xs.drop_last()).push(item_model(xs.last()))
    }
}

fn clone_number(n: &Number) -> (r: Number)
    ensures
        number_model(r) == number_model(*n),
{
    Number { negative: n.negative, whole: n.whole.clone(), fraction: n.fraction.clone() }
}

fn clone_key(k: &Key) -> (r: Key)
    ensures
        key_model(r) == key_model(*k),
{
    match k {
        Key::Identifier(s) => Key::Identifier(s.clone()),
        Key::Number(n) => Key::Number(clone_number(n)),
        Key::Date(d) => Key::Date(*d),
    }
}

/// A copy of `v` that holds the same.
pub fn clone_value(v: &Value) -> (r: Value)
    ensures
        value_model(r) == value_model(*v),
    decreases v,
{
    match v {
        Value::Block(b) => Value::Block(Block { items: clone_items(&b.items) }),
        Value::Array(a) => Value::Array(Array { values: clone_array_items(&a.values) }),
        Value::Date(d) => Value::Date(*d),
        Value::Number(n) => Value::Number(clone_number(n)),
        Value::Boolean(b) => Value::Boolean(*b),
        Value::String(s) => Value::String(s.clone()),
        Value::Identifier(s) => Value::Identifier(s.clone()),
    }
}

/// A copy of `i` that holds the same.
pub fn clone_item(i: &Item) -> (r: Item)
    ensures
        item_model(r) == item_model(*i),
    decreases i,
{
    match i {
        Item::Pair(p) => Item::Pair(
            Pair { key: clone_key(&p.key), op: p.op, value: clone_value(&p.value) },
        ),
        Item::Value(v) => Item::Value(clone_value(v)),
        Item::Comment(c) => Item::Comment(c.clone()),
    }
}

fn clone_array_item(a: &ArrayItem) -> (r: ArrayItem)
    ensures
        array_item_model(r) == array_item_model(*a),
    decreases a,
{
    match a {
        ArrayItem::Value(v) => ArrayItem::Value(clone_value(v)),
        ArrayItem::Comment(c) => ArrayItem::Comment(c.clone()),
    }
}

fn clone_items(xs: &Vec<Item>) -> (r: Vec<Item>)
    ensures
        items_model(r@) == items_model(xs@),
    decreases xs,
{
    let mut out: Vec<Item> = Vec::new();
    let mut k: usize = 0;
    assert(xs@.take(0) =~= Seq::<Item>::empty());
    while k < xs.len()
        invariant
            k <= xs@.len(),
            items_model(out@) == items_model(xs@.take(k as int)),
        decreases xs@.len() - k,
    {
        let ghost before = out@;
        out.push(clone_item(&xs[k]));
        assert(out@.drop_last() =~= before);
        assert(xs@.take(k + 1).drop_last() =~= xs@.take(k as int));
        k += 1;
    }
    assert(xs@.take(k as int) =~= xs@);
    out
}

fn clone_array_items(xs: &Vec<ArrayItem>) -> (r: Vec<ArrayItem>)
    ensures
        array_items_model(r@) == array_items_model(xs@),
    decreases xs,
{
    let mut out: Vec<ArrayItem> = Vec::new();
    let mut k: usize = 0;
    assert(xs@.take(0) =~= Seq::<ArrayItem>::empty());
    while k < xs.len()
        invariant
            k <= xs@.len(),
            array_items_model(out@) == array_items_model(xs@.take(k as int)),
        decreases xs@.len() - k,
    {
        let ghost before = out@;
        out.push(clone_array_item(&xs[k]));
        assert(out@.drop_last() =~= before);
        assert(xs@.take(k + 1).drop_last() =~= xs@.take(k as int));
        k += 1;
    }
    assert(xs@.take(k as int) =~= xs@);
    out
}

impl Clone for Value {
    fn clone(&self) -> (r: Value)
        ensures
            value_model(r) == value_model(*self),
    {
        clone_value(self)
    }
}

impl Clone for Item {
    fn clone(&self) -> (r: Item)
        ensures
            item_model(r) == item_model(*self),
    {
        clone_item(self)
    }
}

impl Clone for ArrayItem {
    fn clone(&self) -> (r: ArrayItem)
        ensures
            array_item_model(r) == array_item_model(*self),
    {
        clone_array_item(self)
    }
}

impl Clone for Pair {
    fn clone(&self) -> (r: Pair)
        ensures
            key_model(r.key) == key_model(self.key),
            r.op == self.op,
            value_model(r.value) == value_model(self.value),
    {
        Pair { key: clone_key(&self.key), op: self.op, value: clone_value(&self.value) }
    }
}

impl Clone for Block {
    fn clone(&self) -> (r: Block)
        ensures
            items_model(r.items@) == items_model(self.items@),
    {
        Block { items: clone_items(&self.items) }
    }
}

impl Clone for Array {
    fn clone(&self) -> (r: Array)
        ensures
            array_items_model(r.values@) == array_items_model(self.values@),
    {
        Array { values: clone_array_items(&self.values) }
    }
}

} // verus!
