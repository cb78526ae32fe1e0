//! JSON texts.
use crate::decimal;
use crate::text;
use crate::text::owned;
use vstd::prelude::*;

verus! {

/// A value of a field that is written.
#[derive(Debug)]
pub enum Json {
    Null,
    Text(String),
    Number(i64),
}

/// A value of a field, as plain values.
pub enum Scalar {
    Null,
    Text(Seq<char>),
    Number(i64),
}

impl View for Json {
    type V = Scalar;

    open spec fn view(&self) -> Scalar {
        match self {
            Json::Null => Scalar::Null,
            Json::Text(t) => Scalar::Text(t@),
            Json::Number(n) => Scalar::Number(*n),
        }
    }
}

/// Named fields, as plain values.
pub open spec fn fields_of(fields: Seq<(String, Json)>) -> Seq<(Seq<char>, Scalar)> {
    Seq::new(fields.len(), |i: int| (fields[i].0@, fields[i].1@))
}

/// An optional text as the value of a field.
pub open spec fn text_or_null(o: Option<Seq<char>>) -> Scalar {
    match o {
        Some(s) => Scalar::Text(s),
        None => Scalar::Null,
    }
}

/// An optional number as the value of a field.
pub open spec fn number_or_null(o: Option<i64>) -> Scalar {
    match o {
        Some(n) => Scalar::Number(n),
        None => Scalar::Null,
    }
}

// ---------------------------------------------------------------------------
// Reading
// ---------------------------------------------------------------------------

/// `serde_json::Value`.
#[verifier::external_type_specification]
#[verifier::external_body]
pub struct ExValue(serde_json::Value);

/// A JSON value as plain values. A number is its text.
pub enum Tree {
    Null,
    Bool(bool),
    Number(Seq<char>),
    Text(Seq<char>),
    List(Seq<Tree>),
    Object(Map<Seq<char>, Tree>),
}

/// What a `serde_json::Value` holds.
pub uninterp spec fn tree_of(value: serde_json::Value) -> Tree;

/// The value that serde_json reads in a text, or the message of the error that it
/// reports.
pub uninterp spec fn value_in(text: Seq<char>) -> Result<Tree, Seq<char>>;

/// The text that serde_json writes for a value.
pub uninterp spec fn text_for(tree: Tree) -> Seq<char>;

/// What a value holds that was read, or the message that came in its place.
pub open spec fn tree_read(value: Result<serde_json::Value, String>) -> Result<Tree, Seq<char>> {
    match value {
        Ok(v) => Ok(tree_of(v)),
        Err(m) => Err(m@),
    }
}

/// `serde_json::from_str`, to a `serde_json::Value`; of an error, the message that
/// its `Display` writes. What it reads in a text, and what it says where it reads
/// nothing, is left to the name `value_in`.
#[verifier::external_body]
pub(crate) fn read_json(text: &str) -> (r: Result<serde_json::Value, String>)
    ensures
        tree_read(r) == value_in(text@),
{
    match serde_json::from_str(text) {
        Ok(value) => Ok(value),
        Err(e) => Err(e.to_string()),
    }
}

/// `serde_json::Value::to_string`. How it writes the value is left to the name
/// `text_for`.
#[verifier::external_body]
pub(crate) fn json_text(value: &serde_json::Value) -> (r: String)
    ensures
        r@ == text_for(tree_of(*value)),
{
    value.to_string()
}

/// The member of that name, where the value is an object that has one.
pub open spec fn member_of(tree: Tree, name: Seq<char>) -> Option<Tree> {
    match tree {
        Tree::Object(m) => if m.contains_key(name) {
            Some(m[name])
        } else {
            None
        },
        _ => None,
    }
}

pub open spec fn ref_read(value: Option<&serde_json::Value>) -> Option<Tree> {
    match value {
        Some(v) => Some(tree_of(*v)),
        None => None,
    }
}

/// `serde_json::Value::get` with a name: the member of an object, and nothing of
/// any other value.
#[verifier::external_body]
pub(crate) fn member<'a>(value: &'a serde_json::Value, name: &str) -> (r: Option<
    &'a serde_json::Value,
>)
    ensures
        ref_read(r) == member_of(tree_of(*value), name@),
{
    value.get(name)
}

/// `serde_json::Value::as_str`: the text of a string, and nothing of any other
/// value.
#[verifier::external_body]
pub(crate) fn text_in<'a>(value: &'a serde_json::Value) -> (r: Option<&'a str>)
    ensures
        match tree_of(*value) {
            Tree::Text(t) => r matches Some(s) && s@ == t,
            _ => r is None,
        },
{
    value.as_str()
}

/// The trees of a list of values.
pub open spec fn trees_of(values: Seq<serde_json::Value>) -> Seq<Tree> {
    Seq::new(values.len(), |i: int| tree_of(values[i]))
}

/// `serde_json::Value::as_array`: the elements of an array, and nothing of any
/// other value.
#[verifier::external_body]
pub(crate) fn elements<'a>(value: &'a serde_json::Value) -> (r: Option<&'a Vec<serde_json::Value>>)
    ensures
        match tree_of(*value) {
            Tree::List(items) => r matches Some(v) && trees_of(v@) == items,
            _ => r is None,
        },
{
    value.as_array()
}

/// The text of a value, if it is a string.
pub open spec fn text_of(tree: Option<Tree>) -> Option<Seq<char>> {
    match tree {
        Some(Tree::Text(t)) => Some(t),
        _ => None,
    }
}

/// The member of the member of those names.
pub open spec fn member_in(tree: Tree, outer: Seq<char>, name: Seq<char>) -> Option<Tree> {
    match member_of(tree, outer) {
        Some(t) => member_of(t, name),
        None => None,
    }
}

/// The text of the member of that name.
pub open spec fn text_at(tree: Tree, name: Seq<char>) -> Option<Seq<char>> {
    text_of(member_of(tree, name))
}

/// The text of the member of the member of those names.
pub open spec fn text_within(tree: Tree, outer: Seq<char>, name: Seq<char>) -> Option<Seq<char>> {
    text_of(member_in(tree, outer, name))
}

/// The text of the member of that name.
pub fn read_text(value: &serde_json::Value, name: &str) -> (r: Option<String>)
    ensures
        text::opt(r) == text_at(tree_of(*value), name@),
{
    match member(value, name) {
        Some(v) => match text_in(v) {
            Some(s) => Some(owned(s)),
            None => None,
        },
        None => None,
    }
}

/// The text of the member of the member of those names.
pub fn read_text_within(value: &serde_json::Value, outer: &str, name: &str) -> (r: Option<String>)
    ensures
        text::opt(r) == text_within(tree_of(*value), outer@, name@),
{
    match member(value, outer) {
        Some(v) => read_text(v, name),
        None => None,
    }
}

// ---------------------------------------------------------------------------
// Building
// ---------------------------------------------------------------------------

/// `serde_json::Value::from` with a text: a string that holds it.
#[verifier::external_body]
pub(crate) fn text_value(s: &str) -> (r: serde_json::Value)
    ensures
        tree_of(r) == Tree::Text(s@),
{
    serde_json::Value::from(s)
}

/// `serde_json::Value::from` with a truth value: that value.
#[verifier::external_body]
pub(crate) fn bool_value(b: bool) -> (r: serde_json::Value)
    ensures
        tree_of(r) == Tree::Bool(b),
{
    serde_json::Value::from(b)
}

/// `serde_json::Value::from` with a number: that number, of which the text is its
/// decimal.
#[verifier::external_body]
pub(crate) fn number_value(n: i64) -> (r: serde_json::Value)
    ensures
        tree_of(r) == Tree::Number(decimal::signed(n as int)),
{
    serde_json::Value::from(n)
}

/// `serde_json::Value::default`: null.
#[verifier::external_body]
pub(crate) fn null_value() -> (r: serde_json::Value)
    ensures
        tree_of(r) == Tree::Null,
{
    serde_json::Value::default()
}

/// Named values, as plain values.
pub open spec fn named_trees(members: Seq<(String, serde_json::Value)>) -> Seq<(Seq<char>, Tree)> {
    Seq::new(members.len(), |i: int| (members[i].0@, tree_of(members[i].1)))
}

/// The members that some named values make. Of two of one name the later stands.
pub open spec fn members_of(members: Seq<(Seq<char>, Tree)>) -> Map<Seq<char>, Tree>
    decreases members.len(),
{
    if members.len() == 0 {
        Map::empty()
    } else {
        members_of(members.drop_last()).insert(members.last().0, members.last().1)
    }
}

/// `serde_json::Map::insert`, with each member in turn: an object with the given
/// members, of which a later one replaces an earlier one of the same name.
#[verifier::external_body]
pub(crate) fn object_value(members: Vec<(String, serde_json::Value)>) -> (r: serde_json::Value)
    ensures
        tree_of(r) == Tree::Object(members_of(named_trees(members@))),
{
    let mut object = serde_json::Map::new();
    for (name, value) in members {
        object.insert(name, value);
    }
    serde_json::Value::Object(object)
}

/// The value of a field as a JSON value.
pub open spec fn scalar_tree(s: Scalar) -> Tree {
    match s {
        Scalar::Null => Tree::Null,
        Scalar::Text(t) => Tree::Text(t),
        Scalar::Number(n) => Tree::Number(decimal::signed(n as int)),
    }
}

/// The object that some fields make.
pub open spec fn object_of(fields: Seq<(Seq<char>, Scalar)>) -> Tree {
    Tree::Object(
        members_of(Seq::new(fields.len(), |i: int| (fields[i].0, scalar_tree(fields[i].1)))),
    )
}

/// The text of the object that some fields make.
pub open spec fn object_text(fields: Seq<(Seq<char>, Scalar)>) -> Seq<char> {
    text_for(object_of(fields))
}

fn scalar_value(value: &Json) -> (r: serde_json::Value)
    ensures
        tree_of(r) == scalar_tree(value@),
{
    match value {
        Json::Null => null_value(),
        Json::Text(t) => text_value(t.as_str()),
        Json::Number(n) => number_value(*n),
    }
}

/// The text of the object that some fields make.
pub(crate) fn write_object(fields: &[(String, Json)]) -> (r: String)
    ensures
        r@ == object_text(fields_of(fields@)),
{
    let ghost all = fields_of(fields@);
    let ghost trees = Seq::new(all.len(), |i: int| (all[i].0, scalar_tree(all[i].1)));
    let mut members: Vec<(String, serde_json::Value)> = Vec::new();
    let mut i: usize = 0;
    while i < fields.len()
        invariant
            i <= fields@.len(),
            all == fields_of(fields@),
            trees == Seq::new(all.len(), |i: int| (all[i].0, scalar_tree(all[i].1))),
            members@.len() == i,
            forall|j: int| 0 <= j < i ==> #[trigger] named_trees(members@)[j] == trees[j],
        decreases fields@.len() - i,
    {
        let ghost before = members@;
        assert(all[i as int] == (fields@[i as int].0@, fields@[i as int].1@));
        members.push((owned(fields[i].0.as_str()), scalar_value(&fields[i].1)));
        assert forall|j: int| 0 <= j < i + 1 implies #[trigger] named_trees(members@)[j]
            == trees[j] by {
            if j < i {
                assert(named_trees(before)[j] == trees[j]);
            }
        }
        i = i + 1;
    }
    assert(named_trees(members@) == trees);
    let object = object_value(members);
    json_text(&object)
}

/// Of members with different names, each stands in the object that they make.
pub proof fn lemma_member_stands(members: Seq<(Seq<char>, Tree)>, i: int)
    requires
        0 <= i < members.len(),
        forall|j: int| i < j < members.len() ==> (#[trigger] members[j]).0 != members[i].0,
    ensures
        member_of(Tree::Object(members_of(members)), members[i].0) == Some(members[i].1),
    decreases members.len(),
{
    if i < members.len() - 1 {
        let front = members.drop_last();
        assert(members[members.len() - 1].0 != members[i].0);
        assert forall|j: int| i < j < front.len() implies (#[trigger] front[j]).0 != front[i].0 by {
            assert(members[j].0 != members[i].0);
        }
        lemma_member_stands(front, i);
    }
}

/// A field stands in the object where no later one has its name.
pub proof fn lemma_field_stands(fields: Seq<(Seq<char>, Scalar)>, i: int)
    requires
        0 <= i < fields.len(),
        forall|j: int| i < j < fields.len() ==> (#[trigger] fields[j]).0 != fields[i].0,
    ensures
        member_of(object_of(fields), fields[i].0) == Some(scalar_tree(fields[i].1)),
{
    let members = Seq::new(fields.len(), |i: int| (fields[i].0, scalar_tree(fields[i].1)));
    assert forall|j: int| i < j < members.len() implies (#[trigger] members[j]).0
        != members[i].0 by {
        assert(fields[j].0 != fields[i].0);
    }
    lemma_member_stands(members, i);
}

/// The elements of the member of that name; none where it is no array.
pub open spec fn elements_at(tree: Tree, name: Seq<char>) -> Seq<Tree> {
    match member_of(tree, name) {
        Some(Tree::List(items)) => items,
        _ => seq![],
    }
}

} // verus!
