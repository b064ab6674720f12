//! JSON values that the library can look into and build.
//!
//! [`Json`] holds a document as plain data. `serde_json` reads and writes the text form.

use vstd::prelude::*;
use vstd::string::*;

use crate::text;

verus! {

/// A JSON document. Of an object that lists a key more than once the last entry counts.
#[derive(Debug, PartialEq)]
pub enum Json {
    Null,
    Bool(bool),
    Unsigned(u64),
    Signed(i64),
    /// A number as `serde_json` holds it; the form of what is no 64-bit integer.
    Number(serde_json::Number),
    Text(String),
    Array(Vec<Json>),
    Object(Vec<(String, Json)>),
}

/// What a JSON document says.
pub enum JsonView {
    Null,
    Bool(bool),
    Int(int),
    Fraction(serde_json::Number),
    Text(Seq<char>),
    Array(Seq<JsonView>),
    Object(Map<Seq<char>, JsonView>),
}

/// The integer that a `serde_json` number is, `None` for one with a fraction or an exponent.
pub uninterp spec fn number_int(n: serde_json::Number) -> Option<int>;

/// What the document held by a `serde_json` value says.
pub uninterp spec fn value_model(v: serde_json::Value) -> JsonView;

/// The compact text that `serde_json` writes for a document.
pub uninterp spec fn json_text(v: JsonView) -> Seq<char>;

/// The document that `serde_json` reads from a text, `None` where it reports an error.
pub uninterp spec fn json_of_text(s: Seq<char>) -> Option<JsonView>;

/// What a number says: an integer by its value, another number as it is held.
pub open spec fn number_view(n: serde_json::Number) -> JsonView {
    match number_int(n) {
        Some(k) => JsonView::Int(k),
        None => JsonView::Fraction(n),
    }
}

/// The number type of `serde_json`.
#[verifier::external_type_specification]
#[verifier::external_body]
pub struct ExNumber(serde_json::Number);

/// The document type of `serde_json`.
#[verifier::external_type_specification]
#[verifier::external_body]
pub struct ExValue(serde_json::Value);

impl Json {
    /// What the document says.
    pub open spec fn model(self) -> JsonView
        decreases self,
    {
        match self {
            Json::Null => JsonView::Null,
            Json::Bool(b) => JsonView::Bool(b),
            Json::Unsigned(n) => JsonView::Int(n as int),
            Json::Signed(n) => JsonView::Int(n as int),
            Json::Number(n) => number_view(n),
            Json::Text(s) => JsonView::Text(s@),
            Json::Array(items) => JsonView::Array(json_models(items@)),
            Json::Object(members) => JsonView::Object(member_models(members@)),
        }
    }
}

/// What each document of a list says.
pub open spec fn json_models(items: Seq<Json>) -> Seq<JsonView>
    decreases items,
{
    if items.len() == 0 {
        Seq::empty()
    } else {
        json_models(items.drop_last()).push(items.last().model())
    }
}

/// The object that a list of members gives.
pub open spec fn member_models(members: Seq<(String, Json)>) -> Map<Seq<char>, JsonView>
    decreases members,
{
    if members.len() == 0 {
        Map::empty()
    } else {
        member_models(members.drop_last()).insert(members.last().0@, members.last().1.model())
    }
}

impl View for Json {
    type V = JsonView;

    open spec fn view(&self) -> JsonView {
        self.model()
    }
}

impl JsonView {
    /// The member `key` of an object.
    pub open spec fn member(self, key: Seq<char>) -> Option<JsonView> {
        match self {
            JsonView::Object(m) => if m.dom().contains(key) {
                Some(m[key])
            } else {
                None
            },
            _ => None,
        }
    }

    pub open spec fn text(self) -> Option<Seq<char>> {
        match self {
            JsonView::Text(s) => Some(s),
            _ => None,
        }
    }

    pub open spec fn items(self) -> Option<Seq<JsonView>> {
        match self {
            JsonView::Array(s) => Some(s),
            _ => None,
        }
    }

    /// The number as a non-negative 64-bit integer.
    pub open spec fn unsigned(self) -> Option<int> {
        match self {
            JsonView::Int(n) => if 0 <= n <= u64::MAX {
                Some(n)
            } else {
                None
            },
            _ => None,
        }
    }

    /// The number as a signed 64-bit integer.
    pub open spec fn signed(self) -> Option<int> {
        match self {
            JsonView::Int(n) => if i64::MIN <= n <= i64::MAX {
                Some(n)
            } else {
                None
            },
            _ => None,
        }
    }

    /// The text that the member `key` of an object holds.
    pub open spec fn member_text(self, key: Seq<char>) -> Option<Seq<char>> {
        match self.member(key) {
            Some(v) => v.text(),
            None => None,
        }
    }
}

pub proof fn lemma_json_models(items: Seq<Json>)
    ensures
        json_models(items).len() == items.len(),
        forall|i: int| 0 <= i < items.len() ==> #[trigger] json_models(items)[i] == items[i]@,
    decreases items.len(),
{
    if items.len() > 0 {
        lemma_json_models(items.drop_last());
        assert forall|i: int| 0 <= i < items.len() implies #[trigger] json_models(items)[i]
            == items[i]@ by {
            if i < items.len() - 1 {
                assert(items.drop_last()[i] == items[i]);
            }
        }
    }
}

/// The last member with the key `key` decides what an object says of it.
proof fn lemma_member_models(members: Seq<(String, Json)>, key: Seq<char>, at: int)
    requires
        0 <= at < members.len(),
        members[at].0@ == key,
        forall|j: int| at < j < members.len() ==> #[trigger] members[j].0@ != key,
    ensures
        member_models(members).dom().contains(key),
        member_models(members)[key] == members[at].1@,
    decreases members.len(),
{
    if at < members.len() - 1 {
        assert(members[members.len() - 1].0@ != key);
        assert forall|j: int| at < j < members.len() - 1 implies #[trigger] members.drop_last()[j].0@
            != key by {
            assert(members[j].0@ != key);
        }
        lemma_member_models(members.drop_last(), key, at);
    }
}

proof fn lemma_member_models_absent(members: Seq<(String, Json)>, key: Seq<char>)
    requires
        forall|j: int| 0 <= j < members.len() ==> #[trigger] members[j].0@ != key,
    ensures
        !member_models(members).dom().contains(key),
    decreases members.len(),
{
    if members.len() > 0 {
        assert(members[members.len() - 1].0@ != key);
        assert forall|j: int| 0 <= j < members.len() - 1 implies #[trigger] members.drop_last()[j].0@
            != key by {
            assert(members[j].0@ != key);
        }
        lemma_member_models_absent(members.drop_last(), key);
    }
}

impl Json {
    /// The member `key` of an object.
    pub fn get(&self, key: &str) -> (r: Option<&Json>)
        ensures
            match r {
                Some(v) => self@.member(key@) == Some(v@),
                None => self@.member(key@) is None,
            },
    {
        match self {
            Json::Object(members) => {
                let mut i: usize = members.len();
                while i > 0
                    invariant
                        i <= members.len(),
                        forall|j: int| i <= j < members.len() ==> #[trigger] members@[j].0@ != key@,
                        *self == Json::Object(*members),
                    decreases i,
                {
                    i = i - 1;
                    if text::same_text(members[i].0.as_str(), key) {
                        proof {
                            lemma_member_models(members@, key@, i as int);
                        }
                        return Some(&members[i].1);
                    }
                }
                proof {
                    lemma_member_models_absent(members@, key@);
                }
                None
            },
            _ => None,
        }
    }

    pub fn as_text(&self) -> (r: Option<&String>)
        ensures
            match r {
                Some(s) => self@.text() == Some(s@),
                None => self@.text() is None,
            },
    {
        match self {
            Json::Text(s) => Some(s),
            _ => None,
        }
    }

    pub fn as_array(&self) -> (r: Option<&Vec<Json>>)
        ensures
            match r {
                Some(v) => self@.items() == Some(json_models(v@)),
                None => self@.items() is None,
            },
    {
        match self {
            Json::Array(items) => Some(items),
            _ => None,
        }
    }

    /// The number as a `u64`, where it is one.
    pub fn as_u64(&self) -> (r: Option<u64>)
        ensures
            match r {
                Some(n) => self@.unsigned() == Some(n as int),
                None => self@.unsigned() is None,
            },
    {
        match self {
            Json::Unsigned(n) => Some(*n),
            Json::Signed(n) => if *n >= 0 {
                Some(*n as u64)
            } else {
                None
            },
            Json::Number(n) => number_as_u64(n),
            _ => None,
        }
    }

    /// The number as an `i64`, where it is one.
    pub fn as_i64(&self) -> (r: Option<i64>)
        ensures
            match r {
                Some(n) => self@.signed() == Some(n as int),
                None => self@.signed() is None,
            },
    {
        match self {
            Json::Unsigned(n) => if *n <= 0x7fff_ffff_ffff_ffff {
                Some(*n as i64)
            } else {
                None
            },
            Json::Signed(n) => Some(*n),
            Json::Number(n) => number_as_i64(n),
            _ => None,
        }
    }

    /// The text that the member `key` of an object holds.
    pub fn get_text(&self, key: &str) -> (r: Option<&String>)
        ensures
            match r {
                Some(s) => self@.member_text(key@) == Some(s@),
                None => self@.member_text(key@) is None,
            },
    {
        match self.get(key) {
            Some(v) => v.as_text(),
            None => None,
        }
    }
}

/// `Number::clone` of `serde_json` gives back an equal number.
pub assume_specification[ <serde_json::Number as Clone>::clone ](n: &serde_json::Number) -> (r:
    serde_json::Number)
    ensures
        r == *n,
;

impl Clone for Json {
    fn clone(&self) -> (r: Self)
        ensures
            r@ == self@,
        decreases self,
    {
        match self {
            Json::Null => Json::Null,
            Json::Bool(b) => Json::Bool(*b),
            Json::Unsigned(n) => Json::Unsigned(*n),
            Json::Signed(n) => Json::Signed(*n),
            Json::Number(n) => Json::Number(n.clone()),
            Json::Text(s) => Json::Text(s.clone()),
            Json::Array(items) => {
                let mut copy: Vec<Json> = Vec::new();
                let mut i: usize = 0;
                while i < items.len()
                    invariant
                        *self == Json::Array(*items),
                        i <= items.len(),
                        copy@.len() == i,
                        json_models(copy@) == json_models(items@.take(i as int)),
                    decreases items.len() - i,
                {
                    let ghost before = copy@;
                    proof {
                        assert(decreases_to!(*self => self->Array_0));
                        assert(decreases_to!(items => items@));
                        assert(decreases_to!(items@ => items@[i as int]));
                    }
                    let item = items[i].clone();
                    copy.push(item);
                    proof {
                        assert(copy@.drop_last() =~= before);
                        assert(items@.take(i + 1).drop_last() =~= items@.take(i as int));
                    }
                    i = i + 1;
                }
                proof {
                    assert(items@.take(i as int) =~= items@);
                }
                Json::Array(copy)
            },
            Json::Object(members) => {
                let mut copy: Vec<(String, Json)> = Vec::new();
                let mut i: usize = 0;
                while i < members.len()
                    invariant
                        *self == Json::Object(*members),
                        i <= members.len(),
                        copy@.len() == i,
                        member_models(copy@) == member_models(members@.take(i as int)),
                    decreases members.len() - i,
                {
                    let ghost before = copy@;
                    proof {
                        assert(decreases_to!(*self => self->Object_0));
                        assert(decreases_to!(members => members@));
                        assert(decreases_to!(members@ => members@[i as int]));
                        assert(decreases_to!(members@[i as int] => members@[i as int].1));
                    }
                    let value = members[i].1.clone();
                    let key = members[i].0.clone();
                    copy.push((key, value));
                    proof {
                        assert(copy@.drop_last() =~= before);
                        assert(members@.take(i + 1).drop_last() =~= members@.take(i as int));
                    }
                    i = i + 1;
                }
                proof {
                    assert(members@.take(i as int) =~= members@);
                }
                Json::Object(copy)
            },
        }
    }
}

/// One level of a document, with `serde_json` values below it.
pub(crate) enum Node {
    Null,
    Bool(bool),
    Unsigned(u64),
    Signed(i64),
    Number(serde_json::Number),
    Text(String),
    Array(Vec<serde_json::Value>),
    Object(Vec<(String, serde_json::Value)>),
}

/// What each `serde_json` value of a list says.
pub open spec fn value_models(items: Seq<serde_json::Value>) -> Seq<JsonView> {
    Seq::new(items.len(), |i: int| value_model(items[i]))
}

/// The object that a list of members gives.
pub open spec fn value_member_models(members: Seq<(String, serde_json::Value)>) -> Map<
    Seq<char>,
    JsonView,
>
    decreases members.len(),
{
    if members.len() == 0 {
        Map::empty()
    } else {
        value_member_models(members.drop_last()).insert(
            members.last().0@,
            value_model(members.last().1),
        )
    }
}

/// No two members have the same key.
pub open spec fn has_distinct_keys(members: Seq<(String, serde_json::Value)>) -> bool {
    forall|i: int, j: int|
        0 <= i < j < members.len() ==> #[trigger] members[i].0@ != #[trigger] members[j].0@
}

/// What one level of a document and the values below it say.
pub(crate) open spec fn node_model(node: Node) -> JsonView {
    match node {
        Node::Null => JsonView::Null,
        Node::Bool(b) => JsonView::Bool(b),
        Node::Unsigned(n) => JsonView::Int(n as int),
        Node::Signed(n) => JsonView::Int(n as int),
        Node::Number(n) => number_view(n),
        Node::Text(s) => JsonView::Text(s@),
        Node::Array(items) => JsonView::Array(value_models(items@)),
        Node::Object(members) => JsonView::Object(value_member_models(members@)),
    }
}

/// `Number::as_u64` of `serde_json`: the number where it is an integer in the range of `u64`.
#[verifier::external_body]
fn number_as_u64(n: &serde_json::Number) -> (r: Option<u64>)
    ensures
        match r {
            Some(k) => number_int(*n) == Some(k as int),
            None => number_int(*n) matches Some(k) ==> k < 0 || k > u64::MAX,
        },
{
    n.as_u64()
}

/// `Number::as_i64` of `serde_json`: the number where it is an integer in the range of `i64`.
#[verifier::external_body]
fn number_as_i64(n: &serde_json::Number) -> (r: Option<i64>)
    ensures
        match r {
            Some(k) => number_int(*n) == Some(k as int),
            None => number_int(*n) matches Some(k) ==> k < i64::MIN || k > i64::MAX,
        },
{
    n.as_i64()
}

/// The variants of `serde_json::Value`, told apart. The members of an object have distinct keys.
#[verifier::external_body]
fn open_value(v: serde_json::Value) -> (r: Node)
    ensures
        node_model(r) == value_model(v),
        r matches Node::Object(members) ==> has_distinct_keys(members@),
{
    match v {
        serde_json::Value::Null => Node::Null,
        serde_json::Value::Bool(b) => Node::Bool(b),
        serde_json::Value::Number(n) => Node::Number(n),
        serde_json::Value::String(s) => Node::Text(s),
        serde_json::Value::Array(items) => Node::Array(items),
        serde_json::Value::Object(members) => Node::Object(members.into_iter().collect()),
    }
}

/// The variants of `serde_json::Value`, built. The members of an object are collected into its map,
/// each under its own key.
#[verifier::external_body]
fn close_value(node: Node) -> (r: serde_json::Value)
    requires
        node matches Node::Object(members) ==> has_distinct_keys(members@),
    ensures
        value_model(r) == node_model(node),
{
    match node {
        Node::Null => serde_json::Value::Null,
        Node::Bool(b) => serde_json::Value::Bool(b),
        Node::Unsigned(n) => serde_json::Value::from(n),
        Node::Signed(n) => serde_json::Value::from(n),
        Node::Number(n) => serde_json::Value::Number(n),
        Node::Text(s) => serde_json::Value::String(s),
        Node::Array(items) => serde_json::Value::Array(items),
        Node::Object(members) => serde_json::Value::Object(members.into_iter().collect()),
    }
}

/// `serde_json::from_str`: the document that a text holds.
#[verifier::external_body]
fn parse_value(s: &str) -> (r: Option<serde_json::Value>)
    ensures
        match r {
            Some(v) => json_of_text(s@) == Some(value_model(v)),
            None => json_of_text(s@) is None,
        },
{
    serde_json::from_str(s).ok()
}

/// `serde_json::to_string`: the compact text of a document.
#[verifier::external_body]
fn value_text(v: &serde_json::Value) -> (r: String)
    ensures
        r@ == json_text(value_model(*v)),
{
    serde_json::to_string(v).unwrap_or_default()
}

proof fn lemma_value_member(members: Seq<(String, serde_json::Value)>, at: int)
    requires
        0 <= at < members.len(),
        has_distinct_keys(members),
    ensures
        value_member_models(members).dom().contains(members[at].0@),
        value_member_models(members)[members[at].0@] == value_model(members[at].1),
        value_member_models(members).dom().finite(),
    decreases members.len(),
{
    if at < members.len() - 1 {
        assert(members[at].0@ != members[members.len() - 1].0@);
        let front = members.drop_last();
        assert forall|i: int, j: int| 0 <= i < j < front.len() implies #[trigger] front[i].0@
            != #[trigger] front[j].0@ by {
            assert(members[i].0@ != members[j].0@);
        }
        lemma_value_member(front, at);
    } else {
        lemma_value_members_finite(members);
    }
}

/// A member that takes the place of the one with its key.
proof fn lemma_replaced_member(
    members: Seq<(String, serde_json::Value)>,
    at: int,
    member: (String, serde_json::Value),
)
    requires
        0 <= at < members.len(),
        has_distinct_keys(members),
        members[at].0@ == member.0@,
    ensures
        has_distinct_keys(members.update(at, member)),
        value_member_models(members.update(at, member)) == value_member_models(members).insert(
            member.0@,
            value_model(member.1),
        ),
    decreases members.len(),
{
    let new = members.update(at, member);
    let front = members.drop_last();
    assert forall|i: int, j: int| 0 <= i < j < new.len() implies #[trigger] new[i].0@
        != #[trigger] new[j].0@ by {
        assert(members[i].0@ != members[j].0@);
    }
    let inserted = value_member_models(members).insert(member.0@, value_model(member.1));
    if at < members.len() - 1 {
        assert forall|i: int, j: int| 0 <= i < j < front.len() implies #[trigger] front[i].0@
            != #[trigger] front[j].0@ by {
            assert(members[i].0@ != members[j].0@);
        }
        lemma_replaced_member(front, at, member);
        assert(new.drop_last() =~= front.update(at, member));
        assert(members[at].0@ != members[members.len() - 1].0@);
        assert(value_member_models(new) =~= inserted);
    } else {
        assert(new.drop_last() =~= front);
        assert(value_member_models(new) =~= inserted);
    }
}

/// Adds a member, or replaces the one with its key.
fn put_member(members: &mut Vec<(String, serde_json::Value)>, key: String, value: serde_json::Value)
    requires
        has_distinct_keys(old(members)@),
    ensures
        has_distinct_keys(final(members)@),
        value_member_models(final(members)@) == value_member_models(old(members)@).insert(
            key@,
            value_model(value),
        ),
{
    let mut i: usize = 0;
    while i < members.len()
        invariant
            i <= members.len(),
            members@ == old(members)@,
            has_distinct_keys(members@),
            forall|j: int| 0 <= j < i ==> #[trigger] members@[j].0@ != key@,
        decreases members.len() - i,
    {
        if text::same_text(members[i].0.as_str(), key.as_str()) {
            proof {
                lemma_replaced_member(members@, i as int, (key, value));
            }
            members.set(i, (key, value));
            return;
        }
        i = i + 1;
    }
    members.push((key, value));
    proof {
        assert(members@.drop_last() =~= old(members)@);
        assert forall|i: int, j: int| 0 <= i < j < members@.len() implies #[trigger] members@[i].0@
            != #[trigger] members@[j].0@ by {
            assert(old(members)@[i].0@ != key@);
        }
    }
}

proof fn lemma_value_members_finite(members: Seq<(String, serde_json::Value)>)
    ensures
        value_member_models(members).dom().finite(),
    decreases members.len(),
{
    if members.len() > 0 {
        lemma_value_members_finite(members.drop_last());
    }
}

impl Json {
    /// The document in the form that `serde_json` writes.
    pub(crate) fn to_value(&self) -> (r: serde_json::Value)
        ensures
            value_model(r) == self@,
        decreases self,
    {
        match self {
            Json::Null => close_value(Node::Null),
            Json::Bool(b) => close_value(Node::Bool(*b)),
            Json::Unsigned(n) => close_value(Node::Unsigned(*n)),
            Json::Signed(n) => close_value(Node::Signed(*n)),
            Json::Number(n) => close_value(Node::Number(n.clone())),
            Json::Text(s) => close_value(Node::Text(s.clone())),
            Json::Array(items) => {
                let mut values: Vec<serde_json::Value> = Vec::new();
                let mut i: usize = 0;
                while i < items.len()
                    invariant
                        *self == Json::Array(*items),
                        i <= items.len(),
                        values@.len() == i,
                        value_models(values@) == json_models(items@.take(i as int)),
                    decreases items.len() - i,
                {
                    let ghost before = values@;
                    proof {
                        assert(decreases_to!(*self => self->Array_0));
                        assert(decreases_to!(items => items@));
                        assert(decreases_to!(items@ => items@[i as int]));
                    }
                    let value = items[i].to_value();
                    values.push(value);
                    proof {
                        assert(items@.take(i + 1).drop_last() =~= items@.take(i as int));
                        assert(value_models(values@) =~= value_models(before).push(
                            items@[i as int]@,
                        ));
                    }
                    i = i + 1;
                }
                proof {
                    assert(items@.take(i as int) =~= items@);
                }
                close_value(Node::Array(values))
            },
            Json::Object(members) => {
                let mut values: Vec<(String, serde_json::Value)> = Vec::new();
                let mut i: usize = 0;
                while i < members.len()
                    invariant
                        *self == Json::Object(*members),
                        i <= members.len(),
                        has_distinct_keys(values@),
                        value_member_models(values@) == member_models(members@.take(i as int)),
                    decreases members.len() - i,
                {
                    proof {
                        assert(decreases_to!(*self => self->Object_0));
                        assert(decreases_to!(members => members@));
                        assert(decreases_to!(members@ => members@[i as int]));
                        assert(decreases_to!(members@[i as int] => members@[i as int].1));
                    }
                    let value = members[i].1.to_value();
                    put_member(&mut values, members[i].0.clone(), value);
                    proof {
                        assert(members@.take(i + 1).drop_last() =~= members@.take(i as int));
                    }
                    i = i + 1;
                }
                proof {
                    assert(members@.take(i as int) =~= members@);
                }
                close_value(Node::Object(values))
            },
        }
    }

    /// The document that a `serde_json` value holds.
    pub(crate) fn from_value(v: serde_json::Value) -> (r: Json)
        ensures
            r@ == value_model(v),
        decreases value_model(v),
    {
        match open_value(v) {
            Node::Null => Json::Null,
            Node::Bool(b) => Json::Bool(b),
            Node::Unsigned(n) => Json::Unsigned(n),
            Node::Signed(n) => Json::Signed(n),
            Node::Number(n) => {
                match number_as_u64(&n) {
                    Some(k) => Json::Unsigned(k),
                    None => match number_as_i64(&n) {
                        Some(k) => Json::Signed(k),
                        None => Json::Number(n),
                    },
                }
            },
            Node::Text(s) => Json::Text(s),
            Node::Array(values) => {
                let ghost all = values@;
                let mut items: Vec<Json> = Vec::new();
                for value in it: values
                    invariant
                        it.seq() == all,
                        items@.len() == it.index(),
                        value_model(v) == JsonView::Array(value_models(all)),
                        json_models(items@) == value_models(all.take(it.index() as int)),
                {
                    let ghost i = it.index() as int;
                    let ghost before = items@;
                    proof {
                        let parent = value_models(all);
                        assert(parent[i] == value_model(value));
                        assert(decreases_to!(value_model(v) => value_model(v)->Array_0));
                        assert(decreases_to!(parent => parent[i]));
                    }
                    items.push(Json::from_value(value));
                    proof {
                        assert(items@.drop_last() =~= before);
                        assert(value_models(all.take(i + 1)) =~= value_models(all.take(i)).push(
                            value_model(value),
                        ));
                    }
                }
                proof {
                    assert(all.take(all.len() as int) =~= all);
                }
                Json::Array(items)
            },
            Node::Object(values) => {
                let ghost all = values@;
                let mut members: Vec<(String, Json)> = Vec::new();
                for pair in it: values
                    invariant
                        it.seq() == all,
                        members@.len() == it.index(),
                        forall|i: int, j: int|
                            0 <= i < j < all.len() ==> #[trigger] all[i].0@ != #[trigger] all[j].0@,
                        value_model(v) == JsonView::Object(value_member_models(all)),
                        member_models(members@) == value_member_models(
                            all.take(it.index() as int),
                        ),
                {
                    let ghost i = it.index() as int;
                    let ghost before = members@;
                    proof {
                        lemma_value_member(all, i);
                        let parent = value_member_models(all);
                        assert(decreases_to!(value_model(v) => value_model(v)->Object_0));
                        vstd::map::axiom_map_index_decreases_finite(parent, all[i].0@);
                    }
                    let (key, value) = pair;
                    members.push((key, Json::from_value(value)));
                    proof {
                        assert(members@.drop_last() =~= before);
                        assert(all.take(i + 1).drop_last() =~= all.take(i));
                    }
                }
                proof {
                    assert(all.take(all.len() as int) =~= all);
                }
                Json::Object(members)
            },
        }
    }

    /// The compact text form.
    pub fn to_text(&self) -> (r: String)
        ensures
            r@ == json_text(self@),
    {
        value_text(&self.to_value())
    }

    /// Reads a document from its text form.
    pub fn parse(s: &str) -> (r: Option<Json>)
        ensures
            match r {
                Some(v) => json_of_text(s@) == Some(v@),
                None => json_of_text(s@) is None,
            },
    {
        match parse_value(s) {
            Some(v) => Some(Json::from_value(v)),
            None => None,
        }
    }
}

/// Adds a member to the members of an object.
pub fn push_member(members: &mut Vec<(String, Json)>, key: &str, value: Json)
    ensures
        member_models(final(members)@) == member_models(old(members)@).insert(key@, value@),
{
    members.push((key.to_owned(), value));
    proof {
        assert(members@.drop_last() =~= old(members)@);
    }
}

/// A list of members without any.
pub fn no_members() -> (r: Vec<(String, Json)>)
    ensures
        member_models(r@) == Map::<Seq<char>, JsonView>::empty(),
{
    Vec::new()
}

/// A text as a document.
pub fn json_string(s: &str) -> (r: Json)
    ensures
        r@ == JsonView::Text(s@),
{
    Json::Text(s.to_owned())
}

/// An integer as a document.
pub fn json_i32(n: i32) -> (r: Json)
    ensures
        r@ == JsonView::Int(n as int),
{
    Json::Signed(n as i64)
}

/// The last entry of an object counts for its key, and the others stay as they are.
pub proof fn the_last_entry_counts(members: Seq<(String, Json)>, key: String, value: Json, other: Seq<
    char,
>)
    ensures
        ({
            let v = JsonView::Object(member_models(members.push((key, value))));
            let before = JsonView::Object(member_models(members));
            &&& v.member(key@) == Some(value@)
            &&& other != key@ ==> v.member(other) == before.member(other)
        }),
        JsonView::Object(member_models(Seq::empty())).member(other) is None,
{
    assert(members.push((key, value)).drop_last() =~= members);
}

/// A number is what it was read as, in the range of the type that is asked for, and nothing else is
/// a number.
pub proof fn integers_are_read_in_their_range(n: int)
    ensures
        0 <= n <= u64::MAX ==> JsonView::Int(n).unsigned() == Some(n),
        n < 0 || n > u64::MAX ==> JsonView::Int(n).unsigned() is None,
        i64::MIN <= n <= i64::MAX ==> JsonView::Int(n).signed() == Some(n),
        n < i64::MIN || n > i64::MAX ==> JsonView::Int(n).signed() is None,
{
}

/// What is no integer, no text or no list is none of them, and has no members unless it is an
/// object.
pub proof fn documents_are_of_one_kind(v: JsonView, key: Seq<char>)
    ensures
        !(v is Int) ==> v.unsigned() is None && v.signed() is None,
        v matches JsonView::Text(s) ==> v.text() == Some(s),
        !(v is Text) ==> v.text() is None,
        v matches JsonView::Array(items) ==> v.items() == Some(items),
        !(v is Array) ==> v.items() is None,
        !(v is Object) ==> v.member(key) is None && v.member_text(key) is None,
        v.member(key) matches Some(JsonView::Text(s)) ==> v.member_text(key) == Some(s),
        !(v.member(key) matches Some(JsonView::Text(_))) ==> v.member_text(key) is None,
{
}

} // verus!
