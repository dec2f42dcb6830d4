//! JSON values, and their text as `serde_json` reads and writes it.

use crate::text::same_text;
use vstd::prelude::*;

verus! {

/// `serde_json::Value`: a JSON value.
#[verifier::external_type_specification]
#[verifier::external_body]
pub struct ExValue(serde_json::Value);

/// `serde_json::Number`: a JSON number, which is only carried along here.
#[verifier::external_type_specification]
#[verifier::external_body]
pub struct ExNumber(serde_json::Number);

/// A JSON value. Of two members with one key the last counts.
#[derive(Debug, PartialEq, Eq)]
pub enum Json {
    Null,
    Bool(bool),
    Number(serde_json::Number),
    Text(String),
    Array(Vec<Json>),
    Object(Vec<(String, Json)>),
}

/// What a JSON value is: its texts and lists are sequences, and its objects are maps.
pub enum JsonView {
    Null,
    Bool(bool),
    Number(serde_json::Number),
    Text(Seq<char>),
    Array(Seq<JsonView>),
    Object(Map<Seq<char>, JsonView>),
}

/// The object that `members` make, set one after the other.
pub open spec fn object_of(members: Seq<(Seq<char>, JsonView)>) -> Map<Seq<char>, JsonView>
    decreases members.len(),
{
    if members.len() == 0 {
        Map::empty()
    } else {
        object_of(members.drop_last()).insert(members.last().0, members.last().1)
    }
}

impl Json {
    /// The value that `self` stands for.
    pub open spec fn view(&self) -> JsonView
        decreases self, 1int,
    {
        match self {
            Json::Null => JsonView::Null,
            Json::Bool(b) => JsonView::Bool(*b),
            Json::Number(n) => JsonView::Number(*n),
            Json::Text(text) => JsonView::Text(text@),
            Json::Array(items) => JsonView::Array(
                Seq::new(
                    items@.len(),
                    |i: int|
                        if 0 <= i < items@.len() {
                            items@[i].view()
                        } else {
                            JsonView::Null
                        },
                ),
            ),
            Json::Object(_) => JsonView::Object(object_of(self.members())),
        }
    }

    /// The members of `self`, if it is an object.
    pub open spec fn members(&self) -> Seq<(Seq<char>, JsonView)>
        decreases self, 0int,
    {
        match self {
            Json::Object(members) => Seq::new(
                members@.len(),
                |i: int|
                    if 0 <= i < members@.len() {
                        (members@[i].0@, members@[i].1.view())
                    } else {
                        (Seq::empty(), JsonView::Null)
                    },
            ),
            _ => seq![],
        }
    }
}

/// The values of a list.
pub open spec fn items_view(items: Seq<Json>) -> Seq<JsonView> {
    items.map_values(|item: Json| item@)
}

/// The keys and values of the members of an object.
pub open spec fn members_view(members: Seq<(String, Json)>) -> Seq<(Seq<char>, JsonView)> {
    members.map_values(|member: (String, Json)| (member.0@, member.1@))
}

/// The view of a list or an object is made of those of its parts.
pub(crate) proof fn lemma_json_view(json: Json)
    ensures
        json matches Json::Array(items) ==> json@ == JsonView::Array(items_view(items@)),
        json matches Json::Object(members) ==> json@ == JsonView::Object(
            object_of(members_view(members@)),
        ),
{
    match json {
        Json::Array(items) => {
            assert(json@->Array_0 == items_view(items@));
        },
        Json::Object(members) => {
            assert(json.members() == members_view(members@));
        },
        _ => {},
    }
}

/// The value of the member with this key, if there is one.
pub open spec fn member_of(members: Map<Seq<char>, JsonView>, key: Seq<char>) -> Option<JsonView> {
    if members.contains_key(key) {
        Some(members[key])
    } else {
        None
    }
}

impl JsonView {
    /// The value of the member with this key, if this is an object that has one.
    pub open spec fn member(self, key: Seq<char>) -> Option<JsonView> {
        match self {
            JsonView::Object(members) => member_of(members, key),
            _ => None,
        }
    }
}

/// Whether the member at `at` is the last with this key, or `at` is the number of members
/// and there is none.
pub open spec fn is_last_member(
    members: Seq<(Seq<char>, JsonView)>,
    key: Seq<char>,
    at: int,
) -> bool {
    &&& 0 <= at <= members.len()
    &&& at < members.len() ==> members[at].0 == key
    &&& forall|i: int|
        0 <= i < members.len() && (at == members.len() || at < i) ==> (#[trigger] members[i]).0
            != key
}

/// The last member with a key is the one that counts, and setting it sets that key.
pub(crate) proof fn lemma_last_member(
    members: Seq<(Seq<char>, JsonView)>,
    key: Seq<char>,
    at: int,
    value: JsonView,
)
    requires
        is_last_member(members, key, at),
    ensures
        member_of(object_of(members), key) == if at < members.len() {
            Some(members[at].1)
        } else {
            None
        },
        at < members.len() ==> object_of(members.update(at, (key, value))) == object_of(
            members,
        ).insert(key, value),
        object_of(members.push((key, value))) == object_of(members).insert(key, value),
    decreases members.len(),
{
    assert(members.push((key, value)).drop_last() == members);
    if members.len() > 0 {
        let earlier = members.drop_last();
        let last = members.last();
        let updated = members.update(at, (key, value));
        if at == members.len() - 1 {
            assert(updated.drop_last() == earlier);
            assert(object_of(updated) == object_of(members).insert(key, value));
        } else {
            assert(members[members.len() - 1].0 != key);
            let at_earlier = if at == members.len() {
                earlier.len() as int
            } else {
                at
            };
            assert forall|i: int|
                0 <= i < earlier.len() && (at_earlier == earlier.len() || at_earlier < i) implies (
            #[trigger] earlier[i]).0 != key by {
                assert(earlier[i] == members[i]);
            }
            lemma_last_member(earlier, key, at_earlier, value);
            if at < members.len() {
                assert(updated.drop_last() == earlier.update(at, (key, value)));
                assert(object_of(updated) == object_of(members).insert(key, value));
            }
        }
    }
}

/// Where the last member with this key stands, or the number of members if there is none.
pub(crate) fn find_member(members: &Vec<(String, Json)>, key: &str) -> (at: usize)
    ensures
        is_last_member(members_view(members@), key@, at as int),
{
    let ghost all = members_view(members@);
    let mut at: usize = members.len();
    while at > 0
        invariant
            at <= members@.len(),
            all == members_view(members@),
            forall|i: int| at <= i < all.len() ==> (#[trigger] all[i]).0 != key@,
        decreases at,
    {
        at = at - 1;
        assert(all[at as int].0 == members@[at as int].0@);
        if same_text(members[at].0.as_str(), key) {
            return at;
        }
    }
    members.len()
}

/// Sets the member with this key, in its place if there is one and at the end if not.
pub(crate) fn set_member(members: &mut Vec<(String, Json)>, key: &str, value: Json)
    ensures
        object_of(members_view(final(members)@)) == object_of(members_view(old(members)@)).insert(
            key@,
            value@,
        ),
{
    let ghost before = members_view(members@);
    let ghost set = (key@, value@);
    let at = find_member(members, key);
    proof {
        lemma_last_member(before, key@, at as int, value@);
    }
    if at < members.len() {
        members[at].1 = value;
        assert(members_view(members@) == before.update(at as int, set));
    } else {
        members.push((key.to_owned(), value));
        assert(members_view(members@) == before.push(set));
    }
}

/// Takes the value of the member with this key, if there is one, and leaves null for it.
pub(crate) fn take_member(members: &mut Vec<(String, Json)>, key: &str) -> (value: Option<Json>)
    ensures
        match value {
            Some(v) => {
                &&& member_of(object_of(members_view(old(members)@)), key@) == Some(v@)
                &&& object_of(members_view(final(members)@)) == object_of(
                    members_view(old(members)@),
                ).insert(key@, JsonView::Null)
            },
            None => {
                &&& member_of(object_of(members_view(old(members)@)), key@) is None
                &&& members_view(final(members)@) == members_view(old(members)@)
            },
        },
{
    let ghost before = members_view(members@);
    let at = find_member(members, key);
    proof {
        lemma_last_member(before, key@, at as int, JsonView::Null);
    }
    if at < members.len() {
        let mut value = Json::Null;
        std::mem::swap(&mut members[at].1, &mut value);
        assert(members_view(members@) == before.update(at as int, (key@, JsonView::Null)));
        Some(value)
    } else {
        None
    }
}

impl Json {
    /// The value of the member with this key, if this is an object that has one.
    pub fn get(&self, key: &str) -> (value: Option<&Json>)
        ensures
            match value {
                Some(v) => self@.member(key@) == Some(v@),
                None => self@.member(key@) is None,
            },
    {
        proof {
            lemma_json_view(*self);
        }
        match self {
            Json::Object(members) => {
                let at = find_member(members, key);
                proof {
                    lemma_last_member(
                        members_view(members@),
                        key@,
                        at as int,
                        JsonView::Null,
                    );
                }
                if at < members.len() {
                    Some(&members[at].1)
                } else {
                    None
                }
            },
            _ => None,
        }
    }

    /// The items, if this is a list.
    pub fn as_array(&self) -> (items: Option<&Vec<Json>>)
        ensures
            match items {
                Some(list) => self@ == JsonView::Array(items_view(list@)),
                None => self@ !is Array,
            },
    {
        proof {
            lemma_json_view(*self);
        }
        match self {
            Json::Array(items) => Some(items),
            _ => None,
        }
    }

    /// The text, if this is one.
    pub fn as_str(&self) -> (text: Option<&str>)
        ensures
            match text {
                Some(t) => self@ == JsonView::Text(t@),
                None => self@ !is Text,
            },
    {
        match self {
            Json::Text(text) => Some(text.as_str()),
            _ => None,
        }
    }
}

/// What a `serde_json::Value` holds.
pub uninterp spec fn held(value: serde_json::Value) -> JsonView;

/// What `serde_json::from_str` reads a text as: a value, or what it says is wrong.
pub uninterp spec fn value_of_text(text: Seq<char>) -> Result<JsonView, Seq<char>>;

/// What `serde_json::to_string_pretty` writes a value as.
pub uninterp spec fn text_of_value(value: JsonView) -> Seq<char>;

/// A `serde_json::Value` taken apart by one level.
enum Level {
    Null,
    Bool(bool),
    Number(serde_json::Number),
    Text(String),
    Array(Vec<serde_json::Value>),
    Object(Vec<(String, serde_json::Value)>),
}

/// What the values of a list hold.
spec fn held_items(items: Seq<serde_json::Value>) -> Seq<JsonView> {
    items.map_values(|item: serde_json::Value| held(item))
}

/// The keys of members, and what their values hold.
spec fn held_members(members: Seq<(String, serde_json::Value)>) -> Seq<(Seq<char>, JsonView)> {
    members.map_values(|member: (String, serde_json::Value)| (member.0@, held(member.1)))
}

impl Level {
    /// The value that this is one level of.
    spec fn view(&self) -> JsonView {
        match self {
            Level::Null => JsonView::Null,
            Level::Bool(b) => JsonView::Bool(*b),
            Level::Number(n) => JsonView::Number(*n),
            Level::Text(text) => JsonView::Text(text@),
            Level::Array(items) => JsonView::Array(held_items(items@)),
            Level::Object(members) => JsonView::Object(object_of(held_members(members@))),
        }
    }
}

/// `serde_json::from_str` at `serde_json::Value`: the value that the text holds, or the
/// message of the error. Both are functions of the text. That text written by
/// `to_string_pretty` is read back as the value it was written for is left unsaid: a float
/// may be read as its neighbour, and what is nested too deeply is not read at all.
#[verifier::external_body]
fn read_value(text: &str) -> (value: Result<serde_json::Value, String>)
    ensures
        match value {
            Ok(v) => value_of_text(text@) == Ok::<JsonView, Seq<char>>(held(v)),
            Err(message) => value_of_text(text@) == Err::<JsonView, Seq<char>>(message@),
        },
{
    match serde_json::from_str(text) {
        Ok(value) => Ok(value),
        Err(error) => Err(error.to_string()),
    }
}

/// `serde_json::to_string_pretty`, which does not fail on a `serde_json::Value`: the text
/// is a function of what the value holds, since objects are kept in the order of their
/// keys.
#[verifier::external_body]
fn write_value(value: &serde_json::Value) -> (text: String)
    ensures
        text@ == text_of_value(held(*value)),
{
    serde_json::to_string_pretty(value).unwrap()
}

/// The variants of `serde_json::Value`, told apart: each holds what its fields hold, and
/// an object what its members make, of which no two have one key.
#[verifier::external_body]
fn take_apart(value: serde_json::Value) -> (level: Level)
    ensures
        level@ == held(value),
        level matches Level::Object(members) ==> keys_differ(held_members(members@)),
{
    match value {
        serde_json::Value::Null => Level::Null,
        serde_json::Value::Bool(b) => Level::Bool(b),
        serde_json::Value::Number(n) => Level::Number(n),
        serde_json::Value::String(text) => Level::Text(text),
        serde_json::Value::Array(items) => Level::Array(items),
        serde_json::Value::Object(members) => Level::Object(members.into_iter().collect()),
    }
}

/// The variants of `serde_json::Value`, put together: each holds what its fields hold, and
/// an object what its members make. No two of them may have one key, since it is not
/// documented which of those would count.
#[verifier::external_body]
fn put_together(level: Level) -> (value: serde_json::Value)
    requires
        level matches Level::Object(members) ==> keys_differ(held_members(members@)),
    ensures
        held(value) == level@,
{
    match level {
        Level::Null => serde_json::Value::Null,
        Level::Bool(b) => serde_json::Value::Bool(b),
        Level::Number(n) => serde_json::Value::Number(n),
        Level::Text(text) => serde_json::Value::String(text),
        Level::Array(items) => serde_json::Value::Array(items),
        Level::Object(members) => serde_json::Value::Object(members.into_iter().collect()),
    }
}

/// Whether no two members have one key.
spec fn keys_differ(members: Seq<(Seq<char>, JsonView)>) -> bool {
    forall|i: int, j: int|
        0 <= i < j < members.len() ==> (#[trigger] members[i]).0 != (#[trigger] members[j]).0
}

/// Members of which no two have one key are all part of the object that they make.
proof fn lemma_object_holds(members: Seq<(Seq<char>, JsonView)>)
    requires
        keys_differ(members),
    ensures
        object_of(members).dom().finite(),
        forall|i: int|
            0 <= i < members.len() ==> member_of(object_of(members), (#[trigger] members[i]).0)
                == Some(members[i].1),
    decreases members.len(),
{
    if members.len() > 0 {
        let earlier = members.drop_last();
        assert forall|i: int, j: int| 0 <= i < j < earlier.len() implies (
        #[trigger] earlier[i]).0 != (#[trigger] earlier[j]).0 by {
            assert(earlier[i] == members[i]);
            assert(earlier[j] == members[j]);
        }
        lemma_object_holds(earlier);
        assert forall|i: int| 0 <= i < members.len() implies member_of(
            object_of(members),
            (#[trigger] members[i]).0,
        ) == Some(members[i].1) by {
            if i < earlier.len() {
                assert(earlier[i] == members[i]);
                assert(members[members.len() - 1].0 != members[i].0);
            }
        }
    }
}

/// A value as the library holds it.
fn from_value(whole: serde_json::Value) -> (json: Json)
    ensures
        json@ == held(whole),
    decreases held(whole),
{
    let json = match take_apart(whole) {
        Level::Null => Json::Null,
        Level::Bool(b) => Json::Bool(b),
        Level::Number(n) => Json::Number(n),
        Level::Text(text) => Json::Text(text),
        Level::Array(values) => {
            let ghost all = held_items(values@);
            let mut items: Vec<Json> = Vec::new();
            for value in it: values
                invariant
                    it.seq() == values@,
                    all == held_items(values@),
                    held(whole) == JsonView::Array(all),
                    items_view(items@) == all.take(it.index()),
            {
                let ghost before = items_view(items@);
                assert(held(value) == all[it.index()]);
                assert(decreases_to!(held(whole) => held(whole)->Array_0));
                assert(decreases_to!(all => all[it.index()]));
                let item = from_value(value);
                items.push(item);
                assert(items_view(items@) == before.push(item@));
                assert(all.take(it.index() + 1) == before.push(item@));
            }
            assert(all.take(all.len() as int) == all);
            Json::Array(items)
        },
        Level::Object(values) => {
            let ghost all = held_members(values@);
            let mut members: Vec<(String, Json)> = Vec::new();
            proof {
                lemma_object_holds(all);
            }
            for member in it: values
                invariant
                    it.seq() == values@,
                    all == held_members(values@),
                    held(whole) == JsonView::Object(object_of(all)),
                    object_of(all).dom().finite(),
                    forall|i: int|
                        0 <= i < all.len() ==> member_of(object_of(all), (#[trigger] all[i]).0)
                            == Some(all[i].1),
                    members_view(members@) == all.take(it.index()),
            {
                let ghost before = members_view(members@);
                let (key, value) = member;
                assert((key@, held(value)) == all[it.index()]);
                let ghost pair = all[it.index()];
                assert(object_of(all)[pair.0] == pair.1);
                assert(decreases_to!(held(whole) => held(whole)->Object_0));
                assert(decreases_to!(object_of(all) => object_of(all)[pair.0]));
                let json = from_value(value);
                members.push((key, json));
                assert(members_view(members@) == before.push(pair));
                assert(all.take(it.index() + 1) == before.push(pair));
            }
            assert(all.take(all.len() as int) == all);
            Json::Object(members)
        },
    };
    proof {
        lemma_json_view(json);
    }
    json
}

/// Sets the member with this key, in its place if there is one and at the end if not.
fn set_value(
    members: &mut Vec<(String, serde_json::Value)>,
    key: String,
    value: serde_json::Value,
)
    requires
        keys_differ(held_members(old(members)@)),
    ensures
        keys_differ(held_members(final(members)@)),
        object_of(held_members(final(members)@)) == object_of(held_members(old(members)@)).insert(
            key@,
            held(value),
        ),
{
    let ghost before = held_members(members@);
    let ghost set = (key@, held(value));
    let mut at: usize = 0;
    while at < members.len() && members[at].0 != key
        invariant
            at <= members@.len(),
            before == held_members(members@),
            forall|i: int| 0 <= i < at ==> (#[trigger] before[i]).0 != key@,
        decreases members@.len() - at,
    {
        assert(before[at as int].0 == members@[at as int].0@);
        at = at + 1;
    }
    proof {
        assert(at < members@.len() ==> before[at as int].0 == members@[at as int].0@);
        assert(is_last_member(before, key@, at as int));
        lemma_last_member(before, key@, at as int, held(value));
    }
    if at < members.len() {
        members[at].1 = value;
        assert(held_members(members@) == before.update(at as int, set));
    } else {
        members.push((key, value));
        assert(held_members(members@) == before.push(set));
    }
}

/// A value as `serde_json` holds it.
fn into_value(whole: Json) -> (value: serde_json::Value)
    ensures
        held(value) == whole@,
    decreases whole,
{
    proof {
        lemma_json_view(whole);
    }
    let level = match whole {
        Json::Null => Level::Null,
        Json::Bool(b) => Level::Bool(b),
        Json::Number(n) => Level::Number(n),
        Json::Text(text) => Level::Text(text),
        Json::Array(items) => {
            let ghost all = items_view(items@);
            let mut values: Vec<serde_json::Value> = Vec::new();
            for item in it: items
                invariant
                    it.seq() == items@,
                    all == items_view(items@),
                    whole == Json::Array(items),
                    held_items(values@) == all.take(it.index()),
            {
                let ghost before = held_items(values@);
                assert(item@ == all[it.index()]);
                assert(decreases_to!(whole => whole->Array_0));
                assert(decreases_to!(items => items@));
                assert(decreases_to!(items@ => items@[it.index()]));
                let value = into_value(item);
                values.push(value);
                assert(held_items(values@) == before.push(held(value)));
                assert(all.take(it.index() + 1) == before.push(held(value)));
            }
            assert(all.take(all.len() as int) == all);
            Level::Array(values)
        },
        Json::Object(members) => {
            let ghost all = members_view(members@);
            let mut values: Vec<(String, serde_json::Value)> = Vec::new();
            for member in it: members
                invariant
                    it.seq() == members@,
                    all == members_view(members@),
                    whole == Json::Object(members),
                    keys_differ(held_members(values@)),
                    object_of(held_members(values@)) == object_of(all.take(it.index())),
            {
                let ghost pair = all[it.index()];
                let ghost here = all.take(it.index() + 1);
                assert(here.drop_last() == all.take(it.index()));
                assert(here.last() == pair);
                assert(decreases_to!(whole => whole->Object_0));
                assert(decreases_to!(members => members@));
                assert(decreases_to!(members@ => members@[it.index()]));
                assert(decreases_to!(members@[it.index()] => members@[it.index()].1));
                let (key, json) = member;
                assert((key@, json@) == pair);
                let value = into_value(json);
                set_value(&mut values, key, value);
            }
            assert(all.take(all.len() as int) == all);
            Level::Object(values)
        },
    };
    put_together(level)
}

/// Reads the text of a JSON value.
pub fn parse(text: &str) -> (json: Result<Json, String>)
    ensures
        match json {
            Ok(value) => value_of_text(text@) == Ok::<JsonView, Seq<char>>(value@),
            Err(message) => value_of_text(text@) == Err::<JsonView, Seq<char>>(message@),
        },
{
    match read_value(text) {
        Ok(value) => Ok(from_value(value)),
        Err(message) => Err(message),
    }
}

/// Writes a JSON value as indented text.
pub fn render(json: Json) -> (text: String)
    ensures
        text@ == text_of_value(json@),
{
    write_value(&into_value(json))
}

/// Of members with one key the last counts, and each key has the value that it was set to
/// last, whatever other keys were set since.
pub proof fn law_last_member_counts(
    members: Seq<(Seq<char>, JsonView)>,
    key: Seq<char>,
    value: JsonView,
    other: Seq<char>,
)
    ensures
        member_of(object_of(members.push((key, value))), key) == Some(value),
        other != key ==> member_of(object_of(members.push((key, value))), other) == member_of(
            object_of(members),
            other,
        ),
        member_of(object_of(Seq::empty()), key) is None,
        JsonView::Object(object_of(members)).member(key) == member_of(object_of(members), key),
{
    assert(members.push((key, value)).drop_last() == members);
}

} // verus!
