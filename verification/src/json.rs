//! The parsed form of a JSON document, as far as loading a corpus reads it,
//! and the call into `serde_json` that produces it.

use vstd::prelude::*;

verus! {

/// A JSON value. An object lists its members, each a key and a value; a
/// lookup takes the first member with the key.
#[derive(Debug)]
pub enum Json {
    Null,
    Bool(bool),
    /// A number; the value is given where it is a non-negative integer below
    /// 2^64, and is `None` for a negative or fractional number.
    Number(Option<u64>),
    Text(String),
    Array(Vec<Json>),
    Object(Vec<(String, Json)>),
}

/// What a JSON value holds, as mathematical values.
pub enum JsonView {
    Null,
    Bool(bool),
    Number(Option<u64>),
    Text(Seq<char>),
    Array(Seq<JsonView>),
    Object(Seq<(Seq<char>, JsonView)>),
}

/// The view of `j`: the same value with its strings and lists as sequences.
pub open spec fn json_view(j: Json) -> JsonView
    decreases j,
{
    match j {
        Json::Null => JsonView::Null,
        Json::Bool(b) => JsonView::Bool(b),
        Json::Number(n) => JsonView::Number(n),
        Json::Text(s) => JsonView::Text(s@),
        Json::Array(items) => JsonView::Array(
            Seq::new(
                items@.len(),
                |i: int|
                    if 0 <= i < items@.len() {
                        json_view(items@[i])
                    } else {
                        JsonView::Null
                    },
            ),
        ),
        Json::Object(members) => JsonView::Object(
            Seq::new(
                members@.len(),
                |i: int|
                    if 0 <= i < members@.len() {
                        (members@[i].0@, json_view(members@[i].1))
                    } else {
                        (Seq::empty(), JsonView::Null)
                    },
            ),
        ),
    }
}

impl View for Json {
    type V = JsonView;

    open spec fn view(&self) -> JsonView {
        json_view(*self)
    }
}

/// The value of the first of `members` whose key is `key`, or `Null` where
/// there is none.
pub open spec fn lookup(members: Seq<(Seq<char>, JsonView)>, key: Seq<char>) -> JsonView
    decreases members.len(),
{
    if members.len() == 0 {
        JsonView::Null
    } else if members[0].0 == key {
        members[0].1
    } else {
        lookup(members.drop_first(), key)
    }
}

/// Where the first `at` members have another key, the lookup goes on behind
/// them.
pub proof fn lemma_lookup_skip(members: Seq<(Seq<char>, JsonView)>, key: Seq<char>, at: int)
    requires
        0 <= at <= members.len(),
        forall|k: int| 0 <= k < at ==> (#[trigger] members[k]).0 != key,
    ensures
        lookup(members, key) == lookup(members.skip(at), key),
    decreases at,
{
    if at == 0 {
        assert(members.skip(0) =~= members);
    } else {
        let rest = members.drop_first();
        assert forall|k: int| 0 <= k < at - 1 implies (#[trigger] rest[k]).0 != key by {
            assert(rest[k] == members[k + 1]);
        }
        lemma_lookup_skip(rest, key, at - 1);
        assert(rest.skip(at - 1) =~= members.skip(at));
    }
}

impl JsonView {
    /// The member `key` of an object; `Null` for an object without that key
    /// and for a value that is no object.
    pub open spec fn member(self, key: Seq<char>) -> JsonView {
        match self {
            JsonView::Object(members) => lookup(members, key),
            _ => JsonView::Null,
        }
    }

    /// The value of a number that is a non-negative integer below 2^64.
    pub open spec fn number(self) -> Option<u64> {
        match self {
            JsonView::Number(n) => n,
            _ => None,
        }
    }

    /// The characters of a string.
    pub open spec fn text(self) -> Option<Seq<char>> {
        match self {
            JsonView::Text(s) => Some(s),
            _ => None,
        }
    }

    /// The items of an array.
    pub open spec fn items(self) -> Option<Seq<JsonView>> {
        match self {
            JsonView::Array(items) => Some(items),
            _ => None,
        }
    }
}

/// The views of `items`, in order.
pub open spec fn json_views(items: Seq<Json>) -> Seq<JsonView> {
    items.map_values(|j: Json| j@)
}

/// The view of an array is the views of its items.
pub proof fn lemma_array_view(items: Vec<Json>)
    ensures
        Json::Array(items)@ == JsonView::Array(json_views(items@)),
{
    let shown = Json::Array(items)@;
    assert(shown is Array);
    assert(shown->Array_0.len() == items@.len());
    assert forall|i: int| 0 <= i < items@.len() implies shown->Array_0[i] == json_views(
        items@,
    )[i] by {
        assert(shown->Array_0[i] == items@[i]@);
    }
    assert(shown->Array_0 =~= json_views(items@));
}

/// The view of an object is the keys and the views of its members.
pub proof fn lemma_object_view(members: Vec<(String, Json)>)
    ensures
        Json::Object(members)@ is Object,
        Json::Object(members)@->Object_0.len() == members@.len(),
        forall|i: int|
            0 <= i < members@.len() ==> #[trigger] Json::Object(members)@->Object_0[i] == (
                members@[i].0@,
                members@[i].1@,
            ),
{
    let shown = Json::Object(members)@;
    assert(shown is Object);
    assert forall|i: int| 0 <= i < members@.len() implies #[trigger] shown->Object_0[i] == (
        members@[i].0@,
        members@[i].1@,
    ) by {
        assert(shown->Object_0[i] == (members@[i].0@, members@[i].1@));
    }
}

impl Json {
    /// Looks up the member `key`: see [`JsonView::member`]. Nothing is
    /// returned where the member is absent.
    pub fn get(&self, key: &str) -> (found: Option<&Json>)
        ensures
            match found {
                Some(value) => value@ == self@.member(key@),
                None => self@.member(key@) == JsonView::Null,
            },
    {
        match self {
            Json::Object(members) => {
                let wanted = key.to_owned();
                let ghost shown = self@->Object_0;
                let mut i: usize = 0;
                proof {
                    lemma_object_view(*members);
                }
                while i < members.len()
                    invariant
                        wanted@ == key@,
                        self@.member(key@) == lookup(shown, key@),
                        shown.len() == members@.len(),
                        forall|k: int|
                            0 <= k < members@.len() ==> #[trigger] shown[k] == (
                                members@[k].0@,
                                members@[k].1@,
                            ),
                        i <= members.len(),
                        forall|k: int| 0 <= k < i ==> (#[trigger] shown[k]).0 != key@,
                    decreases members.len() - i,
                {
                    if members[i].0 == wanted {
                        proof {
                            lemma_lookup_skip(shown, key@, i as int);
                            assert(shown.skip(i as int)[0] == shown[i as int]);
                        }
                        return Some(&members[i].1);
                    }
                    i = i + 1;
                }
                proof {
                    lemma_lookup_skip(shown, key@, shown.len() as int);
                }
                None
            },
            _ => None,
        }
    }

    /// The number under `key`, where that member is a non-negative integer
    /// below 2^64.
    pub fn member_u64(&self, key: &str) -> (n: Option<u64>)
        ensures
            n == self@.member(key@).number(),
    {
        match self.get(key) {
            Some(value) => value.as_u64(),
            None => None,
        }
    }

    /// The string under `key`, where that member is a string.
    pub fn member_str(&self, key: &str) -> (s: Option<&str>)
        ensures
            match s {
                Some(s) => self@.member(key@).text() == Some(s@),
                None => self@.member(key@).text() is None,
            },
    {
        match self.get(key) {
            Some(value) => value.as_str(),
            None => None,
        }
    }

    /// The items under `key`, where that member is an array.
    pub fn member_array(&self, key: &str) -> (items: Option<&Vec<Json>>)
        ensures
            match items {
                Some(items) => self@.member(key@).items() == Some(json_views(items@)),
                None => self@.member(key@).items() is None,
            },
    {
        match self.get(key) {
            Some(value) => value.as_array(),
            None => None,
        }
    }

    /// The value of a number: see [`JsonView::number`].
    pub fn as_u64(&self) -> (n: Option<u64>)
        ensures
            n == self@.number(),
    {
        match self {
            Json::Number(n) => *n,
            _ => None,
        }
    }

    /// The string: see [`JsonView::text`].
    pub fn as_str(&self) -> (s: Option<&str>)
        ensures
            match s {
                Some(s) => self@.text() == Some(s@),
                None => self@.text() is None,
            },
    {
        match self {
            Json::Text(s) => Some(s.as_str()),
            _ => None,
        }
    }

    /// The items of an array: see [`JsonView::items`].
    pub fn as_array(&self) -> (items: Option<&Vec<Json>>)
        ensures
            match items {
                Some(items) => self@.items() == Some(json_views(items@)),
                None => self@.items() is None,
            },
    {
        match self {
            Json::Array(items) => {
                proof {
                    lemma_array_view(*items);
                }
                Some(items)
            },
            _ => None,
        }
    }
}

/// The error type of `serde_json`.
#[verifier::external_type_specification]
#[verifier::external_body]
pub struct ExJsonError(serde_json::Error);

/// The value type of `serde_json`.
#[verifier::external_type_specification]
#[verifier::external_body]
pub struct ExJsonValue(serde_json::Value);

/// What a `serde_json::Value` holds, as mathematical values. Of a number
/// it keeps what `Number::as_u64` returns, and of an object the members in
/// the order of its iterator.
pub uninterp spec fn value_view(value: serde_json::Value) -> JsonView;

/// What `serde_json::from_str` makes of a document with the given
/// characters: what the value holds that it parses to, or nothing where the
/// parser rejects the document.
pub uninterp spec fn json_document(text: Seq<char>) -> Option<JsonView>;

/// `serde_json::from_str`, read as a `serde_json::Value`. The contract only
/// names the outcome: the same document always parses to a value that holds
/// the same, and a document that parses is never rejected.
#[verifier::external_body]
fn parse_value(text: &str) -> (r: Result<serde_json::Value, serde_json::Error>)
    ensures
        r matches Ok(value) ==> json_document(text@) == Some(value_view(value)),
        r is Err ==> json_document(text@) is None,
{
    serde_json::from_str::<serde_json::Value>(text)
}

/// Rewrites a `serde_json::Value` as a [`Json`], variant by variant, so that
/// the result holds what the value holds.
#[verifier::external_body]
fn json_of(value: serde_json::Value) -> (tree: Json)
    ensures
        tree@ == value_view(value),
{
    match value {
        serde_json::Value::Null => Json::Null,
        serde_json::Value::Bool(b) => Json::Bool(b),
        serde_json::Value::Number(n) => Json::Number(n.as_u64()),
        serde_json::Value::String(s) => Json::Text(s),
        serde_json::Value::Array(a) => Json::Array(a.into_iter().map(json_of).collect()),
        serde_json::Value::Object(o) => Json::Object(
            o.into_iter().map(|(k, v)| (k, json_of(v))).collect(),
        ),
    }
}

/// Parses a document: the value that `serde_json` parses it to, rewritten as
/// a [`Json`], or the parser's error.
pub fn parse_json(text: &str) -> (r: Result<Json, serde_json::Error>)
    ensures
        r matches Ok(tree) ==> json_document(text@) == Some(tree@),
        r is Err ==> json_document(text@) is None,
{
    match parse_value(text) {
        Ok(value) => Ok(json_of(value)),
        Err(error) => Err(error),
    }
}

/// The parser's own words for an error, through its `Display`.
#[verifier::external_body]
pub(crate) fn error_text(error: &serde_json::Error) -> String {
    error.to_string()
}

} // verus!
