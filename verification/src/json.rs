//! JSON texts, read by `serde_json` and handed on as plain values.

use crate::text;
use serde_json::{Deserializer, Value};
use vstd::prelude::*;

verus! {

/// A member of a JSON object, as far as the reports read it.
pub enum Member {
    Null,
    Bool(bool),
    Number,
    Text(String),
    Array,
    Object,
}

/// A member of a JSON object, as far as the reports read it, with texts.
pub enum MemberView {
    Null,
    Bool(bool),
    Number,
    Text(Seq<char>),
    Array,
    Object,
}

impl View for Member {
    type V = MemberView;

    open spec fn view(&self) -> MemberView {
        match self {
            Member::Null => MemberView::Null,
            Member::Bool(b) => MemberView::Bool(*b),
            Member::Number => MemberView::Number,
            Member::Text(s) => MemberView::Text(s@),
            Member::Array => MemberView::Array,
            Member::Object => MemberView::Object,
        }
    }
}

/// The members of an object, with texts.
pub open spec fn members_view(v: Seq<(String, Member)>) -> Seq<(Seq<char>, MemberView)> {
    v.map_values(|m: (String, Member)| (m.0@, m.1@))
}

/// The items of a stream: an object's members, or `None` for an item that is no
/// object.
pub open spec fn items_view(v: Seq<Option<Vec<(String, Member)>>>) -> Seq<
    Option<Seq<(Seq<char>, MemberView)>>,
> {
    v.map_values(
        |i: Option<Vec<(String, Member)>>|
            match i {
                Some(ms) => Some(members_view(ms@)),
                None => None,
            },
    )
}

/// White space between JSON values.
pub open spec fn is_json_blank(s: Seq<char>) -> bool {
    forall|i: int|
        0 <= i < s.len() ==> s[i] == ' ' || s[i] == '\n' || s[i] == '\t' || s[i] == '\r'
}

/// What `serde_json` reads in a text as a stream of JSON values, one item for
/// each value and one for each error that it meets.
pub uninterp spec fn stream_items(input: Seq<char>) -> Seq<Option<Seq<(Seq<char>, MemberView)>>>;

/// Every item of a stream is an object.
pub open spec fn only_objects(items: Seq<Option<Seq<(Seq<char>, MemberView)>>>) -> bool {
    forall|i: int| 0 <= i < items.len() ==> (#[trigger] items[i]) is Some
}

/// A text begins with an opening brace, and what begins there is not an object that
/// can be read to its end.
pub open spec fn is_broken(s: Seq<char>) -> bool {
    s.len() > 0 && s[0] == '{' && stream_items(s).len() > 0 && stream_items(s)[0] is None
}

/// A text consists of complete objects up to a place where a broken one begins.
pub open spec fn breaks_after(input: Seq<char>, whole: Seq<char>) -> bool {
    &&& whole.is_prefix_of(input)
    &&& only_objects(stream_items(whole))
    &&& is_broken(input.skip(whole.len() as int))
}

/// Reads a text with `serde_json::Deserializer::into_iter`, which yields the JSON
/// values that stand one after the other, and an error where it meets one. The
/// items depend on the text alone and bear the name [`stream_items`]: of an object
/// its members, in the order of `serde_json`'s map; of any other value, and of an
/// error, `None`. A text of nothing but JSON white space has no items. Where complete
/// objects are followed by an opening brace from which no object can be read, the
/// items are those objects and then the error: the stream ends there, whatever
/// follows.
#[verifier::external_body]
pub(crate) fn read_stream(input: &str) -> (r: Vec<Option<Vec<(String, Member)>>>)
    ensures
        items_view(r@) == stream_items(input@),
        is_json_blank(input@) ==> r@.len() == 0,
        forall|whole: Seq<char>| #[trigger]
            breaks_after(input@, whole) ==> items_view(r@) == stream_items(whole).push(None),
{
    let member = |v: Value| match v {
        Value::Null => Member::Null,
        Value::Bool(b) => Member::Bool(b),
        Value::Number(_) => Member::Number,
        Value::String(s) => Member::Text(s),
        Value::Array(_) => Member::Array,
        Value::Object(_) => Member::Object,
    };
    let items = Deserializer::from_str(input).into_iter::<Value>();
    items.map(|item| match item {
        Ok(Value::Object(m)) => Some(m.into_iter().map(|(k, v)| (k, member(v))).collect()),
        Ok(Value::Null | Value::Bool(_) | Value::Number(_) | Value::String(_) | Value::Array(_))
        | Err(_) => None,
    }).collect()
}

/// The members of an object, each with its value as JSON text.
pub open spec fn fields_view(v: Option<Vec<(String, String)>>) -> Option<
    Seq<(Seq<char>, Seq<char>)>,
> {
    match v {
        Some(fs) => Some(fs@.map_values(|f: (String, String)| (f.0@, f.1@))),
        None => None,
    }
}

/// The members of the JSON object that a text holds, each with its value as JSON
/// text; `None` for a text that is not one JSON object.
pub uninterp spec fn object_fields(text: Seq<char>) -> Option<Seq<(Seq<char>, Seq<char>)>>;

/// Reads a text with `serde_json::from_str` as one JSON value. The outcome depends
/// on the text alone and bears the name [`object_fields`]: of an object its
/// members, in the order of `serde_json`'s map, each with its value written as
/// compact JSON; of any other value, and of a text that is not JSON, `None`.
#[verifier::external_body]
pub(crate) fn read_object(text: &str) -> (r: Option<Vec<(String, String)>>)
    ensures
        fields_view(r) == object_fields(text@),
{
    match serde_json::from_str::<Value>(text) {
        Ok(Value::Object(m)) => Some(m.into_iter().map(|(k, v)| (k, v.to_string())).collect()),
        Ok(Value::Null | Value::Bool(_) | Value::Number(_) | Value::String(_) | Value::Array(_))
        | Err(_) => None,
    }
}

/// The value under a key: that of the first member with this key.
pub open spec fn value_under<V>(members: Seq<(Seq<char>, V)>, key: Seq<char>) -> Option<V>
    decreases members.len(),
{
    if members.len() == 0 {
        None
    } else if members[0].0 == key {
        Some(members[0].1)
    } else {
        value_under(members.skip(1), key)
    }
}

/// The text under a key, where a text stands there.
pub open spec fn text_under(members: Seq<(Seq<char>, MemberView)>, key: Seq<char>) -> Option<
    Seq<char>,
> {
    match value_under(members, key) {
        Some(MemberView::Text(s)) => Some(s),
        _ => None,
    }
}

/// The truth value under a key; false where none stands there.
pub open spec fn flag_under(members: Seq<(Seq<char>, MemberView)>, key: Seq<char>) -> bool {
    value_under(members, key) == Some(MemberView::Bool(true))
}

/// The position of the first member with this key, or the number of members.
fn position(members: &Vec<(String, Member)>, key: &str) -> (r: usize)
    ensures
        r <= members@.len(),
        match value_under(members_view(members@), key@) {
            Some(v) => r < members@.len() && members@[r as int].1@ == v,
            None => r == members@.len(),
        },
{
    let ghost all = members_view(members@);
    let n: usize = members.len();
    let sought = key.to_owned();
    let mut i: usize = 0;
    assert(all.skip(0) =~= all);
    while i < n
        invariant
            n == members@.len(),
            i <= n,
            sought@ == key@,
            all == members_view(members@),
            value_under(all, key@) == value_under(all.skip(i as int), key@),
        decreases n - i,
    {
        if members[i].0 == sought {
            return i;
        }
        assert(all.skip(i as int).skip(1) =~= all.skip(i + 1));
        i += 1;
    }
    i
}

/// The text under a key.
pub fn get_text(members: &Vec<(String, Member)>, key: &str) -> (r: Option<String>)
    ensures
        text::opt_text(r) == text_under(members_view(members@), key@),
{
    let i: usize = position(members, key);
    if i < members.len() {
        match &members[i].1 {
            Member::Text(s) => Some(s.clone()),
            _ => None,
        }
    } else {
        None
    }
}

/// The truth value under a key.
pub fn get_flag(members: &Vec<(String, Member)>, key: &str) -> (r: bool)
    ensures
        r == flag_under(members_view(members@), key@),
{
    let i: usize = position(members, key);
    if i < members.len() {
        match &members[i].1 {
            Member::Bool(b) => *b,
            _ => false,
        }
    } else {
        false
    }
}

/// The JSON text under a key.
pub fn get_field(fields: &Vec<(String, String)>, key: &str) -> (r: Option<String>)
    ensures
        text::opt_text(r) == value_under(fields@.map_values(|f: (String, String)| (f.0@, f.1@)), key@),
{
    let ghost all = fields@.map_values(|f: (String, String)| (f.0@, f.1@));
    let n: usize = fields.len();
    let sought = key.to_owned();
    let mut i: usize = 0;
    assert(all.skip(0) =~= all);
    while i < n
        invariant
            n == fields@.len(),
            i <= n,
            sought@ == key@,
            all == fields@.map_values(|f: (String, String)| (f.0@, f.1@)),
            value_under(all, key@) == value_under(all.skip(i as int), key@),
        decreases n - i,
    {
        if fields[i].0 == sought {
            return Some(fields[i].1.clone());
        }
        assert(all.skip(i as int).skip(1) =~= all.skip(i + 1));
        i += 1;
    }
    None
}

/// The value under a key is that of the first member with the key; there is none
/// exactly where no member has the key.
pub proof fn the_first_member_with_a_key_counts<V>(
    members: Seq<(Seq<char>, V)>,
    key: Seq<char>,
    k: int,
)
    requires
        0 <= k <= members.len(),
        forall|i: int| 0 <= i < k ==> (#[trigger] members[i]).0 != key,
        k < members.len() ==> members[k].0 == key,
    ensures
        value_under(members, key) == if k < members.len() {
            Some(members[k].1)
        } else {
            None
        },
    decreases k,
{
    if k > 0 {
        let rest = members.skip(1);
        assert(members[0].0 != key);
        assert forall|i: int| 0 <= i < k - 1 implies (#[trigger] rest[i]).0 != key by {
            assert(rest[i] == members[i + 1]);
        }
        the_first_member_with_a_key_counts(rest, key, k - 1);
    }
}

/// A text is read under a key where a text stands there, and a flag is set where the
/// truth value `true` stands there; a value of another kind is neither.
pub proof fn members_are_read_by_their_kind(members: Seq<(Seq<char>, MemberView)>, key: Seq<char>)
    ensures
        match value_under(members, key) {
            Some(MemberView::Text(s)) => text_under(members, key) == Some(s) && !flag_under(
                members,
                key,
            ),
            Some(MemberView::Bool(b)) => text_under(members, key) is None && flag_under(
                members,
                key,
            ) == b,
            _ => text_under(members, key) is None && !flag_under(members, key),
        },
{
}

/// A member is seen as the value that it is; members, items and fields are seen one by
/// one and in order.
pub proof fn members_are_seen_as_they_are(
    m: Member,
    v: Seq<(String, Member)>,
    items: Seq<Option<Vec<(String, Member)>>>,
    fields: Vec<(String, String)>,
)
    ensures
        match m {
            Member::Null => m@ is Null,
            Member::Bool(b) => m@ == MemberView::Bool(b),
            Member::Number => m@ is Number,
            Member::Text(s) => m@ == MemberView::Text(s@),
            Member::Array => m@ is Array,
            Member::Object => m@ is Object,
        },
        members_view(v).len() == v.len(),
        forall|i: int| 0 <= i < v.len() ==> #[trigger] members_view(v)[i] == (v[i].0@, v[i].1@),
        items_view(items).len() == items.len(),
        forall|i: int|
            0 <= i < items.len() ==> #[trigger] items_view(items)[i] == if items[i] is Some {
                Some(members_view(items[i]->0@))
            } else {
                None
            },
        fields_view(None) is None,
        fields_view(Some(fields)) is Some,
        fields_view(Some(fields))->0.len() == fields@.len(),
        forall|i: int|
            0 <= i < fields@.len() ==> #[trigger] fields_view(Some(fields))->0[i] == (
                fields@[i].0@,
                fields@[i].1@,
            ),
{
}

} // verus!
