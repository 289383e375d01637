//! The JSON document model.
use vstd::prelude::*;
use crate::number::Number;

verus! {

#[derive(Debug, PartialEq)]
pub enum JsonValue {
    Null,
    Bool(bool),
    Number(Number),
    String(String),
    Array(Vec<JsonValue>),
    Object(Vec<(String, JsonValue)>),
}

/// The mathematical content of a [`JsonValue`]: numbers by their lexeme, strings by
/// their characters, arrays and objects (in order, duplicates kept) by their items.
pub enum JsonView {
    Null,
    Bool(bool),
    Number(Seq<char>),
    Str(Seq<char>),
    Array(Seq<JsonView>),
    Object(Seq<(Seq<char>, JsonView)>),
}

/// The views of a sequence of values.
pub open spec fn view_items(items: Seq<JsonValue>) -> Seq<JsonView>
    decreases items,
{
    if items.len() == 0 {
        Seq::empty()
    } else {
        seq![items[0].view_value()] + view_items(items.subrange(1, items.len() as int))
    }
}

/// The views of a sequence of object members.
pub open spec fn view_members(members: Seq<(String, JsonValue)>) -> Seq<(Seq<char>, JsonView)>
    decreases members,
{
    if members.len() == 0 {
        Seq::empty()
    } else {
        seq![(members[0].0@, members[0].1.view_value())] + view_members(
            members.subrange(1, members.len() as int),
        )
    }
}

proof fn lemma_first_key_from(members: Seq<(String, JsonValue)>, key: Seq<char>, s: int)
    requires
        0 <= s,
    ensures
        match first_key_from(members, key, s) {
            Some(i) => s <= i < members.len() && members[i].0@ == key && forall|j: int|
                s <= j < i ==> (#[trigger] members[j]).0@ != key,
            None => forall|j: int| s <= j < members.len() ==> (#[trigger] members[j]).0@ != key,
        },
    decreases members.len() - s,
{
    if s < members.len() && members[s].0@ != key {
        lemma_first_key_from(members, key, s + 1);
    }
}

/// Looking a key up finds the first member whose key is exactly the key, and finds
/// nothing when no member has that key.
pub proof fn law_first_key(members: Seq<(String, JsonValue)>, key: Seq<char>)
    ensures
        match first_key_from(members, key, 0) {
            Some(i) => 0 <= i < members.len() && members[i].0@ == key && forall|j: int|
                0 <= j < i ==> (#[trigger] members[j]).0@ != key,
            None => forall|j: int| 0 <= j < members.len() ==> (#[trigger] members[j]).0@ != key,
        },
{
    lemma_first_key_from(members, key, 0);
}

impl JsonValue {
    pub open spec fn view_value(&self) -> JsonView
        decreases self,
    {
        match self {
            JsonValue::Null => JsonView::Null,
            JsonValue::Bool(b) => JsonView::Bool(*b),
            JsonValue::Number(n) => JsonView::Number(n@),
            JsonValue::String(s) => JsonView::Str(s@),
            JsonValue::Array(items) => JsonView::Array(view_items(items@)),
            JsonValue::Object(members) => JsonView::Object(view_members(members@)),
        }
    }
}

impl View for JsonValue {
    type V = JsonView;

    open spec fn view(&self) -> JsonView {
        self.view_value()
    }
}

pub proof fn lemma_view_items(items: Seq<JsonValue>)
    ensures
        view_items(items).len() == items.len(),
        forall|i: int| 0 <= i < items.len() ==> #[trigger] view_items(items)[i] == items[i]@,
    decreases items.len(),
{
    if items.len() > 0 {
        let rest = items.subrange(1, items.len() as int);
        lemma_view_items(rest);
        assert forall|i: int| 0 <= i < items.len() implies #[trigger] view_items(items)[i] == items[i]@ by {
            if i > 0 {
                assert(rest[i - 1] == items[i]);
            }
        }
    }
}

pub proof fn lemma_view_members(members: Seq<(String, JsonValue)>)
    ensures
        view_members(members).len() == members.len(),
        forall|i: int|
            0 <= i < members.len() ==> #[trigger] view_members(members)[i] == (
                members[i].0@,
                members[i].1@,
            ),
    decreases members.len(),
{
    if members.len() > 0 {
        let rest = members.subrange(1, members.len() as int);
        lemma_view_members(rest);
        assert forall|i: int| 0 <= i < members.len() implies #[trigger] view_members(members)[i] == (
            members[i].0@,
            members[i].1@,
        ) by {
            if i > 0 {
                assert(rest[i - 1] == members[i]);
            }
        }
    }
}

/// The views of `items` with one more value pushed.
pub proof fn lemma_view_items_push(items: Seq<JsonValue>, v: JsonValue)
    ensures
        view_items(items.push(v)) == view_items(items).push(v@),
{
    lemma_view_items(items);
    lemma_view_items(items.push(v));
    assert(view_items(items.push(v)) =~= view_items(items).push(v@));
}

/// The views of `members` with one more member pushed.
pub proof fn lemma_view_members_push(members: Seq<(String, JsonValue)>, m: (String, JsonValue))
    ensures
        view_members(members.push(m)) == view_members(members).push((m.0@, m.1@)),
{
    lemma_view_members(members);
    lemma_view_members(members.push(m));
    assert(view_members(members.push(m)) =~= view_members(members).push((m.0@, m.1@)));
}

/// The index of the first member whose key is `key`, searching from index `i` on.
pub open spec fn first_key_from(members: Seq<(String, JsonValue)>, key: Seq<char>, i: int) -> Option<
    int,
>
    decreases members.len() - i,
{
    if i < 0 || i >= members.len() {
        None
    } else if members[i].0@ == key {
        Some(i)
    } else {
        first_key_from(members, key, i + 1)
    }
}

impl JsonValue {
    pub fn is_null(&self) -> (b: bool)
        ensures
            b == (self@ is Null),
    {
        matches!(self, JsonValue::Null)
    }

    pub fn as_bool(&self) -> (r: Option<bool>)
        ensures
            r == (match self@ {
                JsonView::Bool(b) => Some(b),
                _ => None,
            }),
    {
        if let JsonValue::Bool(b) = self {
            Some(*b)
        } else {
            None
        }
    }

    pub fn as_number(&self) -> (r: Option<&Number>)
        ensures
            r == (match self {
                JsonValue::Number(n) => Some(n),
                _ => None,
            }),
    {
        if let JsonValue::Number(n) = self {
            Some(n)
        } else {
            None
        }
    }

    pub fn as_str(&self) -> (r: Option<&str>)
        ensures
            match self@ {
                JsonView::Str(s) => r matches Some(t) && t@ == s,
                _ => r is None,
            },
    {
        if let JsonValue::String(s) = self {
            Some(s.as_str())
        } else {
            None
        }
    }

    pub fn as_array(&self) -> (r: Option<&[JsonValue]>)
        ensures
            match self {
                JsonValue::Array(items) => r matches Some(a) && a@ == items@,
                _ => r is None,
            },
    {
        if let JsonValue::Array(a) = self {
            Some(a.as_slice())
        } else {
            None
        }
    }

    pub fn as_object(&self) -> (r: Option<&[(String, JsonValue)]>)
        ensures
            match self {
                JsonValue::Object(members) => r matches Some(o) && o@ == members@,
                _ => r is None,
            },
    {
        if let JsonValue::Object(o) = self {
            Some(o.as_slice())
        } else {
            None
        }
    }

    /// Look up the first value associated with `key` in an object.
    /// Returns `None` for non-objects or missing keys.
    pub fn get(&self, key: &str) -> (r: Option<&JsonValue>)
        ensures
            r == (match self {
                JsonValue::Object(members) => match first_key_from(members@, key@, 0) {
                    Some(i) => Some(&members@[i].1),
                    None => None,
                },
                _ => None,
            }),
            match self {
                JsonValue::Object(members) => match r {
                    Some(x) => exists|i: int|
                        0 <= i < members@.len() && #[trigger] members@[i].0@ == key@ && *x
                            == members@[i].1 && forall|j: int|
                            0 <= j < i ==> (#[trigger] members@[j]).0@ != key@,
                    None => forall|j: int|
                        0 <= j < members@.len() ==> (#[trigger] members@[j]).0@ != key@,
                },
                _ => r is None,
            },
    {
        proof {
            if let JsonValue::Object(members) = self {
                law_first_key(members@, key@);
            }
        }
        let members = match self {
            JsonValue::Object(o) => o,
            _ => {
                return None;
            },
        };
        let wanted: String = key.to_owned();
        let mut i: usize = 0;
        while i < members.len()
            invariant
                *self == JsonValue::Object(*members),
                wanted@ == key@,
                i <= members@.len(),
                first_key_from(members@, key@, 0) == first_key_from(members@, key@, i as int),
            decreases members@.len() - i,
        {
            if members[i].0 == wanted {
                proof {
                    assert(first_key_from(members@, key@, i as int) == Some(i as int));
                    law_first_key(members@, key@);
                    assert(members@[i as int].0@ == key@);
                }
                return Some(&members[i].1);
            }
            i += 1;
        }
        None
    }
}

impl Clone for JsonValue {
    fn clone(&self) -> (r: Self)
        ensures
            r@ == self@,
        decreases self,
    {
        match self {
            JsonValue::Null => JsonValue::Null,
            JsonValue::Bool(b) => JsonValue::Bool(*b),
            JsonValue::Number(n) => JsonValue::Number(n.clone()),
            JsonValue::String(s) => JsonValue::String(s.clone()),
            JsonValue::Array(items) => {
                let mut out: Vec<JsonValue> = Vec::new();
                let mut i: usize = 0;
                while i < items.len()
                    invariant
                        *self == JsonValue::Array(*items),
                        i <= items@.len(),
                        out@.len() == i,
                        forall|j: int| 0 <= j < i ==> (#[trigger] out@[j])@ == items@[j]@,
                    decreases items@.len() - i,
                {
                    proof {
                        assert(decreases_to!(*self => (*self)->Array_0));
                        assert(decreases_to!(*items => items@));
                        assert(decreases_to!(items@ => items@[i as int]));
                    }
                    out.push(items[i].clone());
                    i += 1;
                }
                proof {
                    lemma_view_items(out@);
                    lemma_view_items(items@);
                    assert(view_items(out@) =~= view_items(items@));
                }
                JsonValue::Array(out)
            },
            JsonValue::Object(members) => {
                let mut out: Vec<(String, JsonValue)> = Vec::new();
                let mut i: usize = 0;
                while i < members.len()
                    invariant
                        *self == JsonValue::Object(*members),
                        i <= members@.len(),
                        out@.len() == i,
                        forall|j: int|
                            0 <= j < i ==> (#[trigger] out@[j]).0@ == members@[j].0@ && out@[j].1@
                                == members@[j].1@,
                    decreases members@.len() - i,
                {
                    proof {
                        assert(decreases_to!(*self => (*self)->Object_0));
                        assert(decreases_to!(*members => members@));
                        assert(decreases_to!(members@ => members@[i as int]));
                        assert(decreases_to!(members@[i as int] => members@[i as int].1));
                    }
                    out.push((members[i].0.clone(), members[i].1.clone()));
                    i += 1;
                }
                proof {
                    lemma_view_members(out@);
                    lemma_view_members(members@);
                    assert(view_members(out@) =~= view_members(members@));
                }
                JsonValue::Object(out)
            },
        }
    }
}

impl From<bool> for JsonValue {
    fn from(b: bool) -> (v: Self) {
        JsonValue::Bool(b)
    }
}

impl vstd::std_specs::convert::FromSpecImpl<bool> for JsonValue {
    open spec fn obeys_from_spec() -> bool {
        true
    }

    open spec fn from_spec(b: bool) -> Self {
        JsonValue::Bool(b)
    }
}

impl From<String> for JsonValue {
    fn from(s: String) -> (v: Self) {
        JsonValue::String(s)
    }
}

impl vstd::std_specs::convert::FromSpecImpl<String> for JsonValue {
    open spec fn obeys_from_spec() -> bool {
        true
    }

    open spec fn from_spec(s: String) -> Self {
        JsonValue::String(s)
    }
}

impl From<Number> for JsonValue {
    fn from(n: Number) -> (v: Self) {
        JsonValue::Number(n)
    }
}

impl vstd::std_specs::convert::FromSpecImpl<Number> for JsonValue {
    open spec fn obeys_from_spec() -> bool {
        true
    }

    open spec fn from_spec(n: Number) -> Self {
        JsonValue::Number(n)
    }
}

impl<'a> From<&'a str> for JsonValue {
    fn from(s: &'a str) -> (v: Self)
        ensures
            v@ == JsonView::Str(s@),
    {
        JsonValue::String(s.to_owned())
    }
}

/// `obeys_from_spec` is `false` here: a `String` is not determined by its characters
/// in specifications, so `from` states its result in its own `ensures` instead.
impl<'a> vstd::std_specs::convert::FromSpecImpl<&'a str> for JsonValue {
    open spec fn obeys_from_spec() -> bool {
        false
    }

    open spec fn from_spec(s: &'a str) -> Self {
        JsonValue::String(choose|t: String| t@ == s@)
    }
}

} // verus!
