//! The JSON value of an event: what it holds, how it is read, and how it is
//! written on one line.

use crate::text::{before, decimal, digit, is_digit, push_decimal, push_signed, same, signed_decimal};
use vstd::prelude::*;

verus! {

/// A JSON value as an event carries it.
///
/// A number is held as a `u64` where it is one, as an `i64` where it is a
/// negative integer of that range, and otherwise as the shortest decimal text
/// of its binary64 value. An object lists its members by ascending key.
#[derive(Debug, PartialEq, Eq)]
pub enum Payload {
    Null,
    Bool(bool),
    UInt(u64),
    Int(i64),
    Float(String),
    Text(String),
    Array(Vec<Payload>),
    Object(Vec<(String, Payload)>),
}

/// The mathematical JSON value.
pub enum Json {
    Null,
    Bool(bool),
    UInt(u64),
    Int(i64),
    Float(Seq<char>),
    Text(Seq<char>),
    Array(Seq<Json>),
    Object(Seq<(Seq<char>, Json)>),
}

/// The members of an object.
pub type Members = Seq<(Seq<char>, Json)>;

/// The value that a payload holds.
pub open spec fn json_of(p: Payload) -> Json
    decreases p,
{
    match p {
        Payload::Null => Json::Null,
        Payload::Bool(b) => Json::Bool(b),
        Payload::UInt(n) => Json::UInt(n),
        Payload::Int(n) => Json::Int(n),
        Payload::Float(t) => Json::Float(t@),
        Payload::Text(t) => Json::Text(t@),
        Payload::Array(v) => Json::Array(
            Seq::new(
                v@.len(),
                |i: int|
                    if 0 <= i < v@.len() {
                        json_of(v@[i])
                    } else {
                        Json::Null
                    },
            ),
        ),
        Payload::Object(v) => Json::Object(
            Seq::new(
                v@.len(),
                |i: int|
                    if 0 <= i < v@.len() {
                        (v@[i].0@, json_of(v@[i].1))
                    } else {
                        (Seq::empty(), Json::Null)
                    },
            ),
        ),
    }
}

impl View for Payload {
    type V = Json;

    open spec fn view(&self) -> Json {
        json_of(*self)
    }
}

impl DeepView for Payload {
    type V = Json;

    open spec fn deep_view(&self) -> Json {
        json_of(*self)
    }
}

impl Clone for Payload {
    fn clone(&self) -> (r: Payload)
        ensures
            r@ == self@,
    {
        self.copy()
    }
}

// ── Reading members ────────────────────────────────────────────────────────

/// The value that `members` give to `key`: that of the first member with it.
pub open spec fn lookup(members: Members, key: Seq<char>) -> Option<Json>
    decreases members.len(),
{
    if members.len() == 0 {
        None
    } else if members[0].0 == key {
        Some(members[0].1)
    } else {
        lookup(members.subrange(1, members.len() as int), key)
    }
}

/// The member of an object under `key`; nothing for any other value.
pub open spec fn member(j: Json, key: Seq<char>) -> Option<Json> {
    match j {
        Json::Object(m) => lookup(m, key),
        _ => None,
    }
}

/// The text that a value is, if it is one.
pub open spec fn as_text(j: Json) -> Option<Seq<char>> {
    match j {
        Json::Text(t) => Some(t),
        _ => None,
    }
}

/// The text of the member under `key`.
pub open spec fn text_member(j: Json, key: Seq<char>) -> Option<Seq<char>> {
    match member(j, key) {
        Some(v) => as_text(v),
        None => None,
    }
}

/// The text of the member under `key` or, where there is no such member, of
/// the one under `other`.
pub open spec fn text_member_or(j: Json, key: Seq<char>, other: Seq<char>) -> Option<Seq<char>> {
    match member(j, key) {
        Some(v) => as_text(v),
        None => text_member(j, other),
    }
}

/// The truth value of the member under `key`; false where there is none.
pub open spec fn flag_member(j: Json, key: Seq<char>) -> bool {
    member(j, key) == Some(Json::Bool(true))
}

/// The member under `key`; null where there is none.
pub open spec fn member_or_null(j: Json, key: Seq<char>) -> Json {
    match member(j, key) {
        Some(v) => v,
        None => Json::Null,
    }
}

impl Payload {
    /// The member of an object under `key`; nothing for any other value.
    pub fn get(&self, key: &str) -> (r: Option<&Payload>)
        ensures
            r.deep_view() == member(self@, key@),
    {
        match self {
            Payload::Object(v) => {
                let ghost m = self@->Object_0;
                let mut i: usize = 0;
                assert(m.subrange(0, m.len() as int) =~= m);
                while i < v.len()
                    invariant
                        i <= v@.len(),
                        self@ == Json::Object(m),
                        m.len() == v@.len(),
                        forall|j: int| 0 <= j < m.len() ==> #[trigger] m[j] == (v@[j].0@, v@[j].1@),
                        lookup(m, key@) == lookup(m.subrange(i as int, m.len() as int), key@),
                    decreases v@.len() - i,
                {
                    let ghost rest = m.subrange(i as int, m.len() as int);
                    assert(rest[0] == m[i as int]);
                    if same(v[i].0.as_str(), key) {
                        return Some(&v[i].1);
                    }
                    assert(rest.subrange(1, rest.len() as int) =~= m.subrange(
                        i + 1,
                        m.len() as int,
                    ));
                    i += 1;
                }
                None
            },
            _ => None,
        }
    }

    /// The text that a value is, if it is one.
    pub fn as_str(&self) -> (r: Option<&str>)
        ensures
            r.deep_view() == as_text(self@),
    {
        match self {
            Payload::Text(t) => Some(t.as_str()),
            _ => None,
        }
    }

    /// The text of the member under `key`.
    pub fn get_text(&self, key: &str) -> (r: Option<String>)
        ensures
            r.deep_view() == text_member(self@, key@),
    {
        match self.get(key) {
            Some(Payload::Text(t)) => Some(t.clone()),
            _ => None,
        }
    }

    /// The text of the member under `key` or, where there is no such member,
    /// of the one under `other`.
    pub fn get_text_or(&self, key: &str, other: &str) -> (r: Option<String>)
        ensures
            r.deep_view() == text_member_or(self@, key@, other@),
    {
        match self.get(key) {
            Some(Payload::Text(t)) => Some(t.clone()),
            Some(_) => None,
            None => self.get_text(other),
        }
    }

    /// The truth value of the member under `key`; false where there is none.
    pub fn get_flag(&self, key: &str) -> (r: bool)
        ensures
            r == flag_member(self@, key@),
    {
        match self.get(key) {
            Some(Payload::Bool(b)) => *b,
            _ => false,
        }
    }

    /// The member under `key`; null where there is none.
    pub fn get_or_null(&self, key: &str) -> (r: Payload)
        ensures
            r@ == member_or_null(self@, key@),
    {
        match self.get(key) {
            Some(v) => v.copy(),
            None => Payload::Null,
        }
    }

    /// A payload that holds the same value.
    pub fn copy(&self) -> (r: Payload)
        ensures
            r@ == self@,
        decreases self,
    {
        match self {
            Payload::Null => Payload::Null,
            Payload::Bool(b) => Payload::Bool(*b),
            Payload::UInt(n) => Payload::UInt(*n),
            Payload::Int(n) => Payload::Int(*n),
            Payload::Float(t) => Payload::Float(t.clone()),
            Payload::Text(t) => Payload::Text(t.clone()),
            Payload::Array(v) => {
                let mut out: Vec<Payload> = Vec::new();
                let mut i: usize = 0;
                while i < v.len()
                    invariant
                        i <= v@.len(),
                        self == Payload::Array(*v),
                        out@.len() == i,
                        forall|j: int| 0 <= j < i ==> (#[trigger] out@[j])@ == v@[j]@,
                    decreases v@.len() - i,
                {
                    assert(decreases_to!(*self => self->Array_0));
                    assert(decreases_to!(*v => v[i as int]));
                    out.push(v[i].copy());
                    i += 1;
                }
                let r = Payload::Array(out);
                assert(r@->Array_0 =~= self@->Array_0);
                r
            },
            Payload::Object(v) => {
                let mut out: Vec<(String, Payload)> = Vec::new();
                let mut i: usize = 0;
                while i < v.len()
                    invariant
                        i <= v@.len(),
                        self == Payload::Object(*v),
                        out@.len() == i,
                        forall|j: int|
                            0 <= j < i ==> (#[trigger] out@[j]).0@ == v@[j].0@ && out@[j].1@
                                == v@[j].1@,
                    decreases v@.len() - i,
                {
                    assert(decreases_to!(*self => self->Object_0));
                    assert(decreases_to!(*v => v[i as int]));
                    assert(decreases_to!(v[i as int] => v[i as int].1));
                    out.push((v[i].0.clone(), v[i].1.copy()));
                    i += 1;
                }
                let r = Payload::Object(out);
                assert(r@->Object_0 =~= self@->Object_0);
                r
            },
        }
    }
}

// ── Reading fields ─────────────────────────────────────────────────────────

/// Whether a value can hold `n` named fields: an object can, and an array
/// that lists at most as many in order.
pub open spec fn fits(j: Json, n: nat) -> bool {
    match j {
        Json::Object(_) => true,
        Json::Array(items) => items.len() <= n,
        _ => false,
    }
}

/// The field that an object holds under `key`, or an array at `index`.
pub open spec fn field(j: Json, key: Seq<char>, index: int) -> Option<Json> {
    match j {
        Json::Object(m) => lookup(m, key),
        Json::Array(items) => if 0 <= index < items.len() {
            Some(items[index])
        } else {
            None
        },
        _ => None,
    }
}

/// An optional text: absent, null, or a text. The outer option is empty where
/// the field is anything else.
pub open spec fn optional_text(f: Option<Json>) -> Option<Option<Seq<char>>> {
    match f {
        None => Some(None),
        Some(Json::Null) => Some(None),
        Some(Json::Text(t)) => Some(Some(t)),
        _ => None,
    }
}

/// An optional number from 0 to `max`: absent, null, or such a number.
pub open spec fn optional_number(f: Option<Json>, max: u64) -> Option<Option<u64>> {
    match f {
        None => Some(None),
        Some(Json::Null) => Some(None),
        Some(Json::UInt(n)) => if n <= max {
            Some(Some(n))
        } else {
            None
        },
        _ => None,
    }
}

/// Whether every item is a text.
pub open spec fn all_texts(items: Seq<Json>) -> bool {
    forall|i: int| 0 <= i < items.len() ==> (#[trigger] items[i]) is Text
}

/// An optional list of texts: absent, null, or an array of texts.
pub open spec fn optional_texts(f: Option<Json>) -> Option<Option<Seq<Seq<char>>>> {
    match f {
        None => Some(None),
        Some(Json::Null) => Some(None),
        Some(Json::Array(items)) => if all_texts(items) {
            Some(Some(Seq::new(items.len(), |i: int| items[i]->Text_0)))
        } else {
            None
        },
        _ => None,
    }
}

impl Payload {
    /// Whether a value can hold `n` named fields.
    pub(crate) fn fits(&self, n: usize) -> (r: bool)
        ensures
            r == fits(self@, n as nat),
    {
        match self {
            Payload::Object(_) => true,
            Payload::Array(v) => v.len() <= n,
            _ => false,
        }
    }

    /// The field that an object holds under `key`, or an array at `index`.
    pub(crate) fn field(&self, key: &str, index: usize) -> (r: Option<&Payload>)
        ensures
            r.deep_view() == field(self@, key@, index as int),
    {
        match self {
            Payload::Array(v) => if index < v.len() {
                Some(&v[index])
            } else {
                None
            },
            _ => self.get(key),
        }
    }

    /// An optional text field.
    pub(crate) fn text_field(&self, key: &str, index: usize) -> (r: Option<Option<String>>)
        ensures
            r.deep_view() == optional_text(field(self@, key@, index as int)),
    {
        match self.field(key, index) {
            None => Some(None),
            Some(Payload::Null) => Some(None),
            Some(Payload::Text(t)) => Some(Some(t.clone())),
            Some(_) => None,
        }
    }

    /// An optional field with a number from 0 to `max`.
    pub(crate) fn number_field(&self, key: &str, index: usize, max: u64) -> (r: Option<Option<u64>>)
        ensures
            r == optional_number(field(self@, key@, index as int), max),
    {
        match self.field(key, index) {
            None => Some(None),
            Some(Payload::Null) => Some(None),
            Some(Payload::UInt(n)) => if *n <= max {
                Some(Some(*n))
            } else {
                None
            },
            Some(_) => None,
        }
    }

    /// An optional field with a list of texts.
    pub(crate) fn texts_field(&self, key: &str, index: usize) -> (r: Option<Option<Vec<String>>>)
        ensures
            r.deep_view() == optional_texts(field(self@, key@, index as int)),
    {
        match self.field(key, index) {
            None => Some(None),
            Some(Payload::Null) => Some(None),
            Some(Payload::Array(v)) => {
                let ghost items = json_of(Payload::Array(*v))->Array_0;
                let mut out: Vec<String> = Vec::new();
                let mut i: usize = 0;
                while i < v.len()
                    invariant
                        i <= v@.len(),
                        field(self@, key@, index as int) == Some(Json::Array(items)),
                        items.len() == v@.len(),
                        forall|j: int| 0 <= j < items.len() ==> #[trigger] items[j] == v@[j]@,
                        out@.len() == i,
                        forall|j: int|
                            0 <= j < i ==> (#[trigger] items[j]) is Text && out@[j]@
                                == items[j]->Text_0,
                    decreases v@.len() - i,
                {
                    match &v[i] {
                        Payload::Text(t) => out.push(t.clone()),
                        _ => {
                            assert(!(items[i as int] is Text));
                            return None;
                        },
                    }
                    i += 1;
                }
                let r = Some(Some(out));
                assert(r.deep_view()->0->0 =~= Seq::new(items.len(), |i: int| items[i]->Text_0));
                r
            },
            Some(_) => None,
        }
    }
}

// ── The compact text of a value ────────────────────────────────────────────

/// The character of a hexadecimal digit, letters in lower case.
pub open spec fn hex(d: int) -> char {
    if d < 10 {
        digit(d)
    } else {
        (('a' as int) + d - 10) as char
    }
}

/// A character as it stands inside a quoted text.
pub open spec fn escape(c: char) -> Seq<char> {
    if c == '"' {
        seq!['\\', '"']
    } else if c == '\\' {
        seq!['\\', '\\']
    } else if c == '\u{8}' {
        seq!['\\', 'b']
    } else if c == '\t' {
        seq!['\\', 't']
    } else if c == '\n' {
        seq!['\\', 'n']
    } else if c == '\u{c}' {
        seq!['\\', 'f']
    } else if c == '\r' {
        seq!['\\', 'r']
    } else if (c as int) < 0x20 {
        seq!['\\', 'u', '0', '0', hex(c as int / 16), hex(c as int % 16)]
    } else {
        seq![c]
    }
}

/// The characters of a text, each as it stands inside a quoted text.
pub open spec fn escaped(s: Seq<char>) -> Seq<char>
    decreases s.len(),
{
    if s.len() == 0 {
        Seq::empty()
    } else {
        escaped(s.drop_last()) + escape(s.last())
    }
}

/// A text as JSON writes it.
pub open spec fn quoted(s: Seq<char>) -> Seq<char> {
    seq!['"'] + escaped(s) + seq!['"']
}

/// A value as JSON text without white space.
pub open spec fn json_text(j: Json) -> Seq<char>
    decreases j,
{
    match j {
        Json::Null => "null"@,
        Json::Bool(b) => if b {
            "true"@
        } else {
            "false"@
        },
        Json::UInt(n) => decimal(n as nat),
        Json::Int(n) => signed_decimal(n as int),
        Json::Float(t) => t,
        Json::Text(t) => quoted(t),
        Json::Array(items) => seq!['['] + items_text(items) + seq![']'],
        Json::Object(m) => seq!['{'] + members_text(m) + seq!['}'],
    }
}

/// The items of an array, with commas between them.
pub open spec fn items_text(items: Seq<Json>) -> Seq<char>
    decreases items,
{
    if items.len() == 0 {
        Seq::empty()
    } else if items.len() == 1 {
        json_text(items[0])
    } else {
        items_text(items.drop_last()) + seq![','] + json_text(items.last())
    }
}

/// The members of an object, with commas between them.
pub open spec fn members_text(m: Members) -> Seq<char>
    decreases m,
{
    if m.len() == 0 {
        Seq::empty()
    } else if m.len() == 1 {
        quoted(m[0].0) + seq![':'] + json_text(m[0].1)
    } else {
        members_text(m.drop_last()) + seq![','] + (quoted(m.last().0) + seq![':'] + json_text(
            m.last().1,
        ))
    }
}

/// The text of an object with the given members, in the given order.
pub open spec fn object_text(m: Members) -> Seq<char> {
    seq!['{'] + members_text(m) + seq!['}']
}

/// `serde_json::to_string` of a text: the characters between double quotes,
/// with the quote, the backslash and the control characters below a space
/// escaped.
#[verifier::external_body]
pub(crate) fn quote(s: &str) -> (r: String)
    ensures
        r@ == quoted(s@),
{
    serde_json::to_string(s).unwrap_or_default()
}

impl Payload {
    /// Appends the value as JSON text without white space.
    pub fn push_json(&self, out: &mut String)
        ensures
            final(out)@ == old(out)@ + json_text(self@),
        decreases self,
    {
        let ghost start = out@;
        match self {
            Payload::Null => out.append("null"),
            Payload::Bool(b) => {
                if *b {
                    out.append("true")
                } else {
                    out.append("false")
                }
            },
            Payload::UInt(n) => push_decimal(out, *n),
            Payload::Int(n) => push_signed(out, *n),
            Payload::Float(t) => out.append(t.as_str()),
            Payload::Text(t) => out.append(quote(t.as_str()).as_str()),
            Payload::Array(v) => {
                let ghost items = self@->Array_0;
                out.push('[');
                let mut i: usize = 0;
                assert(out@ =~= start + seq!['['] + items_text(items.subrange(0, 0)));
                while i < v.len()
                    invariant
                        i <= v@.len(),
                        self == Payload::Array(*v),
                        self@ == Json::Array(items),
                        items.len() == v@.len(),
                        forall|j: int| 0 <= j < items.len() ==> #[trigger] items[j] == v@[j]@,
                        out@ == start + seq!['['] + items_text(items.subrange(0, i as int)),
                    decreases v@.len() - i,
                {
                    let ghost longer = items.subrange(0, i + 1);
                    assert(longer.drop_last() =~= items.subrange(0, i as int));
                    assert(longer.last() == items[i as int]);
                    assert(decreases_to!(*self => self->Array_0));
                    assert(decreases_to!(*v => v[i as int]));
                    if i > 0 {
                        out.push(',');
                    }
                    v[i].push_json(out);
                    i += 1;
                    assert(out@ =~= start + seq!['['] + items_text(longer));
                }
                out.push(']');
                assert(items.subrange(0, i as int) =~= items);
                assert(out@ =~= start + json_text(self@));
            },
            Payload::Object(v) => {
                let ghost m = self@->Object_0;
                out.push('{');
                let mut i: usize = 0;
                assert(out@ =~= start + seq!['{'] + members_text(m.subrange(0, 0)));
                while i < v.len()
                    invariant
                        i <= v@.len(),
                        self == Payload::Object(*v),
                        self@ == Json::Object(m),
                        m.len() == v@.len(),
                        forall|j: int| 0 <= j < m.len() ==> #[trigger] m[j] == (v@[j].0@, v@[j].1@),
                        out@ == start + seq!['{'] + members_text(m.subrange(0, i as int)),
                    decreases v@.len() - i,
                {
                    let ghost longer = m.subrange(0, i + 1);
                    assert(longer.drop_last() =~= m.subrange(0, i as int));
                    assert(longer.last() == m[i as int]);
                    assert(decreases_to!(*self => self->Object_0));
                    assert(decreases_to!(*v => v[i as int]));
                    assert(decreases_to!(v[i as int] => v[i as int].1));
                    if i > 0 {
                        out.push(',');
                    }
                    out.append(quote(v[i].0.as_str()).as_str());
                    out.push(':');
                    v[i].1.push_json(out);
                    i += 1;
                    assert(out@ =~= start + seq!['{'] + members_text(longer));
                }
                out.push('}');
                assert(m.subrange(0, i as int) =~= m);
                assert(out@ =~= start + json_text(self@));
            },
        }
    }

    /// The value as JSON text without white space.
    pub fn to_json(&self) -> (r: String)
        ensures
            r@ == json_text(self@),
    {
        let mut out = String::new();
        self.push_json(&mut out);
        assert(out@ =~= json_text(self@));
        out
    }
}

/// Appends a member of an object: behind a comma, unless it is the first.
pub(crate) fn push_member(out: &mut String, Ghost(done): Ghost<Members>, key: &str, value: &Payload)
    requires
        old(out)@ == seq!['{'] + members_text(done),
    ensures
        final(out)@ == seq!['{'] + members_text(done.push((key@, value@))),
{
    let ghost m = done.push((key@, value@));
    let first = out.unicode_len() == 1;
    assert(m.drop_last() =~= done);
    proof {
        lemma_members_text_is_empty(done);
    }
    if !first {
        out.push(',');
    }
    out.append(quote(key).as_str());
    out.push(':');
    value.push_json(out);
    assert(out@ =~= seq!['{'] + members_text(m));
}

proof fn lemma_members_text_is_empty(m: Members)
    ensures
        members_text(m).len() == 0 <==> m.len() == 0,
{
    if m.len() == 1 {
        assert(members_text(m)[0] == '"');
    } else if m.len() > 1 {
        assert(members_text(m).len() > 0);
    }
}

// ── Valid values ───────────────────────────────────────────────────────────

/// Whether a character can stand in the decimal text of a number.
pub open spec fn is_number_char(c: char) -> bool {
    is_digit(c) || c == '+' || c == '-' || c == '.' || c == 'e'
}

/// Whether a payload holds what a JSON text can give: a float is the text of a
/// number, an `Int` is negative, and the keys of an object ascend.
pub open spec fn valid(j: Json) -> bool
    decreases j,
{
    match j {
        Json::Int(n) => n < 0,
        Json::Float(t) => forall|i: int| 0 <= i < t.len() ==> is_number_char(#[trigger] t[i]),
        Json::Array(items) => forall|i: int| 0 <= i < items.len() ==> valid(#[trigger] items[i]),
        Json::Object(m) => {
            &&& forall|i: int| 0 <= i < m.len() ==> valid((#[trigger] m[i]).1)
            &&& forall|i: int, k: int|
                0 <= i < k < m.len() ==> before((#[trigger] m[i]).0, (#[trigger] m[k]).0)
        },
        _ => true,
    }
}

/// Whether no float stands in a value.
pub open spec fn float_free(j: Json) -> bool
    decreases j,
{
    match j {
        Json::Float(_) => false,
        Json::Array(items) => forall|i: int|
            0 <= i < items.len() ==> float_free(#[trigger] items[i]),
        Json::Object(m) => forall|i: int| 0 <= i < m.len() ==> float_free((#[trigger] m[i]).1),
        _ => true,
    }
}

/// Whether arrays and objects stand in one another at most `n` deep.
pub open spec fn nests_within(j: Json, n: nat) -> bool
    decreases j,
{
    match j {
        Json::Array(items) => n > 0 && forall|i: int|
            0 <= i < items.len() ==> nests_within(#[trigger] items[i], (n - 1) as nat),
        Json::Object(m) => n > 0 && forall|i: int|
            0 <= i < m.len() ==> nests_within((#[trigger] m[i]).1, (n - 1) as nat),
        _ => true,
    }
}

/// Whether every character is a space or one behind it in Unicode.
pub open spec fn no_control(s: Seq<char>) -> bool {
    forall|i: int| 0 <= i < s.len() ==> 0x20 <= #[trigger] s[i] as int
}

proof fn lemma_no_control_escape(c: char)
    ensures
        no_control(escape(c)),
{
    let n = c as int;
    assert(n < 0x20 ==> 0x20 <= hex(n / 16) as int && 0x20 <= hex(n % 16) as int);
}

proof fn lemma_no_control_quoted(s: Seq<char>)
    ensures
        no_control(escaped(s)),
        no_control(quoted(s)),
    decreases s.len(),
{
    if s.len() > 0 {
        lemma_no_control_quoted(s.drop_last());
        lemma_no_control_escape(s.last());
    }
}

proof fn lemma_no_control_decimal(n: nat)
    ensures
        no_control(decimal(n)),
    decreases n,
{
    if n >= 10 {
        lemma_no_control_decimal(n / 10);
    }
}

/// The JSON text of a valid value holds no control character, so that it
/// stands on one line.
pub proof fn json_text_is_one_line(j: Json)
    requires
        valid(j),
    ensures
        no_control(json_text(j)),
    decreases j,
{
    match j {
        Json::Null => reveal_strlit("null"),
        Json::Bool(_) => {
            reveal_strlit("true");
            reveal_strlit("false");
        },
        Json::UInt(n) => lemma_no_control_decimal(n as nat),
        Json::Int(n) => lemma_no_control_decimal((-n) as nat),
        Json::Float(t) => {
            assert(forall|i: int| 0 <= i < t.len() ==> is_number_char(#[trigger] t[i]));
        },
        Json::Text(t) => lemma_no_control_quoted(t),
        Json::Array(items) => lemma_no_control_items(items),
        Json::Object(m) => members_text_is_one_line(m),
    }
}

proof fn lemma_no_control_items(items: Seq<Json>)
    requires
        forall|i: int| 0 <= i < items.len() ==> valid(#[trigger] items[i]),
    ensures
        no_control(items_text(items)),
    decreases items,
{
    if items.len() > 0 {
        json_text_is_one_line(items.last());
        lemma_no_control_items(items.drop_last());
    }
}

/// Members with valid values stand on one line, in whatever order.
pub proof fn members_text_is_one_line(m: Members)
    requires
        forall|i: int| 0 <= i < m.len() ==> valid((#[trigger] m[i]).1),
    ensures
        no_control(members_text(m)),
    decreases m,
{
    if m.len() > 0 {
        lemma_no_control_quoted(m.last().0);
        json_text_is_one_line(m.last().1);
        members_text_is_one_line(m.drop_last());
    }
}

// ── Reading JSON text ──────────────────────────────────────────────────────

/// `serde_json::Value`, the outside crate's own JSON value.
#[verifier::external_type_specification]
#[verifier::external_body]
pub struct ExValue(serde_json::Value);

/// `serde_json::Error`, what the outside crate reports of a text that is no
/// JSON.
#[verifier::external_type_specification]
#[verifier::external_body]
pub struct ExJsonError(serde_json::Error);

/// The value that `serde_json::from_str` reads from a text, if it reads one.
pub uninterp spec fn json_value(text: Seq<char>) -> Option<Json>;

/// Takes a `serde_json::Value` apart, variant by variant.
#[verifier::external_body]
fn payload_of(value: serde_json::Value) -> Payload {
    match value {
        serde_json::Value::Null => Payload::Null,
        serde_json::Value::Bool(b) => Payload::Bool(b),
        serde_json::Value::Number(n) => match (n.as_u64(), n.as_i64()) {
            (Some(u), _) => Payload::UInt(u),
            (None, Some(i)) => Payload::Int(i),
            (None, None) => Payload::Float(n.to_string()),
        },
        serde_json::Value::String(t) => Payload::Text(t),
        serde_json::Value::Array(v) => Payload::Array(v.into_iter().map(payload_of).collect()),
        serde_json::Value::Object(m) => Payload::Object(
            m.into_iter().map(|e| (e.0, payload_of(e.1))).collect(),
        ),
    }
}

/// Whether a value is written as a JSON text: a valid value that holds no float
/// or is read back where it stands alone.
pub open spec fn is_written(j: Json) -> bool {
    &&& valid(j)
    &&& float_free(j) || json_value(json_text(j)) == Some(j)
}

/// Whether the text of a value, written without white space into an object, is
/// read back as it was: it is nested at most 126 deep.
pub open spec fn is_kept(j: Json) -> bool {
    &&& is_written(j)
    &&& nests_within(j, 126)
}

/// `serde_json::from_str` into a `serde_json::Value`.
///
/// The value read is a function of the text alone, and a valid one: the crate
/// keeps an object's members in the order of their keys. The text of a valid
/// value without floats, nested no deeper than the crate's limit, is read as
/// that value. Of a float only this is said: what is read back where it stands
/// alone is read back as the one item of an array too. The crate's default
/// reading of decimals may be off by one unit in the last place.
#[verifier::external_body]
pub(crate) fn read_json(text: &str) -> (r: Result<Payload, serde_json::Error>)
    ensures
        r is Ok <==> json_value(text@) is Some,
        r matches Ok(p) ==> json_value(text@) == Some(p@) && valid(p@),
        forall|j: Json|
            text@ == #[trigger] json_text(j) && valid(j) && float_free(j) && nests_within(j, 127)
                ==> r is Ok && r->Ok_0@ == j,
        forall|j: Json|
            text@ == seq!['['] + #[trigger] json_text(j) + seq![']'] && is_kept(j) ==> r is Ok
                && r->Ok_0@ == Json::Array(seq![j]),
{
    serde_json::from_str(text).map(payload_of)
}

/// Whether `serde_json::from_str` reads a text that it is told to skip.
pub uninterp spec fn well_formed(text: Seq<char>) -> bool;

/// Whether `serde_json::from_str` succeeds into a `serde::de::IgnoredAny`.
///
/// What is skipped need only be JSON: no value of it is built, so that neither
/// the depth of its nesting nor the size of a number in it is limited. The text
/// of an object is JSON where each of its values is written as a JSON text.
#[verifier::external_body]
pub(crate) fn is_well_formed(text: &str) -> (r: bool)
    ensures
        r == well_formed(text@),
        forall|m: Members|
            text@ == #[trigger] object_text(m) && (forall|i: int|
                0 <= i < m.len() ==> is_written((#[trigger] m[i]).1)) ==> r,
{
    serde_json::from_str::<serde::de::IgnoredAny>(text).is_ok()
}

/// The decimal text with two places that std gives to the binary64 number
/// nearest to a decimal literal; nothing where the text is no such literal or
/// the number is not finite.
pub uninterp spec fn two_places(literal: Seq<char>) -> Option<Seq<char>>;

/// `serde_json::Number::as_f64` of the number that a decimal literal writes,
/// formatted with two decimal places. std's `str::parse` reads the literal and
/// `serde_json::Number::from_f64` holds what it reads, so that the number stays
/// inside this function and only its text comes out.
#[verifier::external_body]
pub(crate) fn format_two_places(literal: &str) -> (r: Option<String>)
    ensures
        r.deep_view() == two_places(literal@),
{
    let number = serde_json::Number::from_f64(literal.parse().ok()?)?;
    Some(format!("{:.2}", number.as_f64()?))
}

} // verus!
