//! The fields that a JSON text gives to a struct.
//!
//! A struct is read from an object member by member, or from an array item by
//! item. A member that the struct has no field for is skipped: it need only be
//! JSON. A field may be given once.

use crate::payload::{
    escape, escaped, is_kept, is_number_char, is_well_formed, is_written, items_text, json_of,
    json_text, json_value, members_text, object_text, quoted, read_json, valid, well_formed, Json,
    Members, Payload,
};
use crate::text::{blank, chars_of, decimal, digit, is_blank, same, text_of};
use vstd::prelude::*;

verus! {

/// What a JSON text is on the outside.
#[derive(Debug, Clone, Copy, PartialEq, Eq, Structural)]
pub enum Outer {
    /// Neither an array nor an object.
    Plain,
    Array,
    Object,
}

/// Why a text gives no fields.
#[derive(Debug, Clone, Copy, PartialEq, Eq, Structural)]
pub enum FieldsError {
    /// The text is no JSON.
    NotJson,
    /// The text is neither an array nor an object, gives a field twice, or has
    /// a key or a field that cannot be read.
    NotFields,
}

/// Where a walk over a JSON text stands.
pub struct Walk {
    /// How many characters have been read.
    pub pos: nat,
    /// How many arrays and objects are open.
    pub depth: nat,
    /// What the outermost of them is.
    pub outer: Outer,
    /// Whether the next text is a key of the outermost object.
    pub at_key: bool,
    /// Whether a text is open.
    pub in_text: bool,
    /// Whether the next character is escaped by a backslash.
    pub escaping: bool,
    /// The latest text, quotes and all, as far as it has been read.
    pub literal: Seq<char>,
    /// The keys of the outermost object, quotes and all.
    pub keys: Seq<Seq<char>>,
    /// Whether a value of the outermost array or object is open.
    pub in_value: bool,
    /// Where that value begins.
    pub from: nat,
    /// Where the values before it begin and end.
    pub spans: Seq<(nat, nat)>,
}

/// The start of a walk.
pub open spec fn start() -> Walk {
    Walk {
        pos: 0,
        depth: 0,
        outer: Outer::Plain,
        at_key: false,
        in_text: false,
        escaping: false,
        literal: Seq::empty(),
        keys: Seq::empty(),
        in_value: false,
        from: 0,
        spans: Seq::empty(),
    }
}

/// The walk one character on, inside a text.
pub open spec fn text_step(w: Walk, c: char) -> Walk {
    let literal = w.literal.push(c);
    if w.escaping {
        Walk { pos: w.pos + 1, escaping: false, literal, ..w }
    } else if c == '\\' {
        Walk { pos: w.pos + 1, escaping: true, literal, ..w }
    } else if c == '"' {
        Walk {
            pos: w.pos + 1,
            in_text: false,
            at_key: false,
            literal,
            keys: if w.at_key {
                w.keys.push(literal)
            } else {
                w.keys
            },
            ..w
        }
    } else {
        Walk { pos: w.pos + 1, literal, ..w }
    }
}

/// The spans behind a value that ends here, if one does.
pub open spec fn closed_spans(w: Walk) -> Seq<(nat, nat)> {
    if w.in_value {
        w.spans.push((w.from, w.pos))
    } else {
        w.spans
    }
}

/// The walk one character on.
pub open spec fn step(w: Walk, c: char) -> Walk {
    if w.in_text {
        text_step(w, c)
    } else if c == '"' {
        Walk { pos: w.pos + 1, in_text: true, literal: seq![c], ..w }
    } else if c == '{' || c == '[' {
        if w.depth == 0 {
            Walk {
                pos: w.pos + 1,
                depth: 1,
                outer: if c == '{' {
                    Outer::Object
                } else {
                    Outer::Array
                },
                at_key: c == '{',
                in_value: c == '[',
                from: w.pos + 1,
                ..w
            }
        } else {
            Walk { pos: w.pos + 1, depth: w.depth + 1, ..w }
        }
    } else if c == '}' || c == ']' {
        if w.depth == 1 {
            Walk { pos: w.pos + 1, depth: 0, in_value: false, spans: closed_spans(w), ..w }
        } else if w.depth > 1 {
            Walk { pos: w.pos + 1, depth: (w.depth - 1) as nat, ..w }
        } else {
            Walk { pos: w.pos + 1, ..w }
        }
    } else if c == ':' && w.depth == 1 && !w.in_value {
        Walk { pos: w.pos + 1, in_value: true, from: w.pos + 1, ..w }
    } else if c == ',' && w.depth == 1 {
        Walk {
            pos: w.pos + 1,
            at_key: w.outer == Outer::Object,
            in_value: w.outer == Outer::Array,
            from: w.pos + 1,
            spans: closed_spans(w),
            ..w
        }
    } else {
        Walk { pos: w.pos + 1, ..w }
    }
}

/// The walk over a text.
pub open spec fn walk(w: Walk, text: Seq<char>) -> Walk
    decreases text.len(),
{
    if text.len() == 0 {
        w
    } else {
        step(walk(w, text.drop_last()), text.last())
    }
}

/// The parts of a text between the given places.
pub open spec fn parts(text: Seq<char>, spans: Seq<(nat, nat)>) -> Seq<Seq<char>> {
    Seq::new(spans.len(), |i: int| text.subrange(spans[i].0 as int, spans[i].1 as int))
}

/// The text that a JSON text holds, if that is what it holds.
pub open spec fn literal_text(literal: Seq<char>) -> Option<Seq<char>> {
    match json_value(literal) {
        Some(Json::Text(t)) => Some(t),
        _ => None,
    }
}

/// The value that a JSON text holds as the one item of an array.
pub open spec fn inner_value(part: Seq<char>) -> Option<Json> {
    match json_value(seq!['['] + part + seq![']']) {
        Some(Json::Array(items)) => if items.len() == 1 {
            Some(items[0])
        } else {
            None
        },
        _ => None,
    }
}

/// Whether one of the members has the key.
pub open spec fn gives(m: Members, key: Seq<char>) -> bool {
    exists|i: int| 0 <= i < m.len() && (#[trigger] m[i]).0 == key
}

/// The members with one of the names, from the texts of keys and values; none at
/// all where a key cannot be read, or a value with such a name cannot, or a name
/// is given twice.
pub open spec fn named_members(
    keys: Seq<Seq<char>>,
    values: Seq<Seq<char>>,
    names: Seq<Seq<char>>,
) -> Option<Members>
    decreases keys.len(),
{
    if keys.len() != values.len() {
        None
    } else if keys.len() == 0 {
        Some(Seq::empty())
    } else {
        match (
            named_members(keys.drop_last(), values.drop_last(), names),
            literal_text(keys.last()),
        ) {
            (Some(m), Some(key)) => if !names.contains(key) {
                Some(m)
            } else if gives(m, key) {
                None
            } else {
                match inner_value(values.last()) {
                    Some(v) => Some(m.push((key, v))),
                    None => None,
                }
            },
            _ => None,
        }
    }
}

/// The items that texts hold; none at all where one cannot be read.
pub open spec fn items_of(values: Seq<Seq<char>>) -> Option<Seq<Json>>
    decreases values.len(),
{
    if values.len() == 0 {
        Some(Seq::empty())
    } else {
        match (items_of(values.drop_last()), inner_value(values.last())) {
            (Some(items), Some(v)) => Some(items.push(v)),
            _ => None,
        }
    }
}

/// The texts of an array's items: none where only white space stands between
/// its brackets.
pub open spec fn item_texts(values: Seq<Seq<char>>) -> Seq<Seq<char>> {
    if values.len() == 1 && is_blank(values[0]) {
        Seq::empty()
    } else {
        values
    }
}

/// The fields of the given names that a JSON text gives, as an object that holds
/// nothing else, or as an array.
pub open spec fn fields_of(text: Seq<char>, names: Seq<Seq<char>>) -> Result<Json, FieldsError> {
    let w = walk(start(), text);
    let values = parts(text, w.spans);
    if !well_formed(text) {
        Err(FieldsError::NotJson)
    } else {
        match w.outer {
            Outer::Plain => Err(FieldsError::NotFields),
            Outer::Object => match named_members(w.keys, values, names) {
                Some(m) => Ok(Json::Object(m)),
                None => Err(FieldsError::NotFields),
            },
            Outer::Array => match items_of(item_texts(values)) {
                Some(items) => Ok(Json::Array(items)),
                None => Err(FieldsError::NotFields),
            },
        }
    }
}

/// The characters of names.
pub open spec fn names_of(names: Seq<&'static str>) -> Seq<Seq<char>> {
    Seq::new(names.len(), |i: int| names[i]@)
}

/// The members with one of the names.
pub open spec fn named(m: Members, names: Seq<Seq<char>>) -> Members
    decreases m.len(),
{
    if m.len() == 0 {
        Seq::empty()
    } else if names.contains(m.last().0) {
        named(m.drop_last(), names).push(m.last())
    } else {
        named(m.drop_last(), names)
    }
}

/// Whether the text of an object with these members gives the named ones back:
/// each name occurs once and its value is kept, and the others are JSON.
pub open spec fn gives_back(m: Members, names: Seq<Seq<char>>) -> bool {
    &&& forall|i: int| 0 <= i < m.len() ==> is_written((#[trigger] m[i]).1)
    &&& forall|i: int|
        0 <= i < m.len() && names.contains((#[trigger] m[i]).0) ==> is_kept(m[i].1)
    &&& forall|i: int, k: int|
        0 <= i < k < m.len() && names.contains(m[k].0) ==> (#[trigger] m[i]).0 != (
        #[trigger] m[k]).0
}

// ── Reading the fields ─────────────────────────────────────────────────────

/// The state of a walk, as it is held while a text is read.
struct Reader {
    pos: usize,
    depth: usize,
    outer: Outer,
    at_key: bool,
    in_text: bool,
    escaping: bool,
    literal: String,
    keys: Vec<String>,
    in_value: bool,
    from: usize,
    spans: Vec<(usize, usize)>,
}

impl View for Reader {
    type V = Walk;

    closed spec fn view(&self) -> Walk {
        Walk {
            pos: self.pos as nat,
            depth: self.depth as nat,
            outer: self.outer,
            at_key: self.at_key,
            in_text: self.in_text,
            escaping: self.escaping,
            literal: self.literal@,
            keys: self.keys.deep_view(),
            in_value: self.in_value,
            from: self.from as nat,
            spans: places(self.spans@),
        }
    }
}

/// The places that spans name.
spec fn places(spans: Seq<(usize, usize)>) -> Seq<(nat, nat)> {
    Seq::new(spans.len(), |i: int| (spans[i].0 as nat, spans[i].1 as nat))
}

impl Reader {
    /// Whether the reader stands no further than it has read.
    spec fn sound(&self) -> bool {
        &&& self.depth <= self.pos
        &&& self.from <= self.pos
        &&& forall|i: int|
            0 <= i < self.spans@.len() ==> (#[trigger] self.spans@[i]).0 <= self.spans@[i].1
                <= self.pos
    }

    fn take(&mut self, c: char)
        requires
            old(self).sound(),
            old(self).pos < usize::MAX,
        ensures
            final(self).sound(),
            final(self)@ == step(old(self)@, c),
    {
        if self.in_text {
            self.take_in_text(c);
        } else if c == '"' {
            self.in_text = true;
            self.literal = String::new();
            self.literal.push(c);
            assert(self.literal@ =~= seq![c]);
            self.pos = self.pos + 1;
        } else if c == '{' || c == '[' {
            if self.depth == 0 {
                self.outer = if c == '{' {
                    Outer::Object
                } else {
                    Outer::Array
                };
                self.at_key = c == '{';
                self.in_value = c == '[';
                self.from = self.pos + 1;
            }
            self.depth = self.depth + 1;
            self.pos = self.pos + 1;
        } else if c == '}' || c == ']' {
            if self.depth == 1 {
                self.close_value();
                self.in_value = false;
            }
            if self.depth > 0 {
                self.depth = self.depth - 1;
            }
            self.pos = self.pos + 1;
        } else if c == ':' && self.depth == 1 && !self.in_value {
            self.in_value = true;
            self.from = self.pos + 1;
            self.pos = self.pos + 1;
        } else if c == ',' && self.depth == 1 {
            self.close_value();
            self.at_key = self.outer == Outer::Object;
            self.in_value = self.outer == Outer::Array;
            self.from = self.pos + 1;
            self.pos = self.pos + 1;
        } else {
            self.pos = self.pos + 1;
        }
    }

    fn take_in_text(&mut self, c: char)
        requires
            old(self).sound(),
            old(self).pos < usize::MAX,
        ensures
            final(self).sound(),
            final(self)@ == text_step(old(self)@, c),
    {
        let ghost was = self@;
        self.literal.push(c);
        assert(self.literal@ =~= was.literal.push(c));
        if self.escaping {
            self.escaping = false;
        } else if c == '\\' {
            self.escaping = true;
        } else if c == '"' {
            self.in_text = false;
            if self.at_key {
                self.at_key = false;
                let literal = self.literal.clone();
                self.keys.push(literal);
                assert(self.keys.deep_view() =~= was.keys.push(literal@));
            }
        }
        self.pos = self.pos + 1;
    }

    fn close_value(&mut self)
        requires
            old(self).sound(),
        ensures
            final(self).sound(),
            final(self)@ == (Walk { spans: closed_spans(old(self)@), ..old(self)@ }),
            final(self).pos == old(self).pos,
            final(self).depth == old(self).depth,
            final(self).in_value == old(self).in_value,
    {
        let ghost was = self@;
        if self.in_value {
            self.spans.push((self.from, self.pos));
            assert(places(self.spans@) =~= was.spans.push((was.from, was.pos)));
        }
    }
}

/// What a JSON text is on the outside, and the texts of the keys and values that
/// stand there.
pub fn values_of(text: &str) -> (r: (Outer, Vec<String>, Vec<String>))
    ensures
        ({
            let w = walk(start(), text@);
            &&& r.0 == w.outer
            &&& r.1.deep_view() == w.keys
            &&& r.2.deep_view() == parts(text@, w.spans)
        }),
{
    let chars = chars_of(text);
    let mut reader = Reader {
        pos: 0,
        depth: 0,
        outer: Outer::Plain,
        at_key: false,
        in_text: false,
        escaping: false,
        literal: String::new(),
        keys: Vec::new(),
        in_value: false,
        from: 0,
        spans: Vec::new(),
    };
    assert(reader.keys.deep_view() =~= Seq::empty());
    assert(places(reader.spans@) =~= Seq::empty());
    assert(text@.subrange(0, 0) =~= Seq::empty());
    let mut i: usize = 0;
    while i < chars.len()
        invariant
            i <= chars@.len(),
            chars@ == text@,
            reader.sound(),
            reader.pos == i,
            reader@ == walk(start(), text@.subrange(0, i as int)),
        decreases chars@.len() - i,
    {
        let ghost upto = text@.subrange(0, i + 1);
        assert(upto.drop_last() =~= text@.subrange(0, i as int));
        proof {
            lemma_walk_pos(start(), upto);
        }
        reader.take(chars[i]);
        assert(reader@.pos == i + 1);
        i += 1;
    }
    assert(text@.subrange(0, i as int) =~= text@);
    let mut values: Vec<String> = Vec::new();
    let mut n: usize = 0;
    while n < reader.spans.len()
        invariant
            n <= reader.spans@.len(),
            chars@ == text@,
            reader.sound(),
            reader.pos == chars@.len(),
            values@.len() == n,
            forall|k: int|
                0 <= k < n ==> (#[trigger] values@[k])@ == text@.subrange(
                    reader.spans@[k].0 as int,
                    reader.spans@[k].1 as int,
                ),
        decreases reader.spans@.len() - n,
    {
        let (from, to) = reader.spans[n];
        assert(from <= to <= reader.pos);
        values.push(text_of(&chars, from, to));
        n += 1;
    }
    assert(values.deep_view() =~= parts(text@, places(reader.spans@)));
    (reader.outer, reader.keys, values)
}

/// The value that a JSON text holds as the one item of an array.
fn read_value(part: &str) -> (r: Option<Payload>)
    ensures
        r.deep_view() == inner_value(part@),
        forall|j: Json|
            part@ == #[trigger] json_text(j) && is_kept(j) ==> inner_value(part@) == Some(j),
{
    let mut text = String::new();
    text.push('[');
    text.append(part);
    text.push(']');
    assert(text@ =~= seq!['['] + part@ + seq![']']);
    match read_json(text.as_str()) {
        Ok(Payload::Array(mut items)) => {
            let ghost all = json_of(Payload::Array(items))->Array_0;
            if items.len() == 1 {
                assert(all[0] == items@[0]@);
                items.pop()
            } else {
                None
            }
        },
        _ => None,
    }
}

/// Whether the key is one of the names.
fn among(names: &[&'static str], key: &str) -> (r: bool)
    ensures
        r == names_of(names@).contains(key@),
{
    let ghost all = names_of(names@);
    let mut i: usize = 0;
    while i < names.len()
        invariant
            i <= names@.len(),
            all == names_of(names@),
            forall|k: int| 0 <= k < i ==> #[trigger] all[k] != key@,
        decreases names@.len() - i,
    {
        if same(names[i], key) {
            assert(all[i as int] == key@);
            return true;
        }
        i += 1;
    }
    false
}

/// The members that pairs hold.
spec fn members_of(v: Seq<(String, Payload)>) -> Members {
    Seq::new(v.len(), |i: int| (v[i].0@, v[i].1@))
}

/// Whether one of the members has the key.
fn holds(members: &Vec<(String, Payload)>, key: &str) -> (r: bool)
    ensures
        r == gives(members_of(members@), key@),
{
    let ghost m = members_of(members@);
    let mut i: usize = 0;
    while i < members.len()
        invariant
            i <= members@.len(),
            m == members_of(members@),
            forall|k: int| 0 <= k < i ==> (#[trigger] m[k]).0 != key@,
        decreases members@.len() - i,
    {
        if same(members[i].0.as_str(), key) {
            assert(m[i as int].0 == key@);
            return true;
        }
        i += 1;
    }
    false
}

/// Whether the texts are those of the keys and values of the members.
spec fn writes(keys: Seq<Seq<char>>, values: Seq<Seq<char>>, m: Members) -> bool {
    &&& keys == written_keys(m)
    &&& values.len() == m.len()
    &&& forall|i: int| 0 <= i < m.len() ==> #[trigger] values[i] == json_text(m[i].1)
}

/// The members with one of the names.
fn read_members(keys: &Vec<String>, values: &Vec<String>, names: &[&'static str]) -> (r: Option<
    Vec<(String, Payload)>,
>)
    ensures
        match named_members(keys.deep_view(), values.deep_view(), names_of(names@)) {
            Some(m) => r is Some && members_of(r->0@) == m,
            None => r is None,
        },
        forall|m: Members| #[trigger]
            writes(keys.deep_view(), values.deep_view(), m) && gives_back(m, names_of(names@))
                ==> r is Some && members_of(r->0@) == named(m, names_of(names@)),
{
    let ghost ks = keys.deep_view();
    let ghost vs = values.deep_view();
    let ghost ns = names_of(names@);
    if keys.len() != values.len() {
        return None;
    }
    let mut out: Vec<(String, Payload)> = Vec::new();
    assert(members_of(out@) =~= Seq::empty());
    assert(ks.subrange(0, 0) =~= Seq::empty());
    let mut i: usize = 0;
    proof {
        assert forall|m: Members| #[trigger] writes(ks, vs, m) && gives_back(m, ns) implies named(
            m.subrange(0, 0),
            ns,
        ) == members_of(out@) by {
            assert(m.subrange(0, 0) =~= Seq::empty());
        }
    }
    while i < keys.len()
        invariant
            i <= keys@.len() == values@.len(),
            ks == keys.deep_view(),
            vs == values.deep_view(),
            ns == names_of(names@),
            named_members(ks.subrange(0, i as int), vs.subrange(0, i as int), ns) == Some(
                members_of(out@),
            ),
            forall|m: Members| #[trigger]
                writes(ks, vs, m) && gives_back(m, ns) ==> members_of(out@) == named(
                    m.subrange(0, i as int),
                    ns,
                ),
        decreases keys@.len() - i,
    {
        let ghost was = members_of(out@);
        let ghost upto = ks.subrange(0, i + 1);
        let ghost at = i as int;
        proof {
            assert(upto.drop_last() =~= ks.subrange(0, at));
            assert(vs.subrange(0, i + 1).drop_last() =~= vs.subrange(0, at));
            assert(upto.last() == keys@[at]@);
            assert(vs.subrange(0, i + 1).last() == values@[at]@);
            assert forall|m: Members| #[trigger]
                writes(ks, vs, m) && gives_back(m, ns) implies ks[at] == quoted(m[at].0)
                && quoted(m[at].0) == json_text(Json::Text(m[at].0)) && vs[at] == json_text(m[at].1)
                && !gives(was, m[at].0) && m.subrange(0, at + 1).drop_last() == m.subrange(0, at)
                && m.subrange(0, at + 1).last() == m[at] by {
                let head = m.subrange(0, at);
                assert(m.subrange(0, at + 1).drop_last() =~= head);
                if names_of(names@).contains(m[at].0) {
                    assert forall|k: int| 0 <= k < head.len() implies (#[trigger] head[k]).0
                        != m[at].0 by {
                        assert(m[k].0 != m[at].0);
                    }
                }
                lemma_named_keys(head, ns, m[at].0);
            }
        }
        let key = match read_json(keys[i].as_str()) {
            Ok(Payload::Text(t)) => t,
            _ => {
                proof {
                    lemma_no_members(ks, vs, ns, at + 1);
                }
                return None;
            },
        };
        if among(names, key.as_str()) {
            if holds(&out, key.as_str()) {
                proof {
                    lemma_no_members(ks, vs, ns, at + 1);
                }
                return None;
            }
            match read_value(values[i].as_str()) {
                Some(v) => {
                    let ghost pair = (key@, v@);
                    out.push((key, v));
                    assert(members_of(out@) =~= was.push(pair));
                },
                None => {
                    proof {
                        lemma_no_members(ks, vs, ns, at + 1);
                    }
                    return None;
                },
            }
        }
        i += 1;
    }
    proof {
        assert(ks.subrange(0, i as int) =~= ks);
        assert(vs.subrange(0, i as int) =~= vs);
        assert forall|m: Members| #[trigger] writes(ks, vs, m) && gives_back(m, ns) implies named(
            m,
            ns,
        ) == members_of(out@) by {
            assert(m.subrange(0, i as int) =~= m);
        }
    }
    Some(out)
}

/// The items that texts hold.
fn read_items(values: &Vec<String>) -> (r: Option<Vec<Payload>>)
    ensures
        r.deep_view() == items_of(values.deep_view()),
{
    let ghost vs = values.deep_view();
    let mut out: Vec<Payload> = Vec::new();
    assert(out.deep_view() =~= Seq::empty());
    assert(vs.subrange(0, 0) =~= Seq::empty());
    let mut i: usize = 0;
    while i < values.len()
        invariant
            i <= values@.len(),
            vs == values.deep_view(),
            items_of(vs.subrange(0, i as int)) == Some(out.deep_view()),
        decreases values@.len() - i,
    {
        let ghost was = out.deep_view();
        let ghost upto = vs.subrange(0, i + 1);
        assert(upto.drop_last() =~= vs.subrange(0, i as int));
        assert(upto.last() == values@[i as int]@);
        match read_value(values[i].as_str()) {
            Some(v) => {
                let ghost item = v@;
                out.push(v);
                assert(out.deep_view() =~= was.push(item));
            },
            None => {
                proof {
                    lemma_no_items(vs, i + 1);
                }
                return None;
            },
        }
        i += 1;
    }
    assert(vs.subrange(0, i as int) =~= vs);
    Some(out)
}

/// The fields of the given names that a JSON text gives. The text of an object
/// that was written with each of the names at most once gives them back,
/// whatever else it holds.
pub(crate) fn read_fields(text: &str, names: &[&'static str]) -> (r: Result<Payload, FieldsError>)
    ensures
        match fields_of(text@, names_of(names@)) {
            Ok(j) => r is Ok && r->Ok_0@ == j,
            Err(e) => r == Err::<Payload, FieldsError>(e),
        },
        forall|m: Members|
            text@ == #[trigger] object_text(m) && gives_back(m, names_of(names@)) ==> r is Ok
                && r->Ok_0@ == Json::Object(named(m, names_of(names@))),
{
    let ghost ns = names_of(names@);
    if !is_well_formed(text) {
        return Err(FieldsError::NotJson);
    }
    let (outer, keys, values) = values_of(text);
    proof {
        assert forall|m: Members|
            text@ == #[trigger] object_text(m) && gives_back(m, ns) implies outer == Outer::Object
            && writes(keys.deep_view(), values.deep_view(), m) by {
            assert forall|i: int| 0 <= i < m.len() implies valid((#[trigger] m[i]).1) by {
                assert(is_written(m[i].1));
            }
            lemma_walk_object(m);
        }
    }
    match outer {
        Outer::Plain => Err(FieldsError::NotFields),
        Outer::Object => match read_members(&keys, &values, names) {
            Some(members) => {
                let ghost m = members_of(members@);
                let r = Payload::Object(members);
                assert(r@->Object_0 =~= m);
                Ok(r)
            },
            None => Err(FieldsError::NotFields),
        },
        Outer::Array => {
            if values.len() == 1 && blank(values[0].as_str()) {
                let r = Payload::Array(Vec::new());
                assert(r@->Array_0 =~= Seq::empty());
                return Ok(r);
            }
            match read_items(&values) {
                Some(items) => {
                    let ghost all = items.deep_view();
                    let r = Payload::Array(items);
                    assert(r@->Array_0 =~= all);
                    Ok(r)
                },
                None => Err(FieldsError::NotFields),
            }
        },
    }
}

proof fn lemma_no_members(
    keys: Seq<Seq<char>>,
    values: Seq<Seq<char>>,
    names: Seq<Seq<char>>,
    n: int,
)
    requires
        0 <= n <= keys.len() == values.len(),
        named_members(keys.subrange(0, n), values.subrange(0, n), names) is None,
    ensures
        named_members(keys, values, names) is None,
    decreases keys.len() - n,
{
    if n == keys.len() {
        assert(keys.subrange(0, n) =~= keys);
        assert(values.subrange(0, n) =~= values);
    } else {
        assert(keys.subrange(0, n + 1).drop_last() =~= keys.subrange(0, n));
        assert(values.subrange(0, n + 1).drop_last() =~= values.subrange(0, n));
        lemma_no_members(keys, values, names, n + 1);
    }
}

proof fn lemma_no_items(values: Seq<Seq<char>>, n: int)
    requires
        0 <= n <= values.len(),
        items_of(values.subrange(0, n)) is None,
    ensures
        items_of(values) is None,
    decreases values.len() - n,
{
    if n == values.len() {
        assert(values.subrange(0, n) =~= values);
    } else {
        assert(values.subrange(0, n + 1).drop_last() =~= values.subrange(0, n));
        lemma_no_items(values, n + 1);
    }
}

/// The named members have no key that the members do not have, and none that is
/// no name.
proof fn lemma_named_keys(m: Members, names: Seq<Seq<char>>, key: Seq<char>)
    requires
        !names.contains(key) || forall|i: int| 0 <= i < m.len() ==> (#[trigger] m[i]).0 != key,
    ensures
        !gives(named(m, names), key),
    decreases m.len(),
{
    if m.len() > 0 {
        let shorter = m.drop_last();
        assert(m[m.len() - 1] == m.last());
        assert forall|i: int| 0 <= i < shorter.len() implies shorter[i] == #[trigger] m[i] by {}
        if names.contains(key) {
            assert forall|i: int| 0 <= i < shorter.len() implies (#[trigger] shorter[i]).0 != key by {
                assert(m[i].0 != key);
            }
        }
        lemma_named_keys(shorter, names, key);
        if names.contains(m.last().0) {
            let rest = named(shorter, names);
            let all = rest.push(m.last());
            assert forall|i: int| 0 <= i < all.len() implies (#[trigger] all[i]).0 != key by {
                if i < rest.len() {
                    assert(rest[i].0 != key);
                }
            }
        }
    }
}

// ── The fields of a written object ─────────────────────────────────────────

/// Whether two walks stand alike, wherever that is and whatever text they read
/// last.
spec fn alike(a: Walk, b: Walk) -> bool {
    &&& a.depth == b.depth
    &&& a.outer == b.outer
    &&& a.at_key == b.at_key
    &&& a.in_text == b.in_text
    &&& a.escaping == b.escaping
    &&& a.keys == b.keys
    &&& a.in_value == b.in_value
    &&& a.from == b.from
    &&& a.spans == b.spans
}

/// Whether a walk stands before a value or behind one.
spec fn at_value(w: Walk) -> bool {
    &&& w.depth >= 1
    &&& !w.at_key
    &&& !w.in_text
    &&& !w.escaping
    &&& w.depth == 1 ==> w.in_value
}

proof fn lemma_walk_on(w: Walk, a: Seq<char>, b: Seq<char>)
    ensures
        walk(w, a + b) == walk(walk(w, a), b),
    decreases b.len(),
{
    if b.len() == 0 {
        assert(a + b =~= a);
    } else {
        assert((a + b).drop_last() =~= a + b.drop_last());
        lemma_walk_on(w, a, b.drop_last());
    }
}

proof fn lemma_walk_pos(w: Walk, s: Seq<char>)
    ensures
        walk(w, s).pos == w.pos + s.len(),
    decreases s.len(),
{
    if s.len() > 0 {
        lemma_walk_pos(w, s.drop_last());
    }
}

proof fn lemma_walk_char(w: Walk, c: char)
    ensures
        walk(w, seq![c]) == step(w, c),
{
    reveal_with_fuel(walk, 2);
    assert(seq![c].drop_last() =~= Seq::empty());
}

proof fn lemma_walk_escape(w: Walk, c: char)
    requires
        w.in_text,
        !w.escaping,
    ensures
        walk(w, escape(c)) == (Walk {
            pos: w.pos + escape(c).len(),
            literal: w.literal + escape(c),
            ..w
        }),
{
    let e = escape(c);
    reveal_with_fuel(walk, 7);
    if e.len() == 1 {
        assert(e.drop_last() =~= Seq::empty());
        assert(w.literal + e =~= w.literal.push(c));
    } else if e.len() == 2 {
        let e1 = e.drop_last();
        assert(e1 =~= seq!['\\']);
        assert(e1.drop_last() =~= Seq::empty());
        assert(w.literal + e =~= w.literal.push(e[0]).push(e[1]));
    } else {
        let e5 = e.drop_last();
        let e4 = e5.drop_last();
        let e3 = e4.drop_last();
        let e2 = e3.drop_last();
        let e1 = e2.drop_last();
        assert(e1 =~= seq!['\\']);
        assert(e1.drop_last() =~= Seq::empty());
        assert(e.len() == 6);
        assert(e[1] == 'u' && e[2] == '0' && e[3] == '0');
        let n = c as int;
        assert(0 <= n < 0x20);
        assert(e[4] != '"' && e[4] != '\\' && e[5] != '"' && e[5] != '\\');
        assert(w.literal + e =~= w.literal.push(e[0]).push(e[1]).push(e[2]).push(e[3]).push(
            e[4],
        ).push(e[5]));
    }
}

proof fn lemma_walk_escaped(w: Walk, s: Seq<char>)
    requires
        w.in_text,
        !w.escaping,
    ensures
        walk(w, escaped(s)) == (Walk {
            pos: w.pos + escaped(s).len(),
            literal: w.literal + escaped(s),
            ..w
        }),
    decreases s.len(),
{
    if s.len() == 0 {
        assert(w.literal + escaped(s) =~= w.literal);
    } else {
        let shorter = s.drop_last();
        lemma_walk_escaped(w, shorter);
        lemma_walk_on(w, escaped(shorter), escape(s.last()));
        lemma_walk_escape(walk(w, escaped(shorter)), s.last());
        assert(w.literal + escaped(shorter) + escape(s.last()) =~= w.literal + escaped(s));
    }
}

proof fn lemma_walk_quoted(w: Walk, s: Seq<char>)
    requires
        !w.in_text,
        !w.escaping,
    ensures
        w.at_key ==> alike(
            walk(w, quoted(s)),
            Walk { at_key: false, keys: w.keys.push(quoted(s)), ..w },
        ),
        !w.at_key ==> alike(walk(w, quoted(s)), w),
{
    let open = seq!['"'];
    let close = seq!['"'];
    lemma_walk_on(w, open + escaped(s), close);
    lemma_walk_on(w, open, escaped(s));
    lemma_walk_char(w, '"');
    let w1 = walk(w, open);
    lemma_walk_escaped(w1, s);
    let w2 = walk(w1, escaped(s));
    lemma_walk_char(w2, '"');
    assert(w2.literal.push('"') =~= quoted(s));
}

/// Whether a character opens, closes or parts nothing.
spec fn is_plain(c: char) -> bool {
    c != '"' && c != '{' && c != '}' && c != '[' && c != ']' && c != ',' && c != ':'
}

proof fn lemma_walk_plain(w: Walk, s: Seq<char>)
    requires
        !w.in_text,
        forall|i: int| 0 <= i < s.len() ==> is_plain(#[trigger] s[i]),
    ensures
        walk(w, s) == (Walk { pos: w.pos + s.len(), ..w }),
    decreases s.len(),
{
    if s.len() > 0 {
        assert(is_plain(s[s.len() - 1]));
        lemma_walk_plain(w, s.drop_last());
    }
}

proof fn lemma_decimal_is_plain(n: nat)
    ensures
        forall|i: int| 0 <= i < decimal(n).len() ==> is_plain(#[trigger] decimal(n)[i]),
    decreases n,
{
    let last = digit((n % 10) as int);
    assert(48 <= last as int <= 57);
    if n >= 10 {
        lemma_decimal_is_plain(n / 10);
        let head = decimal(n / 10);
        assert(decimal(n) =~= head.push(last));
        assert forall|i: int| 0 <= i < decimal(n).len() implies is_plain(
            #[trigger] decimal(n)[i],
        ) by {
            if i < head.len() {
                assert(is_plain(head[i]));
            }
        }
    } else {
        assert(decimal(n) =~= seq![last]);
    }
}

proof fn lemma_walk_value(w: Walk, j: Json)
    requires
        at_value(w),
        valid(j),
    ensures
        alike(walk(w, json_text(j)), w),
    decreases j,
{
    match j {
        Json::Null => {
            reveal_strlit("null");
            lemma_walk_plain(w, "null"@);
        },
        Json::Bool(_) => {
            reveal_strlit("true");
            reveal_strlit("false");
            lemma_walk_plain(w, json_text(j));
        },
        Json::UInt(n) => {
            lemma_decimal_is_plain(n as nat);
            lemma_walk_plain(w, json_text(j));
        },
        Json::Int(n) => {
            lemma_decimal_is_plain((-n) as nat);
            lemma_walk_plain(w, json_text(j));
        },
        Json::Float(t) => {
            assert forall|i: int| 0 <= i < t.len() implies is_plain(#[trigger] t[i]) by {
                assert(is_number_char(t[i]));
            }
            lemma_walk_plain(w, t);
        },
        Json::Text(t) => lemma_walk_quoted(w, t),
        Json::Array(items) => {
            lemma_walk_on(w, seq!['['] + items_text(items), seq![']']);
            lemma_walk_on(w, seq!['['], items_text(items));
            lemma_walk_char(w, '[');
            let w1 = walk(w, seq!['[']);
            lemma_walk_items(w1, items);
            lemma_walk_char(walk(w1, items_text(items)), ']');
        },
        Json::Object(m) => {
            lemma_walk_on(w, seq!['{'] + members_text(m), seq!['}']);
            lemma_walk_on(w, seq!['{'], members_text(m));
            lemma_walk_char(w, '{');
            let w1 = walk(w, seq!['{']);
            lemma_walk_members(w1, m);
            lemma_walk_char(walk(w1, members_text(m)), '}');
        },
    }
}

proof fn lemma_walk_items(w: Walk, items: Seq<Json>)
    requires
        at_value(w),
        w.depth >= 2,
        forall|i: int| 0 <= i < items.len() ==> valid(#[trigger] items[i]),
    ensures
        alike(walk(w, items_text(items)), w),
    decreases items,
{
    if items.len() == 1 {
        assert(valid(items[0]));
        lemma_walk_value(w, items[0]);
    } else if items.len() > 1 {
        let shorter = items.drop_last();
        assert(valid(items[items.len() - 1]));
        lemma_walk_items(w, shorter);
        lemma_walk_on(w, items_text(shorter) + seq![','], json_text(items.last()));
        lemma_walk_on(w, items_text(shorter), seq![',']);
        let w1 = walk(w, items_text(shorter));
        lemma_walk_char(w1, ',');
        lemma_walk_value(walk(w1, seq![',']), items.last());
    }
}

proof fn lemma_walk_members(w: Walk, m: Members)
    requires
        at_value(w),
        w.depth >= 2,
        forall|i: int| 0 <= i < m.len() ==> valid((#[trigger] m[i]).1),
    ensures
        alike(walk(w, members_text(m)), w),
    decreases m,
{
    if m.len() == 1 {
        lemma_walk_member(w, m[0].0, m[0].1);
        assert(valid(m[0].1));
        let w1 = walk(w, quoted(m[0].0) + seq![':']);
        lemma_walk_value(w1, m[0].1);
    } else if m.len() > 1 {
        let shorter = m.drop_last();
        let (key, value) = m.last();
        assert(valid(m[m.len() - 1].1));
        lemma_walk_members(w, shorter);
        lemma_walk_on(
            w,
            members_text(shorter) + seq![','],
            quoted(key) + seq![':'] + json_text(value),
        );
        lemma_walk_on(w, members_text(shorter), seq![',']);
        let w1 = walk(w, members_text(shorter));
        lemma_walk_char(w1, ',');
        let w2 = walk(w1, seq![',']);
        lemma_walk_member(w2, key, value);
        lemma_walk_value(walk(w2, quoted(key) + seq![':']), value);
    }
}

proof fn lemma_walk_member(w: Walk, key: Seq<char>, value: Json)
    requires
        !w.in_text,
        !w.escaping,
    ensures
        walk(w, quoted(key) + seq![':'] + json_text(value)) == walk(
            walk(w, quoted(key) + seq![':']),
            json_text(value),
        ),
        w.at_key && w.depth == 1 && !w.in_value ==> alike(
            walk(w, quoted(key) + seq![':']),
            Walk {
                at_key: false,
                keys: w.keys.push(quoted(key)),
                in_value: true,
                from: w.pos + quoted(key).len() + 1,
                ..w
            },
        ),
        !w.at_key && w.depth >= 2 ==> alike(walk(w, quoted(key) + seq![':']), w),
{
    lemma_walk_on(w, quoted(key) + seq![':'], json_text(value));
    lemma_walk_on(w, quoted(key), seq![':']);
    lemma_walk_quoted(w, key);
    lemma_walk_pos(w, quoted(key));
    lemma_walk_char(walk(w, quoted(key)), ':');
}

/// The keys of members, as they are written.
spec fn written_keys(m: Members) -> Seq<Seq<char>> {
    Seq::new(m.len(), |i: int| quoted(m[i].0))
}

/// Where the last value begins in the text of an object with these members.
spec fn last_from(m: Members) -> nat {
    (1 + members_text(m).len() - json_text(m.last().1).len()) as nat
}

/// Where the values begin and end in the text of an object with these members.
spec fn written_spans(m: Members) -> Seq<(nat, nat)>
    decreases m.len(),
{
    if m.len() == 0 {
        Seq::empty()
    } else {
        written_spans(m.drop_last()).push((last_from(m), 1 + members_text(m).len()))
    }
}

proof fn lemma_walk_outer_members(w: Walk, m: Members)
    requires
        w.pos == 1,
        w.depth == 1,
        w.outer == Outer::Object,
        w.at_key,
        !w.in_text,
        !w.escaping,
        !w.in_value,
        w.keys.len() == 0,
        w.spans.len() == 0,
        m.len() > 0,
        forall|i: int| 0 <= i < m.len() ==> valid((#[trigger] m[i]).1),
    ensures
        alike(
            walk(w, members_text(m)),
            Walk {
                at_key: false,
                keys: written_keys(m),
                in_value: true,
                from: last_from(m),
                spans: written_spans(m.drop_last()),
                ..w
            },
        ),
    decreases m.len(),
{
    let shorter = m.drop_last();
    let (key, value) = m.last();
    assert(valid(m[m.len() - 1].1));
    if m.len() == 1 {
        lemma_walk_member(w, key, value);
        lemma_walk_value(walk(w, quoted(key) + seq![':']), value);
        assert(w.keys.push(quoted(key)) =~= written_keys(m));
        assert(w.spans =~= written_spans(shorter));
        assert(last_from(m) == 1 + quoted(key).len() + 1);
    } else {
        lemma_walk_outer_members(w, shorter);
        lemma_walk_on(
            w,
            members_text(shorter) + seq![','],
            quoted(key) + seq![':'] + json_text(value),
        );
        lemma_walk_on(w, members_text(shorter), seq![',']);
        let w1 = walk(w, members_text(shorter));
        lemma_walk_pos(w, members_text(shorter));
        lemma_walk_char(w1, ',');
        let w2 = walk(w1, seq![',']);
        lemma_walk_member(w2, key, value);
        lemma_walk_value(walk(w2, quoted(key) + seq![':']), value);
        assert(written_keys(shorter).push(quoted(key)) =~= written_keys(m));
        assert(last_from(m) == w2.pos + quoted(key).len() + 1);
    }
}

proof fn lemma_span_of_a_member(m: Members, more: Seq<char>, i: int)
    requires
        0 <= i < m.len(),
    ensures
        written_spans(m).len() == m.len(),
        ({
            let (from, to) = written_spans(m)[i];
            &&& from <= to <= 1 + members_text(m).len()
            &&& (seq!['{'] + members_text(m) + more).subrange(from as int, to as int)
                == json_text(m[i].1)
        }),
    decreases m.len(),
{
    let shorter = m.drop_last();
    let (key, value) = m.last();
    let whole = seq!['{'] + members_text(m) + more;
    let named = quoted(key) + seq![':'] + json_text(value);
    lemma_spans_len(m);
    lemma_spans_len(shorter);
    if i == m.len() - 1 {
        assert(m.len() > 1 ==> members_text(m) == members_text(shorter) + seq![','] + named);
        assert(m.len() == 1 ==> members_text(m) == named);
        assert(whole.subrange(last_from(m) as int, 1 + members_text(m).len() as int) =~= json_text(
            value,
        ));
    } else {
        let rest = seq![','] + named + more;
        lemma_span_of_a_member(shorter, rest, i);
        assert(members_text(m) == members_text(shorter) + seq![','] + named);
        assert(whole =~= seq!['{'] + members_text(shorter) + rest);
        assert(shorter[i] == m[i]);
    }
}

proof fn lemma_spans_len(m: Members)
    ensures
        written_spans(m).len() == m.len(),
    decreases m.len(),
{
    if m.len() > 0 {
        lemma_spans_len(m.drop_last());
    }
}

proof fn lemma_walk_object(m: Members)
    requires
        forall|i: int| 0 <= i < m.len() ==> valid((#[trigger] m[i]).1),
    ensures
        ({
            let w = walk(start(), object_text(m));
            let values = parts(object_text(m), w.spans);
            &&& w.outer == Outer::Object
            &&& w.keys == written_keys(m)
            &&& values.len() == m.len()
            &&& forall|i: int| 0 <= i < m.len() ==> #[trigger] values[i] == json_text(m[i].1)
        }),
{
    let w = start();
    let text = object_text(m);
    lemma_walk_on(w, seq!['{'] + members_text(m), seq!['}']);
    lemma_walk_on(w, seq!['{'], members_text(m));
    lemma_walk_char(w, '{');
    let w1 = walk(w, seq!['{']);
    let w2 = walk(w1, members_text(m));
    lemma_walk_pos(w1, members_text(m));
    lemma_walk_char(w2, '}');
    lemma_spans_len(m);
    if m.len() == 0 {
        assert(written_keys(m) =~= Seq::empty());
    } else {
        lemma_walk_outer_members(w1, m);
    }
    let spans = walk(w, text).spans;
    assert(spans == written_spans(m));
    let values = parts(text, spans);
    assert forall|i: int| 0 <= i < m.len() implies #[trigger] values[i] == json_text(m[i].1) by {
        lemma_span_of_a_member(m, seq!['}'], i);
    }
}

} // verus!
