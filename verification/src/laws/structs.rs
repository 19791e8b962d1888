//! The fields that a JSON text gives to a struct.

use crate::fields::{
    fields_of, inner_value, item_texts, items_of, named, named_members, parts, start, step, walk,
    FieldsError, Outer, Walk,
};
use crate::payload::{json_value, well_formed, Json, Members};
use crate::text::is_blank;
use vstd::prelude::*;

verus! {

/// The named members are those with one of the names, in their order.
pub proof fn named_members_are_picked(m: Members, names: Seq<Seq<char>>)
    ensures
        named(m, names) == m.filter(|e: (Seq<char>, Json)| names.contains(e.0)),
    decreases m.len(),
{
    reveal(Seq::filter);
    if m.len() > 0 {
        named_members_are_picked(m.drop_last(), names);
    }
}

/// A member without one of the names is skipped, whatever its value. One with a
/// name is taken up where its value can be read and the name was not given
/// before; otherwise nothing can be read at all, nor can it where a key is no
/// text.
pub proof fn members_are_taken_up_once(
    keys: Seq<Seq<char>>,
    values: Seq<Seq<char>>,
    names: Seq<Seq<char>>,
    key: Seq<char>,
    value: Seq<char>,
    name: Seq<char>,
)
    requires
        keys.len() == values.len(),
    ensures
        ({
            let earlier = named_members(keys, values, names);
            let all = named_members(keys.push(key), values.push(value), names);
            &&& keys.len() == 0 ==> earlier == Some(Seq::<(Seq<char>, Json)>::empty())
            &&& earlier is None ==> all is None
            &&& json_value(key) is None || !(json_value(key)->0 is Text) ==> all is None
            &&& json_value(key) == Some(Json::Text(name)) && earlier is Some ==> {
                let m = earlier->0;
                let twice = exists|i: int| 0 <= i < m.len() && (#[trigger] m[i]).0 == name;
                &&& !names.contains(name) ==> all == earlier
                &&& names.contains(name) && twice ==> all is None
                &&& names.contains(name) && inner_value(value) is None ==> all is None
                &&& names.contains(name) && !twice && inner_value(value) is Some ==> all == Some(
                    m.push((name, inner_value(value)->0)),
                )
            }
        }),
        named_members(keys, values.push(value), names) is None,
{
    assert(keys.push(key).drop_last() =~= keys);
    assert(values.push(value).drop_last() =~= values);
}

/// A part is read as the one item of an array.
pub proof fn a_part_is_read_as_an_item(part: Seq<char>, item: Json)
    ensures
        ({
            let read = json_value("["@ + part + "]"@);
            &&& read == Some(Json::Array(seq![item])) ==> inner_value(part) == Some(item)
            &&& read is None || !(read->0 is Array) || read->0->Array_0.len() != 1
                ==> inner_value(part) is None
        }),
{
    reveal_strlit("[");
    reveal_strlit("]");
    assert("["@ =~= seq!['[']);
    assert("]"@ =~= seq![']']);
}

/// The items of an array are read one by one, and not at all where one cannot be
/// read. Between its brackets an array may be blank.
pub proof fn items_are_read_one_by_one(values: Seq<Seq<char>>, value: Seq<char>)
    ensures
        items_of(Seq::empty()) == Some(Seq::<Json>::empty()),
        items_of(values) is None || inner_value(value) is None ==> items_of(values.push(value))
            is None,
        items_of(values) is Some && inner_value(value) is Some ==> items_of(values.push(value))
            == Some(items_of(values)->0.push(inner_value(value)->0)),
        is_blank(value) ==> item_texts(seq![value]).len() == 0,
        !is_blank(value) ==> item_texts(seq![value]) == seq![value],
        values.len() != 1 ==> item_texts(values) == values,
{
    assert(values.push(value).drop_last() =~= values);
}

/// A text that is no JSON is refused as such. Any other gives fields only as an
/// object or as an array: an object those of its members that have one of the
/// names, an array its items.
pub proof fn fields_are_read_from_objects_and_arrays(text: Seq<char>, names: Seq<Seq<char>>)
    ensures
        !well_formed(text) <==> fields_of(text, names) == Err::<Json, FieldsError>(
            FieldsError::NotJson,
        ),
        well_formed(text) ==> {
            let w = walk(start(), text);
            let values = parts(text, w.spans);
            &&& w.outer == Outer::Plain ==> fields_of(text, names) is Err
            &&& w.outer == Outer::Object ==> (fields_of(text, names) is Ok <==> named_members(
                w.keys,
                values,
                names,
            ) is Some)
            &&& w.outer == Outer::Object && fields_of(text, names) is Ok ==> fields_of(
                text,
                names,
            )->Ok_0 == Json::Object(named_members(w.keys, values, names)->0)
            &&& w.outer == Outer::Array ==> (fields_of(text, names) is Ok <==> items_of(
                item_texts(values),
            ) is Some)
            &&& w.outer == Outer::Array && fields_of(text, names) is Ok ==> fields_of(
                text,
                names,
            )->Ok_0 == Json::Array(items_of(item_texts(values))->0)
        },
{
}

/// A walk takes a text character by character.
pub proof fn a_walk_goes_by_characters(w: Walk, text: Seq<char>, c: char)
    ensures
        walk(w, Seq::empty()) == w,
        walk(w, text.push(c)) == step(walk(w, text), c),
        step(w, c).pos == w.pos + 1,
        start().pos == 0 && start().depth == 0 && start().outer == Outer::Plain,
        start().keys.len() == 0 && start().spans.len() == 0 && start().literal.len() == 0,
        !start().at_key && !start().in_text && !start().escaping && !start().in_value,
{
    assert(text.push(c).drop_last() =~= text);
}

/// Inside a text every character belongs to it, up to the quote that no backslash
/// escapes. At a key of the outermost object the text is that key.
pub proof fn a_text_ends_at_its_quote(w: Walk, c: char)
    requires
        w.in_text,
    ensures
        ({
            let v = step(w, c);
            &&& v.literal == w.literal.push(c)
            &&& v.depth == w.depth && v.outer == w.outer && v.in_value == w.in_value && v.from
                == w.from && v.spans == w.spans
            &&& v.in_text <==> w.escaping || c != '"'
            &&& v.escaping <==> !w.escaping && c == '\\'
            &&& v.in_text ==> v.keys == w.keys && v.at_key == w.at_key
            &&& !v.in_text && w.at_key ==> v.keys == w.keys.push(w.literal.push(c)) && !v.at_key
            &&& !v.in_text && !w.at_key ==> v.keys == w.keys && !v.at_key
        }),
{
}

/// Outside texts brackets open and close arrays and objects. The outermost says
/// what the whole is. A colon and commas part its keys and values, those inside
/// others do not.
pub proof fn brackets_and_commas_part_the_values(w: Walk, c: char)
    requires
        !w.in_text,
    ensures
        ({
            let v = step(w, c);
            let ended = if w.in_value {
                w.spans.push((w.from, w.pos))
            } else {
                w.spans
            };
            &&& v.keys == w.keys
            &&& v.escaping == w.escaping
            &&& v.in_text <==> c == '"'
            &&& c == '"' ==> v.literal == seq!['"']
            &&& c != '"' ==> v.literal == w.literal
            &&& c == '{' || c == '[' ==> v.depth == w.depth + 1 && v.spans == w.spans
            &&& c == '{' && w.depth == 0 ==> v.outer == Outer::Object && v.at_key && !v.in_value
            &&& c == '[' && w.depth == 0 ==> v.outer == Outer::Array && !v.at_key && v.in_value
                && v.from == w.pos + 1
            &&& c == '}' || c == ']' ==> v.depth == (if w.depth > 0 {
                w.depth - 1
            } else {
                0
            })
            &&& (c == '}' || c == ']') && w.depth == 1 ==> v.spans == ended && !v.in_value
            &&& c == ':' && w.depth == 1 && !w.in_value ==> v.in_value && v.from == w.pos + 1
                && v.spans == w.spans && v.depth == 1
            &&& c == ',' && w.depth == 1 ==> v.spans == ended && v.from == w.pos + 1 && v.depth == 1
                && (v.at_key <==> w.outer == Outer::Object) && (v.in_value <==> w.outer
                == Outer::Array)
            &&& w.depth > 0 ==> v.outer == w.outer
            &&& w.depth > 1 ==> v.spans == w.spans && v.in_value == w.in_value && v.from == w.from
                && v.at_key == w.at_key
            &&& c != '{' && c != '[' && c != '}' && c != ']' && c != ':' && c != ',' ==> v.depth
                == w.depth && v.outer == w.outer && v.spans == w.spans && v.in_value == w.in_value
                && v.from == w.from && v.at_key == w.at_key
        }),
{
}

} // verus!
