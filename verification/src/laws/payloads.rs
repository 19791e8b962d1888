//! Reading and writing JSON values.

use crate::payload::{
    field, fits, flag_member, items_text, json_text, lookup, member, member_or_null,
    members_text, object_text, optional_number, optional_text, optional_texts, quoted,
    text_member, text_member_or, Json, Members,
};
use crate::text::decimal;
use vstd::prelude::*;

verus! {

/// Whether the members give the key its value at place `i`: the first place at
/// which it stands.
pub open spec fn given_at(m: Members, key: Seq<char>, i: int) -> bool {
    &&& 0 <= i < m.len()
    &&& m[i].0 == key
    &&& forall|j: int| 0 <= j < i ==> (#[trigger] m[j]).0 != key
}

/// Whether no member has the key.
pub open spec fn not_given(m: Members, key: Seq<char>) -> bool {
    forall|j: int| 0 <= j < m.len() ==> (#[trigger] m[j]).0 != key
}

proof fn lemma_lookup(m: Members, key: Seq<char>, i: int)
    ensures
        given_at(m, key, i) ==> lookup(m, key) == Some(m[i].1),
        not_given(m, key) ==> lookup(m, key) is None,
    decreases m.len(),
{
    if m.len() > 0 {
        let rest = m.subrange(1, m.len() as int);
        assert forall|j: int| 0 <= j < rest.len() implies #[trigger] rest[j] == m[j + 1] by {}
        lemma_lookup(rest, key, i - 1);
        if given_at(m, key, i) && i > 0 {
            assert(m[0].0 != key);
            assert forall|j: int| 0 <= j < i - 1 implies (#[trigger] rest[j]).0 != key by {
                assert(m[j + 1].0 != key);
            }
            assert(given_at(rest, key, i - 1));
        }
        if not_given(m, key) {
            assert(m[0].0 != key);
            assert forall|j: int| 0 <= j < rest.len() implies (#[trigger] rest[j]).0 != key by {
                assert(m[j + 1].0 != key);
            }
        }
    }
}

/// An object gives for a key what stands with it first, and nothing where it
/// does not stand; a text is given where that is a text, a truth value where
/// that is one, null where there is nothing.
pub proof fn members_are_given_by_key(m: Members, key: Seq<char>, i: int)
    ensures
        given_at(m, key, i) ==> {
            let j = Json::Object(m);
            &&& member(j, key) == Some(m[i].1)
            &&& forall|index: int| #[trigger] field(j, key, index) == Some(m[i].1)
            &&& member_or_null(j, key) == m[i].1
            &&& forall|t: Seq<char>|
                m[i].1 == Json::Text(t) ==> #[trigger] text_member(j, key) == Some(t)
            &&& !(m[i].1 is Text) ==> text_member(j, key) is None
            &&& flag_member(j, key) == (m[i].1 == Json::Bool(true))
        },
        not_given(m, key) ==> {
            let j = Json::Object(m);
            &&& member(j, key) is None
            &&& forall|index: int| #[trigger] field(j, key, index) is None
            &&& text_member(j, key) is None
            &&& !flag_member(j, key)
            &&& member_or_null(j, key) == Json::Null
        },
{
    lemma_lookup(m, key, i);
}

/// Only an object has members.
pub proof fn only_objects_have_members(j: Json, key: Seq<char>, other: Seq<char>)
    requires
        !(j is Object),
    ensures
        member(j, key) is None,
        text_member(j, key) is None,
        text_member_or(j, key, other) is None,
        !flag_member(j, key),
        member_or_null(j, key) == Json::Null,
{
}

/// The second key is asked only where the first does not stand: a value that is
/// no text under the first gives nothing.
pub proof fn the_second_key_stands_in(m: Members, key: Seq<char>, other: Seq<char>, i: int)
    ensures
        given_at(m, key, i) ==> text_member_or(Json::Object(m), key, other) == (match m[i].1 {
            Json::Text(t) => Some(t),
            _ => None,
        }),
        not_given(m, key) ==> text_member_or(Json::Object(m), key, other) == text_member(
            Json::Object(m),
            other,
        ),
{
    lemma_lookup(m, key, i);
}

/// A struct is read from an object by name, from an array by place.
pub proof fn arrays_give_fields_by_place(items: Seq<Json>, key: Seq<char>, index: int, n: nat)
    ensures
        0 <= index < items.len() ==> field(Json::Array(items), key, index) == Some(items[index]),
        index >= items.len() ==> field(Json::Array(items), key, index) is None,
        fits(Json::Array(items), n) <==> items.len() <= n,
        fits(Json::Object(Seq::empty()), n),
        !fits(Json::Null, n) && !fits(Json::Bool(true), n) && !fits(Json::UInt(0), n),
{
}

/// An optional field may be left out or null; else it must be of its type.
pub proof fn optional_fields_may_be_left_out(j: Json, t: Seq<char>, n: u64, max: u64)
    ensures
        optional_text(None) == Some(None::<Seq<char>>),
        optional_text(Some(Json::Null)) == Some(None::<Seq<char>>),
        optional_text(Some(Json::Text(t))) == Some(Some(t)),
        !(j is Null) && !(j is Text) ==> optional_text(Some(j)) is None,
        optional_number(None, max) == Some(None::<u64>),
        optional_number(Some(Json::Null), max) == Some(None::<u64>),
        n <= max ==> optional_number(Some(Json::UInt(n)), max) == Some(Some(n)),
        n > max ==> optional_number(Some(Json::UInt(n)), max) is None,
        !(j is Null) && !(j is UInt) ==> optional_number(Some(j), max) is None,
        optional_texts(None) == Some(None::<Seq<Seq<char>>>),
        optional_texts(Some(Json::Null)) == Some(None::<Seq<Seq<char>>>),
        !(j is Null) && !(j is Array) ==> optional_texts(Some(j)) is None,
{
}

/// A list of texts is read item by item, and not at all where an item is no
/// text.
pub proof fn lists_of_texts_are_read_whole(items: Seq<Json>)
    ensures
        match optional_texts(Some(Json::Array(items))) {
            Some(Some(texts)) => texts.len() == items.len() && forall|i: int|
                0 <= i < items.len() ==> #[trigger] items[i] == Json::Text(texts[i]),
            Some(None) => false,
            None => exists|i: int| 0 <= i < items.len() && !(#[trigger] items[i] is Text),
        },
{
    if crate::payload::all_texts(items) {
        let texts = optional_texts(Some(Json::Array(items)))->0->0;
        assert forall|i: int| 0 <= i < items.len() implies #[trigger] items[i] == Json::Text(
            texts[i],
        ) by {
            assert(items[i] is Text);
        }
    }
}

/// Values are written as JSON has it.
pub proof fn values_are_written_as_json(n: u64, b: bool, k: u64, t: Seq<char>)
    requires
        0 < k <= 0x7fff_ffff_ffff_ffff,
    ensures
        json_text(Json::Null) == "null"@,
        json_text(Json::Bool(true)) == "true"@,
        json_text(Json::Bool(false)) == "false"@,
        json_text(Json::UInt(n)) == decimal(n as nat),
        json_text(Json::Int((-(k as int)) as i64)) == "-"@ + decimal(k as nat),
        json_text(Json::Float(t)) == t,
        json_text(Json::Text(t)) == quoted(t),
        json_text(Json::Array(Seq::empty())) == "[]"@,
        json_text(Json::Object(Seq::empty())) == "{}"@,
{
    reveal_strlit("-");
    reveal_strlit("[]");
    reveal_strlit("{}");
    assert(json_text(Json::Int((-(k as int)) as i64)) =~= "-"@ + decimal(k as nat));
    assert(items_text(Seq::empty()) =~= Seq::empty());
    assert(members_text(Seq::empty()) =~= Seq::empty());
    assert(json_text(Json::Array(Seq::empty())) =~= "[]"@);
    assert(json_text(Json::Object(Seq::empty())) =~= "{}"@);
}

/// An array is written item by item, with commas between.
pub proof fn arrays_are_written_item_by_item(items: Seq<Json>, j: Json)
    ensures
        json_text(Json::Array(seq![j])) == "["@ + json_text(j) + "]"@,
        items.len() > 0 ==> json_text(Json::Array(items.push(j))) == json_text(
            Json::Array(items),
        ).drop_last() + ","@ + json_text(j) + "]"@,
{
    reveal_strlit("[");
    reveal_strlit("]");
    reveal_strlit(",");
    assert(json_text(Json::Array(seq![j])) =~= "["@ + json_text(j) + "]"@);
    if items.len() > 0 {
        assert(items.push(j).drop_last() =~= items);
        assert(json_text(Json::Array(items.push(j))) =~= json_text(
            Json::Array(items),
        ).drop_last() + ","@ + json_text(j) + "]"@);
    }
}

/// An object is written member by member, the key in quotes and a colon before
/// the value, with commas between.
pub proof fn objects_are_written_member_by_member(m: Members, key: Seq<char>, j: Json)
    ensures
        json_text(Json::Object(m)) == object_text(m),
        object_text(seq![(key, j)]) == "{"@ + quoted(key) + ":"@ + json_text(j) + "}"@,
        m.len() > 0 ==> object_text(m.push((key, j))) == object_text(m).drop_last() + ","@ + quoted(
            key,
        ) + ":"@ + json_text(j) + "}"@,
{
    reveal_strlit("{");
    reveal_strlit("}");
    reveal_strlit(":");
    reveal_strlit(",");
    assert(object_text(seq![(key, j)]) =~= "{"@ + quoted(key) + ":"@ + json_text(j) + "}"@);
    if m.len() > 0 {
        assert(m.push((key, j)).drop_last() =~= m);
        assert(object_text(m.push((key, j))) =~= object_text(m).drop_last() + ","@ + quoted(key)
            + ":"@ + json_text(j) + "}"@);
    }
}

} // verus!
