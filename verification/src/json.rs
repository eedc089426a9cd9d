//! The external JSON shape of a resolved document, and a trivial importer
//! back from it.
//!
//! A document serializes to an object with the keys `variables`, `items`
//! and `groups`, each an object keyed by identifier.  Items, groups and
//! blocks serialize their `id`, their `pairs`, and their nested `blocks`
//! recursively; a group adds its `reference` map.  The importer accepts
//! exactly that shape and rebuilds the document verbatim: the round trip
//! loses nothing.

use vstd::prelude::*;
use vstd::string::StringExecFns;

use crate::model::Block;
use crate::model::BlockMap;
use crate::model::BlockV;
use crate::model::Document;
use crate::model::Group;
use crate::model::Item;
use crate::model::KvMap;
use crate::model::Value;
use crate::model::DocumentV;
use crate::model::GroupV;
use crate::model::ItemV;
use crate::model::ValueV;
use crate::model::block_concrete;
use crate::model::blocks_concrete;
use crate::model::doc_concrete;
use crate::model::group_concrete;
use crate::model::item_concrete;
use crate::model::lemma_blocks_concrete;
use crate::model::pairs_concrete;

verus! {

/// A JSON value, as far as this library needs one: integers, floats kept
/// as their source spelling, strings, and objects with ordered keys.
#[derive(Debug, PartialEq, Eq)]
pub enum JsonValue {
    Int(i128),
    Float(String),
    Str(String),
    Object(Vec<(String, JsonValue)>),
}

/// The mathematical model of a [`JsonValue`].
pub enum JsonV {
    Int(int),
    Float(Seq<char>),
    Str(Seq<char>),
    Object(Seq<(Seq<char>, JsonV)>),
}

/// The model of the first `n` entries of a JSON object list.
pub open spec fn json_entries_view(s: Seq<(String, JsonValue)>, n: int) -> Seq<
    (Seq<char>, JsonV),
>
    decreases s, n,
        when n <= s.len()
{
    if n <= 0 {
        Seq::empty()
    } else {
        proof {
            assert(decreases_to!(s => s[n - 1]));
            assert(decreases_to!(s[n - 1] => s[n - 1].1));
        }
        json_entries_view(s, n - 1).push((s[n - 1].0@, json_view(s[n - 1].1)))
    }
}

/// The model of a JSON value.
pub open spec fn json_view(j: JsonValue) -> JsonV
    decreases j, 1int,
{
    match j {
        JsonValue::Int(n) => JsonV::Int(n as int),
        JsonValue::Float(w) => JsonV::Float(w@),
        JsonValue::Str(w) => JsonV::Str(w@),
        JsonValue::Object(es) => JsonV::Object(json_entries_view(es@, es@.len() as int)),
    }
}

impl DeepView for JsonValue {
    type V = JsonV;

    open spec fn deep_view(&self) -> JsonV {
        json_view(*self)
    }
}

/// Each position of `json_entries_view(s, n)` is the model of the entry
/// there.
pub proof fn lemma_json_entries_view(s: Seq<(String, JsonValue)>, n: int)
    requires
        0 <= n <= s.len(),
    ensures
        json_entries_view(s, n).len() == n,
        forall|i: int| 0 <= i < n ==> json_entries_view(s, n)[i] == (s[i].0@, json_view(s[i].1)),
    decreases n,
{
    if n > 0 {
        lemma_json_entries_view(s, n - 1);
    }
}

// ---------------------------------------------------------------------------
// Serialization, at the specification level.
// ---------------------------------------------------------------------------

/// The JSON form of one scalar.  A pending variable reference never stands
/// in a resolved document; it falls back to its name as a string.
pub open spec fn json_of_value(v: ValueV) -> JsonV {
    match v {
        ValueV::Int(n) => JsonV::Int(n),
        ValueV::Float(w) => JsonV::Float(w),
        ValueV::Str(w) => JsonV::Str(w),
        ValueV::Var(w) => JsonV::Str(w),
    }
}

/// The JSON object entries of a pair map.
pub open spec fn json_of_pairs(s: Seq<(Seq<char>, ValueV)>) -> Seq<(Seq<char>, JsonV)> {
    s.map_values(|p: (Seq<char>, ValueV)| (p.0, json_of_value(p.1)))
}

/// The JSON object entries of the first `n` blocks of a block map.
pub open spec fn json_of_blocks(s: Seq<(Seq<char>, BlockV)>, n: int) -> Seq<(Seq<char>, JsonV)>
    decreases s, n,
        when n <= s.len()
{
    if n <= 0 {
        Seq::empty()
    } else {
        proof {
            assert(decreases_to!(s => s[n - 1]));
            assert(decreases_to!(s[n - 1] => s[n - 1].1));
        }
        json_of_blocks(s, n - 1).push((s[n - 1].0, json_of_block(s[n - 1].1)))
    }
}

/// The JSON form of a block: its `id`, `pairs`, and `blocks`.
pub open spec fn json_of_block(b: BlockV) -> JsonV
    decreases b, 1int,
{
    JsonV::Object(
        seq![
            ("id"@, JsonV::Str(b.id)),
            ("pairs"@, JsonV::Object(json_of_pairs(b.pairs))),
            ("blocks"@, JsonV::Object(json_of_blocks(b.blocks, b.blocks.len() as int))),
        ],
    )
}

/// Each position of `json_of_blocks(s, n)` is the JSON form of the entry
/// there.
pub proof fn lemma_json_of_blocks(s: Seq<(Seq<char>, BlockV)>, n: int)
    requires
        0 <= n <= s.len(),
    ensures
        json_of_blocks(s, n).len() == n,
        forall|i: int| 0 <= i < n ==> json_of_blocks(s, n)[i] == (s[i].0, json_of_block(s[i].1)),
    decreases n,
{
    if n > 0 {
        lemma_json_of_blocks(s, n - 1);
    }
}

/// The JSON form of an item: its `id`, `pairs`, and `blocks`.
pub open spec fn json_of_item(it: ItemV) -> JsonV {
    JsonV::Object(
        seq![
            ("id"@, JsonV::Str(it.id)),
            ("pairs"@, JsonV::Object(json_of_pairs(it.pairs))),
            ("blocks"@, JsonV::Object(json_of_blocks(it.blocks, it.blocks.len() as int))),
        ],
    )
}

/// The JSON form of a group: its `id`, `pairs`, `blocks`, and `reference`.
pub open spec fn json_of_group(g: GroupV) -> JsonV {
    JsonV::Object(
        seq![
            ("id"@, JsonV::Str(g.id)),
            ("pairs"@, JsonV::Object(json_of_pairs(g.pairs))),
            ("blocks"@, JsonV::Object(json_of_blocks(g.blocks, g.blocks.len() as int))),
            ("reference"@, JsonV::Object(json_of_pairs(g.reference))),
        ],
    )
}

/// The JSON object entries of the first `n` items.
pub open spec fn json_of_items(s: Seq<(Seq<char>, ItemV)>, n: int) -> Seq<(Seq<char>, JsonV)>
    decreases n,
{
    if n <= 0 {
        Seq::empty()
    } else {
        json_of_items(s, n - 1).push((s[n - 1].0, json_of_item(s[n - 1].1)))
    }
}

/// The JSON object entries of the first `n` groups.
pub open spec fn json_of_groups(s: Seq<(Seq<char>, GroupV)>, n: int) -> Seq<(Seq<char>, JsonV)>
    decreases n,
{
    if n <= 0 {
        Seq::empty()
    } else {
        json_of_groups(s, n - 1).push((s[n - 1].0, json_of_group(s[n - 1].1)))
    }
}

/// Each position of `json_of_items(s, n)` is the JSON form of the item
/// there.
pub proof fn lemma_json_of_items(s: Seq<(Seq<char>, ItemV)>, n: int)
    requires
        0 <= n <= s.len(),
    ensures
        json_of_items(s, n).len() == n,
        forall|i: int| 0 <= i < n ==> json_of_items(s, n)[i] == (s[i].0, json_of_item(s[i].1)),
    decreases n,
{
    if n > 0 {
        lemma_json_of_items(s, n - 1);
    }
}

/// Each position of `json_of_groups(s, n)` is the JSON form of the group
/// there.
pub proof fn lemma_json_of_groups(s: Seq<(Seq<char>, GroupV)>, n: int)
    requires
        0 <= n <= s.len(),
    ensures
        json_of_groups(s, n).len() == n,
        forall|i: int| 0 <= i < n ==> json_of_groups(s, n)[i] == (s[i].0, json_of_group(s[i].1)),
    decreases n,
{
    if n > 0 {
        lemma_json_of_groups(s, n - 1);
    }
}

/// The JSON form of a whole document: `variables`, `items`, `groups`.
pub open spec fn json_of_doc(d: DocumentV) -> JsonV {
    JsonV::Object(
        seq![
            ("variables"@, JsonV::Object(json_of_pairs(d.variables))),
            ("items"@, JsonV::Object(json_of_items(d.items, d.items.len() as int))),
            ("groups"@, JsonV::Object(json_of_groups(d.groups, d.groups.len() as int))),
        ],
    )
}

// ---------------------------------------------------------------------------
// The trivial importer, at the specification level.
// ---------------------------------------------------------------------------

/// One scalar back from JSON.  Objects are no scalars.
pub open spec fn value_of_json(j: JsonV) -> Option<ValueV> {
    match j {
        JsonV::Int(n) => Some(ValueV::Int(n)),
        JsonV::Float(w) => Some(ValueV::Float(w)),
        JsonV::Str(w) => Some(ValueV::Str(w)),
        JsonV::Object(_) => None,
    }
}

/// The first `n` entries of a JSON object back as a pair map.
pub open spec fn pairs_of_json(s: Seq<(Seq<char>, JsonV)>, n: int) -> Option<
    Seq<(Seq<char>, ValueV)>,
>
    decreases n,
{
    if n <= 0 {
        Some(Seq::empty())
    } else {
        match pairs_of_json(s, n - 1) {
            Some(acc) => match value_of_json(s[n - 1].1) {
                Some(v) => Some(acc.push((s[n - 1].0, v))),
                None => None,
            },
            None => None,
        }
    }
}

/// A block back from its JSON form: exactly the keys `id`, `pairs`,
/// `blocks`, in that order.
pub open spec fn block_of_json(j: JsonV) -> Option<BlockV>
    decreases j, 1int,
{
    if j matches JsonV::Object(es) && es.len() == 3 && es[0].0 == "id"@ && es[0].1 is Str
        && es[1].0 == "pairs"@ && es[1].1 is Object && es[2].0 == "blocks"@ && es[2].1 is Object {
        let es = j->Object_0;
        proof {
            assert(decreases_to!(j => es));
        }
        match pairs_of_json(es[1].1->Object_0, es[1].1->Object_0.len() as int) {
            Some(ps) => match blocks_of_json(es[2].1->Object_0, es[2].1->Object_0.len() as int) {
                Some(bs) => Some(BlockV { id: es[0].1->Str_0, pairs: ps, blocks: bs }),
                None => None,
            },
            None => None,
        }
    } else {
        None
    }
}

/// The first `n` entries of a JSON object back as a block map.
pub open spec fn blocks_of_json(s: Seq<(Seq<char>, JsonV)>, n: int) -> Option<
    Seq<(Seq<char>, BlockV)>,
>
    decreases s, n,
        when n <= s.len()
{
    if n <= 0 {
        Some(Seq::empty())
    } else {
        proof {
            assert(decreases_to!(s => s[n - 1]));
            assert(decreases_to!(s[n - 1] => s[n - 1].1));
        }
        match blocks_of_json(s, n - 1) {
            Some(acc) => match block_of_json(s[n - 1].1) {
                Some(b) => Some(acc.push((s[n - 1].0, b))),
                None => None,
            },
            None => None,
        }
    }
}

/// An item back from its JSON form.
pub open spec fn item_of_json(j: JsonV) -> Option<ItemV> {
    if j matches JsonV::Object(es) && es.len() == 3 && es[0].0 == "id"@ && es[0].1 is Str
        && es[1].0 == "pairs"@ && es[1].1 is Object && es[2].0 == "blocks"@ && es[2].1 is Object {
        let es = j->Object_0;
        match pairs_of_json(es[1].1->Object_0, es[1].1->Object_0.len() as int) {
            Some(ps) => match blocks_of_json(es[2].1->Object_0, es[2].1->Object_0.len() as int) {
                Some(bs) => Some(ItemV { id: es[0].1->Str_0, pairs: ps, blocks: bs }),
                None => None,
            },
            None => None,
        }
    } else {
        None
    }
}

/// A group back from its JSON form.
pub open spec fn group_of_json(j: JsonV) -> Option<GroupV> {
    if j matches JsonV::Object(es) && es.len() == 4 && es[0].0 == "id"@ && es[0].1 is Str
        && es[1].0 == "pairs"@ && es[1].1 is Object && es[2].0 == "blocks"@ && es[2].1 is Object
        && es[3].0 == "reference"@ && es[3].1 is Object {
        let es = j->Object_0;
        match pairs_of_json(es[1].1->Object_0, es[1].1->Object_0.len() as int) {
            Some(ps) => match blocks_of_json(es[2].1->Object_0, es[2].1->Object_0.len() as int) {
                Some(bs) => match pairs_of_json(
                    es[3].1->Object_0,
                    es[3].1->Object_0.len() as int,
                ) {
                    Some(rs) => Some(
                        GroupV { id: es[0].1->Str_0, pairs: ps, blocks: bs, reference: rs },
                    ),
                    None => None,
                },
                None => None,
            },
            None => None,
        }
    } else {
        None
    }
}

/// The first `n` entries of a JSON object back as an item map.
pub open spec fn items_of_json(s: Seq<(Seq<char>, JsonV)>, n: int) -> Option<
    Seq<(Seq<char>, ItemV)>,
>
    decreases n,
{
    if n <= 0 {
        Some(Seq::empty())
    } else {
        match items_of_json(s, n - 1) {
            Some(acc) => match item_of_json(s[n - 1].1) {
                Some(it) => Some(acc.push((s[n - 1].0, it))),
                None => None,
            },
            None => None,
        }
    }
}

/// The first `n` entries of a JSON object back as a group map.
pub open spec fn groups_of_json(s: Seq<(Seq<char>, JsonV)>, n: int) -> Option<
    Seq<(Seq<char>, GroupV)>,
>
    decreases n,
{
    if n <= 0 {
        Some(Seq::empty())
    } else {
        match groups_of_json(s, n - 1) {
            Some(acc) => match group_of_json(s[n - 1].1) {
                Some(g) => Some(acc.push((s[n - 1].0, g))),
                None => None,
            },
            None => None,
        }
    }
}

/// A document back from its JSON form: exactly the keys `variables`,
/// `items`, `groups`, in that order.
pub open spec fn doc_of_json(j: JsonV) -> Option<DocumentV> {
    if j matches JsonV::Object(es) && es.len() == 3 && es[0].0 == "variables"@
        && es[0].1 is Object && es[1].0 == "items"@ && es[1].1 is Object && es[2].0 == "groups"@
        && es[2].1 is Object {
        let es = j->Object_0;
        match pairs_of_json(es[0].1->Object_0, es[0].1->Object_0.len() as int) {
            Some(vs) => match items_of_json(es[1].1->Object_0, es[1].1->Object_0.len() as int) {
                Some(is) => match groups_of_json(
                    es[2].1->Object_0,
                    es[2].1->Object_0.len() as int,
                ) {
                    Some(gs) => Some(DocumentV { variables: vs, items: is, groups: gs }),
                    None => None,
                },
                None => None,
            },
            None => None,
        }
    } else {
        None
    }
}

// ---------------------------------------------------------------------------
// The round trip loses nothing.
// ---------------------------------------------------------------------------

/// Importing the JSON form of a concrete pair map gives the map back.
proof fn lemma_pairs_round_trip(s: Seq<(Seq<char>, ValueV)>, n: int)
    requires
        pairs_concrete(s),
        0 <= n <= s.len(),
    ensures
        pairs_of_json(json_of_pairs(s), n) == Some(s.take(n)),
    decreases n,
{
    if n <= 0 {
        assert(s.take(0) =~= Seq::<(Seq<char>, ValueV)>::empty());
    } else {
        lemma_pairs_round_trip(s, n - 1);
        assert(!(s[n - 1].1 is Var));
        assert(s.take(n - 1).push(s[n - 1]) =~= s.take(n));
    }
}

/// Importing the JSON form of a concrete block gives the block back.
proof fn lemma_block_round_trip(b: BlockV)
    requires
        block_concrete(b),
    ensures
        block_of_json(json_of_block(b)) == Some(b),
    decreases b, 1int,
{
    lemma_pairs_round_trip(b.pairs, b.pairs.len() as int);
    assert(b.pairs.take(b.pairs.len() as int) =~= b.pairs);
    lemma_json_of_blocks(b.blocks, b.blocks.len() as int);
    lemma_blocks_concrete(b.blocks, b.blocks.len() as int);
    assert(decreases_to!(b, 1int => b.blocks, b.blocks.len() as int));
    lemma_blocks_round_trip(b.blocks, b.blocks.len() as int);
    assert(b.blocks.take(b.blocks.len() as int) =~= b.blocks);
    assert(block_of_json(json_of_block(b))->Some_0 =~= b);
}

/// Importing the JSON form of a list of concrete blocks gives the list
/// back.
proof fn lemma_blocks_round_trip(s: Seq<(Seq<char>, BlockV)>, n: int)
    requires
        0 <= n <= s.len(),
        forall|i: int| 0 <= i < s.len() ==> block_concrete(#[trigger] s[i].1),
    ensures
        blocks_of_json(json_of_blocks(s, s.len() as int), n) == Some(s.take(n)),
    decreases s, n,
{
    lemma_json_of_blocks(s, s.len() as int);
    if n <= 0 {
        assert(s.take(0) =~= Seq::<(Seq<char>, BlockV)>::empty());
    } else {
        lemma_blocks_round_trip(s, n - 1);
        assert(decreases_to!(s => s[n - 1]));
        assert(decreases_to!(s[n - 1] => s[n - 1].1));
        lemma_block_round_trip(s[n - 1].1);
        assert(s.take(n - 1).push(s[n - 1]) =~= s.take(n));
    }
}

/// Importing the JSON form of a concrete item gives the item back.
proof fn lemma_item_round_trip(it: ItemV)
    requires
        item_concrete(it),
    ensures
        item_of_json(json_of_item(it)) == Some(it),
{
    lemma_pairs_round_trip(it.pairs, it.pairs.len() as int);
    assert(it.pairs.take(it.pairs.len() as int) =~= it.pairs);
    lemma_json_of_blocks(it.blocks, it.blocks.len() as int);
    lemma_blocks_concrete(it.blocks, it.blocks.len() as int);
    lemma_blocks_round_trip(it.blocks, it.blocks.len() as int);
    assert(it.blocks.take(it.blocks.len() as int) =~= it.blocks);
    assert(item_of_json(json_of_item(it))->Some_0 =~= it);
}

/// Importing the JSON form of a concrete group gives the group back.
proof fn lemma_group_round_trip(g: GroupV)
    requires
        group_concrete(g),
    ensures
        group_of_json(json_of_group(g)) == Some(g),
{
    lemma_pairs_round_trip(g.pairs, g.pairs.len() as int);
    assert(g.pairs.take(g.pairs.len() as int) =~= g.pairs);
    lemma_json_of_blocks(g.blocks, g.blocks.len() as int);
    lemma_blocks_concrete(g.blocks, g.blocks.len() as int);
    lemma_blocks_round_trip(g.blocks, g.blocks.len() as int);
    assert(g.blocks.take(g.blocks.len() as int) =~= g.blocks);
    lemma_pairs_round_trip(g.reference, g.reference.len() as int);
    assert(g.reference.take(g.reference.len() as int) =~= g.reference);
    assert(group_of_json(json_of_group(g))->Some_0 =~= g);
}

/// Importing the JSON form of a list of concrete items gives the list
/// back.
proof fn lemma_items_round_trip(s: Seq<(Seq<char>, ItemV)>, n: int)
    requires
        0 <= n <= s.len(),
        forall|i: int| 0 <= i < s.len() ==> item_concrete(#[trigger] s[i].1),
    ensures
        items_of_json(json_of_items(s, s.len() as int), n) == Some(s.take(n)),
    decreases n,
{
    lemma_json_of_items(s, s.len() as int);
    if n <= 0 {
        assert(s.take(0) =~= Seq::<(Seq<char>, ItemV)>::empty());
    } else {
        lemma_items_round_trip(s, n - 1);
        lemma_item_round_trip(s[n - 1].1);
        assert(s.take(n - 1).push(s[n - 1]) =~= s.take(n));
    }
}

/// Importing the JSON form of a list of concrete groups gives the list
/// back.
proof fn lemma_groups_round_trip(s: Seq<(Seq<char>, GroupV)>, n: int)
    requires
        0 <= n <= s.len(),
        forall|i: int| 0 <= i < s.len() ==> group_concrete(#[trigger] s[i].1),
    ensures
        groups_of_json(json_of_groups(s, s.len() as int), n) == Some(s.take(n)),
    decreases n,
{
    lemma_json_of_groups(s, s.len() as int);
    if n <= 0 {
        assert(s.take(0) =~= Seq::<(Seq<char>, GroupV)>::empty());
    } else {
        lemma_groups_round_trip(s, n - 1);
        lemma_group_round_trip(s[n - 1].1);
        assert(s.take(n - 1).push(s[n - 1]) =~= s.take(n));
    }
}

/// Law: the JSON round trip loses nothing.  Serializing a resolved (fully
/// concrete) document to the external JSON shape and importing that JSON
/// back gives an equal document.
pub proof fn lemma_json_round_trip(d: DocumentV)
    requires
        doc_concrete(d),
    ensures
        doc_of_json(json_of_doc(d)) == Some(d),
{
    lemma_pairs_round_trip(d.variables, d.variables.len() as int);
    assert(d.variables.take(d.variables.len() as int) =~= d.variables);
    lemma_json_of_items(d.items, d.items.len() as int);
    lemma_json_of_groups(d.groups, d.groups.len() as int);
    lemma_items_round_trip(d.items, d.items.len() as int);
    assert(d.items.take(d.items.len() as int) =~= d.items);
    lemma_groups_round_trip(d.groups, d.groups.len() as int);
    assert(d.groups.take(d.groups.len() as int) =~= d.groups);
    assert(doc_of_json(json_of_doc(d))->Some_0 =~= d);
}

// ---------------------------------------------------------------------------
// When one entry is refused, the whole import is.
// ---------------------------------------------------------------------------

proof fn lemma_pairs_of_json_none(s: Seq<(Seq<char>, JsonV)>, k: int, n: int)
    requires
        0 <= k <= n,
        pairs_of_json(s, k) is None,
    ensures
        pairs_of_json(s, n) is None,
    decreases n,
{
    if n > k {
        lemma_pairs_of_json_none(s, k, n - 1);
    }
}

proof fn lemma_blocks_of_json_none(s: Seq<(Seq<char>, JsonV)>, k: int, n: int)
    requires
        0 <= k <= n <= s.len(),
        blocks_of_json(s, k) is None,
    ensures
        blocks_of_json(s, n) is None,
    decreases n,
{
    if n > k {
        lemma_blocks_of_json_none(s, k, n - 1);
    }
}

proof fn lemma_items_of_json_none(s: Seq<(Seq<char>, JsonV)>, k: int, n: int)
    requires
        0 <= k <= n,
        items_of_json(s, k) is None,
    ensures
        items_of_json(s, n) is None,
    decreases n,
{
    if n > k {
        lemma_items_of_json_none(s, k, n - 1);
    }
}

proof fn lemma_groups_of_json_none(s: Seq<(Seq<char>, JsonV)>, k: int, n: int)
    requires
        0 <= k <= n,
        groups_of_json(s, k) is None,
    ensures
        groups_of_json(s, n) is None,
    decreases n,
{
    if n > k {
        lemma_groups_of_json_none(s, k, n - 1);
    }
}

// ---------------------------------------------------------------------------
// The executable serializer.
// ---------------------------------------------------------------------------

/// The JSON form of one scalar.
fn value_to_json(v: &Value) -> (r: JsonValue)
    ensures
        r.deep_view() == json_of_value(v.deep_view()),
{
    match v {
        Value::Int(n) => JsonValue::Int(*n),
        Value::Float(w) => JsonValue::Float(w.clone()),
        Value::Str(w) => JsonValue::Str(w.clone()),
        Value::Var(w) => JsonValue::Str(w.clone()),
    }
}

/// The JSON object of a pair map.
#[verifier::loop_isolation(false)]
fn pairs_to_json(m: &KvMap<Value>) -> (r: JsonValue)
    ensures
        r.deep_view() == JsonV::Object(json_of_pairs(m.deep_view())),
{
    let ghost dv = m.deep_view();
    let n = m.len();
    let mut es: Vec<(String, JsonValue)> = Vec::new();
    for i in 0..n
        invariant
            es@.len() == i,
            forall|j: int| #![auto]
                0 <= j < i ==> es@[j].0@ == dv[j].0 && json_view(es@[j].1) == json_of_value(
                    dv[j].1,
                ),
    {
        let k = m.key_at(i).clone();
        let jv = value_to_json(m.val_at(i));
        es.push((k, jv));
    }
    proof {
        lemma_json_entries_view(es@, es@.len() as int);
        assert(json_entries_view(es@, es@.len() as int) =~= json_of_pairs(dv));
    }
    JsonValue::Object(es)
}

/// The JSON form of a block: `id`, `pairs`, `blocks`.
#[verifier::loop_isolation(false)]
fn block_to_json(b: &Block) -> (r: JsonValue)
    ensures
        r.deep_view() == json_of_block(b.deep_view()),
    decreases b.deep_view(), 2int,
{
    let ghost bv = b.deep_view();
    let pjson = pairs_to_json(&b.pairs);
    let n = b.blocks.len();
    let mut bs: Vec<(String, JsonValue)> = Vec::new();
    for i in 0..n
        invariant
            bs@.len() == i,
            forall|j: int| #![auto]
                0 <= j < i ==> bs@[j].0@ == bv.blocks[j].0 && json_view(bs@[j].1)
                    == json_of_block(bv.blocks[j].1),
    {
        let k = b.blocks.key_at(i).clone();
        let child = b.blocks.val_at(i);
        proof {
            assert(decreases_to!(bv => bv.blocks));
            assert(decreases_to!(bv.blocks => bv.blocks[i as int]));
            assert(decreases_to!(bv.blocks[i as int] => bv.blocks[i as int].1));
        }
        let cj = block_to_json(child);
        bs.push((k, cj));
    }
    proof {
        lemma_json_entries_view(bs@, bs@.len() as int);
        lemma_json_of_blocks(bv.blocks, bv.blocks.len() as int);
        assert(json_entries_view(bs@, bs@.len() as int) =~= json_of_blocks(
            bv.blocks,
            bv.blocks.len() as int,
        ));
    }
    let mut es: Vec<(String, JsonValue)> = Vec::new();
    es.push((String::from_str("id"), JsonValue::Str(b.id.clone())));
    es.push((String::from_str("pairs"), pjson));
    es.push((String::from_str("blocks"), JsonValue::Object(bs)));
    proof {
        lemma_json_entries_view(es@, es@.len() as int);
        assert(json_entries_view(es@, es@.len() as int) =~= json_of_block(bv)->Object_0);
    }
    JsonValue::Object(es)
}

/// The JSON form of an item: `id`, `pairs`, `blocks`.
#[verifier::loop_isolation(false)]
fn item_to_json(it: &Item) -> (r: JsonValue)
    ensures
        r.deep_view() == json_of_item(it.deep_view()),
{
    let ghost iv = it.deep_view();
    let pjson = pairs_to_json(&it.pairs);
    let n = it.blocks.len();
    let mut bs: Vec<(String, JsonValue)> = Vec::new();
    for i in 0..n
        invariant
            bs@.len() == i,
            forall|j: int| #![auto]
                0 <= j < i ==> bs@[j].0@ == iv.blocks[j].0 && json_view(bs@[j].1)
                    == json_of_block(iv.blocks[j].1),
    {
        let k = it.blocks.key_at(i).clone();
        let cj = block_to_json(it.blocks.val_at(i));
        bs.push((k, cj));
    }
    proof {
        lemma_json_entries_view(bs@, bs@.len() as int);
        lemma_json_of_blocks(iv.blocks, iv.blocks.len() as int);
        assert(json_entries_view(bs@, bs@.len() as int) =~= json_of_blocks(
            iv.blocks,
            iv.blocks.len() as int,
        ));
    }
    let mut es: Vec<(String, JsonValue)> = Vec::new();
    es.push((String::from_str("id"), JsonValue::Str(it.id.clone())));
    es.push((String::from_str("pairs"), pjson));
    es.push((String::from_str("blocks"), JsonValue::Object(bs)));
    proof {
        lemma_json_entries_view(es@, es@.len() as int);
        assert(json_entries_view(es@, es@.len() as int) =~= json_of_item(iv)->Object_0);
    }
    JsonValue::Object(es)
}

/// The JSON form of a group: `id`, `pairs`, `blocks`, `reference`.
#[verifier::loop_isolation(false)]
fn group_to_json(g: &Group) -> (r: JsonValue)
    ensures
        r.deep_view() == json_of_group(g.deep_view()),
{
    let ghost gv = g.deep_view();
    let pjson = pairs_to_json(&g.pairs);
    let rjson = pairs_to_json(&g.reference);
    let n = g.blocks.len();
    let mut bs: Vec<(String, JsonValue)> = Vec::new();
    for i in 0..n
        invariant
            bs@.len() == i,
            forall|j: int| #![auto]
                0 <= j < i ==> bs@[j].0@ == gv.blocks[j].0 && json_view(bs@[j].1)
                    == json_of_block(gv.blocks[j].1),
    {
        let k = g.blocks.key_at(i).clone();
        let cj = block_to_json(g.blocks.val_at(i));
        bs.push((k, cj));
    }
    proof {
        lemma_json_entries_view(bs@, bs@.len() as int);
        lemma_json_of_blocks(gv.blocks, gv.blocks.len() as int);
        assert(json_entries_view(bs@, bs@.len() as int) =~= json_of_blocks(
            gv.blocks,
            gv.blocks.len() as int,
        ));
    }
    let mut es: Vec<(String, JsonValue)> = Vec::new();
    es.push((String::from_str("id"), JsonValue::Str(g.id.clone())));
    es.push((String::from_str("pairs"), pjson));
    es.push((String::from_str("blocks"), JsonValue::Object(bs)));
    es.push((String::from_str("reference"), rjson));
    proof {
        lemma_json_entries_view(es@, es@.len() as int);
        assert(json_entries_view(es@, es@.len() as int) =~= json_of_group(gv)->Object_0);
    }
    JsonValue::Object(es)
}

/// Serialize a document to its external JSON shape: an object with the
/// keys `variables`, `items`, and `groups`.
#[verifier::loop_isolation(false)]
pub fn to_json(d: &Document) -> (r: JsonValue)
    ensures
        r.deep_view() == json_of_doc(d.deep_view()),
{
    let ghost dv = d.deep_view();
    let vjson = pairs_to_json(&d.variables);
    let ni = d.items.len();
    let mut is: Vec<(String, JsonValue)> = Vec::new();
    for i in 0..ni
        invariant
            is@.len() == i,
            forall|j: int| #![auto]
                0 <= j < i ==> is@[j].0@ == dv.items[j].0 && json_view(is@[j].1) == json_of_item(
                    dv.items[j].1,
                ),
    {
        let k = d.items.key_at(i).clone();
        let ij = item_to_json(d.items.val_at(i));
        is.push((k, ij));
    }
    proof {
        lemma_json_entries_view(is@, is@.len() as int);
        lemma_json_of_items(dv.items, dv.items.len() as int);
        assert(json_entries_view(is@, is@.len() as int) =~= json_of_items(
            dv.items,
            dv.items.len() as int,
        ));
    }
    let ng = d.groups.len();
    let mut gs: Vec<(String, JsonValue)> = Vec::new();
    for i in 0..ng
        invariant
            gs@.len() == i,
            forall|j: int| #![auto]
                0 <= j < i ==> gs@[j].0@ == dv.groups[j].0 && json_view(gs@[j].1)
                    == json_of_group(dv.groups[j].1),
    {
        let k = d.groups.key_at(i).clone();
        let gj = group_to_json(d.groups.val_at(i));
        gs.push((k, gj));
    }
    proof {
        lemma_json_entries_view(gs@, gs@.len() as int);
        lemma_json_of_groups(dv.groups, dv.groups.len() as int);
        assert(json_entries_view(gs@, gs@.len() as int) =~= json_of_groups(
            dv.groups,
            dv.groups.len() as int,
        ));
    }
    let mut es: Vec<(String, JsonValue)> = Vec::new();
    es.push((String::from_str("variables"), vjson));
    es.push((String::from_str("items"), JsonValue::Object(is)));
    es.push((String::from_str("groups"), JsonValue::Object(gs)));
    proof {
        lemma_json_entries_view(es@, es@.len() as int);
        assert(json_entries_view(es@, es@.len() as int) =~= json_of_doc(dv)->Object_0);
    }
    JsonValue::Object(es)
}

// ---------------------------------------------------------------------------
// The executable importer.
// ---------------------------------------------------------------------------

/// One scalar back from JSON.
fn value_from_json(j: &JsonValue) -> (r: Option<Value>)
    ensures
        match r {
            Some(v) => value_of_json(j.deep_view()) == Some(v.deep_view()),
            None => value_of_json(j.deep_view()) is None,
        },
{
    match j {
        JsonValue::Int(n) => Some(Value::Int(*n)),
        JsonValue::Float(w) => Some(Value::Float(w.clone())),
        JsonValue::Str(w) => Some(Value::Str(w.clone())),
        JsonValue::Object(_) => None,
    }
}

/// A pair map back from the entries of a JSON object.
#[verifier::loop_isolation(false)]
fn pairs_from_json(es: &Vec<(String, JsonValue)>) -> (r: Option<KvMap<Value>>)
    ensures
        ({
            let sv = json_entries_view(es@, es@.len() as int);
            match r {
                Some(m) => pairs_of_json(sv, sv.len() as int) == Some(m.deep_view()),
                None => pairs_of_json(sv, sv.len() as int) is None,
            }
        }),
{
    let ghost sv = json_entries_view(es@, es@.len() as int);
    proof {
        lemma_json_entries_view(es@, es@.len() as int);
    }
    let n = es.len();
    let mut out: KvMap<Value> = KvMap::new();
    for i in 0..n
        invariant
            pairs_of_json(sv, i as int) == Some(out.deep_view()),
    {
        match value_from_json(&es[i].1) {
            Some(v) => {
                out.push_entry(es[i].0.clone(), v);
            },
            None => {
                proof {
                    lemma_pairs_of_json_none(sv, i + 1, sv.len() as int);
                }
                return None;
            },
        }
    }
    Some(out)
}

/// A block back from its JSON form: exactly the keys `id`, `pairs`,
/// `blocks`, in that order.
#[verifier::loop_isolation(false)]
fn block_from_json(j: &JsonValue) -> (r: Option<Block>)
    ensures
        match r {
            Some(b) => block_of_json(j.deep_view()) == Some(b.deep_view()),
            None => block_of_json(j.deep_view()) is None,
        },
    decreases j.deep_view(), 2int,
{
    let ghost jv = j.deep_view();
    match j {
        JsonValue::Object(es) => {
            proof {
                lemma_json_entries_view(es@, es@.len() as int);
            }
            if es.len() != 3 {
                return None;
            }
            if !(es[0].0 == String::from_str("id") && matches!(&es[0].1, JsonValue::Str(_))) {
                return None;
            }
            if !(es[1].0 == String::from_str("pairs") && matches!(
                &es[1].1,
                JsonValue::Object(_),
            )) {
                return None;
            }
            if !(es[2].0 == String::from_str("blocks") && matches!(
                &es[2].1,
                JsonValue::Object(_),
            )) {
                return None;
            }
            let id_s = match &es[0].1 {
                JsonValue::Str(w) => w.clone(),
                _ => String::new(),
            };
            let pm = match &es[1].1 {
                JsonValue::Object(pes) => match pairs_from_json(pes) {
                    Some(m) => m,
                    None => {
                        return None;
                    },
                },
                _ => {
                    return None;
                },
            };
            let bm = match &es[2].1 {
                JsonValue::Object(bes) => {
                    proof {
                        assert(decreases_to!(jv => jv->Object_0));
                        assert(decreases_to!(jv->Object_0 => jv->Object_0[2]));
                        assert(decreases_to!(jv->Object_0[2] => jv->Object_0[2].1));
                        assert(decreases_to!(
                            jv,
                            2int
                            =>
                            jv->Object_0[2].1,
                            1int
                        ));
                    }
                    match blocks_from_json(bes, Ghost(jv->Object_0[2].1)) {
                        Some(m) => m,
                        None => {
                            return None;
                        },
                    }
                },
                _ => {
                    return None;
                },
            };
            Some(Block { id: id_s, pairs: pm, blocks: bm })
        },
        _ => None,
    }
}

/// A block map back from the entries of a JSON object.  `parent` is the
/// JSON object the entries came out of: the bound that shows the recursion
/// descends.
#[verifier::loop_isolation(false)]
fn blocks_from_json(es: &Vec<(String, JsonValue)>, parent: Ghost<JsonV>) -> (r: Option<BlockMap>)
    requires
        parent@ == JsonV::Object(json_entries_view(es@, es@.len() as int)),
    ensures
        ({
            let sv = json_entries_view(es@, es@.len() as int);
            match r {
                Some(m) => blocks_of_json(sv, sv.len() as int) == Some(m.deep_view()),
                None => blocks_of_json(sv, sv.len() as int) is None,
            }
        }),
    decreases parent@, 1int,
{
    let ghost sv = json_entries_view(es@, es@.len() as int);
    proof {
        lemma_json_entries_view(es@, es@.len() as int);
    }
    let n = es.len();
    let mut out: BlockMap = BlockMap::new();
    for i in 0..n
        invariant
            blocks_of_json(sv, i as int) == Some(out.deep_view()),
    {
        proof {
            assert(decreases_to!(parent@ => parent@->Object_0));
            assert(sv == parent@->Object_0);
            assert(decreases_to!(sv => sv[i as int]));
            assert(decreases_to!(sv[i as int] => sv[i as int].1));
        }
        match block_from_json(&es[i].1) {
            Some(b) => {
                out.push_entry(es[i].0.clone(), b);
            },
            None => {
                proof {
                    lemma_blocks_of_json_none(sv, i + 1, sv.len() as int);
                }
                return None;
            },
        }
    }
    Some(out)
}

/// An item back from its JSON form.
#[verifier::loop_isolation(false)]
fn item_from_json(j: &JsonValue) -> (r: Option<Item>)
    ensures
        match r {
            Some(it) => item_of_json(j.deep_view()) == Some(it.deep_view()),
            None => item_of_json(j.deep_view()) is None,
        },
{
    let ghost jv = j.deep_view();
    match j {
        JsonValue::Object(es) => {
            proof {
                lemma_json_entries_view(es@, es@.len() as int);
            }
            if es.len() != 3 {
                return None;
            }
            if !(es[0].0 == String::from_str("id") && matches!(&es[0].1, JsonValue::Str(_))) {
                return None;
            }
            if !(es[1].0 == String::from_str("pairs") && matches!(
                &es[1].1,
                JsonValue::Object(_),
            )) {
                return None;
            }
            if !(es[2].0 == String::from_str("blocks") && matches!(
                &es[2].1,
                JsonValue::Object(_),
            )) {
                return None;
            }
            let id_s = match &es[0].1 {
                JsonValue::Str(w) => w.clone(),
                _ => String::new(),
            };
            let pm = match &es[1].1 {
                JsonValue::Object(pes) => match pairs_from_json(pes) {
                    Some(m) => m,
                    None => {
                        return None;
                    },
                },
                _ => {
                    return None;
                },
            };
            let bm = match &es[2].1 {
                JsonValue::Object(bes) => match blocks_from_json(
                    bes,
                    Ghost(jv->Object_0[2].1),
                ) {
                    Some(m) => m,
                    None => {
                        return None;
                    },
                },
                _ => {
                    return None;
                },
            };
            Some(Item { id: id_s, pairs: pm, blocks: bm })
        },
        _ => None,
    }
}

/// A group back from its JSON form.
#[verifier::loop_isolation(false)]
fn group_from_json(j: &JsonValue) -> (r: Option<Group>)
    ensures
        match r {
            Some(g) => group_of_json(j.deep_view()) == Some(g.deep_view()),
            None => group_of_json(j.deep_view()) is None,
        },
{
    let ghost jv = j.deep_view();
    match j {
        JsonValue::Object(es) => {
            proof {
                lemma_json_entries_view(es@, es@.len() as int);
            }
            if es.len() != 4 {
                return None;
            }
            if !(es[0].0 == String::from_str("id") && matches!(&es[0].1, JsonValue::Str(_))) {
                return None;
            }
            if !(es[1].0 == String::from_str("pairs") && matches!(
                &es[1].1,
                JsonValue::Object(_),
            )) {
                return None;
            }
            if !(es[2].0 == String::from_str("blocks") && matches!(
                &es[2].1,
                JsonValue::Object(_),
            )) {
                return None;
            }
            if !(es[3].0 == String::from_str("reference") && matches!(
                &es[3].1,
                JsonValue::Object(_),
            )) {
                return None;
            }
            let id_s = match &es[0].1 {
                JsonValue::Str(w) => w.clone(),
                _ => String::new(),
            };
            let pm = match &es[1].1 {
                JsonValue::Object(pes) => match pairs_from_json(pes) {
                    Some(m) => m,
                    None => {
                        return None;
                    },
                },
                _ => {
                    return None;
                },
            };
            let bm = match &es[2].1 {
                JsonValue::Object(bes) => match blocks_from_json(
                    bes,
                    Ghost(jv->Object_0[2].1),
                ) {
                    Some(m) => m,
                    None => {
                        return None;
                    },
                },
                _ => {
                    return None;
                },
            };
            let rm = match &es[3].1 {
                JsonValue::Object(res) => match pairs_from_json(res) {
                    Some(m) => m,
                    None => {
                        return None;
                    },
                },
                _ => {
                    return None;
                },
            };
            Some(Group { id: id_s, pairs: pm, blocks: bm, reference: rm })
        },
        _ => None,
    }
}

/// Import a document back from its external JSON shape: the trivial
/// inverse of [`to_json`].
#[verifier::loop_isolation(false)]
pub fn from_json(j: &JsonValue) -> (r: Option<Document>)
    ensures
        match r {
            Some(d) => doc_of_json(j.deep_view()) == Some(d.deep_view()),
            None => doc_of_json(j.deep_view()) is None,
        },
{
    let ghost jv = j.deep_view();
    match j {
        JsonValue::Object(es) => {
            proof {
                lemma_json_entries_view(es@, es@.len() as int);
            }
            if es.len() != 3 {
                return None;
            }
            if !(es[0].0 == String::from_str("variables") && matches!(
                &es[0].1,
                JsonValue::Object(_),
            )) {
                return None;
            }
            if !(es[1].0 == String::from_str("items") && matches!(
                &es[1].1,
                JsonValue::Object(_),
            )) {
                return None;
            }
            if !(es[2].0 == String::from_str("groups") && matches!(
                &es[2].1,
                JsonValue::Object(_),
            )) {
                return None;
            }
            let vm = match &es[0].1 {
                JsonValue::Object(ves) => match pairs_from_json(ves) {
                    Some(m) => m,
                    None => {
                        return None;
                    },
                },
                _ => {
                    return None;
                },
            };
            let im = match &es[1].1 {
                JsonValue::Object(ies) => {
                    let ghost iv = json_entries_view(ies@, ies@.len() as int);
                    proof {
                        lemma_json_entries_view(ies@, ies@.len() as int);
                    }
                    let ni = ies.len();
                    let mut out: KvMap<Item> = KvMap::new();
                    let mut failed = false;
                    for i in 0..ni
                        invariant
                            !failed ==> items_of_json(iv, i as int) == Some(out.deep_view()),
                            failed ==> items_of_json(iv, iv.len() as int) is None,
                    {
                        if !failed {
                            match item_from_json(&ies[i].1) {
                                Some(it) => {
                                    out.push_entry(ies[i].0.clone(), it);
                                },
                                None => {
                                    proof {
                                        lemma_items_of_json_none(iv, i + 1, iv.len() as int);
                                    }
                                    failed = true;
                                },
                            }
                        }
                    }
                    if failed {
                        return None;
                    }
                    out
                },
                _ => {
                    return None;
                },
            };
            let gm = match &es[2].1 {
                JsonValue::Object(ges) => {
                    let ghost gv = json_entries_view(ges@, ges@.len() as int);
                    proof {
                        lemma_json_entries_view(ges@, ges@.len() as int);
                    }
                    let ng = ges.len();
                    let mut out: KvMap<Group> = KvMap::new();
                    let mut failed = false;
                    for i in 0..ng
                        invariant
                            !failed ==> groups_of_json(gv, i as int) == Some(out.deep_view()),
                            failed ==> groups_of_json(gv, gv.len() as int) is None,
                    {
                        if !failed {
                            match group_from_json(&ges[i].1) {
                                Some(g) => {
                                    out.push_entry(ges[i].0.clone(), g);
                                },
                                None => {
                                    proof {
                                        lemma_groups_of_json_none(gv, i + 1, gv.len() as int);
                                    }
                                    failed = true;
                                },
                            }
                        }
                    }
                    if failed {
                        return None;
                    }
                    out
                },
                _ => {
                    return None;
                },
            };
            Some(Document { variables: vm, items: im, groups: gm })
        },
        _ => None,
    }
}

} // verus!
