//! The insertion-ordered set and map of the `indexmap` crate, as the parser
//! fills them. Verus does not look inside them: what they hold has a name
//! here, and each call that the parser makes states its effect on it.

use vstd::prelude::*;
use indexmap::{IndexMap, IndexSet};
use crate::parser::values::{Value, ValueView};

verus! {

/// `indexmap::IndexMap`, a hash map that walks its entries in the order in
/// which their keys were first put in. Nothing inside it is seen here.
#[verifier::external_type_specification]
#[verifier::external_body]
#[verifier::reject_recursive_types(K)]
#[verifier::reject_recursive_types(V)]
#[verifier::reject_recursive_types(S)]
pub struct ExIndexMap<K, V, S>(indexmap::IndexMap<K, V, S>);

/// `indexmap::IndexSet`, a hash set that walks its items in the order in
/// which they were first put in. Nothing inside it is seen here.
#[verifier::external_type_specification]
#[verifier::external_body]
#[verifier::reject_recursive_types(T)]
#[verifier::reject_recursive_types(S)]
pub struct ExIndexSet<T, S>(indexmap::IndexSet<T, S>);

/// The items of a set of texts, in the order in which the set walks them.
pub uninterp spec fn set_items(set: IndexSet<String>) -> Seq<Seq<char>>;

/// The entries of a map from texts to values, in the order in which the map
/// walks them.
pub uninterp spec fn map_entries(map: IndexMap<String, Value>) -> Seq<(Seq<char>, ValueView)>;

/// The entries of a map from texts to texts, in the order in which the map
/// walks them.
pub uninterp spec fn text_entries(map: IndexMap<String, String>) -> Seq<(Seq<char>, Seq<char>)>;

/// `items` with `item` put in as an ordered set takes it: behind the others
/// if it is new, not at all if it is there.
pub open spec fn with_item(items: Seq<Seq<char>>, item: Seq<char>) -> Seq<Seq<char>> {
    if items.contains(item) {
        items
    } else {
        items.push(item)
    }
}

/// Whether an entry of `entries` has the key `key`.
pub open spec fn has_key<V>(entries: Seq<(Seq<char>, V)>, key: Seq<char>) -> bool {
    exists|i: int| 0 <= i < entries.len() && (#[trigger] entries[i]).0 == key
}

/// The index of an entry of `entries` with the key `key`.
pub open spec fn key_index<V>(entries: Seq<(Seq<char>, V)>, key: Seq<char>) -> int {
    choose|i: int| 0 <= i < entries.len() && (#[trigger] entries[i]).0 == key
}

/// `entries` with `key` bound to `value` as an ordered map binds it: in the
/// place of the entry with that key if there is one, behind the others if not.
pub open spec fn with_entry<V>(entries: Seq<(Seq<char>, V)>, key: Seq<char>, value: V) -> Seq<
    (Seq<char>, V),
> {
    if has_key(entries, key) {
        entries.update(key_index(entries, key), (key, value))
    } else {
        entries.push((key, value))
    }
}

/// Whether no key occurs twice in `entries`.
pub open spec fn keys_distinct<V>(entries: Seq<(Seq<char>, V)>) -> bool {
    forall|i: int, j: int|
        0 <= i < j < entries.len() ==> (#[trigger] entries[i]).0 != (#[trigger] entries[j]).0
}

/// Putting an item into a sequence without repetitions leaves it so.
pub proof fn lemma_with_item_distinct(items: Seq<Seq<char>>, item: Seq<char>)
    requires
        items.no_duplicates(),
    ensures
        with_item(items, item).no_duplicates(),
        with_item(items, item).contains(item),
        forall|other: Seq<char>| items.contains(other) ==> with_item(items, item).contains(other),
{
    if !items.contains(item) {
        let grown = items.push(item);
        assert(grown[items.len() as int] == item);
        assert forall|other: Seq<char>| items.contains(other) implies grown.contains(other) by {
            let i = choose|i: int| 0 <= i < items.len() && items[i] == other;
            assert(grown[i] == other);
        }
        assert forall|i: int, j: int| 0 <= i < grown.len() && 0 <= j < grown.len() && i != j
            implies grown[i] != grown[j] by {
            if i == items.len() {
                assert(items[j] == grown[j]);
            } else if j == items.len() {
                assert(items[i] == grown[i]);
            }
        }
    }
}

/// Binding a key in entries with distinct keys leaves the keys distinct,
/// and the key bound to the value.
pub proof fn lemma_with_entry_distinct<V>(entries: Seq<(Seq<char>, V)>, key: Seq<char>, value: V)
    requires
        keys_distinct(entries),
    ensures
        keys_distinct(with_entry(entries, key, value)),
        with_entry(entries, key, value).contains((key, value)),
{
    let bound = with_entry(entries, key, value);
    if has_key(entries, key) {
        let at = key_index(entries, key);
        assert(bound[at] == (key, value));
        assert forall|i: int, j: int| 0 <= i < j < bound.len() implies (#[trigger] bound[i]).0 != (
        #[trigger] bound[j]).0 by {
            assert(bound[i].0 == entries[i].0);
            assert(bound[j].0 == entries[j].0);
        }
    } else {
        assert(bound[entries.len() as int] == (key, value));
        assert forall|i: int, j: int| 0 <= i < j < bound.len() implies (#[trigger] bound[i]).0 != (
        #[trigger] bound[j]).0 by {
            assert(bound[i] == entries[i]);
            if j < entries.len() {
                assert(bound[j] == entries[j]);
            }
        }
    }
}

/// `IndexSet::new` makes a set that holds nothing.
#[verifier::external_body]
pub(crate) fn new_set() -> (set: IndexSet<String>)
    ensures
        set_items(set) == Seq::<Seq<char>>::empty(),
{
    IndexSet::new()
}

/// `IndexSet::insert` leaves the set as it is and returns `false` if an equal
/// item is in it; else it puts the item in, last in order, and returns `true`.
#[verifier::external_body]
pub(crate) fn set_insert(set: &mut IndexSet<String>, item: String) -> (added: bool)
    ensures
        added == !set_items(*old(set)).contains(item@),
        set_items(*final(set)) == with_item(set_items(*old(set)), item@),
{
    set.insert(item)
}

/// `IndexSet::clone` makes a set of the same items in the same order.
#[verifier::external_body]
pub(crate) fn set_clone(set: &IndexSet<String>) -> (copy: IndexSet<String>)
    ensures
        set_items(copy) == set_items(*set),
{
    set.clone()
}

/// `IndexMap::new` makes a map that holds nothing.
#[verifier::external_body]
pub(crate) fn new_map() -> (map: IndexMap<String, Value>)
    ensures
        map_entries(map) == Seq::<(Seq<char>, ValueView)>::empty(),
{
    IndexMap::new()
}

/// `IndexMap::insert`: if an equal key is in the map, it stays in its place,
/// its value is replaced and the old value is returned; else the pair is put
/// in, last in order, and nothing is returned.
#[verifier::external_body]
pub(crate) fn map_insert(
    map: &mut IndexMap<String, Value>,
    key: String,
    value: Value,
) -> (previous: Option<Value>)
    ensures
        previous is Some == has_key(map_entries(*old(map)), key@),
        previous matches Some(was) ==> was@ == map_entries(*old(map))[key_index(
            map_entries(*old(map)),
            key@,
        )].1,
        map_entries(*final(map)) == with_entry(map_entries(*old(map)), key@, value@),
{
    map.insert(key, value)
}

/// `IndexMap::clone` makes a map of the same entries in the same order.
#[verifier::external_body]
pub(crate) fn map_clone(map: &IndexMap<String, Value>) -> (copy: IndexMap<String, Value>)
    ensures
        map_entries(copy) == map_entries(*map),
{
    map.clone()
}

/// `IndexMap::new` makes a map that holds nothing.
#[verifier::external_body]
pub(crate) fn new_text_map() -> (map: IndexMap<String, String>)
    ensures
        text_entries(map) == Seq::<(Seq<char>, Seq<char>)>::empty(),
{
    IndexMap::new()
}

/// `IndexMap::insert`: if an equal key is in the map, it stays in its place,
/// its value is replaced and the old value is returned; else the pair is put
/// in, last in order, and nothing is returned.
#[verifier::external_body]
pub(crate) fn text_map_insert(
    map: &mut IndexMap<String, String>,
    key: String,
    value: String,
) -> (previous: Option<String>)
    ensures
        previous is Some == has_key(text_entries(*old(map)), key@),
        previous matches Some(was) ==> was@ == text_entries(*old(map))[key_index(
            text_entries(*old(map)),
            key@,
        )].1,
        text_entries(*final(map)) == with_entry(text_entries(*old(map)), key@, value@),
{
    map.insert(key, value)
}

/// `IndexMap::clone` makes a map of the same entries in the same order.
#[verifier::external_body]
pub(crate) fn text_map_clone(map: &IndexMap<String, String>) -> (copy: IndexMap<String, String>)
    ensures
        text_entries(copy) == text_entries(*map),
{
    map.clone()
}

} // verus!
