//! Insertion-ordered tables keyed by name, as this library uses them: the
//! procedures of a script, the objects generated from them, and the entry
//! points of an executable.
//!
//! The tables are `LinkedHashMap`s. What one holds is named here as the
//! sequence of its entries in insertion order, and the few operations the
//! library needs are given contracts over that sequence. Those contracts
//! are taken from the map's source and are not proved.

use crate::parser::{block_view, Ast, AstView};
use crate::translator::{object_view, PreInstruction, PreInstructionView};
use linked_hash_map::LinkedHashMap;
use vstd::prelude::*;

verus! {

/// `LinkedHashMap` of the crate `linked_hash_map`: a hash map that keeps
/// its entries in the order of their insertion. Nothing of its inside is
/// known here.
#[verifier::external_type_specification]
#[verifier::external_body]
#[verifier::reject_recursive_types(K)]
#[verifier::reject_recursive_types(V)]
#[verifier::reject_recursive_types(S)]
pub struct ExLinkedHashMap<K, V, S>(LinkedHashMap<K, V, S>);

/// Whether no two entries have the same key.
pub open spec fn distinct_keys<V>(entries: Seq<(Seq<char>, V)>) -> bool {
    forall|i: int, j: int|
        0 <= i < entries.len() && 0 <= j < entries.len() && i != j ==> (#[trigger] entries[i]).0
            != (#[trigger] entries[j]).0
}

/// Whether some entry has the key.
pub open spec fn has_key<V>(entries: Seq<(Seq<char>, V)>, key: Seq<char>) -> bool {
    exists|i: int| 0 <= i < entries.len() && (#[trigger] entries[i]).0 == key
}

/// The position of an entry with the key, if there is one.
pub open spec fn key_index<V>(entries: Seq<(Seq<char>, V)>, key: Seq<char>) -> int {
    choose|i: int| 0 <= i < entries.len() && (#[trigger] entries[i]).0 == key
}

/// The value stored under the key, if there is one.
pub open spec fn value_of<V>(entries: Seq<(Seq<char>, V)>, key: Seq<char>) -> Option<V> {
    if has_key(entries, key) {
        Some(entries[key_index(entries, key)].1)
    } else {
        None
    }
}

/// The entries after an insertion: a new key goes to the back; a key that
/// is present loses its old entry and goes to the back with the new value.
pub open spec fn inserted<V>(entries: Seq<(Seq<char>, V)>, key: Seq<char>, value: V) -> Seq<
    (Seq<char>, V),
> {
    if has_key(entries, key) {
        entries.remove(key_index(entries, key)).push((key, value))
    } else {
        entries.push((key, value))
    }
}

/// An insertion keeps the keys distinct, and brings in nothing but the
/// entry that is inserted: every entry afterwards is that one or was there
/// before.
pub proof fn lemma_inserted<V>(entries: Seq<(Seq<char>, V)>, key: Seq<char>, value: V)
    requires
        distinct_keys(entries),
    ensures
        distinct_keys(inserted(entries, key, value)),
        forall|i: int|
            0 <= i < inserted(entries, key, value).len() ==> {
                ||| #[trigger] inserted(entries, key, value)[i] == (key, value)
                ||| entries.contains(inserted(entries, key, value)[i])
            },
{
    let after = inserted(entries, key, value);
    if has_key(entries, key) {
        let at = key_index(entries, key);
        let rest = entries.remove(at);
        assert forall|i: int| 0 <= i < rest.len() implies (#[trigger] rest[i]).0 != key
            && entries.contains(rest[i]) by {
            if i < at {
                assert(rest[i] == entries[i]);
            } else {
                assert(rest[i] == entries[i + 1]);
            }
        }
        assert forall|i: int, j: int|
            0 <= i < after.len() && 0 <= j < after.len() && i != j implies (#[trigger] after[i]).0
            != (#[trigger] after[j]).0 by {
            if i < rest.len() && j < rest.len() {
                let from = |k: int| if k < at { k } else { k + 1 };
                assert(rest[i] == entries[from(i)]);
                assert(rest[j] == entries[from(j)]);
            } else if i < rest.len() {
                assert(after[i] == rest[i]);
            } else {
                assert(after[j] == rest[j]);
            }
        }
        assert forall|i: int| 0 <= i < after.len() implies {
            ||| #[trigger] after[i] == (key, value)
            ||| entries.contains(after[i])
        } by {
            if i < rest.len() {
                assert(after[i] == rest[i]);
            }
        }
    } else {
        assert forall|i: int| 0 <= i < after.len() implies {
            ||| #[trigger] after[i] == (key, value)
            ||| entries.contains(after[i])
        } by {
            if i < entries.len() {
                assert(after[i] == entries[i]);
            }
        }
    }
}

/// The entries of a table of procedures, in insertion order.
pub uninterp spec fn proc_entries(map: LinkedHashMap<String, Vec<Ast>>) -> Seq<(Seq<char>, Seq<AstView>)>;

/// The entries of a table of objects, in insertion order.
pub uninterp spec fn object_entries(map: LinkedHashMap<String, Vec<PreInstruction>>) -> Seq<(Seq<char>, Seq<PreInstructionView>)>;

/// The entries of a table of entry points, in insertion order.
pub uninterp spec fn table_entries(map: LinkedHashMap<String, usize>) -> Seq<(Seq<char>, nat)>;

/// The views of named procedures, in order.
pub open spec fn procs_view(procs: Seq<(String, Vec<Ast>)>) -> Seq<(Seq<char>, Seq<AstView>)> {
    Seq::new(procs.len(), |i: int| (procs[i].0@, block_view(procs[i].1@)))
}

/// The views of named objects, in order.
pub open spec fn objects_view(objects: Seq<(String, Vec<PreInstruction>)>) -> Seq<
    (Seq<char>, Seq<PreInstructionView>),
> {
    Seq::new(objects.len(), |i: int| (objects[i].0@, object_view(objects[i].1@)))
}

/// The views of named addresses, in order.
pub open spec fn addresses_view(addresses: Seq<(String, usize)>) -> Seq<(Seq<char>, nat)> {
    Seq::new(addresses.len(), |i: int| (addresses[i].0@, addresses[i].1 as nat))
}

/// `LinkedHashMap::new`: a table without entries.
#[verifier::external_body]
pub(crate) fn objects_new() -> (map: LinkedHashMap<String, Vec<PreInstruction>>)
    ensures
        object_entries(map) == Seq::<(Seq<char>, Seq<PreInstructionView>)>::empty(),
{
    LinkedHashMap::new()
}

/// `LinkedHashMap::insert`: the entry goes to the back of the table; an
/// entry that had the same name is replaced by it.
#[verifier::external_body]
pub(crate) fn objects_insert(
    map: &mut LinkedHashMap<String, Vec<PreInstruction>>,
    name: String,
    code: Vec<PreInstruction>,
)
    ensures
        object_entries(*final(map)) == inserted(
            object_entries(*old(map)),
            name@,
            object_view(code@),
        ),
{
    map.insert(name, code);
}

/// `LinkedHashMap::into_iter`: hands out the entries in insertion order.
/// No two entries of a table have the same name.
#[verifier::external_body]
pub(crate) fn objects_into_vec(map: LinkedHashMap<String, Vec<PreInstruction>>) -> (entries: Vec<
    (String, Vec<PreInstruction>),
>)
    ensures
        objects_view(entries@) == object_entries(map),
        distinct_keys(objects_view(entries@)),
{
    map.into_iter().collect()
}

/// `LinkedHashMap::new`: a table without entries.
#[verifier::external_body]
pub(crate) fn procs_new() -> (map: LinkedHashMap<String, Vec<Ast>>)
    ensures
        proc_entries(map) == Seq::<(Seq<char>, Seq<AstView>)>::empty(),
{
    LinkedHashMap::new()
}

/// `LinkedHashMap::insert`: the entry goes to the back of the table; an
/// entry that had the same name is replaced by it.
#[verifier::external_body]
pub(crate) fn procs_insert(map: &mut LinkedHashMap<String, Vec<Ast>>, name: String, code: Vec<Ast>)
    ensures
        proc_entries(*final(map)) == inserted(proc_entries(*old(map)), name@, block_view(code@)),
{
    map.insert(name, code);
}

/// `LinkedHashMap::into_iter`: hands out the entries in insertion order.
/// No two entries of a table have the same name.
#[verifier::external_body]
pub(crate) fn procs_into_vec(map: LinkedHashMap<String, Vec<Ast>>) -> (entries: Vec<
    (String, Vec<Ast>),
>)
    ensures
        procs_view(entries@) == proc_entries(map),
        distinct_keys(procs_view(entries@)),
{
    map.into_iter().collect()
}

/// `LinkedHashMap::new`: a table without entries.
#[verifier::external_body]
pub(crate) fn table_new() -> (map: LinkedHashMap<String, usize>)
    ensures
        table_entries(map) == Seq::<(Seq<char>, nat)>::empty(),
{
    LinkedHashMap::new()
}

/// `LinkedHashMap::insert`: the entry goes to the back of the table; an
/// entry that had the same name is replaced by it.
#[verifier::external_body]
pub(crate) fn table_insert(map: &mut LinkedHashMap<String, usize>, name: String, address: usize)
    ensures
        table_entries(*final(map)) == inserted(table_entries(*old(map)), name@, address as nat),
{
    map.insert(name, address);
}

/// `LinkedHashMap::get`: the address stored under the name, if there is
/// one.
#[verifier::external_body]
pub(crate) fn table_get(map: &LinkedHashMap<String, usize>, name: &str) -> (address: Option<usize>)
    ensures
        match address {
            Some(found) => value_of(table_entries(*map), name@) == Some(found as nat),
            None => value_of(table_entries(*map), name@) is None,
        },
{
    map.get(name).copied()
}

/// `LinkedHashMap::iter`: hands out copies of the entries in insertion
/// order. No two entries of a table have the same name.
#[verifier::external_body]
pub(crate) fn table_to_vec(map: &LinkedHashMap<String, usize>) -> (entries: Vec<(String, usize)>)
    ensures
        addresses_view(entries@) == table_entries(*map),
        distinct_keys(addresses_view(entries@)),
{
    map.iter().map(|(name, address)| (name.clone(), *address)).collect()
}

} // verus!
