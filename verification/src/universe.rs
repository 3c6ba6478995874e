//! The finite universe of traversal tasks: every task the walker can ever
//! queue addresses a catalog slot and either the crate root or an
//! identifier mentioned somewhere in the catalog.  Its finiteness bounds
//! the visited set and so proves termination.

use vstd::prelude::*;
use vstd::seq_lib::seq_to_set_is_finite;

use crate::catalog::{Catalog, CrateDesc, lookup_seq, resolve_spec};
use crate::items::{Id, Item, ItemKind, ResolveTarget, item_ids};

verus! {

/// Every identifier mentioned by any item of an index.
pub open spec fn index_ids(index: Seq<(Id, Item)>) -> Seq<Id>
    decreases index.len(),
{
    if index.len() == 0 {
        Seq::empty()
    } else {
        item_ids(index[0].1) + index_ids(index.drop_first())
    }
}

/// Every identifier mentioned by any item of any populated slot.
pub open spec fn catalog_ids(slots: Seq<Option<CrateDesc>>) -> Seq<Id>
    decreases slots.len(),
{
    if slots.len() == 0 {
        Seq::empty()
    } else {
        (match slots[0] {
            Some(d) => index_ids(d.index@),
            None => Seq::empty(),
        }) + catalog_ids(slots.drop_first())
    }
}

/// Every resolution target a task can carry.
pub open spec fn catalog_targets(cat: Catalog) -> Seq<ResolveTarget> {
    seq![ResolveTarget::CrateRoot] + catalog_ids(cat.slots@).map_values(
        |i: Id| ResolveTarget::ById(i),
    )
}

/// All tasks addressing slots below `k`.
pub open spec fn universe_seq(cat: Catalog, k: nat) -> Seq<(usize, ResolveTarget)>
    decreases k,
{
    if k == 0 {
        Seq::empty()
    } else {
        universe_seq(cat, (k - 1) as nat) + catalog_targets(cat).map_values(
            |t: ResolveTarget| (((k - 1) as usize), t),
        )
    }
}

/// The finite set of all tasks the walker can ever queue for this catalog.
pub open spec fn universe(cat: Catalog) -> Set<(usize, ResolveTarget)> {
    universe_seq(cat, cat.slots@.len() as nat).to_set()
}

pub proof fn lemma_universe_finite(cat: Catalog)
    ensures
        universe(cat).finite(),
{
    broadcast use seq_to_set_is_finite;

}

proof fn lemma_concat_contains<A>(a: Seq<A>, b: Seq<A>, x: A)
    ensures
        (a + b).contains(x) <==> a.contains(x) || b.contains(x),
{
    if a.contains(x) {
        let i = choose|i: int| 0 <= i < a.len() && a[i] == x;
        assert((a + b)[i] == x);
    }
    if b.contains(x) {
        let i = choose|i: int| 0 <= i < b.len() && b[i] == x;
        assert((a + b)[a.len() + i] == x);
    }
    if (a + b).contains(x) {
        let i = choose|i: int| 0 <= i < (a + b).len() && (a + b)[i] == x;
        if i < a.len() {
            assert(a[i] == x);
        } else {
            assert(b[i - a.len()] == x);
        }
    }
}

/// An identifier mentioned by an item found in an index is among the
/// index's mentioned identifiers.
proof fn lemma_item_ids_in_index(index: Seq<(Id, Item)>, key: Id, x: Id)
    requires
        lookup_seq(index, key) is Some,
        item_ids(lookup_seq(index, key)->Some_0).contains(x),
    ensures
        index_ids(index).contains(x),
    decreases index.len(),
{
    if index.len() == 0 {
    } else if index[0].0 == key {
        lemma_concat_contains(item_ids(index[0].1), index_ids(index.drop_first()), x);
    } else {
        lemma_item_ids_in_index(index.drop_first(), key, x);
        lemma_concat_contains(item_ids(index[0].1), index_ids(index.drop_first()), x);
    }
}

/// An identifier mentioned in one populated slot is mentioned in the
/// catalog.
proof fn lemma_slot_ids_in_catalog(slots: Seq<Option<CrateDesc>>, c: int, x: Id)
    requires
        0 <= c < slots.len(),
        slots[c] is Some,
        index_ids(slots[c]->Some_0.index@).contains(x),
    ensures
        catalog_ids(slots).contains(x),
    decreases c,
{
    let head = (match slots[0] {
        Some(d) => index_ids(d.index@),
        None => Seq::<Id>::empty(),
    });
    if c == 0 {
        lemma_concat_contains(head, catalog_ids(slots.drop_first()), x);
    } else {
        assert(slots.drop_first()[c - 1] == slots[c]);
        lemma_slot_ids_in_catalog(slots.drop_first(), c - 1, x);
        lemma_concat_contains(head, catalog_ids(slots.drop_first()), x);
    }
}

proof fn lemma_universe_seq_contains(cat: Catalog, k: nat, c: usize, t: ResolveTarget)
    requires
        c < k,
        catalog_targets(cat).contains(t),
    ensures
        universe_seq(cat, k).contains((c, t)),
    decreases k,
{
    let chunk = catalog_targets(cat).map_values(|t2: ResolveTarget| (((k - 1) as usize), t2));
    if k - 1 == c {
        let m = choose|m: int|
            0 <= m < catalog_targets(cat).len() && catalog_targets(cat)[m] == t;
        assert(chunk[m] == (c, t));
        lemma_concat_contains(universe_seq(cat, (k - 1) as nat), chunk, (c, t));
    } else {
        lemma_universe_seq_contains(cat, (k - 1) as nat, c, t);
        lemma_concat_contains(universe_seq(cat, (k - 1) as nat), chunk, (c, t));
    }
}

/// A task is in the universe when it addresses a slot in range and its
/// target is the crate root or a mentioned identifier.
pub proof fn lemma_task_in_universe(cat: Catalog, c: usize, t: ResolveTarget)
    requires
        c < cat.slots@.len(),
        match t {
            ResolveTarget::CrateRoot => true,
            ResolveTarget::ById(i) => catalog_ids(cat.slots@).contains(i),
        },
    ensures
        universe(cat).contains((c, t)),
{
    match t {
        ResolveTarget::CrateRoot => {
            assert(catalog_targets(cat)[0] == ResolveTarget::CrateRoot);
            assert(catalog_targets(cat).contains(t));
        },
        ResolveTarget::ById(i) => {
            let m = choose|m: int|
                0 <= m < catalog_ids(cat.slots@).len() && catalog_ids(cat.slots@)[m] == i;
            assert(catalog_targets(cat)[1 + m] == t);
            assert(catalog_targets(cat).contains(t));
        },
    }
    lemma_universe_seq_contains(cat, cat.slots@.len() as nat, c, t);
}

/// Any identifier mentioned by an item that resolution can return is a
/// task in the universe, at the item's own crate slot.
pub proof fn lemma_member_in_universe(cat: Catalog, c: usize, t: ResolveTarget, x: Id)
    requires
        c < cat.slots@.len(),
        cat.slots@[c as int] is Some,
        resolve_spec(cat.slots@[c as int]->Some_0, t) is Some,
        item_ids(resolve_spec(cat.slots@[c as int]->Some_0, t)->Some_0).contains(x),
    ensures
        universe(cat).contains((c, ResolveTarget::ById(x))),
{
    let desc = cat.slots@[c as int]->Some_0;
    match t {
        ResolveTarget::CrateRoot => {
            lemma_item_ids_in_index(desc.index@, desc.root, x);
        },
        ResolveTarget::ById(id) => {
            if lookup_seq(desc.index@, id) is Some {
                lemma_item_ids_in_index(desc.index@, id, x);
            } else {
                lemma_item_ids_in_index(desc.index@, desc.root, x);
            }
        },
    }
    lemma_slot_ids_in_catalog(cat.slots@, c as int, x);
    lemma_task_in_universe(cat, c, ResolveTarget::ById(x));
}

} // verus!
