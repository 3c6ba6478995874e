//! The crate catalog: an ordered sequence of optional crate descriptions,
//! the identifier resolver, and the well-formedness demands the walker
//! relies on.

use vstd::prelude::*;

use crate::items::{Id, Item, ItemKind, StructKind};
use crate::items::ResolveTarget;
use crate::paths::str_eq;

verus! {

/// One compiled crate's API surface: a display name (used to match
/// re-export path prefixes), the root module's identifier, and the
/// identifier-keyed index of items.
pub struct CrateDesc {
    pub name: String,
    pub root: Id,
    pub index: Vec<(Id, Item)>,
}

/// An ordered sequence of optional crate descriptions.  Slot 0 is the
/// target crate; other populated slots correspond to the target's
/// external-crate mapping.
pub struct Catalog {
    pub slots: Vec<Option<CrateDesc>>,
}

/// The first entry with the given key, if any.
pub open spec fn lookup_seq(index: Seq<(Id, Item)>, id: Id) -> Option<Item>
    decreases index.len(),
{
    if index.len() == 0 {
        None
    } else if index[0].0 == id {
        Some(index[0].1)
    } else {
        lookup_seq(index.drop_first(), id)
    }
}

/// A successful lookup returns one of the index's own entries.
pub proof fn lemma_lookup_is_entry(index: Seq<(Id, Item)>, id: Id)
    requires
        lookup_seq(index, id) is Some,
    ensures
        exists|i: int|
            0 <= i < index.len() && #[trigger] index[i].0 == id && lookup_seq(index, id) == Some(
                index[i].1,
            ),
    decreases index.len(),
{
    if index.len() == 0 {
    } else if index[0].0 == id {
        assert(index[0].0 == id && lookup_seq(index, id) == Some(index[0].1));
    } else {
        let rest = index.drop_first();
        lemma_lookup_is_entry(rest, id);
        let i = choose|i: int|
            0 <= i < rest.len() && #[trigger] rest[i].0 == id && lookup_seq(rest, id) == Some(
                rest[i].1,
            );
        assert(index[i + 1].0 == id && lookup_seq(index, id) == Some(index[i + 1].1));
    }
}

/// A field identifier that resolves, within the given index, to an item
/// carrying a display name.
pub open spec fn field_wf(index: Seq<(Id, Item)>, fid: Id) -> bool {
    match lookup_seq(index, fid) {
        Some(f) => f.name is Some,
        None => false,
    }
}

/// Every listed field resolves within the given index to a named item.
pub open spec fn fields_wf(index: Seq<(Id, Item)>, fields: Seq<Id>) -> bool {
    forall|i: int| 0 <= i < fields.len() ==> field_wf(index, #[trigger] fields[i])
}

/// For a plain struct, every field resolves within the given index to a
/// named item; unit and tuple structs ask nothing.
pub open spec fn struct_fields_wf(index: Seq<(Id, Item)>, kind: StructKind) -> bool {
    match kind {
        StructKind::Plain { fields } => fields_wf(index, fields@),
        _ => true,
    }
}

/// What the walker and documenter demand of one item: a re-export carries
/// its resolved target identifier, and a struct has a display name and
/// well-formed fields.
pub open spec fn item_wf(index: Seq<(Id, Item)>, item: Item) -> bool {
    match item.kind {
        ItemKind::Use { source: _, id } => id is Some,
        ItemKind::Struct { kind } => item.name is Some && struct_fields_wf(index, kind),
        _ => true,
    }
}

/// A well-formed crate description: the root item is present, and every
/// indexed item satisfies `item_wf`.
pub open spec fn desc_wf(desc: CrateDesc) -> bool {
    &&& lookup_seq(desc.index@, desc.root) is Some
    &&& forall|i: int|
        0 <= i < desc.index@.len() ==> item_wf(desc.index@, (#[trigger] desc.index@[i]).1)
}

/// Resolution: look the target up in the addressed crate's index, falling
/// back to that crate's root item when the identifier is absent.
pub open spec fn resolve_spec(desc: CrateDesc, t: ResolveTarget) -> Option<Item> {
    match t {
        ResolveTarget::CrateRoot => lookup_seq(desc.index@, desc.root),
        ResolveTarget::ById(id) => match lookup_seq(desc.index@, id) {
            Some(item) => Some(item),
            None => lookup_seq(desc.index@, desc.root),
        },
    }
}

/// Whatever a resolution returns satisfies `item_wf`, and on a well-formed
/// description it returns something.
pub proof fn lemma_resolve_wf(desc: CrateDesc, t: ResolveTarget)
    requires
        desc_wf(desc),
    ensures
        resolve_spec(desc, t) is Some,
        item_wf(desc.index@, resolve_spec(desc, t)->Some_0),
{
    match t {
        ResolveTarget::CrateRoot => {
            lemma_lookup_is_entry(desc.index@, desc.root);
        },
        ResolveTarget::ById(id) => {
            if lookup_seq(desc.index@, id) is Some {
                lemma_lookup_is_entry(desc.index@, id);
            } else {
                lemma_lookup_is_entry(desc.index@, desc.root);
            }
        },
    }
}

/// The first populated slot, scanning up from `j`, whose crate name equals
/// the given path segment.
pub open spec fn find_crate_from(slots: Seq<Option<CrateDesc>>, seg: Seq<char>, j: int) -> Option<
    int,
>
    decreases slots.len() - j,
{
    if j < 0 || j >= slots.len() {
        None
    } else {
        match slots[j] {
            Some(d) => if d.name@ == seg {
                Some(j)
            } else {
                find_crate_from(slots, seg, j + 1)
            },
            None => find_crate_from(slots, seg, j + 1),
        }
    }
}

/// The first populated slot whose crate name equals the given segment.
pub open spec fn find_crate(slots: Seq<Option<CrateDesc>>, seg: Seq<char>) -> Option<int> {
    find_crate_from(slots, seg, 0)
}

/// A successful scan names a populated slot in range whose name matches.
pub proof fn lemma_find_crate_props(slots: Seq<Option<CrateDesc>>, seg: Seq<char>, j: int)
    requires
        0 <= j,
        find_crate_from(slots, seg, j) is Some,
    ensures
        ({
            let r = find_crate_from(slots, seg, j)->Some_0;
            &&& j <= r < slots.len()
            &&& slots[r] is Some
            &&& slots[r]->Some_0.name@ == seg
        }),
    decreases slots.len() - j,
{
    if j >= slots.len() {
    } else {
        match slots[j] {
            Some(d) => {
                if d.name@ == seg {
                } else {
                    lemma_find_crate_props(slots, seg, j + 1);
                }
            },
            None => {
                lemma_find_crate_props(slots, seg, j + 1);
            },
        }
    }
}

impl CrateDesc {
    /// Look an identifier up in this crate's index.
    pub fn lookup(&self, id: Id) -> (r: Option<&Item>)
        ensures
            match r {
                Some(item) => lookup_seq(self.index@, id) == Some(*item),
                None => lookup_seq(self.index@, id) is None,
            },
    {
        let n = self.index.len();
        let mut i: usize = 0;
        proof {
            assert(self.index@.skip(0) =~= self.index@);
        }
        while i < n
            invariant
                n == self.index.len(),
                0 <= i <= n,
                lookup_seq(self.index@, id) == lookup_seq(self.index@.skip(i as int), id),
            decreases n - i,
        {
            let entry = &self.index[i];
            if entry.0 == id {
                proof {
                    assert(self.index@.skip(i as int)[0] == self.index@[i as int]);
                }
                return Some(&entry.1);
            }
            proof {
                assert(self.index@.skip(i as int).drop_first() =~= self.index@.skip(i as int + 1));
            }
            i += 1;
        }
        proof {
            assert(self.index@.skip(n as int).len() == 0);
        }
        None
    }

    /// Resolve a target: a concrete identifier when it is present in the
    /// index, with a fallback to this crate's root item.
    pub fn resolve(&self, t: ResolveTarget) -> (r: Option<&Item>)
        ensures
            match r {
                Some(item) => resolve_spec(*self, t) == Some(*item),
                None => resolve_spec(*self, t) is None,
            },
    {
        match t {
            ResolveTarget::CrateRoot => self.lookup(self.root),
            ResolveTarget::ById(id) => match self.lookup(id) {
                Some(item) => Some(item),
                None => self.lookup(self.root),
            },
        }
    }
}

impl Catalog {
    /// The catalog shape the walker relies on: a populated target slot, and
    /// well-formed descriptions in every populated slot.
    pub open spec fn wf(self) -> bool {
        &&& self.slots@.len() >= 1
        &&& self.slots@[0] is Some
        &&& forall|c: int|
            0 <= c < self.slots@.len() ==> match #[trigger] self.slots@[c] {
                Some(d) => desc_wf(d),
                None => true,
            }
    }

    /// Scan for the first populated slot whose crate name equals `seg`.
    pub fn find_crate(&self, seg: &str) -> (r: Option<usize>)
        ensures
            match r {
                Some(j) => find_crate(self.slots@, seg@) == Some(j as int),
                None => find_crate(self.slots@, seg@) is None,
            },
    {
        let n = self.slots.len();
        let mut j: usize = 0;
        while j < n
            invariant
                n == self.slots@.len(),
                0 <= j <= n,
                find_crate(self.slots@, seg@) == find_crate_from(self.slots@, seg@, j as int),
            decreases n - j,
        {
            match &self.slots[j] {
                Some(d) => {
                    if str_eq(d.name.as_str(), seg) {
                        return Some(j);
                    }
                },
                None => {},
            }
            j += 1;
        }
        None
    }
}

/// Decide `item_wf` for one item.
fn check_item(desc: &CrateDesc, item: &Item) -> (b: bool)
    ensures
        b == item_wf(desc.index@, *item),
{
    match &item.kind {
        ItemKind::Use { source: _, id } => id.is_some(),
        ItemKind::Struct { kind } => {
            if item.name.is_none() {
                return false;
            }
            match kind {
                StructKind::Plain { fields } => {
                    let n = fields.len();
                    let mut i: usize = 0;
                    while i < n
                        invariant
                            n == fields@.len(),
                            0 <= i <= n,
                            item.name is Some,
                            item.kind == (ItemKind::Struct {
                                kind: StructKind::Plain { fields: *fields },
                            }),
                            forall|k: int|
                                0 <= k < i ==> field_wf(desc.index@, #[trigger] fields@[k]),
                        decreases n - i,
                    {
                        match desc.lookup(fields[i]) {
                            Some(f) => {
                                if f.name.is_none() {
                                    proof {
                                        assert(!field_wf(desc.index@, fields@[i as int]));
                                        assert(!fields_wf(desc.index@, fields@));
                                        assert(!struct_fields_wf(desc.index@, StructKind::Plain {
                                            fields: *fields,
                                        }));
                                    }
                                    return false;
                                }
                            },
                            None => {
                                proof {
                                    assert(!field_wf(desc.index@, fields@[i as int]));
                                    assert(!fields_wf(desc.index@, fields@));
                                    assert(!struct_fields_wf(desc.index@, StructKind::Plain {
                                        fields: *fields,
                                    }));
                                }
                                return false;
                            },
                        }
                        i += 1;
                    }
                    true
                },
                StructKind::Unit => true,
                StructKind::Tuple => true,
            }
        },
        _ => true,
    }
}

/// Decide `desc_wf` for one crate description.
fn check_desc(desc: &CrateDesc) -> (b: bool)
    ensures
        b == desc_wf(*desc),
{
    match desc.lookup(desc.root) {
        Some(_) => {},
        None => {
            return false;
        },
    }
    let n = desc.index.len();
    let mut i: usize = 0;
    while i < n
        invariant
            n == desc.index@.len(),
            lookup_seq(desc.index@, desc.root) is Some,
            0 <= i <= n,
            forall|k: int|
                0 <= k < i ==> item_wf(desc.index@, (#[trigger] desc.index@[k]).1),
        decreases n - i,
    {
        if !check_item(desc, &desc.index[i].1) {
            return false;
        }
        i += 1;
    }
    true
}

impl Catalog {
    /// Decide the catalog's well-formedness; callers establish `wf` by
    /// testing this before walking.
    pub fn check_wf(&self) -> (b: bool)
        ensures
            b == self.wf(),
    {
        let n = self.slots.len();
        if n == 0 {
            return false;
        }
        match &self.slots[0] {
            Some(_) => {},
            None => {
                return false;
            },
        }
        let mut c: usize = 0;
        while c < n
            invariant
                n == self.slots@.len(),
                1 <= n,
                self.slots@[0] is Some,
                0 <= c <= n,
                forall|k: int|
                    0 <= k < c ==> match #[trigger] self.slots@[k] {
                        Some(d) => desc_wf(d),
                        None => true,
                    },
            decreases n - c,
        {
            match &self.slots[c] {
                Some(d) => {
                    if !check_desc(d) {
                        return false;
                    }
                },
                None => {},
            }
            c += 1;
        }
        true
    }
}

/// The largest slot index named by the loaded external descriptions.
pub open spec fn max_slot(externals: Seq<(usize, CrateDesc)>) -> int
    decreases externals.len(),
{
    if externals.len() == 0 {
        0
    } else {
        let rest = max_slot(externals.drop_last());
        if externals.last().0 > rest {
            externals.last().0 as int
        } else {
            rest
        }
    }
}

/// The description that ends up in slot `c`: the last loaded description
/// named for that slot, if any.
pub open spec fn slot_value(externals: Seq<(usize, CrateDesc)>, c: int) -> Option<CrateDesc>
    decreases externals.len(),
{
    if externals.len() == 0 {
        None
    } else if externals.last().0 == c {
        Some(externals.last().1)
    } else {
        slot_value(externals.drop_last(), c)
    }
}

proof fn lemma_max_slot_elem(s: Seq<(usize, CrateDesc)>, k: int)
    requires
        0 <= k < s.len(),
    ensures
        s[k].0 as int <= max_slot(s),
        max_slot(s) >= 0,
    decreases s.len(),
{
    if k == s.len() - 1 {
        if s.len() > 1 {
            lemma_max_slot_elem(s.drop_last(), 0);
        }
    } else {
        lemma_max_slot_elem(s.drop_last(), k);
        assert(s.drop_last()[k] == s[k]);
    }
}

proof fn lemma_slot_value_prepend(e: (usize, CrateDesc), s: Seq<(usize, CrateDesc)>, c: int)
    ensures
        slot_value(seq![e] + s, c) == (if slot_value(s, c) is Some {
            slot_value(s, c)
        } else if e.0 == c {
            Some(e.1)
        } else {
            None::<CrateDesc>
        }),
    decreases s.len(),
{
    let t = seq![e] + s;
    if s.len() == 0 {
        assert(t.last() == e);
        assert(t.drop_last() =~= Seq::<(usize, CrateDesc)>::empty());
    } else {
        assert(t.last() == s.last());
        assert(t.drop_last() =~= seq![e] + s.drop_last());
        lemma_slot_value_prepend(e, s.drop_last(), c);
    }
}

/// Assemble a catalog from the target crate's description and the loaded
/// external descriptions, each tagged with its external-crate index.  The
/// target takes slot 0; every external description lands in its own slot
/// (the last one named for a slot wins), and no other slot is populated.
pub fn build_catalog(target: CrateDesc, externals: Vec<(usize, CrateDesc)>) -> (cat: Catalog)
    requires
        forall|k: int| 0 <= k < externals@.len() ==> 1 <= (#[trigger] externals@[k]).0,
        max_slot(externals@) < usize::MAX,
    ensures
        cat.slots@.len() == max_slot(externals@) + 1,
        cat.slots@[0] == Some(target),
        forall|c: int| 1 <= c < cat.slots@.len() ==> cat.slots@[c] == slot_value(externals@, c),
{
    let ghost ext0 = externals@;
    let n = externals.len();
    let mut size: usize = 1;
    let mut k: usize = 0;
    proof {
        assert(ext0.take(0) =~= Seq::<(usize, CrateDesc)>::empty());
    }
    while k < n
        invariant
            n == ext0.len(),
            externals@ == ext0,
            max_slot(ext0) < usize::MAX,
            0 <= k <= n,
            size as int == max_slot(ext0.take(k as int)) + 1,
        decreases n - k,
    {
        let idx = externals[k].0;
        proof {
            lemma_max_slot_elem(ext0, k as int);
            assert(ext0.take(k as int + 1).drop_last() =~= ext0.take(k as int));
            assert(ext0.take(k as int + 1).last() == ext0[k as int]);
        }
        if idx + 1 > size {
            size = idx + 1;
        }
        k += 1;
    }
    proof {
        assert(ext0.take(n as int) =~= ext0);
    }
    let mut slots: Vec<Option<CrateDesc>> = Vec::new();
    let mut c: usize = 0;
    while c < size
        invariant
            0 <= c <= size,
            slots@.len() == c,
            forall|i: int| 0 <= i < c ==> (#[trigger] slots@[i]) is None,
        decreases size - c,
    {
        slots.push(None);
        c += 1;
    }
    let mut externals = externals;
    proof {
        assert(ext0.take(n as int) == ext0);
        assert(ext0.skip(n as int) =~= Seq::<(usize, CrateDesc)>::empty());
    }
    while externals.len() > 0
        invariant
            externals@.len() <= ext0.len(),
            externals@ == ext0.take(externals@.len() as int),
            max_slot(ext0) < usize::MAX,
            forall|j: int| 0 <= j < ext0.len() ==> 1 <= (#[trigger] ext0[j]).0,
            slots@.len() == size,
            size as int == max_slot(ext0) + 1,
            slots@[0] is None,
            forall|cc: int|
                1 <= cc < size ==> #[trigger] slots@[cc] == slot_value(
                    ext0.skip(externals@.len() as int),
                    cc,
                ),
        decreases externals@.len(),
    {
        let ghost m = externals@.len() as int;
        let pair = match externals.pop() {
            Some(p) => p,
            None => {
                proof {
                    assert(false);
                }
                (1usize, CrateDesc { name: String::new(), root: 0, index: Vec::new() })
            },
        };
        let idx = pair.0;
        proof {
            assert(ext0.take(m).drop_last() =~= ext0.take(m - 1));
            assert(ext0.take(m).last() == ext0[m - 1]);
            assert(pair == ext0[m - 1]);
            lemma_max_slot_elem(ext0, m - 1);
            assert(1 <= idx < size);
            assert(ext0.skip(m - 1) =~= seq![ext0[m - 1]] + ext0.skip(m));
        }
        let ghost prev_slots = slots@;
        if slots[idx].is_none() {
            slots[idx] = Some(pair.1);
        }
        proof {
            assert forall|cc: int|
                1 <= cc < size implies #[trigger] slots@[cc] == slot_value(
                ext0.skip(externals@.len() as int),
                cc,
            ) by {
                lemma_slot_value_prepend(ext0[m - 1], ext0.skip(m), cc);
                if cc != idx {
                    assert(slots@[cc] == prev_slots[cc]);
                }
            }
        }
    }
    proof {
        assert(ext0.skip(0) =~= ext0);
    }
    slots[0] = Some(target);
    Catalog { slots }
}

/// The one crate name that catalog-loading policy always skips.
pub fn excluded_crate(name: &str) -> (b: bool)
    ensures
        b == (name@ == "typenum"@),
{
    str_eq(name, "typenum")
}

} // verus!
