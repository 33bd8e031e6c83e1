//! The add-wins set CRDT: uniquely-named items plus a causal context.
//!
//! An [`AWSet`] holds one shopping list: a collection of [`Item`] versions,
//! at most one per item name, and a causal context mapping each writer
//! replica to the highest timestamp observed from it. Local edits stamp a
//! fresh timestamp and advance the context in one step; [`AWSet::merge`]
//! joins two replicas' states. The merge is specified over mathematical
//! maps ([`merge_items`], [`ctx_join`]) so that its algebraic laws can be
//! stated and proved in `laws`.
use vstd::prelude::*;
use crate::strutil::seq_lt;
use crate::strutil::string_lt;

verus! {

/// One shopping-list entry. Its identity within a set is `item_name` alone:
/// a set never holds two items of the same name, and every local edit
/// replaces the current version of that name with a freshly stamped one.
#[derive(Clone, Debug)]
pub struct Item {
    pub item_name: String,
    pub target: u64,
    pub bought: u64,
    pub replica: String,
    pub timestamp: u64,
    pub deleted: bool,
}

/// The mathematical value of one [`Item`].
#[verifier::ext_equal]
pub struct ItemV {
    pub name: Seq<char>,
    pub target: u64,
    pub bought: u64,
    pub replica: Seq<char>,
    pub timestamp: u64,
    pub deleted: bool,
}

impl View for Item {
    type V = ItemV;

    open spec fn view(&self) -> ItemV {
        ItemV {
            name: self.item_name@,
            target: self.target,
            bought: self.bought,
            replica: self.replica@,
            timestamp: self.timestamp,
            deleted: self.deleted,
        }
    }
}

/// Copies an item field by field.
fn copy_item(it: &Item) -> (r: Item)
    ensures
        r == *it,
{
    Item {
        item_name: it.item_name.clone(),
        target: it.target,
        bought: it.bought,
        replica: it.replica.clone(),
        timestamp: it.timestamp,
        deleted: it.deleted,
    }
}

// ------------------------------------------------------------------
// Views of the concrete representation.
// ------------------------------------------------------------------

/// The value of a context vector: each entry names a replica and the
/// highest timestamp observed from it.
pub open spec fn vctx(c: Seq<(String, u64)>) -> Seq<(Seq<char>, u64)> {
    Seq::new(c.len(), |i: int| (c[i].0@, c[i].1))
}

/// The values of an item vector.
pub open spec fn vitems(s: Seq<Item>) -> Seq<ItemV> {
    Seq::new(s.len(), |i: int| s[i]@)
}

// ------------------------------------------------------------------
// Association-sequence maps: context entries keyed by replica.
// ------------------------------------------------------------------

pub open spec fn ctx_has(c: Seq<(Seq<char>, u64)>, r: Seq<char>) -> bool {
    exists|i: int| 0 <= i < c.len() && (#[trigger] c[i]).0 == r
}

pub open spec fn ctx_idx(c: Seq<(Seq<char>, u64)>, r: Seq<char>) -> int {
    choose|i: int| 0 <= i < c.len() && (#[trigger] c[i]).0 == r
}

pub open spec fn ctx_val(c: Seq<(Seq<char>, u64)>, r: Seq<char>) -> u64 {
    c[ctx_idx(c, r)].1
}

/// No replica occurs twice among the entries.
pub open spec fn ctx_uniq(c: Seq<(Seq<char>, u64)>) -> bool {
    forall|i: int, j: int|
        0 <= i < j < c.len() ==> (#[trigger] c[i]).0 != (#[trigger] c[j]).0
}

/// The map a context vector stands for.
pub open spec fn cmap(c: Seq<(Seq<char>, u64)>) -> Map<Seq<char>, u64> {
    Map::new(|r: Seq<char>| ctx_has(c, r), |r: Seq<char>| ctx_val(c, r))
}

/// An entry of a duplicate-free context vector is what lookup finds.
pub proof fn lemma_ctx_entry(c: Seq<(Seq<char>, u64)>, i: int)
    requires
        ctx_uniq(c),
        0 <= i < c.len(),
    ensures
        ctx_has(c, c[i].0),
        ctx_idx(c, c[i].0) == i,
        ctx_val(c, c[i].0) == c[i].1,
{
    assert(ctx_has(c, c[i].0)) by {
        assert(0 <= i < c.len() && c[i].0 == c[i].0);
    }
    let j = ctx_idx(c, c[i].0);
    assert(0 <= j < c.len() && c[j].0 == c[i].0);
    if i < j {
        assert(c[i].0 != c[j].0);
    } else if j < i {
        assert(c[j].0 != c[i].0);
    }
}

/// Updating the entry that already carries a key sets that key's value.
proof fn lemma_cmap_update(c: Seq<(Seq<char>, u64)>, i: int, r: Seq<char>, t: u64)
    requires
        ctx_uniq(c),
        0 <= i < c.len(),
        c[i].0 == r,
    ensures
        ctx_uniq(c.update(i, (r, t))),
        cmap(c.update(i, (r, t))) == cmap(c).insert(r, t),
{
    let c2 = c.update(i, (r, t));
    assert forall|x: Seq<char>| true implies {
        &&& ctx_has(c2, x) == cmap(c).insert(r, t).dom().contains(x)
        &&& (ctx_has(c2, x) ==> ctx_val(c2, x) == cmap(c).insert(r, t)[x])
    } by {
        if x == r {
            lemma_ctx_entry(c2, i);
        } else {
            if ctx_has(c, x) {
                let j = ctx_idx(c, x);
                lemma_ctx_entry(c, j);
                assert(c2[j].0 == x && c2[j].1 == c[j].1);
                lemma_ctx_entry(c2, j);
            }
            if ctx_has(c2, x) {
                let j = ctx_idx(c2, x);
                lemma_ctx_entry(c2, j);
                assert(c[j].0 == x);
                lemma_ctx_entry(c, j);
            }
        }
    }
    assert(cmap(c2) =~= cmap(c).insert(r, t));
}

/// Appending a fresh key extends the map by that key.
proof fn lemma_cmap_push(c: Seq<(Seq<char>, u64)>, r: Seq<char>, t: u64)
    requires
        ctx_uniq(c),
        !ctx_has(c, r),
    ensures
        ctx_uniq(c.push((r, t))),
        cmap(c.push((r, t))) == cmap(c).insert(r, t),
{
    let c2 = c.push((r, t));
    assert(c2[c.len() as int].0 == r);
    assert forall|i: int, j: int|
        0 <= i < j < c2.len() implies (#[trigger] c2[i]).0 != (#[trigger] c2[j]).0 by {
        if j < c.len() {
            assert(c2[i] == c[i] && c2[j] == c[j]);
        } else {
            assert(c2[j].0 == r && c2[i] == c[i]);
            if c[i].0 == r {
                assert(ctx_has(c, r));
            }
        }
    }
    assert forall|x: Seq<char>| true implies {
        &&& ctx_has(c2, x) == cmap(c).insert(r, t).dom().contains(x)
        &&& (ctx_has(c2, x) ==> ctx_val(c2, x) == cmap(c).insert(r, t)[x])
    } by {
        if x == r {
            lemma_ctx_entry(c2, c.len() as int);
        } else {
            if ctx_has(c, x) {
                let j = ctx_idx(c, x);
                lemma_ctx_entry(c, j);
                assert(c2[j].0 == x && c2[j].1 == c[j].1);
                lemma_ctx_entry(c2, j);
            }
            if ctx_has(c2, x) {
                let j = ctx_idx(c2, x);
                lemma_ctx_entry(c2, j);
                assert(j < c.len());
                assert(c[j].0 == x);
                lemma_ctx_entry(c, j);
            }
        }
    }
    assert(cmap(c2) =~= cmap(c).insert(r, t));
}

// ------------------------------------------------------------------
// Association-sequence maps: items keyed by name.
// ------------------------------------------------------------------

pub open spec fn items_has(s: Seq<ItemV>, n: Seq<char>) -> bool {
    exists|i: int| 0 <= i < s.len() && (#[trigger] s[i]).name == n
}

pub open spec fn items_idx(s: Seq<ItemV>, n: Seq<char>) -> int {
    choose|i: int| 0 <= i < s.len() && (#[trigger] s[i]).name == n
}

pub open spec fn items_at(s: Seq<ItemV>, n: Seq<char>) -> ItemV {
    s[items_idx(s, n)]
}

/// No item name occurs twice.
pub open spec fn items_uniq(s: Seq<ItemV>) -> bool {
    forall|i: int, j: int|
        0 <= i < j < s.len() ==> (#[trigger] s[i]).name != (#[trigger] s[j]).name
}

/// The map an item vector stands for, keyed by item name.
pub open spec fn imap(s: Seq<ItemV>) -> Map<Seq<char>, ItemV> {
    Map::new(|n: Seq<char>| items_has(s, n), |n: Seq<char>| items_at(s, n))
}

/// An entry of a duplicate-free item vector is what lookup finds.
pub proof fn lemma_items_entry(s: Seq<ItemV>, i: int)
    requires
        items_uniq(s),
        0 <= i < s.len(),
    ensures
        items_has(s, s[i].name),
        items_idx(s, s[i].name) == i,
        items_at(s, s[i].name) == s[i],
{
    assert(items_has(s, s[i].name)) by {
        assert(0 <= i < s.len() && s[i].name == s[i].name);
    }
    let j = items_idx(s, s[i].name);
    assert(0 <= j < s.len() && s[j].name == s[i].name);
    if i < j {
        assert(s[i].name != s[j].name);
    } else if j < i {
        assert(s[j].name != s[i].name);
    }
}

/// Replacing the entry that already carries a name sets that name's item.
proof fn lemma_imap_update(s: Seq<ItemV>, i: int, it: ItemV)
    requires
        items_uniq(s),
        0 <= i < s.len(),
        s[i].name == it.name,
    ensures
        items_uniq(s.update(i, it)),
        imap(s.update(i, it)) == imap(s).insert(it.name, it),
{
    let s2 = s.update(i, it);
    assert forall|x: Seq<char>| true implies {
        &&& items_has(s2, x) == imap(s).insert(it.name, it).dom().contains(x)
        &&& (items_has(s2, x) ==> items_at(s2, x) == imap(s).insert(it.name, it)[x])
    } by {
        if x == it.name {
            lemma_items_entry(s2, i);
        } else {
            if items_has(s, x) {
                let j = items_idx(s, x);
                lemma_items_entry(s, j);
                assert(s2[j] == s[j]);
                lemma_items_entry(s2, j);
            }
            if items_has(s2, x) {
                let j = items_idx(s2, x);
                lemma_items_entry(s2, j);
                assert(s[j].name == x);
                lemma_items_entry(s, j);
            }
        }
    }
    assert(imap(s2) =~= imap(s).insert(it.name, it));
}

/// Appending an item of a fresh name extends the map by that name.
proof fn lemma_imap_push(s: Seq<ItemV>, it: ItemV)
    requires
        items_uniq(s),
        !items_has(s, it.name),
    ensures
        items_uniq(s.push(it)),
        imap(s.push(it)) == imap(s).insert(it.name, it),
{
    let s2 = s.push(it);
    assert(s2[s.len() as int].name == it.name);
    assert forall|i: int, j: int|
        0 <= i < j < s2.len() implies (#[trigger] s2[i]).name != (#[trigger] s2[j]).name by {
        if j < s.len() {
            assert(s2[i] == s[i] && s2[j] == s[j]);
        } else {
            assert(s2[j] == it && s2[i] == s[i]);
            if s[i].name == it.name {
                assert(items_has(s, it.name));
            }
        }
    }
    assert forall|x: Seq<char>| true implies {
        &&& items_has(s2, x) == imap(s).insert(it.name, it).dom().contains(x)
        &&& (items_has(s2, x) ==> items_at(s2, x) == imap(s).insert(it.name, it)[x])
    } by {
        if x == it.name {
            lemma_items_entry(s2, s.len() as int);
        } else {
            if items_has(s, x) {
                let j = items_idx(s, x);
                lemma_items_entry(s, j);
                assert(s2[j] == s[j]);
                lemma_items_entry(s2, j);
            }
            if items_has(s2, x) {
                let j = items_idx(s2, x);
                lemma_items_entry(s2, j);
                assert(j < s.len());
                assert(s[j].name == x);
                lemma_items_entry(s, j);
            }
        }
    }
    assert(imap(s2) =~= imap(s).insert(it.name, it));
}

// ------------------------------------------------------------------
// The set's view and abstract state.
// ------------------------------------------------------------------

/// The concrete value of one [`AWSet`]: the list id, the item versions in
/// storage order, and the causal-context entries in storage order.
#[verifier::ext_equal]
pub struct AWSetView {
    pub id: Seq<char>,
    pub items: Seq<ItemV>,
    pub context: Seq<(Seq<char>, u64)>,
}

/// The abstract state of one [`AWSet`]: storage order forgotten, items
/// keyed by name and the context keyed by replica. Replica equality of two
/// sets is equality of these maps; all merge laws are stated here.
#[verifier::ext_equal]
pub struct AbsSet {
    pub id: Seq<char>,
    pub items: Map<Seq<char>, ItemV>,
    pub context: Map<Seq<char>, u64>,
}

impl AWSetView {
    pub open spec fn items_map(self) -> Map<Seq<char>, ItemV> {
        imap(self.items)
    }

    pub open spec fn ctx_map(self) -> Map<Seq<char>, u64> {
        cmap(self.context)
    }

    pub open spec fn abs(self) -> AbsSet {
        AbsSet { id: self.id, items: imap(self.items), context: cmap(self.context) }
    }

    /// Every stored item version has been observed by the set's own
    /// context: `context[item.replica] >= item.timestamp`.
    pub open spec fn dominated(self) -> bool {
        forall|i: int|
            0 <= i < self.items.len() ==> cseen(cmap(self.context), #[trigger] self.items[i])
    }

    pub open spec fn wf(self) -> bool {
        items_uniq(self.items) && ctx_uniq(self.context) && self.dominated()
    }
}

// ------------------------------------------------------------------
// The merge, specified over abstract states.
// ------------------------------------------------------------------

/// Whether a causal context has observed this item version: it knows the
/// item's writer replica up to at least the item's timestamp.
pub open spec fn cseen(c: Map<Seq<char>, u64>, it: ItemV) -> bool {
    c.dom().contains(it.replica) && it.timestamp <= c[it.replica]
}

/// The join of two causal contexts: the per-replica maximum.
pub open spec fn ctx_join(a: Map<Seq<char>, u64>, b: Map<Seq<char>, u64>) -> Map<Seq<char>, u64> {
    Map::new(
        |r: Seq<char>| a.dom().contains(r) || b.dom().contains(r),
        |r: Seq<char>|
            if a.dom().contains(r) && b.dom().contains(r) {
                if a[r] >= b[r] {
                    a[r]
                } else {
                    b[r]
                }
            } else if a.dom().contains(r) {
                a[r]
            } else {
                b[r]
            },
    )
}

/// A total order on item versions: by timestamp, then writer replica,
/// then the remaining fields. Used as the deterministic merge tie-break,
/// so that merging is insensitive to argument order.
pub open spec fn item_le(a: ItemV, b: ItemV) -> bool {
    if a.timestamp != b.timestamp {
        a.timestamp < b.timestamp
    } else if a.replica != b.replica {
        seq_lt(a.replica, b.replica)
    } else if a.target != b.target {
        a.target < b.target
    } else if a.bought != b.bought {
        a.bought < b.bought
    } else if a.deleted != b.deleted {
        !a.deleted
    } else if a.name != b.name {
        seq_lt(a.name, b.name)
    } else {
        true
    }
}

/// `item_le` is a total order: reflexive-total and antisymmetric.
pub proof fn lemma_item_le_total(a: ItemV, b: ItemV)
    ensures
        item_le(a, b) || item_le(b, a),
        item_le(a, b) && item_le(b, a) ==> a == b,
{
    crate::strutil::lemma_seq_lt_trichotomy(a.replica, b.replica);
    crate::strutil::lemma_seq_lt_trichotomy(a.name, b.name);
}

/// Which of two same-named versions a merge keeps: a version whose writer
/// replica the counterpart has never observed at all wins outright;
/// otherwise the larger version under [`item_le`] wins.
pub open spec fn pick(a: ItemV, b: ItemV, ca: Map<Seq<char>, u64>, cb: Map<Seq<char>, u64>) -> ItemV {
    let a_known = cb.dom().contains(a.replica);
    let b_known = ca.dom().contains(b.replica);
    if !a_known && b_known {
        a
    } else if a_known && !b_known {
        b
    } else if item_le(a, b) {
        b
    } else {
        a
    }
}

/// The tie-break does not depend on which argument came first.
pub proof fn lemma_pick_sym(a: ItemV, b: ItemV, ca: Map<Seq<char>, u64>, cb: Map<Seq<char>, u64>)
    ensures
        pick(a, b, ca, cb) == pick(b, a, cb, ca),
{
    lemma_item_le_total(a, b);
}

/// The merged item collection. A name present on one side only keeps its
/// version unless the other side's context has already observed it (then
/// the absence is newer information and the version is dropped); a name
/// present on both sides keeps exactly the version chosen by [`pick`].
pub open spec fn merge_items(
    a: Map<Seq<char>, ItemV>,
    b: Map<Seq<char>, ItemV>,
    ca: Map<Seq<char>, u64>,
    cb: Map<Seq<char>, u64>,
) -> Map<Seq<char>, ItemV> {
    Map::new(
        |n: Seq<char>| {
            ||| (a.dom().contains(n) && b.dom().contains(n))
            ||| (a.dom().contains(n) && !b.dom().contains(n) && !cseen(cb, a[n]))
            ||| (!a.dom().contains(n) && b.dom().contains(n) && !cseen(ca, b[n]))
        },
        |n: Seq<char>|
            if a.dom().contains(n) && b.dom().contains(n) {
                pick(a[n], b[n], ca, cb)
            } else if a.dom().contains(n) {
                a[n]
            } else {
                b[n]
            },
    )
}

/// The join of two abstract states: merged items, joined contexts, and
/// the first argument's id.
pub open spec fn merge_abs(a: AbsSet, b: AbsSet) -> AbsSet {
    AbsSet {
        id: a.id,
        items: merge_items(a.items, b.items, a.context, b.context),
        context: ctx_join(a.context, b.context),
    }
}

/// The next timestamp a local edit by `r` stamps.
pub open spec fn next_ts(c: Map<Seq<char>, u64>, r: Seq<char>) -> u64 {
    if c.dom().contains(r) {
        (c[r] + 1) as u64
    } else {
        1u64
    }
}

/// The abstract effect of [`AWSet::add`].
pub open spec fn add_abs(
    s: AbsSet,
    name: Seq<char>,
    target: u64,
    bought: u64,
    replica: Seq<char>,
    deleted: bool,
) -> AbsSet {
    let t = next_ts(s.context, replica);
    AbsSet {
        id: s.id,
        items: s.items.insert(
            name,
            ItemV { name, target, bought, replica, timestamp: t, deleted },
        ),
        context: s.context.insert(replica, t),
    }
}

/// The abstract effect of [`AWSet::remove`]: the current version of the
/// name is replaced by a tombstoned version freshly stamped by `replica`.
pub open spec fn remove_abs(s: AbsSet, name: Seq<char>, replica: Seq<char>) -> AbsSet {
    let cur = s.items[name];
    add_abs(s, name, cur.target, cur.bought, replica, true)
}

/// The abstract effect of [`AWSet::update_item_amounts`]: quantities
/// change, the tombstone flag of the current version is preserved.
pub open spec fn update_abs(
    s: AbsSet,
    name: Seq<char>,
    target: u64,
    bought: u64,
    replica: Seq<char>,
) -> AbsSet {
    let cur = s.items[name];
    add_abs(s, name, target, bought, replica, cur.deleted)
}

// ------------------------------------------------------------------
// Executable helpers.
// ------------------------------------------------------------------

/// Looks a replica up in a context vector.
fn ctx_lookup(c: &Vec<(String, u64)>, r: &String) -> (res: Option<u64>)
    requires
        ctx_uniq(vctx(c@)),
    ensures
        match res {
            Some(t) => cmap(vctx(c@)).dom().contains(r@) && cmap(vctx(c@))[r@] == t,
            None => !cmap(vctx(c@)).dom().contains(r@),
        },
{
    let mut i: usize = 0;
    while i < c.len()
        invariant
            i <= c.len(),
            ctx_uniq(vctx(c@)),
            forall|j: int| 0 <= j < i ==> (#[trigger] vctx(c@)[j]).0 != r@,
        decreases c.len() - i,
    {
        let p = &c[i];
        if p.0 == *r {
            proof {
                assert(vctx(c@)[i as int].0 == r@);
                lemma_ctx_entry(vctx(c@), i as int);
            }
            return Some(p.1);
        }
        proof {
            assert(vctx(c@)[i as int].0 == p.0@);
        }
        i = i + 1;
    }
    proof {
        if ctx_has(vctx(c@), r@) {
            let j = ctx_idx(vctx(c@), r@);
            assert(0 <= j < vctx(c@).len() && vctx(c@)[j].0 == r@);
        }
    }
    None
}

/// Sets a replica's entry in a context vector, replacing any old entry.
fn ctx_store(c: &mut Vec<(String, u64)>, r: String, t: u64)
    requires
        ctx_uniq(vctx(old(c)@)),
    ensures
        ctx_uniq(vctx(final(c)@)),
        cmap(vctx(final(c)@)) == cmap(vctx(old(c)@)).insert(r@, t),
{
    let mut i: usize = 0;
    while i < c.len()
        invariant
            i <= c.len(),
            c@ == old(c)@,
            ctx_uniq(vctx(c@)),
            forall|j: int| 0 <= j < i ==> (#[trigger] vctx(c@)[j]).0 != r@,
        decreases c.len() - i,
    {
        let hit = c[i].0 == r;
        if hit {
            proof {
                assert(vctx(c@)[i as int].0 == r@);
            }
            let ghost pre = vctx(c@);
            c.remove(i);
            c.insert(i, (r, t));
            proof {
                assert(vctx(c@) =~= pre.update(i as int, (r@, t)));
                lemma_cmap_update(pre, i as int, r@, t);
            }
            return;
        }
        proof {
            assert(vctx(c@)[i as int].0 == c@[i as int].0@);
        }
        i = i + 1;
    }
    proof {
        if ctx_has(vctx(c@), r@) {
            let j = ctx_idx(vctx(c@), r@);
            assert(0 <= j < vctx(c@).len() && vctx(c@)[j].0 == r@);
        }
    }
    let ghost pre = vctx(c@);
    c.push((r, t));
    proof {
        assert(vctx(c@) =~= pre.push((r@, t)));
        lemma_cmap_push(pre, r@, t);
    }
}

/// Finds the index of the item with the given name, if any.
fn find_item(items: &Vec<Item>, name: &String) -> (res: Option<usize>)
    ensures
        match res {
            Some(i) => i < items@.len() && items@[i as int]@.name == name@,
            None => !items_has(vitems(items@), name@),
        },
{
    let mut i: usize = 0;
    while i < items.len()
        invariant
            i <= items.len(),
            forall|j: int| 0 <= j < i ==> (#[trigger] vitems(items@)[j]).name != name@,
        decreases items.len() - i,
    {
        if items[i].item_name == *name {
            return Some(i);
        }
        proof {
            assert(vitems(items@)[i as int].name == items@[i as int]@.name);
        }
        i = i + 1;
    }
    proof {
        if items_has(vitems(items@), name@) {
            let j = items_idx(vitems(items@), name@);
            assert(0 <= j < vitems(items@).len() && vitems(items@)[j].name == name@);
        }
    }
    None
}

/// Stores an item under its name, replacing any version of the same name.
fn put_item(items: &mut Vec<Item>, it: Item)
    requires
        items_uniq(vitems(old(items)@)),
    ensures
        items_uniq(vitems(final(items)@)),
        imap(vitems(final(items)@)) == imap(vitems(old(items)@)).insert(it@.name, it@),
{
    match find_item(items, &it.item_name) {
        Some(i) => {
            let ghost pre = vitems(items@);
            items.remove(i);
            items.insert(i, it);
            proof {
                assert(vitems(items@) =~= pre.update(i as int, it@));
                lemma_imap_update(pre, i as int, it@);
            }
        }
        None => {
            let ghost pre = vitems(items@);
            items.push(it);
            proof {
                assert(vitems(items@) =~= pre.push(it@));
                lemma_imap_push(pre, it@);
            }
        }
    }
}

/// Whether this context has observed the given item version.
pub(crate) fn seen_exec(c: &Vec<(String, u64)>, it: &Item) -> (r: bool)
    requires
        ctx_uniq(vctx(c@)),
    ensures
        r == cseen(cmap(vctx(c@)), it@),
{
    match ctx_lookup(c, &it.replica) {
        Some(t) => it.timestamp <= t,
        None => false,
    }
}

/// The executable total order on items; agrees with [`item_le`].
fn item_le_exec(a: &Item, b: &Item) -> (r: bool)
    ensures
        r == item_le(a@, b@),
{
    if a.timestamp != b.timestamp {
        a.timestamp < b.timestamp
    } else if !(a.replica == b.replica) {
        string_lt(&a.replica, &b.replica)
    } else if a.target != b.target {
        a.target < b.target
    } else if a.bought != b.bought {
        a.bought < b.bought
    } else if a.deleted != b.deleted {
        !a.deleted
    } else if !(a.item_name == b.item_name) {
        string_lt(&a.item_name, &b.item_name)
    } else {
        true
    }
}

/// Chooses between two same-named versions; agrees with [`pick`].
fn pick_exec(a: &Item, b: &Item, ca: &Vec<(String, u64)>, cb: &Vec<(String, u64)>) -> (r: Item)
    requires
        ctx_uniq(vctx(ca@)),
        ctx_uniq(vctx(cb@)),
    ensures
        r@ == pick(a@, b@, cmap(vctx(ca@)), cmap(vctx(cb@))),
{
    let a_known = ctx_lookup(cb, &a.replica).is_some();
    let b_known = ctx_lookup(ca, &b.replica).is_some();
    if !a_known && b_known {
        copy_item(a)
    } else if a_known && !b_known {
        copy_item(b)
    } else if item_le_exec(a, b) {
        copy_item(b)
    } else {
        copy_item(a)
    }
}


/// After a local edit stamped `t` the set is well-formed again: the new
/// version is covered by the advanced context, and every older version
/// stays covered.
proof fn lemma_local_edit_wf(post: AWSetView, pre: AWSetView, itv: ItemV, t: u64)
    requires
        pre.wf(),
        cmap(pre.context).dom().contains(itv.replica) ==> cmap(pre.context)[itv.replica]
            < u64::MAX,
        t == next_ts(cmap(pre.context), itv.replica),
        itv.timestamp == t,
        items_uniq(post.items),
        ctx_uniq(post.context),
        imap(post.items) == imap(pre.items).insert(itv.name, itv),
        cmap(post.context) == cmap(pre.context).insert(itv.replica, t),
    ensures
        post.wf(),
{
    assert forall|i: int|
        0 <= i < post.items.len() implies cseen(cmap(post.context), #[trigger] post.items[i]) by {
        let it = post.items[i];
        lemma_items_entry(post.items, i);
        assert(imap(post.items)[it.name] == it);
        if it.name == itv.name {
            assert(it == itv);
            assert(cmap(post.context)[itv.replica] == t);
        } else {
            assert(items_has(post.items, it.name));
            assert(imap(post.items).dom().contains(it.name));
            assert(imap(pre.items).insert(itv.name, itv).dom().contains(it.name));
            assert(imap(pre.items).dom().contains(it.name));
            assert(items_has(pre.items, it.name));
            let j = items_idx(pre.items, it.name);
            assert(0 <= j < pre.items.len() && pre.items[j].name == it.name);
            lemma_items_entry(pre.items, j);
            assert(pre.items[j] == it);
            assert(cseen(cmap(pre.context), it));
            if it.replica == itv.replica {
                assert(it.timestamp <= cmap(pre.context)[itv.replica]);
                assert(cmap(post.context)[it.replica] == t);
            } else {
                assert(cmap(post.context)[it.replica] == cmap(pre.context)[it.replica]);
            }
        }
    }
}

// ------------------------------------------------------------------
// The CRDT itself.
// ------------------------------------------------------------------

/// One list's replicated state.
#[derive(Clone, Debug)]
pub struct AWSet {
    pub id: String,
    items: Vec<Item>,
    context: Vec<(String, u64)>,
}

impl View for AWSet {
    type V = AWSetView;

    closed spec fn view(&self) -> AWSetView {
        AWSetView { id: self.id@, items: vitems(self.items@), context: vctx(self.context@) }
    }
}

/// Assembles a set from raw parts; the caller establishes any invariant.
pub(crate) fn awset_from_parts(id: String, items: Vec<Item>, context: Vec<(String, u64)>) -> (r:
    AWSet)
    ensures
        r@ == (AWSetView { id: id@, items: vitems(items@), context: vctx(context@) }),
{
    AWSet { id, items, context }
}

impl AWSet {
    /// Whether this set's id equals the given key.
    pub fn id_is(&self, key: &String) -> (r: bool)
        ensures
            r == (self@.id == key@),
    {
        self.id == *key
    }

    /// The list id, copied.
    pub fn id_string(&self) -> (r: String)
        ensures
            r@ == self@.id,
    {
        self.id.clone()
    }

    /// How many item versions are stored.
    pub fn item_count(&self) -> (r: usize)
        ensures
            r == self@.items.len(),
    {
        self.items.len()
    }

    /// The stored item version at one storage index.
    pub fn item_at(&self, i: usize) -> (r: &Item)
        requires
            i < self@.items.len(),
        ensures
            r@ == self@.items[i as int],
    {
        &self.items[i]
    }

    /// How many causal-context entries are stored.
    pub fn context_count(&self) -> (r: usize)
        ensures
            r == self@.context.len(),
    {
        self.context.len()
    }

    /// The context entry at one storage index.
    pub fn context_at(&self, i: usize) -> (r: (String, u64))
        requires
            i < self@.context.len(),
        ensures
            (r.0@, r.1) == self@.context[i as int],
    {
        let p = &self.context[i];
        (p.0.clone(), p.1)
    }

    /// An empty set with an empty id.
    pub fn new() -> (r: AWSet)
        ensures
            r@.wf(),
            r@.id == Seq::<char>::empty(),
            r@.items == Seq::<ItemV>::empty(),
            r@.context == Seq::<(Seq<char>, u64)>::empty(),
            r@.abs().items == Map::<Seq<char>, ItemV>::empty(),
            r@.abs().context == Map::<Seq<char>, u64>::empty(),
    {
        let r = AWSet { id: String::new(), items: Vec::new(), context: Vec::new() };
        proof {
            assert(r@.items =~= Seq::<ItemV>::empty());
            assert(r@.context =~= Seq::<(Seq<char>, u64)>::empty());
            assert(r@.abs().items =~= Map::<Seq<char>, ItemV>::empty());
            assert(r@.abs().context =~= Map::<Seq<char>, u64>::empty());
        }
        r
    }

    /// Renames the set.
    pub fn set_id(&mut self, id: String)
        ensures
            final(self)@ == (AWSetView { id: id@, ..old(self)@ }),
    {
        self.id = id;
    }

    /// Whether an item of this name is stored, tombstoned or not.
    pub fn contains(&self, item_name: &str) -> (r: bool)
        ensures
            r == self@.items_map().dom().contains(item_name@),
    {
        let name = item_name.to_owned();
        match find_item(&self.items, &name) {
            Some(i) => {
                proof {
                    assert(items_has(self@.items, name@)) by {
                        assert(self@.items[i as int].name == name@);
                    }
                }
                true
            }
            None => false,
        }
    }

    /// The stored item versions, in storage order.
    pub fn elements(&self) -> (r: Vec<Item>)
        ensures
            vitems(r@) == self@.items,
    {
        let mut out: Vec<Item> = Vec::new();
        let mut i: usize = 0;
        while i < self.items.len()
            invariant
                i <= self.items.len(),
                out@.len() == i,
                forall|j: int| 0 <= j < i ==> #[trigger] out@[j] == self.items@[j],
            decreases self.items.len() - i,
        {
            out.push(copy_item(&self.items[i]));
            i = i + 1;
        }
        proof {
            assert(vitems(out@) =~= vitems(self.items@));
        }
        out
    }

    /// Copies the whole set field by field.
    pub fn duplicate(&self) -> (r: AWSet)
        ensures
            r@ == self@,
    {
        let mut items: Vec<Item> = Vec::new();
        let mut i: usize = 0;
        while i < self.items.len()
            invariant
                i <= self.items.len(),
                items@.len() == i,
                forall|j: int| 0 <= j < i ==> #[trigger] items@[j] == self.items@[j],
            decreases self.items.len() - i,
        {
            items.push(copy_item(&self.items[i]));
            i = i + 1;
        }
        let mut context: Vec<(String, u64)> = Vec::new();
        let mut k: usize = 0;
        while k < self.context.len()
            invariant
                k <= self.context.len(),
                context@.len() == k,
                forall|j: int| 0 <= j < k ==> #[trigger] context@[j] == self.context@[j],
            decreases self.context.len() - k,
        {
            let p = &self.context[k];
            context.push((p.0.clone(), p.1));
            k = k + 1;
        }
        let r = AWSet { id: self.id.clone(), items, context };
        proof {
            assert(r@.items =~= self@.items);
            assert(r@.context =~= self@.context);
            assert(r@ =~= self@);
        }
        r
    }

    /// Adds (or replaces) an item: the writer's next timestamp stamps the
    /// new version, and the context advances to that timestamp in the
    /// same step.
    pub fn add(&mut self, item_name: &str, target: u64, bought: u64, replica: &str, deleted: bool)
        requires
            old(self)@.wf(),
            old(self)@.ctx_map().dom().contains(replica@) ==> old(self)@.ctx_map()[replica@]
                < u64::MAX,
        ensures
            final(self)@.wf(),
            final(self)@.abs() == add_abs(
                old(self)@.abs(),
                item_name@,
                target,
                bought,
                replica@,
                deleted,
            ),
    {
        let rep = replica.to_owned();
        let t = match ctx_lookup(&self.context, &rep) {
            Some(v) => v + 1,
            None => 1,
        };
        let it = Item {
            item_name: item_name.to_owned(),
            target,
            bought,
            replica: rep.clone(),
            timestamp: t,
            deleted,
        };
        let ghost itv = it@;
        put_item(&mut self.items, it);
        ctx_store(&mut self.context, rep, t);
        proof {
            lemma_local_edit_wf(self@, old(self)@, itv, t);
            assert(self@.abs() =~= add_abs(
                old(self)@.abs(),
                item_name@,
                target,
                bought,
                replica@,
                deleted,
            ));
        }
    }

    /// Tombstones the item of this name: the current version is replaced
    /// by one with `deleted` set, stamped by `replica`. Removal is itself
    /// a write, not an erasure.
    pub fn remove(&mut self, item_name: &str, replica: &str)
        requires
            old(self)@.wf(),
            old(self)@.items_map().dom().contains(item_name@),
            old(self)@.ctx_map().dom().contains(replica@) ==> old(self)@.ctx_map()[replica@]
                < u64::MAX,
        ensures
            final(self)@.wf(),
            final(self)@.abs() == remove_abs(old(self)@.abs(), item_name@, replica@),
    {
        let name = item_name.to_owned();
        let idx = match find_item(&self.items, &name) {
            Some(i) => i,
            None => {
                proof {
                    assert(false);
                }
                0
            }
        };
        proof {
            lemma_items_entry(self@.items, idx as int);
        }
        let target = self.items[idx].target;
        let bought = self.items[idx].bought;
        self.add(item_name, target, bought, replica, true);
    }

    /// Changes the quantities of the item of this name, preserving its
    /// tombstone flag, stamped as a fresh write by `replica`.
    pub fn update_item_amounts(&mut self, item_name: &str, new_target: u64, new_bought: u64, replica: &str)
        requires
            old(self)@.wf(),
            old(self)@.items_map().dom().contains(item_name@),
            old(self)@.ctx_map().dom().contains(replica@) ==> old(self)@.ctx_map()[replica@]
                < u64::MAX,
        ensures
            final(self)@.wf(),
            final(self)@.abs() == update_abs(
                old(self)@.abs(),
                item_name@,
                new_target,
                new_bought,
                replica@,
            ),
    {
        let name = item_name.to_owned();
        let idx = match find_item(&self.items, &name) {
            Some(i) => i,
            None => {
                proof {
                    assert(false);
                }
                0
            }
        };
        proof {
            lemma_items_entry(self@.items, idx as int);
        }
        let deleted = self.items[idx].deleted;
        self.add(item_name, new_target, new_bought, replica, deleted);
    }

    /// Joins another replica's state into this one. The result's abstract
    /// state is exactly [`merge_abs`] of the two inputs; see `laws` for
    /// the commutativity, idempotence and associativity statements.
    pub fn merge(&mut self, other: &AWSet)
        requires
            old(self)@.wf(),
            other@.wf(),
        ensures
            final(self)@.wf(),
            final(self)@.abs() == merge_abs(old(self)@.abs(), other@.abs()),
    {
        let ghost av = old(self)@;
        let ghost bv = other@;
        let ghost am = imap(av.items);
        let ghost bm = imap(bv.items);
        let ghost ca = cmap(av.context);
        let ghost cb = cmap(bv.context);
        let ghost m = merge_items(am, bm, ca, cb);

        let mut new_items: Vec<Item> = Vec::new();

        // Names present in this set: kept, replaced by the winning
        // version, or dropped as observed-and-superseded.
        let mut i: usize = 0;
        while i < self.items.len()
            invariant
                i <= self.items.len(),
                self@ == av,
                bv == other@,
                av.wf(),
                bv.wf(),
                am == imap(av.items),
                bm == imap(bv.items),
                ca == cmap(av.context),
                cb == cmap(bv.context),
                m == merge_items(am, bm, ca, cb),
                items_uniq(vitems(new_items@)),
                forall|k: int|
                    0 <= k < vitems(new_items@).len() ==> {
                        let it = #[trigger] vitems(new_items@)[k];
                        m.dom().contains(it.name) && m[it.name] == it && (exists|j: int|
                            0 <= j < i && (#[trigger] av.items[j]).name == it.name)
                    },
                forall|j: int|
                    0 <= j < i ==> m.dom().contains((#[trigger] av.items[j]).name)
                        ==> items_has(vitems(new_items@), av.items[j].name),
            decreases self.items.len() - i,
        {
            let ghost n = av.items[i as int].name;
            proof {
                lemma_items_entry(av.items, i as int);
            }
            let it_name = self.items[i].item_name.clone();
            let ghost pre = vitems(new_items@);
            let found = find_item(&other.items, &it_name);
            match found {
                Some(j) => {
                    proof {
                        assert(bv.items[j as int].name == n);
                        lemma_items_entry(bv.items, j as int);
                    }
                    let it = pick_exec(
                        &self.items[i],
                        &other.items[j],
                        &self.context,
                        &other.context,
                    );
                    proof {
                        assert(am[n] == av.items[i as int] && bm[n] == bv.items[j as int]);
                        assert(m.dom().contains(n) && m[n] == it@);
                        assert(!items_has(pre, n)) by {
                            if items_has(pre, n) {
                                let k0 = items_idx(pre, n);
                                assert(0 <= k0 < pre.len() && pre[k0].name == n);
                                let j0 = choose|j0: int|
                                    0 <= j0 < i && (#[trigger] av.items[j0]).name == n;
                                assert(av.items[j0].name == av.items[i as int].name);
                            }
                        };
                        lemma_imap_push(pre, it@);
                    }
                    new_items.push(it);
                    proof {
                        assert(vitems(new_items@) =~= pre.push(m[n]));
                        assert forall|j1: int|
                            0 <= j1 < i + 1 && m.dom().contains(
                                (#[trigger] av.items[j1]).name,
                            ) implies items_has(vitems(new_items@), av.items[j1].name) by {
                            if j1 < i {
                                let k0 = items_idx(pre, av.items[j1].name);
                                assert(vitems(new_items@)[k0].name == av.items[j1].name);
                            } else {
                                assert(vitems(new_items@)[pre.len() as int].name == n);
                            }
                        }
                    }
                }
                None => {
                    proof {
                        assert(!items_has(bv.items, n));
                        assert(!bm.dom().contains(n));
                    }
                    if !seen_exec(&other.context, &self.items[i]) {
                        let it = copy_item(&self.items[i]);
                        proof {
                            assert(m.dom().contains(n) && m[n] == it@);
                            assert(!items_has(pre, n)) by {
                                if items_has(pre, n) {
                                    let k0 = items_idx(pre, n);
                                    assert(0 <= k0 < pre.len() && pre[k0].name == n);
                                    let j0 = choose|j0: int|
                                        0 <= j0 < i && (#[trigger] av.items[j0]).name == n;
                                    assert(av.items[j0].name == av.items[i as int].name);
                                }
                            };
                            lemma_imap_push(pre, it@);
                        }
                        new_items.push(it);
                        proof {
                            assert(vitems(new_items@) =~= pre.push(m[n]));
                            assert forall|j1: int|
                                0 <= j1 < i + 1 && m.dom().contains(
                                    (#[trigger] av.items[j1]).name,
                                ) implies items_has(vitems(new_items@), av.items[j1].name) by {
                                if j1 < i {
                                    let k0 = items_idx(pre, av.items[j1].name);
                                    assert(vitems(new_items@)[k0].name == av.items[j1].name);
                                } else {
                                    assert(vitems(new_items@)[pre.len() as int].name == n);
                                }
                            }
                        }
                    } else {
                        proof {
                            assert(!m.dom().contains(n));
                            assert forall|j1: int|
                                0 <= j1 < i + 1 && m.dom().contains(
                                    (#[trigger] av.items[j1]).name,
                                ) implies items_has(vitems(new_items@), av.items[j1].name) by {
                                if j1 < i {
                                    let k0 = items_idx(pre, av.items[j1].name);
                                    assert(vitems(new_items@)[k0].name == av.items[j1].name);
                                }
                            }
                        }
                    }
                }
            }
            i = i + 1;
        }

        // Names present only in the other set.
        let mut i2: usize = 0;
        while i2 < other.items.len()
            invariant
                i2 <= other.items.len(),
                self@ == av,
                bv == other@,
                av.wf(),
                bv.wf(),
                am == imap(av.items),
                bm == imap(bv.items),
                ca == cmap(av.context),
                cb == cmap(bv.context),
                m == merge_items(am, bm, ca, cb),
                items_uniq(vitems(new_items@)),
                forall|k: int|
                    0 <= k < vitems(new_items@).len() ==> {
                        let it = #[trigger] vitems(new_items@)[k];
                        m.dom().contains(it.name) && m[it.name] == it
                    },
                forall|j: int|
                    0 <= j < av.items.len() ==> m.dom().contains((#[trigger] av.items[j]).name)
                        ==> items_has(vitems(new_items@), av.items[j].name),
                forall|k: int|
                    0 <= k < vitems(new_items@).len() ==> {
                        let it = #[trigger] vitems(new_items@)[k];
                        items_has(av.items, it.name) || (exists|j: int|
                            0 <= j < i2 && (#[trigger] bv.items[j]).name == it.name)
                    },
                forall|j: int|
                    0 <= j < i2 ==> m.dom().contains((#[trigger] bv.items[j]).name)
                        ==> items_has(vitems(new_items@), bv.items[j].name),
            decreases other.items.len() - i2,
        {
            let ghost n = bv.items[i2 as int].name;
            proof {
                lemma_items_entry(bv.items, i2 as int);
            }
            let it_name = other.items[i2].item_name.clone();
            let ghost pre = vitems(new_items@);
            let found = find_item(&self.items, &it_name);
            match found {
                Some(k1) => {
                    proof {
                        assert(av.items[k1 as int].name == n);
                        assert(items_has(av.items, n));
                        if m.dom().contains(n) {
                            assert(items_has(vitems(new_items@), n));
                        }
                        assert forall|j1: int|
                            0 <= j1 < i2 + 1 && m.dom().contains(
                                (#[trigger] bv.items[j1]).name,
                            ) implies items_has(vitems(new_items@), bv.items[j1].name) by {}
                    }
                }
                None => {
                    proof {
                        assert(!items_has(av.items, n));
                        assert(!am.dom().contains(n));
                    }
                    if !seen_exec(&self.context, &other.items[i2]) {
                        let it = copy_item(&other.items[i2]);
                        proof {
                            assert(m.dom().contains(n) && m[n] == it@);
                            assert(!items_has(pre, n)) by {
                                if items_has(pre, n) {
                                    let k0 = items_idx(pre, n);
                                    assert(0 <= k0 < pre.len() && pre[k0].name == n);
                                    let j0 = choose|j0: int|
                                        0 <= j0 < i2 && (#[trigger] bv.items[j0]).name == n;
                                    assert(bv.items[j0].name == bv.items[i2 as int].name);
                                }
                            };
                            lemma_imap_push(pre, it@);
                        }
                        new_items.push(it);
                        proof {
                            assert(vitems(new_items@) =~= pre.push(m[n]));
                            assert forall|j1: int|
                                0 <= j1 < av.items.len() && m.dom().contains(
                                    (#[trigger] av.items[j1]).name,
                                ) implies items_has(vitems(new_items@), av.items[j1].name) by {
                                let k0 = items_idx(pre, av.items[j1].name);
                                assert(vitems(new_items@)[k0].name == av.items[j1].name);
                            }
                            assert forall|j1: int|
                                0 <= j1 < i2 + 1 && m.dom().contains(
                                    (#[trigger] bv.items[j1]).name,
                                ) implies items_has(vitems(new_items@), bv.items[j1].name) by {
                                if j1 < i2 {
                                    let k0 = items_idx(pre, bv.items[j1].name);
                                    assert(vitems(new_items@)[k0].name == bv.items[j1].name);
                                } else {
                                    assert(vitems(new_items@)[pre.len() as int].name == n);
                                }
                            }
                        }
                    } else {
                        proof {
                            assert(cseen(ca, bm[n]));
                            assert(!m.dom().contains(n));
                            assert forall|j1: int|
                                0 <= j1 < i2 + 1 && m.dom().contains(
                                    (#[trigger] bv.items[j1]).name,
                                ) implies items_has(vitems(new_items@), bv.items[j1].name) by {}
                        }
                    }
                }
            }
            i2 = i2 + 1;
        }

        // Join the contexts by per-replica maximum.
        let mut k: usize = 0;
        while k < other.context.len()
            invariant
                k <= other.context.len(),
                self.id@ == av.id,
                vitems(self.items@) == av.items,
                bv == other@,
                bv.wf(),
                ca == cmap(av.context),
                cb == cmap(bv.context),
                ctx_uniq(vctx(self.context@)),
                cmap(vctx(self.context@)) == ctx_join(ca, cmap(bv.context.take(k as int))),
            decreases other.context.len() - k,
        {
            let ghost pfx = bv.context.take(k as int);
            proof {
                lemma_ctx_entry(bv.context, k as int);
                assert(bv.context.take(k as int + 1) =~= pfx.push(bv.context[k as int]));
                assert(!ctx_has(pfx, bv.context[k as int].0)) by {
                    if ctx_has(pfx, bv.context[k as int].0) {
                        let j = ctx_idx(pfx, bv.context[k as int].0);
                        assert(0 <= j < pfx.len() && pfx[j].0 == bv.context[k as int].0);
                        assert(bv.context[j].0 == bv.context[k as int].0);
                    }
                };
                lemma_cmap_push(pfx, bv.context[k as int].0, bv.context[k as int].1);
            }
            let rep = other.context[k].0.clone();
            let t = other.context[k].1;
            let cur = ctx_lookup(&self.context, &rep);
            let newv = match cur {
                Some(v) => if v >= t {
                    v
                } else {
                    t
                },
                None => t,
            };
            let ghost before = cmap(vctx(self.context@));
            ctx_store(&mut self.context, rep, newv);
            proof {
                assert(cmap(vctx(self.context@)) == before.insert(rep@, newv));
                assert(cmap(vctx(self.context@)) =~= ctx_join(
                    ca,
                    cmap(bv.context.take(k as int + 1)),
                ));
            }
            k = k + 1;
        }

        self.items = new_items;

        proof {
            assert(bv.context.take(bv.context.len() as int) =~= bv.context);
            assert(imap(vitems(self.items@)) =~= m) by {
                assert forall|n: Seq<char>| #[trigger] m.dom().contains(n) implies items_has(
                    vitems(self.items@),
                    n,
                ) by {
                    if am.dom().contains(n) {
                        assert(items_has(av.items, n));
                        let j = items_idx(av.items, n);
                        assert(0 <= j < av.items.len() && av.items[j].name == n);
                    } else {
                        assert(bm.dom().contains(n));
                        assert(items_has(bv.items, n));
                        let j = items_idx(bv.items, n);
                        assert(0 <= j < bv.items.len() && bv.items[j].name == n);
                    }
                }
                assert forall|n: Seq<char>| #[trigger] items_has(vitems(self.items@), n) implies
                    m.dom().contains(n) && items_at(vitems(self.items@), n) == m[n] by {
                    let j = items_idx(vitems(self.items@), n);
                    assert(0 <= j < vitems(self.items@).len() && vitems(self.items@)[j].name == n);
                    lemma_items_entry(vitems(self.items@), j);
                }
            }
            assert(self@.abs() =~= merge_abs(av.abs(), bv.abs()));
            assert(self@.wf()) by {
                assert forall|i3: int|
                    0 <= i3 < self@.items.len() implies cseen(
                    cmap(self@.context),
                    #[trigger] self@.items[i3],
                ) by {
                    let it = self@.items[i3];
                    lemma_items_entry(self@.items, i3);
                    assert(m.dom().contains(it.name) && m[it.name] == it);
                    let cj = ctx_join(ca, cb);
                    assert(cmap(self@.context) == cj);
                    if am.dom().contains(it.name) && it == am[it.name] {
                        assert(items_has(av.items, it.name));
                        let j = items_idx(av.items, it.name);
                        assert(0 <= j < av.items.len() && av.items[j].name == it.name);
                        lemma_items_entry(av.items, j);
                        assert(av.items[j] == it);
                        assert(cseen(ca, it));
                        assert(cj.dom().contains(it.replica) && cj[it.replica] >= ca[it.replica]);
                    } else {
                        assert(bm.dom().contains(it.name) && it == bm[it.name]);
                        assert(items_has(bv.items, it.name));
                        let j = items_idx(bv.items, it.name);
                        assert(0 <= j < bv.items.len() && bv.items[j].name == it.name);
                        lemma_items_entry(bv.items, j);
                        assert(bv.items[j] == it);
                        assert(cseen(cb, it));
                        assert(cj.dom().contains(it.replica) && cj[it.replica] >= cb[it.replica]);
                    }
                }
            }
        }
    }
}

} // verus!
