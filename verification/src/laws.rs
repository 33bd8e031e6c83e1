//! The algebraic laws of the CRDT merge, stated over abstract states.
//!
//! Replica equality of two sets is equality of their abstract states
//! ([`AbsSet`]): items keyed by name and context keyed by replica, with
//! storage order forgotten. `AWSet::merge` ensures its result is exactly
//! [`merge_abs`] of the inputs, so each law below transfers to the
//! executable merge.
use vstd::prelude::*;
use crate::crdt::AbsSet;
use crate::crdt::ItemV;
use crate::crdt::add_abs;
use crate::crdt::cseen;
use crate::crdt::ctx_join;
use crate::crdt::item_le;
use crate::crdt::lemma_pick_sym;
use crate::crdt::merge_abs;
use crate::crdt::merge_items;
use crate::crdt::next_ts;
use crate::crdt::remove_abs;

verus! {

/// Merging is commutative: for two sets carrying the same list id, the
/// merged items and the merged context do not depend on argument order.
pub proof fn lemma_merge_commutative(a: AbsSet, b: AbsSet)
    requires
        a.id == b.id,
    ensures
        merge_abs(a, b) == merge_abs(b, a),
{
    let mab = merge_items(a.items, b.items, a.context, b.context);
    let mba = merge_items(b.items, a.items, b.context, a.context);
    assert forall|n: Seq<char>| #[trigger] mab.dom().contains(n) implies mba.dom().contains(n)
        && mab[n] == mba[n] by {
        if a.items.dom().contains(n) && b.items.dom().contains(n) {
            lemma_pick_sym(a.items[n], b.items[n], a.context, b.context);
        }
    }
    assert forall|n: Seq<char>| #[trigger] mba.dom().contains(n) implies mab.dom().contains(
        n,
    ) by {}
    assert(mab =~= mba);
    assert(ctx_join(a.context, b.context) =~= ctx_join(b.context, a.context));
    assert(merge_abs(a, b) =~= merge_abs(b, a));
}

/// Merging is idempotent: joining a set with itself changes nothing.
pub proof fn lemma_merge_idempotent(a: AbsSet)
    ensures
        merge_abs(a, a) == a,
{
    let m = merge_items(a.items, a.items, a.context, a.context);
    assert forall|n: Seq<char>| #[trigger] m.dom().contains(n) implies a.items.dom().contains(n)
        && m[n] == a.items[n] by {
        assert(item_le(a.items[n], a.items[n]));
    }
    assert(m =~= a.items);
    assert(ctx_join(a.context, a.context) =~= a.context);
    assert(merge_abs(a, a) =~= a);
}

/// Joining causal contexts is associative unconditionally.
pub proof fn lemma_ctx_join_associative(
    x: Map<Seq<char>, u64>,
    y: Map<Seq<char>, u64>,
    z: Map<Seq<char>, u64>,
)
    ensures
        ctx_join(ctx_join(x, y), z) == ctx_join(x, ctx_join(y, z)),
{
    assert(ctx_join(ctx_join(x, y), z) =~= ctx_join(x, ctx_join(y, z)));
}

/// A joined context has observed an item version exactly when one of the
/// joined contexts has.
pub proof fn lemma_cseen_join(x: Map<Seq<char>, u64>, y: Map<Seq<char>, u64>, it: ItemV)
    ensures
        cseen(ctx_join(x, y), it) == (cseen(x, it) || cseen(y, it)),
{
}

/// Merging is associative for sets whose stored item names are pairwise
/// disjoint; the context part is associative unconditionally (see
/// [`lemma_ctx_join_associative`]). For a name stored on several sides
/// the law does not hold of the merge this library (and its wire peers)
/// compute: the same-name rule always retains one version, so a third
/// context that has observed the retained version but not the discarded
/// one censors differently depending on association order.
pub proof fn lemma_merge_associative_disjoint(a: AbsSet, b: AbsSet, c: AbsSet)
    requires
        a.items.dom().disjoint(b.items.dom()),
        a.items.dom().disjoint(c.items.dom()),
        b.items.dom().disjoint(c.items.dom()),
    ensures
        merge_abs(merge_abs(a, b), c) == merge_abs(a, merge_abs(b, c)),
{
    let ab = merge_abs(a, b);
    let bc = merge_abs(b, c);
    let l = merge_abs(ab, c);
    let r = merge_abs(a, bc);
    lemma_ctx_join_associative(a.context, b.context, c.context);
    assert forall|n: Seq<char>| #[trigger] l.items.dom().contains(n) implies r.items.dom()
        .contains(n) && l.items[n] == r.items[n] by {
        if a.items.dom().contains(n) {
            lemma_cseen_join(b.context, c.context, a.items[n]);
        } else if b.items.dom().contains(n) {
            lemma_cseen_join(b.context, c.context, b.items[n]);
        } else if c.items.dom().contains(n) {
            lemma_cseen_join(a.context, b.context, c.items[n]);
        }
    }
    assert forall|n: Seq<char>| #[trigger] r.items.dom().contains(n) implies l.items.dom()
        .contains(n) by {
        if a.items.dom().contains(n) {
            lemma_cseen_join(b.context, c.context, a.items[n]);
        } else if b.items.dom().contains(n) {
            lemma_cseen_join(b.context, c.context, b.items[n]);
        } else if c.items.dom().contains(n) {
            lemma_cseen_join(a.context, b.context, c.items[n]);
        }
    }
    assert(l.items =~= r.items);
    assert(l =~= r);
}

/// A local add followed at once by a remove of the same name leaves the
/// item present with its tombstone set and its quantities kept, and
/// advances the writer's context entry by exactly two.
pub proof fn lemma_add_then_remove(
    s: AbsSet,
    name: Seq<char>,
    target: u64,
    bought: u64,
    replica: Seq<char>,
)
    requires
        s.context.dom().contains(replica) ==> s.context[replica] + 2 <= u64::MAX,
    ensures
        ({
            let s1 = add_abs(s, name, target, bought, replica, false);
            let s2 = remove_abs(s1, name, replica);
            &&& s2.items.dom().contains(name)
            &&& s2.items[name].deleted
            &&& s2.items[name].target == target
            &&& s2.items[name].bought == bought
            &&& s2.context.dom().contains(replica)
            &&& s2.context[replica] == if s.context.dom().contains(replica) {
                s.context[replica] + 2
            } else {
                2int
            }
        }),
{
    let s1 = add_abs(s, name, target, bought, replica, false);
    let t1 = next_ts(s.context, replica);
    assert(s1.context[replica] == t1);
    let t2 = next_ts(s1.context, replica);
    assert(t2 == t1 + 1);
}

} // verus!
