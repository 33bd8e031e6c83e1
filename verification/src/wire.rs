//! The wire form of a set: a JSON-shaped tree and its exact grammar.
//!
//! One list travels (and is persisted) as the object
//! `{ "<id>": { "s": [ <item objects> ], "c": [ <context objects> ] } }`.
//! [`to_wire`] produces that tree from a set and [`from_wire`] reads one
//! back, rejecting malformed payloads; `lemma_wire_round_trip` proves the
//! trip is lossless for every well-formed set.
use vstd::prelude::*;
use crate::crdt::AWSet;
use crate::crdt::AWSetView;
use crate::crdt::Item;
use crate::crdt::ItemV;
use crate::crdt::awset_from_parts;
use crate::crdt::cmap;
use crate::crdt::cseen;
use crate::crdt::ctx_uniq;
use crate::crdt::items_uniq;
use crate::crdt::seen_exec;
use crate::crdt::vctx;
use crate::crdt::vitems;

verus! {

/// A JSON value, restricted to what the store's wire format carries:
/// booleans, unsigned numbers, strings, arrays and objects.
pub enum Json {
    Bool(bool),
    UInt(u64),
    Str(String),
    Arr(Vec<Json>),
    Obj(Vec<(String, Json)>),
}

pub open spec fn is_str(j: Json, s: Seq<char>) -> bool {
    match j {
        Json::Str(x) => x@ == s,
        _ => false,
    }
}

pub open spec fn is_uint(j: Json, v: u64) -> bool {
    match j {
        Json::UInt(x) => x == v,
        _ => false,
    }
}

pub open spec fn is_bool(j: Json, b: bool) -> bool {
    match j {
        Json::Bool(x) => x == b,
        _ => false,
    }
}

/// The first value stored under a key in an object's pair list.
pub open spec fn obj_get(ps: Seq<(String, Json)>, k: Seq<char>) -> Option<Json>
    decreases ps.len(),
{
    if ps.len() == 0 {
        None
    } else if ps[0].0@ == k {
        Some(ps[0].1)
    } else {
        obj_get(ps.drop_first(), k)
    }
}

/// The item version an item object denotes, if it carries all six fields
/// with their expected types.
pub open spec fn item_of_json(j: Json) -> Option<ItemV> {
    match j {
        Json::Obj(ps) => match (
            obj_get(ps@, "item_name"@),
            obj_get(ps@, "target"@),
            obj_get(ps@, "bought"@),
            obj_get(ps@, "replica"@),
            obj_get(ps@, "timestamp"@),
            obj_get(ps@, "deleted"@),
        ) {
            (
                Some(Json::Str(nm)),
                Some(Json::UInt(tg)),
                Some(Json::UInt(bo)),
                Some(Json::Str(rp)),
                Some(Json::UInt(ts)),
                Some(Json::Bool(dl)),
            ) => Some(
                ItemV {
                    name: nm@,
                    target: tg,
                    bought: bo,
                    replica: rp@,
                    timestamp: ts,
                    deleted: dl,
                },
            ),
            _ => None,
        },
        _ => None,
    }
}

/// The context entry a context object denotes.
pub open spec fn ctx_entry_of_json(j: Json) -> Option<(Seq<char>, u64)> {
    match j {
        Json::Obj(ps) => match (obj_get(ps@, "replica"@), obj_get(ps@, "timestamp"@)) {
            (Some(Json::Str(rp)), Some(Json::UInt(ts))) => Some((rp@, ts)),
            _ => None,
        },
        _ => None,
    }
}

/// All elements of an item array, in order; `None` if any is malformed.
pub open spec fn items_of_json(s: Seq<Json>) -> Option<Seq<ItemV>>
    decreases s.len(),
{
    if s.len() == 0 {
        Some(Seq::<ItemV>::empty())
    } else {
        match items_of_json(s.drop_last()) {
            Some(p) => match item_of_json(s.last()) {
                Some(it) => Some(p.push(it)),
                None => None,
            },
            None => None,
        }
    }
}

/// All elements of a context array, in order.
pub open spec fn ctxs_of_json(s: Seq<Json>) -> Option<Seq<(Seq<char>, u64)>>
    decreases s.len(),
{
    if s.len() == 0 {
        Some(Seq::<(Seq<char>, u64)>::empty())
    } else {
        match ctxs_of_json(s.drop_last()) {
            Some(p) => match ctx_entry_of_json(s.last()) {
                Some(e) => Some(p.push(e)),
                None => None,
            },
            None => None,
        }
    }
}

/// The set a wire tree denotes: a single-key object whose body holds the
/// item array under `"s"` and the context array under `"c"`, provided
/// every element is well typed and the whole satisfies the set's
/// well-formedness invariant. Anything else is rejected.
pub open spec fn parse_wire(j: Json) -> Option<AWSetView> {
    match j {
        Json::Obj(ps) => if ps@.len() != 1 {
            None
        } else {
            match ps@[0].1 {
                Json::Obj(bps) => match (obj_get(bps@, "s"@), obj_get(bps@, "c"@)) {
                    (Some(Json::Arr(sa)), Some(Json::Arr(ca))) => match (
                        items_of_json(sa@),
                        ctxs_of_json(ca@),
                    ) {
                        (Some(its), Some(ctxs)) => {
                            let v = AWSetView { id: ps@[0].0@, items: its, context: ctxs };
                            if v.wf() {
                                Some(v)
                            } else {
                                None
                            }
                        },
                        _ => None,
                    },
                    _ => None,
                },
                _ => None,
            }
        },
        _ => None,
    }
}

/// Whether a tree is exactly the canonical item object for this version.
pub open spec fn item_matches(j: Json, it: ItemV) -> bool {
    match j {
        Json::Obj(ps) => {
            &&& ps@.len() == 6
            &&& ps@[0].0@ == "item_name"@ && is_str(ps@[0].1, it.name)
            &&& ps@[1].0@ == "target"@ && is_uint(ps@[1].1, it.target)
            &&& ps@[2].0@ == "bought"@ && is_uint(ps@[2].1, it.bought)
            &&& ps@[3].0@ == "replica"@ && is_str(ps@[3].1, it.replica)
            &&& ps@[4].0@ == "timestamp"@ && is_uint(ps@[4].1, it.timestamp)
            &&& ps@[5].0@ == "deleted"@ && is_bool(ps@[5].1, it.deleted)
        },
        _ => false,
    }
}

/// Whether a tree is exactly the canonical context object for this entry.
pub open spec fn ctx_entry_matches(j: Json, e: (Seq<char>, u64)) -> bool {
    match j {
        Json::Obj(ps) => {
            &&& ps@.len() == 2
            &&& ps@[0].0@ == "replica"@ && is_str(ps@[0].1, e.0)
            &&& ps@[1].0@ == "timestamp"@ && is_uint(ps@[1].1, e.1)
        },
        _ => false,
    }
}

/// Whether a tree is exactly the canonical wire form of this set value.
pub open spec fn wire_matches(j: Json, v: AWSetView) -> bool {
    match j {
        Json::Obj(ps) => {
            &&& ps@.len() == 1
            &&& ps@[0].0@ == v.id
            &&& match ps@[0].1 {
                Json::Obj(bps) => {
                    &&& bps@.len() == 2
                    &&& bps@[0].0@ == "s"@
                    &&& bps@[1].0@ == "c"@
                    &&& match bps@[0].1 {
                        Json::Arr(sa) => sa@.len() == v.items.len() && (forall|i: int|
                            0 <= i < sa@.len() ==> item_matches(#[trigger] sa@[i], v.items[i])),
                        _ => false,
                    }
                    &&& match bps@[1].1 {
                        Json::Arr(ca) => ca@.len() == v.context.len() && (forall|i: int|
                            0 <= i < ca@.len() ==> ctx_entry_matches(
                                #[trigger] ca@[i],
                                v.context[i],
                            )),
                        _ => false,
                    }
                },
                _ => false,
            }
        },
        _ => false,
    }
}

// ------------------------------------------------------------------
// Serialization.
// ------------------------------------------------------------------

/// Serializes a set into its canonical wire tree.
pub fn to_wire(s: &AWSet) -> (r: Json)
    ensures
        wire_matches(r, s@),
{
    let mut sa: Vec<Json> = Vec::new();
    let mut i: usize = 0;
    while i < s.item_count()
        invariant
            i <= s@.items.len(),
            sa@.len() == i,
            forall|k: int| 0 <= k < i ==> item_matches(#[trigger] sa@[k], s@.items[k]),
        decreases s@.items.len() - i,
    {
        let it = s.item_at(i);
        let mut ps: Vec<(String, Json)> = Vec::new();
        ps.push((String::from_str("item_name"), Json::Str(it.item_name.clone())));
        ps.push((String::from_str("target"), Json::UInt(it.target)));
        ps.push((String::from_str("bought"), Json::UInt(it.bought)));
        ps.push((String::from_str("replica"), Json::Str(it.replica.clone())));
        ps.push((String::from_str("timestamp"), Json::UInt(it.timestamp)));
        ps.push((String::from_str("deleted"), Json::Bool(it.deleted)));
        let jo = Json::Obj(ps);
        proof {
            assert(item_matches(jo, s@.items[i as int]));
        }
        sa.push(jo);
        i = i + 1;
    }
    let mut ca: Vec<Json> = Vec::new();
    let mut k: usize = 0;
    while k < s.context_count()
        invariant
            k <= s@.context.len(),
            ca@.len() == k,
            forall|k2: int| 0 <= k2 < k ==> ctx_entry_matches(#[trigger] ca@[k2], s@.context[k2]),
        decreases s@.context.len() - k,
    {
        let e = s.context_at(k);
        let mut ps: Vec<(String, Json)> = Vec::new();
        ps.push((String::from_str("replica"), Json::Str(e.0)));
        ps.push((String::from_str("timestamp"), Json::UInt(e.1)));
        let jo = Json::Obj(ps);
        proof {
            assert(ctx_entry_matches(jo, s@.context[k as int]));
        }
        ca.push(jo);
        k = k + 1;
    }
    let mut bps: Vec<(String, Json)> = Vec::new();
    bps.push((String::from_str("s"), Json::Arr(sa)));
    bps.push((String::from_str("c"), Json::Arr(ca)));
    let mut root: Vec<(String, Json)> = Vec::new();
    root.push((s.id_string(), Json::Obj(bps)));
    Json::Obj(root)
}

// ------------------------------------------------------------------
// Deserialization.
// ------------------------------------------------------------------

/// Looks a key up in an object's pair list, first match wins.
fn obj_get_exec<'a>(ps: &'a Vec<(String, Json)>, k: &str) -> (r: Option<&'a Json>)
    ensures
        match r {
            Some(x) => obj_get(ps@, k@) == Some(*x),
            None => obj_get(ps@, k@) == None::<Json>,
        },
{
    let ks = k.to_owned();
    let mut i: usize = 0;
    proof {
        assert(ps@.skip(0) =~= ps@);
    }
    while i < ps.len()
        invariant
            i <= ps.len(),
            ks@ == k@,
            obj_get(ps@, k@) == obj_get(ps@.skip(i as int), k@),
        decreases ps@.len() - i,
    {
        proof {
            assert(ps@.skip(i as int)[0] == ps@[i as int]);
        }
        let p = &ps[i];
        if p.0 == ks {
            return Some(&p.1);
        }
        proof {
            assert(ps@.skip(i as int).drop_first() =~= ps@.skip(i as int + 1));
        }
        i = i + 1;
    }
    proof {
        assert(ps@.skip(i as int).len() == 0);
    }
    None
}

/// Reads one item object.
fn item_from_json(j: &Json) -> (r: Option<Item>)
    ensures
        match r {
            Some(it) => item_of_json(*j) == Some(it@),
            None => item_of_json(*j) == None::<ItemV>,
        },
{
    let ps = match j {
        Json::Obj(ps) => ps,
        _ => {
            return None;
        },
    };
    let item_name = match obj_get_exec(ps, "item_name") {
        Some(Json::Str(s)) => s.clone(),
        _ => {
            return None;
        },
    };
    let target = match obj_get_exec(ps, "target") {
        Some(Json::UInt(v)) => *v,
        _ => {
            return None;
        },
    };
    let bought = match obj_get_exec(ps, "bought") {
        Some(Json::UInt(v)) => *v,
        _ => {
            return None;
        },
    };
    let replica = match obj_get_exec(ps, "replica") {
        Some(Json::Str(s)) => s.clone(),
        _ => {
            return None;
        },
    };
    let timestamp = match obj_get_exec(ps, "timestamp") {
        Some(Json::UInt(v)) => *v,
        _ => {
            return None;
        },
    };
    let deleted = match obj_get_exec(ps, "deleted") {
        Some(Json::Bool(b)) => *b,
        _ => {
            return None;
        },
    };
    Some(Item { item_name, target, bought, replica, timestamp, deleted })
}

/// Reads one context object.
fn ctx_entry_from_json(j: &Json) -> (r: Option<(String, u64)>)
    ensures
        match r {
            Some(e) => ctx_entry_of_json(*j) == Some((e.0@, e.1)),
            None => ctx_entry_of_json(*j) == None::<(Seq<char>, u64)>,
        },
{
    let ps = match j {
        Json::Obj(ps) => ps,
        _ => {
            return None;
        },
    };
    let replica = match obj_get_exec(ps, "replica") {
        Some(Json::Str(s)) => s.clone(),
        _ => {
            return None;
        },
    };
    let timestamp = match obj_get_exec(ps, "timestamp") {
        Some(Json::UInt(v)) => *v,
        _ => {
            return None;
        },
    };
    Some((replica, timestamp))
}

/// One parse step: reading one more array element.
proof fn lemma_items_step(s: Seq<Json>, i: int)
    requires
        0 <= i < s.len(),
    ensures
        items_of_json(s.take(i + 1)) == match items_of_json(s.take(i)) {
            Some(p) => match item_of_json(s[i]) {
                Some(it) => Some(p.push(it)),
                None => None::<Seq<ItemV>>,
            },
            None => None::<Seq<ItemV>>,
        },
{
    let t = s.take(i + 1);
    assert(t.drop_last() =~= s.take(i));
    assert(t.last() == s[i]);
}

/// A failed prefix never recovers.
proof fn lemma_items_extend_none(s: Seq<Json>, i: int)
    requires
        0 <= i <= s.len(),
        items_of_json(s.take(i)) == None::<Seq<ItemV>>,
    ensures
        items_of_json(s) == None::<Seq<ItemV>>,
    decreases s.len() - i,
{
    if i < s.len() {
        lemma_items_step(s, i);
        lemma_items_extend_none(s, i + 1);
    } else {
        assert(s.take(i) =~= s);
    }
}

/// One parse step of the context array.
proof fn lemma_ctxs_step(s: Seq<Json>, i: int)
    requires
        0 <= i < s.len(),
    ensures
        ctxs_of_json(s.take(i + 1)) == match ctxs_of_json(s.take(i)) {
            Some(p) => match ctx_entry_of_json(s[i]) {
                Some(e) => Some(p.push(e)),
                None => None::<Seq<(Seq<char>, u64)>>,
            },
            None => None::<Seq<(Seq<char>, u64)>>,
        },
{
    let t = s.take(i + 1);
    assert(t.drop_last() =~= s.take(i));
    assert(t.last() == s[i]);
}

/// A failed prefix of the context array never recovers.
proof fn lemma_ctxs_extend_none(s: Seq<Json>, i: int)
    requires
        0 <= i <= s.len(),
        ctxs_of_json(s.take(i)) == None::<Seq<(Seq<char>, u64)>>,
    ensures
        ctxs_of_json(s) == None::<Seq<(Seq<char>, u64)>>,
    decreases s.len() - i,
{
    if i < s.len() {
        lemma_ctxs_step(s, i);
        lemma_ctxs_extend_none(s, i + 1);
    } else {
        assert(s.take(i) =~= s);
    }
}

/// Whether no item name repeats.
fn names_unique(items: &Vec<Item>) -> (r: bool)
    ensures
        r == items_uniq(vitems(items@)),
{
    let mut i: usize = 0;
    while i < items.len()
        invariant
            i <= items.len(),
            forall|a: int, b: int|
                0 <= a < b < i ==> (#[trigger] vitems(items@)[a]).name != (#[trigger] vitems(
                    items@,
                )[b]).name,
        decreases items@.len() - i,
    {
        let mut j: usize = 0;
        while j < i
            invariant
                j <= i < items.len(),
                forall|b: int|
                    0 <= b < j ==> (#[trigger] vitems(items@)[b]).name != vitems(items@)[
                        i as int
                    ].name,
            decreases i - j,
        {
            if items[j].item_name == items[i].item_name {
                proof {
                    assert(vitems(items@)[j as int].name == vitems(items@)[i as int].name);
                }
                return false;
            }
            proof {
                assert(vitems(items@)[j as int].name == items@[j as int]@.name);
            }
            j = j + 1;
        }
        i = i + 1;
    }
    true
}

/// Whether no replica repeats among context entries.
fn reps_unique(ctx: &Vec<(String, u64)>) -> (r: bool)
    ensures
        r == ctx_uniq(vctx(ctx@)),
{
    let mut i: usize = 0;
    while i < ctx.len()
        invariant
            i <= ctx.len(),
            forall|a: int, b: int|
                0 <= a < b < i ==> (#[trigger] vctx(ctx@)[a]).0 != (#[trigger] vctx(ctx@)[b]).0,
        decreases ctx@.len() - i,
    {
        let mut j: usize = 0;
        while j < i
            invariant
                j <= i < ctx.len(),
                forall|b: int| 0 <= b < j ==> (#[trigger] vctx(ctx@)[b]).0 != vctx(ctx@)[i as int].0,
            decreases i - j,
        {
            if ctx[j].0 == ctx[i].0 {
                proof {
                    assert(vctx(ctx@)[j as int].0 == vctx(ctx@)[i as int].0);
                }
                return false;
            }
            proof {
                assert(vctx(ctx@)[j as int].0 == ctx@[j as int].0@);
            }
            j = j + 1;
        }
        i = i + 1;
    }
    true
}

/// Whether every item version is covered by the context.
fn check_dominated(items: &Vec<Item>, ctx: &Vec<(String, u64)>) -> (r: bool)
    requires
        ctx_uniq(vctx(ctx@)),
    ensures
        r == (forall|i: int|
            0 <= i < vitems(items@).len() ==> cseen(
                cmap(vctx(ctx@)),
                #[trigger] vitems(items@)[i],
            )),
{
    let mut i: usize = 0;
    while i < items.len()
        invariant
            i <= items.len(),
            ctx_uniq(vctx(ctx@)),
            forall|k: int| 0 <= k < i ==> cseen(cmap(vctx(ctx@)), #[trigger] vitems(items@)[k]),
        decreases items@.len() - i,
    {
        if !seen_exec(ctx, &items[i]) {
            proof {
                assert(vitems(items@)[i as int] == items@[i as int]@);
            }
            return false;
        }
        proof {
            assert(vitems(items@)[i as int] == items@[i as int]@);
        }
        i = i + 1;
    }
    true
}

/// Reads a set back from its wire tree, rejecting malformed payloads and
/// payloads that violate the set's invariant.
pub fn from_wire(j: &Json) -> (r: Option<AWSet>)
    ensures
        match r {
            Some(s) => parse_wire(*j) == Some(s@) && s@.wf(),
            None => parse_wire(*j) == None::<AWSetView>,
        },
{
    let ps = match j {
        Json::Obj(ps) => ps,
        _ => {
            return None;
        },
    };
    if ps.len() != 1 {
        return None;
    }
    let id = ps[0].0.clone();
    let bps = match &ps[0].1 {
        Json::Obj(b) => b,
        _ => {
            return None;
        },
    };
    let sa = match obj_get_exec(bps, "s") {
        Some(Json::Arr(sa)) => sa,
        _ => {
            return None;
        },
    };
    let ca = match obj_get_exec(bps, "c") {
        Some(Json::Arr(ca)) => ca,
        _ => {
            return None;
        },
    };
    let mut items: Vec<Item> = Vec::new();
    let mut i: usize = 0;
    proof {
        assert(sa@.take(0) =~= Seq::<Json>::empty());
        assert(items_of_json(sa@.take(0)) == Some(vitems(items@)));
    }
    while i < sa.len()
        invariant
            i <= sa.len(),
            items_of_json(sa@.take(i as int)) == Some(vitems(items@)),
            *j == Json::Obj(*ps),
            ps@.len() == 1,
            ps@[0].1 == Json::Obj(*bps),
            obj_get(bps@, "s"@) == Some(Json::Arr(*sa)),
            obj_get(bps@, "c"@) == Some(Json::Arr(*ca)),
        decreases sa@.len() - i,
    {
        proof {
            lemma_items_step(sa@, i as int);
        }
        match item_from_json(&sa[i]) {
            Some(it) => {
                let ghost pre = vitems(items@);
                items.push(it);
                proof {
                    assert(vitems(items@) =~= pre.push(it@));
                }
            },
            None => {
                proof {
                    lemma_items_extend_none(sa@, i as int + 1);
                    assert(items_of_json(sa@) == None::<Seq<ItemV>>);
                    assert(parse_wire(*j) == None::<AWSetView>);
                }
                return None;
            },
        }
        i = i + 1;
    }
    proof {
        assert(sa@.take(sa@.len() as int) =~= sa@);
    }
    let mut context: Vec<(String, u64)> = Vec::new();
    let mut k: usize = 0;
    proof {
        assert(ca@.take(0) =~= Seq::<Json>::empty());
        assert(ctxs_of_json(ca@.take(0)) == Some(vctx(context@)));
    }
    while k < ca.len()
        invariant
            k <= ca.len(),
            ctxs_of_json(ca@.take(k as int)) == Some(vctx(context@)),
            *j == Json::Obj(*ps),
            ps@.len() == 1,
            ps@[0].1 == Json::Obj(*bps),
            obj_get(bps@, "s"@) == Some(Json::Arr(*sa)),
            obj_get(bps@, "c"@) == Some(Json::Arr(*ca)),
            items_of_json(sa@) == Some(vitems(items@)),
        decreases ca@.len() - k,
    {
        proof {
            lemma_ctxs_step(ca@, k as int);
        }
        match ctx_entry_from_json(&ca[k]) {
            Some(e) => {
                let ghost pre = vctx(context@);
                let ghost ev = (e.0@, e.1);
                context.push(e);
                proof {
                    assert(vctx(context@) =~= pre.push(ev));
                }
            },
            None => {
                proof {
                    lemma_ctxs_extend_none(ca@, k as int + 1);
                    assert(ctxs_of_json(ca@) == None::<Seq<(Seq<char>, u64)>>);
                    assert(parse_wire(*j) == None::<AWSetView>);
                }
                return None;
            },
        }
        k = k + 1;
    }
    proof {
        assert(ca@.take(ca@.len() as int) =~= ca@);
    }
    if !names_unique(&items) {
        return None;
    }
    if !reps_unique(&context) {
        return None;
    }
    if !check_dominated(&items, &context) {
        return None;
    }
    let s = awset_from_parts(id, items, context);
    proof {
        assert(parse_wire(*j) == Some(s@));
    }
    Some(s)
}

// ------------------------------------------------------------------
// The round trip.
// ------------------------------------------------------------------

/// A key found at position `i`, with no earlier occurrence, is what
/// lookup returns.
proof fn lemma_obj_get_at(ps: Seq<(String, Json)>, i: int, k: Seq<char>)
    requires
        0 <= i < ps.len(),
        ps[i].0@ == k,
        forall|j: int| 0 <= j < i ==> (#[trigger] ps[j]).0@ != k,
    ensures
        obj_get(ps, k) == Some(ps[i].1),
    decreases i,
{
    if i > 0 {
        let t = ps.drop_first();
        assert(forall|j: int| 0 <= j < i - 1 ==> (#[trigger] t[j]).0@ != k);
        lemma_obj_get_at(t, i - 1, k);
    }
}

/// A canonical item object parses back to its version.
proof fn lemma_item_round(j: Json, it: ItemV)
    requires
        item_matches(j, it),
    ensures
        item_of_json(j) == Some(it),
{
    reveal_strlit("item_name");
    reveal_strlit("target");
    reveal_strlit("bought");
    reveal_strlit("replica");
    reveal_strlit("timestamp");
    reveal_strlit("deleted");
    assert("item_name"@.len() == 9 && "target"@.len() == 6 && "bought"@.len() == 6
        && "replica"@.len() == 7 && "timestamp"@.len() == 9 && "deleted"@.len() == 7);
    assert("bought"@[0] == 'b' && "target"@[0] == 't');
    assert("timestamp"@[0] == 't' && "item_name"@[0] == 'i');
    assert("deleted"@[0] == 'd' && "replica"@[0] == 'r');
    assert("target"@ != "item_name"@);
    assert("bought"@ != "item_name"@ && "bought"@ != "target"@);
    assert("replica"@ != "item_name"@ && "replica"@ != "target"@ && "replica"@ != "bought"@);
    assert("timestamp"@ != "item_name"@ && "timestamp"@ != "target"@ && "timestamp"@
        != "bought"@ && "timestamp"@ != "replica"@);
    assert("deleted"@ != "item_name"@ && "deleted"@ != "target"@ && "deleted"@ != "bought"@
        && "deleted"@ != "replica"@ && "deleted"@ != "timestamp"@);
    match j {
        Json::Obj(ps) => {
            lemma_obj_get_at(ps@, 0, "item_name"@);
            lemma_obj_get_at(ps@, 1, "target"@);
            lemma_obj_get_at(ps@, 2, "bought"@);
            lemma_obj_get_at(ps@, 3, "replica"@);
            lemma_obj_get_at(ps@, 4, "timestamp"@);
            lemma_obj_get_at(ps@, 5, "deleted"@);
        },
        _ => {
            assert(false);
        },
    }
}

/// A canonical context object parses back to its entry.
proof fn lemma_ctx_entry_round(j: Json, e: (Seq<char>, u64))
    requires
        ctx_entry_matches(j, e),
    ensures
        ctx_entry_of_json(j) == Some(e),
{
    reveal_strlit("replica");
    reveal_strlit("timestamp");
    assert("replica"@.len() == 7 && "timestamp"@.len() == 9);
    assert("timestamp"@ != "replica"@);
    match j {
        Json::Obj(ps) => {
            lemma_obj_get_at(ps@, 0, "replica"@);
            lemma_obj_get_at(ps@, 1, "timestamp"@);
        },
        _ => {
            assert(false);
        },
    }
}

/// A canonical item array parses back to its versions.
proof fn lemma_items_round(sa: Seq<Json>, its: Seq<ItemV>)
    requires
        sa.len() == its.len(),
        forall|i: int| 0 <= i < sa.len() ==> item_matches(#[trigger] sa[i], its[i]),
    ensures
        items_of_json(sa) == Some(its),
    decreases sa.len(),
{
    if sa.len() == 0 {
        assert(its =~= Seq::<ItemV>::empty());
    } else {
        assert(forall|i: int|
            0 <= i < sa.len() - 1 ==> #[trigger] sa.drop_last()[i] == sa[i]);
        lemma_items_round(sa.drop_last(), its.drop_last());
        lemma_item_round(sa.last(), its.last());
        assert(its.drop_last().push(its.last()) =~= its);
    }
}

/// A canonical context array parses back to its entries.
proof fn lemma_ctxs_round(ca: Seq<Json>, es: Seq<(Seq<char>, u64)>)
    requires
        ca.len() == es.len(),
        forall|i: int| 0 <= i < ca.len() ==> ctx_entry_matches(#[trigger] ca[i], es[i]),
    ensures
        ctxs_of_json(ca) == Some(es),
    decreases ca.len(),
{
    if ca.len() == 0 {
        assert(es =~= Seq::<(Seq<char>, u64)>::empty());
    } else {
        assert(forall|i: int|
            0 <= i < ca.len() - 1 ==> #[trigger] ca.drop_last()[i] == ca[i]);
        lemma_ctxs_round(ca.drop_last(), es.drop_last());
        lemma_ctx_entry_round(ca.last(), es.last());
        assert(es.drop_last().push(es.last()) =~= es);
    }
}

/// The wire trip is lossless: the canonical tree of any well-formed set
/// value parses back to exactly that value. Together with the contracts
/// of [`to_wire`] and [`from_wire`], reading back a serialized set
/// returns the set unchanged.
pub proof fn lemma_wire_round_trip(j: Json, v: AWSetView)
    requires
        v.wf(),
        wire_matches(j, v),
    ensures
        parse_wire(j) == Some(v),
{
    reveal_strlit("s");
    reveal_strlit("c");
    assert("s"@.len() == 1 && "c"@.len() == 1);
    assert("s"@[0] == 's' && "c"@[0] == 'c');
    assert("c"@ != "s"@);
    match j {
        Json::Obj(ps) => {
            match ps@[0].1 {
                Json::Obj(bps) => {
                    lemma_obj_get_at(bps@, 0, "s"@);
                    lemma_obj_get_at(bps@, 1, "c"@);
                    match (obj_get(bps@, "s"@), obj_get(bps@, "c"@)) {
                        (Some(Json::Arr(sa)), Some(Json::Arr(ca))) => {
                            lemma_items_round(sa@, v.items);
                            lemma_ctxs_round(ca@, v.context);
                            let parsed = AWSetView {
                                id: ps@[0].0@,
                                items: v.items,
                                context: v.context,
                            };
                            assert(parsed =~= v);
                        },
                        _ => {
                            assert(false);
                        },
                    }
                },
                _ => {
                    assert(false);
                },
            }
        },
        _ => {
            assert(false);
        },
    }
}

// ------------------------------------------------------------------
// The canonical wire text.
// ------------------------------------------------------------------

/// The character for one hexadecimal digit, lower case.
pub open spec fn hex_char(d: int) -> char {
    if d < 10 {
        crate::strutil::digit_char(d)
    } else if d == 10 {
        'a'
    } else if d == 11 {
        'b'
    } else if d == 12 {
        'c'
    } else if d == 13 {
        'd'
    } else if d == 14 {
        'e'
    } else {
        'f'
    }
}

/// How one character appears inside a quoted wire string: quotes and
/// backslashes carry a backslash, control characters become their JSON
/// `\u00XX` escape, everything else stands as itself.
pub open spec fn esc_char(c: char) -> Seq<char> {
    if c == '"' || c == '\\' {
        seq!['\\', c]
    } else if (c as u32) < 32 {
        seq![
            '\\',
            'u',
            '0',
            '0',
            hex_char(((c as u32) / 16) as int),
            hex_char(((c as u32) % 16) as int),
        ]
    } else {
        seq![c]
    }
}

/// A string's characters in escaped form.
pub open spec fn escape(s: Seq<char>) -> Seq<char>
    decreases s.len(),
{
    if s.len() == 0 {
        Seq::<char>::empty()
    } else {
        escape(s.drop_last()) + esc_char(s.last())
    }
}

/// A quoted wire string.
pub open spec fn quoted(s: Seq<char>) -> Seq<char> {
    "\""@ + escape(s) + "\""@
}

/// The canonical text of one item object.
pub open spec fn item_text(it: ItemV) -> Seq<char> {
    "{\"item_name\":"@ + quoted(it.name) + ",\"target\":"@ + crate::strutil::dec_str(
        it.target as nat,
    ) + ",\"bought\":"@ + crate::strutil::dec_str(it.bought as nat) + ",\"replica\":"@ + quoted(
        it.replica,
    ) + ",\"timestamp\":"@ + crate::strutil::dec_str(it.timestamp as nat) + ",\"deleted\":"@ + (
    if it.deleted {
        "true"@
    } else {
        "false"@
    }) + "}"@
}

/// The canonical text of one context object.
pub open spec fn ctx_text(e: (Seq<char>, u64)) -> Seq<char> {
    "{\"replica\":"@ + quoted(e.0) + ",\"timestamp\":"@ + crate::strutil::dec_str(e.1 as nat)
        + "}"@
}

/// The item array's elements, comma-separated.
pub open spec fn items_text(s: Seq<ItemV>) -> Seq<char>
    decreases s.len(),
{
    if s.len() == 0 {
        Seq::<char>::empty()
    } else if s.len() == 1 {
        item_text(s[0])
    } else {
        items_text(s.drop_last()) + ","@ + item_text(s.last())
    }
}

/// The context array's elements, comma-separated.
pub open spec fn ctxs_text(s: Seq<(Seq<char>, u64)>) -> Seq<char>
    decreases s.len(),
{
    if s.len() == 0 {
        Seq::<char>::empty()
    } else if s.len() == 1 {
        ctx_text(s[0])
    } else {
        ctxs_text(s.drop_last()) + ","@ + ctx_text(s.last())
    }
}

/// The canonical wire text of a whole set value.
pub open spec fn wire_text(v: AWSetView) -> Seq<char> {
    "{"@ + quoted(v.id) + ":{\"s\":["@ + items_text(v.items) + "],\"c\":["@ + ctxs_text(
        v.context,
    ) + "]}}"@
}

fn hex_exec(d: u32) -> (c: char)
    requires
        d < 16,
    ensures
        c == hex_char(d as int),
{
    if d == 0 {
        '0'
    } else if d == 1 {
        '1'
    } else if d == 2 {
        '2'
    } else if d == 3 {
        '3'
    } else if d == 4 {
        '4'
    } else if d == 5 {
        '5'
    } else if d == 6 {
        '6'
    } else if d == 7 {
        '7'
    } else if d == 8 {
        '8'
    } else if d == 9 {
        '9'
    } else if d == 10 {
        'a'
    } else if d == 11 {
        'b'
    } else if d == 12 {
        'c'
    } else if d == 13 {
        'd'
    } else if d == 14 {
        'e'
    } else {
        'f'
    }
}

/// Escapes one string for the wire.
fn escape_string(s: &String) -> (r: String)
    ensures
        r@ == escape(s@),
{
    let cs = crate::strutil::str_chars(s.as_str());
    let mut out: Vec<char> = Vec::new();
    let mut i: usize = 0;
    proof {
        assert(cs@.take(0) =~= Seq::<char>::empty());
    }
    while i < cs.len()
        invariant
            i <= cs.len(),
            cs@ == s@,
            out@ == escape(cs@.take(i as int)),
        decreases cs@.len() - i,
    {
        let c = cs[i];
        let ghost pre = out@;
        if c == '"' || c == '\\' {
            out.push('\\');
            out.push(c);
        } else if (c as u32) < 32 {
            out.push('\\');
            out.push('u');
            out.push('0');
            out.push('0');
            out.push(hex_exec((c as u32) / 16));
            out.push(hex_exec((c as u32) % 16));
        } else {
            out.push(c);
        }
        proof {
            let t = cs@.take(i as int + 1);
            assert(t.drop_last() =~= cs@.take(i as int));
            assert(t.last() == cs@[i as int]);
            assert(out@ =~= pre + esc_char(c));
        }
        i = i + 1;
    }
    proof {
        assert(cs@.take(cs@.len() as int) =~= cs@);
    }
    crate::strutil::chars_string(&out)
}

/// Quotes one string for the wire.
fn quote_string(s: &String) -> (r: String)
    ensures
        r@ == quoted(s@),
{
    let mut out = String::from_str("\"");
    let body = escape_string(s);
    out.append(body.as_str());
    out.append("\"");
    out
}

/// The canonical text of one item.
fn item_text_exec(it: &Item) -> (r: String)
    ensures
        r@ == item_text(it@),
{
    let mut out = String::from_str("{\"item_name\":");
    let q_name = quote_string(&it.item_name);
    out.append(q_name.as_str());
    out.append(",\"target\":");
    let d_target = crate::strutil::u64_to_dec(it.target);
    out.append(d_target.as_str());
    out.append(",\"bought\":");
    let d_bought = crate::strutil::u64_to_dec(it.bought);
    out.append(d_bought.as_str());
    out.append(",\"replica\":");
    let q_rep = quote_string(&it.replica);
    out.append(q_rep.as_str());
    out.append(",\"timestamp\":");
    let d_ts = crate::strutil::u64_to_dec(it.timestamp);
    out.append(d_ts.as_str());
    out.append(",\"deleted\":");
    if it.deleted {
        out.append("true");
    } else {
        out.append("false");
    }
    out.append("}");
    out
}

/// The canonical text of one context entry.
fn ctx_text_exec(replica: &String, ts: u64) -> (r: String)
    ensures
        r@ == ctx_text((replica@, ts)),
{
    let mut out = String::from_str("{\"replica\":");
    let q_rep = quote_string(replica);
    out.append(q_rep.as_str());
    out.append(",\"timestamp\":");
    let d_ts = crate::strutil::u64_to_dec(ts);
    out.append(d_ts.as_str());
    out.append("}");
    out
}

/// Serializes a set into its canonical wire text, the form peer frames
/// and replies carry.
pub fn to_wire_text(s: &AWSet) -> (r: String)
    ensures
        r@ == wire_text(s@),
{
    let mut out = String::from_str("{");
    let q_id = quote_string(&s.id_string());
    out.append(q_id.as_str());
    out.append(":{\"s\":[");
    let ghost prefix = out@;
    let mut i: usize = 0;
    while i < s.item_count()
        invariant
            i <= s@.items.len(),
            out@ == prefix + items_text(s@.items.take(i as int)),
            prefix == "{"@ + quoted(s@.id) + ":{\"s\":["@,
        decreases s@.items.len() - i,
    {
        if i > 0 {
            out.append(",");
        }
        let piece = item_text_exec(s.item_at(i));
        out.append(piece.as_str());
        proof {
            let t = s@.items.take(i as int + 1);
            assert(t.drop_last() =~= s@.items.take(i as int));
            assert(t.last() == s@.items[i as int]);
            if i == 0 {
                assert(s@.items.take(0) =~= Seq::<ItemV>::empty());
                assert(out@ =~= prefix + items_text(t));
            } else {
                assert(out@ =~= prefix + (items_text(s@.items.take(i as int)) + ","@ + item_text(
                    s@.items[i as int],
                )));
            }
        }
        i = i + 1;
    }
    proof {
        assert(s@.items.take(s@.items.len() as int) =~= s@.items);
    }
    out.append("],\"c\":[");
    let ghost prefix2 = out@;
    let mut k: usize = 0;
    while k < s.context_count()
        invariant
            k <= s@.context.len(),
            out@ == prefix2 + ctxs_text(s@.context.take(k as int)),
            prefix2 == "{"@ + quoted(s@.id) + ":{\"s\":["@ + items_text(s@.items) + "],\"c\":["@,
        decreases s@.context.len() - k,
    {
        if k > 0 {
            out.append(",");
        }
        let e = s.context_at(k);
        let piece = ctx_text_exec(&e.0, e.1);
        out.append(piece.as_str());
        proof {
            let t = s@.context.take(k as int + 1);
            assert(t.drop_last() =~= s@.context.take(k as int));
            assert(t.last() == s@.context[k as int]);
            if k == 0 {
                assert(s@.context.take(0) =~= Seq::<(Seq<char>, u64)>::empty());
                assert(out@ =~= prefix2 + ctxs_text(t));
            } else {
                assert(out@ =~= prefix2 + (ctxs_text(s@.context.take(k as int)) + ","@ + ctx_text(
                    s@.context[k as int],
                )));
            }
        }
        k = k + 1;
    }
    proof {
        assert(s@.context.take(s@.context.len() as int) =~= s@.context);
    }
    out.append("]}}");
    proof {
        assert(out@ =~= wire_text(s@));
    }
    out
}

// ------------------------------------------------------------------
// The shard file: every list of one node in a single object.
// ------------------------------------------------------------------

/// One list's entry in the shard file: its id and its body.
pub open spec fn entry_text(v: AWSetView) -> Seq<char> {
    quoted(v.id) + ":{\"s\":["@ + items_text(v.items) + "],\"c\":["@ + ctxs_text(v.context)
        + "]}"@
}

/// The file's entries, comma-separated, in storage order.
pub open spec fn entries_text(s: Seq<AWSetView>) -> Seq<char>
    decreases s.len(),
{
    if s.len() == 0 {
        Seq::<char>::empty()
    } else if s.len() == 1 {
        entry_text(s[0])
    } else {
        entries_text(s.drop_last()) + ","@ + entry_text(s.last())
    }
}

/// The canonical text of one node's whole shard file.
pub open spec fn file_text(s: Seq<AWSetView>) -> Seq<char> {
    "{"@ + entries_text(s) + "}"@
}

/// The canonical text of one shard-file entry.
fn entry_text_exec(s: &AWSet) -> (r: String)
    ensures
        r@ == entry_text(s@),
{
    let mut out = quote_string(&s.id_string());
    out.append(":{\"s\":[");
    let ghost prefix = out@;
    let mut i: usize = 0;
    while i < s.item_count()
        invariant
            i <= s@.items.len(),
            out@ == prefix + items_text(s@.items.take(i as int)),
            prefix == quoted(s@.id) + ":{\"s\":["@,
        decreases s@.items.len() - i,
    {
        if i > 0 {
            out.append(",");
        }
        let piece = item_text_exec(s.item_at(i));
        out.append(piece.as_str());
        proof {
            let t = s@.items.take(i as int + 1);
            assert(t.drop_last() =~= s@.items.take(i as int));
            assert(t.last() == s@.items[i as int]);
            if i == 0 {
                assert(s@.items.take(0) =~= Seq::<ItemV>::empty());
                assert(out@ =~= prefix + items_text(t));
            } else {
                assert(out@ =~= prefix + (items_text(s@.items.take(i as int)) + ","@ + item_text(
                    s@.items[i as int],
                )));
            }
        }
        i = i + 1;
    }
    proof {
        assert(s@.items.take(s@.items.len() as int) =~= s@.items);
    }
    out.append("],\"c\":[");
    let ghost prefix2 = out@;
    let mut k: usize = 0;
    while k < s.context_count()
        invariant
            k <= s@.context.len(),
            out@ == prefix2 + ctxs_text(s@.context.take(k as int)),
            prefix2 == quoted(s@.id) + ":{\"s\":["@ + items_text(s@.items) + "],\"c\":["@,
        decreases s@.context.len() - k,
    {
        if k > 0 {
            out.append(",");
        }
        let e = s.context_at(k);
        let piece = ctx_text_exec(&e.0, e.1);
        out.append(piece.as_str());
        proof {
            let t = s@.context.take(k as int + 1);
            assert(t.drop_last() =~= s@.context.take(k as int));
            assert(t.last() == s@.context[k as int]);
            if k == 0 {
                assert(s@.context.take(0) =~= Seq::<(Seq<char>, u64)>::empty());
                assert(out@ =~= prefix2 + ctxs_text(t));
            } else {
                assert(out@ =~= prefix2 + (ctxs_text(s@.context.take(k as int)) + ","@ + ctx_text(
                    s@.context[k as int],
                )));
            }
        }
        k = k + 1;
    }
    proof {
        assert(s@.context.take(s@.context.len() as int) =~= s@.context);
    }
    out.append("]}");
    proof {
        assert(out@ =~= entry_text(s@));
    }
    out
}

/// Serializes one node's whole shard map into its canonical file text,
/// the durable form the node persists after every local mutation.
pub fn shards_to_text(shards: &crate::protocol::ShardMap) -> (r: String)
    ensures
        r@ == file_text(shards@),
{
    let mut out = String::from_str("{");
    let ghost prefix = out@;
    let mut i: usize = 0;
    while i < shards.count()
        invariant
            i <= shards@.len(),
            out@ == prefix + entries_text(shards@.take(i as int)),
            prefix == "{"@,
        decreases shards@.len() - i,
    {
        if i > 0 {
            out.append(",");
        }
        let piece = entry_text_exec(shards.at(i));
        out.append(piece.as_str());
        proof {
            let t = shards@.take(i as int + 1);
            assert(t.drop_last() =~= shards@.take(i as int));
            assert(t.last() == shards@[i as int]);
            if i == 0 {
                assert(shards@.take(0) =~= Seq::<AWSetView>::empty());
                assert(out@ =~= prefix + entries_text(t));
            } else {
                assert(out@ =~= prefix + (entries_text(shards@.take(i as int)) + ","@
                    + entry_text(shards@[i as int])));
            }
        }
        i = i + 1;
    }
    proof {
        assert(shards@.take(shards@.len() as int) =~= shards@);
    }
    out.append("}");
    proof {
        assert(out@ =~= file_text(shards@));
    }
    out
}

} // verus!
