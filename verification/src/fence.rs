//! Fences on the world grid: the index of placed fences, grouped into the
//! 32-metre buckets that passability is rebuilt by, and the bag side of
//! placing or recovering one.
use vstd::prelude::*;
use crate::bag::{
    consume_one, first_match, lemma_first_match_props, position_of, stack_into_bag, stacked, take_from,
    BagInsert, ItemInstance,
};
use crate::text::owned;

verus! {

/// Which way a fence runs along its grid edge.
#[derive(Clone, Copy, PartialEq, Eq, Structural)]
pub enum FenceAxis {
    X,
    Z,
}

/// A grid edge a fence can stand on: its corner and direction.
#[derive(Clone, Copy, PartialEq, Eq, Structural)]
pub struct FenceEdge {
    pub x: i32,
    pub z: i32,
    pub axis: FenceAxis,
}

/// The 32-metre bucket of an edge, by floor division.
pub open spec fn bucket_of(e: FenceEdge) -> (int, int) {
    (e.x as int / 32, e.z as int / 32)
}

/// `v / 32` rounded down.
fn floor_div_32(v: i32) -> (q: i32)
    ensures
        q == v as int / 32,
{
    let shifted: u64 = (v as i64 + 2_147_483_648i64) as u64;
    let q: i64 = (shifted / 32) as i64 - 67_108_864i64;
    proof {
        let s = v as int + 2_147_483_648;
        assert(shifted as int == s);
        assert((s / 32) - 67_108_864 == v as int / 32) by (nonlinear_arith)
            requires s == v as int + 2_147_483_648;
    }
    q as i32
}

/// The bucket an edge is indexed under.
pub fn fence_bucket(e: FenceEdge) -> (b: (i32, i32))
    ensures
        b.0 as int == bucket_of(e).0,
        b.1 as int == bucket_of(e).1,
{
    (floor_div_32(e.x), floor_div_32(e.z))
}

/// The fences in place, one per edge, each with what is known of it
/// (who owns it and how high it stands).
pub struct FenceIndex<V> {
    pub entries: Vec<(FenceEdge, V)>,
}

impl<V: Copy> FenceIndex<V> {
    /// No edge appears twice.
    pub open spec fn wf(&self) -> bool {
        forall|i: int, j: int| 0 <= i < j < self.entries@.len() ==> #[trigger] self.entries@[i].0 != #[trigger] self.entries@[j].0
    }

    pub open spec fn view(&self) -> Map<FenceEdge, V> {
        Map::new(
            |e: FenceEdge| exists|i: int| 0 <= i < self.entries@.len() && #[trigger] self.entries@[i].0 == e,
            |e: FenceEdge| self.entries@[choose|i: int| 0 <= i < self.entries@.len() && #[trigger] self.entries@[i].0 == e].1,
        )
    }

    pub fn new() -> (f: Self)
        ensures
            f.wf(),
            f@ == Map::<FenceEdge, V>::empty(),
    {
        let f = FenceIndex { entries: Vec::new() };
        assert(f@ =~= Map::empty());
        f
    }

    fn index_of(&self, e: FenceEdge) -> (r: Option<usize>)
        requires
            self.wf(),
        ensures
            match r {
                Some(i) => i < self.entries@.len() && self.entries@[i as int].0 == e
                    && self@.contains_key(e) && self@[e] == self.entries@[i as int].1,
                None => !self@.contains_key(e),
            },
    {
        let mut i: usize = 0;
        while i < self.entries.len()
            invariant
                i <= self.entries@.len(),
                self.wf(),
                forall|j: int| 0 <= j < i ==> #[trigger] self.entries@[j].0 != e,
            decreases self.entries@.len() - i,
        {
            let k = self.entries[i].0;
            if k.x == e.x && k.z == e.z && k.axis == e.axis {
                proof {
                    assert(self.entries@[i as int].0 == e);
                    let c = choose|c: int| 0 <= c < self.entries@.len() && #[trigger] self.entries@[c].0 == e;
                    if c != i {
                        if c < i { assert(self.entries@[c].0 != e); }
                        else { assert(self.entries@[i as int].0 != self.entries@[c].0); }
                    }
                }
                return Some(i);
            }
            i = i + 1;
        }
        None
    }

    /// The fence on edge `e`, if any.
    pub fn get(&self, e: FenceEdge) -> (r: Option<V>)
        requires
            self.wf(),
        ensures
            r == if self@.contains_key(e) { Some(self@[e]) } else { None::<V> },
    {
        match self.index_of(e) {
            Some(i) => Some(self.entries[i].1),
            None => None,
        }
    }

    /// Place (or replace) the fence on edge `e`.
    pub fn insert(&mut self, e: FenceEdge, v: V)
        requires
            old(self).wf(),
        ensures
            final(self).wf(),
            final(self)@ == old(self)@.insert(e, v),
    {
        match self.index_of(e) {
            Some(i) => {
                self.entries.set(i, (e, v));
                proof {
                    let w = old(self)@.insert(e, v);
                    assert forall|i2: int, j2: int| 0 <= i2 < j2 < self.entries@.len() implies #[trigger] self.entries@[i2].0 != #[trigger] self.entries@[j2].0 by {
                        assert(old(self).entries@[i2].0 != old(self).entries@[j2].0);
                    }
                    assert forall|k: FenceEdge| #[trigger] self@.contains_key(k) <==> w.contains_key(k) by {
                        if k != e && self@.contains_key(k) {
                            let c = choose|c: int| 0 <= c < self.entries@.len() && #[trigger] self.entries@[c].0 == k;
                            assert(old(self).entries@[c].0 == k);
                        }
                        if k != e && w.contains_key(k) {
                            let c = choose|c: int| 0 <= c < old(self).entries@.len() && #[trigger] old(self).entries@[c].0 == k;
                            assert(self.entries@[c].0 == k);
                        }
                        if k == e {
                            assert(self.entries@[i as int].0 == k);
                        }
                    }
                    assert forall|k: FenceEdge| #[trigger] self@.contains_key(k) implies self@[k] == w[k] by {
                        let c = choose|c: int| 0 <= c < self.entries@.len() && #[trigger] self.entries@[c].0 == k;
                        if k == e {
                            if c != i { assert(self.entries@[c].0 != self.entries@[i as int].0); }
                        } else {
                            let d = choose|d: int| 0 <= d < old(self).entries@.len() && #[trigger] old(self).entries@[d].0 == k;
                            assert(self.entries@[d].0 == k);
                            if c != d {
                                if c < d { assert(self.entries@[c].0 != self.entries@[d].0); }
                                else { assert(self.entries@[d].0 != self.entries@[c].0); }
                            }
                        }
                    }
                    assert(self@ =~= w);
                }
            },
            None => {
                self.entries.push((e, v));
                proof {
                    let n = old(self).entries@.len() as int;
                    let w = old(self)@.insert(e, v);
                    assert forall|i2: int, j2: int| 0 <= i2 < j2 < self.entries@.len() implies #[trigger] self.entries@[i2].0 != #[trigger] self.entries@[j2].0 by {
                        if j2 == n {
                            assert(self.entries@[i2] == old(self).entries@[i2]);
                            if old(self).entries@[i2].0 == e {
                                assert(old(self)@.contains_key(e));
                            }
                        } else {
                            assert(old(self).entries@[i2].0 != old(self).entries@[j2].0);
                        }
                    }
                    assert forall|k: FenceEdge| #[trigger] self@.contains_key(k) <==> w.contains_key(k) by {
                        if k != e && self@.contains_key(k) {
                            let c = choose|c: int| 0 <= c < self.entries@.len() && #[trigger] self.entries@[c].0 == k;
                            assert(c < n);
                            assert(old(self).entries@[c].0 == k);
                        }
                        if k != e && w.contains_key(k) {
                            let c = choose|c: int| 0 <= c < old(self).entries@.len() && #[trigger] old(self).entries@[c].0 == k;
                            assert(self.entries@[c].0 == k);
                        }
                        if k == e {
                            assert(self.entries@[n].0 == k);
                        }
                    }
                    assert forall|k: FenceEdge| #[trigger] self@.contains_key(k) implies self@[k] == w[k] by {
                        let c = choose|c: int| 0 <= c < self.entries@.len() && #[trigger] self.entries@[c].0 == k;
                        if k == e {
                            if c < n { assert(old(self).entries@[c].0 == e); assert(old(self)@.contains_key(e)); }
                        } else {
                            let d = choose|d: int| 0 <= d < old(self).entries@.len() && #[trigger] old(self).entries@[d].0 == k;
                            assert(self.entries@[d].0 == k);
                            if c != d {
                                if c < d { assert(self.entries@[c].0 != self.entries@[d].0); }
                                else { assert(self.entries@[d].0 != self.entries@[c].0); }
                            }
                        }
                    }
                    assert(self@ =~= w);
                }
            },
        }
    }

    /// Take the fence off edge `e`.
    pub fn remove(&mut self, e: FenceEdge)
        requires
            old(self).wf(),
        ensures
            final(self).wf(),
            final(self)@ == old(self)@.remove(e),
    {
        match self.index_of(e) {
            Some(i) => {
                let ghost o = self.entries@;
                self.entries.remove(i);
                proof {
                    assert forall|a: int| 0 <= a < self.entries@.len() implies #[trigger] self.entries@[a] == o[if a < i { a } else { a + 1 }] by {}
                    assert forall|a: int, b: int| 0 <= a < b < self.entries@.len() implies #[trigger] self.entries@[a].0 != #[trigger] self.entries@[b].0 by {
                        let a2 = if a < i { a } else { a + 1 };
                        let b2 = if b < i { b } else { b + 1 };
                        assert(o[a2].0 != o[b2].0);
                    }
                    let w = old(self)@.remove(e);
                    assert forall|k: FenceEdge| #[trigger] self@.contains_key(k) <==> w.contains_key(k) by {
                        if self@.contains_key(k) {
                            let c = choose|c: int| 0 <= c < self.entries@.len() && #[trigger] self.entries@[c].0 == k;
                            let c2 = if c < i { c } else { c + 1 };
                            assert(o[c2].0 == k);
                            assert(o[c2].0 != o[i as int].0);
                        }
                        if w.contains_key(k) {
                            let c = choose|c: int| 0 <= c < o.len() && #[trigger] o[c].0 == k;
                            assert(c != i);
                            let c2 = if c < i { c } else { c - 1 };
                            assert(self.entries@[c2].0 == k);
                        }
                    }
                    assert forall|k: FenceEdge| #[trigger] self@.contains_key(k) implies self@[k] == w[k] by {
                        let c = choose|c: int| 0 <= c < self.entries@.len() && #[trigger] self.entries@[c].0 == k;
                        let c2 = if c < i { c } else { c + 1 };
                        let d = choose|d: int| 0 <= d < o.len() && #[trigger] o[d].0 == k;
                        assert(o[c2].0 == k);
                        if c2 != d {
                            if c2 < d { assert(o[c2].0 != o[d].0); } else { assert(o[d].0 != o[c2].0); }
                        }
                    }
                    assert(self@ =~= w);
                }
            },
            None => {
                assert(self@ =~= old(self)@.remove(e));
            },
        }
    }

    /// The fences sharing edge `e`'s bucket, `e`'s own included when
    /// placed: the group whose passability is rebuilt together.
    pub fn group(&self, e: FenceEdge) -> (g: Vec<(FenceEdge, V)>)
        requires
            self.wf(),
        ensures
            forall|a: int, b: int| 0 <= a < b < g@.len() ==> #[trigger] g@[a].0 != #[trigger] g@[b].0,
            forall|k: int| 0 <= k < g@.len() ==> bucket_of((#[trigger] g@[k]).0) == bucket_of(e)
                && self@.contains_key(g@[k].0) && self@[g@[k].0] == g@[k].1,
            forall|f: FenceEdge| self@.contains_key(f) && bucket_of(f) == bucket_of(e)
                ==> exists|k: int| 0 <= k < g@.len() && #[trigger] g@[k].0 == f,
    {
        let key = fence_bucket(e);
        let mut g: Vec<(FenceEdge, V)> = Vec::new();
        let ghost mut src: Seq<int> = Seq::empty();
        let mut i: usize = 0;
        while i < self.entries.len()
            invariant
                i <= self.entries@.len(),
                self.wf(),
                key.0 as int == bucket_of(e).0,
                key.1 as int == bucket_of(e).1,
                src.len() == g@.len(),
                forall|k: int| 0 <= k < src.len() ==> 0 <= #[trigger] src[k] < i && g@[k] == self.entries@[src[k]],
                forall|a: int, b: int| 0 <= a < b < src.len() ==> #[trigger] src[a] < #[trigger] src[b],
                forall|k: int| 0 <= k < g@.len() ==> bucket_of((#[trigger] g@[k]).0) == bucket_of(e),
                forall|j: int| 0 <= j < i && bucket_of((#[trigger] self.entries@[j]).0) == bucket_of(e)
                    ==> exists|k: int| 0 <= k < src.len() && #[trigger] src[k] == j,
            decreases self.entries@.len() - i,
        {
            let entry = self.entries[i];
            let b = fence_bucket(entry.0);
            if b.0 == key.0 && b.1 == key.1 {
                let ghost before = g@;
                let ghost src0 = src;
                g.push(entry);
                proof {
                    src = src.push(i as int);
                    assert forall|k: int| 0 <= k < g@.len() implies bucket_of((#[trigger] g@[k]).0) == bucket_of(e) by {
                        if k < before.len() { assert(g@[k] == before[k]); }
                    }
                    assert forall|k: int| 0 <= k < src.len() implies 0 <= #[trigger] src[k] < i + 1 && g@[k] == self.entries@[src[k]] by {
                        if k < src0.len() { assert(src[k] == src0[k]); assert(g@[k] == before[k]); }
                    }
                    assert forall|j: int| 0 <= j < i + 1 && bucket_of((#[trigger] self.entries@[j]).0) == bucket_of(e)
                        implies exists|k: int| 0 <= k < src.len() && #[trigger] src[k] == j by {
                        if j < i {
                            let k = choose|k: int| 0 <= k < src0.len() && #[trigger] src0[k] == j;
                            assert(src[k] == j);
                        } else {
                            assert(src[src0.len() as int] == j);
                        }
                    }
                }
            }
            i = i + 1;
        }
        proof {
            assert forall|a: int, b: int| 0 <= a < b < g@.len() implies #[trigger] g@[a].0 != #[trigger] g@[b].0 by {
                assert(src[a] < src[b]);
                assert(self.entries@[src[a]].0 != self.entries@[src[b]].0);
            }
            assert forall|k: int| 0 <= k < g@.len() implies bucket_of((#[trigger] g@[k]).0) == bucket_of(e)
                && self@.contains_key(g@[k].0) && self@[g@[k].0] == g@[k].1 by {
                let j = src[k];
                assert(self.entries@[j] == g@[k]);
                assert(self.entries@[j].0 == g@[k].0);
                let c = choose|c: int| 0 <= c < self.entries@.len() && #[trigger] self.entries@[c].0 == g@[k].0;
                if c != j {
                    if c < j { assert(self.entries@[c].0 != self.entries@[j].0); } else { assert(self.entries@[j].0 != self.entries@[c].0); }
                }
            }
            assert forall|f: FenceEdge| self@.contains_key(f) && bucket_of(f) == bucket_of(e)
                implies exists|k: int| 0 <= k < g@.len() && #[trigger] g@[k].0 == f by {
                let j = choose|j: int| 0 <= j < self.entries@.len() && #[trigger] self.entries@[j].0 == f;
                let k = choose|k: int| 0 <= k < src.len() && #[trigger] src[k] == j;
                assert(g@[k] == self.entries@[j]);
            }
        }
        g
    }
}

/// Whether a fence can go on (`place`) or come off an edge that has one
/// (`exists`).
pub open spec fn edge_refusal(place: bool, exists: bool) -> Option<Seq<char>> {
    if place && exists {
        Some("A fence is already on that edge."@)
    } else if !place && !exists {
        Some("That fence has already been removed."@)
    } else {
        None
    }
}

pub fn check_fence_edge(place: bool, exists: bool) -> (r: Result<(), &'static str>)
    ensures
        match r {
            Ok(()) => edge_refusal(place, exists) is None,
            Err(m) => edge_refusal(place, exists) == Some(m@),
        },
{
    if place && exists {
        Err("A fence is already on that edge.")
    } else if !place && !exists {
        Err("That fence has already been removed.")
    } else {
        Ok(())
    }
}

/// The first entry of `bag` holding at least one fence unit of `def`.
pub open spec fn first_fence(bag: Seq<ItemInstance>, def: Seq<char>) -> Option<int> {
    if exists|i: int| 0 <= i < bag.len() && #[trigger] bag[i].item_def_id@ == def && bag[i].quantity > 0 {
        Some(choose|i: int| 0 <= i < bag.len() && #[trigger] bag[i].item_def_id@ == def && bag[i].quantity > 0
            && forall|j: int| 0 <= j < i ==> !(#[trigger] bag[j].item_def_id@ == def && bag[j].quantity > 0))
    } else {
        None
    }
}

/// Some stack of `def` is full.
pub open spec fn full_stack(bag: Seq<ItemInstance>, def: Seq<char>) -> bool {
    exists|i: int| 0 <= i < bag.len() && #[trigger] bag[i].item_def_id@ == def && bag[i].quantity == u32::MAX
}

fn find_fence(bag: &Vec<ItemInstance>, def: &str) -> (r: Option<usize>)
    ensures
        match r {
            Some(i) => first_fence(bag@, def@) == Some(i as int) && i < bag@.len(),
            None => first_fence(bag@, def@) is None,
        },
{
    let want = owned(def);
    let mut i: usize = 0;
    while i < bag.len()
        invariant
            i <= bag@.len(),
            want@ == def@,
            forall|j: int| 0 <= j < i ==> !(#[trigger] bag@[j].item_def_id@ == def@ && bag@[j].quantity > 0),
        decreases bag@.len() - i,
    {
        if bag[i].item_def_id.eq(&want) && bag[i].quantity > 0 {
            proof {
                let k = choose|k: int| 0 <= k < bag@.len() && #[trigger] bag@[k].item_def_id@ == def@ && bag@[k].quantity > 0
                    && forall|j: int| 0 <= j < k ==> !(#[trigger] bag@[j].item_def_id@ == def@ && bag@[j].quantity > 0);
                assert(bag@[i as int].item_def_id@ == def@ && bag@[i as int].quantity > 0);
                if k > i {
                    assert(!(bag@[i as int].item_def_id@ == def@ && bag@[i as int].quantity > 0));
                }
            }
            return Some(i);
        }
        i = i + 1;
    }
    None
}

fn has_full_stack(bag: &Vec<ItemInstance>, def: &str) -> (r: bool)
    ensures
        r == full_stack(bag@, def@),
{
    let want = owned(def);
    let mut i: usize = 0;
    while i < bag.len()
        invariant
            i <= bag@.len(),
            want@ == def@,
            forall|j: int| 0 <= j < i ==> !(#[trigger] bag@[j].item_def_id@ == def@ && bag@[j].quantity == u32::MAX),
        decreases bag@.len() - i,
    {
        if bag[i].item_def_id.eq(&want) && bag[i].quantity == u32::MAX {
            assert(bag@[i as int].item_def_id@ == def@ && bag@[i as int].quantity == u32::MAX);
            return true;
        }
        i = i + 1;
    }
    false
}

/// The bag side of a fence edit with fence item `def`. Placing spends one
/// unit from the first entry that has any (none left is refused);
/// recovering puts one unit back, stacked, under `next_id` when it opens a
/// new entry (a full stack of fences is refused).
pub fn fence_bag_change(bag: &mut Vec<ItemInstance>, place: bool, def: &str, next_id: u64) -> (r: Result<(), &'static str>)
    ensures
        place ==> match first_fence(old(bag)@, def@) {
            None => r == Err::<(), &'static str>("You have no wooden fences left. Recover one or leave placement mode.")
                && final(bag)@ == old(bag)@,
            Some(i) => r is Ok && ({
                let id = old(bag)@[i].instance_id;
                match position_of(old(bag)@, id) {
                    Some(p) => final(bag)@ == take_from(old(bag)@, p, 1),
                    None => false,
                }
            }),
        },
        !place ==> if full_stack(old(bag)@, def@) {
            r == Err::<(), &'static str>("Your fence stack is full.") && final(bag)@ == old(bag)@
        } else {
            r is Ok && exists|res| stacked(old(bag)@, BagInsert {
                stackable: true,
                locked: false,
                item_def_id: def,
                enchant: 0,
                first_instance_id: next_id,
                quantity: 1,
                cape_color: None,
                cape_texture: None,
            }, final(bag)@, res)
        },
{
    if place {
        match find_fence(bag, def) {
            None => Err("You have no wooden fences left. Recover one or leave placement mode."),
            Some(i) => {
                let id = bag[i].instance_id;
                proof {
                    assert(bag@[i as int].instance_id == id);
                    if !(exists|k: int| 0 <= k < bag@.len() && #[trigger] bag@[k].instance_id == id) {
                        assert(false);
                    }
                }
                let _ = consume_one(bag, id);
                Ok(())
            },
        }
    } else {
        if has_full_stack(bag, def) {
            return Err("Your fence stack is full.");
        }
        let insert = BagInsert::one(true, def, 0, next_id);
        proof {
            lemma_first_match_props(bag@, insert);
            match first_match(bag@, insert) {
                Some(k) => {
                    assert(bag@[k].item_def_id@ == def@);
                    assert(!(bag@[k].item_def_id@ == def@ && bag@[k].quantity == u32::MAX));
                },
                None => {},
            }
        }
        let res = stack_into_bag(bag, insert);
        Ok(())
    }
}

} // verus!
