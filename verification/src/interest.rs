//! Area-of-interest bookkeeping: which viewers watch which world subjects,
//! and what each publish, removal or view move tells each viewer. Where a
//! subject or a viewer stands in the world is geometry the caller works out;
//! this module takes the answers (who is near, who can see) and keeps the
//! subscriptions, revisions and per-view sequence numbers.
use vstd::prelude::*;
use crate::keyed::{IdMap, StrMap};
use crate::chat::{has_prefix, starts_with, BlockLists};
use crate::text::{chars_of, owned};
use vstd::string::*;

verus! {

/// The (viewer, subject) pairs of current subscriptions.
pub struct Watching {
    pub pairs: Vec<(u128, String)>,
}

pub open spec fn pair_at(pairs: Seq<(u128, String)>, i: int) -> (u128, Seq<char>) {
    (pairs[i].0, pairs[i].1@)
}

impl Watching {
    /// No pair appears twice.
    pub open spec fn wf(&self) -> bool {
        forall|i: int, j: int| 0 <= i < j < self.pairs@.len() ==> #[trigger] pair_at(self.pairs@, i) != #[trigger] pair_at(self.pairs@, j)
    }

    pub open spec fn view(&self) -> Set<(u128, Seq<char>)> {
        Set::new(|p: (u128, Seq<char>)| exists|i: int| 0 <= i < self.pairs@.len() && #[trigger] pair_at(self.pairs@, i) == p)
    }

    pub fn new() -> (w: Self)
        ensures
            w.wf(),
            w@ == Set::<(u128, Seq<char>)>::empty(),
    {
        let w = Watching { pairs: Vec::new() };
        assert(w@ =~= Set::empty());
        w
    }

    /// Whether `viewer` watches `subject`.
    pub fn contains(&self, viewer: u128, subject: &str) -> (r: bool)
        ensures
            r == self@.contains((viewer, subject@)),
    {
        let want = owned(subject);
        let mut i: usize = 0;
        while i < self.pairs.len()
            invariant
                i <= self.pairs@.len(),
                want@ == subject@,
                forall|j: int| 0 <= j < i ==> #[trigger] pair_at(self.pairs@, j) != (viewer, subject@),
            decreases self.pairs@.len() - i,
        {
            if self.pairs[i].0 == viewer && self.pairs[i].1.eq(&want) {
                assert(pair_at(self.pairs@, i as int) == (viewer, subject@));
                return true;
            }
            i = i + 1;
        }
        false
    }

    /// Add the pair unless present.
    pub fn insert(&mut self, viewer: u128, subject: String)
        requires
            old(self).wf(),
        ensures
            final(self).wf(),
            final(self)@ == old(self)@.insert((viewer, subject@)),
    {
        if self.contains(viewer, subject.as_str()) {
            assert(self@ =~= old(self)@.insert((viewer, subject@)));
            return;
        }
        let ghost p = (viewer, subject@);
        self.pairs.push((viewer, subject));
        proof {
            let n = old(self).pairs@.len() as int;
            assert(pair_at(self.pairs@, n) == p);
            assert forall|i: int| 0 <= i < n implies #[trigger] pair_at(self.pairs@, i) == pair_at(old(self).pairs@, i) by {}
            assert forall|q: (u128, Seq<char>)| #[trigger] self@.contains(q) <==> old(self)@.insert(p).contains(q) by {
                if self@.contains(q) {
                    let c = choose|c: int| 0 <= c < self.pairs@.len() && #[trigger] pair_at(self.pairs@, c) == q;
                    if c < n { assert(pair_at(old(self).pairs@, c) == q); }
                }
                if old(self)@.contains(q) {
                    let c = choose|c: int| 0 <= c < old(self).pairs@.len() && #[trigger] pair_at(old(self).pairs@, c) == q;
                    assert(pair_at(self.pairs@, c) == q);
                }
            }
            assert(self@ =~= old(self)@.insert(p));
        }
    }

    /// Drop every pair of `subject`; the viewers that watched it, each once.
    pub fn remove_subject(&mut self, subject: &str) -> (viewers: Vec<u128>)
        requires
            old(self).wf(),
        ensures
            final(self).wf(),
            final(self)@ == old(self)@.filter(|p: (u128, Seq<char>)| p.1 != subject@),
            viewers@.no_duplicates(),
            forall|v: u128| #[trigger] viewers@.contains(v) <==> old(self)@.contains((v, subject@)),
    {
        let want = owned(subject);
        let mut kept: Vec<(u128, String)> = Vec::new();
        let mut viewers: Vec<u128> = Vec::new();
        let mut i: usize = 0;
        while i < self.pairs.len()
            invariant
                0 <= i <= self.pairs@.len(),
                want@ == subject@,
                self.pairs@ == old(self).pairs@,
                old(self).wf(),
                forall|a: int, b: int| 0 <= a < b < kept@.len() ==> #[trigger] pair_at(kept@, a) != #[trigger] pair_at(kept@, b),
                forall|a: int| 0 <= a < kept@.len() ==> (#[trigger] pair_at(kept@, a)).1 != subject@,
                forall|a: int| 0 <= a < kept@.len() ==> exists|b: int| 0 <= b < i && #[trigger] pair_at(self.pairs@, b) == #[trigger] pair_at(kept@, a),
                forall|b: int| 0 <= b < i && (#[trigger] pair_at(self.pairs@, b)).1 != subject@ ==> exists|a: int| 0 <= a < kept@.len() && #[trigger] pair_at(kept@, a) == pair_at(self.pairs@, b),
                viewers@.no_duplicates(),
                forall|v: u128| #[trigger] viewers@.contains(v) <==> exists|b: int| 0 <= b < i && #[trigger] pair_at(self.pairs@, b) == (v, subject@),
            decreases self.pairs@.len() - i,
        {
            let (v, s) = (self.pairs[i].0, self.pairs[i].1.clone());
            assert(pair_at(self.pairs@, i as int) == (v, s@));
            if s.eq(&want) {
                proof {
                    if viewers@.contains(v) {
                        let b = choose|b: int| 0 <= b < i && #[trigger] pair_at(self.pairs@, b) == (v, subject@);
                        assert(pair_at(old(self).pairs@, b) != pair_at(old(self).pairs@, i as int));
                    }
                }
                let ghost before = viewers@;
                viewers.push(v);
                proof {
                    assert forall|w: u128| #[trigger] viewers@.contains(w) <==> exists|b: int| 0 <= b < i + 1 && #[trigger] pair_at(self.pairs@, b) == (w, subject@) by {
                        if viewers@.contains(w) && w != v {
                            assert(before.contains(w));
                        }
                        if w == v {
                            assert(viewers@[viewers@.len() - 1] == v);
                        }
                        if exists|b: int| 0 <= b < i + 1 && #[trigger] pair_at(self.pairs@, b) == (w, subject@) {
                            let b = choose|b: int| 0 <= b < i + 1 && #[trigger] pair_at(self.pairs@, b) == (w, subject@);
                            if b < i {
                                assert(before.contains(w));
                                let k = choose|k: int| 0 <= k < before.len() && #[trigger] before[k] == w;
                                assert(viewers@[k] == w);
                            }
                        }
                    }
                }
            } else {
                let ghost before = kept@;
                proof {
                    assert forall|a: int| 0 <= a < kept@.len() implies #[trigger] pair_at(kept@, a) != (v, s@) by {
                        let b = choose|b: int| 0 <= b < i && #[trigger] pair_at(self.pairs@, b) == #[trigger] pair_at(kept@, a);
                        assert(pair_at(old(self).pairs@, b) != pair_at(old(self).pairs@, i as int));
                    }
                }
                kept.push((v, s));
                proof {
                    let n = before.len() as int;
                    assert(pair_at(kept@, n) == (v, s@));
                    assert forall|a: int| 0 <= a < n implies #[trigger] pair_at(kept@, a) == pair_at(before, a) by {}
                    assert forall|a: int| 0 <= a < kept@.len() implies exists|b: int| 0 <= b < i + 1 && #[trigger] pair_at(self.pairs@, b) == #[trigger] pair_at(kept@, a) by {
                        if a == n {
                            assert(pair_at(self.pairs@, i as int) == pair_at(kept@, a));
                        } else {
                            assert(pair_at(kept@, a) == pair_at(before, a));
                        }
                    }
                    assert forall|b: int| 0 <= b < i + 1 && (#[trigger] pair_at(self.pairs@, b)).1 != subject@ implies exists|a: int| 0 <= a < kept@.len() && #[trigger] pair_at(kept@, a) == pair_at(self.pairs@, b) by {
                        if b == i {
                            assert(pair_at(kept@, n) == pair_at(self.pairs@, b));
                        } else {
                            let a = choose|a: int| 0 <= a < before.len() && #[trigger] pair_at(before, a) == pair_at(self.pairs@, b);
                            assert(pair_at(kept@, a) == pair_at(before, a));
                        }
                    }
                }
            }
            i = i + 1;
        }
        self.pairs = kept;
        proof {
            let target = old(self)@.filter(|p: (u128, Seq<char>)| p.1 != subject@);
            assert forall|q: (u128, Seq<char>)| #[trigger] self@.contains(q) <==> target.contains(q) by {
                if self@.contains(q) {
                    let a = choose|a: int| 0 <= a < self.pairs@.len() && #[trigger] pair_at(self.pairs@, a) == q;
                    let b = choose|b: int| 0 <= b < old(self).pairs@.len() && #[trigger] pair_at(old(self).pairs@, b) == #[trigger] pair_at(self.pairs@, a);
                    assert(old(self)@.contains(q));
                }
                if target.contains(q) {
                    let b = choose|b: int| 0 <= b < old(self).pairs@.len() && #[trigger] pair_at(old(self).pairs@, b) == q;
                    assert(pair_at(old(self).pairs@, b).1 != subject@);
                }
            }
            assert(self@ =~= target);
            assert forall|v: u128| #[trigger] viewers@.contains(v) <==> old(self)@.contains((v, subject@)) by {
                if old(self)@.contains((v, subject@)) {
                    let b = choose|b: int| 0 <= b < old(self).pairs@.len() && #[trigger] pair_at(old(self).pairs@, b) == (v, subject@);
                    assert(pair_at(old(self).pairs@, b) == (v, subject@));
                }
            }
        }
        viewers
    }

    /// Drop every pair of `viewer`; the subjects it watched, each once.
    pub fn remove_viewer(&mut self, viewer: u128) -> (subjects: Vec<String>)
        requires
            old(self).wf(),
        ensures
            final(self).wf(),
            final(self)@ == old(self)@.filter(|p: (u128, Seq<char>)| p.0 != viewer),
            forall|a: int, b: int| 0 <= a < b < subjects@.len() ==> #[trigger] subjects@[a]@ != #[trigger] subjects@[b]@,
            forall|s: Seq<char>| old(self)@.contains((viewer, s)) <==> exists|a: int| 0 <= a < subjects@.len() && #[trigger] subjects@[a]@ == s,
    {
        let mut kept: Vec<(u128, String)> = Vec::new();
        let mut subjects: Vec<String> = Vec::new();
        let mut i: usize = 0;
        while i < self.pairs.len()
            invariant
                0 <= i <= self.pairs@.len(),
                self.pairs@ == old(self).pairs@,
                old(self).wf(),
                forall|a: int, b: int| 0 <= a < b < kept@.len() ==> #[trigger] pair_at(kept@, a) != #[trigger] pair_at(kept@, b),
                forall|a: int| 0 <= a < kept@.len() ==> (#[trigger] pair_at(kept@, a)).0 != viewer,
                forall|a: int| 0 <= a < kept@.len() ==> exists|b: int| 0 <= b < i && #[trigger] pair_at(self.pairs@, b) == #[trigger] pair_at(kept@, a),
                forall|b: int| 0 <= b < i && (#[trigger] pair_at(self.pairs@, b)).0 != viewer ==> exists|a: int| 0 <= a < kept@.len() && #[trigger] pair_at(kept@, a) == pair_at(self.pairs@, b),
                forall|a: int, b: int| 0 <= a < b < subjects@.len() ==> #[trigger] subjects@[a]@ != #[trigger] subjects@[b]@,
                forall|a: int| 0 <= a < subjects@.len() ==> exists|b: int| 0 <= b < i && #[trigger] pair_at(self.pairs@, b) == (viewer, (#[trigger] subjects@[a])@),
                forall|b: int| 0 <= b < i && (#[trigger] pair_at(self.pairs@, b)).0 == viewer ==> exists|a: int| 0 <= a < subjects@.len() && (#[trigger] subjects@[a])@ == pair_at(self.pairs@, b).1,
            decreases self.pairs@.len() - i,
        {
            let (v, s) = (self.pairs[i].0, self.pairs[i].1.clone());
            assert(pair_at(self.pairs@, i as int) == (v, s@));
            if v == viewer {
                let ghost before = subjects@;
                proof {
                    assert forall|a: int| 0 <= a < before.len() implies #[trigger] before[a]@ != s@ by {
                        let b = choose|b: int| 0 <= b < i && #[trigger] pair_at(self.pairs@, b) == (viewer, (#[trigger] subjects@[a])@);
                        assert(pair_at(old(self).pairs@, b) != pair_at(old(self).pairs@, i as int));
                    }
                }
                subjects.push(s);
                proof {
                    let n = before.len() as int;
                    assert forall|a: int| 0 <= a < subjects@.len() implies exists|b: int| 0 <= b < i + 1 && #[trigger] pair_at(self.pairs@, b) == (viewer, (#[trigger] subjects@[a])@) by {
                        if a == n {
                            assert(pair_at(self.pairs@, i as int) == (viewer, subjects@[a]@));
                        } else {
                            assert(subjects@[a] == before[a]);
                        }
                    }
                    assert forall|b: int| 0 <= b < i + 1 && (#[trigger] pair_at(self.pairs@, b)).0 == viewer implies exists|a: int| 0 <= a < subjects@.len() && (#[trigger] subjects@[a])@ == pair_at(self.pairs@, b).1 by {
                        if b == i {
                            assert(subjects@[n]@ == pair_at(self.pairs@, b).1);
                        } else {
                            let a = choose|a: int| 0 <= a < before.len() && (#[trigger] before[a])@ == pair_at(self.pairs@, b).1;
                            assert(subjects@[a] == before[a]);
                        }
                    }
                }
            } else {
                let ghost before = kept@;
                proof {
                    assert forall|a: int| 0 <= a < kept@.len() implies #[trigger] pair_at(kept@, a) != (v, s@) by {
                        let b = choose|b: int| 0 <= b < i && #[trigger] pair_at(self.pairs@, b) == #[trigger] pair_at(kept@, a);
                        assert(pair_at(old(self).pairs@, b) != pair_at(old(self).pairs@, i as int));
                    }
                }
                kept.push((v, s));
                proof {
                    let n = before.len() as int;
                    assert(pair_at(kept@, n) == (v, s@));
                    assert forall|a: int| 0 <= a < n implies #[trigger] pair_at(kept@, a) == pair_at(before, a) by {}
                    assert forall|a: int| 0 <= a < kept@.len() implies exists|b: int| 0 <= b < i + 1 && #[trigger] pair_at(self.pairs@, b) == #[trigger] pair_at(kept@, a) by {
                        if a == n {
                            assert(pair_at(self.pairs@, i as int) == pair_at(kept@, a));
                        } else {
                            assert(pair_at(kept@, a) == pair_at(before, a));
                        }
                    }
                    assert forall|b: int| 0 <= b < i + 1 && (#[trigger] pair_at(self.pairs@, b)).0 != viewer implies exists|a: int| 0 <= a < kept@.len() && #[trigger] pair_at(kept@, a) == pair_at(self.pairs@, b) by {
                        if b == i {
                            assert(pair_at(kept@, n) == pair_at(self.pairs@, b));
                        } else {
                            let a = choose|a: int| 0 <= a < before.len() && #[trigger] pair_at(before, a) == pair_at(self.pairs@, b);
                            assert(pair_at(kept@, a) == pair_at(before, a));
                        }
                    }
                }
            }
            i = i + 1;
        }
        self.pairs = kept;
        proof {
            let target = old(self)@.filter(|p: (u128, Seq<char>)| p.0 != viewer);
            assert forall|q: (u128, Seq<char>)| #[trigger] self@.contains(q) <==> target.contains(q) by {
                if self@.contains(q) {
                    let a = choose|a: int| 0 <= a < self.pairs@.len() && #[trigger] pair_at(self.pairs@, a) == q;
                    let b = choose|b: int| 0 <= b < old(self).pairs@.len() && #[trigger] pair_at(old(self).pairs@, b) == #[trigger] pair_at(self.pairs@, a);
                    assert(old(self)@.contains(q));
                }
                if target.contains(q) {
                    let b = choose|b: int| 0 <= b < old(self).pairs@.len() && #[trigger] pair_at(old(self).pairs@, b) == q;
                    assert(pair_at(old(self).pairs@, b).0 != viewer);
                }
            }
            assert(self@ =~= target);
            assert forall|s: Seq<char>| old(self)@.contains((viewer, s)) <==> exists|a: int| 0 <= a < subjects@.len() && #[trigger] subjects@[a]@ == s by {
                if old(self)@.contains((viewer, s)) {
                    let b = choose|b: int| 0 <= b < old(self).pairs@.len() && #[trigger] pair_at(old(self).pairs@, b) == (viewer, s);
                    assert(pair_at(old(self).pairs@, b).0 == viewer);
                }
                if exists|a: int| 0 <= a < subjects@.len() && #[trigger] subjects@[a]@ == s {
                    let a = choose|a: int| 0 <= a < subjects@.len() && #[trigger] subjects@[a]@ == s;
                    let b = choose|b: int| 0 <= b < old(self).pairs@.len() && #[trigger] pair_at(old(self).pairs@, b) == (viewer, (#[trigger] subjects@[a])@);
                    assert(old(self)@.contains((viewer, s)));
                }
            }
        }
        subjects
    }

    /// The viewers watching `subject`, each once.
    pub fn viewers_of(&self, subject: &str) -> (viewers: Vec<u128>)
        requires
            self.wf(),
        ensures
            viewers@.no_duplicates(),
            forall|v: u128| #[trigger] viewers@.contains(v) <==> self@.contains((v, subject@)),
    {
        let mut copy = Watching { pairs: Vec::new() };
        let mut i: usize = 0;
        while i < self.pairs.len()
            invariant
                i <= self.pairs@.len(),
                copy.pairs@.len() == i,
                forall|j: int| 0 <= j < i ==> #[trigger] pair_at(copy.pairs@, j) == pair_at(self.pairs@, j),
            decreases self.pairs@.len() - i,
        {
            let item = (self.pairs[i].0, self.pairs[i].1.clone());
            assert((item.0, item.1@) == pair_at(self.pairs@, i as int));
            let ghost before = copy.pairs@;
            copy.pairs.push(item);
            proof {
                assert forall|j: int| 0 <= j < i + 1 implies #[trigger] pair_at(copy.pairs@, j) == pair_at(self.pairs@, j) by {
                    if j < i { assert(copy.pairs@[j] == before[j]); assert(pair_at(before, j) == pair_at(self.pairs@, j)); }
                    else { assert(copy.pairs@[j] == item); }
                }
            }
            i = i + 1;
        }
        proof {
            assert forall|a: int, b: int| 0 <= a < b < copy.pairs@.len() implies #[trigger] pair_at(copy.pairs@, a) != #[trigger] pair_at(copy.pairs@, b) by {
                assert(pair_at(self.pairs@, a) != pair_at(self.pairs@, b));
            }
            assert forall|q: (u128, Seq<char>)| #[trigger] copy@.contains(q) <==> self@.contains(q) by {
                if copy@.contains(q) {
                    let a = choose|a: int| 0 <= a < copy.pairs@.len() && #[trigger] pair_at(copy.pairs@, a) == q;
                    assert(pair_at(self.pairs@, a) == q);
                }
                if self@.contains(q) {
                    let a = choose|a: int| 0 <= a < self.pairs@.len() && #[trigger] pair_at(self.pairs@, a) == q;
                    assert(pair_at(copy.pairs@, a) == q);
                }
            }
        }
        copy.remove_subject(subject)
    }

    /// Drop one pair; whether it was there.
    pub fn remove(&mut self, viewer: u128, subject: &str) -> (was: bool)
        requires
            old(self).wf(),
        ensures
            final(self).wf(),
            final(self)@ == old(self)@.remove((viewer, subject@)),
            was == old(self)@.contains((viewer, subject@)),
    {
        let want = owned(subject);
        let mut i: usize = 0;
        while i < self.pairs.len()
            invariant
                i <= self.pairs@.len(),
                want@ == subject@,
                self.pairs@ == old(self).pairs@,
                old(self).wf(),
                forall|j: int| 0 <= j < i ==> #[trigger] pair_at(self.pairs@, j) != (viewer, subject@),
            decreases self.pairs@.len() - i,
        {
            if self.pairs[i].0 == viewer && self.pairs[i].1.eq(&want) {
                let ghost o = self.pairs@;
                proof { assert(pair_at(o, i as int) == (viewer, subject@)); }
                self.pairs.remove(i);
                proof {
                    assert forall|a: int| 0 <= a < self.pairs@.len() implies #[trigger] pair_at(self.pairs@, a) == pair_at(o, if a < i { a } else { a + 1 }) by {}
                    assert forall|a: int, b: int| 0 <= a < b < self.pairs@.len() implies #[trigger] pair_at(self.pairs@, a) != #[trigger] pair_at(self.pairs@, b) by {
                        let a2 = if a < i { a } else { a + 1 };
                        let b2 = if b < i { b } else { b + 1 };
                        assert(pair_at(o, a2) != pair_at(o, b2));
                    }
                    assert forall|q: (u128, Seq<char>)| #[trigger] self@.contains(q) <==> old(self)@.remove((viewer, subject@)).contains(q) by {
                        if self@.contains(q) {
                            let c = choose|c: int| 0 <= c < self.pairs@.len() && #[trigger] pair_at(self.pairs@, c) == q;
                            let c2 = if c < i { c } else { c + 1 };
                            assert(pair_at(o, c2) == q);
                            assert(pair_at(o, c2) != pair_at(o, i as int));
                        }
                        if old(self)@.remove((viewer, subject@)).contains(q) {
                            let c = choose|c: int| 0 <= c < o.len() && #[trigger] pair_at(o, c) == q;
                            assert(c != i);
                            let c2 = if c < i { c } else { c - 1 };
                            assert(pair_at(self.pairs@, c2) == q);
                        }
                    }
                    assert(self@ =~= old(self)@.remove((viewer, subject@)));
                }
                return true;
            }
            i = i + 1;
        }
        assert(self@ =~= old(self)@.remove((viewer, subject@)));
        false
    }
}


/// A set of terrain tiles.
pub struct TileSet {
    pub tiles: Vec<(i32, i32)>,
}

impl TileSet {
    pub open spec fn wf(&self) -> bool {
        self.tiles@.no_duplicates()
    }

    pub open spec fn view(&self) -> Set<(i32, i32)> {
        self.tiles@.to_set()
    }

    pub fn new() -> (t: Self)
        ensures
            t.wf(),
            t@ == Set::<(i32, i32)>::empty(),
    {
        let t = TileSet { tiles: Vec::new() };
        assert(t@ =~= Set::empty());
        t
    }

    fn index_of(&self, tile: (i32, i32)) -> (r: Option<usize>)
        ensures
            match r {
                Some(i) => i < self.tiles@.len() && self.tiles@[i as int] == tile,
                None => !self@.contains(tile),
            },
    {
        let mut i: usize = 0;
        while i < self.tiles.len()
            invariant
                i <= self.tiles@.len(),
                forall|j: int| 0 <= j < i ==> self.tiles@[j] != tile,
            decreases self.tiles@.len() - i,
        {
            let t = self.tiles[i];
            if t.0 == tile.0 && t.1 == tile.1 {
                return Some(i);
            }
            i = i + 1;
        }
        None
    }

    pub fn contains(&self, tile: (i32, i32)) -> (r: bool)
        ensures
            r == self@.contains(tile),
    {
        match self.index_of(tile) {
            Some(i) => {
                assert(self.tiles@[i as int] == tile);
                true
            },
            None => false,
        }
    }

    pub fn insert(&mut self, tile: (i32, i32))
        requires
            old(self).wf(),
        ensures
            final(self).wf(),
            final(self)@ == old(self)@.insert(tile),
    {
        match self.index_of(tile) {
            Some(i) => {
                assert(self@ =~= old(self)@.insert(tile));
            },
            None => {
                self.tiles.push(tile);
                proof {
                    assert(self.tiles@ == old(self).tiles@.push(tile));
                    assert forall|a: int, b: int| 0 <= a < self.tiles@.len() && 0 <= b < self.tiles@.len() && a != b implies self.tiles@[a] != self.tiles@[b] by {
                        let n = old(self).tiles@.len() as int;
                        if a == n {
                            assert(self.tiles@[b] == old(self).tiles@[b]);
                            assert(old(self)@.contains(old(self).tiles@[b]));
                        }
                        if b == n {
                            assert(self.tiles@[a] == old(self).tiles@[a]);
                            assert(old(self)@.contains(old(self).tiles@[a]));
                        }
                    }
                    assert forall|t: (i32, i32)| #[trigger] self@.contains(t) <==> old(self)@.insert(tile).contains(t) by {
                        if self@.contains(t) {
                            let k = choose|k: int| 0 <= k < self.tiles@.len() && self.tiles@[k] == t;
                            if k < old(self).tiles@.len() { assert(old(self).tiles@[k] == t); }
                        }
                        if old(self)@.contains(t) {
                            let k = choose|k: int| 0 <= k < old(self).tiles@.len() && old(self).tiles@[k] == t;
                            assert(self.tiles@[k] == t);
                        }
                        if t == tile { assert(self.tiles@[old(self).tiles@.len() as int] == t); }
                    }
                    assert(self@ =~= old(self)@.insert(tile));
                }
            },
        }
    }

    pub fn remove(&mut self, tile: (i32, i32))
        requires
            old(self).wf(),
        ensures
            final(self).wf(),
            final(self)@ == old(self)@.remove(tile),
    {
        match self.index_of(tile) {
            Some(i) => {
                let ghost o = self.tiles@;
                self.tiles.remove(i);
                proof {
                    assert forall|a: int| 0 <= a < self.tiles@.len() implies #[trigger] self.tiles@[a] == o[if a < i { a } else { a + 1 }] by {}
                    assert forall|a: int, b: int| 0 <= a < self.tiles@.len() && 0 <= b < self.tiles@.len() && a != b implies self.tiles@[a] != self.tiles@[b] by {
                        let a2 = if a < i { a } else { a + 1 };
                        let b2 = if b < i { b } else { b + 1 };
                        assert(o[a2] != o[b2]);
                    }
                    assert forall|t: (i32, i32)| #[trigger] self@.contains(t) <==> old(self)@.remove(tile).contains(t) by {
                        if self@.contains(t) {
                            let k = choose|k: int| 0 <= k < self.tiles@.len() && self.tiles@[k] == t;
                            let k2 = if k < i { k } else { k + 1 };
                            assert(o[k2] == t);
                            assert(k2 != i);
                            assert(o[k2] != o[i as int]);
                        }
                        if old(self)@.remove(tile).contains(t) {
                            let k = choose|k: int| 0 <= k < o.len() && o[k] == t;
                            assert(k != i);
                            let k2 = if k < i { k } else { k - 1 };
                            assert(self.tiles@[k2] == t);
                        }
                    }
                    assert(self@ =~= old(self)@.remove(tile));
                }
            },
            None => {
                assert(self@ =~= old(self)@.remove(tile));
            },
        }
    }
}

/// How a viewer's picture of a subject changes.
#[derive(PartialEq, Eq, Structural, Clone, Copy)]
pub enum InterestChange {
    Enter,
    Update,
    Leave,
    Delete,
}

/// Which messages an event carries: the subject's snapshot, the changes
/// just published, those changes followed by the subject's leave messages,
/// the leave messages alone, or the messages given with a removal.
#[derive(PartialEq, Eq, Structural, Clone, Copy)]
pub enum EventBody {
    Snapshot,
    Changes,
    ChangesThenLeave,
    Leave,
    Removal,
}

/// A subscription going from `was` to `visible`: entering, staying,
/// leaving, or nothing at all.
pub open spec fn membership_change(was: bool, visible: bool) -> Option<InterestChange> {
    if visible {
        if was { Some(InterestChange::Update) } else { Some(InterestChange::Enter) }
    } else {
        if was { Some(InterestChange::Leave) } else { None }
    }
}

pub fn change_for(was: bool, visible: bool) -> (c: Option<InterestChange>)
    ensures
        c == membership_change(was, visible),
{
    match (was, visible) {
        (false, true) => Some(InterestChange::Enter),
        (true, true) => Some(InterestChange::Update),
        (true, false) => Some(InterestChange::Leave),
        (false, false) => None,
    }
}

/// What a publish event carries. A subject created by a spawn message
/// enters with that message itself, so that clients see it spawn; any other
/// entry carries the snapshot.
pub open spec fn publish_body(change: InterestChange, spawn_enter: bool) -> EventBody {
    match change {
        InterestChange::Enter => if spawn_enter { EventBody::Changes } else { EventBody::Snapshot },
        InterestChange::Update => EventBody::Changes,
        InterestChange::Leave => EventBody::ChangesThenLeave,
        InterestChange::Delete => EventBody::Removal,
    }
}

fn body_for(change: InterestChange, spawn_enter: bool) -> (b: EventBody)
    ensures
        b == publish_body(change, spawn_enter),
{
    match change {
        InterestChange::Enter => if spawn_enter { EventBody::Changes } else { EventBody::Snapshot },
        InterestChange::Update => EventBody::Changes,
        InterestChange::Leave => EventBody::ChangesThenLeave,
        InterestChange::Delete => EventBody::Removal,
    }
}

/// `x + 1`, wrapping at `u64::MAX` like a release build's `+=`.
pub open spec fn next(x: u64) -> u64 {
    if x == u64::MAX { 0 } else { (x + 1) as u64 }
}

/// One viewer's open world view: the generation it was opened in, the
/// sequence number of the last update sent to it, and whether its terrain
/// is complete.
#[derive(PartialEq, Eq, Structural, Clone, Copy)]
pub struct ViewState {
    pub generation: u64,
    pub sequence: u64,
    pub ready: bool,
}

/// A view after one more update was sent to it.
pub open spec fn sent(v: ViewState) -> ViewState {
    ViewState { sequence: next(v.sequence), ..v }
}

/// One world update for one viewer about one subject.
#[derive(PartialEq, Eq, Structural, Clone, Copy)]
pub struct Delivery {
    pub viewer: u128,
    pub sequence: u64,
    pub change: InterestChange,
    pub body: EventBody,
}

/// Subjects with their revisions, open views, and who watches what.
pub struct Interest {
    pub generation: u64,
    pub revision: u64,
    pub subjects: StrMap<u64>,
    pub views: IdMap<ViewState>,
    pub watching: Watching,
    pub pending: TileSet,
}

pub struct InterestModel {
    pub generation: u64,
    pub revision: u64,
    pub subjects: Map<Seq<char>, u64>,
    pub views: Map<u128, ViewState>,
    pub watching: Set<(u128, Seq<char>)>,
    pub pending: Set<(i32, i32)>,
}

/// Every subscription joins an open view to a live subject.
pub open spec fn consistent(m: InterestModel) -> bool {
    forall|p: (u128, Seq<char>)| #[trigger] m.watching.contains(p) ==> m.views.contains_key(p.0) && m.subjects.contains_key(p.1)
}

impl Interest {
    pub open spec fn wf(&self) -> bool {
        &&& self.subjects.wf()
        &&& self.views.wf()
        &&& self.watching.wf()
        &&& self.pending.wf()
        &&& consistent(self@)
    }

    pub open spec fn view(&self) -> InterestModel {
        InterestModel {
            generation: self.generation,
            revision: self.revision,
            subjects: self.subjects@,
            views: self.views@,
            watching: self.watching@,
            pending: self.pending@,
        }
    }

    pub fn new() -> (i: Self)
        ensures
            i.wf(),
            i@.generation == 0,
            i@.revision == 0,
            i@.subjects == Map::<Seq<char>, u64>::empty(),
            i@.views == Map::<u128, ViewState>::empty(),
            i@.watching == Set::<(u128, Seq<char>)>::empty(),
            i@.pending == Set::<(i32, i32)>::empty(),
    {
        Interest { generation: 0, revision: 0, subjects: StrMap::new(), views: IdMap::new(), watching: Watching::new(), pending: TileSet::new() }
    }

    pub fn has_subject(&self, id: &str) -> (r: bool)
        requires
            self.wf(),
        ensures
            r == self@.subjects.contains_key(id@),
    {
        self.subjects.contains_key(id)
    }

    /// Whether `viewer` currently watches subject `id`.
    pub fn watches_subject(&self, viewer: u128, id: &str) -> (r: bool)
        ensures
            r == self@.watching.contains((viewer, id@)),
    {
        self.watching.contains(viewer, id)
    }
}

/// What publishing subject `id` sends to one candidate viewer `e.0`, who
/// can see it when `e.1`: nothing without an open view or when it neither
/// saw nor sees it, and no update when there are no changes.
pub open spec fn publish_step(m: InterestModel, id: Seq<char>, e: (u128, bool), has_changes: bool, spawn_enter: bool) -> Option<Delivery> {
    if !m.views.contains_key(e.0) {
        None
    } else {
        match membership_change(m.watching.contains((e.0, id)), e.1) {
            None => None,
            Some(c) => if c == InterestChange::Update && !has_changes {
                None
            } else {
                Some(Delivery { viewer: e.0, sequence: next(m.views[e.0].sequence), change: c, body: publish_body(c, spawn_enter) })
            },
        }
    }
}

/// The updates a publish sends, in candidate order.
pub open spec fn publish_plan(m: InterestModel, id: Seq<char>, seen: Seq<(u128, bool)>, has_changes: bool, spawn_enter: bool) -> Seq<Delivery>
    decreases seen.len(),
{
    if seen.len() == 0 {
        Seq::empty()
    } else {
        let before = publish_plan(m, id, seen.drop_last(), has_changes, spawn_enter);
        match publish_step(m, id, seen.last(), has_changes, spawn_enter) {
            Some(d) => before.push(d),
            None => before,
        }
    }
}

/// Some update in `plan` goes to `v`.
pub open spec fn delivered_to(plan: Seq<Delivery>, v: u128) -> bool {
    exists|k: int| 0 <= k < plan.len() && #[trigger] plan[k].viewer == v
}

/// The views after each viewer in `plan` was sent one update.
pub open spec fn views_after(views: Map<u128, ViewState>, plan: Seq<Delivery>) -> Map<u128, ViewState> {
    Map::new(|v: u128| views.contains_key(v), |v: u128| if delivered_to(plan, v) { sent(views[v]) } else { views[v] })
}

/// The candidates of a publish that can see the subject and have a view.
pub open spec fn newly_watching(views: Map<u128, ViewState>, id: Seq<char>, seen: Seq<(u128, bool)>) -> Set<(u128, Seq<char>)> {
    Set::new(|p: (u128, Seq<char>)| p.1 == id && views.contains_key(p.0) && exists|j: int| 0 <= j < seen.len() && #[trigger] seen[j] == (p.0, true))
}

/// No viewer is listed twice.
pub open spec fn distinct_viewers(seen: Seq<(u128, bool)>) -> bool {
    forall|a: int, b: int| 0 <= a < b < seen.len() ==> #[trigger] seen[a].0 != #[trigger] seen[b].0
}

/// Every update of a plan goes to a candidate.
pub proof fn lemma_plan_viewers(m: InterestModel, id: Seq<char>, seen: Seq<(u128, bool)>, has_changes: bool, spawn_enter: bool, v: u128)
    requires
        delivered_to(publish_plan(m, id, seen, has_changes, spawn_enter), v),
    ensures
        exists|j: int| 0 <= j < seen.len() && #[trigger] seen[j].0 == v,
    decreases seen.len(),
{
    let plan = publish_plan(m, id, seen, has_changes, spawn_enter);
    let before = publish_plan(m, id, seen.drop_last(), has_changes, spawn_enter);
    let k = choose|k: int| 0 <= k < plan.len() && #[trigger] plan[k].viewer == v;
    if k < before.len() {
        assert(plan[k] == before[k]);
        assert(delivered_to(before, v));
        lemma_plan_viewers(m, id, seen.drop_last(), has_changes, spawn_enter, v);
        let j = choose|j: int| 0 <= j < seen.drop_last().len() && #[trigger] seen.drop_last()[j].0 == v;
        assert(seen[j].0 == v);
    } else {
        assert(seen[seen.len() - 1].0 == v);
    }
}

fn listed(vs: &Vec<u128>, v: u128) -> (r: bool)
    ensures
        r == vs@.contains(v),
{
    let mut i: usize = 0;
    while i < vs.len()
        invariant
            i <= vs@.len(),
            forall|j: int| 0 <= j < i ==> vs@[j] != v,
        decreases vs@.len() - i,
    {
        if vs[i] == v {
            assert(vs@[i as int] == v);
            return true;
        }
        i = i + 1;
    }
    false
}

impl Interest {
    /// Publish subject `id` at a new revision. `seen` lists the candidate
    /// viewers (its former watchers and every viewer near its areas) with
    /// whether each can see it now; `has_changes` says whether there are
    /// change messages, and `spawn_changes` whether the first of them
    /// spawns the subject. Returns the updates to send, in candidate order.
    pub fn publish(&mut self, id: String, seen: &Vec<(u128, bool)>, has_changes: bool, spawn_changes: bool) -> (out: Vec<Delivery>)
        requires
            old(self).wf(),
            distinct_viewers(seen@),
        ensures
            final(self).wf(),
            final(self)@.generation == old(self)@.generation,
            final(self)@.pending == old(self)@.pending,
            final(self)@.revision == next(old(self)@.revision),
            final(self)@.subjects == old(self)@.subjects.insert(id@, next(old(self)@.revision)),
            final(self)@.watching == old(self)@.watching.filter(|p: (u128, Seq<char>)| p.1 != id@)
                .union(newly_watching(old(self)@.views, id@, seen@)),
            out@ == publish_plan(old(self)@, id@, seen@, has_changes, spawn_changes && !old(self)@.subjects.contains_key(id@)),
            final(self)@.views == views_after(old(self)@.views, out@),
    {
        let ghost m = self@;
        let ghost spawn_enter = spawn_changes && !m.subjects.contains_key(id@);
        let created = !self.subjects.contains_key(id.as_str());
        self.revision = self.revision.wrapping_add(1);
        let previous = self.watching.remove_subject(id.as_str());
        let rev = self.revision;
        self.subjects.insert(id.clone(), rev);
        let mut out: Vec<Delivery> = Vec::new();
        let mut i: usize = 0;
        while i < seen.len()
            invariant
                0 <= i <= seen@.len(),
                distinct_viewers(seen@),
                spawn_enter == (spawn_changes && created),
                self.subjects.wf(),
                self.views.wf(),
                self.watching.wf(),
                self.generation == m.generation,
                self.pending@ == m.pending,
                self.pending.wf(),
                self.revision == next(m.revision),
                self.subjects@ == m.subjects.insert(id@, next(m.revision)),
                forall|v: u128| #[trigger] previous@.contains(v) <==> m.watching.contains((v, id@)),
                self.watching@ == m.watching.filter(|p: (u128, Seq<char>)| p.1 != id@).union(newly_watching(m.views, id@, seen@.take(i as int))),
                out@ == publish_plan(m, id@, seen@.take(i as int), has_changes, spawn_enter),
                self.views@ == views_after(m.views, out@),
                consistent(m),
            decreases seen@.len() - i,
        {
            let (v, visible) = seen[i];
            let ghost before_out = out@;
            let ghost before_watch = self.watching@;
            proof {
                assert(seen@.take(i as int + 1).drop_last() =~= seen@.take(i as int));
                assert(seen@.take(i as int + 1).last() == seen@[i as int]);
                if delivered_to(before_out, v) {
                    lemma_plan_viewers(m, id@, seen@.take(i as int), has_changes, spawn_enter, v);
                    let j = choose|j: int| 0 <= j < seen@.take(i as int).len() && #[trigger] seen@.take(i as int)[j].0 == v;
                    assert(seen@[j].0 == seen@[i as int].0);
                }
                assert(!delivered_to(before_out, v));
            }
            match self.views.get(v) {
                None => {
                    proof {
                        assert(newly_watching(m.views, id@, seen@.take(i as int + 1)) =~= newly_watching(m.views, id@, seen@.take(i as int))) by {
                            assert forall|p: (u128, Seq<char>)| newly_watching(m.views, id@, seen@.take(i as int + 1)).contains(p) implies newly_watching(m.views, id@, seen@.take(i as int)).contains(p) by {
                                let j = choose|j: int| 0 <= j < seen@.take(i as int + 1).len() && #[trigger] seen@.take(i as int + 1)[j] == (p.0, true);
                                assert(seen@.take(i as int)[j] == (p.0, true));
                            }
                            assert forall|p: (u128, Seq<char>)| newly_watching(m.views, id@, seen@.take(i as int)).contains(p) implies newly_watching(m.views, id@, seen@.take(i as int + 1)).contains(p) by {
                                let j = choose|j: int| 0 <= j < seen@.take(i as int).len() && #[trigger] seen@.take(i as int)[j] == (p.0, true);
                                assert(seen@.take(i as int + 1)[j] == (p.0, true));
                            }
                        }
                    }
                },
                Some(view) => {
                    let view = *view;
                    let was = listed(&previous, v);
                    match change_for(was, visible) {
                        None => {
                            proof {
                                assert(newly_watching(m.views, id@, seen@.take(i as int + 1)) =~= newly_watching(m.views, id@, seen@.take(i as int))) by {
                                    assert forall|p: (u128, Seq<char>)| newly_watching(m.views, id@, seen@.take(i as int + 1)).contains(p) implies newly_watching(m.views, id@, seen@.take(i as int)).contains(p) by {
                                        let j = choose|j: int| 0 <= j < seen@.take(i as int + 1).len() && #[trigger] seen@.take(i as int + 1)[j] == (p.0, true);
                                        assert(seen@.take(i as int)[j] == (p.0, true));
                                    }
                                    assert forall|p: (u128, Seq<char>)| newly_watching(m.views, id@, seen@.take(i as int)).contains(p) implies newly_watching(m.views, id@, seen@.take(i as int + 1)).contains(p) by {
                                        let j = choose|j: int| 0 <= j < seen@.take(i as int).len() && #[trigger] seen@.take(i as int)[j] == (p.0, true);
                                        assert(seen@.take(i as int + 1)[j] == (p.0, true));
                                    }
                                }
                            }
                        },
                        Some(change) => {
                            if visible {
                                self.watching.insert(v, id.clone());
                            }
                            proof {
                                assert(self.watching@ =~= m.watching.filter(|p: (u128, Seq<char>)| p.1 != id@).union(newly_watching(m.views, id@, seen@.take(i as int + 1)))) by {
                                    let target = m.watching.filter(|p: (u128, Seq<char>)| p.1 != id@).union(newly_watching(m.views, id@, seen@.take(i as int + 1)));
                                    assert forall|p: (u128, Seq<char>)| #[trigger] self.watching@.contains(p) <==> target.contains(p) by {
                                        if newly_watching(m.views, id@, seen@.take(i as int)).contains(p) {
                                            let j = choose|j: int| 0 <= j < seen@.take(i as int).len() && #[trigger] seen@.take(i as int)[j] == (p.0, true);
                                            assert(seen@.take(i as int + 1)[j] == (p.0, true));
                                        }
                                        if newly_watching(m.views, id@, seen@.take(i as int + 1)).contains(p) {
                                            let j = choose|j: int| 0 <= j < seen@.take(i as int + 1).len() && #[trigger] seen@.take(i as int + 1)[j] == (p.0, true);
                                            if j < i {
                                                assert(seen@.take(i as int)[j] == (p.0, true));
                                            }
                                        }
                                        if visible && p == (v, id@) {
                                            assert(seen@.take(i as int + 1)[i as int] == (p.0, true));
                                        }
                                    }
                                }
                            }
                            if change == InterestChange::Update && !has_changes {
                            } else {
                                let sequence = view.sequence.wrapping_add(1);
                                self.views.insert(v, ViewState { sequence, ..view });
                                let d = Delivery { viewer: v, sequence, change, body: body_for(change, created && spawn_changes) };
                                out.push(d);
                                proof {
                                    assert(out@ == before_out.push(d));
                                    assert(self.views@ =~= views_after(m.views, out@)) by {
                                        assert forall|w: u128| #[trigger] delivered_to(out@, w) <==> delivered_to(before_out, w) || w == v by {
                                            if delivered_to(before_out, w) {
                                                let k = choose|k: int| 0 <= k < before_out.len() && #[trigger] before_out[k].viewer == w;
                                                assert(out@[k].viewer == w);
                                            }
                                            if w == v {
                                                assert(out@[before_out.len() as int].viewer == w);
                                            }
                                            if delivered_to(out@, w) && w != v {
                                                let k = choose|k: int| 0 <= k < out@.len() && #[trigger] out@[k].viewer == w;
                                                assert(before_out[k].viewer == w);
                                            }
                                        }
                                    }
                                }
                            }
                        },
                    }
                },
            }
            i = i + 1;
        }
        proof {
            assert(seen@.take(seen@.len() as int) =~= seen@);
            assert forall|p: (u128, Seq<char>)| #[trigger] self.watching@.contains(p) implies self.views@.contains_key(p.0) && self.subjects@.contains_key(p.1) by {
                if m.watching.contains(p) {
                    assert(m.views.contains_key(p.0));
                }
            }
        }
        out
    }
}

/// One event of a view move: a subject entering or leaving sight, at its
/// current revision.
pub struct SubjectEvent {
    pub subject: String,
    pub revision: u64,
    pub change: InterestChange,
}

pub open spec fn event_view(e: SubjectEvent) -> (Seq<char>, u64, InterestChange) {
    (e.subject@, e.revision, e.change)
}

/// The single update a view move sends: its sequence number and events.
pub struct Reconciled {
    pub sequence: u64,
    pub events: Vec<SubjectEvent>,
}

/// What moving `viewer`'s view does about candidate subject `e.0`, which it
/// can see when `e.1`: only live subjects enter or leave.
pub open spec fn reconcile_step(m: InterestModel, viewer: u128, e: (String, bool)) -> Option<(Seq<char>, u64, InterestChange)> {
    if !m.subjects.contains_key(e.0@) {
        None
    } else {
        match membership_change(m.watching.contains((viewer, e.0@)), e.1) {
            Some(InterestChange::Enter) => Some((e.0@, m.subjects[e.0@], InterestChange::Enter)),
            Some(InterestChange::Leave) => Some((e.0@, m.subjects[e.0@], InterestChange::Leave)),
            _ => None,
        }
    }
}

/// The events of a view move, in candidate order.
pub open spec fn reconcile_plan(m: InterestModel, viewer: u128, seen: Seq<(String, bool)>) -> Seq<(Seq<char>, u64, InterestChange)>
    decreases seen.len(),
{
    if seen.len() == 0 {
        Seq::empty()
    } else {
        let before = reconcile_plan(m, viewer, seen.drop_last());
        match reconcile_step(m, viewer, seen.last()) {
            Some(e) => before.push(e),
            None => before,
        }
    }
}

/// No subject is listed twice.
pub open spec fn distinct_subjects(seen: Seq<(String, bool)>) -> bool {
    forall|a: int, b: int| 0 <= a < b < seen.len() ==> #[trigger] seen[a].0@ != #[trigger] seen[b].0@
}

/// Subject `s` is among the candidates.
pub open spec fn listed_subject(seen: Seq<(String, bool)>, s: Seq<char>) -> bool {
    exists|j: int| 0 <= j < seen.len() && #[trigger] seen[j].0@ == s
}

/// Subject `s` is among the candidates, as visible.
pub open spec fn seen_visible(seen: Seq<(String, bool)>, s: Seq<char>) -> bool {
    exists|j: int| 0 <= j < seen.len() && #[trigger] seen[j].0@ == s && seen[j].1
}

/// The subscriptions after `viewer`'s view moved: each live candidate is
/// watched exactly when visible; the rest stay as they were.
pub open spec fn watching_after_move(m: InterestModel, viewer: u128, seen: Seq<(String, bool)>) -> Set<(u128, Seq<char>)> {
    Set::new(|p: (u128, Seq<char>)|
        if p.0 == viewer && m.subjects.contains_key(p.1) && listed_subject(seen, p.1) {
            seen_visible(seen, p.1)
        } else {
            m.watching.contains(p)
        })
}

impl Interest {
    /// Withdraw subject `id`: every viewer watching it is sent a deletion.
    /// `None`, changing nothing, when there is no such subject; otherwise
    /// the new revision and the updates.
    pub fn remove(&mut self, id: &str) -> (r: Option<(u64, Vec<Delivery>)>)
        requires
            old(self).wf(),
        ensures
            final(self).wf(),
            r is None <==> !old(self)@.subjects.contains_key(id@),
            r is None ==> final(self)@ == old(self)@,
            r matches Some((rev, out)) ==> {
                &&& rev == next(old(self)@.revision)
                &&& final(self)@.revision == rev
                &&& final(self)@.generation == old(self)@.generation
                &&& final(self)@.pending == old(self)@.pending
                &&& final(self)@.subjects == old(self)@.subjects.remove(id@)
                &&& final(self)@.watching == old(self)@.watching.filter(|p: (u128, Seq<char>)| p.1 != id@)
                &&& (forall|v: u128| delivered_to(out@, v) <==> old(self)@.watching.contains((v, id@)))
                &&& (forall|a: int, b: int| 0 <= a < b < out@.len() ==> #[trigger] out@[a].viewer != #[trigger] out@[b].viewer)
                &&& (forall|k: int| 0 <= k < out@.len() ==> #[trigger] out@[k] == (Delivery {
                        viewer: out@[k].viewer,
                        sequence: next(old(self)@.views[out@[k].viewer].sequence),
                        change: InterestChange::Delete,
                        body: EventBody::Removal,
                    }))
                &&& final(self)@.views == views_after(old(self)@.views, out@)
            },
    {
        let ghost m = self@;
        if !self.subjects.contains_key(id) {
            return None;
        }
        self.revision = self.revision.wrapping_add(1);
        let _ = self.subjects.remove(id);
        let viewers = self.watching.remove_subject(id);
        let mut out: Vec<Delivery> = Vec::new();
        let mut i: usize = 0;
        while i < viewers.len()
            invariant
                0 <= i <= viewers@.len(),
                viewers@.no_duplicates(),
                forall|v: u128| #[trigger] viewers@.contains(v) <==> m.watching.contains((v, id@)),
                consistent(m),
                self.views.wf(),
                self.subjects.wf(),
                self.watching.wf(),
                self.watching@ == m.watching.filter(|p: (u128, Seq<char>)| p.1 != id@),
                self.subjects@ == m.subjects.remove(id@),
                self.revision == next(m.revision),
                self.generation == m.generation,
                self.pending@ == m.pending,
                self.pending.wf(),
                out@.len() == i,
                forall|k: int| 0 <= k < i ==> #[trigger] out@[k] == (Delivery {
                    viewer: viewers@[k],
                    sequence: next(m.views[viewers@[k]].sequence),
                    change: InterestChange::Delete,
                    body: EventBody::Removal,
                }),
                self.views@ == views_after(m.views, out@),
            decreases viewers@.len() - i,
        {
            let v = viewers[i];
            let ghost before_out = out@;
            proof {
                assert(viewers@.contains(v));
                assert(m.views.contains_key(v));
                if delivered_to(before_out, v) {
                    let k = choose|k: int| 0 <= k < before_out.len() && #[trigger] before_out[k].viewer == v;
                    assert(viewers@[k] == viewers@[i as int]);
                }
            }
            let view = match self.views.get(v) {
                Some(view) => *view,
                None => {
                    proof { assert(false); }
                    ViewState { generation: 0, sequence: 0, ready: false }
                },
            };
            let sequence = view.sequence.wrapping_add(1);
            self.views.insert(v, ViewState { sequence, ..view });
            let d = Delivery { viewer: v, sequence, change: InterestChange::Delete, body: EventBody::Removal };
            out.push(d);
            proof {
                assert(out@ == before_out.push(d));
                assert forall|w: u128| #[trigger] delivered_to(out@, w) <==> delivered_to(before_out, w) || w == v by {
                    if delivered_to(before_out, w) {
                        let k = choose|k: int| 0 <= k < before_out.len() && #[trigger] before_out[k].viewer == w;
                        assert(out@[k].viewer == w);
                    }
                    if w == v {
                        assert(out@[before_out.len() as int].viewer == w);
                    }
                    if delivered_to(out@, w) && w != v {
                        let k = choose|k: int| 0 <= k < out@.len() && #[trigger] out@[k].viewer == w;
                        assert(before_out[k].viewer == w);
                    }
                }
                assert(self.views@ =~= views_after(m.views, out@));
                assert forall|k: int| 0 <= k < i + 1 implies #[trigger] out@[k] == (Delivery {
                    viewer: viewers@[k],
                    sequence: next(m.views[viewers@[k]].sequence),
                    change: InterestChange::Delete,
                    body: EventBody::Removal,
                }) by {
                    if k < i { assert(out@[k] == before_out[k]); }
                }
            }
            i = i + 1;
        }
        proof {
            assert forall|v: u128| delivered_to(out@, v) <==> m.watching.contains((v, id@)) by {
                if delivered_to(out@, v) {
                    let k = choose|k: int| 0 <= k < out@.len() && #[trigger] out@[k].viewer == v;
                    assert(viewers@[k] == v);
                    assert(viewers@.contains(v));
                }
                if m.watching.contains((v, id@)) {
                    assert(viewers@.contains(v));
                    let k = choose|k: int| 0 <= k < viewers@.len() && viewers@[k] == v;
                    assert(out@[k].viewer == v);
                }
            }
            assert forall|a: int, b: int| 0 <= a < b < out@.len() implies #[trigger] out@[a].viewer != #[trigger] out@[b].viewer by {
                assert(out@[a].viewer == viewers@[a]);
                assert(out@[b].viewer == viewers@[b]);
            }
            assert forall|p: (u128, Seq<char>)| #[trigger] self.watching@.contains(p) implies self.views@.contains_key(p.0) && self.subjects@.contains_key(p.1) by {
                assert(m.watching.contains(p));
            }
        }
        Some((self.revision, out))
    }

    /// Give subject `id` a new revision (its cached state changed) when it
    /// exists; whether it does.
    pub fn touch(&mut self, id: &str) -> (r: bool)
        requires
            old(self).wf(),
        ensures
            final(self).wf(),
            r == old(self)@.subjects.contains_key(id@),
            r ==> final(self)@ == (InterestModel {
                revision: next(old(self)@.revision),
                subjects: old(self)@.subjects.insert(id@, next(old(self)@.revision)),
                ..old(self)@
            }),
            !r ==> final(self)@ == old(self)@,
    {
        if !self.subjects.contains_key(id) {
            return false;
        }
        self.revision = self.revision.wrapping_add(1);
        let rev = self.revision;
        self.subjects.insert(owned(id), rev);
        proof {
            assert forall|p: (u128, Seq<char>)| #[trigger] self.watching@.contains(p) implies self.views@.contains_key(p.0) && self.subjects@.contains_key(p.1) by {
                assert(old(self)@.watching.contains(p));
            }
        }
        true
    }

    /// Open (or reopen) `viewer`'s view in a new generation, dropping what
    /// it watched; the subjects it watched, for pruning once the fresh view
    /// has been reconciled.
    pub fn open_view(&mut self, viewer: u128) -> (previous: Vec<String>)
        requires
            old(self).wf(),
        ensures
            final(self).wf(),
            final(self)@ == (InterestModel {
                generation: next(old(self)@.generation),
                views: old(self)@.views.insert(viewer, ViewState { generation: next(old(self)@.generation), sequence: 0, ready: true }),
                watching: old(self)@.watching.filter(|p: (u128, Seq<char>)| p.0 != viewer),
                ..old(self)@
            }),
            forall|s: Seq<char>| old(self)@.watching.contains((viewer, s)) <==> exists|a: int| 0 <= a < previous@.len() && #[trigger] previous@[a]@ == s,
    {
        let previous = self.watching.remove_viewer(viewer);
        self.generation = self.generation.wrapping_add(1);
        let generation = self.generation;
        self.views.insert(viewer, ViewState { generation, sequence: 0, ready: true });
        proof {
            assert forall|p: (u128, Seq<char>)| #[trigger] self.watching@.contains(p) implies self.views@.contains_key(p.0) && self.subjects@.contains_key(p.1) by {
                assert(old(self)@.watching.contains(p));
            }
        }
        previous
    }

    /// Close `viewer`'s view; the subjects it watched, for pruning.
    pub fn remove_view(&mut self, viewer: u128) -> (previous: Vec<String>)
        requires
            old(self).wf(),
        ensures
            final(self).wf(),
            final(self)@ == (InterestModel {
                views: old(self)@.views.remove(viewer),
                watching: old(self)@.watching.filter(|p: (u128, Seq<char>)| p.0 != viewer),
                ..old(self)@
            }),
            forall|s: Seq<char>| old(self)@.watching.contains((viewer, s)) <==> exists|a: int| 0 <= a < previous@.len() && #[trigger] previous@[a]@ == s,
    {
        let previous = self.watching.remove_viewer(viewer);
        let _ = self.views.remove(viewer);
        proof {
            assert forall|p: (u128, Seq<char>)| #[trigger] self.watching@.contains(p) implies self.views@.contains_key(p.0) && self.subjects@.contains_key(p.1) by {
                assert(old(self)@.watching.contains(p));
            }
        }
        previous
    }

    /// Move `viewer`'s view: `seen` lists the candidate subjects (those it
    /// watches, its own player, and those near its new position) with
    /// whether each is visible from there. Live subjects that came into
    /// sight enter, those out of sight leave, and the view is sent one
    /// update with those events, even when there are none. `None`, changing
    /// nothing, when the viewer has no open view.
    pub fn reconcile(&mut self, viewer: u128, seen: &Vec<(String, bool)>) -> (r: Option<Reconciled>)
        requires
            old(self).wf(),
            distinct_subjects(seen@),
        ensures
            final(self).wf(),
            r is None <==> !old(self)@.views.contains_key(viewer),
            r is None ==> final(self)@ == old(self)@,
            r matches Some(done) ==> {
                &&& done.sequence == next(old(self)@.views[viewer].sequence)
                &&& done.events@.map_values(|e: SubjectEvent| event_view(e)) == reconcile_plan(old(self)@, viewer, seen@)
                &&& final(self)@ == (InterestModel {
                    views: old(self)@.views.insert(viewer, sent(old(self)@.views[viewer])),
                    watching: watching_after_move(old(self)@, viewer, seen@),
                    ..old(self)@
                })
            },
    {
        let ghost m = self@;
        let view = match self.views.get(viewer) {
            Some(view) => *view,
            None => return None,
        };
        let mut events: Vec<SubjectEvent> = Vec::new();
        let mut i: usize = 0;
        while i < seen.len()
            invariant
                0 <= i <= seen@.len(),
                distinct_subjects(seen@),
                self.subjects@ == m.subjects,
                self.views@ == m.views,
                self.generation == m.generation,
                self.revision == m.revision,
                self.pending@ == m.pending,
                self.pending.wf(),
                self.subjects.wf(),
                self.views.wf(),
                self.watching.wf(),
                consistent(m),
                m.views.contains_key(viewer),
                self.watching@ == watching_after_move(m, viewer, seen@.take(i as int)),
                events@.map_values(|e: SubjectEvent| event_view(e)) == reconcile_plan(m, viewer, seen@.take(i as int)),
            decreases seen@.len() - i,
        {
            let ghost before_events = events@;
            let ghost before_watch = self.watching@;
            let ghost e = seen@[i as int];
            proof {
                assert(seen@.take(i as int + 1).drop_last() =~= seen@.take(i as int));
                assert(seen@.take(i as int + 1).last() == e);
                // The candidate has not been looked at yet: its pair is as it was.
                assert(before_watch.contains((viewer, e.0@)) == m.watching.contains((viewer, e.0@))) by {
                    if listed_subject(seen@.take(i as int), e.0@) {
                        let j = choose|j: int| 0 <= j < seen@.take(i as int).len() && #[trigger] seen@.take(i as int)[j].0@ == e.0@;
                        assert(seen@[j].0@ == seen@[i as int].0@);
                    }
                }
            }
            let id = &seen[i].0;
            let visible = seen[i].1;
            match self.subjects.get(id.as_str()) {
                None => {
                    proof {
                        assert(self.watching@ =~= watching_after_move(m, viewer, seen@.take(i as int + 1))) by {
                            assert forall|p: (u128, Seq<char>)| #[trigger] self.watching@.contains(p) <==> watching_after_move(m, viewer, seen@.take(i as int + 1)).contains(p) by {
                                if listed_subject(seen@.take(i as int), p.1) {
                                    let j = choose|j: int| 0 <= j < seen@.take(i as int).len() && #[trigger] seen@.take(i as int)[j].0@ == p.1;
                                    assert(seen@.take(i as int + 1)[j].0@ == p.1);
                                }
                                if listed_subject(seen@.take(i as int + 1), p.1) && p.1 != e.0@ {
                                    let j = choose|j: int| 0 <= j < seen@.take(i as int + 1).len() && #[trigger] seen@.take(i as int + 1)[j].0@ == p.1;
                                    assert(seen@.take(i as int)[j].0@ == p.1);
                                }
                                if seen_visible(seen@.take(i as int), p.1) {
                                    let j = choose|j: int| 0 <= j < seen@.take(i as int).len() && #[trigger] seen@.take(i as int)[j].0@ == p.1 && seen@.take(i as int)[j].1;
                                    assert(seen@.take(i as int + 1)[j].0@ == p.1);
                                }
                                if seen_visible(seen@.take(i as int + 1), p.1) && p.1 != e.0@ {
                                    let j = choose|j: int| 0 <= j < seen@.take(i as int + 1).len() && #[trigger] seen@.take(i as int + 1)[j].0@ == p.1 && seen@.take(i as int + 1)[j].1;
                                    assert(seen@.take(i as int)[j].0@ == p.1);
                                }
                            }
                        }
                    }
                },
                Some(rev) => {
                    let rev = *rev;
                    let was = self.watching.contains(viewer, id.as_str());
                    if visible && !was {
                        self.watching.insert(viewer, id.clone());
                        let ev = SubjectEvent { subject: id.clone(), revision: rev, change: InterestChange::Enter };
                        events.push(ev);
                        proof {
                            assert(events@.map_values(|e: SubjectEvent| event_view(e)) =~= before_events.map_values(|e: SubjectEvent| event_view(e)).push(event_view(ev)));
                        }
                    } else if !visible && was {
                        self.watching.remove(viewer, id.as_str());
                        let ev = SubjectEvent { subject: id.clone(), revision: rev, change: InterestChange::Leave };
                        events.push(ev);
                        proof {
                            assert(events@.map_values(|e: SubjectEvent| event_view(e)) =~= before_events.map_values(|e: SubjectEvent| event_view(e)).push(event_view(ev)));
                        }
                    }
                    proof {
                        assert(self.watching@ =~= watching_after_move(m, viewer, seen@.take(i as int + 1))) by {
                            assert forall|p: (u128, Seq<char>)| #[trigger] self.watching@.contains(p) <==> watching_after_move(m, viewer, seen@.take(i as int + 1)).contains(p) by {
                                if listed_subject(seen@.take(i as int), p.1) {
                                    let j = choose|j: int| 0 <= j < seen@.take(i as int).len() && #[trigger] seen@.take(i as int)[j].0@ == p.1;
                                    assert(seen@.take(i as int + 1)[j].0@ == p.1);
                                }
                                if listed_subject(seen@.take(i as int + 1), p.1) && p.1 != e.0@ {
                                    let j = choose|j: int| 0 <= j < seen@.take(i as int + 1).len() && #[trigger] seen@.take(i as int + 1)[j].0@ == p.1;
                                    assert(seen@.take(i as int)[j].0@ == p.1);
                                }
                                if seen_visible(seen@.take(i as int), p.1) {
                                    let j = choose|j: int| 0 <= j < seen@.take(i as int).len() && #[trigger] seen@.take(i as int)[j].0@ == p.1 && seen@.take(i as int)[j].1;
                                    assert(seen@.take(i as int + 1)[j].0@ == p.1);
                                }
                                if seen_visible(seen@.take(i as int + 1), p.1) && p.1 != e.0@ {
                                    let j = choose|j: int| 0 <= j < seen@.take(i as int + 1).len() && #[trigger] seen@.take(i as int + 1)[j].0@ == p.1 && seen@.take(i as int + 1)[j].1;
                                    assert(seen@.take(i as int)[j].0@ == p.1);
                                }
                                if p.1 == e.0@ {
                                    assert(seen@.take(i as int + 1)[i as int].0@ == p.1);
                                    if seen_visible(seen@.take(i as int + 1), p.1) {
                                        let j = choose|j: int| 0 <= j < seen@.take(i as int + 1).len() && #[trigger] seen@.take(i as int + 1)[j].0@ == p.1 && seen@.take(i as int + 1)[j].1;
                                        if j != i { assert(seen@[j].0@ != seen@[i as int].0@); }
                                    }
                                    if visible {
                                        assert(seen@.take(i as int + 1)[i as int].1);
                                    }
                                }
                            }
                        }
                    }
                },
            }
            proof {
                assert forall|p: (u128, Seq<char>)| #[trigger] self.watching@.contains(p) implies self.views@.contains_key(p.0) && self.subjects@.contains_key(p.1) by {
                    if !(p.0 == viewer && m.subjects.contains_key(p.1) && listed_subject(seen@.take(i as int + 1), p.1)) {
                        assert(m.watching.contains(p));
                    }
                }
            }
            i = i + 1;
        }
        let sequence = view.sequence.wrapping_add(1);
        self.views.insert(viewer, ViewState { sequence, ..view });
        proof {
            assert(seen@.take(seen@.len() as int) =~= seen@);
            assert forall|p: (u128, Seq<char>)| #[trigger] self.watching@.contains(p) implies self.views@.contains_key(p.0) && self.subjects@.contains_key(p.1) by {
                if !(p.0 == viewer && m.subjects.contains_key(p.1) && listed_subject(seen@, p.1)) {
                    assert(m.watching.contains(p));
                }
            }
        }
        Some(Reconciled { sequence, events })
    }
}

/// The subject ids of terrain tiles begin with this.
pub open spec fn terrain_prefix() -> Seq<char> {
    seq!['t', 'e', 'r', 'r', 'a', 'i', 'n', ':']
}

impl Interest {
    /// Drop terrain tile subject `id` once nobody watches it; whether it was
    /// dropped.
    pub fn prune_tile(&mut self, id: &str) -> (pruned: bool)
        requires
            old(self).wf(),
        ensures
            final(self).wf(),
            pruned == (starts_with(id@, terrain_prefix()) && old(self)@.subjects.contains_key(id@)
                && forall|v: u128| !old(self)@.watching.contains((v, id@))),
            pruned ==> final(self)@ == (InterestModel {
                revision: next(old(self)@.revision),
                subjects: old(self)@.subjects.remove(id@),
                ..old(self)@
            }),
            !pruned ==> final(self)@ == old(self)@,
    {
        proof { reveal_strlit("terrain:"); }
        let prefix = chars_of("terrain:");
        assert(prefix@ =~= terrain_prefix());
        let idc = chars_of(id);
        let tile = has_prefix(&idc, &prefix);
        assert(tile == starts_with(id@, terrain_prefix()));
        if !tile || !self.subjects.contains_key(id) {
            return false;
        }
        let watchers = self.watching.viewers_of(id);
        if watchers.len() > 0 {
            proof {
                assert(watchers@.contains(watchers@[0]));
                assert(self@.watching.contains((watchers@[0], id@)));
            }
            return false;
        }
        proof {
            assert forall|v: u128| !self@.watching.contains((v, id@)) by {
                if self@.watching.contains((v, id@)) { assert(watchers@.contains(v)); }
            }
        }
        let ghost m = self@;
        let r = self.remove(id);
        proof {
            let (rev, out) = r.unwrap();
            if out@.len() > 0 {
                assert(delivered_to(out@, out@[0].viewer));
            }
            assert(out@.len() == 0);
            assert(views_after(m.views, out@) =~= m.views);
            assert(m.watching.filter(|p: (u128, Seq<char>)| p.1 != id@) =~= m.watching);
        }
        true
    }

    /// The candidates of a publish of `id`: its watchers, then the `near`
    /// viewers not among them, each once.
    pub fn publish_candidates(&self, id: &str, near: &Vec<u128>) -> (c: Vec<u128>)
        requires
            self.wf(),
        ensures
            c@.no_duplicates(),
            forall|v: u128| #[trigger] c@.contains(v) <==> self@.watching.contains((v, id@)) || near@.contains(v),
    {
        let mut c = self.watching.viewers_of(id);
        let mut i: usize = 0;
        while i < near.len()
            invariant
                i <= near@.len(),
                c@.no_duplicates(),
                forall|v: u128| #[trigger] c@.contains(v) <==> self@.watching.contains((v, id@)) || near@.take(i as int).contains(v),
            decreases near@.len() - i,
        {
            let v = near[i];
            let ghost before = c@;
            proof {
                assert forall|w: u128| near@.take(i as int + 1).contains(w) <==> near@.take(i as int).contains(w) || w == v by {
                    if near@.take(i as int + 1).contains(w) {
                        let k = choose|k: int| 0 <= k < near@.take(i as int + 1).len() && #[trigger] near@.take(i as int + 1)[k] == w;
                        if k < i { assert(near@.take(i as int)[k] == w); }
                    }
                    if near@.take(i as int).contains(w) {
                        let k = choose|k: int| 0 <= k < near@.take(i as int).len() && #[trigger] near@.take(i as int)[k] == w;
                        assert(near@.take(i as int + 1)[k] == w);
                    }
                    if w == v {
                        assert(near@.take(i as int + 1)[i as int] == w);
                    }
                }
            }
            if !listed(&c, v) {
                c.push(v);
                proof {
                    assert forall|w: u128| #[trigger] c@.contains(w) <==> before.contains(w) || w == v by {
                        if c@.contains(w) {
                            let k = choose|k: int| 0 <= k < c@.len() && #[trigger] c@[k] == w;
                            if k < before.len() { assert(before[k] == w); }
                        }
                        if before.contains(w) {
                            let k = choose|k: int| 0 <= k < before.len() && #[trigger] before[k] == w;
                            assert(c@[k] == w);
                        }
                        if w == v { assert(c@[before.len() as int] == w); }
                    }
                }
            }
            i = i + 1;
        }
        proof { assert(near@.take(near@.len() as int) =~= near@); }
        c
    }

    /// The subjects `viewer` watches, each once: with its own player and
    /// the subjects near its new position, the candidates of a view move.
    pub fn watched_by(&self, viewer: u128) -> (subjects: Vec<String>)
        requires
            self.wf(),
        ensures
            forall|a: int, b: int| 0 <= a < b < subjects@.len() ==> #[trigger] subjects@[a]@ != #[trigger] subjects@[b]@,
            forall|s: Seq<char>| self@.watching.contains((viewer, s)) <==> exists|a: int| 0 <= a < subjects@.len() && #[trigger] subjects@[a]@ == s,
    {
        let mut copy = Watching { pairs: Vec::new() };
        let mut i: usize = 0;
        while i < self.watching.pairs.len()
            invariant
                i <= self.watching.pairs@.len(),
                copy.pairs@.len() == i,
                forall|j: int| 0 <= j < i ==> #[trigger] pair_at(copy.pairs@, j) == pair_at(self.watching.pairs@, j),
            decreases self.watching.pairs@.len() - i,
        {
            let item = (self.watching.pairs[i].0, self.watching.pairs[i].1.clone());
            assert((item.0, item.1@) == pair_at(self.watching.pairs@, i as int));
            let ghost before = copy.pairs@;
            copy.pairs.push(item);
            proof {
                assert forall|j: int| 0 <= j < i + 1 implies #[trigger] pair_at(copy.pairs@, j) == pair_at(self.watching.pairs@, j) by {
                    if j < i { assert(copy.pairs@[j] == before[j]); assert(pair_at(before, j) == pair_at(self.watching.pairs@, j)); }
                    else { assert(copy.pairs@[j] == item); }
                }
            }
            i = i + 1;
        }
        proof {
            let ps = self.watching.pairs@;
            assert forall|a: int, b: int| 0 <= a < b < copy.pairs@.len() implies #[trigger] pair_at(copy.pairs@, a) != #[trigger] pair_at(copy.pairs@, b) by {
                assert(pair_at(ps, a) != pair_at(ps, b));
            }
            assert forall|q: (u128, Seq<char>)| #[trigger] copy@.contains(q) <==> self.watching@.contains(q) by {
                if copy@.contains(q) {
                    let a = choose|a: int| 0 <= a < copy.pairs@.len() && #[trigger] pair_at(copy.pairs@, a) == q;
                    assert(pair_at(ps, a) == q);
                }
                if self.watching@.contains(q) {
                    let a = choose|a: int| 0 <= a < ps.len() && #[trigger] pair_at(ps, a) == q;
                    assert(pair_at(copy.pairs@, a) == q);
                }
            }
            assert(copy@ =~= self.watching@);
        }
        copy.remove_viewer(viewer)
    }
}

/// A view whose terrain went missing: not ready, and sent one more update.
pub open spec fn unready(v: ViewState) -> ViewState {
    ViewState { ready: false, sequence: next(v.sequence), ..v }
}

impl Interest {
    /// Terrain tile `(x, z)` could not be delivered: remember it as pending,
    /// and mark the `affected` views over it not ready, sending each an
    /// empty update. Returns the viewers sent one, with their sequences.
    pub fn mark_pending(&mut self, x: i32, z: i32, affected: &Vec<u128>) -> (sent: Vec<(u128, u64)>)
        requires
            old(self).wf(),
            affected@.no_duplicates(),
        ensures
            final(self).wf(),
            final(self)@ == (InterestModel {
                pending: old(self)@.pending.insert((x, z)),
                views: Map::new(|v: u128| old(self)@.views.contains_key(v),
                    |v: u128| if affected@.contains(v) { unready(old(self)@.views[v]) } else { old(self)@.views[v] }),
                ..old(self)@
            }),
            sent@.len() <= affected@.len(),
            forall|k: int| 0 <= k < sent@.len() ==> affected@.contains((#[trigger] sent@[k]).0)
                && old(self)@.views.contains_key(sent@[k].0)
                && sent@[k].1 == next(old(self)@.views[sent@[k].0].sequence),
            forall|v: u128| affected@.contains(v) && old(self)@.views.contains_key(v)
                ==> exists|k: int| 0 <= k < sent@.len() && #[trigger] sent@[k].0 == v,
    {
        let ghost m = self@;
        self.pending.insert((x, z));
        let mut sent: Vec<(u128, u64)> = Vec::new();
        let mut i: usize = 0;
        while i < affected.len()
            invariant
                0 <= i <= affected@.len(),
                affected@.no_duplicates(),
                self.views.wf(),
                self.subjects.wf(),
                self.watching.wf(),
                self.pending.wf(),
                consistent(m),
                self.subjects@ == m.subjects,
                self.watching@ == m.watching,
                self.generation == m.generation,
                self.revision == m.revision,
                self.pending@ == m.pending.insert((x, z)),
                self.views@ == Map::new(|v: u128| m.views.contains_key(v),
                    |v: u128| if affected@.take(i as int).contains(v) { unready(m.views[v]) } else { m.views[v] }),
                sent@.len() <= i,
                forall|k: int| 0 <= k < sent@.len() ==> affected@.take(i as int).contains((#[trigger] sent@[k]).0)
                    && m.views.contains_key(sent@[k].0)
                    && sent@[k].1 == next(m.views[sent@[k].0].sequence),
                forall|v: u128| affected@.take(i as int).contains(v) && m.views.contains_key(v)
                    ==> exists|k: int| 0 <= k < sent@.len() && #[trigger] sent@[k].0 == v,
            decreases affected@.len() - i,
        {
            let v = affected[i];
            let ghost before = sent@;
            let ghost prefix = affected@.take(i as int);
            let ghost prefix1 = affected@.take(i as int + 1);
            proof {
                assert forall|w: u128| prefix1.contains(w) <==> prefix.contains(w) || w == v by {
                    if prefix1.contains(w) {
                        let k = choose|k: int| 0 <= k < prefix1.len() && #[trigger] prefix1[k] == w;
                        if k < i { assert(prefix[k] == w); }
                    }
                    if prefix.contains(w) {
                        let k = choose|k: int| 0 <= k < prefix.len() && #[trigger] prefix[k] == w;
                        assert(prefix1[k] == w);
                    }
                    if w == v { assert(prefix1[i as int] == w); }
                }
                if prefix.contains(v) {
                    let k = choose|k: int| 0 <= k < prefix.len() && #[trigger] prefix[k] == v;
                    assert(affected@[k] == affected@[i as int]);
                }
            }
            match self.views.get(v) {
                Some(view) => {
                    let view = *view;
                    let sequence = view.sequence.wrapping_add(1);
                    self.views.insert(v, ViewState { ready: false, sequence, ..view });
                    sent.push((v, sequence));
                    proof {
                        assert(sent@ == before.push((v, sequence)));
                        assert forall|k: int| 0 <= k < sent@.len() implies affected@.take(i as int + 1).contains((#[trigger] sent@[k]).0)
                            && m.views.contains_key(sent@[k].0)
                            && sent@[k].1 == next(m.views[sent@[k].0].sequence) by {
                            if k < before.len() { assert(sent@[k] == before[k]); }
                        }
                        assert forall|w: u128| affected@.take(i as int + 1).contains(w) && m.views.contains_key(w)
                            implies exists|k: int| 0 <= k < sent@.len() && #[trigger] sent@[k].0 == w by {
                            if w == v {
                                assert(sent@[before.len() as int].0 == w);
                            } else {
                                let k = choose|k: int| 0 <= k < before.len() && #[trigger] before[k].0 == w;
                                assert(sent@[k].0 == w);
                            }
                        }
                    }
                },
                None => {
                    proof {
                        assert forall|w: u128| affected@.take(i as int + 1).contains(w) && m.views.contains_key(w)
                            implies exists|k: int| 0 <= k < sent@.len() && #[trigger] sent@[k].0 == w by {
                            assert(w != v);
                        }
                    }
                },
            }
            proof {
                assert(self.views@ =~= Map::new(|w: u128| m.views.contains_key(w),
                    |w: u128| if prefix1.contains(w) { unready(m.views[w]) } else { m.views[w] }));
            }
            i = i + 1;
        }
        proof {
            assert(affected@.take(affected@.len() as int) =~= affected@);
            assert forall|p: (u128, Seq<char>)| #[trigger] self.watching@.contains(p) implies self.views@.contains_key(p.0) && self.subjects@.contains_key(p.1) by {
                assert(m.watching.contains(p));
            }
        }
        sent
    }

    /// Terrain tile `(x, z)` was delivered: it is no longer pending.
    pub fn tile_delivered(&mut self, x: i32, z: i32)
        requires
            old(self).wf(),
        ensures
            final(self).wf(),
            final(self)@ == (InterestModel { pending: old(self)@.pending.remove((x, z)), ..old(self)@ }),
    {
        self.pending.remove((x, z));
        proof {
            assert forall|p: (u128, Seq<char>)| #[trigger] self.watching@.contains(p) implies self.views@.contains_key(p.0) && self.subjects@.contains_key(p.1) by {
                assert(old(self)@.watching.contains(p));
            }
        }
    }

    /// Whether terrain tile `(x, z)` is still pending.
    pub fn is_pending(&self, x: i32, z: i32) -> (r: bool)
        ensures
            r == self@.pending.contains((x, z)),
    {
        self.pending.contains((x, z))
    }

    /// The viewers whose views are not ready, to be reset once their
    /// terrain arrives.
    pub fn unready_views(&self) -> (vs: Vec<u128>)
        requires
            self.wf(),
        ensures
            forall|v: u128| #[trigger] vs@.contains(v) <==> self@.views.contains_key(v) && !self@.views[v].ready,
    {
        let keys = self.views.keys();
        proof {
            assert forall|a: int, b: int| 0 <= a < b < keys@.len() implies keys@[a] != keys@[b] by {
                assert(self.views.entries@[a].0 != self.views.entries@[b].0);
            }
        }
        let mut vs: Vec<u128> = Vec::new();
        let mut i: usize = 0;
        while i < keys.len()
            invariant
                i <= keys@.len(),
                self.views.wf(),
                forall|a: int, b: int| 0 <= a < b < keys@.len() ==> keys@[a] != keys@[b],
                forall|v: u128| self@.views.contains_key(v) <==> keys@.contains(v),
                forall|v: u128| #[trigger] vs@.contains(v) <==> keys@.take(i as int).contains(v) && !self@.views[v].ready,
            decreases keys@.len() - i,
        {
            let v = keys[i];
            let ghost before = vs@;
            proof {
                assert forall|w: u128| keys@.take(i as int + 1).contains(w) <==> keys@.take(i as int).contains(w) || w == v by {
                    if keys@.take(i as int + 1).contains(w) {
                        let k = choose|k: int| 0 <= k < keys@.take(i as int + 1).len() && #[trigger] keys@.take(i as int + 1)[k] == w;
                        if k < i { assert(keys@.take(i as int)[k] == w); }
                    }
                    if keys@.take(i as int).contains(w) {
                        let k = choose|k: int| 0 <= k < keys@.take(i as int).len() && #[trigger] keys@.take(i as int)[k] == w;
                        assert(keys@.take(i as int + 1)[k] == w);
                    }
                    if w == v { assert(keys@.take(i as int + 1)[i as int] == w); }
                }
                assert(keys@.contains(v));
                if keys@.take(i as int).contains(v) {
                    let k = choose|k: int| 0 <= k < keys@.take(i as int).len() && #[trigger] keys@.take(i as int)[k] == v;
                    assert(keys@[k] == keys@[i as int]);
                }
            }
            match self.views.get(v) {
                Some(view) => {
                    if !view.ready {
                        vs.push(v);
                        proof {
                            assert forall|w: u128| #[trigger] vs@.contains(w) <==> before.contains(w) || w == v by {
                                if vs@.contains(w) {
                                    let k = choose|k: int| 0 <= k < vs@.len() && #[trigger] vs@[k] == w;
                                    if k < before.len() { assert(before[k] == w); }
                                }
                                if before.contains(w) {
                                    let k = choose|k: int| 0 <= k < before.len() && #[trigger] before[k] == w;
                                    assert(vs@[k] == w);
                                }
                                if w == v { assert(vs@[before.len() as int] == w); }
                            }
                        }
                    }
                },
                None => {},
            }
            i = i + 1;
        }
        proof { assert(keys@.take(keys@.len() as int) =~= keys@); }
        vs
    }
}

/// Candidate `k` is the first listing of its viewer, `skip` aside.
pub open spec fn first_listing(c: Seq<(u128, bool)>, k: int) -> bool {
    forall|j: int| 0 <= j < k ==> #[trigger] c[j].0 != c[k].0
}

/// Who an effect reaches, in candidate order: each viewer listed near it
/// (with whether its view is open and inside the effect's area) once, but
/// not the `skip`ped one, and none who muted the `speaker`.
pub open spec fn effect_plan(c: Seq<(u128, bool)>, skip: Option<u128>, blocks: BlockLists, speaker: Option<Seq<char>>) -> Seq<u128>
    decreases c.len(),
{
    if c.len() == 0 {
        Seq::empty()
    } else {
        let before = effect_plan(c.drop_last(), skip, blocks, speaker);
        let k = c.len() - 1;
        let v = c[k].0;
        let muted = match speaker { Some(name) => blocks.blocked(v, name), None => false };
        if skip != Some(v) && first_listing(c, k) && !muted && c[k].1 {
            before.push(v)
        } else {
            before
        }
    }
}

/// The viewers a local effect (a chat line, a recital, notes played) is
/// sent to; see `effect_plan`.
pub fn effect_recipients(candidates: &Vec<(u128, bool)>, skip: Option<u128>, blocks: &BlockLists, speaker: Option<&str>)
    -> (out: Vec<u128>)
    requires
        blocks.wf(),
    ensures
        out@ == effect_plan(candidates@, skip, *blocks, match speaker { Some(s) => Some(s@), None => None }),
{
    let ghost sp = match speaker { Some(s) => Some(s@), None => None::<Seq<char>> };
    let mut sent: Vec<u128> = Vec::new();
    let mut out: Vec<u128> = Vec::new();
    let mut i: usize = 0;
    while i < candidates.len()
        invariant
            i <= candidates@.len(),
            blocks.wf(),
            sp == match speaker { Some(s) => Some(s@), None => None::<Seq<char>> },
            forall|v: u128| #[trigger] sent@.contains(v) <==> exists|j: int| 0 <= j < i && #[trigger] candidates@[j].0 == v && skip != Some(v),
            out@ == effect_plan(candidates@.take(i as int), skip, *blocks, sp),
        decreases candidates@.len() - i,
    {
        let (v, deliverable) = candidates[i];
        let ghost c1 = candidates@.take(i as int + 1);
        proof {
            assert(c1.drop_last() =~= candidates@.take(i as int));
            assert(c1[i as int] == candidates@[i as int]);
            assert(first_listing(c1, i as int) <==> !exists|j: int| 0 <= j < i && #[trigger] candidates@[j].0 == v) by {
                if !first_listing(c1, i as int) {
                    let j = choose|j: int| 0 <= j < i && #[trigger] c1[j].0 != c1[i as int].0 == false;
                    assert(candidates@[j].0 == v);
                }
                if exists|j: int| 0 <= j < i && #[trigger] candidates@[j].0 == v {
                    let j = choose|j: int| 0 <= j < i && #[trigger] candidates@[j].0 == v;
                    assert(c1[j].0 == c1[i as int].0);
                }
            }
        }
        let skipped = match skip {
            Some(s) => s == v,
            None => false,
        };
        if !skipped {
            let again = crate::interest::listed(&sent, v);
            if !again {
                let ghost before_sent = sent@;
                sent.push(v);
                proof {
                    assert forall|w: u128| #[trigger] sent@.contains(w) <==> exists|j: int| 0 <= j < i + 1 && #[trigger] candidates@[j].0 == w && skip != Some(w) by {
                        if sent@.contains(w) && w != v {
                            let k = choose|k: int| 0 <= k < sent@.len() && sent@[k] == w;
                            assert(before_sent[k] == w);
                            assert(before_sent.contains(w));
                        }
                        if w == v {
                            assert(sent@[before_sent.len() as int] == w);
                            assert(candidates@[i as int].0 == w);
                        }
                        if exists|j: int| 0 <= j < i + 1 && #[trigger] candidates@[j].0 == w && skip != Some(w) {
                            let j = choose|j: int| 0 <= j < i + 1 && #[trigger] candidates@[j].0 == w && skip != Some(w);
                            if j < i {
                                assert(before_sent.contains(w));
                                let k = choose|k: int| 0 <= k < before_sent.len() && before_sent[k] == w;
                                assert(sent@[k] == w);
                            }
                        }
                    }
                }
                let muted = match speaker {
                    Some(name) => blocks.has_blocked(v, name),
                    None => false,
                };
                if !muted && deliverable {
                    out.push(v);
                }
            } else {
                proof {
                    assert forall|w: u128| #[trigger] sent@.contains(w) <==> exists|j: int| 0 <= j < i + 1 && #[trigger] candidates@[j].0 == w && skip != Some(w) by {
                        if exists|j: int| 0 <= j < i + 1 && #[trigger] candidates@[j].0 == w && skip != Some(w) {
                            let j = choose|j: int| 0 <= j < i + 1 && #[trigger] candidates@[j].0 == w && skip != Some(w);
                            if j == i {
                                assert(sent@.contains(v));
                            }
                        }
                        if sent@.contains(w) {
                            let j = choose|j: int| 0 <= j < i && #[trigger] candidates@[j].0 == w && skip != Some(w);
                            assert(candidates@[j].0 == w);
                        }
                    }
                }
            }
        } else {
            proof {
                assert forall|w: u128| #[trigger] sent@.contains(w) <==> exists|j: int| 0 <= j < i + 1 && #[trigger] candidates@[j].0 == w && skip != Some(w) by {
                    if exists|j: int| 0 <= j < i + 1 && #[trigger] candidates@[j].0 == w && skip != Some(w) {
                        let j = choose|j: int| 0 <= j < i + 1 && #[trigger] candidates@[j].0 == w && skip != Some(w);
                        assert(j != i);
                    }
                    if sent@.contains(w) {
                        let j = choose|j: int| 0 <= j < i && #[trigger] candidates@[j].0 == w && skip != Some(w);
                        assert(candidates@[j].0 == w);
                    }
                }
            }
        }
        i = i + 1;
    }
    proof {
        assert(candidates@.take(candidates@.len() as int) =~= candidates@);
    }
    out
}

/// After a publish, every candidate with an open view watches the subject
/// exactly when it can see it.
pub proof fn law_publish_matches_visibility(m: InterestModel, id: Seq<char>, seen: Seq<(u128, bool)>, j: int)
    requires
        distinct_viewers(seen),
        0 <= j < seen.len(),
        m.views.contains_key(seen[j].0),
    ensures
        m.watching.filter(|p: (u128, Seq<char>)| p.1 != id).union(newly_watching(m.views, id, seen)).contains((seen[j].0, id))
            == seen[j].1,
{
    let v = seen[j].0;
    if newly_watching(m.views, id, seen).contains((v, id)) {
        let k = choose|k: int| 0 <= k < seen.len() && #[trigger] seen[k] == (v, true);
        if k != j {
            if k < j { assert(seen[k].0 != seen[j].0); } else { assert(seen[j].0 != seen[k].0); }
        }
    }
    if seen[j].1 {
        assert(seen[j] == (v, true));
    }
}

/// A publish sends each candidate with an open view exactly the update its
/// change of membership calls for, and nothing when there is none.
pub proof fn law_publish_tells_each_candidate(m: InterestModel, id: Seq<char>, seen: Seq<(u128, bool)>, has_changes: bool, spawn_enter: bool, j: int)
    requires
        distinct_viewers(seen),
        0 <= j < seen.len(),
    ensures
        publish_step(m, id, seen[j], has_changes, spawn_enter) matches Some(d)
            ==> publish_plan(m, id, seen, has_changes, spawn_enter).contains(d),
        publish_step(m, id, seen[j], has_changes, spawn_enter) is None
            ==> !delivered_to(publish_plan(m, id, seen, has_changes, spawn_enter), seen[j].0),
    decreases seen.len(),
{
    let plan = publish_plan(m, id, seen, has_changes, spawn_enter);
    let rest = seen.drop_last();
    let before = publish_plan(m, id, rest, has_changes, spawn_enter);
    let n = seen.len() - 1;
    assert(distinct_viewers(rest)) by {
        assert forall|a: int, b: int| 0 <= a < b < rest.len() implies #[trigger] rest[a].0 != #[trigger] rest[b].0 by {
            assert(seen[a].0 != seen[b].0);
        }
    }
    if j == n {
        if delivered_to(before, seen[j].0) {
            lemma_plan_viewers(m, id, rest, has_changes, spawn_enter, seen[j].0);
            let k = choose|k: int| 0 <= k < rest.len() && #[trigger] rest[k].0 == seen[j].0;
            assert(seen[k].0 != seen[j].0);
        }
        match publish_step(m, id, seen[j], has_changes, spawn_enter) {
            Some(d) => {
                assert(plan == before.push(d));
                assert(plan[before.len() as int] == d);
            },
            None => {
                assert(plan == before);
            },
        }
    } else {
        assert(rest[j] == seen[j]);
        law_publish_tells_each_candidate(m, id, rest, has_changes, spawn_enter, j);
        match publish_step(m, id, seen.last(), has_changes, spawn_enter) {
            Some(e) => {
                assert(plan == before.push(e));
                assert(seen.last().0 != seen[j].0);
                match publish_step(m, id, seen[j], has_changes, spawn_enter) {
                    Some(d) => {
                        let k = choose|k: int| 0 <= k < before.len() && before[k] == d;
                        assert(plan[k] == d);
                    },
                    None => {
                        if delivered_to(plan, seen[j].0) {
                            let k = choose|k: int| 0 <= k < plan.len() && #[trigger] plan[k].viewer == seen[j].0;
                            if k < before.len() {
                                assert(before[k].viewer == seen[j].0);
                            } else {
                                assert(plan[k] == e);
                            }
                        }
                    },
                }
            },
            None => {
                assert(plan == before);
            },
        }
    }
}

/// After a view move, every live candidate is watched exactly when it is
/// visible.
pub proof fn law_move_matches_visibility(m: InterestModel, viewer: u128, seen: Seq<(String, bool)>, j: int)
    requires
        distinct_subjects(seen),
        0 <= j < seen.len(),
        m.subjects.contains_key(seen[j].0@),
    ensures
        watching_after_move(m, viewer, seen).contains((viewer, seen[j].0@)) == seen[j].1,
{
    let sj = seen[j].0@;
    assert(listed_subject(seen, sj));
    if seen_visible(seen, sj) {
        let k = choose|k: int| 0 <= k < seen.len() && #[trigger] seen[k].0@ == sj && seen[k].1;
        if k != j {
            if k < j { assert(seen[k].0@ != seen[j].0@); } else { assert(seen[j].0@ != seen[k].0@); }
        }
    }
    if seen[j].1 {
        assert(seen[j].0@ == sj && seen[j].1);
    }
}

} // verus!
