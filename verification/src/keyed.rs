//! Small keyed collections kept as vectors of unique keys: maps keyed by
//! player id or by string, and sets of strings and of character ids.
use vstd::prelude::*;

verus! {

/// A map keyed by 128-bit ids.
pub struct IdMap<V> {
    pub entries: Vec<(u128, V)>,
}

impl<V> IdMap<V> {
    /// No key appears twice.
    pub open spec fn wf(&self) -> bool {
        forall|i: int, j: int| 0 <= i < j < self.entries@.len() ==> #[trigger] self.entries@[i].0 != #[trigger] self.entries@[j].0
    }

    pub open spec fn has(&self, k: u128) -> bool {
        exists|i: int| 0 <= i < self.entries@.len() && #[trigger] self.entries@[i].0 == k
    }

    pub open spec fn view(&self) -> Map<u128, V> {
        Map::new(
            |k: u128| self.has(k),
            |k: u128| self.entries@[choose|i: int| 0 <= i < self.entries@.len() && #[trigger] self.entries@[i].0 == k].1,
        )
    }

    pub fn new() -> (m: Self)
        ensures
            m.wf(),
            m@ == Map::<u128, V>::empty(),
            m.entries@.len() == 0,
    {
        let m = IdMap { entries: Vec::new() };
        assert(m@ =~= Map::empty());
        m
    }

    fn index_of(&self, key: u128) -> (r: Option<usize>)
        requires
            self.wf(),
        ensures
            match r {
                Some(i) => i < self.entries@.len() && self.entries@[i as int].0 == key
                    && self@.contains_key(key) && self@[key] == self.entries@[i as int].1,
                None => !self@.contains_key(key),
            },
    {
        let mut i: usize = 0;
        while i < self.entries.len()
            invariant
                self.wf(),
                i <= self.entries@.len(),
                forall|j: int| 0 <= j < i ==> #[trigger] self.entries@[j].0 != key,
            decreases self.entries@.len() - i,
        {
            if self.entries[i].0 == key {
                proof {
                    let c = choose|c: int| 0 <= c < self.entries@.len() && #[trigger] self.entries@[c].0 == key;
                    if c != i {
                        if c < i { assert(self.entries@[c].0 != key); }
                        else { assert(self.entries@[i as int].0 != self.entries@[c].0); }
                    }
                }
                return Some(i);
            }
            i = i + 1;
        }
        None
    }

    pub fn contains_key(&self, key: u128) -> (r: bool)
        requires
            self.wf(),
        ensures
            r == self@.contains_key(key),
    {
        self.index_of(key).is_some()
    }

    pub fn get(&self, key: u128) -> (r: Option<&V>)
        requires
            self.wf(),
        ensures
            match r {
                Some(v) => self@.contains_key(key) && self@[key] == *v,
                None => !self@.contains_key(key),
            },
    {
        match self.index_of(key) {
            Some(i) => Some(&self.entries[i].1),
            None => None,
        }
    }

    pub fn insert(&mut self, key: u128, value: V)
        requires
            old(self).wf(),
        ensures
            final(self).wf(),
            final(self)@ == old(self)@.insert(key, value),
    {
        match self.index_of(key) {
            Some(i) => {
                self.entries.set(i, (key, value));
                proof {
                    let v = self@;
                    let w = old(self)@.insert(key, value);
                    assert forall|k| #[trigger] v.contains_key(k) <==> w.contains_key(k) by {
                        if k != key && v.contains_key(k) {
                            let c = choose|c: int| 0 <= c < self.entries@.len() && #[trigger] self.entries@[c].0 == k;
                            assert(old(self).entries@[c].0 == k);
                        }
                        if k != key && w.contains_key(k) {
                            let c = choose|c: int| 0 <= c < old(self).entries@.len() && #[trigger] old(self).entries@[c].0 == k;
                            assert(self.entries@[c].0 == k);
                        }
                        if k == key {
                            assert(self.entries@[i as int].0 == k);
                        }
                    }
                    assert forall|k| #[trigger] v.contains_key(k) implies v[k] == w[k] by {
                        let c = choose|c: int| 0 <= c < self.entries@.len() && #[trigger] self.entries@[c].0 == k;
                        if k == key {
                            assert(c == i);
                        } else {
                            let d = choose|d: int| 0 <= d < old(self).entries@.len() && #[trigger] old(self).entries@[d].0 == k;
                            assert(self.entries@[d].0 == k);
                            assert(c == d);
                        }
                    }
                    assert(v =~= w);
                }
            },
            None => {
                self.entries.push((key, value));
                proof {
                    let n = old(self).entries@.len() as int;
                    let v = self@;
                    let w = old(self)@.insert(key, value);
                    assert forall|k| #[trigger] v.contains_key(k) <==> w.contains_key(k) by {
                        if k != key && v.contains_key(k) {
                            let c = choose|c: int| 0 <= c < self.entries@.len() && #[trigger] self.entries@[c].0 == k;
                            assert(c < n);
                            assert(old(self).entries@[c].0 == k);
                        }
                        if k != key && w.contains_key(k) {
                            let c = choose|c: int| 0 <= c < old(self).entries@.len() && #[trigger] old(self).entries@[c].0 == k;
                            assert(self.entries@[c].0 == k);
                        }
                        if k == key {
                            assert(self.entries@[n].0 == k);
                        }
                    }
                    assert forall|k| #[trigger] v.contains_key(k) implies v[k] == w[k] by {
                        let c = choose|c: int| 0 <= c < self.entries@.len() && #[trigger] self.entries@[c].0 == k;
                        if k == key {
                            if c < n { assert(old(self).entries@[c].0 == key); }
                        } else {
                            let d = choose|d: int| 0 <= d < old(self).entries@.len() && #[trigger] old(self).entries@[d].0 == k;
                            assert(self.entries@[d].0 == k);
                            assert(c == d);
                        }
                    }
                    assert(v =~= w);
                }
            },
        }
    }

    pub fn remove(&mut self, key: u128) -> (r: Option<V>)
        requires
            old(self).wf(),
        ensures
            final(self).wf(),
            final(self)@ == old(self)@.remove(key),
            match r {
                Some(v) => old(self)@.contains_key(key) && old(self)@[key] == v,
                None => !old(self)@.contains_key(key),
            },
    {
        match self.index_of(key) {
            Some(i) => {
                let (_, value) = self.entries.remove(i);
                proof {
                    let v = self@;
                    let w = old(self)@.remove(key);
                    let o = old(self).entries@;
                    assert forall|a: int, b: int| 0 <= a < b < self.entries@.len() implies #[trigger] self.entries@[a].0 != #[trigger] self.entries@[b].0 by {
                        let a2 = if a < i { a } else { a + 1 };
                        let b2 = if b < i { b } else { b + 1 };
                        assert(self.entries@[a] == o[a2]);
                        assert(self.entries@[b] == o[b2]);
                    }
                    assert forall|k| #[trigger] v.contains_key(k) <==> w.contains_key(k) by {
                        if v.contains_key(k) {
                            let c = choose|c: int| 0 <= c < self.entries@.len() && #[trigger] self.entries@[c].0 == k;
                            let c2 = if c < i { c } else { c + 1 };
                            assert(o[c2].0 == k);
                            assert(c2 != i);
                        }
                        if w.contains_key(k) {
                            let c = choose|c: int| 0 <= c < o.len() && #[trigger] o[c].0 == k;
                            assert(c != i);
                            let c2 = if c < i { c } else { c - 1 };
                            assert(self.entries@[c2].0 == k);
                        }
                    }
                    assert forall|k| #[trigger] v.contains_key(k) implies v[k] == w[k] by {
                        let c = choose|c: int| 0 <= c < self.entries@.len() && #[trigger] self.entries@[c].0 == k;
                        let c2 = if c < i { c } else { c + 1 };
                        assert(o[c2].0 == k);
                        let d = choose|d: int| 0 <= d < o.len() && #[trigger] o[d].0 == k;
                        assert(d == c2);
                    }
                    assert(v =~= w);
                }
                Some(value)
            },
            None => {
                assert(self@ =~= old(self)@.remove(key));
                None
            },
        }
    }

    /// The keys, in storage order.
    pub fn keys(&self) -> (ks: Vec<u128>)
        requires
            self.wf(),
        ensures
            ks@.len() == self.entries@.len(),
            forall|i: int| 0 <= i < ks@.len() ==> #[trigger] ks@[i] == self.entries@[i].0,
            forall|k: u128| self@.contains_key(k) <==> ks@.contains(k),
    {
        let mut ks: Vec<u128> = Vec::new();
        let mut i: usize = 0;
        while i < self.entries.len()
            invariant
                i <= self.entries@.len(),
                ks@.len() == i,
                forall|j: int| 0 <= j < i ==> #[trigger] ks@[j] == self.entries@[j].0,
            decreases self.entries@.len() - i,
        {
            ks.push(self.entries[i].0);
            i = i + 1;
        }
        proof {
            assert forall|k: u128| self@.contains_key(k) <==> ks@.contains(k) by {
                if self@.contains_key(k) {
                    let c = choose|c: int| 0 <= c < self.entries@.len() && #[trigger] self.entries@[c].0 == k;
                    assert(ks@[c] == k);
                }
                if ks@.contains(k) {
                    let c = choose|c: int| 0 <= c < ks@.len() && ks@[c] == k;
                    assert(self.entries@[c].0 == k);
                }
            }
        }
        ks
    }
}

/// A map keyed by strings, compared by their characters.
pub struct StrMap<V> {
    pub entries: Vec<(String, V)>,
}

impl<V> StrMap<V> {
    /// No key appears twice.
    pub open spec fn wf(&self) -> bool {
        forall|i: int, j: int| 0 <= i < j < self.entries@.len() ==> #[trigger] self.entries@[i].0@ != #[trigger] self.entries@[j].0@
    }

    pub open spec fn has(&self, k: Seq<char>) -> bool {
        exists|i: int| 0 <= i < self.entries@.len() && #[trigger] self.entries@[i].0@ == k
    }

    pub open spec fn view(&self) -> Map<Seq<char>, V> {
        Map::new(
            |k: Seq<char>| self.has(k),
            |k: Seq<char>| self.entries@[choose|i: int| 0 <= i < self.entries@.len() && #[trigger] self.entries@[i].0@ == k].1,
        )
    }

    pub fn new() -> (m: Self)
        ensures
            m.wf(),
            m@ == Map::<Seq<char>, V>::empty(),
            m.entries@.len() == 0,
    {
        let m = StrMap { entries: Vec::new() };
        assert(m@ =~= Map::empty());
        m
    }

    fn index_of(&self, key: &str) -> (r: Option<usize>)
        requires
            self.wf(),
        ensures
            match r {
                Some(i) => i < self.entries@.len() && self.entries@[i as int].0@ == key@
                    && self@.contains_key(key@) && self@[key@] == self.entries@[i as int].1,
                None => !self@.contains_key(key@),
            },
    {
        let want = crate::text::owned(key);
        let mut i: usize = 0;
        while i < self.entries.len()
            invariant
                self.wf(),
                want@ == key@,
                i <= self.entries@.len(),
                forall|j: int| 0 <= j < i ==> #[trigger] self.entries@[j].0@ != key@,
            decreases self.entries@.len() - i,
        {
            if self.entries[i].0.eq(&want) {
                proof {
                    let c = choose|c: int| 0 <= c < self.entries@.len() && #[trigger] self.entries@[c].0@ == key@;
                    if c != i {
                        if c < i { assert(self.entries@[c].0@ != key@); }
                        else { assert(self.entries@[i as int].0 != self.entries@[c].0); }
                    }
                }
                return Some(i);
            }
            i = i + 1;
        }
        None
    }

    pub fn contains_key(&self, key: &str) -> (r: bool)
        requires
            self.wf(),
        ensures
            r == self@.contains_key(key@),
    {
        self.index_of(key).is_some()
    }

    pub fn get(&self, key: &str) -> (r: Option<&V>)
        requires
            self.wf(),
        ensures
            match r {
                Some(v) => self@.contains_key(key@) && self@[key@] == *v,
                None => !self@.contains_key(key@),
            },
    {
        match self.index_of(key) {
            Some(i) => Some(&self.entries[i].1),
            None => None,
        }
    }

    pub fn insert(&mut self, key: String, value: V)
        requires
            old(self).wf(),
        ensures
            final(self).wf(),
            final(self)@ == old(self)@.insert(key@, value),
            old(self)@.contains_key(key@) ==> exists|i: int| 0 <= i < old(self).entries@.len()
                && #[trigger] old(self).entries@[i].0@ == key@ && final(self).entries@ == old(self).entries@.update(i, (key, value)),
            !old(self)@.contains_key(key@) ==> final(self).entries@ == old(self).entries@.push((key, value)),
    {
        let ghost kv = key@;
        let ghost kk = key;
        let ghost vv = value;
        match self.index_of(key.as_str()) {
            Some(i) => {
                self.entries.set(i, (key, value));
                proof {
                    assert(self.entries@ == old(self).entries@.update(i as int, (kk, vv)));
                    let v = self@;
                    let w = old(self)@.insert(kv, value);
                    assert forall|k| #[trigger] v.contains_key(k) <==> w.contains_key(k) by {
                        if k != kv && v.contains_key(k) {
                            let c = choose|c: int| 0 <= c < self.entries@.len() && #[trigger] self.entries@[c].0@ == k;
                            assert(old(self).entries@[c].0@ == k);
                        }
                        if k != kv && w.contains_key(k) {
                            let c = choose|c: int| 0 <= c < old(self).entries@.len() && #[trigger] old(self).entries@[c].0@ == k;
                            assert(self.entries@[c].0@ == k);
                        }
                        if k == kv {
                            assert(self.entries@[i as int].0@ == k);
                        }
                    }
                    assert forall|k| #[trigger] v.contains_key(k) implies v[k] == w[k] by {
                        let c = choose|c: int| 0 <= c < self.entries@.len() && #[trigger] self.entries@[c].0@ == k;
                        if k == kv {
                            assert(c == i);
                        } else {
                            let d = choose|d: int| 0 <= d < old(self).entries@.len() && #[trigger] old(self).entries@[d].0@ == k;
                            assert(self.entries@[d].0@ == k);
                            assert(c == d);
                        }
                    }
                    assert(v =~= w);
                }
            },
            None => {
                self.entries.push((key, value));
                proof {
                    let n = old(self).entries@.len() as int;
                    let v = self@;
                    let w = old(self)@.insert(kv, value);
                    assert forall|k| #[trigger] v.contains_key(k) <==> w.contains_key(k) by {
                        if k != kv && v.contains_key(k) {
                            let c = choose|c: int| 0 <= c < self.entries@.len() && #[trigger] self.entries@[c].0@ == k;
                            assert(c < n);
                            assert(old(self).entries@[c].0@ == k);
                        }
                        if k != kv && w.contains_key(k) {
                            let c = choose|c: int| 0 <= c < old(self).entries@.len() && #[trigger] old(self).entries@[c].0@ == k;
                            assert(self.entries@[c].0@ == k);
                        }
                        if k == kv {
                            assert(self.entries@[n].0@ == k);
                        }
                    }
                    assert forall|k| #[trigger] v.contains_key(k) implies v[k] == w[k] by {
                        let c = choose|c: int| 0 <= c < self.entries@.len() && #[trigger] self.entries@[c].0@ == k;
                        if k == kv {
                            if c < n { assert(old(self).entries@[c].0@ == kv); }
                        } else {
                            let d = choose|d: int| 0 <= d < old(self).entries@.len() && #[trigger] old(self).entries@[d].0@ == k;
                            assert(self.entries@[d].0@ == k);
                            assert(c == d);
                        }
                    }
                    assert(v =~= w);
                }
            },
        }
    }

    pub fn remove(&mut self, key: &str) -> (r: Option<V>)
        requires
            old(self).wf(),
        ensures
            final(self).wf(),
            final(self)@ == old(self)@.remove(key@),
            match r {
                Some(v) => old(self)@.contains_key(key@) && old(self)@[key@] == v,
                None => !old(self)@.contains_key(key@),
            },
    {
        match self.index_of(key) {
            Some(i) => {
                let (_, value) = self.entries.remove(i);
                proof {
                    let v = self@;
                    let w = old(self)@.remove(key@);
                    let o = old(self).entries@;
                    assert forall|a: int, b: int| 0 <= a < b < self.entries@.len() implies #[trigger] self.entries@[a].0@ != #[trigger] self.entries@[b].0@ by {
                        let a2 = if a < i { a } else { a + 1 };
                        let b2 = if b < i { b } else { b + 1 };
                        assert(self.entries@[a] == o[a2]);
                        assert(self.entries@[b] == o[b2]);
                    }
                    assert forall|k| #[trigger] v.contains_key(k) <==> w.contains_key(k) by {
                        if v.contains_key(k) {
                            let c = choose|c: int| 0 <= c < self.entries@.len() && #[trigger] self.entries@[c].0@ == k;
                            let c2 = if c < i { c } else { c + 1 };
                            assert(o[c2].0@ == k);
                            assert(c2 != i);
                        }
                        if w.contains_key(k) {
                            let c = choose|c: int| 0 <= c < o.len() && #[trigger] o[c].0@ == k;
                            assert(c != i);
                            let c2 = if c < i { c } else { c - 1 };
                            assert(self.entries@[c2].0@ == k);
                        }
                    }
                    assert forall|k| #[trigger] v.contains_key(k) implies v[k] == w[k] by {
                        let c = choose|c: int| 0 <= c < self.entries@.len() && #[trigger] self.entries@[c].0@ == k;
                        let c2 = if c < i { c } else { c + 1 };
                        assert(o[c2].0@ == k);
                        let d = choose|d: int| 0 <= d < o.len() && #[trigger] o[d].0@ == k;
                        assert(d == c2);
                    }
                    assert(v =~= w);
                }
                Some(value)
            },
            None => {
                assert(self@ =~= old(self)@.remove(key@));
                None
            },
        }
    }

}

/// A set of strings, compared by their characters.
pub struct StrSet {
    pub items: Vec<String>,
}

impl StrSet {
    pub open spec fn wf(&self) -> bool {
        forall|i: int, j: int| 0 <= i < j < self.items@.len() ==> #[trigger] self.items@[i]@ != #[trigger] self.items@[j]@
    }

    pub open spec fn view(&self) -> Set<Seq<char>> {
        Set::new(|k: Seq<char>| exists|i: int| 0 <= i < self.items@.len() && #[trigger] self.items@[i]@ == k)
    }

    pub fn new() -> (s: Self)
        ensures
            s.wf(),
            s@ == Set::<Seq<char>>::empty(),
            s.items@.len() == 0,
    {
        let s = StrSet { items: Vec::new() };
        assert(s@ =~= Set::empty());
        s
    }

    pub fn len(&self) -> (n: usize)
        ensures
            n == self.items@.len(),
    {
        self.items.len()
    }

    /// A well-formed set has as many members as stored strings.
    pub proof fn lemma_len(&self)
        requires
            self.wf(),
        ensures
            self@.finite(),
            self@.len() == self.items@.len(),
    {
        let v = self.items@.map_values(|s: String| s@);
        assert forall|i: int, j: int| 0 <= i < v.len() && 0 <= j < v.len() && i != j implies v[i] != v[j] by {
            if i < j {
                assert(self.items@[i]@ != self.items@[j]@);
            } else {
                assert(self.items@[j]@ != self.items@[i]@);
            }
        }
        assert(v.no_duplicates());
        assert forall|k: Seq<char>| #[trigger] self@.contains(k) <==> v.to_set().contains(k) by {
            if self@.contains(k) {
                let i = choose|i: int| 0 <= i < self.items@.len() && #[trigger] self.items@[i]@ == k;
                assert(v[i] == k);
            }
            if v.to_set().contains(k) {
                let i = choose|i: int| 0 <= i < v.len() && v[i] == k;
                assert(self.items@[i]@ == k);
            }
        }
        assert(self@ =~= v.to_set());
        v.unique_seq_to_set();
        vstd::seq_lib::seq_to_set_is_finite(v);
    }

    fn index_of(&self, key: &str) -> (r: Option<usize>)
        requires
            self.wf(),
        ensures
            match r {
                Some(i) => i < self.items@.len() && self.items@[i as int]@ == key@ && self@.contains(key@),
                None => !self@.contains(key@),
            },
    {
        let want = crate::text::owned(key);
        let mut i: usize = 0;
        while i < self.items.len()
            invariant
                i <= self.items@.len(),
                want@ == key@,
                forall|j: int| 0 <= j < i ==> #[trigger] self.items@[j]@ != key@,
            decreases self.items@.len() - i,
        {
            if self.items[i].eq(&want) {
                return Some(i);
            }
            i = i + 1;
        }
        None
    }

    pub fn contains(&self, key: &str) -> (r: bool)
        requires
            self.wf(),
        ensures
            r == self@.contains(key@),
    {
        self.index_of(key).is_some()
    }

    /// Add `key` unless present.
    pub fn insert(&mut self, key: String)
        requires
            old(self).wf(),
        ensures
            final(self).wf(),
            final(self)@ == old(self)@.insert(key@),
            final(self).items@.len() == old(self).items@.len() + if old(self)@.contains(key@) { 0int } else { 1int },
    {
        if self.index_of(key.as_str()).is_some() {
            assert(self@ =~= old(self)@.insert(key@));
            return;
        }
        let ghost kv = key@;
        self.items.push(key);
        proof {
            let n = old(self).items@.len() as int;
            assert forall|k: Seq<char>| #[trigger] self@.contains(k) <==> old(self)@.insert(kv).contains(k) by {
                if self@.contains(k) {
                    let c = choose|c: int| 0 <= c < self.items@.len() && #[trigger] self.items@[c]@ == k;
                    if c < n { assert(old(self).items@[c]@ == k); }
                }
                if old(self)@.contains(k) {
                    let c = choose|c: int| 0 <= c < old(self).items@.len() && #[trigger] old(self).items@[c]@ == k;
                    assert(self.items@[c]@ == k);
                }
                if k == kv {
                    assert(self.items@[n]@ == k);
                }
            }
            assert(self@ =~= old(self)@.insert(kv));
        }
    }

    /// Remove `key`; whether it was present.
    pub fn remove(&mut self, key: &str) -> (was: bool)
        requires
            old(self).wf(),
        ensures
            final(self).wf(),
            final(self)@ == old(self)@.remove(key@),
            was == old(self)@.contains(key@),
            final(self).items@.len() == old(self).items@.len() - if was { 1int } else { 0int },
    {
        match self.index_of(key) {
            Some(i) => {
                self.items.remove(i);
                proof {
                    let o = old(self).items@;
                    assert forall|a: int, b: int| 0 <= a < b < self.items@.len() implies #[trigger] self.items@[a]@ != #[trigger] self.items@[b]@ by {
                        let a2 = if a < i { a } else { a + 1 };
                        let b2 = if b < i { b } else { b + 1 };
                        assert(self.items@[a] == o[a2]);
                        assert(self.items@[b] == o[b2]);
                    }
                    assert forall|k: Seq<char>| #[trigger] self@.contains(k) <==> old(self)@.remove(key@).contains(k) by {
                        if self@.contains(k) {
                            let c = choose|c: int| 0 <= c < self.items@.len() && #[trigger] self.items@[c]@ == k;
                            let c2 = if c < i { c } else { c + 1 };
                            assert(o[c2]@ == k);
                            assert(c2 != i);
                        }
                        if old(self)@.remove(key@).contains(k) {
                            let c = choose|c: int| 0 <= c < o.len() && #[trigger] o[c]@ == k;
                            assert(c != i);
                            let c2 = if c < i { c } else { c - 1 };
                            assert(self.items@[c2]@ == k);
                        }
                    }
                    assert(self@ =~= old(self)@.remove(key@));
                }
                true
            },
            None => {
                assert(self@ =~= old(self)@.remove(key@));
                false
            },
        }
    }
}

/// A set of character ids.
pub struct IdSet {
    pub ids: Vec<i64>,
}

impl IdSet {
    pub open spec fn wf(&self) -> bool {
        forall|i: int, j: int| 0 <= i < j < self.ids@.len() ==> #[trigger] self.ids@[i] != #[trigger] self.ids@[j]
    }

    pub open spec fn view(&self) -> Set<i64> {
        self.ids@.to_set()
    }

    pub fn new() -> (s: Self)
        ensures
            s.wf(),
            s@ == Set::<i64>::empty(),
            s.ids@.len() == 0,
    {
        let s = IdSet { ids: Vec::new() };
        assert(s@ =~= Set::empty());
        s
    }

    pub fn len(&self) -> (n: usize)
        ensures
            n == self.ids@.len(),
    {
        self.ids.len()
    }

    pub fn contains(&self, id: i64) -> (r: bool)
        ensures
            r == self@.contains(id),
    {
        let mut i: usize = 0;
        while i < self.ids.len()
            invariant
                i <= self.ids@.len(),
                forall|j: int| 0 <= j < i ==> #[trigger] self.ids@[j] != id,
            decreases self.ids@.len() - i,
        {
            if self.ids[i] == id {
                proof { assert(self.ids@.contains(id)); }
                return true;
            }
            i = i + 1;
        }
        false
    }

    /// Add `id` unless present.
    pub fn insert(&mut self, id: i64)
        requires
            old(self).wf(),
        ensures
            final(self).wf(),
            final(self)@ == old(self)@.insert(id),
            final(self).ids@.len() == old(self).ids@.len() + if old(self)@.contains(id) { 0int } else { 1int },
    {
        if self.contains(id) {
            assert(self@ =~= old(self)@.insert(id));
            return;
        }
        self.ids.push(id);
        proof {
            assert forall|x: i64| #[trigger] self@.contains(x) <==> old(self)@.insert(id).contains(x) by {
                if self@.contains(x) {
                    let c = choose|c: int| 0 <= c < self.ids@.len() && self.ids@[c] == x;
                    if c < old(self).ids@.len() { assert(old(self).ids@.contains(x)); }
                }
                if old(self)@.contains(x) {
                    let c = choose|c: int| 0 <= c < old(self).ids@.len() && old(self).ids@[c] == x;
                    assert(self.ids@[c] == x);
                }
                if x == id {
                    assert(self.ids@[self.ids@.len() - 1] == x);
                }
            }
            assert(self@ =~= old(self)@.insert(id));
            assert forall|a: int, b: int| 0 <= a < b < self.ids@.len() implies #[trigger] self.ids@[a] != #[trigger] self.ids@[b] by {
                if b == self.ids@.len() - 1 {
                    assert(old(self).ids@.contains(self.ids@[a]));
                }
            }
        }
    }

    /// Whether both sets hold the same ids.
    pub fn same_ids(&self, other: &IdSet) -> (r: bool)
        requires
            self.wf(),
            other.wf(),
        ensures
            r == (self@ == other@),
    {
        let mut i: usize = 0;
        while i < self.ids.len()
            invariant
                i <= self.ids@.len(),
                forall|j: int| 0 <= j < i ==> other@.contains(#[trigger] self.ids@[j]),
            decreases self.ids@.len() - i,
        {
            if !other.contains(self.ids[i]) {
                proof {
                    assert(self@.contains(self.ids@[i as int]));
                }
                return false;
            }
            i = i + 1;
        }
        let mut j: usize = 0;
        while j < other.ids.len()
            invariant
                j <= other.ids@.len(),
                forall|a: int| 0 <= a < self.ids@.len() ==> other@.contains(#[trigger] self.ids@[a]),
                forall|b: int| 0 <= b < j ==> self@.contains(#[trigger] other.ids@[b]),
            decreases other.ids@.len() - j,
        {
            if !self.contains(other.ids[j]) {
                proof {
                    assert(other@.contains(other.ids@[j as int]));
                }
                return false;
            }
            j = j + 1;
        }
        proof {
            assert forall|x: i64| self@.contains(x) <==> other@.contains(x) by {
                if self@.contains(x) {
                    let c = choose|c: int| 0 <= c < self.ids@.len() && self.ids@[c] == x;
                    assert(other@.contains(self.ids@[c]));
                }
                if other@.contains(x) {
                    let c = choose|c: int| 0 <= c < other.ids@.len() && other.ids@[c] == x;
                    assert(self@.contains(other.ids@[c]));
                }
            }
            assert(self@ =~= other@);
        }
        true
    }

    /// The ids in increasing order.
    pub fn sorted(&self) -> (out: Vec<i64>)
        requires
            self.wf(),
        ensures
            forall|a: int, b: int| 0 <= a < b < out@.len() ==> out@[a] < out@[b],
            forall|x: i64| #[trigger] out@.contains(x) <==> self@.contains(x),
    {
        let mut out: Vec<i64> = Vec::new();
        let n = self.ids.len();
        let mut i: usize = 0;
        while i < n
            invariant
                n == self.ids@.len(),
                self.wf(),
                i <= n,
                forall|a: int, b: int| 0 <= a < b < out@.len() ==> out@[a] < out@[b],
                forall|x: i64| #[trigger] out@.contains(x) <==> self.ids@.subrange(0, i as int).contains(x),
            decreases n - i,
        {
            let x = self.ids[i];
            proof {
                assert(!self.ids@.subrange(0, i as int).contains(x)) by {
                    if self.ids@.subrange(0, i as int).contains(x) {
                        let c = choose|c: int| 0 <= c < i && self.ids@.subrange(0, i as int)[c] == x;
                        assert(self.ids@[c] == self.ids@[i as int]);
                    }
                }
            }
            let mut p: usize = 0;
            while p < out.len() && out[p] < x
                invariant
                    p <= out@.len(),
                    forall|a: int| 0 <= a < p ==> out@[a] < x,
                decreases out@.len() - p,
            {
                p = p + 1;
            }
            let ghost prev = out@;
            proof {
                if p < prev.len() {
                    assert(prev[p as int] != x) by {
                        assert(!prev.contains(x));
                    }
                }
            }
            out.insert(p, x);
            proof {
                assert forall|a: int, b: int| 0 <= a < b < out@.len() implies out@[a] < out@[b] by {
                    if b < p {
                    } else if b == p {
                    } else if a < p {
                        assert(out@[b] == prev[b - 1]);
                        if p < prev.len() { assert(prev[p as int] > x); }
                    } else if a == p {
                        assert(out@[b] == prev[b - 1]);
                        assert(prev[p as int] > x);
                        if b - 1 > p { assert(prev[p as int] < prev[b - 1]); }
                    } else {
                        assert(out@[a] == prev[a - 1]);
                        assert(out@[b] == prev[b - 1]);
                    }
                }
                assert(self.ids@.subrange(0, i + 1) =~= self.ids@.subrange(0, i as int).push(x));
                assert forall|y: i64| #[trigger] out@.contains(y) <==> self.ids@.subrange(0, i + 1).contains(y) by {
                    let pre = self.ids@.subrange(0, i as int);
                    if out@.contains(y) {
                        let c = choose|c: int| 0 <= c < out@.len() && out@[c] == y;
                        if c < p { assert(prev[c] == y); assert(prev.contains(y)); }
                        else if c > p { assert(prev[c - 1] == y); assert(prev.contains(y)); }
                        if y != x { assert(pre.contains(y)); let d = choose|d: int| 0 <= d < pre.len() && pre[d] == y; assert(pre.push(x)[d] == y); }
                        else { assert(pre.push(x)[pre.len() as int] == y); }
                    }
                    let full = self.ids@.subrange(0, i + 1);
                    if full.contains(y) {
                        let c = choose|c: int| 0 <= c < full.len() && #[trigger] full[c] == y;
                        if c < i {
                            assert(pre[c] == y);
                            assert(prev.contains(y));
                            let d = choose|d: int| 0 <= d < prev.len() && prev[d] == y;
                            if d < p { assert(out@[d] == y); } else { assert(out@[d + 1] == y); }
                        } else {
                            assert(out@[p as int] == y);
                        }
                    }
                }
            }
            i = i + 1;
        }
        proof {
            assert(self.ids@.subrange(0, n as int) =~= self.ids@);
        }
        out
    }
}

/// Filtering keeps the kept elements' order: two positions of the filtered
/// sequence come from increasing positions of the original.
pub proof fn lemma_filter_keeps_order<A>(s: Seq<A>, pred: spec_fn(A) -> bool, a: int, b: int)
    requires
        0 <= a < b < s.filter(pred).len(),
    ensures
        exists|i: int, j: int| 0 <= i < j < s.len() && s[i] == s.filter(pred)[a] && s[j] == s.filter(pred)[b],
    decreases s.len(),
{
    reveal(Seq::filter);
    let rest = s.drop_last();
    if s.len() > 0 {
        if b < rest.filter(pred).len() {
            assert(s.filter(pred)[a] == rest.filter(pred)[a]);
            assert(s.filter(pred)[b] == rest.filter(pred)[b]);
            lemma_filter_keeps_order(rest, pred, a, b);
            let (i, j) = choose|i: int, j: int| 0 <= i < j < rest.len() && rest[i] == rest.filter(pred)[a] && rest[j] == rest.filter(pred)[b];
            assert(s[i] == rest[i] && s[j] == rest[j]);
        } else {
            assert(s.filter(pred)[b] == s.last());
            assert(s.filter(pred)[a] == rest.filter(pred)[a]);
            assert(rest.filter(pred).contains(rest.filter(pred)[a]));
            rest.lemma_filter_contains_rev(pred, rest.filter(pred)[a]);
            let i = choose|i: int| 0 <= i < rest.len() && rest[i] == rest.filter(pred)[a];
            assert(s[i] == rest[i]);
            assert(s[s.len() - 1] == s.last());
        }
    }
}

} // verus!
