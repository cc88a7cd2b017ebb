//! Consent requests (party invites, friend requests) awaiting an answer.
use vstd::prelude::*;
use crate::clock::now_ms;

verus! {

/// A player, identified by the 128 bits of their session id.
pub type PlayerId = u128;

/// A request from one player to another awaiting an answer.
pub struct PendingConsent {
    /// When the request stops being answerable, in clock milliseconds.
    pub expires_at_ms: u64,
    /// A declined request stays (answered) until it expires: removing it
    /// would hand the spam brake back to the asker on every decline.
    pub answered: bool,
}

/// The expiry of a request made at `now` with lifetime `ttl`, saturating at
/// the end of the clock.
pub open spec fn expiry(now: u64, ttl: u64) -> u64 {
    if now + ttl > u64::MAX { u64::MAX } else { (now + ttl) as u64 }
}

impl PendingConsent {
    /// A fresh, unanswered request made at `now` that lives for `ttl_ms`.
    pub fn new_at(now: u64, ttl_ms: u64) -> (r: Self)
        ensures
            r.expires_at_ms == expiry(now, ttl_ms),
            !r.answered,
    {
        let expires_at_ms = if now > u64::MAX - ttl_ms { u64::MAX } else { now + ttl_ms };
        PendingConsent { expires_at_ms, answered: false }
    }

    /// A fresh, unanswered request made now that lives for `ttl_ms`.
    pub fn new(ttl_ms: u64) -> (r: Self)
        ensures
            !r.answered,
            r.expires_at_ms >= ttl_ms,
    {
        Self::new_at(now_ms(), ttl_ms)
    }

    /// Still open to an answer at `now`: neither declined nor expired.
    pub open spec fn awaiting_spec(&self, now: u64) -> bool {
        !self.answered && self.expires_at_ms > now
    }

    /// Still open to an answer at `now`.
    pub fn awaiting_at(&self, now: u64) -> (r: bool)
        ensures
            r == self.awaiting_spec(now),
    {
        !self.answered && self.expires_at_ms > now
    }

    /// Still open to an answer now: neither declined nor expired. An answered
    /// request is never awaiting, whatever the clock reads.
    pub fn awaiting(&self) -> (r: bool)
        ensures
            exists|now: u64| r == self.awaiting_spec(now),
    {
        let now = now_ms();
        self.awaiting_at(now)
    }
}

/// Requests keyed by (asker, asked); at most one per pair.
pub struct ConsentTable {
    pub entries: Vec<((PlayerId, PlayerId), PendingConsent)>,
}

impl ConsentTable {
    /// No pair appears twice.
    pub open spec fn wf(&self) -> bool {
        forall|i: int, j: int| 0 <= i < j < self.entries@.len() ==> #[trigger] self.entries@[i].0 != #[trigger] self.entries@[j].0
    }

    /// The requests by pair.
    pub open spec fn view(&self) -> Map<(PlayerId, PlayerId), PendingConsent> {
        Map::new(
            |k: (PlayerId, PlayerId)| exists|i: int| 0 <= i < self.entries@.len() && #[trigger] self.entries@[i].0 == k,
            |k: (PlayerId, PlayerId)| self.entries@[choose|i: int| 0 <= i < self.entries@.len() && #[trigger] self.entries@[i].0 == k].1,
        )
    }

    pub fn new() -> (t: Self)
        ensures
            t.wf(),
            t.view() == Map::<(PlayerId, PlayerId), PendingConsent>::empty(),
    {
        let t = ConsentTable { entries: Vec::new() };
        assert(t.view() =~= Map::empty());
        t
    }

    fn index_of(&self, key: (PlayerId, PlayerId)) -> (r: Option<usize>)
        requires
            self.wf(),
        ensures
            match r {
                Some(i) => i < self.entries@.len() && self.entries@[i as int].0 == key
                    && self.view().contains_key(key) && self.view()[key] == self.entries@[i as int].1,
                None => !self.view().contains_key(key),
            },
    {
        let mut i: usize = 0;
        while i < self.entries.len()
            invariant
                self.wf(),
                i <= self.entries@.len(),
                forall|j: int| 0 <= j < i ==> #[trigger] self.entries@[j].0 != key,
            decreases self.entries@.len() - i,
        {
            if self.entries[i].0.0 == key.0 && self.entries[i].0.1 == key.1 {
                proof {
                    let c = choose|c: int| 0 <= c < self.entries@.len() && #[trigger] self.entries@[c].0 == key;
                    if c != i {
                        if c < i { assert(self.entries@[c].0 != key); }
                        else { assert(self.entries@[i as int].0 != self.entries@[c].0); }
                    }
                }
                return Some(i);
            }
            i = i + 1;
        }
        None
    }

    /// The request under `key`, if any.
    pub fn get(&self, key: (PlayerId, PlayerId)) -> (r: Option<&PendingConsent>)
        requires
            self.wf(),
        ensures
            match r {
                Some(c) => self.view().contains_key(key) && self.view()[key] == *c,
                None => !self.view().contains_key(key),
            },
    {
        match self.index_of(key) {
            Some(i) => Some(&self.entries[i].1),
            None => None,
        }
    }

    /// Record `consent` under `key`, replacing any earlier request.
    pub fn insert(&mut self, key: (PlayerId, PlayerId), consent: PendingConsent)
        requires
            old(self).wf(),
        ensures
            final(self).wf(),
            final(self).view() == old(self).view().insert(key, consent),
    {
        match self.index_of(key) {
            Some(i) => {
                self.entries.set(i, (key, consent));
                proof {
                    let v = self.view();
                    let w = old(self).view().insert(key, consent);
                    assert forall|k| #[trigger] v.contains_key(k) <==> w.contains_key(k) by {
                        if k != key && v.contains_key(k) {
                            let c = choose|c: int| 0 <= c < self.entries@.len() && #[trigger] self.entries@[c].0 == k;
                            assert(old(self).entries@[c].0 == k);
                        }
                        if k != key && w.contains_key(k) {
                            let c = choose|c: int| 0 <= c < old(self).entries@.len() && #[trigger] old(self).entries@[c].0 == k;
                            assert(self.entries@[c].0 == k);
                        }
                        if k == key {
                            assert(self.entries@[i as int].0 == k);
                        }
                    }
                    assert forall|k| #[trigger] v.contains_key(k) implies v[k] == w[k] by {
                        let c = choose|c: int| 0 <= c < self.entries@.len() && #[trigger] self.entries@[c].0 == k;
                        if k == key {
                            assert(c == i);
                        } else {
                            let d = choose|d: int| 0 <= d < old(self).entries@.len() && #[trigger] old(self).entries@[d].0 == k;
                            assert(self.entries@[d].0 == k);
                            assert(c == d);
                        }
                    }
                    assert(v =~= w);
                }
            },
            None => {
                self.entries.push((key, consent));
                proof {
                    let n = old(self).entries@.len() as int;
                    let v = self.view();
                    let w = old(self).view().insert(key, consent);
                    assert forall|k| #[trigger] v.contains_key(k) <==> w.contains_key(k) by {
                        if k != key && v.contains_key(k) {
                            let c = choose|c: int| 0 <= c < self.entries@.len() && #[trigger] self.entries@[c].0 == k;
                            assert(c < n);
                            assert(old(self).entries@[c].0 == k);
                        }
                        if k != key && w.contains_key(k) {
                            let c = choose|c: int| 0 <= c < old(self).entries@.len() && #[trigger] old(self).entries@[c].0 == k;
                            assert(self.entries@[c].0 == k);
                        }
                        if k == key {
                            assert(self.entries@[n].0 == k);
                        }
                    }
                    assert forall|k| #[trigger] v.contains_key(k) implies v[k] == w[k] by {
                        let c = choose|c: int| 0 <= c < self.entries@.len() && #[trigger] self.entries@[c].0 == k;
                        if k == key {
                            if c < n { assert(old(self).entries@[c].0 == key); }
                        } else {
                            let d = choose|d: int| 0 <= d < old(self).entries@.len() && #[trigger] old(self).entries@[d].0 == k;
                            assert(self.entries@[d].0 == k);
                            assert(c == d);
                        }
                    }
                    assert(v =~= w);
                }
            },
        }
    }

    /// Drop the request under `key`, if any.
    pub fn remove(&mut self, key: (PlayerId, PlayerId))
        requires
            old(self).wf(),
        ensures
            final(self).wf(),
            final(self).view() == old(self).view().remove(key),
    {
        match self.index_of(key) {
            Some(i) => {
                self.entries.remove(i);
                proof {
                    let v = self.view();
                    let w = old(self).view().remove(key);
                    let o = old(self).entries@;
                    assert forall|a: int, b: int| 0 <= a < b < self.entries@.len() implies #[trigger] self.entries@[a].0 != #[trigger] self.entries@[b].0 by {
                        let a2 = if a < i { a } else { a + 1 };
                        let b2 = if b < i { b } else { b + 1 };
                        assert(self.entries@[a] == o[a2]);
                        assert(self.entries@[b] == o[b2]);
                    }
                    assert forall|k| #[trigger] v.contains_key(k) <==> w.contains_key(k) by {
                        if v.contains_key(k) {
                            let c = choose|c: int| 0 <= c < self.entries@.len() && #[trigger] self.entries@[c].0 == k;
                            let c2 = if c < i { c } else { c + 1 };
                            assert(o[c2].0 == k);
                            assert(c2 != i);
                        }
                        if w.contains_key(k) {
                            let c = choose|c: int| 0 <= c < o.len() && #[trigger] o[c].0 == k;
                            assert(c != i);
                            let c2 = if c < i { c } else { c - 1 };
                            assert(self.entries@[c2].0 == k);
                        }
                    }
                    assert forall|k| #[trigger] v.contains_key(k) implies v[k] == w[k] by {
                        let c = choose|c: int| 0 <= c < self.entries@.len() && #[trigger] self.entries@[c].0 == k;
                        let c2 = if c < i { c } else { c + 1 };
                        assert(o[c2].0 == k);
                        let d = choose|d: int| 0 <= d < o.len() && #[trigger] o[d].0 == k;
                        assert(d == c2);
                    }
                    assert(v =~= w);
                }
            },
            None => {
                assert(self.view() =~= old(self).view().remove(key));
            },
        }
    }
}

/// Requests on record from `from`, counted over the table's entries.
pub open spec fn count_from(entries: Seq<((PlayerId, PlayerId), PendingConsent)>, from: PlayerId) -> nat
    decreases entries.len(),
{
    if entries.len() == 0 {
        0
    } else {
        count_from(entries.drop_last(), from) + if entries.last().0.0 == from { 1nat } else { 0nat }
    }
}

/// The requests of `m` still alive at `now`: those expiring after it.
pub open spec fn swept(m: Map<(PlayerId, PlayerId), PendingConsent>, now: u64) -> Map<(PlayerId, PlayerId), PendingConsent> {
    Map::new(|k: (PlayerId, PlayerId)| m.contains_key(k) && m[k].expires_at_ms > now, |k: (PlayerId, PlayerId)| m[k])
}

impl ConsentTable {
    /// Requests on record from `from`.
    pub open spec fn pending_from(&self, from: PlayerId) -> nat {
        count_from(self.entries@, from)
    }

    /// Keep only the entries for which `keep` holds (decided per entry by
    /// `expired_before`/`involving`): the shared loop of the two sweeps.
    fn retain_where(&mut self, now: u64, involving: Option<PlayerId>)
        requires
            old(self).wf(),
        ensures
            final(self).wf(),
            forall|k: (PlayerId, PlayerId)| #[trigger] final(self).view().contains_key(k) <==>
                (old(self).view().contains_key(k) && kept(k, old(self).view()[k], now, involving)),
            forall|k: (PlayerId, PlayerId)| #[trigger] final(self).view().contains_key(k) ==> final(self).view()[k] == old(self).view()[k],
            forall|e| #[trigger] final(self).entries@.contains(e) ==> kept(e.0, e.1, now, involving),
            final(self).entries@ == old(self).entries@.filter(|e: ((PlayerId, PlayerId), PendingConsent)| kept(e.0, e.1, now, involving)),
    {
        let mut kept_entries: Vec<((PlayerId, PlayerId), PendingConsent)> = Vec::new();
        let mut i: usize = 0;
        let n = self.entries.len();
        while i < n
            invariant
                n == self.entries@.len(),
                self.wf(),
                i <= n,
                forall|a: int| #![trigger kept_entries@[a]] 0 <= a < kept_entries@.len() ==> exists|j: int| 0 <= j < i && #[trigger] self.entries@[j] == kept_entries@[a],
                forall|a: int| 0 <= a < kept_entries@.len() ==> kept(#[trigger] kept_entries@[a].0, kept_entries@[a].1, now, involving),
                forall|j: int| 0 <= j < i && kept(#[trigger] self.entries@[j].0, self.entries@[j].1, now, involving)
                    ==> kept_entries@.contains(self.entries@[j]),
                forall|a: int, b: int| 0 <= a < b < kept_entries@.len() ==> #[trigger] kept_entries@[a].0 != #[trigger] kept_entries@[b].0,
                kept_entries@ == self.entries@.subrange(0, i as int).filter(|e: ((PlayerId, PlayerId), PendingConsent)| kept(e.0, e.1, now, involving)),
            decreases n - i,
        {
            proof {
                assert(self.entries@.subrange(0, i + 1) =~= self.entries@.subrange(0, i as int).push(self.entries@[i as int]));
                self.entries@.subrange(0, i as int).lemma_filter_push(self.entries@[i as int], |e: ((PlayerId, PlayerId), PendingConsent)| kept(e.0, e.1, now, involving));
            }
            let e = &self.entries[i];
            let keep = match involving {
                Some(p) => e.0.0 != p && e.0.1 != p,
                None => e.1.expires_at_ms > now,
            };
            if keep {
                let copy = (e.0, PendingConsent { expires_at_ms: e.1.expires_at_ms, answered: e.1.answered });
                proof {
                    assert forall|a: int| 0 <= a < kept_entries@.len() implies kept_entries@[a].0 != copy.0 by {
                        let j = choose|j: int| 0 <= j < i && #[trigger] self.entries@[j] == kept_entries@[a];
                        assert(self.entries@[j].0 != self.entries@[i as int].0);
                    }
                }
                let ghost prev = kept_entries@;
                kept_entries.push(copy);
                proof {
                    assert forall|a: int| #![trigger kept_entries@[a]] 0 <= a < kept_entries@.len() implies exists|j: int| 0 <= j < i + 1 && #[trigger] self.entries@[j] == kept_entries@[a] by {
                        if a < prev.len() {
                            assert(kept_entries@[a] == prev[a]);
                            let j = choose|j: int| 0 <= j < i && #[trigger] self.entries@[j] == prev[a];
                            assert(self.entries@[j] == kept_entries@[a]);
                        } else {
                            assert(self.entries@[i as int] == kept_entries@[a]);
                        }
                    }
                    assert forall|j: int| 0 <= j < i + 1 && kept(#[trigger] self.entries@[j].0, self.entries@[j].1, now, involving)
                        implies kept_entries@.contains(self.entries@[j]) by {
                        if j < i {
                            assert(prev.contains(self.entries@[j]));
                            let a = choose|a: int| 0 <= a < prev.len() && prev[a] == self.entries@[j];
                            assert(kept_entries@[a] == self.entries@[j]);
                        } else {
                            assert(kept_entries@[prev.len() as int] == self.entries@[j]);
                        }
                    }
                }
            } else {
                proof {
                    assert forall|a: int| #![trigger kept_entries@[a]] 0 <= a < kept_entries@.len() implies exists|j: int| 0 <= j < i + 1 && #[trigger] self.entries@[j] == kept_entries@[a] by {
                        let j = choose|j: int| 0 <= j < i && #[trigger] self.entries@[j] == kept_entries@[a];
                        assert(self.entries@[j] == kept_entries@[a]);
                    }
                }
            }
            i = i + 1;
        }
        let ghost o = self.entries@;
        let ghost ov = self.view();
        proof {
            assert(o.subrange(0, n as int) =~= o);
        }
        self.entries = kept_entries;
        proof {
            let v = self.view();
            assert forall|k: (PlayerId, PlayerId)| #[trigger] v.contains_key(k) <==> (ov.contains_key(k) && kept(k, ov[k], now, involving)) by {
                if v.contains_key(k) {
                    let a = choose|a: int| 0 <= a < self.entries@.len() && #[trigger] self.entries@[a].0 == k;
                    let j = choose|j: int| 0 <= j < n && #[trigger] o[j] == self.entries@[a];
                    assert(o[j].0 == k);
                    let d = choose|d: int| 0 <= d < o.len() && #[trigger] o[d].0 == k;
                    assert(d == j);
                }
                if ov.contains_key(k) && kept(k, ov[k], now, involving) {
                    let d = choose|d: int| 0 <= d < o.len() && #[trigger] o[d].0 == k;
                    assert(self.entries@.contains(o[d]));
                    let a = choose|a: int| 0 <= a < self.entries@.len() && self.entries@[a] == o[d];
                    assert(self.entries@[a].0 == k);
                }
            }
            assert forall|k: (PlayerId, PlayerId)| #[trigger] v.contains_key(k) implies v[k] == ov[k] by {
                let a = choose|a: int| 0 <= a < self.entries@.len() && #[trigger] self.entries@[a].0 == k;
                let j = choose|j: int| 0 <= j < n && #[trigger] o[j] == self.entries@[a];
                let d = choose|d: int| 0 <= d < o.len() && #[trigger] o[d].0 == k;
                assert(o[j].0 == k);
                assert(d == j);
            }
            assert forall|e| #[trigger] self.entries@.contains(e) implies kept(e.0, e.1, now, involving) by {
                let a = choose|a: int| 0 <= a < self.entries@.len() && self.entries@[a] == e;
            }
        }
    }

    /// Drop expired requests and count what `requester` still has out.
    pub fn sweep_and_count(&mut self, requester: PlayerId, now: u64) -> (pending: usize)
        requires
            old(self).wf(),
        ensures
            final(self).wf(),
            forall|k: (PlayerId, PlayerId)| #[trigger] final(self).view().contains_key(k) <==>
                (old(self).view().contains_key(k) && old(self).view()[k].expires_at_ms > now),
            forall|k: (PlayerId, PlayerId)| #[trigger] final(self).view().contains_key(k) ==> final(self).view()[k] == old(self).view()[k],
            pending == final(self).pending_from(requester),
            final(self).entries@ == old(self).entries@.filter(|e: ((PlayerId, PlayerId), PendingConsent)| e.1.expires_at_ms > now),
            final(self).view() == swept(old(self).view(), now),
    {
        self.retain_where(now, None);
        proof {
            assert(self.view() =~= swept(old(self).view(), now));
            assert(old(self).entries@.filter(|e: ((PlayerId, PlayerId), PendingConsent)| kept(e.0, e.1, now, None))
                =~= old(self).entries@.filter(|e: ((PlayerId, PlayerId), PendingConsent)| e.1.expires_at_ms > now)) by {
                assert((|e: ((PlayerId, PlayerId), PendingConsent)| kept(e.0, e.1, now, None))
                    =~= (|e: ((PlayerId, PlayerId), PendingConsent)| e.1.expires_at_ms > now));
            }
        }
        let mut count: usize = 0;
        let mut i: usize = 0;
        while i < self.entries.len()
            invariant
                i <= self.entries@.len(),
                count == count_from(self.entries@.subrange(0, i as int), requester),
                count <= i,
            decreases self.entries@.len() - i,
        {
            proof {
                assert(self.entries@.subrange(0, i + 1).drop_last() =~= self.entries@.subrange(0, i as int));
            }
            if self.entries[i].0.0 == requester {
                count = count + 1;
            }
            i = i + 1;
        }
        proof {
            assert(self.entries@.subrange(0, self.entries@.len() as int) =~= self.entries@);
        }
        count
    }

    /// Drop every request `player` made or received.
    pub fn remove_involving(&mut self, player: PlayerId)
        requires
            old(self).wf(),
        ensures
            final(self).wf(),
            forall|k: (PlayerId, PlayerId)| #[trigger] final(self).view().contains_key(k) <==>
                (old(self).view().contains_key(k) && k.0 != player && k.1 != player),
            forall|k: (PlayerId, PlayerId)| #[trigger] final(self).view().contains_key(k) ==> final(self).view()[k] == old(self).view()[k],
    {
        self.retain_where(0, Some(player));
    }
}

/// Whether a sweep keeps an entry: with `involving` set, the entries that
/// do not involve that player; otherwise the entries not yet expired at
/// `now`.
pub open spec fn kept(k: (PlayerId, PlayerId), c: PendingConsent, now: u64, involving: Option<PlayerId>) -> bool {
    match involving {
        Some(p) => k.0 != p && k.1 != p,
        None => c.expires_at_ms > now,
    }
}

/// Answer the request under `key` at `now`: accepting consumes it, declining
/// keeps it (answered) as the spam brake. False, with nothing changed, when
/// there was nothing usable to answer.
pub fn answer_consent_at(requests: &mut ConsentTable, key: (PlayerId, PlayerId), accept: bool, now: u64) -> (usable: bool)
    requires
        old(requests).wf(),
    ensures
        final(requests).wf(),
        usable == (old(requests).view().contains_key(key) && old(requests).view()[key].awaiting_spec(now)),
        !usable ==> final(requests).view() == old(requests).view(),
        usable && accept ==> final(requests).view() == old(requests).view().remove(key),
        usable && !accept ==> final(requests).view() == old(requests).view().insert(key,
            PendingConsent { answered: true, ..old(requests).view()[key] }),
{
    let usable = match requests.get(key) {
        Some(request) => request.awaiting_at(now),
        None => false,
    };
    if usable {
        if accept {
            requests.remove(key);
        } else {
            let expires_at_ms = match requests.get(key) {
                Some(request) => request.expires_at_ms,
                None => 0,
            };
            requests.insert(key, PendingConsent { expires_at_ms, answered: true });
        }
    }
    usable
}

/// Answer the request under `key` now; see `answer_consent_at`.
pub fn answer_consent(requests: &mut ConsentTable, key: (PlayerId, PlayerId), accept: bool) -> (usable: bool)
    requires
        old(requests).wf(),
    ensures
        final(requests).wf(),
        usable ==> old(requests).view().contains_key(key) && !old(requests).view()[key].answered,
        exists|now: u64| usable == (old(requests).view().contains_key(key) && #[trigger] old(requests).view()[key].awaiting_spec(now)),
        !usable ==> final(requests).view() == old(requests).view(),
        usable && accept ==> final(requests).view() == old(requests).view().remove(key),
        usable && !accept ==> final(requests).view() == old(requests).view().insert(key,
            PendingConsent { answered: true, ..old(requests).view()[key] }),
{
    let now = now_ms();
    let usable = answer_consent_at(requests, key, accept, now);
    let ghost open_at_now = old(requests).view()[key].awaiting_spec(now);
    usable
}

/// A request can be answered once: whichever way the first answer went, a
/// second answer at any later time finds nothing usable.
pub proof fn law_consent_answered_once(before: Map<(PlayerId, PlayerId), PendingConsent>, key: (PlayerId, PlayerId), accept: bool, now: u64, later: u64)
    requires
        before.contains_key(key),
        before[key].awaiting_spec(now),
    ensures
        ({
            let after = if accept { before.remove(key) } else { before.insert(key, PendingConsent { answered: true, ..before[key] }) };
            !(after.contains_key(key) && after[key].awaiting_spec(later))
        }),
{
}

/// A declined request stays on record until it expires, so the asker cannot
/// immediately ask again.
pub proof fn law_decline_keeps_brake(before: Map<(PlayerId, PlayerId), PendingConsent>, key: (PlayerId, PlayerId), now: u64)
    requires
        before.contains_key(key),
        before[key].awaiting_spec(now),
    ensures
        ({
            let after = before.insert(key, PendingConsent { answered: true, ..before[key] });
            &&& after.contains_key(key)
            &&& after[key].answered
            &&& after[key].expires_at_ms == before[key].expires_at_ms
        }),
{
}

} // verus!
