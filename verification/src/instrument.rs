//! Live instrument playing: which note batches a performer may send, and
//! who is performing, with a count kept beside the set for a lock-free
//! "nobody is performing" check.
use vstd::prelude::*;
use crate::consent::PlayerId;

verus! {

/// One note of a batch: which note, and when within the batch.
pub struct InstrumentNoteEvent {
    pub note: u32,
    pub offset_ms: u32,
}

/// The bounds a batch must keep: how many events at most, how many notes
/// the instrument has, and how long a batch lasts.
pub struct InstrumentLimits {
    pub max_events_per_batch: usize,
    pub note_count: u32,
    pub batch_ms: u32,
}

/// A batch the server relays: not empty, not over the event limit,
/// starting at offset zero, every note in range and every offset within the
/// batch, offsets never going back.
pub open spec fn valid_batch(events: Seq<InstrumentNoteEvent>, limits: InstrumentLimits) -> bool {
    &&& events.len() > 0
    &&& events.len() <= limits.max_events_per_batch
    &&& events[0].offset_ms == 0
    &&& forall|i: int| 0 <= i < events.len() ==> (#[trigger] events[i]).note < limits.note_count
        && events[i].offset_ms < limits.batch_ms
    &&& forall|i: int| 0 <= i < events.len() - 1 ==> (#[trigger] events[i]).offset_ms <= events[i + 1].offset_ms
}

/// Whether a note batch may be relayed.
pub fn valid_instrument_batch(events: &Vec<InstrumentNoteEvent>, limits: &InstrumentLimits) -> (r: bool)
    ensures
        r == valid_batch(events@, *limits),
{
    if events.len() == 0 || events.len() > limits.max_events_per_batch || events[0].offset_ms != 0 {
        return false;
    }
    let mut i: usize = 0;
    while i < events.len()
        invariant
            0 < events@.len(),
            i <= events@.len(),
            forall|j: int| 0 <= j < i ==> (#[trigger] events@[j]).note < limits.note_count
                && events@[j].offset_ms < limits.batch_ms,
            forall|j: int| 0 <= j < i && j < events@.len() - 1 ==> (#[trigger] events@[j]).offset_ms <= events@[j + 1].offset_ms,
        decreases events@.len() - i,
    {
        let e = &events[i];
        if !(e.note < limits.note_count && e.offset_ms < limits.batch_ms) {
            return false;
        }
        if i + 1 < events.len() && e.offset_ms > events[i + 1].offset_ms {
            return false;
        }
        i = i + 1;
    }
    true
}

/// The players performing live, and how many there are.
pub struct LiveInstruments {
    pub players: Vec<PlayerId>,
    pub active: usize,
}

impl LiveInstruments {
    /// The count never drifts from the set.
    pub open spec fn wf(&self) -> bool {
        &&& self.players@.no_duplicates()
        &&& self.active == self.players@.len()
    }

    pub open spec fn view(&self) -> Set<PlayerId> {
        self.players@.to_set()
    }

    pub fn new() -> (l: Self)
        ensures
            l.wf(),
            l@ == Set::<PlayerId>::empty(),
    {
        let l = LiveInstruments { players: Vec::new(), active: 0 };
        assert(l@ =~= Set::<PlayerId>::empty());
        l
    }

    fn index_of(&self, p: PlayerId) -> (r: Option<usize>)
        ensures
            match r {
                Some(i) => i < self.players@.len() && self.players@[i as int] == p,
                None => !self@.contains(p),
            },
    {
        let mut i: usize = 0;
        while i < self.players.len()
            invariant
                i <= self.players@.len(),
                forall|j: int| 0 <= j < i ==> self.players@[j] != p,
            decreases self.players@.len() - i,
        {
            if self.players[i] == p {
                return Some(i);
            }
            i = i + 1;
        }
        None
    }

    /// Whether `p` is performing.
    pub fn contains(&self, p: PlayerId) -> (r: bool)
        ensures
            r == self@.contains(p),
    {
        self.index_of(p).is_some()
    }

    /// `p` starts performing; false when they already were.
    pub fn start(&mut self, p: PlayerId) -> (started: bool)
        requires
            old(self).wf(),
            old(self).players@.len() < usize::MAX,
        ensures
            final(self).wf(),
            final(self)@ == old(self)@.insert(p),
            started == !old(self)@.contains(p),
    {
        if self.index_of(p).is_some() {
            assert(self@ =~= old(self)@.insert(p));
            return false;
        }
        self.players.push(p);
        self.active = self.active + 1;
        proof {
            old(self).players@.lemma_push_to_set_commute(p);
        }
        true
    }

    /// The one removal path, so that the count never drifts from the set:
    /// `p` stops; whether they were performing.
    pub fn remove(&mut self, p: PlayerId) -> (removed: bool)
        requires
            old(self).wf(),
        ensures
            final(self).wf(),
            final(self)@ == old(self)@.remove(p),
            removed == old(self)@.contains(p),
    {
        let i = match self.index_of(p) {
            Some(i) => i,
            None => {
                assert(self@ =~= old(self)@.remove(p));
                return false;
            },
        };
        self.players.remove(i);
        self.active = self.active - 1;
        proof {
            let o = old(self).players@;
            let n = self.players@;
            assert(n =~= o.subrange(0, i as int) + o.subrange(i + 1, o.len() as int));
            assert forall|a: int, b: int| 0 <= a < n.len() && 0 <= b < n.len() && a != b implies n[a] != n[b] by {
                let a2 = if a < i { a } else { a + 1 };
                let b2 = if b < i { b } else { b + 1 };
                assert(n[a] == o[a2] && n[b] == o[b2]);
            }
            assert forall|x: PlayerId| #[trigger] n.to_set().contains(x) <==> o.to_set().remove(p).contains(x) by {
                if n.to_set().contains(x) {
                    let w = choose|w: int| 0 <= w < n.len() && n[w] == x;
                    let w2 = if w < i { w } else { w + 1 };
                    assert(o[w2] == x);
                    assert(w2 != i);
                }
                if o.to_set().remove(p).contains(x) {
                    let w = choose|w: int| 0 <= w < o.len() && o[w] == x;
                    assert(w != i);
                    let w2 = if w < i { w } else { w - 1 };
                    assert(n[w2] == x);
                }
            }
            assert(n.to_set() =~= o.to_set().remove(p));
        }
        true
    }

    /// The hot-path check: nobody is performing.
    pub fn no_live_instrument_anywhere(&self) -> (r: bool)
        requires
            self.wf(),
        ensures
            r == (self@ == Set::<PlayerId>::empty()),
    {
        proof {
            if self.active > 0 {
                assert(self@.contains(self.players@[0]));
            } else {
                assert(self@ =~= Set::<PlayerId>::empty());
            }
        }
        self.active == 0
    }
}

} // verus!
