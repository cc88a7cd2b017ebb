//! Friend lists and friend requests: per-session snapshots of each player's
//! friends, and in-memory requests between online players.
use vstd::prelude::*;
use std::collections::HashMap;
use crate::consent::{ConsentTable, PendingConsent, PlayerId, count_from, expiry, swept};
use crate::chat::{same_ignoring_case, sorted_names, strictly_sorted};
use crate::keyed::StrSet;
use crate::text::{ascii_lowercase, join, owned, push_char, push_joined, push_str, to_ascii_lowercase, views};
use vstd::string::*;

verus! {

broadcast use vstd::std_specs::hash::group_hash_axioms;

/// Upper bound on one character's friend list.
pub const MAX_FRIENDS: usize = 100;

/// Outstanding requests one player may have pending at once (spam brake).
pub const FRIEND_PENDING_REQUEST_CAP: usize = 5;

/// One friend in a session's snapshot.
pub struct FriendSnapshot {
    pub character_id: i64,
    pub name: String,
    /// `name` in ASCII lowercase, the key presence polls look names up by.
    pub lower_name: String,
    /// Level as of this session's login.
    pub level: u32,
    pub class: String,
}

/// The identity a friendship is recorded against.
pub struct FriendParty {
    pub player_id: PlayerId,
    pub character_id: i64,
    pub name: String,
    pub level: u32,
    pub class: String,
}

impl FriendParty {
    /// The snapshot the other side stores of this party.
    pub fn snapshot(&self) -> (f: FriendSnapshot)
        ensures
            f.character_id == self.character_id,
            f.name == self.name,
            f.lower_name@ == ascii_lowercase(self.name@),
            f.level == self.level,
            f.class == self.class,
    {
        FriendSnapshot {
            character_id: self.character_id,
            name: self.name.clone(),
            lower_name: to_ascii_lowercase(self.name.as_str()),
            level: self.level,
            class: self.class.clone(),
        }
    }
}

/// Why a friend request was refused.
pub enum FriendRefusal {
    /// The target is already on the requester's list.
    AlreadyFriend,
    /// The requester's list holds `MAX_FRIENDS`.
    OwnListFull,
    /// The target's list holds `MAX_FRIENDS`.
    TheirListFull,
    /// The target declined within the request's lifetime.
    Declined,
    /// The requester has `FRIEND_PENDING_REQUEST_CAP` requests out.
    TooManyPending,
}

/// What a friend request comes to.
pub enum FriendRequestOutcome {
    /// A new request was recorded: tell the target.
    Deliver,
    /// Already pending: acknowledge again without re-notifying the target.
    AckOnly,
    /// The target had asked first: the two become friends.
    Reciprocated,
    Fail(FriendRefusal),
}

/// All friend state behind one lock.
pub struct Friends {
    pub lists: HashMap<PlayerId, Vec<FriendSnapshot>>,
    pub requests: ConsentTable,
}

/// What a friend request from `requester` to `target` (whose character is
/// `target_character_id`) comes to at `now` against friend state `f`, the
/// checks in this order: already friends, own list full, the target asked
/// first (their list full, or reciprocated), declined within the window,
/// already pending, too many pending, delivered.
pub open spec fn request_outcome(f: Friends, requester: PlayerId, target: PlayerId, target_character_id: i64, now: u64) -> FriendRequestOutcome {
    let m = f.requests.view();
    let mine = f.list_of(requester);
    let reverse = (target, requester);
    let forward = (requester, target);
    let forward_live = m.contains_key(forward) && m[forward].expires_at_ms > now;
    let reverse_open = m.contains_key(reverse) && m[reverse].expires_at_ms > now && m[reverse].awaiting_spec(now);
    if lists_character(mine, target_character_id) {
        FriendRequestOutcome::Fail(FriendRefusal::AlreadyFriend)
    } else if mine.len() >= MAX_FRIENDS {
        FriendRequestOutcome::Fail(FriendRefusal::OwnListFull)
    } else if reverse_open {
        if f.list_of(target).len() >= MAX_FRIENDS {
            FriendRequestOutcome::Fail(FriendRefusal::TheirListFull)
        } else {
            FriendRequestOutcome::Reciprocated
        }
    } else if forward_live && m[forward].answered {
        FriendRequestOutcome::Fail(FriendRefusal::Declined)
    } else if forward_live {
        FriendRequestOutcome::AckOnly
    } else if count_from(f.requests.entries@.filter(|e: ((PlayerId, PlayerId), PendingConsent)| e.1.expires_at_ms > now), requester) >= FRIEND_PENDING_REQUEST_CAP {
        FriendRequestOutcome::Fail(FriendRefusal::TooManyPending)
    } else {
        FriendRequestOutcome::Deliver
    }
}

/// The requests after that friend request: expired ones swept, a
/// reciprocated request consumed, a delivered one recorded for `ttl_ms`.
pub open spec fn requests_after(f: Friends, requester: PlayerId, target: PlayerId, target_character_id: i64, now: u64, ttl_ms: u64)
    -> Map<(PlayerId, PlayerId), PendingConsent>
{
    let live = swept(f.requests.view(), now);
    match request_outcome(f, requester, target, target_character_id, now) {
        FriendRequestOutcome::Reciprocated => live.remove((target, requester)),
        FriendRequestOutcome::Deliver => live.insert((requester, target),
            PendingConsent { expires_at_ms: expiry(now, ttl_ms), answered: false }),
        _ => live,
    }
}

/// A friend request decided with the target's block state: the outcome, the
/// requests after it, and whether the target is told. A block only keeps
/// the target from being told of a delivered request.
pub open spec fn request_model(f: Friends, requester: PlayerId, target: PlayerId, target_character_id: i64, now: u64, ttl_ms: u64,
    target_blocked_requester: bool) -> (FriendRequestOutcome, Map<(PlayerId, PlayerId), PendingConsent>, bool)
{
    let outcome = request_outcome(f, requester, target, target_character_id, now);
    (outcome, requests_after(f, requester, target, target_character_id, now, ttl_ms),
        outcome is Deliver && !target_blocked_requester)
}

/// The target having blocked the requester changes neither a friend
/// request's outcome (hence nothing the requester is told) nor the requests
/// it leaves; it only keeps the target from being told of it.
pub proof fn law_block_changes_only_delivery(f: Friends, requester: PlayerId, target: PlayerId, target_character_id: i64, now: u64, ttl_ms: u64)
    ensures
        request_model(f, requester, target, target_character_id, now, ttl_ms, true).0
            == request_model(f, requester, target, target_character_id, now, ttl_ms, false).0,
        request_model(f, requester, target, target_character_id, now, ttl_ms, true).1
            == request_model(f, requester, target, target_character_id, now, ttl_ms, false).1,
        !request_model(f, requester, target, target_character_id, now, ttl_ms, true).2,
{
}

/// Why a friend request stops before the friend lists are consulted.
pub enum FriendRequestStop {
    /// The typed name is longer than the name limit.
    NameTooLong,
    /// No name was typed: the usage is shown.
    NoName,
    /// The requester is no longer in the world: nothing is said.
    RequesterGone,
    /// Official NPCs make no friends.
    RequesterIsNpc,
    /// Nobody by that name is online.
    NotOnline,
    /// The name is the requester's own.
    IsSelf,
    /// The target is an official NPC.
    TargetIsNpc,
    /// The requester has blocked the target.
    YouBlockedThem,
}

/// The early checks of a friend request, in order. `requester_is_npc` is
/// `None` when the requester is gone; `target` is `None` when nobody by the
/// name is online, else whether it is the requester and whether it is an NPC.
pub open spec fn request_stop_spec(name: Seq<char>, max_name_chars: usize, requester_is_npc: Option<bool>,
    target: Option<(bool, bool)>, requester_blocked_target: bool) -> Option<FriendRequestStop>
{
    if name.len() > max_name_chars {
        Some(FriendRequestStop::NameTooLong)
    } else if name.len() == 0 {
        Some(FriendRequestStop::NoName)
    } else if requester_is_npc is None {
        Some(FriendRequestStop::RequesterGone)
    } else if requester_is_npc == Some(true) {
        Some(FriendRequestStop::RequesterIsNpc)
    } else if target is None {
        Some(FriendRequestStop::NotOnline)
    } else if target.unwrap().0 {
        Some(FriendRequestStop::IsSelf)
    } else if target.unwrap().1 {
        Some(FriendRequestStop::TargetIsNpc)
    } else if requester_blocked_target {
        Some(FriendRequestStop::YouBlockedThem)
    } else {
        None
    }
}

/// The early checks of a friend request (see `request_stop_spec`); `None`
/// when the request goes on to the friend state.
pub fn request_stop(name: &str, max_name_chars: usize, requester_is_npc: Option<bool>,
    target: Option<(bool, bool)>, requester_blocked_target: bool) -> (r: Option<FriendRequestStop>)
    ensures
        r == request_stop_spec(name@, max_name_chars, requester_is_npc, target, requester_blocked_target),
{
    let len = name.unicode_len();
    if len > max_name_chars {
        Some(FriendRequestStop::NameTooLong)
    } else if len == 0 {
        Some(FriendRequestStop::NoName)
    } else {
        match requester_is_npc {
            None => Some(FriendRequestStop::RequesterGone),
            Some(true) => Some(FriendRequestStop::RequesterIsNpc),
            Some(false) => match target {
                None => Some(FriendRequestStop::NotOnline),
                Some((is_self, is_npc)) => {
                    if is_self {
                        Some(FriendRequestStop::IsSelf)
                    } else if is_npc {
                        Some(FriendRequestStop::TargetIsNpc)
                    } else if requester_blocked_target {
                        Some(FriendRequestStop::YouBlockedThem)
                    } else {
                        None
                    }
                },
            },
        }
    }
}

/// Whether `f` is the snapshot a friendship stores of `p`.
pub open spec fn is_snapshot_of(f: FriendSnapshot, p: FriendParty) -> bool {
    &&& f.character_id == p.character_id
    &&& f.name == p.name
    &&& f.lower_name@ == ascii_lowercase(p.name@)
    &&& f.level == p.level
    &&& f.class == p.class
}

/// Whether a friend list holds `character_id`.
pub open spec fn lists_character(list: Seq<FriendSnapshot>, character_id: i64) -> bool {
    exists|i: int| 0 <= i < list.len() && #[trigger] list[i].character_id == character_id
}

impl Friends {
    pub open spec fn wf(&self) -> bool {
        self.requests.wf()
    }

    /// A player's list; empty when they have none.
    pub open spec fn list_of(&self, player: PlayerId) -> Seq<FriendSnapshot> {
        if self.lists@.contains_key(player) { self.lists@[player]@ } else { Seq::empty() }
    }

    pub fn new() -> (f: Self)
        ensures
            f.wf(),
            f.lists@ == Map::<PlayerId, Vec<FriendSnapshot>>::empty(),
            f.requests.view() == Map::<(PlayerId, PlayerId), PendingConsent>::empty(),
    {
        Friends { lists: HashMap::new(), requests: ConsentTable::new() }
    }

    /// A player's list.
    pub fn list(&self, player: PlayerId) -> (l: &[FriendSnapshot])
        ensures
            l@ == self.list_of(player),
    {
        match self.lists.get(&player) {
            Some(v) => v.as_slice(),
            None => {
                let empty: &[FriendSnapshot] = &[];
                empty
            },
        }
    }

    /// Whether `player`'s list holds `character_id`.
    pub fn is_friend_character(&self, player: PlayerId, character_id: i64) -> (r: bool)
        ensures
            r == lists_character(self.list_of(player), character_id),
    {
        let list = self.list(player);
        let mut i: usize = 0;
        while i < list.len()
            invariant
                i <= list@.len(),
                list@ == self.list_of(player),
                forall|j: int| 0 <= j < i ==> #[trigger] list@[j].character_id != character_id,
            decreases list@.len() - i,
        {
            if list[i].character_id == character_id {
                proof {
                    assert(list@[i as int].character_id == character_id);
                }
                return true;
            }
            i = i + 1;
        }
        false
    }

    /// Add `friend` to `player`'s list unless that character is already on it.
    pub fn insert(&mut self, player: PlayerId, friend: FriendSnapshot)
        requires
            old(self).wf(),
        ensures
            final(self).wf(),
            final(self).requests == old(self).requests,
            forall|p: PlayerId| p != player ==> #[trigger] final(self).list_of(p) == old(self).list_of(p),
            final(self).list_of(player) == if lists_character(old(self).list_of(player), friend.character_id) {
                old(self).list_of(player)
            } else {
                old(self).list_of(player).push(friend)
            },
    {
        let present = self.is_friend_character(player, friend.character_id);
        if present {
            return;
        }
        let mut list = match self.lists.remove(&player) {
            Some(v) => v,
            None => Vec::new(),
        };
        list.push(friend);
        self.lists.insert(player, list);
    }

    /// Take `character_id` off `player`'s list.
    pub fn remove(&mut self, player: PlayerId, character_id: i64)
        requires
            old(self).wf(),
        ensures
            final(self).wf(),
            final(self).requests == old(self).requests,
            forall|p: PlayerId| p != player ==> #[trigger] final(self).list_of(p) == old(self).list_of(p),
            final(self).list_of(player) == old(self).list_of(player).filter(|f: FriendSnapshot| f.character_id != character_id),
    {
        let old_list = match self.lists.remove(&player) {
            Some(v) => v,
            None => {
                proof {
                    assert(old(self).list_of(player).filter(|f: FriendSnapshot| f.character_id != character_id) =~= Seq::empty());
                }
                return;
            },
        };
        let mut kept: Vec<FriendSnapshot> = Vec::new();
        let mut i: usize = 0;
        let n = old_list.len();
        while i < n
            invariant
                n == old_list@.len(),
                i <= n,
                old_list@ == old(self).list_of(player),
                kept@ == old_list@.subrange(0, i as int).filter(|f: FriendSnapshot| f.character_id != character_id),
            decreases n - i,
        {
            proof {
                assert(old_list@.subrange(0, i + 1) =~= old_list@.subrange(0, i as int).push(old_list@[i as int]));
                old_list@.subrange(0, i as int).lemma_filter_push(old_list@[i as int], |f: FriendSnapshot| f.character_id != character_id);
            }
            if old_list[i].character_id != character_id {
                kept.push(copy_snapshot(&old_list[i]));
            }
            i = i + 1;
        }
        proof {
            assert(old_list@.subrange(0, n as int) =~= old_list@);
        }
        self.lists.insert(player, kept);
    }

    /// Drop `player`'s snapshot and every request they made or received.
    pub fn remove_player(&mut self, player: PlayerId)
        requires
            old(self).wf(),
        ensures
            final(self).wf(),
            final(self).list_of(player) == Seq::<FriendSnapshot>::empty(),
            forall|p: PlayerId| p != player ==> #[trigger] final(self).list_of(p) == old(self).list_of(p),
            forall|k: (PlayerId, PlayerId)| #[trigger] final(self).requests.view().contains_key(k) <==>
                (old(self).requests.view().contains_key(k) && k.0 != player && k.1 != player),
            forall|k: (PlayerId, PlayerId)| #[trigger] final(self).requests.view().contains_key(k)
                ==> final(self).requests.view()[k] == old(self).requests.view()[k],
    {
        self.lists.remove(&player);
        self.requests.remove_involving(player);
    }

    /// Record a friendship formed between `a` and `b`: each goes on the
    /// other's list and no request is left in either direction.
    pub fn establish(&mut self, a: &FriendParty, b: &FriendParty)
        requires
            old(self).wf(),
            a.player_id != b.player_id,
        ensures
            final(self).wf(),
            lists_character(final(self).list_of(a.player_id), b.character_id),
            lists_character(final(self).list_of(b.player_id), a.character_id),
            forall|p: PlayerId| p != a.player_id && p != b.player_id ==> #[trigger] final(self).list_of(p) == old(self).list_of(p),
            final(self).list_of(a.player_id) == if lists_character(old(self).list_of(a.player_id), b.character_id) {
                old(self).list_of(a.player_id)
            } else {
                old(self).list_of(a.player_id).push(final(self).list_of(a.player_id).last())
            },
            !lists_character(old(self).list_of(a.player_id), b.character_id)
                ==> is_snapshot_of(final(self).list_of(a.player_id).last(), *b),
            final(self).list_of(b.player_id) == if lists_character(old(self).list_of(b.player_id), a.character_id) {
                old(self).list_of(b.player_id)
            } else {
                old(self).list_of(b.player_id).push(final(self).list_of(b.player_id).last())
            },
            !lists_character(old(self).list_of(b.player_id), a.character_id)
                ==> is_snapshot_of(final(self).list_of(b.player_id).last(), *a),
            forall|p: PlayerId| p != a.player_id && p != b.player_id ==> #[trigger] final(self).list_of(p) == old(self).list_of(p),
            final(self).requests.view() == old(self).requests.view().remove((a.player_id, b.player_id)).remove((b.player_id, a.player_id)),
    {
        let ghost a_list = self.list_of(a.player_id);
        let ghost s0 = *self;
        self.insert(a.player_id, b.snapshot());
        let ghost s1 = *self;
        proof {
            if !lists_character(a_list, b.character_id) {
                let l = self.list_of(a.player_id);
                assert(l[l.len() - 1].character_id == b.character_id);
            }
        }
        let ghost b_list = self.list_of(b.player_id);
        self.insert(b.player_id, a.snapshot());
        proof {
            if !lists_character(b_list, a.character_id) {
                let l = self.list_of(b.player_id);
                assert(l[l.len() - 1].character_id == a.character_id);
            }
            assert(self.list_of(a.player_id) == s1.list_of(a.player_id));
        }
        let ghost s2 = *self;
        self.requests.remove((a.player_id, b.player_id));
        self.requests.remove((b.player_id, a.player_id));
        proof {
            assert(self.lists == s2.lists);
            assert forall|p: PlayerId| p != a.player_id && p != b.player_id implies #[trigger] self.list_of(p) == s0.list_of(p) by {
                assert(s2.list_of(p) == s1.list_of(p));
                assert(s1.list_of(p) == s0.list_of(p));
            }
        }
    }

    /// Decide a friend request from `requester` to `target` (whose character
    /// is `target_character_id`) at `now`, updating the requests: expired
    /// ones are swept; a reciprocated request is consumed; a delivered one is
    /// recorded for `ttl_ms`.
    pub fn request_at(&mut self, requester: PlayerId, target: PlayerId, target_character_id: i64, now: u64, ttl_ms: u64)
        -> (outcome: FriendRequestOutcome)
        requires
            old(self).wf(),
        ensures
            final(self).wf(),
            final(self).lists@ == old(self).lists@,
            outcome == request_outcome(*old(self), requester, target, target_character_id, now),
            final(self).requests.view() == requests_after(*old(self), requester, target, target_character_id, now, ttl_ms),
    {
        let pending = self.requests.sweep_and_count(requester, now);
        let outstanding: Option<bool> = match self.requests.get((requester, target)) {
            Some(r) => Some(r.answered),
            None => None,
        };
        if self.is_friend_character(requester, target_character_id) {
            FriendRequestOutcome::Fail(FriendRefusal::AlreadyFriend)
        } else if self.list(requester).len() >= MAX_FRIENDS {
            FriendRequestOutcome::Fail(FriendRefusal::OwnListFull)
        } else if match self.requests.get((target, requester)) {
            Some(r) => r.awaiting_at(now),
            None => false,
        } {
            if self.list(target).len() >= MAX_FRIENDS {
                FriendRequestOutcome::Fail(FriendRefusal::TheirListFull)
            } else {
                self.requests.remove((target, requester));
                FriendRequestOutcome::Reciprocated
            }
        } else if outstanding == Some(true) {
            FriendRequestOutcome::Fail(FriendRefusal::Declined)
        } else if outstanding == Some(false) {
            FriendRequestOutcome::AckOnly
        } else if pending >= FRIEND_PENDING_REQUEST_CAP {
            FriendRequestOutcome::Fail(FriendRefusal::TooManyPending)
        } else {
            self.requests.insert((requester, target), PendingConsent::new_at(now, ttl_ms));
            FriendRequestOutcome::Deliver
        }
    }
}

impl Friends {
    /// Decide a friend request as `request_at` does, knowing whether the
    /// target has blocked the requester: the outcome, and whether the target
    /// is told of it (a delivered request, unless blocked).
    pub fn request_friend(&mut self, requester: PlayerId, target: PlayerId, target_character_id: i64, now: u64, ttl_ms: u64,
        target_blocked_requester: bool) -> (r: (FriendRequestOutcome, bool))
        requires
            old(self).wf(),
        ensures
            final(self).wf(),
            final(self).lists@ == old(self).lists@,
            ({
                let model = request_model(*old(self), requester, target, target_character_id, now, ttl_ms, target_blocked_requester);
                &&& r.0 == model.0
                &&& final(self).requests.view() == model.1
                &&& r.1 == model.2
            }),
    {
        let outcome = self.request_at(requester, target, target_character_id, now, ttl_ms);
        let notify = match outcome {
            FriendRequestOutcome::Deliver => !target_blocked_requester,
            _ => false,
        };
        (outcome, notify)
    }
}

impl Friends {
    /// Why `target` may not accept `requester`'s request (from the target's
    /// side: `OwnListFull` is the target's list, `TheirListFull` the
    /// requester's), or `None` when the friendship can be formed.
    pub fn accept_refusal(&self, target: PlayerId, requester: PlayerId, requester_character_id: i64) -> (r: Option<FriendRefusal>)
        ensures
            r == if lists_character(self.list_of(target), requester_character_id) {
                Some(FriendRefusal::AlreadyFriend)
            } else if self.list_of(target).len() >= MAX_FRIENDS {
                Some(FriendRefusal::OwnListFull)
            } else if self.list_of(requester).len() >= MAX_FRIENDS {
                Some(FriendRefusal::TheirListFull)
            } else {
                None
            },
    {
        if self.is_friend_character(target, requester_character_id) {
            Some(FriendRefusal::AlreadyFriend)
        } else if self.list(target).len() >= MAX_FRIENDS {
            Some(FriendRefusal::OwnListFull)
        } else if self.list(requester).len() >= MAX_FRIENDS {
            Some(FriendRefusal::TheirListFull)
        } else {
            None
        }
    }
}

/// A field-for-field copy of a snapshot.
fn copy_snapshot(f: &FriendSnapshot) -> (r: FriendSnapshot)
    ensures
        r == *f,
{
    FriendSnapshot {
        character_id: f.character_id,
        name: f.name.clone(),
        lower_name: f.lower_name.clone(),
        level: f.level,
        class: f.class.clone(),
    }
}


/// The `/friend list` reply for a list whose online friends are `on` and
/// offline ones `off`, each in increasing order: online friends first.
pub open spec fn friends_text(on: Seq<Seq<char>>, off: Seq<Seq<char>>) -> Seq<char> {
    "Friends: "@ + join(on.map_values(|n: Seq<char>| n + " (online)"@) + off, ", "@)
}

/// The names on `list` whose friends are online (`online`, by lowercase
/// name) exactly when `is_online`.
pub open spec fn names_with_status(list: Seq<FriendSnapshot>, online: Set<Seq<char>>, is_online: bool) -> Set<Seq<char>> {
    Set::new(|n: Seq<char>| exists|i: int| 0 <= i < list.len() && #[trigger] list[i].name@ == n
        && online.contains(list[i].lower_name@) == is_online)
}

/// The friend on `list` named `name` up to ASCII case: the first one.
pub open spec fn friend_named(list: Seq<FriendSnapshot>, name: Seq<char>) -> Option<int> {
    if exists|i: int| 0 <= i < list.len() && same_ignoring_case(#[trigger] list[i].name@, name) {
        Some(choose|i: int| 0 <= i < list.len() && same_ignoring_case(#[trigger] list[i].name@, name)
            && forall|j: int| 0 <= j < i ==> !same_ignoring_case(#[trigger] list[j].name@, name))
    } else {
        None
    }
}

impl Friends {
    /// The `/friend list` reply: online friends first, then the rest, each
    /// group by name; `online` holds the lowercase names of the players
    /// online.
    pub fn describe_friends(&self, player: PlayerId, online: &StrSet) -> (r: String)
        requires
            online.wf(),
        ensures
            self.list_of(player).len() == 0 ==> r@ == "Friends: no one yet. /friend add <name> asks someone."@,
            self.list_of(player).len() > 0 ==> exists|on: Seq<Seq<char>>, off: Seq<Seq<char>>|
                strictly_sorted(on) && strictly_sorted(off)
                && (forall|k: Seq<char>| #[trigger] on.contains(k) <==> names_with_status(self.list_of(player), online@, true).contains(k))
                && (forall|k: Seq<char>| #[trigger] off.contains(k) <==> names_with_status(self.list_of(player), online@, false).contains(k))
                && r@ == friends_text(on, off),
    {
        let list = self.list(player);
        if list.len() == 0 {
            return owned("Friends: no one yet. /friend add <name> asks someone.");
        }
        let mut on_set = StrSet::new();
        let mut off_set = StrSet::new();
        let mut i: usize = 0;
        while i < list.len()
            invariant
                i <= list@.len(),
                list@ == self.list_of(player),
                online.wf(),
                on_set.wf(),
                off_set.wf(),
                forall|k: Seq<char>| #[trigger] on_set@.contains(k) <==> names_with_status(list@.subrange(0, i as int), online@, true).contains(k),
                forall|k: Seq<char>| #[trigger] off_set@.contains(k) <==> names_with_status(list@.subrange(0, i as int), online@, false).contains(k),
            decreases list@.len() - i,
        {
            let f = &list[i];
            let is_on = online.contains(f.lower_name.as_str());
            let ghost fi = list@[i as int];
            let ghost before = list@.subrange(0, i as int);
            let ghost after = list@.subrange(0, i + 1);
            if is_on {
                on_set.insert(f.name.clone());
            } else {
                off_set.insert(f.name.clone());
            }
            proof {
                assert forall|b: bool, k: Seq<char>| names_with_status(after, online@, b).contains(k)
                    <==> names_with_status(before, online@, b).contains(k) || (k == fi.name@ && online@.contains(fi.lower_name@) == b) by {
                    if names_with_status(after, online@, b).contains(k) {
                        let j = choose|j: int| 0 <= j < after.len() && #[trigger] after[j].name@ == k && online@.contains(after[j].lower_name@) == b;
                        if j < i { assert(before[j] == after[j]); }
                    }
                    if names_with_status(before, online@, b).contains(k) {
                        let j = choose|j: int| 0 <= j < before.len() && #[trigger] before[j].name@ == k && online@.contains(before[j].lower_name@) == b;
                        assert(after[j] == before[j]);
                    }
                    if k == fi.name@ && online@.contains(fi.lower_name@) == b {
                        assert(after[i as int] == fi);
                    }
                }
            }
            i = i + 1;
        }
        proof {
            assert(list@.subrange(0, list@.len() as int) =~= list@);
        }
        let on = sorted_names(&on_set);
        let off = sorted_names(&off_set);
        let mut parts: Vec<String> = Vec::new();
        let mut k: usize = 0;
        while k < on.len()
            invariant
                k <= on@.len(),
                views(parts@) == views(on@).subrange(0, k as int).map_values(|n: Seq<char>| n + " (online)"@),
            decreases on@.len() - k,
        {
            let mut entry = on[k].clone();
            push_str(&mut entry, " (online)");
            let ghost before = views(parts@);
            let ghost ev = entry@;
            let ghost bp = parts@;
            parts.push(entry);
            proof {
                assert(parts@ == bp.push(entry));
                assert(views(parts@) =~= before.push(ev));
                assert(ev == views(on@)[k as int] + " (online)"@);
                assert(views(parts@) =~= views(on@).subrange(0, k + 1).map_values(|n: Seq<char>| n + " (online)"@)) by {
                    assert(views(parts@).len() == k + 1);
                    assert forall|j: int| 0 <= j < k + 1 implies views(parts@)[j] == views(on@).subrange(0, k + 1).map_values(|n: Seq<char>| n + " (online)"@)[j] by {
                        if j < k { assert(views(parts@)[j] == before[j]); }
                    }
                }
            }
            k = k + 1;
        }
        let ghost on_part = views(parts@);
        let mut m: usize = 0;
        while m < off.len()
            invariant
                m <= off@.len(),
                views(parts@) == on_part + views(off@).subrange(0, m as int),
            decreases off@.len() - m,
        {
            let ghost before = views(parts@);
            let item = off[m].clone();
            let ghost iv = item@;
            let ghost bp = parts@;
            parts.push(item);
            proof {
                assert(parts@ == bp.push(item));
                assert(views(parts@) =~= before.push(iv));
                assert(iv == views(off@)[m as int]);
                assert(views(parts@) =~= on_part + views(off@).subrange(0, m + 1)) by {
                    assert forall|j: int| 0 <= j < views(parts@).len() implies views(parts@)[j] == (on_part + views(off@).subrange(0, m + 1))[j] by {
                        if j < before.len() { assert(views(parts@)[j] == before[j]); }
                    }
                }
            }
            m = m + 1;
        }
        let mut r = owned("Friends: ");
        push_joined(&mut r, &parts, ", ");
        proof {
            reveal_strlit("Friends: ");
            reveal_strlit(", ");
            assert(views(on@).subrange(0, on@.len() as int) =~= views(on@));
            assert(views(off@).subrange(0, off@.len() as int) =~= views(off@));
            assert(views(parts@) == views(on@).map_values(|n: Seq<char>| n + " (online)"@) + views(off@));
            assert(r@ == friends_text(views(on@), views(off@)));
        }
        r
    }

    /// The friend on `player`'s list that `name` names up to ASCII case
    /// (the first such): its character and its name as stored.
    pub fn friend_by_name(&self, player: PlayerId, name: &str) -> (r: Option<(i64, String)>)
        ensures
            match friend_named(self.list_of(player), name@) {
                Some(i) => match r {
                    Some(found) => found.0 == self.list_of(player)[i].character_id
                        && found.1@ == self.list_of(player)[i].name@,
                    None => false,
                },
                None => r is None,
            },
    {
        let list = self.list(player);
        let lowered = to_ascii_lowercase(name);
        let mut i: usize = 0;
        while i < list.len()
            invariant
                i <= list@.len(),
                list@ == self.list_of(player),
                lowered@ == ascii_lowercase(name@),
                forall|j: int| 0 <= j < i ==> !same_ignoring_case(#[trigger] list@[j].name@, name@),
            decreases list@.len() - i,
        {
            let l = to_ascii_lowercase(list[i].name.as_str());
            if l.eq(&lowered) {
                proof {
                    let k = choose|k: int| 0 <= k < list@.len() && same_ignoring_case(#[trigger] list@[k].name@, name@)
                        && forall|j: int| 0 <= j < k ==> !same_ignoring_case(#[trigger] list@[j].name@, name@);
                    assert(same_ignoring_case(list@[i as int].name@, name@));
                    if k < i { assert(!same_ignoring_case(list@[k].name@, name@)); }
                    if k > i { assert(!same_ignoring_case(list@[i as int].name@, name@)); }
                }
                return Some((list[i].character_id, list[i].name.clone()));
            }
            i = i + 1;
        }
        None
    }
}

} // verus!
