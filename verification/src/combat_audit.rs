//! The combat audit: per-character windows of health, attacks and kills,
//! rotated every minute into a bounded queue of rows for the audit log.
use vstd::prelude::*;
use std::collections::VecDeque;
use crate::keyed::{IdMap, IdSet, StrMap, StrSet};
use crate::text::owned;
use vstd::string::*;

verus! {

/// Rows waiting to be written; the oldest is lost beyond this.
pub const MAX_PENDING: usize = 16_384;
/// Monsters a session remembers having attempted.
pub const MAX_MONSTERS: usize = 4_096;
/// Player attack events kept per window; later ones are only counted.
pub const MAX_PLAYER_ATTACK_EVENTS: usize = 256;
/// Length of one audit window.
pub const WINDOW_MS: u64 = 60_000;
/// The row format's version.
pub const SCHEMA: u8 = 2;

/// `a + b`, saturating at `u64::MAX`.
pub open spec fn sat(a: int, b: int) -> u64 {
    if a + b > u64::MAX { u64::MAX } else { (a + b) as u64 }
}

fn sat_add(a: u64, b: u64) -> (r: u64)
    ensures
        r == sat(a as int, b as int),
{
    if a > u64::MAX - b { u64::MAX } else { a + b }
}

/// Sum of the counts of a tally's entries.
pub open spec fn entries_total(s: Seq<(String, u64)>) -> int
    decreases s.len(),
{
    if s.len() == 0 { 0 } else { entries_total(s.drop_last()) + s.last().1 }
}

proof fn lemma_total_update(s: Seq<(String, u64)>, i: int, e: (String, u64))
    requires
        0 <= i < s.len(),
    ensures
        entries_total(s.update(i, e)) == entries_total(s) - s[i].1 + e.1,
    decreases s.len(),
{
    if i == s.len() - 1 {
        assert(s.update(i, e).drop_last() =~= s.drop_last());
    } else {
        assert(s.update(i, e).drop_last() =~= s.drop_last().update(i, e));
        lemma_total_update(s.drop_last(), i, e);
    }
}

proof fn lemma_total_push(s: Seq<(String, u64)>, e: (String, u64))
    ensures
        entries_total(s.push(e)) == entries_total(s) + e.1,
{
    assert(s.push(e).drop_last() =~= s);
}

/// Counts by string key (health sources, rejection reasons, outcomes).
pub struct Tally {
    pub map: StrMap<u64>,
}

impl Tally {
    pub open spec fn wf(&self) -> bool {
        self.map.wf()
    }

    pub open spec fn view(&self) -> Map<Seq<char>, u64> {
        self.map@
    }

    /// Sum of all counts.
    pub open spec fn total(&self) -> int {
        entries_total(self.map.entries@)
    }

    /// The count under `k`, zero when absent.
    pub open spec fn count(&self, k: Seq<char>) -> u64 {
        if self@.contains_key(k) { self@[k] } else { 0 }
    }

    pub fn new() -> (t: Self)
        ensures
            t.wf(),
            t@ == Map::<Seq<char>, u64>::empty(),
            t.total() == 0,
    {
        Tally { map: StrMap::new() }
    }

    pub fn get(&self, key: &str) -> (n: u64)
        requires
            self.wf(),
        ensures
            n == self.count(key@),
    {
        match self.map.get(key) {
            Some(n) => *n,
            None => 0,
        }
    }

    /// Add `amount` under `key`, saturating.
    pub fn add(&mut self, key: &str, amount: u64)
        requires
            old(self).wf(),
        ensures
            final(self).wf(),
            final(self)@ == old(self)@.insert(key@, sat(old(self).count(key@) as int, amount as int)),
            final(self).total() == old(self).total() - old(self).count(key@) + sat(old(self).count(key@) as int, amount as int),
    {
        let current = self.get(key);
        let updated = sat_add(current, amount);
        let k = owned(key);
        let ghost before = self.map.entries@;
        let ghost kk = k;
        self.map.insert(k, updated);
        proof {
            if old(self)@.contains_key(key@) {
                let i = choose|i: int| 0 <= i < before.len() && #[trigger] before[i].0@ == key@
                    && self.map.entries@ == before.update(i, (kk, updated));
                lemma_total_update(before, i, (kk, updated));
                assert(old(self).map@[key@] == before[i].1) by {
                    let c = choose|c: int| 0 <= c < before.len() && #[trigger] before[c].0@ == key@;
                    assert(c == i);
                }
            } else {
                lemma_total_push(before, (kk, updated));
            }
        }
    }
}

/// Why a window was closed.
#[derive(PartialEq, Eq, Structural, Clone, Copy)]
pub enum WindowReason {
    Interval,
    Logout,
    Disabled,
    Shutdown,
}

impl WindowReason {
    /// The name the audit log uses.
    pub fn as_str(&self) -> (s: &'static str)
        ensures
            s@ == window_reason_name(*self),
    {
        proof {
            reveal_strlit("interval");
            reveal_strlit("logout");
            reveal_strlit("disabled");
            reveal_strlit("shutdown");
        }
        match self {
            WindowReason::Interval => "interval",
            WindowReason::Logout => "logout",
            WindowReason::Disabled => "disabled",
            WindowReason::Shutdown => "shutdown",
        }
    }
}

pub open spec fn window_reason_name(r: WindowReason) -> Seq<char> {
    match r {
        WindowReason::Interval => seq!['i', 'n', 't', 'e', 'r', 'v', 'a', 'l'],
        WindowReason::Logout => seq!['l', 'o', 'g', 'o', 'u', 't'],
        WindowReason::Disabled => seq!['d', 'i', 's', 'a', 'b', 'l', 'e', 'd'],
        WindowReason::Shutdown => seq!['s', 'h', 'u', 't', 'd', 'o', 'w', 'n'],
    }
}

/// What the audit reads of a player.
pub struct AuditPlayer {
    pub id: u128,
    pub name: String,
    pub health: u32,
    pub max_health: u32,
    pub level: u32,
}

/// Attempts and results against one kind of monster.
pub struct MonsterTotals {
    pub server_attempts: u64,
    pub client_requests: u64,
    pub rejected: Tally,
    pub hits: u64,
    pub misses: u64,
    pub damage: u64,
    pub kills: u64,
    pub kills_without_observed_attempt: u64,
}

pub struct MonsterModel {
    pub server_attempts: u64,
    pub client_requests: u64,
    pub rejected: Map<Seq<char>, u64>,
    pub hits: u64,
    pub misses: u64,
    pub damage: u64,
    pub kills: u64,
    pub kills_without_observed_attempt: u64,
}

impl MonsterTotals {
    pub open spec fn wf(&self) -> bool {
        self.rejected.wf()
    }

    pub open spec fn view(&self) -> MonsterModel {
        MonsterModel {
            server_attempts: self.server_attempts,
            client_requests: self.client_requests,
            rejected: self.rejected@,
            hits: self.hits,
            misses: self.misses,
            damage: self.damage,
            kills: self.kills,
            kills_without_observed_attempt: self.kills_without_observed_attempt,
        }
    }

    pub fn new() -> (t: Self)
        ensures
            t.wf(),
            t@ == monster_zero(),
    {
        MonsterTotals {
            server_attempts: 0,
            client_requests: 0,
            rejected: Tally::new(),
            hits: 0,
            misses: 0,
            damage: 0,
            kills: 0,
            kills_without_observed_attempt: 0,
        }
    }
}

pub open spec fn monster_zero() -> MonsterModel {
    MonsterModel {
        server_attempts: 0,
        client_requests: 0,
        rejected: Map::empty(),
        hits: 0,
        misses: 0,
        damage: 0,
        kills: 0,
        kills_without_observed_attempt: 0,
    }
}

/// The totals under a kind, zero when absent.
pub open spec fn monster_of(m: Map<Seq<char>, MonsterModel>, kind: Seq<char>) -> MonsterModel {
    if m.contains_key(kind) { m[kind] } else { monster_zero() }
}

/// Totals by monster kind.
pub struct MonsterTable {
    pub map: StrMap<MonsterTotals>,
}

impl MonsterTable {
    pub open spec fn wf(&self) -> bool {
        &&& self.map.wf()
        &&& forall|k: Seq<char>| #[trigger] self.map@.contains_key(k) ==> self.map@[k].wf()
    }

    pub open spec fn view(&self) -> Map<Seq<char>, MonsterModel> {
        Map::new(|k: Seq<char>| self.map@.contains_key(k), |k: Seq<char>| self.map@[k]@)
    }

    pub fn new() -> (t: Self)
        ensures
            t.wf(),
            t@ == Map::<Seq<char>, MonsterModel>::empty(),
    {
        let t = MonsterTable { map: StrMap::new() };
        assert(t@ =~= Map::empty());
        t
    }

    /// Take out the totals under `kind` (zero when absent) for updating.
    pub fn take(&mut self, kind: &str) -> (t: MonsterTotals)
        requires
            old(self).wf(),
        ensures
            final(self).wf(),
            t.wf(),
            t@ == monster_of(old(self)@, kind@),
            final(self)@ == old(self)@.remove(kind@),
    {
        let r = self.map.remove(kind);
        proof {
            assert(self@ =~= old(self)@.remove(kind@));
        }
        match r {
            Some(t) => t,
            None => MonsterTotals::new(),
        }
    }

    /// Put back totals under `kind`.
    pub fn put(&mut self, kind: &str, t: MonsterTotals)
        requires
            old(self).wf(),
            t.wf(),
        ensures
            final(self).wf(),
            final(self)@ == old(self)@.insert(kind@, t@),
    {
        let ghost tv = t@;
        self.map.insert(owned(kind), t);
        proof {
            assert(self@ =~= old(self)@.insert(kind@, tv));
        }
    }
}

/// The cooldown check made for one player attack request.
#[derive(Clone, Copy)]
pub struct PlayerAttackWindow {
    pub checked_at_ms: u64,
    pub since_accepted_ms: Option<u64>,
    pub checked_interval_ms: u64,
    pub accepted: bool,
}

/// One player attack request as the audit records it.
pub struct PlayerAttackEvent {
    pub requested_at_ms: u64,
    pub request_interval_ms: Option<u64>,
    pub monster_id: String,
    pub outcome: String,
    pub detail: Option<String>,
    pub cooldown: Option<PlayerAttackWindow>,
}

/// Player attack requests within a window.
pub struct PlayerAttackTotals {
    pub requests: u64,
    pub outcomes: Tally,
    pub events: Vec<PlayerAttackEvent>,
    pub dropped_events: u64,
}

pub struct AttacksModel {
    pub requests: u64,
    pub outcomes: Map<Seq<char>, u64>,
    pub events: Seq<PlayerAttackEvent>,
    pub dropped_events: u64,
}

impl PlayerAttackTotals {
    pub open spec fn wf(&self) -> bool {
        &&& self.outcomes.wf()
        &&& self.events@.len() <= MAX_PLAYER_ATTACK_EVENTS
    }

    pub open spec fn view(&self) -> AttacksModel {
        AttacksModel {
            requests: self.requests,
            outcomes: self.outcomes@,
            events: self.events@,
            dropped_events: self.dropped_events,
        }
    }

    pub fn new() -> (t: Self)
        ensures
            t.wf(),
            t@ == (AttacksModel { requests: 0, outcomes: Map::empty(), events: Seq::empty(), dropped_events: 0 }),
    {
        PlayerAttackTotals { requests: 0, outcomes: Tally::new(), events: Vec::new(), dropped_events: 0 }
    }
}

/// One audit row: a character's combat over one window.
pub struct Window {
    pub character_id: i64,
    pub player_id: u128,
    pub name: String,
    pub start_ms: u64,
    pub end_ms: u64,
    pub reason: WindowReason,
    pub start_hp: u32,
    pub end_hp: u32,
    pub max_hp: u32,
    pub level: u32,
    pub health_gained: Tally,
    pub health_lost: Tally,
    pub deaths: u64,
    pub level_ups: u64,
    pub history_overflow: bool,
    pub monsters: MonsterTable,
    pub player_attacks: PlayerAttackTotals,
}

pub struct WindowModel {
    pub character_id: i64,
    pub player_id: u128,
    pub name: Seq<char>,
    pub start_ms: u64,
    pub end_ms: u64,
    pub reason: WindowReason,
    pub start_hp: u32,
    pub end_hp: u32,
    pub max_hp: u32,
    pub level: u32,
    pub health_gained: Map<Seq<char>, u64>,
    pub gained_total: int,
    pub health_lost: Map<Seq<char>, u64>,
    pub lost_total: int,
    pub deaths: u64,
    pub level_ups: u64,
    pub history_overflow: bool,
    pub monsters: Map<Seq<char>, MonsterModel>,
    pub player_attacks: AttacksModel,
}

/// A fresh window for `p` opened at `now`.
pub open spec fn window_new(character_id: i64, p: AuditPlayer, now: u64) -> WindowModel {
    WindowModel {
        character_id,
        player_id: p.id,
        name: p.name@,
        start_ms: now,
        end_ms: now,
        reason: WindowReason::Interval,
        start_hp: p.health,
        end_hp: p.health,
        max_hp: p.max_health,
        level: p.level,
        health_gained: Map::empty(),
        gained_total: 0,
        health_lost: Map::empty(),
        lost_total: 0,
        deaths: 0,
        level_ups: 0,
        history_overflow: false,
        monsters: Map::empty(),
        player_attacks: AttacksModel { requests: 0, outcomes: Map::empty(), events: Seq::empty(), dropped_events: 0 },
    }
}

/// The count under `k` of a tally model, zero when absent.
pub open spec fn count_of(m: Map<Seq<char>, u64>, k: Seq<char>) -> u64 {
    if m.contains_key(k) { m[k] } else { 0 }
}

/// A window after `p`'s health moved from `old` by `source`: the gain or
/// loss is credited to the source, and the end health, maximum and level
/// follow the player.
pub open spec fn window_health(w: WindowModel, old_health: u32, p: AuditPlayer, source: Seq<char>) -> WindowModel {
    let w2 = if p.health > old_health {
        let n = sat(count_of(w.health_gained, source) as int, p.health - old_health);
        WindowModel {
            health_gained: w.health_gained.insert(source, n),
            gained_total: w.gained_total - count_of(w.health_gained, source) + n,
            ..w
        }
    } else if p.health < old_health {
        let n = sat(count_of(w.health_lost, source) as int, old_health - p.health);
        WindowModel {
            health_lost: w.health_lost.insert(source, n),
            lost_total: w.lost_total - count_of(w.health_lost, source) + n,
            ..w
        }
    } else {
        w
    };
    WindowModel { end_hp: p.health, max_hp: p.max_health, level: p.level, ..w2 }
}

/// The kind an attempt is filed under.
pub open spec fn kind_key(kind: Option<Seq<char>>) -> Seq<char> {
    match kind {
        Some(k) => k,
        None => seq!['u', 'n', 'k', 'n', 'o', 'w', 'n'],
    }
}

/// Totals after one attempt: a client request or a server attempt.
pub open spec fn attempt(t: MonsterModel, client: bool) -> MonsterModel {
    if client {
        MonsterModel { client_requests: sat(t.client_requests as int, 1), ..t }
    } else {
        MonsterModel { server_attempts: sat(t.server_attempts as int, 1), ..t }
    }
}

impl Window {
    pub open spec fn wf(&self) -> bool {
        &&& self.health_gained.wf()
        &&& self.health_lost.wf()
        &&& self.monsters.wf()
        &&& self.player_attacks.wf()
    }

    pub open spec fn view(&self) -> WindowModel {
        WindowModel {
            character_id: self.character_id,
            player_id: self.player_id,
            name: self.name@,
            start_ms: self.start_ms,
            end_ms: self.end_ms,
            reason: self.reason,
            start_hp: self.start_hp,
            end_hp: self.end_hp,
            max_hp: self.max_hp,
            level: self.level,
            health_gained: self.health_gained@,
            gained_total: self.health_gained.total(),
            health_lost: self.health_lost@,
            lost_total: self.health_lost.total(),
            deaths: self.deaths,
            level_ups: self.level_ups,
            history_overflow: self.history_overflow,
            monsters: self.monsters@,
            player_attacks: self.player_attacks@,
        }
    }

    /// A fresh window for `p` opened at `now`.
    pub fn new(character_id: i64, p: &AuditPlayer, now: u64) -> (w: Self)
        ensures
            w.wf(),
            w@ == window_new(character_id, *p, now),
    {
        Window {
            character_id,
            player_id: p.id,
            name: p.name.clone(),
            start_ms: now,
            end_ms: now,
            reason: WindowReason::Interval,
            start_hp: p.health,
            end_hp: p.health,
            max_hp: p.max_health,
            level: p.level,
            health_gained: Tally::new(),
            health_lost: Tally::new(),
            deaths: 0,
            level_ups: 0,
            history_overflow: false,
            monsters: MonsterTable::new(),
            player_attacks: PlayerAttackTotals::new(),
        }
    }

    /// Record that `p`'s health moved from `old` because of `source`.
    pub fn health(&mut self, old_health: u32, p: &AuditPlayer, source: &str)
        requires
            old(self).wf(),
        ensures
            final(self).wf(),
            final(self)@ == window_health(old(self)@, old_health, *p, source@),
    {
        if p.health > old_health {
            self.health_gained.add(source, (p.health - old_health) as u64);
        } else if p.health < old_health {
            self.health_lost.add(source, (old_health - p.health) as u64);
        }
        self.end_hp = p.health;
        self.max_hp = p.max_health;
        self.level = p.level;
        proof {
            assert(self@ =~= window_health(old(self)@, old_health, *p, source@));
        }
    }
}

/// A window balances when the health it moved between its start and end is
/// exactly what its sources gained and lost.
pub open spec fn balanced(w: WindowModel) -> bool {
    w.end_hp - w.start_hp == w.gained_total - w.lost_total
}

/// A fresh window balances, and recording each health change against the
/// health the window last saw keeps it balanced, overkill and full heals
/// included (counts far below saturation).
pub proof fn law_health_balances(w: WindowModel, old_health: u32, p: AuditPlayer, source: Seq<char>, character_id: i64, q: AuditPlayer, now: u64)
    requires
        balanced(w),
        old_health == w.end_hp,
        count_of(w.health_gained, source) + p.health <= u64::MAX,
        count_of(w.health_lost, source) + old_health <= u64::MAX,
    ensures
        balanced(window_new(character_id, q, now)),
        balanced(window_health(w, old_health, p, source)),
{
}

/// An audited character's live session.
pub struct Session {
    pub window: Window,
    /// Monsters this session has attacked and not yet seen die.
    pub attempted: StrSet,
    pub tracking_started_ms: u64,
    pub last_player_request_ms: Option<u64>,
}

pub struct SessionModel {
    pub window: WindowModel,
    pub attempted: Set<Seq<char>>,
    pub attempted_count: nat,
    pub tracking_started_ms: u64,
    pub last_player_request_ms: Option<u64>,
}

impl Session {
    pub open spec fn wf(&self) -> bool {
        &&& self.window.wf()
        &&& self.attempted.wf()
    }

    pub open spec fn view(&self) -> SessionModel {
        SessionModel {
            window: self.window@,
            attempted: self.attempted@,
            attempted_count: self.attempted.items@.len(),
            tracking_started_ms: self.tracking_started_ms,
            last_player_request_ms: self.last_player_request_ms,
        }
    }
}

/// Which characters are audited, and for how many days rows are kept.
pub struct Config {
    pub character_ids: IdSet,
    pub retention_days: u16,
}

pub struct ConfigModel {
    pub character_ids: Set<i64>,
    pub retention_days: u16,
}

impl Config {
    pub open spec fn wf(&self) -> bool {
        self.character_ids.wf()
    }

    pub open spec fn view(&self) -> ConfigModel {
        ConfigModel { character_ids: self.character_ids@, retention_days: self.retention_days }
    }

    /// Whether two configurations audit the same characters with the same
    /// retention.
    pub fn same(&self, other: &Config) -> (r: bool)
        requires
            self.wf(),
            other.wf(),
        ensures
            r == (self@ == other@),
    {
        self.retention_days == other.retention_days && self.character_ids.same_ids(&other.character_ids)
    }
}

pub open spec fn config_view(c: Option<Config>) -> Option<ConfigModel> {
    match c {
        Some(c) => Some(c@),
        None => None,
    }
}

/// The audit's whole state.
pub struct CombatAudit {
    /// Some character is targeted: the cheap check every hook makes first.
    pub active: bool,
    pub config: Option<Config>,
    pub config_error: Option<String>,
    /// Character of each logged-in player.
    pub characters: IdMap<i64>,
    pub sessions: IdMap<Session>,
    pub pending: VecDeque<Window>,
    pub last_pruned: Option<(String, u16)>,
}

pub struct AuditModel {
    pub active: bool,
    pub config: Option<ConfigModel>,
    pub characters: Map<u128, i64>,
    pub sessions: Map<u128, SessionModel>,
    pub pending: Seq<WindowModel>,
    /// The last configuration error reported, until a read succeeds.
    pub config_error: Option<Seq<char>>,
    /// The (day, retention) of the last prune that ran.
    pub last_pruned: Option<(Seq<char>, u16)>,
}

/// The targeted characters (none without a configuration).
pub open spec fn targets(c: Option<ConfigModel>) -> Set<i64> {
    match c {
        Some(c) => c.character_ids,
        None => Set::empty(),
    }
}

/// The queue after closing `w` at `now` for `reason`; when full, the oldest
/// row makes room.
pub open spec fn queue_row(pending: Seq<WindowModel>, w: WindowModel, now: u64, reason: WindowReason) -> Seq<WindowModel> {
    let row = WindowModel { end_ms: now, reason, ..w };
    if pending.len() >= MAX_PENDING { pending.drop_first().push(row) } else { pending.push(row) }
}

/// The audit after `p` is seen at `now`: a targeted character without a
/// session gets one.
pub open spec fn observe_model(m: AuditModel, p: AuditPlayer, now: u64) -> AuditModel {
    if m.characters.contains_key(p.id) && targets(m.config).contains(m.characters[p.id])
        && m.config is Some && !m.sessions.contains_key(p.id) {
        AuditModel {
            sessions: m.sessions.insert(p.id, SessionModel {
                window: window_new(m.characters[p.id], p, now),
                attempted: Set::empty(),
                attempted_count: 0,
                tracking_started_ms: now,
                last_player_request_ms: None,
            }),
            ..m
        }
    } else {
        m
    }
}

/// A session's window with one field updated.
pub open spec fn with_window(s: SessionModel, w: WindowModel) -> SessionModel {
    SessionModel { window: w, ..s }
}

/// A session after monster `monster_id` of `kind` dies: it forgets having
/// attempted it, and the killer's totals count the kill, noting a kill never
/// seen attempted unless the history overflowed.
pub open spec fn kill_session(s: SessionModel, is_killer: bool, monster_id: Seq<char>, kind: Seq<char>) -> SessionModel {
    let attempted = s.attempted.contains(monster_id);
    let s1 = SessionModel {
        attempted: s.attempted.remove(monster_id),
        attempted_count: if attempted { (s.attempted_count - 1) as nat } else { s.attempted_count },
        ..s
    };
    if is_killer {
        let t = monster_of(s.window.monsters, kind);
        let t2 = MonsterModel {
            kills: sat(t.kills as int, 1),
            kills_without_observed_attempt: if !attempted && !s.window.history_overflow {
                sat(t.kills_without_observed_attempt as int, 1)
            } else {
                t.kills_without_observed_attempt
            },
            ..t
        };
        with_window(s1, WindowModel { monsters: s.window.monsters.insert(kind, t2), ..s.window })
    } else {
        s1
    }
}

impl CombatAudit {
    pub open spec fn wf(&self) -> bool {
        &&& self.characters.wf()
        &&& self.sessions.wf()
        &&& forall|k: u128| #[trigger] self.sessions@.contains_key(k) ==> self.sessions@[k].wf()
        &&& forall|i: int| 0 <= i < self.pending@.len() ==> #[trigger] self.pending@[i].wf()
        &&& self.pending@.len() <= MAX_PENDING
        &&& match self.config { Some(c) => c.wf(), None => true }
    }

    pub open spec fn view(&self) -> AuditModel {
        AuditModel {
            active: self.active,
            config: config_view(self.config),
            characters: self.characters@,
            sessions: Map::new(|k: u128| self.sessions@.contains_key(k), |k: u128| self.sessions@[k]@),
            pending: self.pending@.map_values(|w: Window| w@),
            config_error: opt_seq(self.config_error),
            last_pruned: match self.last_pruned { Some(k) => Some((k.0@, k.1)), None => None },
        }
    }

    pub fn new() -> (a: Self)
        ensures
            a.wf(),
            !a@.active,
            a@.config is None,
            a@.characters == Map::<u128, i64>::empty(),
            a@.sessions == Map::<u128, SessionModel>::empty(),
            a@.pending == Seq::<WindowModel>::empty(),
            a@.config_error is None,
            a@.last_pruned is None,
    {
        let a = CombatAudit {
            active: false,
            config: None,
            config_error: None,
            characters: IdMap::new(),
            sessions: IdMap::new(),
            pending: VecDeque::new(),
            last_pruned: None,
        };
        assert(a@.sessions =~= Map::empty());
        assert(a@.pending =~= Seq::empty());
        a
    }

    /// Remember which character `id` plays.
    pub fn register(&mut self, id: u128, character_id: i64)
        requires
            old(self).wf(),
        ensures
            final(self).wf(),
            final(self)@ == (AuditModel { characters: old(self)@.characters.insert(id, character_id), ..old(self)@ }),
    {
        self.characters.insert(id, character_id);
        proof {
            assert(self@.sessions =~= old(self)@.sessions);
        }
    }

    /// Close `w` at `now` for `reason` and queue it.
    fn queue(&mut self, w: Window, now: u64, reason: WindowReason)
        requires
            old(self).wf(),
            w.wf(),
        ensures
            final(self).wf(),
            final(self)@ == (AuditModel { pending: queue_row(old(self)@.pending, w@, now, reason), ..old(self)@ }),
    {
        let mut row = w;
        row.end_ms = now;
        row.reason = reason;
        if self.pending.len() >= MAX_PENDING {
            self.pending.pop_front();
        }
        self.pending.push_back(row);
        proof {
            let old_p = old(self).pending@;
            assert(self@.sessions =~= old(self)@.sessions);
            if old_p.len() >= MAX_PENDING {
                assert(self.pending@ =~= old_p.drop_first().push(row));
                assert(self@.pending =~= queue_row(old(self)@.pending, w@, now, reason));
            } else {
                assert(self@.pending =~= queue_row(old(self)@.pending, w@, now, reason));
            }
            assert forall|i: int| 0 <= i < self.pending@.len() implies #[trigger] self.pending@[i].wf() by {
                if old_p.len() >= MAX_PENDING {
                    if i < self.pending@.len() - 1 { assert(self.pending@[i] == old_p[i + 1]); }
                } else {
                    if i < self.pending@.len() - 1 { assert(self.pending@[i] == old_p[i]); }
                }
            }
        }
    }

    /// Open a session for `p` at `now` if their character is targeted and
    /// none is open.
    pub fn observe_at(&mut self, p: &AuditPlayer, now: u64)
        requires
            old(self).wf(),
        ensures
            final(self).wf(),
            final(self)@ == if old(self)@.active { observe_model(old(self)@, *p, now) } else { old(self)@ },
    {
        if !self.active {
            return;
        }
        self.observe_inner(p, now);
    }

    fn observe_inner(&mut self, p: &AuditPlayer, now: u64)
        requires
            old(self).wf(),
        ensures
            final(self).wf(),
            final(self)@ == observe_model(old(self)@, *p, now),
    {
        let character_id = match self.characters.get(p.id) {
            Some(c) => *c,
            None => return,
        };
        let targeted = match &self.config {
            Some(c) => c.character_ids.contains(character_id),
            None => false,
        };
        if !targeted || self.sessions.contains_key(p.id) {
            return;
        }
        let session = Session {
            window: Window::new(character_id, p, now),
            attempted: StrSet::new(),
            tracking_started_ms: now,
            last_player_request_ms: None,
        };
        let ghost sv = session@;
        self.sessions.insert(p.id, session);
        proof {
            assert(sv.attempted =~= Set::empty());
            assert(self@.sessions =~= observe_model(old(self)@, *p, now).sessions);
        }
    }

    /// Open a session for `p` now; see `observe_at`.
    pub fn observe(&mut self, p: &AuditPlayer)
        requires
            old(self).wf(),
        ensures
            final(self).wf(),
            exists|now: u64| final(self)@ == if old(self)@.active { observe_model(old(self)@, *p, now) } else { old(self)@ },
    {
        let now = crate::clock::now_ms();
        self.observe_at(p, now);
    }

    /// `id` logged out at `now`: forget their character and close their
    /// window.
    pub fn logout_at(&mut self, id: u128, now: u64)
        requires
            old(self).wf(),
        ensures
            final(self).wf(),
            final(self)@.characters == old(self)@.characters.remove(id),
            final(self)@.sessions == old(self)@.sessions.remove(id),
            final(self)@.active == old(self)@.active,
            final(self)@.config == old(self)@.config,
            final(self)@.config_error == old(self)@.config_error,
            final(self)@.last_pruned == old(self)@.last_pruned,
            final(self)@.pending == if old(self)@.sessions.contains_key(id) {
                queue_row(old(self)@.pending, old(self)@.sessions[id].window, now, WindowReason::Logout)
            } else {
                old(self)@.pending
            },
    {
        self.characters.remove(id);
        match self.sessions.remove(id) {
            Some(session) => {
                proof {
                    assert(self@.sessions =~= old(self)@.sessions.remove(id));
                }
                self.queue(session.window, now, WindowReason::Logout);
            },
            None => {
                proof {
                    assert(self@.sessions =~= old(self)@.sessions.remove(id));
                }
            },
        }
    }

    /// `id` logged out now; see `logout_at`.
    pub fn logout(&mut self, id: u128)
        requires
            old(self).wf(),
        ensures
            final(self).wf(),
            final(self)@.characters == old(self)@.characters.remove(id),
            final(self)@.sessions == old(self)@.sessions.remove(id),
            final(self)@.active == old(self)@.active,
            final(self)@.config == old(self)@.config,
            final(self)@.config_error == old(self)@.config_error,
            final(self)@.last_pruned == old(self)@.last_pruned,
            exists|now: u64| #![trigger queue_row(old(self)@.pending, old(self)@.sessions[id].window, now, WindowReason::Logout)]
                final(self)@.pending == if old(self)@.sessions.contains_key(id) {
                queue_row(old(self)@.pending, old(self)@.sessions[id].window, now, WindowReason::Logout)
            } else {
                old(self)@.pending
            },
    {
        let now = crate::clock::now_ms();
        self.logout_at(id, now);
        proof {
            let q = queue_row(old(self)@.pending, old(self)@.sessions[id].window, now, WindowReason::Logout);
        }
    }

    /// Take out `id`'s session for updating.
    fn take_session(&mut self, id: u128) -> (r: Option<Session>)
        requires
            old(self).wf(),
        ensures
            final(self).wf(),
            final(self).active == old(self).active,
            final(self).config == old(self).config,
            final(self).characters == old(self).characters,
            final(self).pending == old(self).pending,
            final(self).sessions@ == old(self).sessions@.remove(id),
            final(self).config_error == old(self).config_error,
            final(self).last_pruned == old(self).last_pruned,
            match r {
                Some(s) => old(self).sessions@.contains_key(id) && s == old(self).sessions@[id] && s.wf(),
                None => !old(self).sessions@.contains_key(id),
            },
    {
        self.sessions.remove(id)
    }

    /// Put back `id`'s session.
    fn put_session(&mut self, id: u128, s: Session)
        requires
            old(self).wf(),
            s.wf(),
        ensures
            final(self).wf(),
            final(self).active == old(self).active,
            final(self).config == old(self).config,
            final(self).characters == old(self).characters,
            final(self).pending == old(self).pending,
            final(self).sessions@ == old(self).sessions@.insert(id, s),
            final(self).config_error == old(self).config_error,
            final(self).last_pruned == old(self).last_pruned,
    {
        self.sessions.insert(id, s);
    }

    /// `p`'s health moved from `old_health` because of `source`.
    pub fn health(&mut self, old_health: u32, p: &AuditPlayer, source: &str)
        requires
            old(self).wf(),
        ensures
            final(self).wf(),
            final(self)@ == if old(self)@.active && old(self)@.sessions.contains_key(p.id) {
                let s = old(self)@.sessions[p.id];
                let w = window_health(s.window, old_health, *p, source@);
                let w2 = if source@ == seq!['l', 'e', 'v', 'e', 'l', '_', 'u', 'p'] {
                    WindowModel { level_ups: sat(w.level_ups as int, 1), ..w }
                } else {
                    w
                };
                AuditModel { sessions: old(self)@.sessions.insert(p.id, with_window(s, w2)), ..old(self)@ }
            } else {
                old(self)@
            },
    {
        if !self.active {
            return;
        }
        let mut s = match self.take_session(p.id) {
            Some(s) => s,
            None => {
                proof { assert(self@.sessions =~= old(self)@.sessions); }
                return;
            },
        };
        s.window.health(old_health, p, source);
        proof { reveal_strlit("level_up"); }
        let level_up = owned("level_up");
        proof { assert(level_up@ =~= seq!['l', 'e', 'v', 'e', 'l', '_', 'u', 'p']); }
        if owned(source).eq(&level_up) {
            s.window.level_ups = sat_add(s.window.level_ups, 1);
        }
        let ghost sv = s@;
        self.put_session(p.id, s);
        proof {
            assert(self@.sessions =~= old(self)@.sessions.insert(p.id, sv));
        }
    }

    /// `id` died.
    pub fn death(&mut self, id: u128)
        requires
            old(self).wf(),
        ensures
            final(self).wf(),
            final(self)@ == if old(self)@.active && old(self)@.sessions.contains_key(id) {
                let s = old(self)@.sessions[id];
                AuditModel { sessions: old(self)@.sessions.insert(id,
                    with_window(s, WindowModel { deaths: sat(s.window.deaths as int, 1), ..s.window })), ..old(self)@ }
            } else {
                old(self)@
            },
    {
        if !self.active {
            return;
        }
        let mut s = match self.take_session(id) {
            Some(s) => s,
            None => {
                proof { assert(self@.sessions =~= old(self)@.sessions); }
                return;
            },
        };
        s.window.deaths = sat_add(s.window.deaths, 1);
        let ghost sv = s@;
        self.put_session(id, s);
        proof {
            assert(self@.sessions =~= old(self)@.sessions.insert(id, sv));
        }
    }
}

impl CombatAudit {
    /// Monster `monster_id` of `kind` died to `killer`.
    pub fn kill(&mut self, killer: u128, monster_id: &str, kind: &str)
        requires
            old(self).wf(),
        ensures
            final(self).wf(),
            !old(self)@.active ==> final(self)@ == old(self)@,
            old(self)@.active ==> final(self)@ == (AuditModel {
                sessions: Map::new(
                    |pid: u128| old(self)@.sessions.contains_key(pid),
                    |pid: u128| kill_session(old(self)@.sessions[pid], pid == killer, monster_id@, kind@),
                ),
                ..old(self)@
            }),
    {
        if !self.active {
            return;
        }
        let ks = self.sessions.keys();
        let ghost om = old(self)@.sessions;
        let mut i: usize = 0;
        while i < ks.len()
            invariant
                self.wf(),
                i <= ks@.len(),
                self.active == old(self).active,
                self.config == old(self).config,
                self.characters == old(self).characters,
                self.pending == old(self).pending,
                self.config_error == old(self).config_error,
                self.last_pruned == old(self).last_pruned,
                om == old(self)@.sessions,
                forall|a: int, b: int| 0 <= a < b < ks@.len() ==> ks@[a] != ks@[b],
                forall|k: u128| #[trigger] old(self).sessions@.contains_key(k) <==> ks@.contains(k),
                forall|k: u128| #[trigger] self@.sessions.contains_key(k) <==> om.contains_key(k),
                forall|k: u128| #[trigger] self@.sessions.contains_key(k) ==> self@.sessions[k] ==
                    if ks@.subrange(0, i as int).contains(k) { kill_session(om[k], k == killer, monster_id@, kind@) } else { om[k] },
            decreases ks@.len() - i,
        {
            let k = ks[i];
            proof {
                assert(ks@.contains(k));
                assert(!ks@.subrange(0, i as int).contains(k)) by {
                    if ks@.subrange(0, i as int).contains(k) {
                        let pre = ks@.subrange(0, i as int);
                        let c = choose|c: int| 0 <= c < pre.len() && #[trigger] pre[c] == k;
                        assert(ks@[c] == ks@[i as int]);
                    }
                }
                assert(old(self).sessions@.contains_key(k));
                assert(old(self)@.sessions.contains_key(k));
                assert(om.contains_key(k));
                assert(self@.sessions.contains_key(k));
            }
            let ghost before = self@.sessions;
            let mut s = match self.take_session(k) {
                Some(s) => s,
                None => { proof { assert(false); } return; },
            };
            let ghost sv = s@;
            let was = s.attempted.remove(monster_id);
            if k == killer {
                let mut t = s.window.monsters.take(kind);
                t.kills = sat_add(t.kills, 1);
                if !was && !s.window.history_overflow {
                    t.kills_without_observed_attempt = sat_add(t.kills_without_observed_attempt, 1);
                }
                s.window.monsters.put(kind, t);
            }
            let ghost nv = s@;
            proof {
                assert(sv == om[k]);
                assert(s@.window.monsters =~= (if k == killer {
                    sv.window.monsters.insert(kind@, MonsterModel {
                        kills: sat(monster_of(sv.window.monsters, kind@).kills as int, 1),
                        kills_without_observed_attempt: if !sv.attempted.contains(monster_id@) && !sv.window.history_overflow {
                            sat(monster_of(sv.window.monsters, kind@).kills_without_observed_attempt as int, 1)
                        } else {
                            monster_of(sv.window.monsters, kind@).kills_without_observed_attempt
                        },
                        ..monster_of(sv.window.monsters, kind@)
                    })
                } else { sv.window.monsters }));
                assert(nv == kill_session(sv, k == killer, monster_id@, kind@));
            }
            self.put_session(k, s);
            proof {
                let done = ks@.subrange(0, i as int);
                let done2 = ks@.subrange(0, i + 1);
                assert forall|j: u128| #[trigger] self@.sessions.contains_key(j) implies self@.sessions[j] ==
                    if done2.contains(j) { kill_session(om[j], j == killer, monster_id@, kind@) } else { om[j] } by {
                    if j == k {
                        assert(done2[i as int] == k);
                    } else {
                        assert(before.contains_key(j));
                        if done2.contains(j) {
                            let c = choose|c: int| 0 <= c < done2.len() && #[trigger] done2[c] == j;
                            assert(c < i);
                            assert(done[c] == j);
                        } else {
                            if done.contains(j) {
                                let c = choose|c: int| 0 <= c < done.len() && #[trigger] done[c] == j;
                                assert(done2[c] == j);
                            }
                        }
                    }
                }
            }
            i = i + 1;
        }
        proof {
            assert(ks@.subrange(0, ks@.len() as int) =~= ks@);
            assert(self@.sessions =~= Map::new(
                |pid: u128| old(self)@.sessions.contains_key(pid),
                |pid: u128| kill_session(old(self)@.sessions[pid], pid == killer, monster_id@, kind@),
            ));
        }
    }
}

/// Totals after a resolved monster attack: counted as an attempt, a hit or
/// a miss, and the damage dealt.
pub open spec fn attempt_resolved(t: MonsterModel, client: bool, hit: bool, damage: int) -> MonsterModel {
    let t1 = attempt(t, client);
    let t2 = if hit { MonsterModel { hits: sat(t1.hits as int, 1), ..t1 } } else { MonsterModel { misses: sat(t1.misses as int, 1), ..t1 } };
    MonsterModel { damage: sat(t2.damage as int, damage), ..t2 }
}

/// Totals after an attack that never resolved: counted as an attempt,
/// rejected for `reason`.
pub open spec fn attempt_rejected(t: MonsterModel, client: bool, reason: Seq<char>) -> MonsterModel {
    let t1 = attempt(t, client);
    MonsterModel { rejected: t1.rejected.insert(reason, sat(count_of(t1.rejected, reason) as int, 1)), ..t1 }
}

/// A monster attack on a player being audited, from its first check to its
/// resolution. One that is closed unresolved counts as rejected for its
/// `reason`.
pub struct Attack {
    pub id: u128,
    pub client: bool,
    pub kind: Option<String>,
    pub reason: &'static str,
    pub finished: bool,
}

pub open spec fn opt_seq(o: Option<String>) -> Option<Seq<char>> {
    match o {
        Some(s) => Some(s@),
        None => None,
    }
}

impl CombatAudit {
    /// Start auditing an attack on `id`; `client` marks one the owning client
    /// requested.
    pub fn attack(&self, id: u128, client: bool) -> (a: Attack)
        ensures
            a.id == id,
            a.client == client,
            a.kind is None,
            a.reason@ == seq!['m', 'i', 's', 's', 'i', 'n', 'g', '_', 'm', 'o', 'n', 's', 't', 'e', 'r'],
            !a.finished,
    {
        proof {
            reveal_strlit("missing_monster");
        }
        let a = Attack { id, client, kind: None, reason: "missing_monster", finished: false };
        assert(a.reason@ =~= seq!['m', 'i', 's', 's', 'i', 'n', 'g', '_', 'm', 'o', 'n', 's', 't', 'e', 'r']);
        a
    }
}

/// A session after an attack on it names monster `monster_id`: the monster
/// is remembered as attempted while there is room; a new one beyond the room
/// marks the history as overflowed.
pub open spec fn remember_attempt(s: SessionModel, monster_id: Seq<char>) -> SessionModel {
    if s.attempted_count < MAX_MONSTERS {
        SessionModel {
            attempted: s.attempted.insert(monster_id),
            attempted_count: if s.attempted.contains(monster_id) { s.attempted_count } else { s.attempted_count + 1 },
            ..s
        }
    } else if !s.attempted.contains(monster_id) {
        with_window(s, WindowModel { history_overflow: true, ..s.window })
    } else {
        s
    }
}

impl Attack {
    /// The attack names its monster.
    pub fn monster(&mut self, audit: &mut CombatAudit, monster_id: &str, kind: &str)
        requires
            old(audit).wf(),
        ensures
            final(audit).wf(),
            final(self).id == old(self).id,
            final(self).client == old(self).client,
            final(self).reason == old(self).reason,
            final(self).finished == old(self).finished,
            if old(audit)@.active && old(audit)@.sessions.contains_key(old(self).id) {
                &&& opt_seq(final(self).kind) == Some(kind@)
                &&& final(audit)@ == (AuditModel {
                    sessions: old(audit)@.sessions.insert(old(self).id, remember_attempt(old(audit)@.sessions[old(self).id], monster_id@)),
                    ..old(audit)@
                })
            } else {
                final(self).kind == old(self).kind && final(audit)@ == old(audit)@
            },
    {
        if !audit.active {
            return;
        }
        let mut s = match audit.take_session(self.id) {
            Some(s) => s,
            None => {
                proof { assert(audit@.sessions =~= old(audit)@.sessions); }
                return;
            },
        };
        self.kind = Some(owned(kind));
        if s.attempted.len() < MAX_MONSTERS {
            s.attempted.insert(owned(monster_id));
        } else if !s.attempted.contains(monster_id) {
            s.window.history_overflow = true;
        }
        let ghost sv = s@;
        audit.put_session(self.id, s);
        proof {
            assert(audit@.sessions =~= old(audit)@.sessions.insert(old(self).id, sv));
            assert(sv == remember_attempt(old(audit)@.sessions[old(self).id], monster_id@));
        }
    }

    /// The attack resolved: `p`'s health went from `old_health`, and it hit
    /// or missed.
    pub fn resolved(&mut self, audit: &mut CombatAudit, old_health: u32, p: &AuditPlayer, hit: bool)
        requires
            old(audit).wf(),
        ensures
            final(audit).wf(),
            *final(self) == (Attack { finished: true, ..*old(self) }),
            final(audit)@ == if old(audit)@.active && old(audit)@.sessions.contains_key(old(self).id) {
                let s = old(audit)@.sessions[old(self).id];
                let w = window_health(s.window, old_health, *p, seq!['m', 'o', 'n', 's', 't', 'e', 'r']);
                let key = kind_key(opt_seq(old(self).kind));
                let damage = if old_health > p.health { old_health - p.health } else { 0 };
                let t = attempt_resolved(monster_of(w.monsters, key), old(self).client, hit, damage);
                AuditModel {
                    sessions: old(audit)@.sessions.insert(old(self).id, with_window(s, WindowModel { monsters: w.monsters.insert(key, t), ..w })),
                    ..old(audit)@
                }
            } else {
                old(audit)@
            },
    {
        self.finished = true;
        if !audit.active {
            return;
        }
        let mut s = match audit.take_session(self.id) {
            Some(s) => s,
            None => {
                proof { assert(audit@.sessions =~= old(audit)@.sessions); }
                return;
            },
        };
        proof { reveal_strlit("monster"); }
        s.window.health(old_health, p, "monster");
        proof { assert("monster"@ =~= seq!['m', 'o', 'n', 's', 't', 'e', 'r']); }
        let key = kind_or_unknown(&self.kind);
        let mut t = s.window.monsters.take(key.as_str());
        if self.client {
            t.client_requests = sat_add(t.client_requests, 1);
        } else {
            t.server_attempts = sat_add(t.server_attempts, 1);
        }
        if hit {
            t.hits = sat_add(t.hits, 1);
        } else {
            t.misses = sat_add(t.misses, 1);
        }
        let damage: u64 = if old_health > p.health { (old_health - p.health) as u64 } else { 0 };
        t.damage = sat_add(t.damage, damage);
        let ghost tv = t@;
        s.window.monsters.put(key.as_str(), t);
        let ghost sv = s@;
        audit.put_session(self.id, s);
        proof {
            assert(sv.window.monsters =~= window_health(old(audit)@.sessions[old(self).id].window, old_health, *p, seq!['m', 'o', 'n', 's', 't', 'e', 'r']).monsters.insert(key@, tv));
            assert(audit@.sessions =~= old(audit)@.sessions.insert(old(self).id, sv));
        }
    }

    /// The attack ends; unless it resolved, it counts as rejected for its
    /// reason.
    pub fn close(self, audit: &mut CombatAudit)
        requires
            old(audit).wf(),
        ensures
            final(audit).wf(),
            final(audit)@ == if !self.finished && old(audit)@.active && old(audit)@.sessions.contains_key(self.id) {
                let s = old(audit)@.sessions[self.id];
                let key = kind_key(opt_seq(self.kind));
                let t = attempt_rejected(monster_of(s.window.monsters, key), self.client, self.reason@);
                AuditModel {
                    sessions: old(audit)@.sessions.insert(self.id, with_window(s, WindowModel { monsters: s.window.monsters.insert(key, t), ..s.window })),
                    ..old(audit)@
                }
            } else {
                old(audit)@
            },
    {
        if self.finished || !audit.active {
            return;
        }
        let mut s = match audit.take_session(self.id) {
            Some(s) => s,
            None => {
                proof { assert(audit@.sessions =~= old(audit)@.sessions); }
                return;
            },
        };
        let key = kind_or_unknown(&self.kind);
        let mut t = s.window.monsters.take(key.as_str());
        if self.client {
            t.client_requests = sat_add(t.client_requests, 1);
        } else {
            t.server_attempts = sat_add(t.server_attempts, 1);
        }
        t.rejected.add(self.reason, 1);
        let ghost tv = t@;
        s.window.monsters.put(key.as_str(), t);
        let ghost sv = s@;
        audit.put_session(self.id, s);
        proof {
            assert(tv == attempt_rejected(monster_of(old(audit)@.sessions[self.id].window.monsters, key@), self.client, self.reason@));
            assert(sv.window.monsters =~= old(audit)@.sessions[self.id].window.monsters.insert(key@, tv));
            assert(audit@.sessions =~= old(audit)@.sessions.insert(self.id, sv));
        }
    }
}

/// The kind an attempt is filed under, as a string.
fn kind_or_unknown(kind: &Option<String>) -> (k: String)
    ensures
        k@ == kind_key(opt_seq(*kind)),
{
    match kind {
        Some(k) => k.clone(),
        None => {
            proof { reveal_strlit("unknown"); }
            let k = owned("unknown");
            assert(k@ =~= seq!['u', 'n', 'k', 'n', 'o', 'w', 'n']);
            k
        },
    }
}

/// A player's attack request being audited: recorded into the window of
/// the session it started in when it closes, as `interrupted` unless
/// finished with an outcome.
pub struct PlayerAttack {
    pub id: u128,
    pub tracking_started_ms: u64,
    pub event: PlayerAttackEvent,
}

/// The first `n` characters of `s`.
pub open spec fn prefix(s: Seq<char>, n: int) -> Seq<char> {
    if s.len() <= n { s } else { s.subrange(0, n) }
}

/// The totals after one player attack request ends with `event`.
pub open spec fn count_request(t: AttacksModel, event: PlayerAttackEvent) -> AttacksModel {
    let t1 = AttacksModel {
        requests: sat(t.requests as int, 1),
        outcomes: t.outcomes.insert(event.outcome@, sat(count_of(t.outcomes, event.outcome@) as int, 1)),
        ..t
    };
    if t1.events.len() < MAX_PLAYER_ATTACK_EVENTS {
        AttacksModel { events: t1.events.push(event), ..t1 }
    } else {
        AttacksModel { dropped_events: sat(t1.dropped_events as int, 1), ..t1 }
    }
}

/// Player `id`'s attack request on `monster_id` opened at `now` in audit
/// `m`, giving guard `r` and audit `after`: for an audited player the
/// session notes the request time and the guard carries the request, to be
/// recorded as `interrupted` unless finished; otherwise no guard and no
/// change.
pub open spec fn attack_started(m: AuditModel, id: u128, monster_id: Seq<char>, now: u64, r: Option<PlayerAttack>, after: AuditModel) -> bool {
    if m.active && m.sessions.contains_key(id) {
        let s = m.sessions[id];
        &&& after == (AuditModel {
            sessions: m.sessions.insert(id, SessionModel { last_player_request_ms: Some(now), ..s }),
            ..m
        })
        &&& r is Some
        &&& r->0.id == id
        &&& r->0.tracking_started_ms == s.tracking_started_ms
        &&& r->0.event.requested_at_ms == now
        &&& r->0.event.request_interval_ms == match s.last_player_request_ms {
            Some(last) => Some(if now >= last { (now - last) as u64 } else { 0u64 }),
            None => None,
        }
        &&& r->0.event.monster_id@ == prefix(monster_id, 128)
        &&& r->0.event.outcome@ == seq!['i', 'n', 't', 'e', 'r', 'r', 'u', 'p', 't', 'e', 'd']
        &&& r->0.event.detail is None
        &&& r->0.event.cooldown is None
    } else {
        r is None && after == m
    }
}

impl CombatAudit {
    /// Start auditing player `id`'s attack request on `monster_id` at `now`;
    /// `None` when the player is not audited.
    pub fn player_attack_at(&mut self, id: u128, monster_id: &str, now: u64) -> (r: Option<PlayerAttack>)
        requires
            old(self).wf(),
        ensures
            final(self).wf(),
            attack_started(old(self)@, id, monster_id@, now, r, final(self)@),
    {
        if !self.active {
            return None;
        }
        let mut s = match self.take_session(id) {
            Some(s) => s,
            None => {
                proof { assert(self@.sessions =~= old(self)@.sessions); }
                return None;
            },
        };
        let request_interval_ms = match s.last_player_request_ms {
            Some(last) => Some(if now >= last { now - last } else { 0 }),
            None => None,
        };
        s.last_player_request_ms = Some(now);
        let tracking_started_ms = s.tracking_started_ms;
        let ghost sv = s@;
        self.put_session(id, s);
        proof {
            assert(self@.sessions =~= old(self)@.sessions.insert(id, sv));
            reveal_strlit("interrupted");
        }
        let n = monster_id.unicode_len();
        let cut = if n > 128 { 128 } else { n };
        let outcome = owned("interrupted");
        assert(outcome@ =~= seq!['i', 'n', 't', 'e', 'r', 'r', 'u', 'p', 't', 'e', 'd']);
        let short = owned(monster_id.substring_char(0, cut));
        assert(short@ =~= prefix(monster_id@, 128));
        Some(PlayerAttack {
            id,
            tracking_started_ms,
            event: PlayerAttackEvent {
                requested_at_ms: now,
                request_interval_ms,
                monster_id: short,
                outcome,
                detail: None,
                cooldown: None,
            },
        })
    }

    /// Start auditing a player attack request now; see `player_attack_at`.
    pub fn player_attack(&mut self, id: u128, monster_id: &str) -> (r: Option<PlayerAttack>)
        requires
            old(self).wf(),
        ensures
            final(self).wf(),
            exists|now: u64| #[trigger] attack_started(old(self)@, id, monster_id@, now, r, final(self)@),
    {
        let now = crate::clock::now_ms();
        self.player_attack_at(id, monster_id, now)
    }
}

impl PlayerAttack {
    /// The request ended with `outcome`.
    pub fn finish(self, audit: &mut CombatAudit, outcome: String, detail: Option<String>, cooldown: Option<PlayerAttackWindow>)
        requires
            old(audit).wf(),
        ensures
            final(audit).wf(),
            final(audit)@ == close_model(old(audit)@, self.id, self.tracking_started_ms,
                PlayerAttackEvent { outcome, detail, cooldown, ..self.event }),
    {
        let PlayerAttack { id, tracking_started_ms, event } = self;
        let event = PlayerAttackEvent { outcome, detail, cooldown, ..event };
        PlayerAttack { id, tracking_started_ms, event }.close(audit);
    }

    /// The request ended: count it into the window of the session it
    /// started in, if that session is still the one open.
    pub fn close(self, audit: &mut CombatAudit)
        requires
            old(audit).wf(),
        ensures
            final(audit).wf(),
            final(audit)@ == close_model(old(audit)@, self.id, self.tracking_started_ms, self.event),
    {
        let PlayerAttack { id, tracking_started_ms, event } = self;
        let mut s = match audit.take_session(id) {
            Some(s) => s,
            None => {
                proof { assert(audit@.sessions =~= old(audit)@.sessions); }
                return;
            },
        };
        if s.tracking_started_ms != tracking_started_ms {
            let ghost sv = s@;
            audit.put_session(id, s);
            proof { assert(audit@.sessions =~= old(audit)@.sessions); }
            return;
        }
        let ghost ev = event;
        let totals = &mut s.window.player_attacks;
        totals.requests = sat_add(totals.requests, 1);
        totals.outcomes.add(event.outcome.as_str(), 1);
        if totals.events.len() < MAX_PLAYER_ATTACK_EVENTS {
            totals.events.push(event);
        } else {
            totals.dropped_events = sat_add(totals.dropped_events, 1);
        }
        let ghost sv = s@;
        audit.put_session(id, s);
        proof {
            assert(sv.window.player_attacks == count_request(old(audit)@.sessions[id].window.player_attacks, ev));
            assert(audit@.sessions =~= old(audit)@.sessions.insert(id, sv));
        }
    }
}

/// The audit after a player attack request closes with `event`.
pub open spec fn close_model(m: AuditModel, id: u128, tracking_started_ms: u64, event: PlayerAttackEvent) -> AuditModel {
    if m.sessions.contains_key(id) && m.sessions[id].tracking_started_ms == tracking_started_ms {
        let s = m.sessions[id];
        AuditModel {
            sessions: m.sessions.insert(id, with_window(s, WindowModel { player_attacks: count_request(s.window.player_attacks, event), ..s.window })),
            ..m
        }
    } else {
        m
    }
}

/// Every window's event list holds at most `MAX_PLAYER_ATTACK_EVENTS`, and
/// every request is either listed or counted as dropped.
pub proof fn law_attack_events_bounded(t: AttacksModel, event: PlayerAttackEvent)
    requires
        t.events.len() <= MAX_PLAYER_ATTACK_EVENTS,
        t.requests == t.events.len() + t.dropped_events,
        t.requests < u64::MAX,
    ensures
        count_request(t, event).events.len() <= MAX_PLAYER_ATTACK_EVENTS,
        count_request(t, event).requests == count_request(t, event).events.len() + count_request(t, event).dropped_events,
{
}

/// The first player in `players` with id `id`.
pub open spec fn lookup(players: Seq<AuditPlayer>, id: u128) -> Option<AuditPlayer>
    decreases players.len(),
{
    if players.len() == 0 {
        None
    } else if players[0].id == id {
        Some(players[0])
    } else {
        lookup(players.drop_first(), id)
    }
}

fn find_player(players: &Vec<AuditPlayer>, id: u128) -> (r: Option<usize>)
    ensures
        match r {
            Some(i) => i < players@.len() && lookup(players@, id) == Some(players@[i as int]),
            None => lookup(players@, id) is None,
        },
{
    let mut i: usize = 0;
    proof {
        assert(players@.subrange(0, players@.len() as int) =~= players@);
    }
    while i < players.len()
        invariant
            i <= players@.len(),
            lookup(players@, id) == lookup(players@.subrange(i as int, players@.len() as int), id),
        decreases players@.len() - i,
    {
        proof {
            let rest = players@.subrange(i as int, players@.len() as int);
            assert(rest.drop_first() =~= players@.subrange(i + 1, players@.len() as int));
        }
        if players[i].id == id {
            return Some(i);
        }
        i = i + 1;
    }
    None
}

/// One session at a refresh: a session that is finishing, no longer
/// targeted, or a full window old closes its window (with the player's
/// current health, maximum and level when they are online) and, when still
/// targeted and online, continues in a fresh window that keeps its attempt
/// history.
pub open spec fn refresh_step(m: AuditModel, id: u128, players: Seq<AuditPlayer>, now: u64, finish: bool) -> AuditModel {
    if !m.sessions.contains_key(id) {
        m
    } else {
        let s = m.sessions[id];
        let enabled = targets(m.config).contains(s.window.character_id);
        if finish || !enabled || now >= s.window.start_ms + WINDOW_MS {
            let closed = match lookup(players, id) {
                Some(p) => WindowModel { end_hp: p.health, max_hp: p.max_health, level: p.level, ..s.window },
                None => s.window,
            };
            let reason = if finish { WindowReason::Shutdown } else if !enabled { WindowReason::Disabled } else { WindowReason::Interval };
            let sessions = match lookup(players, id) {
                Some(p) => if enabled && !finish {
                    m.sessions.insert(id, SessionModel {
                        window: WindowModel { history_overflow: s.window.history_overflow, ..window_new(s.window.character_id, p, now) },
                        ..s
                    })
                } else {
                    m.sessions.remove(id)
                },
                None => m.sessions.remove(id),
            };
            AuditModel { sessions, pending: queue_row(m.pending, closed, now, reason), ..m }
        } else {
            m
        }
    }
}

/// Refresh steps over `ids` in order.
pub open spec fn refresh_fold(m: AuditModel, ids: Seq<u128>, players: Seq<AuditPlayer>, now: u64, finish: bool) -> AuditModel
    decreases ids.len(),
{
    if ids.len() == 0 {
        m
    } else {
        refresh_step(refresh_fold(m, ids.drop_last(), players, now, finish), ids.last(), players, now, finish)
    }
}

/// Observations of `players` in order.
pub open spec fn observe_fold(m: AuditModel, players: Seq<AuditPlayer>, now: u64) -> AuditModel
    decreases players.len(),
{
    if players.len() == 0 {
        m
    } else {
        observe_model(observe_fold(m, players.drop_last(), now), players.last(), now)
    }
}

/// The audit with a (possibly new) configuration installed: a changed one
/// replaces the old, and the audit is active exactly while some character
/// is targeted.
pub open spec fn with_config(m: AuditModel, config: Option<ConfigModel>) -> AuditModel {
    let changed = config is Some && m.config != config;
    let c = if changed { config } else { m.config };
    AuditModel { config: c, active: targets(c) != Set::<i64>::empty(), ..m }
}

/// The whole refresh: install the configuration, rotate every session (in
/// the order `ids` lists them), and after a change of targets open sessions
/// for targeted players online.
pub open spec fn refresh_model(m: AuditModel, config: Option<ConfigModel>, ids: Seq<u128>, players: Seq<AuditPlayer>, now: u64, finish: bool) -> AuditModel {
    let changed = config is Some && m.config != config;
    let m2 = refresh_fold(with_config(m, config), ids, players, now, finish);
    if !finish && changed { observe_fold(m2, players, now) } else { m2 }
}

impl CombatAudit {
    fn refresh_one(&mut self, id: u128, players: &Vec<AuditPlayer>, now: u64, finish: bool)
        requires
            old(self).wf(),
        ensures
            final(self).wf(),
            final(self)@ == refresh_step(old(self)@, id, players@, now, finish),
    {
        let s = match self.take_session(id) {
            Some(s) => s,
            None => {
                proof { assert(self@.sessions =~= old(self)@.sessions); }
                return;
            },
        };
        let enabled = match &self.config {
            Some(c) => c.character_ids.contains(s.window.character_id),
            None => false,
        };
        let age = if now >= s.window.start_ms { now - s.window.start_ms } else { 0 };
        if !(finish || !enabled || age >= WINDOW_MS) {
            let ghost sv = s@;
            self.put_session(id, s);
            proof { assert(self@.sessions =~= old(self)@.sessions); }
            return;
        }
        let Session { window, attempted, tracking_started_ms, last_player_request_ms } = s;
        let mut window = window;
        let found = find_player(players, id);
        match found {
            Some(i) => {
                let p = &players[i];
                window.end_hp = p.health;
                window.max_hp = p.max_health;
                window.level = p.level;
            },
            None => {},
        }
        let reason = if finish { WindowReason::Shutdown } else if !enabled { WindowReason::Disabled } else { WindowReason::Interval };
        let ghost old_sessions = old(self)@.sessions;
        match found {
            Some(i) => {
                if enabled && !finish {
                    let mut fresh = Window::new(window.character_id, &players[i], now);
                    fresh.history_overflow = window.history_overflow;
                    let next = Session { window: fresh, attempted, tracking_started_ms, last_player_request_ms };
                    let ghost nv = next@;
                    self.put_session(id, next);
                    proof {
                        assert(self@.sessions =~= old_sessions.insert(id, nv));
                    }
                } else {
                    proof { assert(self@.sessions =~= old_sessions.remove(id)); }
                }
            },
            None => {
                proof { assert(self@.sessions =~= old_sessions.remove(id)); }
            },
        }
        self.queue(window, now, reason);
    }

    /// Install `config` when given, then close every window that is finishing
    /// (`finish`), no longer targeted, or a full window old, continuing the
    /// targeted ones in fresh windows; after a change of targets, open
    /// sessions for targeted `players`.
    pub fn refresh(&mut self, config: Option<Config>, players: &Vec<AuditPlayer>, now: u64, finish: bool)
        requires
            old(self).wf(),
            match config { Some(c) => c.wf(), None => true },
        ensures
            final(self).wf(),
            final(self)@ == refresh_model(old(self)@, config_view(config), old(self).sessions.entries@.map_values(|e: (u128, Session)| e.0), players@, now, finish),
    {
        let ghost cv = config_view(config);
        let ghost m0 = self@;
        let mut changed = false;
        match config {
            Some(c) => {
                let differs = match &self.config {
                    Some(current) => !current.same(&c),
                    None => true,
                };
                if differs {
                    self.config = Some(c);
                    changed = true;
                }
            },
            None => {},
        }
        self.active = match &self.config {
            Some(c) => c.character_ids.len() > 0,
            None => false,
        };
        proof {
            let c = self.config;
            match c {
                Some(c) => {
                    if c.character_ids.ids@.len() > 0 {
                        assert(c@.character_ids.contains(c.character_ids.ids@[0]));
                    } else {
                        assert(c@.character_ids =~= Set::empty());
                    }
                },
                None => {},
            }
            assert(self@ =~= with_config(m0, cv));
        }
        let ghost m1 = self@;
        let ks = self.sessions.keys();
        proof {
            assert(ks@ =~= old(self).sessions.entries@.map_values(|e: (u128, Session)| e.0));
        }
        let mut i: usize = 0;
        while i < ks.len()
            invariant
                self.wf(),
                i <= ks@.len(),
                self@ == refresh_fold(m1, ks@.subrange(0, i as int), players@, now, finish),
            decreases ks@.len() - i,
        {
            let ghost before = self@;
            proof {
                assert(ks@.subrange(0, i + 1).drop_last() =~= ks@.subrange(0, i as int));
            }
            self.refresh_one(ks[i], players, now, finish);
            i = i + 1;
        }
        proof {
            assert(ks@.subrange(0, ks@.len() as int) =~= ks@);
        }
        if !finish && changed {
            let ghost m2 = self@;
            let mut j: usize = 0;
            while j < players.len()
                invariant
                    self.wf(),
                    j <= players@.len(),
                    self@ == observe_fold(m2, players@.subrange(0, j as int), now),
                decreases players@.len() - j,
            {
                proof {
                    assert(players@.subrange(0, j + 1).drop_last() =~= players@.subrange(0, j as int));
                }
                self.observe_inner(&players[j], now);
                j = j + 1;
            }
            proof {
                assert(players@.subrange(0, players@.len() as int) =~= players@);
            }
        }
    }
}

impl CombatAudit {
    /// Forget attempts on monsters that are gone: each session keeps only
    /// the attempted ids listed in `live`.
    pub fn retain_live_attempts(&mut self, live: &Vec<String>)
        requires
            old(self).wf(),
        ensures
            final(self).wf(),
            final(self)@.active == old(self)@.active,
            final(self)@.config == old(self)@.config,
            final(self)@.characters == old(self)@.characters,
            final(self)@.pending == old(self)@.pending,
            final(self)@.config_error == old(self)@.config_error,
            final(self)@.last_pruned == old(self)@.last_pruned,
            forall|k: u128| #[trigger] final(self)@.sessions.contains_key(k) <==> old(self)@.sessions.contains_key(k),
            forall|k: u128| #[trigger] final(self)@.sessions.contains_key(k) ==> {
                let s = old(self)@.sessions[k];
                let t = final(self)@.sessions[k];
                &&& t.window == s.window
                &&& t.tracking_started_ms == s.tracking_started_ms
                &&& t.last_player_request_ms == s.last_player_request_ms
                &&& t.attempted == s.attempted.filter(|m: Seq<char>| exists|j: int| 0 <= j < live@.len() && #[trigger] live@[j]@ == m)
                &&& t.attempted_count <= s.attempted_count
            },
    {
        let ks = self.sessions.keys();
        let ghost om = old(self)@.sessions;
        let mut i: usize = 0;
        while i < ks.len()
            invariant
                self.wf(),
                i <= ks@.len(),
                self.active == old(self).active,
                self.config == old(self).config,
                self.characters == old(self).characters,
                self.pending == old(self).pending,
                self.config_error == old(self).config_error,
                self.last_pruned == old(self).last_pruned,
                om == old(self)@.sessions,
                forall|a: int, b: int| 0 <= a < b < ks@.len() ==> ks@[a] != ks@[b],
                forall|k: u128| #[trigger] old(self).sessions@.contains_key(k) <==> ks@.contains(k),
                forall|k: u128| #[trigger] self@.sessions.contains_key(k) <==> om.contains_key(k),
                forall|k: u128| #[trigger] self@.sessions.contains_key(k) ==> {
                    let s = om[k];
                    let t = self@.sessions[k];
                    &&& t.window == s.window
                    &&& t.tracking_started_ms == s.tracking_started_ms
                    &&& t.last_player_request_ms == s.last_player_request_ms
                    &&& t.attempted_count <= s.attempted_count
                    &&& t.attempted == if ks@.subrange(0, i as int).contains(k) {
                        s.attempted.filter(|m: Seq<char>| exists|j: int| 0 <= j < live@.len() && #[trigger] live@[j]@ == m)
                    } else {
                        s.attempted
                    }
                },
            decreases ks@.len() - i,
        {
            let k = ks[i];
            proof {
                assert(ks@.contains(k));
                assert(old(self).sessions@.contains_key(k));
                assert(old(self)@.sessions.contains_key(k));
                assert(self@.sessions.contains_key(k));
                let pre = ks@.subrange(0, i as int);
                assert(!pre.contains(k)) by {
                    if pre.contains(k) {
                        let c = choose|c: int| 0 <= c < pre.len() && #[trigger] pre[c] == k;
                        assert(ks@[c] == ks@[i as int]);
                    }
                }
            }
            let ghost before = self@.sessions;
            let mut s = match self.take_session(k) {
                Some(s) => s,
                None => { proof { assert(false); } return; },
            };
            let ghost sv = s@;
            let mut kept = StrSet::new();
            let mut j: usize = 0;
            let n = s.attempted.items.len();
            while j < n
                invariant
                    n == s.attempted.items@.len(),
                    s.attempted.wf(),
                    kept.wf(),
                    j <= n,
                    kept.items@.len() <= j,
                    kept@ == Set::new(|m: Seq<char>| exists|a: int| 0 <= a < j && #[trigger] s.attempted.items@[a]@ == m)
                        .filter(|m: Seq<char>| exists|b: int| 0 <= b < live@.len() && #[trigger] live@[b]@ == m),
                decreases n - j,
            {
                let id = &s.attempted.items[j];
                let mut b: usize = 0;
                let mut alive = false;
                while b < live.len()
                    invariant
                        b <= live@.len(),
                        alive == exists|c: int| 0 <= c < b && #[trigger] live@[c]@ == id@,
                    decreases live@.len() - b,
                {
                    if live[b].eq(id) {
                        alive = true;
                    }
                    b = b + 1;
                }
                let ghost prev = kept@;
                if alive {
                    kept.insert(id.clone());
                }
                proof {
                    let m = id@;
                    assert(kept@ =~= Set::new(|x: Seq<char>| exists|a: int| 0 <= a < j + 1 && #[trigger] s.attempted.items@[a]@ == x)
                        .filter(|x: Seq<char>| exists|c: int| 0 <= c < live@.len() && #[trigger] live@[c]@ == x)) by {
                        assert forall|x: Seq<char>| #[trigger] kept@.contains(x) <==> (
                            (exists|a: int| 0 <= a < j + 1 && #[trigger] s.attempted.items@[a]@ == x)
                            && (exists|c: int| 0 <= c < live@.len() && #[trigger] live@[c]@ == x)) by {
                            if x == m {
                                assert(s.attempted.items@[j as int]@ == x);
                            } else {
                                if exists|a: int| 0 <= a < j + 1 && #[trigger] s.attempted.items@[a]@ == x {
                                    let a = choose|a: int| 0 <= a < j + 1 && #[trigger] s.attempted.items@[a]@ == x;
                                    assert(a < j);
                                }
                            }
                        }
                    }
                }
                j = j + 1;
            }
            proof {
                assert(Set::new(|m: Seq<char>| exists|a: int| 0 <= a < n && #[trigger] s.attempted.items@[a]@ == m) =~= s.attempted@);
            }
            s.attempted = kept;
            let ghost nv = s@;
            self.put_session(k, s);
            proof {
                let done2 = ks@.subrange(0, i + 1);
                let done = ks@.subrange(0, i as int);
                assert forall|q: u128| #[trigger] self@.sessions.contains_key(q) implies ({
                    let s0 = om[q];
                    let t = self@.sessions[q];
                    &&& t.window == s0.window
                    &&& t.tracking_started_ms == s0.tracking_started_ms
                    &&& t.last_player_request_ms == s0.last_player_request_ms
                    &&& t.attempted_count <= s0.attempted_count
                    &&& t.attempted == if done2.contains(q) {
                        s0.attempted.filter(|m: Seq<char>| exists|j: int| 0 <= j < live@.len() && #[trigger] live@[j]@ == m)
                    } else {
                        s0.attempted
                    }
                }) by {
                    if q == k {
                        assert(done2[i as int] == k);
                        assert(sv == before[k]);
                    } else {
                        assert(before.contains_key(q));
                        if done2.contains(q) {
                            let c = choose|c: int| 0 <= c < done2.len() && #[trigger] done2[c] == q;
                            assert(c < i);
                            assert(done[c] == q);
                        } else if done.contains(q) {
                            let c = choose|c: int| 0 <= c < done.len() && #[trigger] done[c] == q;
                            assert(done2[c] == q);
                        }
                    }
                }
            }
            i = i + 1;
        }
        proof {
            assert(ks@.subrange(0, ks@.len() as int) =~= ks@);
            assert forall|k: u128| #[trigger] self@.sessions.contains_key(k) implies ks@.subrange(0, ks@.len() as int).contains(k) by {
                assert(old(self).sessions@.contains_key(k));
            }
        }
    }

    /// Take the oldest row waiting to be written.
    pub fn pop_pending(&mut self) -> (w: Option<Window>)
        requires
            old(self).wf(),
        ensures
            final(self).wf(),
            old(self)@.pending.len() == 0 ==> w is None && final(self)@ == old(self)@,
            old(self)@.pending.len() > 0 ==> w is Some && w->0@ == old(self)@.pending[0] && w->0.wf()
                && final(self)@ == (AuditModel { pending: old(self)@.pending.drop_first(), ..old(self)@ }),
    {
        let w = self.pending.pop_front();
        proof {
            assert(self@.sessions =~= old(self)@.sessions);
            assert(self@.pending =~= if old(self)@.pending.len() > 0 { old(self)@.pending.drop_first() } else { old(self)@.pending });
            assert forall|i: int| 0 <= i < self.pending@.len() implies #[trigger] self.pending@[i].wf() by {
                assert(self.pending@[i] == old(self).pending@[i + 1]);
            }
        }
        w
    }

    /// Put back a row whose write failed, at the front so rows keep their
    /// order; when the queue is full the newest row makes room.
    pub fn requeue_failed(&mut self, w: Window)
        requires
            old(self).wf(),
            w.wf(),
        ensures
            final(self).wf(),
            final(self)@ == (AuditModel {
                pending: seq![w@] + if old(self)@.pending.len() >= MAX_PENDING { old(self)@.pending.drop_last() } else { old(self)@.pending },
                ..old(self)@
            }),
    {
        if self.pending.len() >= MAX_PENDING {
            self.pending.pop_back();
        }
        let ghost mid = self.pending@;
        self.pending.push_front(w);
        proof {
            assert(self@.sessions =~= old(self)@.sessions);
            assert(self@.pending =~= seq![w@] + if old(self)@.pending.len() >= MAX_PENDING { old(self)@.pending.drop_last() } else { old(self)@.pending });
            assert forall|i: int| 0 <= i < self.pending@.len() implies #[trigger] self.pending@[i].wf() by {
                if i > 0 { assert(self.pending@[i] == mid[i - 1]); assert(mid[i - 1] == old(self).pending@[i - 1]); }
            }
        }
    }

    /// Whether a flush has anything to do: a configuration or rows.
    pub fn has_work(&self) -> (r: bool)
        ensures
            r == (self@.config is Some || self@.pending.len() > 0),
    {
        self.config.is_some() || self.pending.len() > 0
    }

    /// The audited character ids in increasing order.
    pub fn character_ids(&self) -> (ids: Vec<i64>)
        requires
            self.wf(),
        ensures
            forall|a: int, b: int| 0 <= a < b < ids@.len() ==> ids@[a] < ids@[b],
            forall|x: i64| #[trigger] ids@.contains(x) <==> targets(self@.config).contains(x),
    {
        match &self.config {
            Some(c) => c.character_ids.sorted(),
            None => {
                let v: Vec<i64> = Vec::new();
                proof {
                    assert forall|x: i64| #[trigger] v@.contains(x) <==> targets(self@.config).contains(x) by {}
                }
                v
            },
        }
    }

    /// A configuration was read: the last error is cleared.
    pub fn config_read(&mut self)
        ensures
            final(self).config_error is None,
            final(self)@ == (AuditModel { config_error: None, ..old(self)@ }),
    {
        self.config_error = None;
    }

    /// Reading the configuration failed with `message` (`not_found` when the
    /// file is absent). Whether to warn: not for a file that was never there,
    /// and not twice in a row for the same error. The current targets stay.
    pub fn config_failed(&mut self, message: String, not_found: bool) -> (warn: bool)
        ensures
            warn == ((!not_found || old(self).config is Some) && opt_seq(old(self).config_error) != Some(message@)),
            opt_seq(final(self).config_error) == Some(message@),
            final(self)@ == (AuditModel { config_error: Some(message@), ..old(self)@ }),
    {
        let repeated = match &self.config_error {
            Some(e) => e.eq(&message),
            None => false,
        };
        let warn = (!not_found || self.config.is_some()) && !repeated;
        self.config_error = Some(message);
        warn
    }
}

} // verus!
