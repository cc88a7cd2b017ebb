//! The snapshot a player subject hands to new watchers: how each change to
//! a player updates it, and which music entries it keeps.
use vstd::prelude::*;
use crate::text::{opt_string_clone, opt_view, owned};

verus! {

/// What watchers see of a player and keep up to date.
pub struct PlayerLook {
    pub torch_on: bool,
    pub radiance_on: bool,
    pub wet: bool,
    /// The mount ridden, by kind.
    pub mount: Option<u8>,
    pub title: Option<String>,
    pub main_hand: Option<String>,
    pub back: Option<String>,
    pub back_color: Option<String>,
    pub back_texture: Option<String>,
    /// What the player is interacting with, and with which object.
    pub object_type: Option<String>,
    pub object_id: Option<u64>,
    pub health: u32,
    pub max_health: u32,
}

/// A change to a player that its snapshot follows; the music and instrument
/// starts carry the message `M` that plays them back to new watchers.
pub enum PlayerChange<M> {
    Torch(bool),
    Radiance(bool),
    Wet(bool),
    Mount(Option<u8>),
    Title(Option<String>),
    MainHand(Option<String>),
    Back { item: Option<String>, color: Option<String>, texture: Option<String> },
    Interaction { object_type: Option<String>, object_id: Option<u64> },
    Health { health: u32, max_health: u32 },
    Dead,
    MusicStarted(M),
    InstrumentStarted(M),
}

/// One entry of a player's snapshot: the player as they appear, a music or
/// instrument start to replay, or another message `M` kept as it is.
pub enum SnapshotEntry<M> {
    Appeared(PlayerLook),
    Music(M),
    Instrument(M),
    Other(M),
}

/// The look after a change; a music or instrument start leaves it as it is.
pub open spec fn changed_look<M>(p: PlayerLook, c: PlayerChange<M>) -> PlayerLook {
    match c {
        PlayerChange::Torch(on) => PlayerLook { torch_on: on, ..p },
        PlayerChange::Radiance(on) => PlayerLook { radiance_on: on, ..p },
        PlayerChange::Wet(wet) => PlayerLook { wet, ..p },
        PlayerChange::Mount(mount) => PlayerLook { mount, ..p },
        PlayerChange::Title(title) => PlayerLook { title, ..p },
        PlayerChange::MainHand(main_hand) => PlayerLook { main_hand, ..p },
        PlayerChange::Back { item, color, texture } => PlayerLook { back: item, back_color: color, back_texture: texture, ..p },
        PlayerChange::Interaction { object_type, object_id } => PlayerLook { object_type, object_id, ..p },
        PlayerChange::Health { health, max_health } => PlayerLook { health, max_health, ..p },
        PlayerChange::Dead => PlayerLook { health: 0, ..p },
        PlayerChange::MusicStarted(_) => p,
        PlayerChange::InstrumentStarted(_) => p,
    }
}

/// A music or instrument start entry.
pub open spec fn is_music<M>(e: SnapshotEntry<M>) -> bool {
    e is Music || e is Instrument
}

/// Whether a change ends the music kept in the snapshot: a new music or
/// instrument start replaces it, and an interaction other than the music
/// emote (`music_emote`) stops it.
pub open spec fn drops_music<M>(c: PlayerChange<M>, music_emote: Seq<char>) -> bool {
    match c {
        PlayerChange::MusicStarted(_) => true,
        PlayerChange::InstrumentStarted(_) => true,
        PlayerChange::Interaction { object_type, .. } => opt_view(object_type) != Some(music_emote),
        _ => false,
    }
}

/// An entry after a change: the player's look follows it, other entries stay.
pub open spec fn updated_entry<M>(e: SnapshotEntry<M>, c: PlayerChange<M>) -> SnapshotEntry<M> {
    match e {
        SnapshotEntry::Appeared(p) => SnapshotEntry::Appeared(changed_look(p, c)),
        _ => e,
    }
}

/// The entries of `s` a change keeps: all of them, or all but the music.
pub open spec fn kept_entries<M>(s: Seq<SnapshotEntry<M>>, c: PlayerChange<M>, music_emote: Seq<char>) -> Seq<SnapshotEntry<M>> {
    if drops_music(c, music_emote) { s.filter(|e: SnapshotEntry<M>| !is_music(e)) } else { s }
}

/// A player's snapshot after a change: the kept entries, each updated, and
/// for a music or instrument start the new start at the end.
pub open spec fn snapshot_after<M>(s: Seq<SnapshotEntry<M>>, c: PlayerChange<M>, music_emote: Seq<char>) -> Seq<SnapshotEntry<M>> {
    let updated = kept_entries(s, c, music_emote).map_values(|e: SnapshotEntry<M>| updated_entry(e, c));
    match c {
        PlayerChange::MusicStarted(m) => updated.push(SnapshotEntry::Music(m)),
        PlayerChange::InstrumentStarted(m) => updated.push(SnapshotEntry::Instrument(m)),
        _ => updated,
    }
}

fn opt_copy(a: &Option<String>) -> (c: Option<String>)
    ensures
        c == *a,
{
    opt_string_clone(a)
}

/// The look after `c`; see `changed_look`.
fn change_look<M>(p: PlayerLook, c: &PlayerChange<M>) -> (r: PlayerLook)
    ensures
        r == changed_look(p, *c),
{
    let mut p = p;
    match c {
        PlayerChange::Torch(on) => { p.torch_on = *on; },
        PlayerChange::Radiance(on) => { p.radiance_on = *on; },
        PlayerChange::Wet(wet) => { p.wet = *wet; },
        PlayerChange::Mount(mount) => { p.mount = *mount; },
        PlayerChange::Title(title) => { p.title = opt_copy(title); },
        PlayerChange::MainHand(main_hand) => { p.main_hand = opt_copy(main_hand); },
        PlayerChange::Back { item, color, texture } => {
            p.back = opt_copy(item);
            p.back_color = opt_copy(color);
            p.back_texture = opt_copy(texture);
        },
        PlayerChange::Interaction { object_type, object_id } => {
            p.object_type = opt_copy(object_type);
            p.object_id = *object_id;
        },
        PlayerChange::Health { health, max_health } => {
            p.health = *health;
            p.max_health = *max_health;
        },
        PlayerChange::Dead => { p.health = 0; },
        PlayerChange::MusicStarted(_) => {},
        PlayerChange::InstrumentStarted(_) => {},
    }
    p
}

/// Whether `c` ends the kept music; see `drops_music`.
fn change_drops_music<M>(c: &PlayerChange<M>, music_emote: &str) -> (r: bool)
    ensures
        r == drops_music(*c, music_emote@),
{
    match c {
        PlayerChange::MusicStarted(_) => true,
        PlayerChange::InstrumentStarted(_) => true,
        PlayerChange::Interaction { object_type, .. } => match object_type {
            Some(t) => {
                let emote = owned(music_emote);
                !t.eq(&emote)
            },
            None => true,
        },
        _ => false,
    }
}

proof fn lemma_step<M>(s: Seq<SnapshotEntry<M>>, e: SnapshotEntry<M>, c: PlayerChange<M>, music_emote: Seq<char>)
    ensures
        kept_entries(s.push(e), c, music_emote).map_values(|x: SnapshotEntry<M>| updated_entry(x, c)) ==
            if drops_music(c, music_emote) && is_music(e) {
                kept_entries(s, c, music_emote).map_values(|x: SnapshotEntry<M>| updated_entry(x, c))
            } else {
                kept_entries(s, c, music_emote).map_values(|x: SnapshotEntry<M>| updated_entry(x, c)).push(updated_entry(e, c))
            },
{
    if drops_music(c, music_emote) {
        s.lemma_filter_push(e, |x: SnapshotEntry<M>| !is_music(x));
    }
    let k = kept_entries(s, c, music_emote);
    assert(k.push(e).map_values(|x: SnapshotEntry<M>| updated_entry(x, c))
        =~= k.map_values(|x: SnapshotEntry<M>| updated_entry(x, c)).push(updated_entry(e, c)));
}

/// Update player snapshot `snapshot` for change `change`, where
/// `music_emote` is the interaction that plays music: see `snapshot_after`.
pub fn update_player_snapshot<M>(snapshot: &mut Vec<SnapshotEntry<M>>, change: PlayerChange<M>, music_emote: &str)
    ensures
        final(snapshot)@ == snapshot_after(old(snapshot)@, change, music_emote@),
{
    let ghost orig = old(snapshot)@;
    let mut rest: Vec<SnapshotEntry<M>> = Vec::new();
    std::mem::swap(&mut rest, snapshot);
    let drop_music = change_drops_music(&change, music_emote);
    let n = rest.len();
    let mut k: usize = 0;
    proof {
        assert(orig.subrange(0, 0) =~= Seq::<SnapshotEntry<M>>::empty());
        assert(kept_entries(Seq::<SnapshotEntry<M>>::empty(), change, music_emote@)
            .map_values(|x: SnapshotEntry<M>| updated_entry(x, change)) =~= Seq::<SnapshotEntry<M>>::empty());
        assert(rest@ =~= orig.subrange(0, n as int));
    }
    while k < n
        invariant
            n == orig.len(),
            k <= n,
            drop_music == drops_music(change, music_emote@),
            rest@ == orig.subrange(k as int, n as int),
            snapshot@ == kept_entries(orig.subrange(0, k as int), change, music_emote@)
                .map_values(|x: SnapshotEntry<M>| updated_entry(x, change)),
        decreases n - k,
    {
        let e = rest.remove(0);
        proof {
            assert(e == orig[k as int]);
            assert(orig.subrange(0, k + 1) =~= orig.subrange(0, k as int).push(e));
            assert(rest@ =~= orig.subrange(k + 1, n as int));
            lemma_step(orig.subrange(0, k as int), e, change, music_emote@);
        }
        let music = match &e {
            SnapshotEntry::Music(_) => true,
            SnapshotEntry::Instrument(_) => true,
            _ => false,
        };
        if !(drop_music && music) {
            let u = match e {
                SnapshotEntry::Appeared(p) => SnapshotEntry::Appeared(change_look(p, &change)),
                other => other,
            };
            snapshot.push(u);
        }
        k = k + 1;
    }
    proof {
        assert(orig.subrange(0, n as int) =~= orig);
    }
    match change {
        PlayerChange::MusicStarted(m) => snapshot.push(SnapshotEntry::Music(m)),
        PlayerChange::InstrumentStarted(m) => snapshot.push(SnapshotEntry::Instrument(m)),
        _ => {},
    }
}


/// Every element of a filtered sequence is an element of the sequence.
proof fn lemma_filtered_from<A>(s: Seq<A>, pred: spec_fn(A) -> bool, i: int)
    requires
        0 <= i < s.filter(pred).len(),
    ensures
        exists|j: int| 0 <= j < s.len() && s[j] == s.filter(pred)[i],
    decreases s.len(),
{
    let d = s.drop_last();
    assert(s =~= d.push(s.last()));
    d.lemma_filter_push(s.last(), pred);
    if i < d.filter(pred).len() {
        lemma_filtered_from(d, pred, i);
        let j = choose|j: int| 0 <= j < d.len() && d[j] == d.filter(pred)[i];
        assert(s[j] == d[j]);
    } else {
        assert(s[s.len() - 1] == s.filter(pred)[i]);
    }
}

/// Where entry `i` of the snapshot after a change comes from: some entry
/// of the snapshot before it, updated by the change, or the new music or
/// instrument start at the end.
proof fn lemma_entry_origin<M>(s: Seq<SnapshotEntry<M>>, c: PlayerChange<M>, music_emote: Seq<char>, i: int)
    requires
        0 <= i < snapshot_after(s, c, music_emote).len(),
    ensures
        ({
            let k = kept_entries(s, c, music_emote);
            ||| (i < k.len() && snapshot_after(s, c, music_emote)[i] == updated_entry(k[i], c)
                && exists|j: int| 0 <= j < s.len() && s[j] == k[i])
            ||| (i == k.len() && (c is MusicStarted || c is InstrumentStarted))
        }),
{
    let k = kept_entries(s, c, music_emote);
    if i < k.len() {
        if drops_music(c, music_emote) {
            lemma_filtered_from(s, |e: SnapshotEntry<M>| !is_music(e), i);
        } else {
            assert(s[i] == k[i]);
        }
    }
}

/// A change shows on every appearance of the player in the snapshot: after
/// it, each `Appeared` entry has the changed field set to the change's
/// value (a death leaves no hit points).
pub proof fn law_change_shows_on_every_appearance<M>(s: Seq<SnapshotEntry<M>>, c: PlayerChange<M>, music_emote: Seq<char>, i: int)
    requires
        0 <= i < snapshot_after(s, c, music_emote).len(),
    ensures
        match snapshot_after(s, c, music_emote)[i] {
            SnapshotEntry::Appeared(q) => match c {
                PlayerChange::Torch(on) => q.torch_on == on,
                PlayerChange::Radiance(on) => q.radiance_on == on,
                PlayerChange::Wet(wet) => q.wet == wet,
                PlayerChange::Mount(mount) => q.mount == mount,
                PlayerChange::Title(title) => q.title == title,
                PlayerChange::MainHand(hand) => q.main_hand == hand,
                PlayerChange::Back { item, color, texture } => q.back == item && q.back_color == color && q.back_texture == texture,
                PlayerChange::Interaction { object_type, object_id } => q.object_type == object_type && q.object_id == object_id,
                PlayerChange::Health { health, max_health } => q.health == health && q.max_health == max_health,
                PlayerChange::Dead => q.health == 0,
                PlayerChange::MusicStarted(_) => true,
                PlayerChange::InstrumentStarted(_) => true,
            },
            _ => true,
        },
{
    lemma_entry_origin(s, c, music_emote, i);
}

/// A change touches nothing else of the player: each `Appeared` entry
/// after it is an `Appeared` entry from before it, with every field the
/// change does not name as it was.
pub proof fn law_change_keeps_other_fields<M>(s: Seq<SnapshotEntry<M>>, c: PlayerChange<M>, music_emote: Seq<char>, i: int)
    requires
        0 <= i < snapshot_after(s, c, music_emote).len(),
    ensures
        match snapshot_after(s, c, music_emote)[i] {
            SnapshotEntry::Appeared(q) => exists|j: int| 0 <= j < s.len() && (#[trigger] s[j] matches SnapshotEntry::Appeared(p) && {
                &&& (c !is Torch ==> q.torch_on == p.torch_on)
                &&& (c !is Radiance ==> q.radiance_on == p.radiance_on)
                &&& (c !is Wet ==> q.wet == p.wet)
                &&& (c !is Mount ==> q.mount == p.mount)
                &&& (c !is Title ==> q.title == p.title)
                &&& (c !is MainHand ==> q.main_hand == p.main_hand)
                &&& (c !is Back ==> q.back == p.back && q.back_color == p.back_color && q.back_texture == p.back_texture)
                &&& (c !is Interaction ==> q.object_type == p.object_type && q.object_id == p.object_id)
                &&& (c !is Health && c !is Dead ==> q.health == p.health)
                &&& (c !is Health ==> q.max_health == p.max_health)
            }),
            _ => true,
        },
{
    lemma_entry_origin(s, c, music_emote, i);
    let k = kept_entries(s, c, music_emote);
    if i < k.len() {
        let j = choose|j: int| 0 <= j < s.len() && s[j] == k[i];
        assert(s[j] == k[i]);
    }
}

/// A music or instrument start becomes the one music entry: it ends the
/// snapshot, and no earlier entry is music.
pub proof fn law_start_replaces_music<M>(s: Seq<SnapshotEntry<M>>, c: PlayerChange<M>, music_emote: Seq<char>)
    requires
        c is MusicStarted || c is InstrumentStarted,
    ensures
        ({
            let r = snapshot_after(s, c, music_emote);
            &&& r.len() >= 1
            &&& match c {
                PlayerChange::MusicStarted(m) => r.last() == SnapshotEntry::Music(m),
                PlayerChange::InstrumentStarted(m) => r.last() == SnapshotEntry::Instrument(m),
                _ => true,
            }
            &&& forall|i: int| 0 <= i < r.len() - 1 ==> !is_music(#[trigger] r[i])
        }),
{
    let r = snapshot_after(s, c, music_emote);
    let k = kept_entries(s, c, music_emote);
    assert forall|i: int| 0 <= i < r.len() - 1 implies !is_music(#[trigger] r[i]) by {
        s.lemma_filter_pred(|e: SnapshotEntry<M>| !is_music(e), i);
        assert(r[i] == updated_entry(k[i], c));
    }
}

/// An interaction other than the music emote stops the music: nothing in
/// the snapshot after it is music; and entries that are not music all stay.
pub proof fn law_other_interaction_stops_music<M>(s: Seq<SnapshotEntry<M>>, c: PlayerChange<M>, music_emote: Seq<char>)
    requires
        c matches PlayerChange::Interaction { object_type, .. } && opt_view(object_type) != Some(music_emote),
    ensures
        forall|i: int| 0 <= i < snapshot_after(s, c, music_emote).len() ==> !is_music(#[trigger] snapshot_after(s, c, music_emote)[i]),
        snapshot_after(s, c, music_emote).len() == s.filter(|e: SnapshotEntry<M>| !is_music(e)).len(),
{
    let r = snapshot_after(s, c, music_emote);
    assert forall|i: int| 0 <= i < r.len() implies !is_music(#[trigger] r[i]) by {
        s.lemma_filter_pred(|e: SnapshotEntry<M>| !is_music(e), i);
    }
}

/// Any other change keeps the snapshot's shape: the same number of entries,
/// the player's appearances where they were, and every other entry, music
/// included, as it was.
pub proof fn law_other_changes_keep_entries<M>(s: Seq<SnapshotEntry<M>>, c: PlayerChange<M>, music_emote: Seq<char>)
    requires
        !drops_music(c, music_emote),
    ensures
        snapshot_after(s, c, music_emote).len() == s.len(),
        forall|i: int| 0 <= i < s.len() ==> (#[trigger] snapshot_after(s, c, music_emote)[i] is Appeared <==> s[i] is Appeared),
        forall|i: int| 0 <= i < s.len() && s[i] !is Appeared ==> #[trigger] snapshot_after(s, c, music_emote)[i] == s[i],
{
}

} // verus!
