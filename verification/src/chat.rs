//! Chat: the slash-command grammar, resolving typed names, the `/who`
//! tally, per-player block lists and where a whisper goes.
use vstd::prelude::*;
use vstd::string::*;
use crate::consent::PlayerId;
use crate::keyed::{IdMap, StrSet};
use crate::text::{
    ascii_lowercase, chars_of, decimal, first_of, from_chars, join, lemma_first_of, lemma_seq_less_total,
    lemma_seq_less_transitive, less, opt_view, push_decimal, push_joined, push_str, seq_less,
    to_ascii_lowercase, trim, trimmed, views,
};

verus! {

/// `t` begins with `p`.
pub open spec fn starts_with(t: Seq<char>, p: Seq<char>) -> bool {
    p.len() <= t.len() && t.subrange(0, p.len() as int) == p
}

/// When the trimmed message is the slash-command `prefix` as a whole word,
/// what follows it, trimmed.
pub open spec fn command_rest(message: Seq<char>, prefix: Seq<char>) -> Option<Seq<char>> {
    let t = trim(message);
    if starts_with(t, prefix) {
        let rest = t.subrange(prefix.len() as int, t.len() as int);
        if rest.len() == 0 || rest[0] == ' ' {
            Some(trim(rest))
        } else {
            None
        }
    } else {
        None
    }
}

/// Where `command_rest(cs@, p@)` lies in `cs`.
fn command_bounds(cs: &Vec<char>, p: &Vec<char>) -> (r: Option<(usize, usize)>)
    ensures
        match r {
            Some((a, b)) => a <= b <= cs@.len() && command_rest(cs@, p@) == Some(cs@.subrange(a as int, b as int)),
            None => command_rest(cs@, p@) is None,
        },
{
    let n = cs.len();
    let (a, b) = trimmed(cs, 0, n);
    proof {
        assert(cs@.subrange(0, n as int) =~= cs@);
    }
    let ghost t = cs@.subrange(a as int, b as int);
    let m = p.len();
    if b - a < m {
        return None;
    }
    let mut i: usize = 0;
    while i < m
        invariant
            a + m <= b <= cs@.len(),
            m == p@.len(),
            t == cs@.subrange(a as int, b as int),
            trim(cs@) == t,
            i <= m,
            forall|j: int| 0 <= j < i ==> cs@[a + j] == p@[j],
        decreases m - i,
    {
        if cs[a + i] != p[i] {
            proof {
                assert(t.subrange(0, m as int)[i as int] == cs@[a + i]);
            }
            return None;
        }
        i = i + 1;
    }
    proof {
        assert(t.subrange(0, m as int) =~= p@);
    }
    let r = a + m;
    if r < b && cs[r] != ' ' {
        proof {
            assert(t.subrange(m as int, t.len() as int)[0] == cs@[r as int]);
        }
        return None;
    }
    let (c, d) = trimmed(cs, r, b);
    proof {
        assert(t.subrange(m as int, t.len() as int) =~= cs@.subrange(r as int, b as int));
    }
    Some((c, d))
}

/// The trimmed remainder of `message` when it is the slash-command `prefix`
/// as a whole word (followed by nothing or by a space).
pub fn strip_command(message: &str, prefix: &str) -> (r: Option<String>)
    ensures
        opt_view(r) == command_rest(message@, prefix@),
{
    let cs = chars_of(message);
    let p = chars_of(prefix);
    match command_bounds(&cs, &p) {
        Some((a, b)) => Some(from_chars(&cs, a, b)),
        None => None,
    }
}

/// The rest of a `/whisper` or `/w` command.
pub open spec fn whisper_rest(message: Seq<char>) -> Option<Seq<char>> {
    match command_rest(message, "/whisper"@) {
        Some(r) => Some(r),
        None => command_rest(message, "/w"@),
    }
}

/// `r` split at its first space into a name and a trimmed message; without
/// a space, all of it is the name and the message is empty.
pub open spec fn split_at_space(r: Seq<char>) -> (Seq<char>, Seq<char>) {
    let i = first_of(r, ' ');
    if i < r.len() {
        (r.subrange(0, i), trim(r.subrange(i + 1, r.len() as int)))
    } else {
        (r, Seq::empty())
    }
}

/// The target name and the message of a whisper command.
pub open spec fn whisper_parts(message: Seq<char>) -> Option<(Seq<char>, Seq<char>)> {
    match whisper_rest(message) {
        Some(r) => Some(split_at_space(r)),
        None => None,
    }
}

fn whisper_bounds(cs: &Vec<char>) -> (r: Option<(usize, usize)>)
    ensures
        match r {
            Some((a, b)) => a <= b <= cs@.len() && whisper_rest(cs@) == Some(cs@.subrange(a as int, b as int)),
            None => whisper_rest(cs@) is None,
        },
{
    let long = chars_of("/whisper");
    match command_bounds(cs, &long) {
        Some(r) => Some(r),
        None => {
            let short = chars_of("/w");
            command_bounds(cs, &short)
        },
    }
}

/// `/w <name> <message>` or `/whisper <name> <message>`: the name and the
/// message, unvalidated, so that a malformed whisper can draw a usage reply
/// instead of going out as local chat.
pub fn parse_whisper_command(message: &str) -> (r: Option<(String, String)>)
    ensures
        match r {
            Some((name, text)) => whisper_parts(message@) == Some((name@, text@)),
            None => whisper_parts(message@) is None,
        },
{
    let cs = chars_of(message);
    let (a, b) = match whisper_bounds(&cs) {
        Some(r) => r,
        None => return None,
    };
    let ghost rest = cs@.subrange(a as int, b as int);
    let mut k = a;
    while k < b && cs[k] != ' '
        invariant
            a <= k <= b,
            b <= cs@.len(),
            forall|j: int| a <= j < k ==> cs@[j] != ' ',
        decreases b - k,
    {
        k = k + 1;
    }
    proof {
        assert forall|j: int| 0 <= j < k - a implies rest[j] != ' ' by {
            assert(rest[j] == cs@[a + j]);
        }
        if k < b {
            assert(rest[k - a] == cs@[k as int]);
        }
        lemma_first_of(rest, ' ', k - a);
    }
    if k < b {
        let (c, d) = trimmed(&cs, k + 1, b);
        proof {
            assert(rest.subrange(0, k - a) =~= cs@.subrange(a as int, k as int));
            assert(rest.subrange(k - a + 1, rest.len() as int) =~= cs@.subrange(k + 1, b as int));
        }
        Some((from_chars(&cs, a, k), from_chars(&cs, c, d)))
    } else {
        Some((from_chars(&cs, a, b), String::new()))
    }
}

/// `/block <name>` mutes a character, `/unblock <name>` undoes it, and a
/// bare `/block` lists the muted.
pub enum BlockCommand {
    List,
    Block(String),
    Unblock(String),
}

/// What a block command says, as character sequences.
pub enum BlockCommandView {
    List,
    Block(Seq<char>),
    Unblock(Seq<char>),
}

impl View for BlockCommand {
    type V = BlockCommandView;

    open spec fn view(&self) -> BlockCommandView {
        match self {
            BlockCommand::List => BlockCommandView::List,
            BlockCommand::Block(n) => BlockCommandView::Block(n@),
            BlockCommand::Unblock(n) => BlockCommandView::Unblock(n@),
        }
    }
}

/// The block command a message is, if any: `/unblock` is tried first.
pub open spec fn block_command(message: Seq<char>) -> Option<BlockCommandView> {
    match command_rest(message, "/unblock"@) {
        Some(r) => Some(BlockCommandView::Unblock(r)),
        None => match command_rest(message, "/block"@) {
            None => None,
            Some(r) => Some(if r.len() == 0 { BlockCommandView::List } else { BlockCommandView::Block(r) }),
        },
    }
}

/// The view of an optional block command.
pub open spec fn block_command_view(c: Option<BlockCommand>) -> Option<BlockCommandView> {
    match c {
        Some(b) => Some(b@),
        None => None,
    }
}

/// Parse `/block`, `/block <name>` and `/unblock <name>`.
pub fn parse_block_command(message: &str) -> (r: Option<BlockCommand>)
    ensures
        block_command_view(r) == block_command(message@),
{
    if let Some(rest) = strip_command(message, "/unblock") {
        return Some(BlockCommand::Unblock(rest));
    }
    let rest = match strip_command(message, "/block") {
        Some(r) => r,
        None => return None,
    };
    if rest.unicode_len() == 0 {
        Some(BlockCommand::List)
    } else {
        Some(BlockCommand::Block(rest))
    }
}

/// The notice a `/notice` command sets: `None` clears the banner.
pub open spec fn notice_command(message: Seq<char>) -> Option<Option<Seq<char>>> {
    match command_rest(message, "/notice"@) {
        None => None,
        Some(r) => Some(if r.len() == 0 { None } else { Some(r) }),
    }
}

/// `/notice <message>` sets the server banner, a bare `/notice` clears it.
pub fn parse_notice_command(message: &str) -> (r: Option<Option<String>>)
    ensures
        match r {
            None => notice_command(message@) is None,
            Some(n) => notice_command(message@) == Some(opt_view(n)),
        },
{
    let rest = match strip_command(message, "/notice") {
        Some(r) => r,
        None => return None,
    };
    if rest.unicode_len() == 0 {
        Some(None)
    } else {
        Some(Some(rest))
    }
}

/// Whether `cs` begins with `p`.
pub(crate) fn has_prefix(cs: &Vec<char>, p: &Vec<char>) -> (r: bool)
    ensures
        r == starts_with(cs@, p@),
{
    if p.len() > cs.len() {
        return false;
    }
    let mut i: usize = 0;
    while i < p.len()
        invariant
            p@.len() <= cs@.len(),
            i <= p@.len(),
            forall|j: int| 0 <= j < i ==> cs@[j] == p@[j],
        decreases p@.len() - i,
    {
        if cs[i] != p[i] {
            proof {
                assert(cs@.subrange(0, p@.len() as int)[i as int] == cs@[i as int]);
            }
            return false;
        }
        i = i + 1;
    }
    proof {
        assert(cs@.subrange(0, p@.len() as int) =~= p@);
    }
    true
}

/// What a line typed into chat asks for.
pub enum ChatCommand {
    /// `/notice`: set (`Some`) or clear the server banner.
    Notice(Option<String>),
    /// `/escape`: back to the world spawn.
    Escape,
    /// `/who`: how many are online.
    Who,
    /// `/give <item>`: an item by its definition id.
    Give(String),
    /// `/block`, `/unblock`.
    Block(BlockCommand),
    /// `/w`, `/whisper`: a target name and a message.
    Whisper(String, String),
    /// Anything else is said aloud to those nearby.
    Say,
}

/// A chat command, as character sequences.
pub enum ChatCommandView {
    Notice(Option<Seq<char>>),
    Escape,
    Who,
    Give(Seq<char>),
    Block(BlockCommandView),
    Whisper(Seq<char>, Seq<char>),
    Say,
}

impl View for ChatCommand {
    type V = ChatCommandView;

    open spec fn view(&self) -> ChatCommandView {
        match self {
            ChatCommand::Notice(n) => ChatCommandView::Notice(opt_view(*n)),
            ChatCommand::Escape => ChatCommandView::Escape,
            ChatCommand::Who => ChatCommandView::Who,
            ChatCommand::Give(i) => ChatCommandView::Give(i@),
            ChatCommand::Block(b) => ChatCommandView::Block(b@),
            ChatCommand::Whisper(n, m) => ChatCommandView::Whisper(n@, m@),
            ChatCommand::Say => ChatCommandView::Say,
        }
    }
}

/// The command a chat line is. The forms are tried in this order: notice,
/// escape, who, give, block, whisper; `/give ` must start the raw line.
pub open spec fn chat_command(message: Seq<char>) -> ChatCommandView {
    match notice_command(message) {
        Some(n) => ChatCommandView::Notice(n),
        None => if trim(message) == "/escape"@ {
            ChatCommandView::Escape
        } else if trim(message) == "/who"@ {
            ChatCommandView::Who
        } else if starts_with(message, "/give "@) {
            ChatCommandView::Give(trim(message.subrange(("/give "@).len() as int, message.len() as int)))
        } else {
            match block_command(message) {
                Some(b) => ChatCommandView::Block(b),
                None => match whisper_parts(message) {
                    Some((name, text)) => ChatCommandView::Whisper(name, text),
                    None => ChatCommandView::Say,
                },
            }
        },
    }
}

/// Sort a chat line into the command it is.
pub fn classify_chat_message(message: &str) -> (c: ChatCommand)
    ensures
        c@ == chat_command(message@),
{
    if let Some(n) = parse_notice_command(message) {
        return ChatCommand::Notice(n);
    }
    let cs = chars_of(message);
    let n = cs.len();
    let (a, b) = trimmed(&cs, 0, n);
    proof {
        assert(cs@.subrange(0, n as int) =~= cs@);
    }
    let t = from_chars(&cs, a, b);
    if t.eq(&crate::text::owned("/escape")) {
        return ChatCommand::Escape;
    }
    if t.eq(&crate::text::owned("/who")) {
        return ChatCommand::Who;
    }
    let give = chars_of("/give ");
    if has_prefix(&cs, &give) {
        let (c, d) = trimmed(&cs, give.len(), n);
        return ChatCommand::Give(from_chars(&cs, c, d));
    }
    if let Some(b) = parse_block_command(message) {
        return ChatCommand::Block(b);
    }
    match parse_whisper_command(message) {
        Some((name, text)) => ChatCommand::Whisper(name, text),
        None => ChatCommand::Say,
    }
}

/// How a chatting client connects. Official NPCs are counted apart from
/// all of these.
pub enum ClientKind {
    Web,
    Cli,
    Other,
    Unknown,
}

/// What `/who` needs of one online player.
pub struct OnlinePlayer {
    pub is_official_npc: bool,
    pub client_kind: ClientKind,
}

/// The groups `/who` counts.
pub enum OnlineGroup {
    Web,
    Cli,
    Other,
    Npc,
}

/// The group a player is counted in.
pub open spec fn group_of(p: OnlinePlayer) -> OnlineGroup {
    if p.is_official_npc {
        OnlineGroup::Npc
    } else {
        match p.client_kind {
            ClientKind::Web => OnlineGroup::Web,
            ClientKind::Cli => OnlineGroup::Cli,
            ClientKind::Other => OnlineGroup::Other,
            ClientKind::Unknown => OnlineGroup::Other,
        }
    }
}

/// How many of `players` are in group `g`.
pub open spec fn count_in(players: Seq<OnlinePlayer>, g: OnlineGroup) -> nat
    decreases players.len(),
{
    if players.len() == 0 {
        0
    } else {
        count_in(players.drop_last(), g) + if group_of(players.last()) == g { 1nat } else { 0nat }
    }
}

/// The `/who` breakdown. It counts client programs, not people: the server
/// cannot tell who drives a client, only which NPCs are its own.
pub struct OnlineCounts {
    pub web: u32,
    pub cli: u32,
    pub other: u32,
    pub official_npc: u32,
}

proof fn lemma_counts_sum(players: Seq<OnlinePlayer>)
    ensures
        count_in(players, OnlineGroup::Web) + count_in(players, OnlineGroup::Cli)
            + count_in(players, OnlineGroup::Other) + count_in(players, OnlineGroup::Npc) == players.len(),
    decreases players.len(),
{
    if players.len() > 0 {
        lemma_counts_sum(players.drop_last());
    }
}

impl OnlineCounts {
    /// Count the players online by group.
    pub fn tally(players: &Vec<OnlinePlayer>) -> (c: OnlineCounts)
        requires
            players@.len() <= u32::MAX,
        ensures
            c.web == count_in(players@, OnlineGroup::Web),
            c.cli == count_in(players@, OnlineGroup::Cli),
            c.other == count_in(players@, OnlineGroup::Other),
            c.official_npc == count_in(players@, OnlineGroup::Npc),
    {
        let mut c = OnlineCounts { web: 0, cli: 0, other: 0, official_npc: 0 };
        let mut i: usize = 0;
        proof {
            assert(players@.subrange(0, 0) =~= Seq::<OnlinePlayer>::empty());
        }
        while i < players.len()
            invariant
                i <= players@.len(),
                players@.len() <= u32::MAX,
                c.web == count_in(players@.subrange(0, i as int), OnlineGroup::Web),
                c.cli == count_in(players@.subrange(0, i as int), OnlineGroup::Cli),
                c.other == count_in(players@.subrange(0, i as int), OnlineGroup::Other),
                c.official_npc == count_in(players@.subrange(0, i as int), OnlineGroup::Npc),
            decreases players@.len() - i,
        {
            proof {
                lemma_counts_sum(players@.subrange(0, i as int));
                let next = players@.subrange(0, i + 1);
                assert(next.drop_last() =~= players@.subrange(0, i as int));
                assert(next.last() == players@[i as int]);
            }
            let p = &players[i];
            if p.is_official_npc {
                c.official_npc = c.official_npc + 1;
            } else {
                match p.client_kind {
                    ClientKind::Web => c.web = c.web + 1,
                    ClientKind::Cli => c.cli = c.cli + 1,
                    ClientKind::Other => c.other = c.other + 1,
                    ClientKind::Unknown => c.other = c.other + 1,
                }
            }
            i = i + 1;
        }
        proof {
            assert(players@.subrange(0, players@.len() as int) =~= players@);
        }
        c
    }

    /// The `/who` reply text.
    pub open spec fn description(self) -> Seq<char> {
        let total = self.web + self.cli + self.other + self.official_npc;
        "Online: "@ + decimal(total as nat) + " ("@ + decimal(self.web as nat) + " web, "@
            + decimal(self.cli as nat) + " cli, "@
            + (if self.other > 0 { decimal(self.other as nat) + " other, "@ } else { Seq::empty() })
            + decimal(self.official_npc as nat) + " npc)"@
    }

    /// `Online: <total> (<web> web, <cli> cli[, <other> other], <npc> npc)`;
    /// the `other` part only when there are any.
    pub fn describe(&self) -> (s: String)
        requires
            self.web + self.cli + self.other + self.official_npc <= u32::MAX,
        ensures
            s@ == self.description(),
    {
        let total = self.web + self.cli + self.other + self.official_npc;
        let mut s = String::new();
        push_str(&mut s, "Online: ");
        push_decimal(&mut s, total as u64);
        push_str(&mut s, " (");
        push_decimal(&mut s, self.web as u64);
        push_str(&mut s, " web, ");
        push_decimal(&mut s, self.cli as u64);
        push_str(&mut s, " cli, ");
        let ghost before_other = s@;
        if self.other > 0 {
            push_decimal(&mut s, self.other as u64);
            push_str(&mut s, " other, ");
        }
        push_decimal(&mut s, self.official_npc as u64);
        push_str(&mut s, " npc)");
        proof {
            assert(s@ =~= self.description());
        }
        s
    }
}

/// Two names equal up to ASCII case.
pub open spec fn same_ignoring_case(a: Seq<char>, b: Seq<char>) -> bool {
    ascii_lowercase(a) == ascii_lowercase(b)
}

/// How a typed name resolved among candidates.
pub enum NameMatch {
    /// Nobody is called that, in any case.
    Nobody,
    /// The candidate at this position.
    Unique(usize),
    /// Several candidates match up to case and none exactly.
    Ambiguous,
}

/// No candidate is spelled exactly `query`.
pub open spec fn no_exact(names: Seq<String>, query: Seq<char>) -> bool {
    forall|j: int| 0 <= j < names.len() ==> #[trigger] names[j]@ != query
}

/// `query` resolves to the candidate at `i`: the first exact spelling, or
/// failing any, the only candidate equal up to case.
pub open spec fn resolves_to(names: Seq<String>, query: Seq<char>, i: int) -> bool {
    0 <= i < names.len() && (
        (names[i]@ == query && forall|j: int| 0 <= j < i ==> #[trigger] names[j]@ != query)
        || (no_exact(names, query) && same_ignoring_case(names[i]@, query)
            && forall|j: int| 0 <= j < names.len() && j != i ==> !same_ignoring_case(#[trigger] names[j]@, query)))
}

/// No candidate is `query`, in any case.
pub open spec fn resolves_to_nobody(names: Seq<String>, query: Seq<char>) -> bool {
    no_exact(names, query) && forall|j: int| 0 <= j < names.len() ==> !same_ignoring_case(#[trigger] names[j]@, query)
}

/// No candidate is spelled `query` exactly, and several are up to case.
pub open spec fn ambiguous_name(names: Seq<String>, query: Seq<char>) -> bool {
    no_exact(names, query) && exists|j: int, k: int| 0 <= j < k < names.len()
        && same_ignoring_case(#[trigger] names[j]@, query) && same_ignoring_case(#[trigger] names[k]@, query)
}

/// Resolve a typed name: names are unique only case-sensitively, so an
/// exact spelling wins, and matching up to ASCII case applies only while it
/// is unambiguous.
pub fn match_name(names: &Vec<String>, query: &str) -> (r: NameMatch)
    ensures
        match r {
            NameMatch::Unique(i) => resolves_to(names@, query@, i as int),
            NameMatch::Nobody => resolves_to_nobody(names@, query@),
            NameMatch::Ambiguous => ambiguous_name(names@, query@),
        },
{
    let want = crate::text::owned(query);
    let mut i: usize = 0;
    while i < names.len()
        invariant
            i <= names@.len(),
            want@ == query@,
            forall|j: int| 0 <= j < i ==> #[trigger] names@[j]@ != query@,
        decreases names@.len() - i,
    {
        if names[i].eq(&want) {
            return NameMatch::Unique(i);
        }
        i = i + 1;
    }
    let lowered = to_ascii_lowercase(query);
    let mut first: Option<usize> = None;
    let mut k: usize = 0;
    while k < names.len()
        invariant
            k <= names@.len(),
            lowered@ == ascii_lowercase(query@),
            no_exact(names@, query@),
            match first {
                Some(f) => f < k && same_ignoring_case(names@[f as int]@, query@)
                    && forall|j: int| 0 <= j < k && j != f ==> !same_ignoring_case(#[trigger] names@[j]@, query@),
                None => forall|j: int| 0 <= j < k ==> !same_ignoring_case(#[trigger] names@[j]@, query@),
            },
        decreases names@.len() - k,
    {
        let l = to_ascii_lowercase(names[k].as_str());
        if l.eq(&lowered) {
            match first {
                Some(f) => {
                    proof {
                        assert(same_ignoring_case(names@[k as int]@, query@));
                        assert(same_ignoring_case(names@[f as int]@, query@));
                    }
                    return NameMatch::Ambiguous;
                },
                None => {
                    first = Some(k);
                },
            }
        }
        k = k + 1;
    }
    match first {
        Some(f) => NameMatch::Unique(f),
        None => NameMatch::Nobody,
    }
}

/// Most names one character may block, so that the per-recipient chat
/// filter and the stored rows stay bounded.
pub const MAX_BLOCKS: usize = 100;

/// `v` is in strictly increasing order.
pub open spec fn strictly_sorted(v: Seq<Seq<char>>) -> bool {
    forall|i: int, j: int| 0 <= i < j < v.len() ==> seq_less(#[trigger] v[i], #[trigger] v[j])
}

/// The members of `set` in increasing order.
pub(crate) fn sorted_names(set: &StrSet) -> (out: Vec<String>)
    requires
        set.wf(),
    ensures
        strictly_sorted(views(out@)),
        forall|k: Seq<char>| #[trigger] views(out@).contains(k) <==> set@.contains(k),
{
    let mut out: Vec<String> = Vec::new();
    let mut i: usize = 0;
    while i < set.items.len()
        invariant
            set.wf(),
            i <= set.items@.len(),
            strictly_sorted(views(out@)),
            forall|k: Seq<char>| #[trigger] views(out@).contains(k)
                <==> exists|j: int| 0 <= j < i && #[trigger] set.items@[j]@ == k,
        decreases set.items@.len() - i,
    {
        let name = set.items[i].clone();
        let name_chars = chars_of(name.as_str());
        let mut p: usize = 0;
        let mut found = false;
        while p < out.len() && !found
            invariant
                p <= out@.len(),
                name_chars@ == name@,
                name@ == set.items@[i as int]@,
                found ==> p < out@.len() && seq_less(name@, out@[p as int]@),
                forall|j: int| 0 <= j < p ==> !seq_less(name@, #[trigger] out@[j]@),
            decreases out@.len() - p + if found { 0int } else { 1int },
        {
            let other = chars_of(out[p].as_str());
            if less(&name_chars, &other) {
                found = true;
            } else {
                p = p + 1;
            }
        }
        let ghost before = views(out@);
        proof {
            assert forall|j: int| 0 <= j < before.len() implies before[j] != name@ by {
                assert(before[j] == out@[j]@);
                assert(before.contains(before[j]));
                let w = choose|w: int| 0 <= w < i && #[trigger] set.items@[w]@ == before[j];
                assert(set.items@[w]@ != set.items@[i as int]@);
            }
        }
        out.insert(p, name);
        proof {
            let after = views(out@);
            assert(after =~= before.insert(p as int, set.items@[i as int]@));
            assert forall|a: int, b: int| 0 <= a < b < after.len() implies seq_less(#[trigger] after[a], #[trigger] after[b]) by {
                let x = set.items@[i as int]@;
                if a < p && b < p {
                    assert(after[a] == before[a] && after[b] == before[b]);
                } else if a < p && b == p {
                    assert(!seq_less(x, before[a]));
                    lemma_seq_less_total(x, before[a]);
                } else if a < p {
                    assert(after[b] == before[b - 1]);
                    assert(!seq_less(x, before[a]));
                    lemma_seq_less_total(x, before[a]);
                    assert(after[p as int] == x);
                    assert(seq_less(before[a], x));
                    assert(seq_less(x, before[p as int])) by {
                        assert(found || p == before.len());
                    }
                    if b - 1 > p {
                        assert(seq_less(before[p as int], before[b - 1]));
                        lemma_seq_less_transitive(x, before[p as int], before[b - 1]);
                    }
                    lemma_seq_less_transitive(before[a], x, before[b - 1]);
                } else if a == p {
                    assert(after[b] == before[b - 1]);
                    if b - 1 > p {
                        assert(seq_less(before[p as int], before[b - 1]));
                        lemma_seq_less_transitive(x, before[p as int], before[b - 1]);
                    }
                } else {
                    assert(after[a] == before[a - 1] && after[b] == before[b - 1]);
                }
            }
            assert forall|k: Seq<char>| #[trigger] after.contains(k)
                <==> exists|j: int| 0 <= j < i + 1 && #[trigger] set.items@[j]@ == k by {
                if after.contains(k) {
                    let w = choose|w: int| 0 <= w < after.len() && after[w] == k;
                    if w == p {
                        assert(set.items@[i as int]@ == k);
                    } else {
                        let w2 = if w < p { w } else { w - 1 };
                        assert(before[w2] == k);
                        assert(before.contains(k));
                        let j = choose|j: int| 0 <= j < i && #[trigger] set.items@[j]@ == k;
                        assert(0 <= j < i + 1 && set.items@[j]@ == k);
                    }
                }
                if exists|j: int| 0 <= j < i + 1 && #[trigger] set.items@[j]@ == k {
                    let j = choose|j: int| 0 <= j < i + 1 && #[trigger] set.items@[j]@ == k;
                    if j == i {
                        assert(after[p as int] == k);
                    } else {
                        assert(exists|j2: int| 0 <= j2 < i && #[trigger] set.items@[j2]@ == k);
                        assert(before.contains(k));
                        let w = choose|w: int| 0 <= w < before.len() && before[w] == k;
                        let w2 = if w < p { w } else { w + 1 };
                        assert(after[w2] == k);
                    }
                }
            }
        }
        i = i + 1;
    }
    out
}

/// The muted names of each player online, kept for the session.
pub struct BlockLists {
    pub lists: IdMap<StrSet>,
}

/// Why a `/block` was not recorded.
pub enum BlockRefusal {
    /// The name is the blocker's own.
    Yourself,
    /// The blocker has no character to store the block under.
    NoCharacter,
    /// The name is already on the list.
    AlreadyBlocked,
    /// The list holds `MAX_BLOCKS` names.
    ListFull,
}

/// What an `/unblock <name>` comes to.
pub enum UnblockPlan {
    /// No name was given.
    Usage,
    /// No blocked name matches.
    NotBlocked,
    /// Remove this stored name.
    Remove(String),
}

impl BlockLists {
    pub open spec fn wf(&self) -> bool {
        &&& self.lists.wf()
        &&& forall|p: PlayerId| #[trigger] self.lists@.contains_key(p) ==> self.lists@[p].wf()
    }

    pub open spec fn view(&self) -> Map<PlayerId, Set<Seq<char>>> {
        self.lists@.map_values(|s: StrSet| s@)
    }

    /// `player` has muted `name`.
    pub open spec fn blocked(&self, player: PlayerId, name: Seq<char>) -> bool {
        self@.contains_key(player) && self@[player].contains(name)
    }

    /// How many names `player` has muted.
    pub open spec fn count(&self, player: PlayerId) -> nat {
        if self@.contains_key(player) { self@[player].len() } else { 0 }
    }

    pub fn new() -> (b: Self)
        ensures
            b.wf(),
            b@ == Map::<PlayerId, Set<Seq<char>>>::empty(),
    {
        let b = BlockLists { lists: IdMap::new() };
        assert(b@ =~= Map::<PlayerId, Set<Seq<char>>>::empty());
        b
    }

    /// Install a character's stored block list for this session. An empty
    /// list is not stored, so that nobody online with blocks means no lists.
    pub fn set_player_blocks(&mut self, player: PlayerId, names: Vec<String>)
        requires
            old(self).wf(),
        ensures
            final(self).wf(),
            final(self)@ == if names@.len() == 0 {
                old(self)@
            } else {
                old(self)@.insert(player, views(names@).to_set())
            },
    {
        if names.len() == 0 {
            return;
        }
        let mut set = StrSet::new();
        let mut i: usize = 0;
        proof {
            assert(views(names@.subrange(0, 0)).to_set() =~= Set::<Seq<char>>::empty());
        }
        while i < names.len()
            invariant
                i <= names@.len(),
                set.wf(),
                set@ == views(names@.subrange(0, i as int)).to_set(),
            decreases names@.len() - i,
        {
            set.insert(names[i].clone());
            proof {
                assert(views(names@.subrange(0, i + 1)) =~= views(names@.subrange(0, i as int)).push(names@[i as int]@));
                views(names@.subrange(0, i as int)).lemma_push_to_set_commute(names@[i as int]@);
            }
            i = i + 1;
        }
        proof {
            assert(names@.subrange(0, names@.len() as int) =~= names@);
        }
        let ghost s = set@;
        self.lists.insert(player, set);
        proof {
            assert(self@ =~= old(self)@.insert(player, s));
        }
    }

    /// Forget a player's list when they leave.
    pub fn remove_player_blocks(&mut self, player: PlayerId)
        requires
            old(self).wf(),
        ensures
            final(self).wf(),
            final(self)@ == old(self)@.remove(player),
    {
        self.lists.remove(player);
        assert(self@ =~= old(self)@.remove(player));
    }

    /// Whether `player` has muted `name`.
    pub fn has_blocked(&self, player: PlayerId, name: &str) -> (r: bool)
        requires
            self.wf(),
        ensures
            r == self.blocked(player, name@),
    {
        match self.lists.get(player) {
            Some(set) => set.contains(name),
            None => false,
        }
    }

    /// Of those in earshot, who hears `sender_name` speak: everyone but
    /// those who muted the name.
    pub fn chat_recipients(&self, recipients: &Vec<PlayerId>, sender_name: &str) -> (out: Vec<PlayerId>)
        requires
            self.wf(),
        ensures
            out@ == recipients@.filter(|id: PlayerId| !self.blocked(id, sender_name@)),
    {
        let mut out: Vec<PlayerId> = Vec::new();
        let mut i: usize = 0;
        while i < recipients.len()
            invariant
                self.wf(),
                i <= recipients@.len(),
                out@ == recipients@.subrange(0, i as int).filter(|id: PlayerId| !self.blocked(id, sender_name@)),
            decreases recipients@.len() - i,
        {
            proof {
                assert(recipients@.subrange(0, i + 1) =~= recipients@.subrange(0, i as int).push(recipients@[i as int]));
                recipients@.subrange(0, i as int).lemma_filter_push(recipients@[i as int], |id: PlayerId| !self.blocked(id, sender_name@));
            }
            let id = recipients[i];
            if !self.has_blocked(id, sender_name) {
                out.push(id);
            }
            i = i + 1;
        }
        proof {
            assert(recipients@.subrange(0, recipients@.len() as int) =~= recipients@);
        }
        out
    }

    /// The reply to a bare `/block`: the muted names in order.
    pub fn describe_blocks(&self, player: PlayerId) -> (r: String)
        requires
            self.wf(),
        ensures
            self.count(player) == 0 ==> r@ == "Block: no one is blocked. /block <name> mutes a player."@,
            self.count(player) > 0 ==> exists|names: Seq<Seq<char>>| strictly_sorted(names)
                && (forall|k: Seq<char>| #[trigger] names.contains(k) <==> self@[player].contains(k))
                && r@ == "Blocked: "@ + join(names, ", "@),
    {
        let set = match self.lists.get(player) {
            Some(set) => set,
            None => return crate::text::owned("Block: no one is blocked. /block <name> mutes a player."),
        };
        proof {
            set.lemma_len();
        }
        if set.len() == 0 {
            return crate::text::owned("Block: no one is blocked. /block <name> mutes a player.");
        }
        let names = sorted_names(set);
        let mut r = crate::text::owned("Blocked: ");
        push_joined(&mut r, &names, ", ");
        r
    }

    /// Whether a `/block` of `canonical`, the name as stored, may go ahead,
    /// checked in this order: not oneself, a character to file it under, not
    /// already blocked, room on the list.
    pub fn block_refusal(&self, player: PlayerId, own_name: &str, canonical: &str, has_character: bool)
        -> (r: Option<BlockRefusal>)
        requires
            self.wf(),
        ensures
            r == if own_name@ == canonical@ {
                Some(BlockRefusal::Yourself)
            } else if !has_character {
                Some(BlockRefusal::NoCharacter)
            } else if self.blocked(player, canonical@) {
                Some(BlockRefusal::AlreadyBlocked)
            } else if self.count(player) >= MAX_BLOCKS {
                Some(BlockRefusal::ListFull)
            } else {
                None::<BlockRefusal>
            },
    {
        if crate::text::owned(own_name).eq(&crate::text::owned(canonical)) {
            return Some(BlockRefusal::Yourself);
        }
        if !has_character {
            return Some(BlockRefusal::NoCharacter);
        }
        match self.lists.get(player) {
            Some(set) => {
                proof {
                    set.lemma_len();
                }
                if set.contains(canonical) {
                    Some(BlockRefusal::AlreadyBlocked)
                } else if set.len() >= MAX_BLOCKS {
                    Some(BlockRefusal::ListFull)
                } else {
                    None
                }
            },
            None => None,
        }
    }

    /// Record a block once it is stored.
    pub fn add_block(&mut self, player: PlayerId, canonical: String)
        requires
            old(self).wf(),
        ensures
            final(self).wf(),
            final(self)@ == old(self)@.insert(player,
                if old(self)@.contains_key(player) { old(self)@[player].insert(canonical@) } else { set![canonical@] }),
    {
        let ghost c = canonical@;
        let mut set = match self.lists.remove(player) {
            Some(s) => s,
            None => StrSet::new(),
        };
        set.insert(canonical);
        let ghost s = set@;
        self.lists.insert(player, set);
        proof {
            if !old(self)@.contains_key(player) {
                assert(s =~= set![c]);
            }
            assert(self@ =~= old(self)@.insert(player, s));
        }
    }

    /// What `/unblock <name>` removes: the stored name that `name` resolves
    /// to as a typed name, so that a character since deleted can still be
    /// unblocked.
    pub fn unblock_plan(&self, player: PlayerId, name: &str) -> (r: UnblockPlan)
        requires
            self.wf(),
        ensures
            name@.len() == 0 ==> r is Usage,
            name@.len() > 0 && !self.lists@.contains_key(player) ==> r is NotBlocked,
            name@.len() > 0 && self.lists@.contains_key(player) ==> match r {
                UnblockPlan::Remove(stored) => exists|i: int| resolves_to(self.lists@[player].items@, name@, i)
                    && stored@ == #[trigger] self.lists@[player].items@[i]@,
                UnblockPlan::NotBlocked => forall|i: int| !resolves_to(self.lists@[player].items@, name@, i),
                UnblockPlan::Usage => false,
            },
    {
        if name.unicode_len() == 0 {
            return UnblockPlan::Usage;
        }
        let set = match self.lists.get(player) {
            Some(set) => set,
            None => return UnblockPlan::NotBlocked,
        };
        match match_name(&set.items, name) {
            NameMatch::Unique(i) => UnblockPlan::Remove(set.items[i].clone()),
            NameMatch::Nobody => {
                proof {
                    assert forall|i: int| !resolves_to(set.items@, name@, i) by {
                        if 0 <= i < set.items@.len() {
                            assert(set.items@[i]@ != name@);
                            assert(!same_ignoring_case(set.items@[i]@, name@));
                        }
                    }
                }
                UnblockPlan::NotBlocked
            },
            NameMatch::Ambiguous => {
                proof {
                    let items = set.items@;
                    let (j, k) = choose|j: int, k: int| 0 <= j < k < items.len() && same_ignoring_case(#[trigger] items[j]@, name@)
                        && same_ignoring_case(#[trigger] items[k]@, name@);
                    assert forall|i: int| !resolves_to(items, name@, i) by {
                        if 0 <= i < items.len() && no_exact(items, name@) {
                            if i != j {
                                assert(same_ignoring_case(items[j]@, name@));
                            } else {
                                assert(same_ignoring_case(items[k]@, name@));
                            }
                        }
                    }
                }
                UnblockPlan::NotBlocked
            },
        }
    }

    /// Drop a stored name once its removal is stored; a list left empty
    /// goes.
    pub fn remove_block(&mut self, player: PlayerId, stored: &str)
        requires
            old(self).wf(),
        ensures
            final(self).wf(),
            final(self)@ == if !old(self)@.contains_key(player) {
                old(self)@
            } else if old(self)@[player].remove(stored@).len() == 0 {
                old(self)@.remove(player)
            } else {
                old(self)@.insert(player, old(self)@[player].remove(stored@))
            },
    {
        let mut set = match self.lists.remove(player) {
            Some(s) => s,
            None => {
                assert(self@ =~= old(self)@);
                return;
            },
        };
        set.remove(stored);
        proof {
            set.lemma_len();
        }
        if set.len() == 0 {
            assert(self@ =~= old(self)@.remove(player));
            return;
        }
        let ghost s = set@;
        self.lists.insert(player, set);
        assert(self@ =~= old(self)@.insert(player, s));
    }
}

/// Where a whisper goes, or why it does not.
pub enum WhisperRoute {
    /// The name or the message is missing.
    Usage,
    /// The sender is not online: nothing is sent.
    UnknownSender,
    /// Nobody online is called that.
    NoOne,
    /// Several online players match up to case.
    Several,
    /// The name is the sender's own.
    Yourself,
    /// Deliver from `from` to the player `to_id`, called `to`.
    Deliver { from: String, to_id: PlayerId, to: String },
}

/// The position of `id` in `ids`, if it is there.
fn position_of_id(ids: &Vec<PlayerId>, id: PlayerId) -> (r: Option<usize>)
    ensures
        match r {
            Some(i) => i < ids@.len() && ids@[i as int] == id,
            None => !ids@.contains(id),
        },
{
    let mut i: usize = 0;
    while i < ids.len()
        invariant
            i <= ids@.len(),
            forall|j: int| 0 <= j < i ==> ids@[j] != id,
        decreases ids@.len() - i,
    {
        if ids[i] == id {
            return Some(i);
        }
        i = i + 1;
    }
    None
}

/// Route a whisper from `sender` among the players online, given as their
/// ids and names side by side (each id once). The checks come in this
/// order: usage, a known sender, the name resolving to one player, and that
/// player not being the sender.
pub fn route_whisper(sender: PlayerId, target_name: &str, message: &str, ids: &Vec<PlayerId>, names: &Vec<String>)
    -> (r: WhisperRoute)
    requires
        ids@.len() == names@.len(),
        ids@.no_duplicates(),
    ensures
        target_name@.len() == 0 || message@.len() == 0 ==> r is Usage,
        target_name@.len() > 0 && message@.len() > 0 && !ids@.contains(sender) ==> r is UnknownSender,
        target_name@.len() > 0 && message@.len() > 0 && ids@.contains(sender) ==> match r {
            WhisperRoute::NoOne => resolves_to_nobody(names@, target_name@),
            WhisperRoute::Several => ambiguous_name(names@, target_name@),
            WhisperRoute::Yourself => exists|i: int| resolves_to(names@, target_name@, i) && #[trigger] ids@[i] == sender,
            WhisperRoute::Deliver { from, to_id, to } => to_id != sender
                && (exists|i: int| resolves_to(names@, target_name@, i) && #[trigger] ids@[i] == to_id && to@ == names@[i]@)
                && (exists|i: int| 0 <= i < ids@.len() && #[trigger] ids@[i] == sender && from@ == names@[i]@),
            _ => false,
        },
{
    if target_name.unicode_len() == 0 || message.unicode_len() == 0 {
        return WhisperRoute::Usage;
    }
    let s = match position_of_id(ids, sender) {
        Some(s) => s,
        None => return WhisperRoute::UnknownSender,
    };
    match match_name(names, target_name) {
        NameMatch::Nobody => WhisperRoute::NoOne,
        NameMatch::Ambiguous => WhisperRoute::Several,
        NameMatch::Unique(t) => {
            if ids[t] == sender {
                WhisperRoute::Yourself
            } else {
                WhisperRoute::Deliver { from: names[s].clone(), to_id: ids[t], to: names[t].clone() }
            }
        },
    }
}

/// The reply to the sender of a whisper that does not go out; `None` for
/// routes that draw none.
pub fn whisper_reply(route: &WhisperRoute, target_name: &str) -> (r: Option<String>)
    ensures
        match route {
            WhisperRoute::Usage => opt_view(r) == Some("Whisper: /w <name> <message>"@),
            WhisperRoute::NoOne => r is Some && r->0@ == "Whisper: no one called "@ + target_name@ + " is here."@,
            WhisperRoute::Several => r is Some
                && r->0@ == "Whisper: several players match "@ + target_name@ + "; spell the name exactly."@,
            WhisperRoute::Yourself => r is Some && r->0@ == "Whisper: that's you."@,
            _ => r is None,
        },
{
    match route {
        WhisperRoute::Usage => Some(crate::text::owned("Whisper: /w <name> <message>")),
        WhisperRoute::NoOne => {
            let mut s = crate::text::owned("Whisper: no one called ");
            push_str(&mut s, target_name);
            push_str(&mut s, " is here.");
            Some(s)
        },
        WhisperRoute::Several => {
            let mut s = crate::text::owned("Whisper: several players match ");
            push_str(&mut s, target_name);
            push_str(&mut s, "; spell the name exactly.");
            Some(s)
        },
        WhisperRoute::Yourself => Some(crate::text::owned("Whisper: that's you.")),
        _ => None,
    }
}

/// How a `/block <name>` ended.
pub enum BlockReply {
    /// No character has that name.
    NoSuchCharacter,
    /// Looking the name up or storing the block failed.
    ServerError,
    /// The block was refused.
    Refused(BlockRefusal),
    /// The block is stored.
    Blocked,
}

/// The reply to `/block <name>`, where `canonical` is the name as stored.
pub fn block_reply(reply: &BlockReply, name: &str, canonical: &str) -> (r: String)
    ensures
        r@ == match reply {
            BlockReply::NoSuchCharacter => "Block: no character named "@ + name@ + "; spell the name exactly."@,
            BlockReply::ServerError => "Block: server error, try again."@,
            BlockReply::Refused(BlockRefusal::NoCharacter) => "Block: server error, try again."@,
            BlockReply::Refused(BlockRefusal::Yourself) => "Block: that's you."@,
            BlockReply::Refused(BlockRefusal::AlreadyBlocked) => "Block: "@ + canonical@ + " is already blocked."@,
            BlockReply::Refused(BlockRefusal::ListFull) => "Block: list is full ("@ + decimal(MAX_BLOCKS as nat)
                + "); /unblock someone first."@,
            BlockReply::Blocked => "Block: "@ + canonical@ + " is blocked; their chat and whispers are hidden. /unblock "@
                + canonical@ + " undoes this."@,
        },
{
    match reply {
        BlockReply::NoSuchCharacter => {
            let mut s = crate::text::owned("Block: no character named ");
            push_str(&mut s, name);
            push_str(&mut s, "; spell the name exactly.");
            s
        },
        BlockReply::ServerError => crate::text::owned("Block: server error, try again."),
        BlockReply::Refused(BlockRefusal::NoCharacter) => crate::text::owned("Block: server error, try again."),
        BlockReply::Refused(BlockRefusal::Yourself) => crate::text::owned("Block: that's you."),
        BlockReply::Refused(BlockRefusal::AlreadyBlocked) => {
            let mut s = crate::text::owned("Block: ");
            push_str(&mut s, canonical);
            push_str(&mut s, " is already blocked.");
            s
        },
        BlockReply::Refused(BlockRefusal::ListFull) => {
            let mut s = crate::text::owned("Block: list is full (");
            push_decimal(&mut s, MAX_BLOCKS as u64);
            push_str(&mut s, "); /unblock someone first.");
            s
        },
        BlockReply::Blocked => {
            let mut s = crate::text::owned("Block: ");
            push_str(&mut s, canonical);
            push_str(&mut s, " is blocked; their chat and whispers are hidden. /unblock ");
            push_str(&mut s, canonical);
            push_str(&mut s, " undoes this.");
            s
        },
    }
}

/// How an `/unblock <name>` ended.
pub enum UnblockReply {
    /// No name was given.
    Usage,
    /// No blocked name matches.
    NotBlocked,
    /// Storing the removal failed.
    ServerError,
    /// The stored name was removed.
    Unblocked,
}

/// The reply to `/unblock <name>`, where `stored` is the name removed.
pub fn unblock_reply(reply: &UnblockReply, name: &str, stored: &str) -> (r: String)
    ensures
        r@ == match reply {
            UnblockReply::Usage => "Unblock: /unblock <name>"@,
            UnblockReply::NotBlocked => "Unblock: "@ + name@ + " is not blocked."@,
            UnblockReply::ServerError => "Unblock: server error, try again."@,
            UnblockReply::Unblocked => "Unblock: "@ + stored@ + " is no longer blocked."@,
        },
{
    match reply {
        UnblockReply::Usage => crate::text::owned("Unblock: /unblock <name>"),
        UnblockReply::NotBlocked => {
            let mut s = crate::text::owned("Unblock: ");
            push_str(&mut s, name);
            push_str(&mut s, " is not blocked.");
            s
        },
        UnblockReply::ServerError => crate::text::owned("Unblock: server error, try again."),
        UnblockReply::Unblocked => {
            let mut s = crate::text::owned("Unblock: ");
            push_str(&mut s, stored);
            push_str(&mut s, " is no longer blocked.");
            s
        },
    }
}

/// `/escape` is refused while the player fought within the last
/// `out_of_combat_ms`, so that it cannot serve as a free disengage.
pub fn escape_refused(now: u64, last_combat_at: u64, out_of_combat_ms: u64) -> (r: bool)
    ensures
        r == (if now >= last_combat_at { now - last_combat_at } else { 0 } < out_of_combat_ms),
{
    now.saturating_sub(last_combat_at) < out_of_combat_ms
}

} // verus!
