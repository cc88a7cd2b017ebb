//! Players' copper purses: credits that always land, and debits that either
//! take the whole sum or nothing.
use vstd::prelude::*;
use crate::keyed::IdMap;

verus! {

/// Every player's copper, by player id; a player without an entry holds none.
pub struct Purses {
    pub wallets: IdMap<i64>,
}

/// The copper a map of wallets gives `player`.
pub open spec fn balance_in(wallets: Map<u128, i64>, player: u128) -> int {
    if wallets.contains_key(player) { wallets[player] as int } else { 0 }
}

/// A debit of `copper` from `wallet`: `None` when the wallet does not cover it.
pub open spec fn debit(wallet: int, copper: int) -> Option<int> {
    if wallet < copper { None } else { Some(wallet - copper) }
}

impl Purses {
    pub open spec fn wf(&self) -> bool {
        self.wallets.wf()
    }

    pub open spec fn balance(&self, player: u128) -> int {
        balance_in(self.wallets@, player)
    }

    pub fn new() -> (p: Self)
        ensures
            p.wf(),
            forall|player: u128| p.balance(player) == 0,
    {
        Purses { wallets: IdMap::new() }
    }

    /// The copper `player` holds.
    pub fn gold(&self, player: u128) -> (g: i64)
        requires
            self.wf(),
        ensures
            g == self.balance(player),
    {
        match self.wallets.get(player) {
            Some(g) => *g,
            None => 0,
        }
    }

    /// Credits `copper` to `player` and returns the new balance; no other
    /// purse changes.
    pub fn award_copper(&mut self, player: u128, copper: i64) -> (gold: i64)
        requires
            old(self).wf(),
            i64::MIN <= old(self).balance(player) + copper <= i64::MAX,
        ensures
            final(self).wf(),
            gold == old(self).balance(player) + copper,
            final(self).balance(player) == gold,
            forall|other: u128| other != player ==> final(self).balance(other) == old(self).balance(other),
    {
        let gold = self.gold(player) + copper;
        self.wallets.insert(player, gold);
        gold
    }

    /// Takes `copper` from `player` when the purse covers it and returns what
    /// is left; when it does not, nothing is spent and `None` comes back. No
    /// other purse changes.
    pub fn spend_copper(&mut self, player: u128, copper: i64) -> (left: Option<i64>)
        requires
            old(self).wf(),
            old(self).balance(player) >= copper ==> old(self).balance(player) - copper <= i64::MAX,
        ensures
            final(self).wf(),
            left == match debit(old(self).balance(player), copper as int) {
                Some(w) => Some(w as i64),
                None => None::<i64>,
            },
            final(self).balance(player) == match debit(old(self).balance(player), copper as int) {
                Some(w) => w,
                None => old(self).balance(player),
            },
            forall|other: u128| other != player ==> final(self).balance(other) == old(self).balance(other),
    {
        let wallet = self.gold(player);
        if wallet < copper {
            return None;
        }
        let left = wallet - copper;
        self.wallets.insert(player, left);
        Some(left)
    }
}

/// Awarding back the copper a successful spend took restores the purse.
pub proof fn law_award_undoes_spend(wallet: int, copper: int)
    requires
        wallet >= copper,
    ensures
        debit(wallet, copper) matches Some(w) && w + copper == wallet,
{
}

/// A refused spend is refused because the purse holds less than the price.
pub proof fn law_spend_refused_only_when_short(wallet: int, copper: int)
    ensures
        debit(wallet, copper) is None <==> wallet < copper,
{
}

} // verus!
