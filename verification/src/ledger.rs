//! The executable ledger.
use crate::model::{identities, Side, VoteLog};
use crate::wire::{ledger_bytes, ledger_fits, parse_ledger, read_log, write_log};
use near_sdk::AccountId;
use vstd::prelude::*;

verus! {

/// The ballot ledger: who voted for Ronaldo and who voted for Messi.
///
/// Both logs only ever grow, and nothing keeps an account from voting twice
/// or for both candidates.
pub struct RonaldoVsMessi {
    votes_for_ronaldo: Vec<AccountId>,
    votes_for_messi: Vec<AccountId>,
}

impl View for RonaldoVsMessi {
    type V = VoteLog;

    closed spec fn view(&self) -> VoteLog {
        VoteLog {
            ronaldo: identities(self.votes_for_ronaldo@),
            messi: identities(self.votes_for_messi@),
        }
    }
}

impl Default for RonaldoVsMessi {
    fn default() -> (ledger: Self)
        ensures
            ledger@ == VoteLog::empty(),
    {
        RonaldoVsMessi::new()
    }
}

/// Whether `account_id` occurs in `log`.
fn voted_in(log: &Vec<AccountId>, account_id: &AccountId) -> (found: bool)
    ensures
        found == identities(log@).contains(account_id@),
{
    let ghost ids = identities(log@);
    let mut i: usize = 0;
    while i < log.len()
        invariant
            i <= log.len(),
            ids == identities(log@),
            forall|j: int| 0 <= j < i ==> ids[j] != account_id@,
        decreases log.len() - i,
    {
        if log[i] == *account_id {
            assert(ids[i as int] == account_id@);
            return true;
        }
        i += 1;
    }
    false
}

impl RonaldoVsMessi {
    /// A ledger with no votes.
    pub fn new() -> (ledger: Self)
        ensures
            ledger@ == VoteLog::empty(),
    {
        let ledger = RonaldoVsMessi { votes_for_ronaldo: Vec::new(), votes_for_messi: Vec::new() };
        assert(ledger@.ronaldo =~= Seq::empty());
        assert(ledger@.messi =~= Seq::empty());
        ledger
    }

    /// Records a vote by `caller` for `side`. The caller's identity comes
    /// from whoever runs the ledger, never from the request itself.
    pub fn record_vote_for(&mut self, side: Side, caller: AccountId)
        ensures
            final(self)@ == old(self)@.record(side, caller@),
    {
        let ghost who = caller@;
        match side {
            Side::Ronaldo => {
                self.votes_for_ronaldo.push(caller);
                assert(self@.ronaldo =~= old(self)@.ronaldo.push(who));
            },
            Side::Messi => {
                self.votes_for_messi.push(caller);
                assert(self@.messi =~= old(self)@.messi.push(who));
            },
        }
    }

    /// Records a vote by `account_id` for Ronaldo.
    pub fn vote_ronaldo(&mut self, account_id: AccountId)
        ensures
            final(self)@ == old(self)@.record(Side::Ronaldo, account_id@),
    {
        self.record_vote_for(Side::Ronaldo, account_id)
    }

    /// Records a vote by `account_id` for Messi.
    pub fn votes_messi(&mut self, account_id: AccountId)
        ensures
            final(self)@ == old(self)@.record(Side::Messi, account_id@),
    {
        self.record_vote_for(Side::Messi, account_id)
    }

    /// The number of votes cast for Ronaldo and for Messi.
    pub fn get_total_votes(&self) -> (totals: (u64, u64))
        ensures
            totals.0 == self@.totals().0,
            totals.1 == self@.totals().1,
    {
        (self.votes_for_ronaldo.len() as u64, self.votes_for_messi.len() as u64)
    }

    /// Whether `account_id` has voted for Ronaldo, and whether for Messi.
    pub fn check_if_user_voted(&self, account_id: &AccountId) -> (voted: (bool, bool))
        ensures
            voted == self@.has_voted(account_id@),
    {
        (voted_in(&self.votes_for_ronaldo, account_id), voted_in(&self.votes_for_messi, account_id))
    }

    /// The bytes that persist this ledger, or `None` where a log has more
    /// than `u32::MAX` entries or an identity more than `u32::MAX` bytes.
    pub fn encode(&self) -> (r: Option<Vec<u8>>)
        ensures
            r is Some <==> ledger_fits(self@),
            r matches Some(bytes) ==> bytes@ == ledger_bytes(self@),
    {
        let mut out: Vec<u8> = Vec::new();
        if !write_log(&self.votes_for_ronaldo, &mut out) {
            return None;
        }
        if !write_log(&self.votes_for_messi, &mut out) {
            return None;
        }
        assert(out@ =~= ledger_bytes(self@));
        Some(out)
    }

    /// The ledger that `bytes` persist, or `None` where they are not the
    /// encoding of any ledger.
    pub fn decode(bytes: &[u8]) -> (r: Option<Self>)
        ensures
            match r {
                Some(ledger) => parse_ledger(bytes@) == Some(ledger@),
                None => parse_ledger(bytes@) is None,
            },
    {
        match read_log(bytes) {
            Some((votes_for_ronaldo, rest)) => match read_log(rest) {
                Some((votes_for_messi, left)) => {
                    if left.len() == 0 {
                        Some(RonaldoVsMessi { votes_for_ronaldo, votes_for_messi })
                    } else {
                        None
                    }
                },
                None => None,
            },
            None => None,
        }
    }
}

} // verus!
