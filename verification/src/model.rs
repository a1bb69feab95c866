//! The mathematical model of the ledger: two sequences of identities and the
//! functions that the ledger's contracts are written in.
use vstd::prelude::*;

verus! {

/// The candidate a vote is cast for.
#[derive(Clone, Copy, Debug, PartialEq, Eq, Structural)]
pub enum Side {
    Ronaldo,
    Messi,
}

/// One cast vote: the side chosen and the identity of the caller.
pub type Ballot = (Side, Seq<char>);

/// What a ledger holds: for each candidate, the identities that voted for
/// them, oldest first. An identity may occur any number of times, in either
/// log or in both.
pub struct VoteLog {
    pub ronaldo: Seq<Seq<char>>,
    pub messi: Seq<Seq<char>>,
}

impl VoteLog {
    /// The ledger before any vote.
    pub open spec fn empty() -> VoteLog {
        VoteLog { ronaldo: Seq::empty(), messi: Seq::empty() }
    }

    /// The ledger after `who` has voted for `side`: the identity is appended
    /// to that side's log and the other log is untouched.
    pub open spec fn record(self, side: Side, who: Seq<char>) -> VoteLog {
        match side {
            Side::Ronaldo => VoteLog { ronaldo: self.ronaldo.push(who), messi: self.messi },
            Side::Messi => VoteLog { ronaldo: self.ronaldo, messi: self.messi.push(who) },
        }
    }

    /// The number of votes cast for each candidate, Ronaldo first.
    pub open spec fn totals(self) -> (nat, nat) {
        (self.ronaldo.len(), self.messi.len())
    }

    /// Whether `who` occurs in Ronaldo's log, and whether in Messi's.
    pub open spec fn has_voted(self, who: Seq<char>) -> (bool, bool) {
        (self.ronaldo.contains(who), self.messi.contains(who))
    }

    /// The ledger reached from `self` by recording `ballots` in order.
    pub open spec fn replay(self, ballots: Seq<Ballot>) -> VoteLog
        decreases ballots.len(),
    {
        if ballots.len() == 0 {
            self
        } else {
            self.replay(ballots.drop_last()).record(ballots.last().0, ballots.last().1)
        }
    }
}

/// The identities held by a stored log, as the model sees them.
pub open spec fn identities(log: Seq<String>) -> Seq<Seq<char>> {
    Seq::new(log.len(), |i: int| log[i]@)
}

/// How many of `ballots` were cast for `side`.
pub open spec fn votes_for(ballots: Seq<Ballot>, side: Side) -> nat {
    ballots.filter(|b: Ballot| b.0 == side).len()
}

/// Counting is exact: after any run of ballots, each total has grown by the
/// number of ballots cast for that side, whoever cast them and however often.
pub proof fn lemma_replay_totals(start: VoteLog, ballots: Seq<Ballot>)
    ensures
        start.replay(ballots).totals().0 == start.totals().0 + votes_for(ballots, Side::Ronaldo),
        start.replay(ballots).totals().1 == start.totals().1 + votes_for(ballots, Side::Messi),
    decreases ballots.len(),
{
    reveal(Seq::filter);
    if ballots.len() > 0 {
        lemma_replay_totals(start, ballots.drop_last());
    }
}

/// From an empty ledger the totals are the numbers of ballots cast for each
/// side.
pub proof fn lemma_totals_count_ballots(ballots: Seq<Ballot>)
    ensures
        VoteLog::empty().replay(ballots).totals() == (
            votes_for(ballots, Side::Ronaldo),
            votes_for(ballots, Side::Messi),
        ),
{
    lemma_replay_totals(VoteLog::empty(), ballots);
}

/// Before any vote nobody has voted.
pub proof fn lemma_nobody_voted_at_start(who: Seq<char>)
    ensures
        VoteLog::empty().has_voted(who) == (false, false),
{
}

/// A vote marks its caller on the side it was cast for and changes no other
/// answer: not the caller's on the other side, and nobody else's on either.
pub proof fn lemma_record_marks_voter(ledger: VoteLog, side: Side, who: Seq<char>, other: Seq<char>)
    ensures
        side == Side::Ronaldo ==> ledger.record(side, who).has_voted(who) == (
            true,
            ledger.has_voted(who).1,
        ),
        side == Side::Messi ==> ledger.record(side, who).has_voted(who) == (
            ledger.has_voted(who).0,
            true,
        ),
        other != who ==> ledger.record(side, who).has_voted(other) == ledger.has_voted(other),
{
    lemma_push_contains(ledger.ronaldo, who, who);
    lemma_push_contains(ledger.messi, who, who);
    lemma_push_contains(ledger.ronaldo, who, other);
    lemma_push_contains(ledger.messi, who, other);
}

/// A caller who had not voted has voted for Ronaldo alone after voting for
/// Ronaldo, and for both after then voting for Messi.
pub proof fn lemma_vote_then_cross_vote(ledger: VoteLog, who: Seq<char>)
    requires
        ledger.has_voted(who) == (false, false),
    ensures
        ledger.record(Side::Ronaldo, who).has_voted(who) == (true, false),
        ledger.record(Side::Ronaldo, who).record(Side::Messi, who).has_voted(who) == (true, true),
{
    lemma_record_marks_voter(ledger, Side::Ronaldo, who, who);
    lemma_record_marks_voter(ledger.record(Side::Ronaldo, who), Side::Messi, who, who);
}

/// Votes are not deduplicated, membership is: the same vote cast twice counts
/// twice, and the caller's answers after the second are those after the first.
pub proof fn lemma_repeated_vote(ledger: VoteLog, side: Side, who: Seq<char>)
    ensures
        side == Side::Ronaldo ==> ledger.record(side, who).record(side, who).totals() == (
            ledger.totals().0 + 2,
            ledger.totals().1,
        ),
        side == Side::Messi ==> ledger.record(side, who).record(side, who).totals() == (
            ledger.totals().0,
            ledger.totals().1 + 2,
        ),
        ledger.record(side, who).record(side, who).has_voted(who) == ledger.record(
            side,
            who,
        ).has_voted(who),
{
    lemma_record_marks_voter(ledger, side, who, who);
    lemma_record_marks_voter(ledger.record(side, who), side, who, who);
}

/// What a log contains after one more entry.
proof fn lemma_push_contains(log: Seq<Seq<char>>, pushed: Seq<char>, who: Seq<char>)
    ensures
        log.push(pushed).contains(who) <==> (log.contains(who) || pushed == who),
{
    let longer = log.push(pushed);
    if log.contains(who) {
        let i = choose|i: int| 0 <= i < log.len() && log[i] == who;
        assert(longer[i] == who);
    }
    if pushed == who {
        assert(longer[log.len() as int] == who);
    }
}

} // verus!
