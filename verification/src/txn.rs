//! The course of a transactional write.
//!
//! A transaction opens its row in the log, places an intent on every row that
//! takes part, reads the rows and looks at the conditions, commits, makes its
//! changes, and clears the intents. [`TxnDriver`] says at each point what to do
//! next; what is then done belongs to the caller, who tells the driver how it
//! went.

use vstd::prelude::*;
use vstd::string::*;

use crate::error::{
    cancellation_reason, reason_views, CancellationReason, ErrView, ReasonView, StorageError,
};
use crate::transact::{doubled, lemma_doubled};

verus! {

/// How many rounds of placing intents there are.
pub const MAX_TXN_ATTEMPTS: u32 = 3;

/// How long to wait before the second round, in milliseconds.
pub const TXN_DELAY_MS: u64 = 50;

/// Why a transaction does not go through.
#[derive(Clone, Copy, Debug, PartialEq, Eq, Structural)]
pub enum Why {
    /// Another transaction holds the row at this place.
    Conflict { at: usize },
    /// A condition does not hold.
    Conditions,
    /// Something failed.
    Failure,
}

/// How far a transaction is.
#[derive(Clone, Copy, Debug, PartialEq, Eq, Structural)]
pub enum TxnPhase {
    /// The row in the log is written.
    Opening,
    /// The intents before `next` are placed, and that one is tried.
    Placing { next: usize },
    /// After a conflict the `placed` intents are cleared, from `next` on.
    Releasing { placed: usize, next: usize },
    /// A while passes before the next round.
    Pausing,
    /// The `placed` intents are cleared for good, from `next` on. It is `clean`
    /// as long as that works.
    RollingBack { placed: usize, next: usize, clean: bool, why: Why },
    /// The row in the log is dropped, or marked as aborted where it is not
    /// clean.
    Closing { clean: bool, why: Why },
    /// All intents are placed; the rows are read and the conditions looked at.
    Evaluating,
    /// All intents are cleared, whether that works or not, from `next` on.
    Undoing { next: usize },
    /// The row in the log is dropped.
    Abandoning,
    /// The transaction is committed. As long as that has not worked, it is
    /// rolled back.
    Committing,
    /// The changes are made.
    Applying,
    /// The stream records are written.
    Emitting,
    /// The intents are cleared, from `next` on.
    Finishing { next: usize },
    /// The row in the log is marked as done.
    MarkingCleaned,
    /// The row in the log is dropped.
    Dropping,
    /// The request token is recorded.
    Recording,
    /// The transaction went through.
    Succeeded,
    /// The transaction did not go through.
    Failed { why: Why },
}

/// What to do next.
#[derive(Clone, Copy, Debug, PartialEq, Eq, Structural)]
pub enum TxnAction {
    Open,
    Place { at: usize },
    Clear { at: usize },
    /// Wait this long, and longer by chance.
    Sleep { base_ms: u64 },
    Drop,
    MarkAborted,
    Evaluate,
    Commit,
    Apply,
    Emit,
    MarkCleaned,
    RecordToken,
    /// Nothing: the transaction is over.
    Stop,
}

/// How it went.
#[derive(Clone, Copy, Debug, PartialEq, Eq, Structural)]
pub enum TxnSignal {
    /// As it should. Of `Evaluate`: all conditions hold, and the changes are
    /// prepared.
    Done,
    /// Another transaction holds the row.
    Refused,
    /// It failed.
    Failed,
    /// A condition does not hold.
    ConditionsFailed,
    /// A condition could not be evaluated.
    EvaluationFailed,
}

/// A transaction with `n` participants.
#[derive(Clone, Copy, Debug, PartialEq, Eq, Structural)]
pub struct TxnMachine {
    pub n: usize,
    pub phase: TxnPhase,
    pub attempts: u32,
    pub delay_ms: u64,
}

pub open spec fn at_phase(s: TxnMachine, phase: TxnPhase) -> TxnMachine {
    TxnMachine { phase, ..s }
}

/// What to do in a state.
pub open spec fn action_of(s: TxnMachine) -> TxnAction {
    match s.phase {
        TxnPhase::Opening => TxnAction::Open,
        TxnPhase::Placing { next } => TxnAction::Place { at: next },
        TxnPhase::Releasing { next, .. } => TxnAction::Clear { at: next },
        TxnPhase::Pausing => TxnAction::Sleep { base_ms: s.delay_ms },
        TxnPhase::RollingBack { next, .. } => TxnAction::Clear { at: next },
        TxnPhase::Closing { clean, .. } => if clean {
            TxnAction::Drop
        } else {
            TxnAction::MarkAborted
        },
        TxnPhase::Evaluating => TxnAction::Evaluate,
        TxnPhase::Undoing { next } => TxnAction::Clear { at: next },
        TxnPhase::Abandoning => TxnAction::Drop,
        TxnPhase::Committing => TxnAction::Commit,
        TxnPhase::Applying => TxnAction::Apply,
        TxnPhase::Emitting => TxnAction::Emit,
        TxnPhase::Finishing { next } => TxnAction::Clear { at: next },
        TxnPhase::MarkingCleaned => TxnAction::MarkCleaned,
        TxnPhase::Dropping => TxnAction::Drop,
        TxnPhase::Recording => TxnAction::RecordToken,
        TxnPhase::Succeeded => TxnAction::Stop,
        TxnPhase::Failed { .. } => TxnAction::Stop,
    }
}

/// Clearing `placed` intents for good.
pub open spec fn rolling_back(placed: usize, why: Why) -> TxnPhase {
    if placed == 0 {
        TxnPhase::Closing { clean: true, why }
    } else {
        TxnPhase::RollingBack { placed, next: 0, clean: true, why }
    }
}

/// After a round that ended in a conflict at the place `placed`.
pub open spec fn round_over(s: TxnMachine, placed: usize) -> TxnMachine {
    if s.attempts + 1 >= MAX_TXN_ATTEMPTS {
        TxnMachine {
            phase: rolling_back(placed, Why::Conflict { at: placed }),
            attempts: (s.attempts + 1) as u32,
            ..s
        }
    } else {
        TxnMachine { phase: TxnPhase::Pausing, attempts: (s.attempts + 1) as u32, ..s }
    }
}

/// The state after an action, by how it went.
pub open spec fn next_of(s: TxnMachine, sig: TxnSignal) -> TxnMachine {
    match s.phase {
        TxnPhase::Opening => if sig == TxnSignal::Failed {
            at_phase(s, TxnPhase::Failed { why: Why::Failure })
        } else {
            at_phase(s, placing(s.n, 0))
        },
        TxnPhase::Placing { next } => if sig == TxnSignal::Failed {
            at_phase(s, rolling_back(next, Why::Failure))
        } else if sig == TxnSignal::Refused {
            if next == 0 {
                round_over(s, 0)
            } else {
                at_phase(s, TxnPhase::Releasing { placed: next, next: 0 })
            }
        } else {
            at_phase(s, placing(s.n, (next + 1) as usize))
        },
        TxnPhase::Releasing { placed, next } => if next + 1 >= placed {
            round_over(s, placed)
        } else {
            at_phase(s, TxnPhase::Releasing { placed, next: (next + 1) as usize })
        },
        TxnPhase::Pausing => TxnMachine {
            phase: placing(s.n, 0),
            delay_ms: (2 * s.delay_ms) as u64,
            ..s
        },
        TxnPhase::RollingBack { placed, next, clean, why } => {
            let clean = clean && sig != TxnSignal::Failed;
            if next + 1 >= placed {
                at_phase(s, TxnPhase::Closing { clean, why })
            } else {
                at_phase(
                    s,
                    TxnPhase::RollingBack { placed, next: (next + 1) as usize, clean, why },
                )
            }
        },
        TxnPhase::Closing { why, .. } => at_phase(s, TxnPhase::Failed { why }),
        TxnPhase::Evaluating => match sig {
            TxnSignal::ConditionsFailed => at_phase(s, rolling_back(s.n, Why::Conditions)),
            TxnSignal::EvaluationFailed => if s.n == 0 {
                at_phase(s, TxnPhase::Abandoning)
            } else {
                at_phase(s, TxnPhase::Undoing { next: 0 })
            },
            TxnSignal::Failed => at_phase(s, TxnPhase::Failed { why: Why::Failure }),
            _ => at_phase(s, TxnPhase::Committing),
        },
        TxnPhase::Undoing { next } => if next + 1 >= s.n {
            at_phase(s, TxnPhase::Abandoning)
        } else {
            at_phase(s, TxnPhase::Undoing { next: (next + 1) as usize })
        },
        TxnPhase::Abandoning => at_phase(s, TxnPhase::Failed { why: Why::Failure }),
        TxnPhase::Committing => if sig == TxnSignal::Failed {
            at_phase(s, rolling_back(s.n, Why::Failure))
        } else {
            at_phase(s, TxnPhase::Applying)
        },
        TxnPhase::Applying => if sig == TxnSignal::Failed {
            at_phase(s, TxnPhase::Failed { why: Why::Failure })
        } else {
            at_phase(s, TxnPhase::Emitting)
        },
        TxnPhase::Emitting => if s.n == 0 {
            at_phase(s, TxnPhase::MarkingCleaned)
        } else {
            at_phase(s, TxnPhase::Finishing { next: 0 })
        },
        TxnPhase::Finishing { next } => if next + 1 >= s.n {
            at_phase(s, TxnPhase::MarkingCleaned)
        } else {
            at_phase(s, TxnPhase::Finishing { next: (next + 1) as usize })
        },
        TxnPhase::MarkingCleaned => at_phase(s, TxnPhase::Dropping),
        TxnPhase::Dropping => at_phase(s, TxnPhase::Recording),
        TxnPhase::Recording => at_phase(s, TxnPhase::Succeeded),
        TxnPhase::Succeeded => s,
        TxnPhase::Failed { .. } => s,
    }
}

/// Placing intents from `next` on, or all are placed.
pub open spec fn placing(n: usize, next: usize) -> TxnPhase {
    if next >= n {
        TxnPhase::Evaluating
    } else {
        TxnPhase::Placing { next }
    }
}

/// Places are within the participants, and each wait is twice as long as the
/// one before.
pub open spec fn machine_wf(s: TxnMachine) -> bool {
    &&& s.attempts <= MAX_TXN_ATTEMPTS
    &&& s.phase is Opening ==> s.attempts == 0
    &&& (s.phase is Placing || s.phase is Releasing) ==> s.attempts < MAX_TXN_ATTEMPTS
        && s.delay_ms == doubled(TXN_DELAY_MS as nat, s.attempts as nat)
    &&& s.phase is Opening ==> s.delay_ms == TXN_DELAY_MS
    &&& s.phase is Pausing ==> 0 < s.attempts < MAX_TXN_ATTEMPTS && s.delay_ms == doubled(
        TXN_DELAY_MS as nat,
        (s.attempts - 1) as nat,
    )
    &&& s.phase matches TxnPhase::Placing { next } ==> next < s.n
    &&& s.phase matches TxnPhase::Releasing { placed, next } ==> next < placed < s.n
    &&& s.phase matches TxnPhase::RollingBack { placed, next, .. } ==> next < placed <= s.n
    &&& s.phase matches TxnPhase::Undoing { next } ==> next < s.n
    &&& s.phase matches TxnPhase::Finishing { next } ==> next < s.n
}

proof fn lemma_next_wf(s: TxnMachine, sig: TxnSignal)
    requires
        machine_wf(s),
    ensures
        machine_wf(next_of(s, sig)),
        s.phase is Pausing ==> 2 * s.delay_ms <= u64::MAX,
{
    reveal_with_fuel(doubled, 5);
}

// ---------------------------------------------------------------------------
// The intents that are held
// ---------------------------------------------------------------------------

/// The places from `a` up to, and without, `b`.
pub open spec fn places(a: int, b: int) -> Set<int> {
    Set::new(|i: int| a <= i < b)
}

/// The intents that are held after an action, by how it went.
pub open spec fn held_next(s: TxnMachine, sig: TxnSignal, held: Set<int>) -> Set<int> {
    match action_of(s) {
        TxnAction::Place { at } => if sig == TxnSignal::Failed || sig == TxnSignal::Refused {
            held
        } else {
            held.insert(at as int)
        },
        TxnAction::Clear { at } => if sig == TxnSignal::Failed {
            held
        } else {
            held.remove(at as int)
        },
        _ => held,
    }
}

/// Which intents are held in which state.
pub open spec fn holds(s: TxnMachine, held: Set<int>) -> bool {
    match s.phase {
        TxnPhase::Opening => held =~= Set::empty(),
        TxnPhase::Placing { next } => held =~= places(0, next as int),
        TxnPhase::Releasing { placed, next } => held =~= places(next as int, placed as int),
        TxnPhase::Pausing => held =~= Set::empty(),
        TxnPhase::RollingBack { placed, next, clean, why } => clean ==> (if why is Conflict {
            held =~= Set::empty()
        } else {
            held =~= places(next as int, placed as int)
        }),
        TxnPhase::Closing { clean, .. } => clean ==> held =~= Set::empty(),
        TxnPhase::Evaluating => held =~= places(0, s.n as int),
        TxnPhase::Undoing { next } => held =~= places(next as int, s.n as int),
        TxnPhase::Abandoning => held =~= Set::empty(),
        TxnPhase::Committing | TxnPhase::Applying | TxnPhase::Emitting => held =~= places(
            0,
            s.n as int,
        ),
        TxnPhase::Finishing { next } => held =~= places(next as int, s.n as int),
        TxnPhase::MarkingCleaned | TxnPhase::Dropping | TxnPhase::Recording
        | TxnPhase::Succeeded => held =~= Set::empty(),
        TxnPhase::Failed { .. } => true,
    }
}

/// Whether a failure to clear an intent is passed over in a state.
pub open spec fn passes_over_failures(s: TxnMachine) -> bool {
    s.phase is Releasing || s.phase is Undoing || s.phase is Finishing
}

/// At every point the intents that are held are those that the state says, as
/// long as clearing works where a failure to clear is passed over.
pub proof fn intents_follow(s: TxnMachine, sig: TxnSignal, held: Set<int>)
    requires
        machine_wf(s),
        holds(s, held),
        passes_over_failures(s) ==> sig != TxnSignal::Failed,
    ensures
        holds(next_of(s, sig), held_next(s, sig, held)),
{
    let t = next_of(s, sig);
    let h = held_next(s, sig, held);
    match s.phase {
        TxnPhase::Opening => {
            assert(places(0, 0) =~= Set::<int>::empty());
            assert(s.n == 0 ==> places(0, s.n as int) =~= Set::<int>::empty());
        },
        TxnPhase::Placing { next } => {
            assert(places(0, next as int).insert(next as int) =~= places(0, next + 1));
            if next == 0 {
                assert(places(0, 0) =~= Set::<int>::empty());
            }
        },
        TxnPhase::Releasing { placed, next } => {
            assert(places(next as int, placed as int).remove(next as int) =~= places(
                next + 1,
                placed as int,
            ));
            if next + 1 >= placed {
                assert(places(next + 1, placed as int) =~= Set::<int>::empty());
            }
        },
        TxnPhase::Pausing => {
            assert(places(0, 0) =~= Set::<int>::empty());
        },
        TxnPhase::RollingBack { placed, next, clean, why } => {
            assert(places(next as int, placed as int).remove(next as int) =~= places(
                next + 1,
                placed as int,
            ));
            assert(Set::<int>::empty().remove(next as int) =~= Set::<int>::empty());
            if next + 1 >= placed {
                assert(places(next + 1, placed as int) =~= Set::<int>::empty());
            }
        },
        TxnPhase::Evaluating | TxnPhase::Committing => {
            if s.n == 0 {
                assert(places(0, 0) =~= Set::<int>::empty());
            }
        },
        TxnPhase::Undoing { next } => {
            assert(places(next as int, s.n as int).remove(next as int) =~= places(
                next + 1,
                s.n as int,
            ));
            if next + 1 >= s.n {
                assert(places(next + 1, s.n as int) =~= Set::<int>::empty());
            }
        },
        TxnPhase::Emitting => {
            if s.n == 0 {
                assert(places(0, 0) =~= Set::<int>::empty());
            }
        },
        TxnPhase::Finishing { next } => {
            assert(places(next as int, s.n as int).remove(next as int) =~= places(
                next + 1,
                s.n as int,
            ));
            if next + 1 >= s.n {
                assert(places(next + 1, s.n as int) =~= Set::<int>::empty());
            }
        },
        _ => {},
    }
}

/// A transaction is committed only while it holds every row that takes part.
pub proof fn commits_only_locked(s: TxnMachine, held: Set<int>)
    requires
        holds(s, held),
        action_of(s) == TxnAction::Commit,
    ensures
        forall|i: int| 0 <= i < s.n ==> #[trigger] held.contains(i),
{
    assert forall|i: int| 0 <= i < s.n implies #[trigger] held.contains(i) by {
        assert(places(0, s.n as int).contains(i));
    }
}

/// A transaction is dropped from the log only once it holds no row.
pub proof fn drops_only_free(s: TxnMachine, held: Set<int>)
    requires
        holds(s, held),
        action_of(s) == TxnAction::Drop,
    ensures
        held =~= Set::empty(),
{
}

/// Whether the commit point has been passed.
pub open spec fn is_committed(s: TxnMachine) -> bool {
    s.phase is Applying || s.phase is Emitting || s.phase is Finishing || s.phase is MarkingCleaned
        || s.phase is Dropping || s.phase is Recording || s.phase is Succeeded
}

/// A transaction that was committed is never rolled back: it goes on to succeed,
/// or it stops where its row in the log still says that it is committed. Only
/// the commit leads past the commit point.
pub proof fn committed_goes_forward(s: TxnMachine, sig: TxnSignal)
    ensures
        is_committed(s) ==> is_committed(next_of(s, sig)) || (next_of(s, sig).phase is Failed
            && s.phase is Applying),
        !is_committed(s) && is_committed(next_of(s, sig)) ==> action_of(s) == TxnAction::Commit
            && sig != TxnSignal::Failed,
{
}

/// How much is left to do at most.
pub open spec fn left(s: TxnMachine) -> int {
    let n = s.n as int;
    let round = 2 * n + 6;
    let rounds = (MAX_TXN_ATTEMPTS - s.attempts) * round;
    match s.phase {
        TxnPhase::Opening => rounds + 4 * n + 30,
        TxnPhase::Placing { next } => rounds + 2 * n + 19 + (n - next) + n,
        TxnPhase::Releasing { placed, next } => rounds + 2 * n + 18 + (placed - next),
        TxnPhase::Pausing => rounds + 4 * n + 20,
        TxnPhase::Evaluating => n + 18,
        TxnPhase::RollingBack { placed, next, .. } => 3 + (placed - next),
        TxnPhase::Closing { .. } => 2,
        TxnPhase::Undoing { next } => 3 + (n - next),
        TxnPhase::Abandoning => 2,
        TxnPhase::Committing => n + 9,
        TxnPhase::Applying => n + 8,
        TxnPhase::Emitting => n + 7,
        TxnPhase::Finishing { next } => 6 + (n - next),
        TxnPhase::MarkingCleaned => 5,
        TxnPhase::Dropping => 4,
        TxnPhase::Recording => 3,
        TxnPhase::Succeeded => 0,
        TxnPhase::Failed { .. } => 0,
    }
}

/// Every transaction comes to an end: each step leaves less to do.
pub proof fn transactions_end(s: TxnMachine, sig: TxnSignal)
    requires
        machine_wf(s),
        action_of(s) != TxnAction::Stop,
    ensures
        0 <= left(next_of(s, sig)) < left(s),
{
    let n = s.n as int;
    let round = 2 * n + 6;
    let k = MAX_TXN_ATTEMPTS - s.attempts;
    assert(0 <= k <= 3);
    assert((k - 1) * round == k * round - round) by (nonlinear_arith);
    assert(k * round >= 0) by (nonlinear_arith)
        requires
            0 <= k,
            round >= 0,
    ;
    if k >= 1 {
        assert((k - 1) * round >= 0) by (nonlinear_arith)
            requires
                1 <= k,
                round >= 0,
        ;
    }
}

/// Why a transaction will not go through, where that is settled.
pub open spec fn fate(s: TxnMachine) -> Option<Why> {
    match s.phase {
        TxnPhase::RollingBack { why, .. } => Some(why),
        TxnPhase::Closing { why, .. } => Some(why),
        TxnPhase::Failed { why } => Some(why),
        TxnPhase::Undoing { .. } | TxnPhase::Abandoning => Some(Why::Failure),
        _ => None,
    }
}

/// Once it is settled that a transaction does not go through, it does not, and for
/// that reason, whatever happens.
pub proof fn fates_are_kept(s: TxnMachine, sig: TxnSignal)
    ensures
        fate(s) is Some ==> fate(next_of(s, sig)) == fate(s) && !is_committed(next_of(s, sig)),
        s.phase is Succeeded || s.phase is Failed ==> next_of(s, sig) == s,
{
}

/// A transaction is given up for its conditions exactly where one does not hold;
/// for a conflict only after the last round, with the row that was refused; for a
/// failure only where something failed before the changes were made. Where nothing
/// goes wrong it goes on.
pub proof fn fates_are_earned(s: TxnMachine, sig: TxnSignal)
    requires
        machine_wf(s),
        fate(s) is None,
    ensures
        fate(next_of(s, sig)) == Some(Why::Conditions) <==> action_of(s) == TxnAction::Evaluate
            && sig == TxnSignal::ConditionsFailed,
        fate(next_of(s, sig)) == Some(Why::Failure) <==> {
            ||| action_of(s) == TxnAction::Evaluate && sig == TxnSignal::EvaluationFailed
            ||| sig == TxnSignal::Failed && (action_of(s) == TxnAction::Open || action_of(
                s,
            ) is Place || action_of(s) == TxnAction::Evaluate || action_of(s) == TxnAction::Commit
                || action_of(s) == TxnAction::Apply)
        },
        (fate(next_of(s, sig)) matches Some(Why::Conflict { at }) ==> {
            &&& s.attempts + 1 == MAX_TXN_ATTEMPTS
            &&& {
                ||| s.phase == (TxnPhase::Placing { next: at }) && sig == TxnSignal::Refused
                ||| s.phase matches TxnPhase::Releasing { placed, .. } && placed == at
            }
        }),
{
}

/// A transaction is committed only after its conditions were looked at and held,
/// and they are looked at only after an intent was placed on the last row.
pub proof fn commits_follow_conditions(s: TxnMachine, sig: TxnSignal)
    requires
        machine_wf(s),
        action_of(s) != TxnAction::Stop,
    ensures
        action_of(next_of(s, sig)) == TxnAction::Commit <==> action_of(s) == TxnAction::Evaluate
            && sig != TxnSignal::ConditionsFailed && sig != TxnSignal::EvaluationFailed && sig
            != TxnSignal::Failed,
        action_of(next_of(s, sig)) == TxnAction::Apply <==> action_of(s) == TxnAction::Commit && sig
            != TxnSignal::Failed,
        s.n > 0 && action_of(next_of(s, sig)) == TxnAction::Evaluate ==> action_of(s) == (
        TxnAction::Place { at: (s.n - 1) as usize }) && sig != TxnSignal::Failed && sig
            != TxnSignal::Refused,
{
}

/// A refused row ends the round: what was placed is released, row by row from the
/// first. Then there is a pause, each twice as long as the one before, and all is
/// tried again, from the first row on, for as long as there are rounds.
pub proof fn refusals_are_tried_again(s: TxnMachine, sig: TxnSignal)
    requires
        machine_wf(s),
    ensures
        (s.phase matches TxnPhase::Placing { next } ==> sig == TxnSignal::Refused && next > 0
            ==> next_of(s, sig).phase == (TxnPhase::Releasing { placed: next, next: 0 })),
        (s.phase matches TxnPhase::Releasing { placed, next } ==> next + 1 < placed ==> action_of(
            next_of(s, sig),
        ) == (TxnAction::Clear { at: (next + 1) as usize })),
        ({
            let ends = {
                ||| s.phase == (TxnPhase::Placing { next: 0 }) && sig == TxnSignal::Refused
                ||| s.phase matches TxnPhase::Releasing { placed, next } && next + 1 == placed
            };
            ends && s.attempts + 1 < MAX_TXN_ATTEMPTS ==> {
                let p = next_of(s, sig);
                &&& action_of(p) == (TxnAction::Sleep { base_ms: s.delay_ms })
                &&& p.attempts == s.attempts + 1
                &&& p.n == s.n
            }
        }),
        s.phase is Pausing && s.n > 0 ==> {
            let p = next_of(s, sig);
            &&& action_of(p) == (TxnAction::Place { at: 0 })
            &&& p.delay_ms == 2 * s.delay_ms
            &&& p.attempts == s.attempts
            &&& p.n == s.n
        },
{
    if s.phase is Pausing {
        lemma_doubled(TXN_DELAY_MS as nat, (s.attempts - 1) as nat);
    }
}

/// A rollback reaches every row that was placed, from the first to the last, and the
/// transaction is dropped from the log after it, but only marked as aborted exactly
/// where a row could not be cleared.
pub proof fn rollbacks_reach_every_row(s: TxnMachine, sig: TxnSignal)
    requires
        machine_wf(s),
    ensures
        (s.phase == TxnPhase::Evaluating && sig == TxnSignal::ConditionsFailed && s.n > 0
            ==> next_of(s, sig).phase == (TxnPhase::RollingBack {
            placed: s.n,
            next: 0,
            clean: true,
            why: Why::Conditions,
        })),
        (s.phase == TxnPhase::Committing && sig == TxnSignal::Failed && s.n > 0 ==> next_of(
            s,
            sig,
        ).phase == (TxnPhase::RollingBack {
            placed: s.n,
            next: 0,
            clean: true,
            why: Why::Failure,
        })),
        (s.phase matches TxnPhase::Placing { next } ==> sig == TxnSignal::Failed && next > 0
            ==> next_of(s, sig).phase == (TxnPhase::RollingBack {
            placed: next,
            next: 0,
            clean: true,
            why: Why::Failure,
        })),
        (s.phase matches TxnPhase::RollingBack { placed, next, clean, .. } ==> {
            let p = next_of(s, sig);
            &&& next + 1 < placed ==> action_of(p) == (TxnAction::Clear { at: (next + 1) as usize })
            &&& next + 1 == placed ==> action_of(p) == if clean && sig != TxnSignal::Failed {
                TxnAction::Drop
            } else {
                TxnAction::MarkAborted
            }
        }),
        (s.phase matches TxnPhase::Undoing { next } ==> action_of(next_of(s, sig)) == if next + 1
            < s.n {
            TxnAction::Clear { at: (next + 1) as usize }
        } else {
            TxnAction::Drop
        }),
{
}

/// After the changes are made nothing is left out: the stream records are written,
/// every row is cleared of its intent, the transaction is marked as done and dropped
/// from the log, and the request token is recorded.
pub proof fn committed_transactions_are_finished(s: TxnMachine, sig: TxnSignal)
    requires
        machine_wf(s),
        is_committed(s),
    ensures
        action_of(next_of(s, sig)) == match action_of(s) {
            TxnAction::Apply => if sig == TxnSignal::Failed {
                TxnAction::Stop
            } else {
                TxnAction::Emit
            },
            TxnAction::Emit => if s.n > 0 {
                TxnAction::Clear { at: 0 }
            } else {
                TxnAction::MarkCleaned
            },
            TxnAction::Clear { at } => if at + 1 < s.n {
                TxnAction::Clear { at: (at + 1) as usize }
            } else {
                TxnAction::MarkCleaned
            },
            TxnAction::MarkCleaned => TxnAction::Drop,
            TxnAction::Drop => TxnAction::RecordToken,
            _ => TxnAction::Stop,
        },
        action_of(s) == TxnAction::RecordToken ==> next_of(s, sig).phase == TxnPhase::Succeeded,
        next_of(s, sig).n == s.n,
{
}

// ---------------------------------------------------------------------------
// The driver
// ---------------------------------------------------------------------------

/// Whether the end of the transaction owes an error.
pub open spec fn owes_error(p: TxnPhase) -> bool {
    match p {
        TxnPhase::RollingBack { why, .. } => why is Failure,
        TxnPhase::Closing { why, .. } => why is Failure,
        TxnPhase::Undoing { .. } => true,
        TxnPhase::Abandoning => true,
        TxnPhase::Failed { why } => why is Failure,
        _ => false,
    }
}

/// Whether the end of the transaction owes the reasons of its conditions.
pub open spec fn owes_reasons(p: TxnPhase) -> bool {
    match p {
        TxnPhase::RollingBack { why, .. } => why is Conditions,
        TxnPhase::Closing { why, .. } => why is Conditions,
        TxnPhase::Failed { why } => why is Conditions,
        _ => false,
    }
}

/// A reason that is none.
pub open spec fn no_reason() -> ReasonView {
    ReasonView { code: "None"@, message: None, item: None }
}

/// The reason of a conflict.
pub open spec fn conflict_reason() -> ReasonView {
    ReasonView {
        code: "TransactionConflict"@,
        message: Some("concurrent transaction holds an intent on this row"@),
        item: None,
    }
}

/// The reasons of a transaction that met a conflict at one place.
pub open spec fn conflict_reasons(n: nat, at: int) -> Seq<ReasonView> {
    Seq::new(
        n,
        |i: int|
            if i == at {
                conflict_reason()
            } else {
                no_reason()
            },
    )
}

fn make_conflict_reasons(n: usize, at: usize) -> (r: Vec<CancellationReason>)
    ensures
        reason_views(r@) == conflict_reasons(n as nat, at as int),
{
    let mut out: Vec<CancellationReason> = Vec::new();
    let mut i: usize = 0;
    let ghost goal = conflict_reasons(n as nat, at as int);
    assert(reason_views(out@) =~= goal.take(0));
    while i < n
        invariant
            i <= n,
            goal == conflict_reasons(n as nat, at as int),
            reason_views(out@) == goal.take(i as int),
        decreases n - i,
    {
        let r = if i == at {
            cancellation_reason(
                "TransactionConflict",
                Some("concurrent transaction holds an intent on this row"),
                None,
            )
        } else {
            cancellation_reason("None", None, None)
        };
        let ghost added = r@;
        let ghost before = reason_views(out@);
        out.push(r);
        i = i + 1;
        assert(reason_views(out@) =~= before.push(added));
        assert(goal.take(i as int) =~= before.push(added));
    }
    assert(goal.take(i as int) =~= goal);
    out
}

/// Drives a transaction.
#[derive(Debug, PartialEq, Eq)]
pub struct TxnDriver {
    pub machine: TxnMachine,
    pub error: Option<StorageError>,
    pub reasons: Option<Vec<CancellationReason>>,
}

/// What a transaction comes to.
pub open spec fn outcome_of(d: TxnDriver) -> Result<(), ErrView> {
    match d.machine.phase {
        TxnPhase::Failed { why } => match why {
            Why::Conflict { at } => Err(
                ErrView::TransactionCanceled(conflict_reasons(d.machine.n as nat, at as int)),
            ),
            Why::Conditions => Err(ErrView::TransactionCanceled(reason_views(d.reasons->0@))),
            Why::Failure => Err(d.error->0@),
        },
        _ => Ok(()),
    }
}

/// A transaction that went through gives no error. One that was given up for a
/// conflict is said to be cancelled, with a reason for each operation: the conflict
/// for the one that was refused, and none for the others. One that was given up for
/// its conditions has the reasons that were found, and one that failed its error.
pub proof fn outcomes_say_what_happened(d: TxnDriver)
    ensures
        d.machine.phase is Succeeded ==> outcome_of(d) == Ok::<(), ErrView>(()),
        d.machine.phase is Failed ==> outcome_of(d) is Err,
        (d.machine.phase matches TxnPhase::Failed { why: Why::Conflict { at } } ==> (outcome_of(
            d,
        ) matches Err(ErrView::TransactionCanceled(l)) && l.len() == d.machine.n && forall|i: int|
            #![trigger l[i]]
            0 <= i < l.len() ==> l[i].code == (if i == at {
                "TransactionConflict"@
            } else {
                "None"@
            }) && l[i].item is None)),
        (d.machine.phase == (TxnPhase::Failed { why: Why::Conditions }) ==> (outcome_of(
            d,
        ) matches Err(ErrView::TransactionCanceled(l)) && l.len() == d.reasons->0@.len()
            && forall|i: int| #![trigger l[i]] 0 <= i < l.len() ==> l[i] == d.reasons->0@[i]@)),
        (d.machine.phase == (TxnPhase::Failed { why: Why::Failure }) ==> outcome_of(d) == Err::<
            (),
            ErrView,
        >(d.error->0@)),
{
}

impl TxnDriver {
    pub open spec fn wf(&self) -> bool {
        &&& machine_wf(self.machine)
        &&& owes_error(self.machine.phase) ==> self.error is Some
        &&& owes_reasons(self.machine.phase) ==> self.reasons is Some
    }

    /// A transaction with `n` participants.
    pub fn new(n: usize) -> (r: TxnDriver)
        ensures
            r.wf(),
            r.machine == (TxnMachine {
                n,
                phase: TxnPhase::Opening,
                attempts: 0,
                delay_ms: TXN_DELAY_MS,
            }),
            r.error is None,
            r.reasons is None,
            holds(r.machine, Set::empty()),
    {
        TxnDriver {
            machine: TxnMachine {
                n,
                phase: TxnPhase::Opening,
                attempts: 0,
                delay_ms: TXN_DELAY_MS,
            },
            error: None,
            reasons: None,
        }
    }

    /// What to do next.
    pub fn action(&self) -> (r: TxnAction)
        ensures
            r == action_of(self.machine),
    {
        match self.machine.phase {
            TxnPhase::Opening => TxnAction::Open,
            TxnPhase::Placing { next } => TxnAction::Place { at: next },
            TxnPhase::Releasing { next, .. } => TxnAction::Clear { at: next },
            TxnPhase::Pausing => TxnAction::Sleep { base_ms: self.machine.delay_ms },
            TxnPhase::RollingBack { next, .. } => TxnAction::Clear { at: next },
            TxnPhase::Closing { clean, .. } => if clean {
                TxnAction::Drop
            } else {
                TxnAction::MarkAborted
            },
            TxnPhase::Evaluating => TxnAction::Evaluate,
            TxnPhase::Undoing { next } => TxnAction::Clear { at: next },
            TxnPhase::Abandoning => TxnAction::Drop,
            TxnPhase::Committing => TxnAction::Commit,
            TxnPhase::Applying => TxnAction::Apply,
            TxnPhase::Emitting => TxnAction::Emit,
            TxnPhase::Finishing { next } => TxnAction::Clear { at: next },
            TxnPhase::MarkingCleaned => TxnAction::MarkCleaned,
            TxnPhase::Dropping => TxnAction::Drop,
            TxnPhase::Recording => TxnAction::RecordToken,
            TxnPhase::Succeeded => TxnAction::Stop,
            TxnPhase::Failed { .. } => TxnAction::Stop,
        }
    }

    fn rolling_back(placed: usize, why: Why) -> (r: TxnPhase)
        ensures
            r == rolling_back(placed, why),
    {
        if placed == 0 {
            TxnPhase::Closing { clean: true, why }
        } else {
            TxnPhase::RollingBack { placed, next: 0, clean: true, why }
        }
    }

    fn placing(n: usize, next: usize) -> (r: TxnPhase)
        ensures
            r == placing(n, next),
    {
        if next >= n {
            TxnPhase::Evaluating
        } else {
            TxnPhase::Placing { next }
        }
    }

    fn round_over(&mut self, placed: usize)
        requires
            old(self).machine.attempts < MAX_TXN_ATTEMPTS,
        ensures
            final(self).machine == round_over(old(self).machine, placed),
            final(self).error == old(self).error,
            final(self).reasons == old(self).reasons,
    {
        self.machine.attempts = self.machine.attempts + 1;
        if self.machine.attempts >= MAX_TXN_ATTEMPTS {
            self.machine.phase = TxnDriver::rolling_back(placed, Why::Conflict { at: placed });
        } else {
            self.machine.phase = TxnPhase::Pausing;
        }
    }

    /// Takes in how the action went. A failure comes with its error, and
    /// conditions that do not hold with their reasons.
    pub fn step(
        &mut self,
        signal: TxnSignal,
        error: Option<StorageError>,
        reasons: Option<Vec<CancellationReason>>,
    )
        requires
            old(self).wf(),
            signal == TxnSignal::Failed || signal == TxnSignal::EvaluationFailed ==> error is Some,
            signal == TxnSignal::ConditionsFailed ==> reasons is Some,
        ensures
            final(self).wf(),
            final(self).machine == next_of(old(self).machine, signal),
            final(self).error == if owes_error(next_of(old(self).machine, signal).phase)
                && !owes_error(old(self).machine.phase) {
                error
            } else {
                old(self).error
            },
            final(self).reasons == if owes_reasons(next_of(old(self).machine, signal).phase)
                && !owes_reasons(old(self).machine.phase) {
                reasons
            } else {
                old(self).reasons
            },
    {
        proof {
            lemma_next_wf(self.machine, signal);
        }
        let n = self.machine.n;
        let failed = signal == TxnSignal::Failed;
        match self.machine.phase {
            TxnPhase::Opening => {
                if failed {
                    self.machine.phase = TxnPhase::Failed { why: Why::Failure };
                    self.error = error;
                } else {
                    self.machine.phase = TxnDriver::placing(n, 0);
                }
            },
            TxnPhase::Placing { next } => {
                if failed {
                    self.machine.phase = TxnDriver::rolling_back(next, Why::Failure);
                    self.error = error;
                } else if signal == TxnSignal::Refused {
                    if next == 0 {
                        self.round_over(0);
                    } else {
                        self.machine.phase = TxnPhase::Releasing { placed: next, next: 0 };
                    }
                } else {
                    self.machine.phase = TxnDriver::placing(n, next + 1);
                }
            },
            TxnPhase::Releasing { placed, next } => {
                if next + 1 >= placed {
                    self.round_over(placed);
                } else {
                    self.machine.phase = TxnPhase::Releasing { placed, next: next + 1 };
                }
            },
            TxnPhase::Pausing => {
                self.machine.phase = TxnDriver::placing(n, 0);
                self.machine.delay_ms = 2 * self.machine.delay_ms;
            },
            TxnPhase::RollingBack { placed, next, clean, why } => {
                let clean = clean && !failed;
                if next + 1 >= placed {
                    self.machine.phase = TxnPhase::Closing { clean, why };
                } else {
                    self.machine.phase = TxnPhase::RollingBack {
                        placed,
                        next: next + 1,
                        clean,
                        why,
                    };
                }
            },
            TxnPhase::Closing { why, .. } => {
                self.machine.phase = TxnPhase::Failed { why };
            },
            TxnPhase::Evaluating => {
                match signal {
                    TxnSignal::ConditionsFailed => {
                        self.machine.phase = TxnDriver::rolling_back(n, Why::Conditions);
                        self.reasons = reasons;
                    },
                    TxnSignal::EvaluationFailed => {
                        self.machine.phase = if n == 0 {
                            TxnPhase::Abandoning
                        } else {
                            TxnPhase::Undoing { next: 0 }
                        };
                        self.error = error;
                    },
                    TxnSignal::Failed => {
                        self.machine.phase = TxnPhase::Failed { why: Why::Failure };
                        self.error = error;
                    },
                    _ => {
                        self.machine.phase = TxnPhase::Committing;
                    },
                }
            },
            TxnPhase::Undoing { next } => {
                self.machine.phase = if next + 1 >= n {
                    TxnPhase::Abandoning
                } else {
                    TxnPhase::Undoing { next: next + 1 }
                };
            },
            TxnPhase::Abandoning => {
                self.machine.phase = TxnPhase::Failed { why: Why::Failure };
            },
            TxnPhase::Committing => {
                if failed {
                    self.machine.phase = TxnDriver::rolling_back(n, Why::Failure);
                    self.error = error;
                } else {
                    self.machine.phase = TxnPhase::Applying;
                }
            },
            TxnPhase::Applying => {
                if failed {
                    self.machine.phase = TxnPhase::Failed { why: Why::Failure };
                    self.error = error;
                } else {
                    self.machine.phase = TxnPhase::Emitting;
                }
            },
            TxnPhase::Emitting => {
                self.machine.phase = if n == 0 {
                    TxnPhase::MarkingCleaned
                } else {
                    TxnPhase::Finishing { next: 0 }
                };
            },
            TxnPhase::Finishing { next } => {
                self.machine.phase = if next + 1 >= n {
                    TxnPhase::MarkingCleaned
                } else {
                    TxnPhase::Finishing { next: next + 1 }
                };
            },
            TxnPhase::MarkingCleaned => {
                self.machine.phase = TxnPhase::Dropping;
            },
            TxnPhase::Dropping => {
                self.machine.phase = TxnPhase::Recording;
            },
            TxnPhase::Recording => {
                self.machine.phase = TxnPhase::Succeeded;
            },
            TxnPhase::Succeeded => {},
            TxnPhase::Failed { .. } => {},
        }
    }

    /// What the transaction came to.
    pub fn finish(self) -> (r: Result<(), StorageError>)
        requires
            self.wf(),
            action_of(self.machine) == TxnAction::Stop,
        ensures
            match r {
                Ok(_) => outcome_of(self) == Ok::<(), ErrView>(()),
                Err(e) => outcome_of(self) == Err::<(), ErrView>(e@),
            },
    {
        match self.machine.phase {
            TxnPhase::Failed { why } => match why {
                Why::Conflict { at } => Err(
                    StorageError::TransactionCanceled(make_conflict_reasons(self.machine.n, at)),
                ),
                Why::Conditions => Err(
                    StorageError::TransactionCanceled(self.reasons.unwrap()),
                ),
                Why::Failure => Err(self.error.unwrap()),
            },
            _ => Ok(()),
        }
    }
}

} // verus!
