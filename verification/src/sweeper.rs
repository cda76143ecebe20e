//! Recovery of transactions: what becomes of the transactions in the log that
//! did not come to an end.

use vstd::prelude::*;
use vstd::string::*;
use vstd::utf8::encode_utf8;

use crate::bigtable::{
    in_range, table_path, BigtableClient, BoundView, EndKey, RangeView, ReadRowsRequest, Row,
    RowRange, RowView, StartKey,
};
use crate::bytes::{bytes_copy, lex_lt, lex_transitive};
use crate::query_scan::{range_read, read_range};
use crate::text::{
    decode_text, str_eq, strip_prefix, text_bytes, utf8_decoded, utf8_round_trip, without_prefix,
};
use crate::transact::{
    build_log_filter, log_filter, log_started, logged, part_views, read_log, read_started,
    PartView, ParticipantRow, TxnState, TxnView, STATE_ABORTED, STATE_CLEANED, STATE_COMMITTED,
    STATE_PENDING, TXN_LOG_TABLE,
};

verus! {

/// The lock that a node holds while it sweeps.
pub const SWEEPER_LOCK: &'static str = "sweeper";

/// How many rows are read at a time.
pub const SWEEP_PAGE: i64 = 100;

// ---------------------------------------------------------------------------
// Pages
// ---------------------------------------------------------------------------

/// Goes through a range page by page.
#[derive(Debug, PartialEq, Eq)]
pub struct Pager {
    pub start_key: Vec<u8>,
    pub exclude_start: bool,
}

impl Pager {
    /// Where the next page begins.
    pub open spec fn start(&self) -> BoundView {
        if self.exclude_start {
            BoundView::Open(self.start_key@)
        } else {
            BoundView::Closed(self.start_key@)
        }
    }

    /// Begins at a key.
    pub fn new(start_key: Vec<u8>) -> (r: Pager)
        ensures
            r.start() == BoundView::Closed(start_key@),
    {
        Pager { start_key, exclude_start: false }
    }

    /// Where the next page begins.
    pub fn bound(&self) -> (r: StartKey)
        ensures
            (RowRange { start_key: r, end_key: EndKey::Unbounded })@.start == self.start(),
    {
        let k = bytes_copy(self.start_key.as_slice());
        if self.exclude_start {
            StartKey::Open(k)
        } else {
            StartKey::Closed(k)
        }
    }

    /// Goes on behind the last row of a page. Behind an empty page there is
    /// nothing.
    pub fn advance(&mut self, rows: &[Row]) -> (more: bool)
        ensures
            more == (rows@.len() > 0),
            more ==> final(self).start() == BoundView::Open(rows@.last()@.key),
            !more ==> *final(self) == *old(self),
    {
        if rows.len() == 0 {
            return false;
        }
        self.start_key = bytes_copy(rows[rows.len() - 1].key.as_slice());
        self.exclude_start = true;
        true
    }
}

/// The next page of a range begins behind the last row that was read and misses
/// nothing behind it, as long as that row was in the range.
pub proof fn pages_follow(start: BoundView, end: BoundView, last: Seq<u8>, key: Seq<u8>)
    requires
        in_range(last, RangeView { start, end }),
    ensures
        in_range(key, RangeView { start: BoundView::Open(last), end }) <==> in_range(
            key,
            RangeView { start, end },
        ) && lex_lt(last, key),
{
    if lex_lt(last, key) {
        match start {
            BoundView::Closed(s) => {
                if s != last {
                    lex_transitive(s, last, key);
                }
            },
            BoundView::Open(s) => {
                lex_transitive(s, last, key);
            },
            BoundView::Unbounded => {},
        }
    }
}

/// The range of the transactions in the log from a start on.
pub open spec fn log_range(start: BoundView) -> RangeView {
    RangeView { start, end: BoundView::Closed(encode_utf8("txn:"@).push(0xFF)) }
}

/// Begins at the first transaction of the log.
pub fn sweep_start() -> (r: Pager)
    ensures
        r.start() == BoundView::Closed(encode_utf8("txn:"@)),
{
    Pager::new(text_bytes("txn:"))
}

/// The read of the next page of the log.
pub fn sweep_page(client: &BigtableClient, pager: &Pager) -> (r: ReadRowsRequest)
    ensures
        r@ == range_read(
            table_path(client.project_id@, client.instance_id@, TXN_LOG_TABLE@),
            log_range(pager.start()),
            SWEEP_PAGE as int,
            log_filter(),
            false,
        ),
{
    let mut end = text_bytes("txn:");
    end.push(0xFF);
    let table = client.full_table_name(TXN_LOG_TABLE);
    read_range(
        table.as_str(),
        pager.bound(),
        EndKey::Closed(end),
        SWEEP_PAGE,
        build_log_filter(),
        false,
    )
}

// ---------------------------------------------------------------------------
// Decisions
// ---------------------------------------------------------------------------

/// What becomes of a transaction.
#[derive(Debug, PartialEq, Eq)]
pub enum SweepAction {
    /// It is left alone.
    Skip,
    /// It is done: it is dropped from the log.
    Drop { txn_id: String },
    /// Its intents are cleared. Where that does not work it is marked as
    /// aborted, if it was pending.
    RollBack { txn_id: String, participants: Vec<ParticipantRow>, was_pending: bool },
    /// It was committed: its changes are made.
    RollForward { txn_id: String, state: TxnState },
}

/// What a [`SweepAction`] is.
pub enum SweepView {
    Skip,
    Drop { txn: Seq<char> },
    RollBack { txn: Seq<char>, participants: Seq<PartView>, was_pending: bool },
    RollForward { txn: Seq<char>, state: TxnView },
}

impl SweepAction {
    pub open spec fn view(&self) -> SweepView {
        match self {
            SweepAction::Skip => SweepView::Skip,
            SweepAction::Drop { txn_id } => SweepView::Drop { txn: txn_id@ },
            SweepAction::RollBack { txn_id, participants, was_pending } => SweepView::RollBack {
                txn: txn_id@,
                participants: part_views(participants@),
                was_pending: *was_pending,
            },
            SweepAction::RollForward { txn_id, state } => SweepView::RollForward {
                txn: txn_id@,
                state: state@,
            },
        }
    }
}

/// The transaction that a row of the log is for.
pub open spec fn row_txn(key: Seq<u8>) -> Option<Seq<char>> {
    match utf8_decoded(key) {
        Ok(s) => strip_prefix(s, "txn:"@),
        Err(_) => None,
    }
}

/// What becomes of the transaction in a row of the log, if those that began
/// before `cutoff` are stale.
pub open spec fn swept(row: RowView, cutoff: int) -> SweepView {
    match (row_txn(row.key), logged(row.cells), log_started(row.cells)) {
        (Some(txn), Some(t), Some(started)) => if t.state == STATE_CLEANED@ {
            SweepView::Drop { txn }
        } else if started >= cutoff {
            SweepView::Skip
        } else if t.state == STATE_PENDING@ || t.state == STATE_ABORTED@ {
            SweepView::RollBack {
                txn,
                participants: match t.participants {
                    Some(p) => p,
                    None => Seq::empty(),
                },
                was_pending: t.state == STATE_PENDING@,
            }
        } else if t.state == STATE_COMMITTED@ {
            SweepView::RollForward { txn, state: t }
        } else {
            SweepView::Skip
        },
        _ => SweepView::Skip,
    }
}

/// Decides what becomes of the transaction in a row of the log.
pub fn sweep_row(row: &Row, cutoff_micros: i64) -> (r: SweepAction)
    ensures
        r@ == swept(row@, cutoff_micros as int),
{
    let txn_id = match decode_text(row.key.as_slice()) {
        Ok(s) => match without_prefix(s.as_str(), "txn:") {
            Some(t) => t,
            None => return SweepAction::Skip,
        },
        Err(_) => return SweepAction::Skip,
    };
    let cells = row.cells.as_slice();
    let state = match read_log(cells) {
        Some(t) => t,
        None => return SweepAction::Skip,
    };
    let started = match read_started(cells) {
        Some(t) => t,
        None => return SweepAction::Skip,
    };
    if str_eq(state.state.as_str(), STATE_CLEANED) {
        return SweepAction::Drop { txn_id };
    }
    if started >= cutoff_micros {
        return SweepAction::Skip;
    }
    let was_pending = str_eq(state.state.as_str(), STATE_PENDING);
    if was_pending || str_eq(state.state.as_str(), STATE_ABORTED) {
        let participants: Vec<ParticipantRow> = match state.participants {
            Some(p) => p,
            None => {
                let none: Vec<ParticipantRow> = Vec::new();
                assert(part_views(none@) =~= Seq::<PartView>::empty());
                none
            },
        };
        return SweepAction::RollBack { txn_id, participants, was_pending };
    }
    if str_eq(state.state.as_str(), STATE_COMMITTED) {
        return SweepAction::RollForward { txn_id, state };
    }
    SweepAction::Skip
}

/// Decides what becomes of the transactions in a page of the log.
pub fn sweep_once(rows: &[Row], cutoff_micros: i64) -> (r: Vec<SweepAction>)
    ensures
        r@.len() == rows@.len(),
        forall|i: int|
            0 <= i < r@.len() ==> (#[trigger] r@[i])@ == swept(rows@[i]@, cutoff_micros as int),
{
    let mut out: Vec<SweepAction> = Vec::new();
    let mut i: usize = 0;
    while i < rows.len()
        invariant
            i <= rows.len(),
            out@.len() == i,
            forall|j: int|
                0 <= j < i ==> (#[trigger] out@[j])@ == swept(rows@[j]@, cutoff_micros as int),
        decreases rows.len() - i,
    {
        out.push(sweep_row(&rows[i], cutoff_micros));
        i = i + 1;
    }
    out
}

/// What ends a rollback.
#[derive(Clone, Copy, Debug, PartialEq, Eq, Structural)]
pub enum RollbackEnd {
    /// The transaction is dropped from the log.
    Drop,
    /// It is marked as aborted.
    MarkAborted,
    /// It stays as it is.
    Leave,
}

/// What ends a rollback.
pub open spec fn rollback_ends(all_cleared: bool, was_pending: bool) -> RollbackEnd {
    if all_cleared {
        RollbackEnd::Drop
    } else if was_pending {
        RollbackEnd::MarkAborted
    } else {
        RollbackEnd::Leave
    }
}

/// A transaction leaves the log only once none of its rows has an intent left; until
/// then the log says that it was aborted, and no longer that it is pending.
pub proof fn rollbacks_end_when_all_is_cleared(all_cleared: bool, was_pending: bool)
    ensures
        rollback_ends(all_cleared, was_pending) is Drop <==> all_cleared,
        rollback_ends(all_cleared, was_pending) is MarkAborted <==> !all_cleared && was_pending,
{
}

/// Decides what ends a rollback: it is over only once every intent is cleared.
pub fn rollback_end(all_cleared: bool, was_pending: bool) -> (r: RollbackEnd)
    ensures
        r == if all_cleared {
            RollbackEnd::Drop
        } else if was_pending {
            RollbackEnd::MarkAborted
        } else {
            RollbackEnd::Leave
        },
        r == rollback_ends(all_cleared, was_pending),
{
    if all_cleared {
        RollbackEnd::Drop
    } else if was_pending {
        RollbackEnd::MarkAborted
    } else {
        RollbackEnd::Leave
    }
}

/// A stale transaction that is pending or was aborted is rolled back, one that is
/// committed is rolled forward, and one that is over is dropped from the log. All
/// go by the name that the key of the row gives. A rollback reaches exactly the
/// rows that the log names, in its order: none keeps its intent. Going forward has
/// all changes and all stream records that the log holds.
pub proof fn recovery_is_whole(row: RowView, cutoff: int, txn: Seq<char>)
    requires
        row.key == encode_utf8("txn:"@ + txn),
        logged(row.cells) is Some,
        log_started(row.cells) is Some,
    ensures
        ({
            let t = logged(row.cells)->0;
            let stale = log_started(row.cells)->0 < cutoff;
            let a = swept(row, cutoff);
            &&& t.state == "CLEANED"@ ==> (a matches SweepView::Drop { txn: x } && x == txn)
            &&& t.state == "PENDING"@ && stale ==> (a matches SweepView::RollBack {
                txn: x,
                participants,
                was_pending,
            } && x == txn && was_pending && (t.participants matches Some(p) ==> participants == p)
                && (t.participants is None ==> participants.len() == 0))
            &&& t.state == "ABORTED"@ && stale ==> (a matches SweepView::RollBack {
                txn: x,
                participants,
                was_pending,
            } && x == txn && !was_pending && (t.participants matches Some(p) ==> participants == p)
                && (t.participants is None ==> participants.len() == 0))
            &&& t.state == "COMMITTED"@ && stale ==> (a matches SweepView::RollForward {
                txn: x,
                state,
            } && x == txn && state == t)
            &&& t.state != "CLEANED"@ && !stale ==> a is Skip
        }),
{
    let key = "txn:"@ + txn;
    utf8_round_trip(key);
    assert(key.subrange(0, "txn:"@.len() as int) =~= "txn:"@);
    assert(key.skip("txn:"@.len() as int) =~= txn);
    reveal_strlit("PENDING");
    reveal_strlit("COMMITTED");
    reveal_strlit("ABORTED");
    reveal_strlit("CLEANED");
    assert("PENDING"@[0] != "COMMITTED"@[0]);
    assert("ABORTED"@[0] != "COMMITTED"@[0]);
    assert("PENDING"@[0] != "ABORTED"@[0]);
    assert("CLEANED"@.len() != "COMMITTED"@.len());
    assert("CLEANED"@[0] != "PENDING"@[0]);
    assert("CLEANED"@[0] != "ABORTED"@[0]);
}

/// Recovery never undoes a committed transaction, never makes the changes of
/// one that is not committed, and touches none that is under way and not stale.
pub proof fn recovery_is_safe(row: RowView, cutoff: int)
    ensures
        swept(row, cutoff) is RollBack ==> logged(row.cells)->0.state != STATE_COMMITTED@
            && log_started(row.cells)->0 < cutoff,
        swept(row, cutoff) is RollForward ==> logged(row.cells)->0.state == STATE_COMMITTED@
            && log_started(row.cells)->0 < cutoff,
        swept(row, cutoff) is Drop ==> logged(row.cells)->0.state == STATE_CLEANED@,
{
    reveal_strlit("PENDING");
    reveal_strlit("COMMITTED");
    reveal_strlit("ABORTED");
    assert(STATE_PENDING@[0] != STATE_COMMITTED@[0]);
    assert(STATE_ABORTED@[0] != STATE_COMMITTED@[0]);
}

} // verus!
