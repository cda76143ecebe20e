//! What a transactional write decides and prepares: what its request token
//! says, whether its conditions hold, and what it changes.

use serde_json::Value;
use vstd::prelude::*;
use vstd::string::*;
use vstd::utf8::encode_utf8;

use crate::bigtable::{BigtableClient, MutateRowRequest, MutateView};
use crate::engine::{
    plain_put, requests_view, shadow_requests, ttl_maintenance, ttl_requests, BaseWrite,
    BigtableEngine, TableMeta,
};
use crate::error::{
    cancellation_reason, reason_views, CancellationReason, ErrView, ReasonView, StorageError,
};
use crate::hash::{sha256, sha256_digest};
use crate::item_ops::{
    apply_update_actions, check_condition, condition_result, delete_mutations, evaluation_view,
    opt_item_views, opt_ref_view, ItemOps,
};
use crate::json::{get_text, json_i64, json_string, json_view, text_field, JsonView};
use crate::row_key::{encode_key, row_key};
use crate::shadows::{
    change_request_views, change_requests, mutate_views, plan_shadow_changes, shadow_changes,
    ttl_change,
};
use crate::streams::{build_record, record_of, RecordView, StreamRecord};
use crate::table::{KeyInfoView, TableKeyInfo};
use crate::text::{cat2, hex_of, hex_text, opt_view, str_eq, text};
use crate::transact::{
    clear_request, log_request, part_mut_views, part_views, state_mutations, PartMutView, PartView,
    ParticipantMutation, ParticipantRow, PayloadView, TxnCoordinator, TxnOpPayload, TxnState,
    TxnView, STATE_CLEANED, STATE_COMMITTED, STATE_PENDING,
};
use crate::txn::no_reason;
use crate::value::{copy_item, opt_item_view, Item, ItemView};

verus! {

// ---------------------------------------------------------------------------
// Request tokens
// ---------------------------------------------------------------------------

/// The identifier of the transaction with a request token.
pub open spec fn token_txn_id(token: Seq<char>) -> Seq<char> {
    hex_of(sha256(encode_utf8(token)))
}

/// Derives the identifier of a transaction from its request token, so that the
/// same request finds the same transaction.
pub fn derive_txn_id(token: &str) -> (r: String)
    ensures
        r@ == token_txn_id(token@),
{
    hex_text(sha256_digest(token.as_bytes()).as_slice())
}

/// What the record of a request token says to a request with a fingerprint.
pub open spec fn token_check(prior: Option<JsonView>, fingerprint: Seq<char>) -> Result<
    (),
    ErrView,
> {
    match prior {
        None => Ok(()),
        Some(v) => {
            let known = match text_field(v, "fingerprint"@) {
                Some(f) => f,
                None => Seq::empty(),
            };
            if known == fingerprint {
                Err(ErrView::IdempotentReplay)
            } else {
                Err(ErrView::IdempotentMismatch)
            }
        },
    }
}

/// Looks at the record of a request token: the same request was made before, or
/// another one, or none.
pub fn check_token(prior: Option<&Value>, fingerprint: &str) -> (r: Result<(), StorageError>)
    ensures
        match r {
            Ok(_) => token_check(crate::engine::opt_json_ref(prior), fingerprint@) == Ok::<
                (),
                ErrView,
            >(()),
            Err(e) => token_check(crate::engine::opt_json_ref(prior), fingerprint@) == Err::<
                (),
                ErrView,
            >(e@),
        },
{
    let v = match prior {
        Some(v) => v,
        None => return Ok(()),
    };
    let known = match get_text(v, "fingerprint") {
        Some(f) => f,
        None => {
            let none = String::new();
            assert(none@ =~= Seq::<char>::empty());
            none
        },
    };
    if str_eq(known.as_str(), fingerprint) {
        Err(StorageError::IdempotentReplay)
    } else {
        Err(StorageError::IdempotentMismatch)
    }
}

/// What to do about a transaction with a request token that may be in the log.
#[derive(Debug, PartialEq, Eq, Clone, Copy, Structural)]
pub enum Resume {
    /// It is not there: begin.
    Begin,
    /// It is done: record the token.
    Record,
    /// It is committed: make its changes, and record the token.
    RollForward,
    /// It is under way: wait.
    Wait,
}

/// What the state of a transaction in the log asks for.
pub open spec fn resumed_txn(state: Option<Seq<char>>) -> Result<Resume, ErrView> {
    match state {
        None => Ok(Resume::Begin),
        Some(s) => if s == STATE_CLEANED@ {
            Ok(Resume::Record)
        } else if s == STATE_COMMITTED@ {
            Ok(Resume::RollForward)
        } else if s == STATE_PENDING@ {
            Ok(Resume::Wait)
        } else {
            Err(ErrView::TransactionConflict("transaction exists in state: "@ + s))
        },
    }
}

pub open spec fn opt_str_view(s: Option<&str>) -> Option<Seq<char>> {
    match s {
        Some(x) => Some(x@),
        None => None,
    }
}

/// Decides what the state of a transaction in the log asks for.
pub fn resume_txn(state: Option<&str>) -> (r: Result<Resume, StorageError>)
    ensures
        match r {
            Ok(x) => resumed_txn(opt_str_view(state)) == Ok::<Resume, ErrView>(x),
            Err(e) => resumed_txn(opt_str_view(state)) == Err::<Resume, ErrView>(e@),
        },
{
    let s = match state {
        None => return Ok(Resume::Begin),
        Some(s) => s,
    };
    if str_eq(s, STATE_CLEANED) {
        Ok(Resume::Record)
    } else if str_eq(s, STATE_COMMITTED) {
        Ok(Resume::RollForward)
    } else if str_eq(s, STATE_PENDING) {
        Ok(Resume::Wait)
    } else {
        Err(StorageError::TransactionConflict(cat2("transaction exists in state: ", s)))
    }
}

/// How often a transaction that is under way is looked at.
pub const MAX_PENDING_ATTEMPTS: u32 = 5;

/// How long to wait before it is looked at for the first time, in milliseconds.
pub const PENDING_DELAY_MS: u64 = 50;

/// Waits for a transaction with the same token.
#[derive(Debug, PartialEq, Eq, Clone, Copy)]
pub struct PendingWait {
    pub attempts: u32,
    pub delay_ms: u64,
}

/// What to do about it.
#[derive(Debug, PartialEq, Eq)]
pub enum PendingStep {
    /// It went through: record the token.
    Record,
    /// It is committed: make its changes, and record the token.
    RollForward,
    /// Wait, and look again.
    Sleep { ms: u64 },
    /// Give up.
    Fail(StorageError),
}

/// What a [`PendingStep`] is.
pub enum PendingView {
    Record,
    RollForward,
    Sleep { ms: int },
    Fail(ErrView),
}

impl PendingStep {
    pub open spec fn view(&self) -> PendingView {
        match self {
            PendingStep::Record => PendingView::Record,
            PendingStep::RollForward => PendingView::RollForward,
            PendingStep::Sleep { ms } => PendingView::Sleep { ms: *ms as int },
            PendingStep::Fail(e) => PendingView::Fail(e@),
        }
    }
}

pub open spec fn tripled(base: nat, n: nat) -> nat
    decreases n,
{
    if n == 0 {
        base
    } else {
        3 * tripled(base, (n - 1) as nat)
    }
}

/// What to do about a transaction that was under way and is now in the given
/// state, or gone from the log.
pub open spec fn pending_next(
    w: PendingWait,
    state: Option<Seq<char>>,
    token_recorded: bool,
    jitter: u64,
) -> PendingView {
    match state {
        Some(s) => if s == STATE_CLEANED@ {
            PendingView::Record
        } else if s == STATE_COMMITTED@ {
            PendingView::RollForward
        } else if s == STATE_PENDING@ {
            if w.attempts + 1 >= MAX_PENDING_ATTEMPTS {
                PendingView::Fail(
                    ErrView::TransactionConflict(
                        "concurrent transaction with same token is pending"@,
                    ),
                )
            } else {
                PendingView::Sleep { ms: 2 * w.delay_ms + jitter }
            }
        } else {
            PendingView::Fail(
                ErrView::TransactionConflict("transaction exists in state: "@ + s),
            )
        },
        None => if token_recorded {
            PendingView::Record
        } else {
            PendingView::Fail(
                ErrView::TransactionConflict("transaction was rolled back or disappeared"@),
            )
        },
    }
}

impl PendingWait {
    pub open spec fn wf(&self) -> bool {
        self.attempts < MAX_PENDING_ATTEMPTS && self.delay_ms <= tripled(
            PENDING_DELAY_MS as nat,
            self.attempts as nat,
        )
    }

    /// Begins with a wait of `delay_ms`.
    pub fn new() -> (r: PendingWait)
        ensures
            r.wf(),
            r.attempts == 0,
            r.delay_ms == PENDING_DELAY_MS,
    {
        PendingWait { attempts: 0, delay_ms: PENDING_DELAY_MS }
    }

    /// Takes in the state of the transaction after a wait, or that it is gone
    /// and whether its token was recorded. `jitter_ms` is what chance adds to
    /// the next wait.
    pub fn step(&mut self, state: Option<&str>, token_recorded: bool, jitter_ms: u64) -> (r:
        PendingStep)
        requires
            old(self).wf(),
            jitter_ms <= old(self).delay_ms,
        ensures
            r@ == pending_next(*old(self), opt_str_view(state), token_recorded, jitter_ms),
            r matches PendingStep::Sleep { ms } ==> final(self).wf() && final(self).attempts
                == old(self).attempts + 1 && final(self).delay_ms == ms,
            !(r is Sleep) ==> *final(self) == *old(self),
    {
        proof {
            reveal_with_fuel(tripled, 6);
        }
        let s = match state {
            Some(s) => s,
            None => {
                return if token_recorded {
                    PendingStep::Record
                } else {
                    PendingStep::Fail(
                        StorageError::TransactionConflict(
                            text("transaction was rolled back or disappeared"),
                        ),
                    )
                };
            },
        };
        if str_eq(s, STATE_CLEANED) {
            PendingStep::Record
        } else if str_eq(s, STATE_COMMITTED) {
            PendingStep::RollForward
        } else if str_eq(s, STATE_PENDING) {
            if self.attempts + 1 >= MAX_PENDING_ATTEMPTS {
                PendingStep::Fail(
                    StorageError::TransactionConflict(
                        text("concurrent transaction with same token is pending"),
                    ),
                )
            } else {
                let ms: u64 = 2 * self.delay_ms + jitter_ms;
                self.attempts = self.attempts + 1;
                self.delay_ms = ms;
                PendingStep::Sleep { ms }
            }
        } else {
            PendingStep::Fail(
                StorageError::TransactionConflict(cat2("transaction exists in state: ", s)),
            )
        }
    }
}

// ---------------------------------------------------------------------------
// Operations
// ---------------------------------------------------------------------------

/// An operation of a transaction.
pub enum TransactWriteOp<'a> {
    Put { key_info: &'a TableKeyInfo, item: &'a Item },
    Delete { key_info: &'a TableKeyInfo, key: &'a Item },
    Update { key_info: &'a TableKeyInfo, key: &'a Item },
    ConditionCheck { key_info: &'a TableKeyInfo, key: &'a Item },
}

/// What an operation of a transaction does.
#[derive(Debug, PartialEq, Eq)]
pub enum OwnedTxnKind {
    Put { item: Item },
    Delete { key: Item },
    Update { key: Item },
    ConditionCheck { key: Item },
}

/// What a kind of operation is.
pub enum KindView {
    Put { item: ItemView },
    Delete { key: ItemView },
    Update { key: ItemView },
    ConditionCheck { key: ItemView },
}

impl OwnedTxnKind {
    pub open spec fn view(&self) -> KindView {
        match self {
            OwnedTxnKind::Put { item } => KindView::Put { item: item@ },
            OwnedTxnKind::Delete { key } => KindView::Delete { key: key@ },
            OwnedTxnKind::Update { key } => KindView::Update { key: key@ },
            OwnedTxnKind::ConditionCheck { key } => KindView::ConditionCheck { key: key@ },
        }
    }
}

/// The item that holds the key of the row of an operation.
pub open spec fn kind_key(k: KindView) -> ItemView {
    match k {
        KindView::Put { item } => item,
        KindView::Delete { key } => key,
        KindView::Update { key } => key,
        KindView::ConditionCheck { key } => key,
    }
}

/// An operation of a transaction with what it needs.
#[derive(Debug, PartialEq, Eq)]
pub struct OwnedTxnOp {
    pub key_info: TableKeyInfo,
    pub kind: OwnedTxnKind,
}

/// What an operation is.
pub open spec fn op_view(op: TransactWriteOp) -> (KeyInfoView, KindView) {
    match op {
        TransactWriteOp::Put { key_info, item } => (key_info@, KindView::Put { item: item@ }),
        TransactWriteOp::Delete { key_info, key } => (key_info@, KindView::Delete { key: key@ }),
        TransactWriteOp::Update { key_info, key } => (key_info@, KindView::Update { key: key@ }),
        TransactWriteOp::ConditionCheck { key_info, key } => (
            key_info@,
            KindView::ConditionCheck { key: key@ },
        ),
    }
}

impl OwnedTxnOp {
    /// Copies an operation.
    pub fn from(op: &TransactWriteOp<'_>) -> (r: OwnedTxnOp)
        ensures
            (r.key_info@, r.kind@) == op_view(*op),
    {
        match op {
            TransactWriteOp::Put { key_info, item } => OwnedTxnOp {
                key_info: (*key_info).clone(),
                kind: OwnedTxnKind::Put { item: copy_item(item) },
            },
            TransactWriteOp::Delete { key_info, key } => OwnedTxnOp {
                key_info: (*key_info).clone(),
                kind: OwnedTxnKind::Delete { key: copy_item(key) },
            },
            TransactWriteOp::Update { key_info, key } => OwnedTxnOp {
                key_info: (*key_info).clone(),
                kind: OwnedTxnKind::Update { key: copy_item(key) },
            },
            TransactWriteOp::ConditionCheck { key_info, key } => OwnedTxnOp {
                key_info: (*key_info).clone(),
                kind: OwnedTxnKind::ConditionCheck { key: copy_item(key) },
            },
        }
    }

    /// The item that holds the key of the row.
    pub fn lookup_key(&self) -> (r: &Item)
        ensures
            r@ == kind_key(self.kind@),
    {
        match &self.kind {
            OwnedTxnKind::Put { item } => item,
            OwnedTxnKind::Delete { key } => key,
            OwnedTxnKind::Update { key } => key,
            OwnedTxnKind::ConditionCheck { key } => key,
        }
    }

    /// The row that takes part.
    pub fn participant(&self, data_table: &str) -> (r: Result<ParticipantRow, StorageError>)
        ensures
            match r {
                Ok(p) => row_key(kind_key(self.kind@), self.key_info@.schema) == Ok::<
                    Seq<u8>,
                    ErrView,
                >(p@.key) && p@.table == data_table@,
                Err(e) => row_key(kind_key(self.kind@), self.key_info@.schema) == Err::<
                    Seq<u8>,
                    ErrView,
                >(e@),
            },
    {
        match encode_key(self.lookup_key(), self.key_info.key_schema.as_slice()) {
            Ok(k) => Ok(ParticipantRow { data_table: text(data_table), row_key: k }),
            Err(e) => Err(e),
        }
    }
}

// ---------------------------------------------------------------------------
// Conditions
// ---------------------------------------------------------------------------

/// The reason of a condition that does not hold.
pub open spec fn failed_reason(prior: Option<ItemView>) -> ReasonView {
    ReasonView {
        code: "ConditionalCheckFailed"@,
        message: Some("The conditional request failed"@),
        item: prior,
    }
}

/// What the conditions of a transaction come to: a reason for each, and whether
/// one does not hold; or the first error.
pub open spec fn conditions_result(
    existing: Seq<Option<ItemView>>,
    evaluated: Seq<Option<Result<bool, String>>>,
) -> Result<(Seq<ReasonView>, bool), ErrView>
    decreases existing.len(),
{
    if existing.len() == 0 {
        Ok((Seq::empty(), false))
    } else {
        let n = existing.len() - 1;
        match conditions_result(existing.drop_last(), evaluated) {
            Err(e) => Err(e),
            Ok((l, failed)) => match condition_result(
                existing[n],
                evaluation_view(evaluated[n]),
            ) {
                Ok(_) => Ok((l.push(no_reason()), failed)),
                Err(ErrView::ConditionFailed(prior)) => Ok((l.push(failed_reason(prior)), true)),
                Err(e) => Err(e),
            },
        }
    }
}

/// What the conditions of a transaction ask for.
#[derive(Debug, PartialEq, Eq)]
pub enum TxnDecision {
    /// Go on.
    Proceed,
    /// Roll back: a condition does not hold.
    Cancel(Vec<CancellationReason>),
    /// Give up: a condition could not be evaluated.
    Abort(StorageError),
}

proof fn lemma_conditions_error(
    existing: Seq<Option<ItemView>>,
    evaluated: Seq<Option<Result<bool, String>>>,
    n: int,
)
    requires
        0 <= n <= existing.len(),
        conditions_result(existing.take(n), evaluated) is Err,
    ensures
        conditions_result(existing, evaluated) == conditions_result(existing.take(n), evaluated),
    decreases existing.len(),
{
    if n < existing.len() {
        assert(existing.drop_last().take(n) =~= existing.take(n));
        lemma_conditions_error(existing.drop_last(), evaluated, n);
    } else {
        assert(existing.take(n) =~= existing);
    }
}

fn copy_evaluated(e: &Option<Result<bool, String>>) -> (r: Option<Result<bool, String>>)
    ensures
        evaluation_view(r) == evaluation_view(*e),
{
    match e {
        None => None,
        Some(Ok(b)) => Some(Ok(*b)),
        Some(Err(m)) => Some(Err(text(m.as_str()))),
    }
}

/// Looks at the conditions of a transaction. `existing` are the items that are
/// there, and `evaluated` what the conditions gave on them.
pub fn evaluate_conditions(existing: &[Option<Item>], evaluated: &[Option<Result<bool, String>>]) -> (r:
    TxnDecision)
    requires
        existing@.len() == evaluated@.len(),
    ensures
        match conditions_result(opt_item_views(existing@), evaluated@) {
            Err(e) => r matches TxnDecision::Abort(x) && x@ == e,
            Ok((reasons, true)) => r matches TxnDecision::Cancel(l) && reason_views(l@) == reasons,
            Ok((_, false)) => r is Proceed,
        },
        r is Proceed <==> forall|i: int| 0 <= i < evaluated@.len() ==> held(#[trigger] evaluated@[i]),
        r is Abort <==> exists|i: int|
            0 <= i < evaluated@.len() && (#[trigger] evaluated@[i]) matches Some(Err(_)),
{
    let ghost all = opt_item_views(existing@);
    proof {
        one_failed_condition_cancels(all, evaluated@);
        if let Err(e) = conditions_result(all, evaluated@) {
            let i = choose|i: int|
                0 <= i < evaluated@.len() && (#[trigger] evaluated@[i]) matches Some(Err(_));
            assert(!held(evaluated@[i]));
        }
    }
    let mut reasons: Vec<CancellationReason> = Vec::new();
    let mut failed = false;
    let mut i: usize = 0;
    assert(reason_views(reasons@) =~= Seq::empty());
    while i < existing.len()
        invariant
            i <= existing.len(),
            existing@.len() == evaluated@.len(),
            all == opt_item_views(existing@),
            conditions_result(all.take(i as int), evaluated@) == Ok::<
                (Seq<ReasonView>, bool),
                ErrView,
            >((reason_views(reasons@), failed)),
        decreases existing.len() - i,
    {
        proof {
            assert(all.take(i + 1).drop_last() =~= all.take(i as int));
            assert(all.take(i + 1)[i as int] == opt_item_view(existing@[i as int]));
        }
        let prior = match &existing[i] {
            Some(x) => Some(x),
            None => None,
        };
        let ghost before = reason_views(reasons@);
        match check_condition(prior, copy_evaluated(&evaluated[i])) {
            Ok(_) => {
                reasons.push(cancellation_reason("None", None, None));
                assert(reason_views(reasons@) =~= before.push(no_reason()));
            },
            Err(e) => {
                match e {
                    StorageError::ConditionFailed(p) => {
                        failed = true;
                        let ghost pv = opt_item_view(p);
                        reasons.push(
                            cancellation_reason(
                                "ConditionalCheckFailed",
                                Some("The conditional request failed"),
                                p,
                            ),
                        );
                        assert(reason_views(reasons@) =~= before.push(failed_reason(pv)));
                    },
                    e => {
                        proof {
                            lemma_conditions_error(all, evaluated@, i + 1);
                        }
                        return TxnDecision::Abort(e);
                    },
                }
            },
        }
        i = i + 1;
    }
    assert(all.take(i as int) =~= all);
    if failed {
        TxnDecision::Cancel(reasons)
    } else {
        TxnDecision::Proceed
    }
}

/// Whether a condition held, or there was none.
pub open spec fn held(e: Option<Result<bool, String>>) -> bool {
    e is None || e == Some(Ok::<bool, String>(true))
}

/// A transaction is cancelled exactly where each condition could be evaluated and
/// one of them, wherever it stands, gave false. There is a reason for each
/// operation, in order: `ConditionalCheckFailed`, with the item that was there, for
/// those whose condition gave false, and `None` for all others. It is given up
/// exactly where a condition could not be evaluated, with what the first such one
/// said.
pub proof fn one_failed_condition_cancels(
    existing: Seq<Option<ItemView>>,
    evaluated: Seq<Option<Result<bool, String>>>,
)
    requires
        existing.len() == evaluated.len(),
    ensures
        match conditions_result(existing, evaluated) {
            Ok((reasons, failed)) => {
                &&& forall|i: int|
                    0 <= i < evaluated.len() ==> !((#[trigger] evaluated[i]) matches Some(Err(_)))
                &&& failed <==> exists|i: int|
                    0 <= i < evaluated.len() && (#[trigger] evaluated[i]) == Some(
                        Ok::<bool, String>(false),
                    )
                &&& !failed <==> forall|i: int|
                    0 <= i < evaluated.len() ==> held(#[trigger] evaluated[i])
                &&& reasons.len() == existing.len()
                &&& forall|i: int|
                    0 <= i < reasons.len() ==> (#[trigger] reasons[i]) == if held(evaluated[i]) {
                        (ReasonView { code: "None"@, message: None, item: None })
                    } else {
                        ReasonView {
                            code: "ConditionalCheckFailed"@,
                            message: Some("The conditional request failed"@),
                            item: existing[i],
                        }
                    }
            },
            Err(e) => exists|i: int|
                {
                    &&& 0 <= i < evaluated.len()
                    &&& (#[trigger] evaluated[i]) matches Some(Err(m)) && e == ErrView::Validation(
                        "condition evaluation: "@ + m@,
                    )
                    &&& forall|j: int|
                        0 <= j < i ==> !((#[trigger] evaluated[j]) matches Some(Err(_)))
                },
        },
{
    lemma_conditions(existing, evaluated, existing.len() as int);
    assert(existing.take(existing.len() as int) =~= existing);
    if let Ok((_, failed)) = conditions_result(existing, evaluated) {
        if failed {
            let i = choose|i: int|
                0 <= i < evaluated.len() && (#[trigger] evaluated[i]) == Some(
                    Ok::<bool, String>(false),
                );
            assert(!held(evaluated[i]));
        } else {
            assert forall|i: int| 0 <= i < evaluated.len() implies held(
                #[trigger] evaluated[i],
            ) by {
                assert(evaluated[i] != Some(Ok::<bool, String>(false)));
                match evaluated[i] {
                    None => {},
                    Some(Ok(b)) => {
                        assert(b);
                    },
                    Some(Err(_)) => {},
                }
            }
        }
    }
}

proof fn lemma_conditions(
    existing: Seq<Option<ItemView>>,
    evaluated: Seq<Option<Result<bool, String>>>,
    n: int,
)
    requires
        existing.len() == evaluated.len(),
        0 <= n <= existing.len(),
    ensures
        match conditions_result(existing.take(n), evaluated) {
            Ok((reasons, failed)) => {
                &&& forall|i: int|
                    0 <= i < n ==> !((#[trigger] evaluated[i]) matches Some(Err(_)))
                &&& failed <==> exists|i: int|
                    0 <= i < n && (#[trigger] evaluated[i]) == Some(Ok::<bool, String>(false))
                &&& reasons.len() == n
                &&& forall|i: int|
                    0 <= i < n ==> (#[trigger] reasons[i]) == if held(evaluated[i]) {
                        no_reason()
                    } else {
                        failed_reason(existing[i])
                    }
            },
            Err(e) => exists|i: int|
                {
                    &&& 0 <= i < n
                    &&& (#[trigger] evaluated[i]) matches Some(Err(m)) && e == ErrView::Validation(
                        "condition evaluation: "@ + m@,
                    )
                    &&& forall|j: int|
                        0 <= j < i ==> !((#[trigger] evaluated[j]) matches Some(Err(_)))
                },
        },
    decreases n,
{
    let l = existing.take(n);
    if n > 0 {
        lemma_conditions(existing, evaluated, n - 1);
        assert(l.drop_last() =~= existing.take(n - 1));
        let e = evaluated[n - 1];
        if conditions_result(l.drop_last(), evaluated) is Ok {
            match e {
                Some(Err(m)) => {
                    assert(evaluated[n - 1] matches Some(Err(_)));
                },
                Some(Ok(b)) => {
                    if !b {
                        assert(evaluated[n - 1] == Some(Ok::<bool, String>(false)));
                    }
                },
                None => {},
            }
        }
    }
}

// ---------------------------------------------------------------------------
// Changes
// ---------------------------------------------------------------------------

/// An operation together with its table and its row.
#[derive(Debug, PartialEq, Eq)]
pub struct ResolvedOp {
    pub op: OwnedTxnOp,
    pub meta: TableMeta,
    pub participant: ParticipantRow,
}

/// What an operation does to its row: nothing, or it leaves an item or none.
/// `updated` is what an update made of the item that was there.
pub open spec fn op_result(kind: KindView, updated: Option<Result<Item, String>>) -> Result<
    Option<Option<ItemView>>,
    ErrView,
> {
    match kind {
        KindView::Put { item } => Ok(Some(Some(item))),
        KindView::Delete { .. } => Ok(Some(None)),
        KindView::ConditionCheck { .. } => Ok(None),
        KindView::Update { .. } => match updated->0 {
            Ok(i) => Ok(Some(Some(i@))),
            Err(m) => Err(ErrView::Validation("update expression evaluation: "@ + m@)),
        },
    }
}

/// The changes of one operation: of its row, and of the shadow tables.
pub open spec fn op_changes(
    r: ResolvedOp,
    existing: Option<ItemView>,
    updated: Option<Result<Item, String>>,
) -> Result<Seq<PartMutView>, ErrView> {
    match op_result(r.op.kind@, updated) {
        Err(e) => Err(e),
        Ok(None) => Ok(Seq::empty()),
        Ok(Some(new)) => match shadow_changes(
            new,
            existing,
            r.meta.description.gsis(),
            r.op.key_info@.schema,
            r.meta.data_table@,
        ) {
            Err(e) => Err(e),
            Ok(c) => Ok(
                seq![
                    PartMutView {
                        participant: r.participant@,
                        payload: match new {
                            Some(item) => PayloadView::Put { item },
                            None => PayloadView::Delete,
                        },
                    },
                ] + c,
            ),
        },
    }
}

/// The changes of a transaction, in the order of its operations.
pub open spec fn txn_changes(
    ops: Seq<ResolvedOp>,
    existing: Seq<Option<ItemView>>,
    updated: Seq<Option<Result<Item, String>>>,
) -> Result<Seq<PartMutView>, ErrView>
    decreases ops.len(),
{
    if ops.len() == 0 {
        Ok(Seq::empty())
    } else {
        let n = ops.len() - 1;
        match txn_changes(ops.drop_last(), existing, updated) {
            Err(e) => Err(e),
            Ok(l) => match op_changes(ops[n], existing[n], updated[n]) {
                Err(e) => Err(e),
                Ok(c) => Ok(l + c),
            },
        }
    }
}

/// What an update made of an item is there for every update.
pub open spec fn updates_given(
    ops: Seq<ResolvedOp>,
    updated: Seq<Option<Result<Item, String>>>,
) -> bool {
    forall|i: int|
        0 <= i < ops.len() && (#[trigger] ops[i]).op.kind is Update ==> updated[i] is Some
}

fn new_item(kind: &OwnedTxnKind, updated: &Option<Result<Item, String>>) -> (r: Result<
    Option<Option<Item>>,
    StorageError,
>)
    requires
        kind is Update ==> *updated is Some,
    ensures
        match r {
            Ok(None) => op_result(kind@, *updated) == Ok::<Option<Option<ItemView>>, ErrView>(
                None,
            ),
            Ok(Some(i)) => op_result(kind@, *updated) == Ok::<Option<Option<ItemView>>, ErrView>(
                Some(opt_item_view(i)),
            ),
            Err(e) => op_result(kind@, *updated) == Err::<Option<Option<ItemView>>, ErrView>(e@),
        },
{
    match kind {
        OwnedTxnKind::Put { item } => Ok(Some(Some(copy_item(item)))),
        OwnedTxnKind::Delete { .. } => Ok(Some(None)),
        OwnedTxnKind::ConditionCheck { .. } => Ok(None),
        OwnedTxnKind::Update { .. } => match updated {
            Some(u) => {
                let copy: Result<Item, String> = match u {
                    Ok(i) => Ok(copy_item(i)),
                    Err(m) => Err(text(m.as_str())),
                };
                match apply_update_actions(copy) {
                    Ok(i) => Ok(Some(Some(i))),
                    Err(e) => Err(e),
                }
            },
            None => Ok(None),
        },
    }
}

/// The record that an operation leaves in the stream of its table, and the name
/// of the stream.
pub open spec fn op_stream_record(
    r: ResolvedOp,
    existing: Option<ItemView>,
    updated: Option<Result<Item, String>>,
    seq: Seq<char>,
    event_id: Seq<char>,
    created: int,
) -> Option<(Seq<char>, RecordView)> {
    let d = r.meta.description;
    match (d.latest_stream_arn, d.stream_specification, op_result(r.op.kind@, updated)) {
        (Some(arn), Some(given), Ok(Some(new))) => match record_of(
            given,
            r.op.key_info@.schema,
            existing,
            new,
            seq,
            event_id,
            created,
        ) {
            Some(x) => Some((arn@, x)),
            None => None,
        },
        _ => None,
    }
}

/// Makes the record that an operation leaves in the stream of its table.
pub fn op_record(
    r: &ResolvedOp,
    existing: Option<&Item>,
    updated: &Option<Result<Item, String>>,
    seq: &str,
    event_id: &str,
    creation_ts: i64,
) -> (out: Option<(String, StreamRecord)>)
    requires
        r.op.kind is Update ==> *updated is Some,
    ensures
        op_stream_record(
            *r,
            opt_ref_view(existing),
            *updated,
            seq@,
            event_id@,
            creation_ts as int,
        ) == match out {
            Some((arn, x)) => Some((arn@, x@)),
            None => None,
        },
{
    let d = &r.meta.description;
    let arn = match &d.latest_stream_arn {
        Some(a) => a,
        None => return None,
    };
    let given = match &d.stream_specification {
        Some(s) => s,
        None => return None,
    };
    let new = match new_item(&r.op.kind, updated) {
        Ok(Some(n)) => n,
        _ => return None,
    };
    let new_ref = match &new {
        Some(i) => Some(i),
        None => None,
    };
    match build_record(
        given,
        r.op.key_info.key_schema.as_slice(),
        existing,
        new_ref,
        seq,
        event_id,
        creation_ts,
    ) {
        Some(x) => Some((text(arn.as_str()), x)),
        None => None,
    }
}

fn plan_op_changes(
    r: &ResolvedOp,
    existing: Option<&Item>,
    updated: &Option<Result<Item, String>>,
) -> (out: Result<Vec<ParticipantMutation>, StorageError>)
    requires
        r.op.kind is Update ==> *updated is Some,
    ensures
        match out {
            Ok(c) => op_changes(*r, opt_ref_view(existing), *updated) == Ok::<
                Seq<PartMutView>,
                ErrView,
            >(part_mut_views(c@)),
            Err(e) => op_changes(*r, opt_ref_view(existing), *updated) == Err::<
                Seq<PartMutView>,
                ErrView,
            >(e@),
        },
{
    let mut out: Vec<ParticipantMutation> = Vec::new();
    let new = match new_item(&r.op.kind, updated) {
        Ok(Some(n)) => n,
        Ok(None) => {
            assert(part_mut_views(out@) =~= Seq::<PartMutView>::empty());
            return Ok(out);
        },
        Err(e) => return Err(e),
    };
    let new_ref = match &new {
        Some(i) => Some(i),
        None => None,
    };
    let mut shadows = match plan_shadow_changes(
        new_ref,
        existing,
        r.meta.gsis(),
        r.op.key_info.key_schema.as_slice(),
        r.meta.data_table.as_str(),
    ) {
        Ok(c) => c,
        Err(e) => return Err(e),
    };
    let ghost new_view = opt_item_view(new);
    let payload = match new {
        Some(item) => TxnOpPayload::Put { item },
        None => TxnOpPayload::Delete,
    };
    let own = ParticipantMutation { participant: r.participant.clone(), payload };
    let ghost first = own@;
    out.push(own);
    assert(part_mut_views(out@) =~= seq![first]);
    let ghost rest = part_mut_views(shadows@);
    out.append(&mut shadows);
    assert(part_mut_views(out@) =~= seq![first] + rest);
    Ok(out)
}

proof fn lemma_txn_changes_error(
    ops: Seq<ResolvedOp>,
    existing: Seq<Option<ItemView>>,
    updated: Seq<Option<Result<Item, String>>>,
    n: int,
)
    requires
        0 <= n <= ops.len(),
        txn_changes(ops.take(n), existing, updated) is Err,
    ensures
        txn_changes(ops, existing, updated) == txn_changes(ops.take(n), existing, updated),
    decreases ops.len(),
{
    if n < ops.len() {
        assert(ops.drop_last().take(n) =~= ops.take(n));
        lemma_txn_changes_error(ops.drop_last(), existing, updated, n);
    } else {
        assert(ops.take(n) =~= ops);
    }
}

/// Prepares the changes of a transaction for its commit: of every row, and of
/// every shadow row that follows from it.
pub fn prepare_changes(
    ops: &[ResolvedOp],
    existing: &[Option<Item>],
    updated: &[Option<Result<Item, String>>],
) -> (r: Result<Vec<ParticipantMutation>, StorageError>)
    requires
        existing@.len() == ops@.len(),
        updated@.len() == ops@.len(),
        updates_given(ops@, updated@),
    ensures
        match r {
            Ok(c) => txn_changes(ops@, opt_item_views(existing@), updated@) == Ok::<
                Seq<PartMutView>,
                ErrView,
            >(part_mut_views(c@)),
            Err(e) => txn_changes(ops@, opt_item_views(existing@), updated@) == Err::<
                Seq<PartMutView>,
                ErrView,
            >(e@),
        },
{
    let ghost ev = opt_item_views(existing@);
    let mut out: Vec<ParticipantMutation> = Vec::new();
    let mut i: usize = 0;
    assert(part_mut_views(out@) =~= Seq::empty());
    while i < ops.len()
        invariant
            i <= ops.len(),
            existing@.len() == ops@.len(),
            updated@.len() == ops@.len(),
            updates_given(ops@, updated@),
            ev == opt_item_views(existing@),
            txn_changes(ops@.take(i as int), ev, updated@) == Ok::<Seq<PartMutView>, ErrView>(
                part_mut_views(out@),
            ),
        decreases ops.len() - i,
    {
        proof {
            assert(ops@.take(i + 1).drop_last() =~= ops@.take(i as int));
            assert(ops@.take(i + 1)[i as int] == ops@[i as int]);
        }
        let prior = match &existing[i] {
            Some(x) => Some(x),
            None => None,
        };
        let mut c = match plan_op_changes(&ops[i], prior, &updated[i]) {
            Ok(c) => c,
            Err(e) => {
                proof {
                    lemma_txn_changes_error(ops@, ev, updated@, i + 1);
                }
                return Err(e);
            },
        };
        let ghost before = part_mut_views(out@);
        let ghost added = part_mut_views(c@);
        out.append(&mut c);
        assert(part_mut_views(out@) =~= before + added);
        i = i + 1;
    }
    assert(ops@.take(i as int) =~= ops@);
    Ok(out)
}

// ---------------------------------------------------------------------------
// Making the changes
// ---------------------------------------------------------------------------

/// What makes the changes of one operation after the commit.
#[derive(Debug, PartialEq, Eq)]
pub struct ApplyPlan {
    pub base: Option<MutateRowRequest>,
    pub shadows: Result<Vec<MutateRowRequest>, StorageError>,
    pub ttl: Result<Vec<MutateRowRequest>, StorageError>,
}

/// The deletion of a row in any case.
pub open spec fn plain_delete(engine: BigtableEngine, table: Seq<char>, key: Seq<u8>) -> MutateView {
    MutateView {
        table: engine.path(table),
        profile: engine.client.profile(),
        key,
        mutations: delete_mutations(),
    }
}

/// Whether the plan makes the changes of an operation that leaves `new`.
pub open spec fn plans_change(
    plan: ApplyPlan,
    engine: BigtableEngine,
    r: ResolvedOp,
    new: Option<ItemView>,
    existing: Option<ItemView>,
    now: int,
) -> bool {
    let info = r.op.key_info@;
    &&& plan.base matches Some(q) && match new {
        Some(i) => row_key(i, info.schema) matches Ok(k) && q@ == plain_put(
            engine,
            r.meta.data_table@,
            k,
            i,
            now,
        ),
        None => row_key(kind_key(r.op.kind@), info.schema) matches Ok(k) && q@ == plain_delete(
            engine,
            r.meta.data_table@,
            k,
        ),
    }
    &&& requests_view(plan.shadows) == shadow_requests(
        engine.client,
        shadow_changes(
            new,
            existing,
            r.meta.description.gsis(),
            info.schema,
            r.meta.data_table@,
        ),
    )
    &&& requests_view(plan.ttl) == ttl_requests(
        engine.client,
        ttl_change(
            new,
            existing,
            opt_view(r.meta.ttl_attr),
            info.schema,
            info.account_id,
            info.table_name,
        ),
    )
}

/// Why an operation cannot be applied: its update failed, or its item has no
/// row key.
pub open spec fn apply_error(r: ResolvedOp, updated: Option<Result<Item, String>>) -> Option<
    ErrView,
> {
    match op_result(r.op.kind@, updated) {
        Err(e) => Some(e),
        Ok(None) => None,
        Ok(Some(new)) => {
            let keyed = match new {
                Some(i) => i,
                None => kind_key(r.op.kind@),
            };
            match row_key(keyed, r.op.key_info@.schema) {
                Ok(_) => None,
                Err(e) => Some(e),
            }
        },
    }
}

impl BigtableEngine {
    /// Plans the changes of one operation after the commit. They go through
    /// whatever intents the rows carry.
    pub fn apply_op(
        &self,
        r: &ResolvedOp,
        existing: Option<&Item>,
        updated: &Option<Result<Item, String>>,
        now_micros: i64,
    ) -> (out: Result<ApplyPlan, StorageError>)
        requires
            now_micros >= 0,
            r.op.kind is Update ==> *updated is Some,
        ensures
            match out {
                Ok(p) => apply_error(*r, *updated) is None && match op_result(
                    r.op.kind@,
                    *updated,
                )->Ok_0 {
                    Some(new) => plans_change(
                        p,
                        *self,
                        *r,
                        new,
                        opt_ref_view(existing),
                        now_micros as int,
                    ),
                    None => p.base is None && requests_view(p.shadows) == Ok::<
                        Seq<MutateView>,
                        ErrView,
                    >(Seq::empty()) && requests_view(p.ttl) == Ok::<Seq<MutateView>, ErrView>(
                        Seq::empty(),
                    ),
                },
                Err(e) => apply_error(*r, *updated) == Some(e@),
            },
    {
        let new = match new_item(&r.op.kind, updated) {
            Ok(Some(n)) => n,
            Ok(None) => {
                let a: Vec<MutateRowRequest> = Vec::new();
                let b: Vec<MutateRowRequest> = Vec::new();
                assert(mutate_views(a@) =~= Seq::<MutateView>::empty());
                assert(mutate_views(b@) =~= Seq::<MutateView>::empty());
                return Ok(ApplyPlan { base: None, shadows: Ok(a), ttl: Ok(b) });
            },
            Err(e) => return Err(e),
        };
        let schema = r.op.key_info.key_schema.as_slice();
        let table = r.meta.data_table.as_str();
        match new {
            Some(item) => {
                let w = match self.write_with_shadows(
                    schema,
                    table,
                    r.meta.gsis(),
                    &item,
                    existing,
                    false,
                    now_micros,
                ) {
                    Ok(w) => w,
                    Err(e) => return Err(e),
                };
                let ttl = ttl_maintenance(
                    &self.client,
                    &r.op.key_info,
                    &r.meta.ttl_attr,
                    Some(&item),
                    existing,
                );
                let base = match w.base {
                    BaseWrite::Plain(q) => Some(q),
                    BaseWrite::Guarded(_) => None,
                };
                Ok(ApplyPlan { base, shadows: w.shadows, ttl })
            },
            None => {
                let ops = ItemOps::new(&self.client, table, self.intent_timeout_secs);
                let q = match ops.delete_unconditional(schema, r.op.lookup_key()) {
                    Ok(q) => q,
                    Err(e) => return Err(e),
                };
                let shadows = match plan_shadow_changes(
                    None,
                    existing,
                    r.meta.gsis(),
                    schema,
                    table,
                ) {
                    Ok(c) => change_requests(&self.client, c.as_slice()),
                    Err(e) => Err(e),
                };
                let ttl = ttl_maintenance(
                    &self.client,
                    &r.op.key_info,
                    &r.meta.ttl_attr,
                    None,
                    existing,
                );
                Ok(ApplyPlan { base: Some(q), shadows, ttl })
            },
        }
    }
}

/// What rolls a committed transaction forward: its changes, then its stream
/// records, as they are in the log, then the intents, and at last its row in the
/// log.
#[derive(Debug, PartialEq, Eq)]
pub struct RollForward {
    pub changes: Vec<MutateRowRequest>,
    pub stream_records: Option<Vec<u8>>,
    pub clears: Vec<MutateRowRequest>,
    pub cleaned: MutateRowRequest,
    pub dropped: MutateRowRequest,
}

pub open spec fn clear_views(client: BigtableClient, txn: Seq<char>, parts: Seq<PartView>) -> Seq<
    MutateView,
> {
    parts.map_values(|p: PartView| clear_request(client, txn, p))
}

/// Whether the plan takes the transaction of a row of the log to its end.
pub open spec fn goes_forward(
    f: RollForward,
    client: BigtableClient,
    txn: Seq<char>,
    state: TxnView,
) -> bool {
    &&& mutate_views(f.changes@) == change_request_views(
        client,
        match state.mutations {
            Some(m) => m,
            None => Seq::empty(),
        },
    )
    &&& crate::gsi::opt_bytes(f.stream_records) == state.stream_records
    &&& mutate_views(f.clears@) == clear_views(
        client,
        txn,
        match state.participants {
            Some(p) => p,
            None => Seq::empty(),
        },
    )
    &&& f.cleaned@ == log_request(client, txn, state_mutations(STATE_CLEANED@))
    &&& f.dropped@ == log_request(client, txn, crate::bigtable::row_deletion())
}

/// Plans the clearing of the intents of a transaction.
pub fn clear_intents(coord: &TxnCoordinator<'_>, txn_id: &str, parts: &[ParticipantRow]) -> (r: Vec<
    MutateRowRequest,
>)
    ensures
        mutate_views(r@) == clear_views(*coord.client, txn_id@, part_views(parts@)),
{
    let ghost goal = clear_views(*coord.client, txn_id@, part_views(parts@));
    let mut out: Vec<MutateRowRequest> = Vec::new();
    let mut i: usize = 0;
    assert(mutate_views(out@) =~= goal.take(0));
    while i < parts.len()
        invariant
            i <= parts.len(),
            goal == clear_views(*coord.client, txn_id@, part_views(parts@)),
            mutate_views(out@) == goal.take(i as int),
        decreases parts.len() - i,
    {
        let q = coord.clear_intent(txn_id, &parts[i]);
        let ghost added = q@;
        let ghost before = mutate_views(out@);
        out.push(q);
        i = i + 1;
        assert(mutate_views(out@) =~= before.push(added));
        assert(goal.take(i as int) =~= before.push(added));
    }
    assert(goal.take(i as int) =~= goal);
    out
}

impl BigtableEngine {
    /// Plans how to roll a committed transaction forward. Its changes may have
    /// been made before: they can be made again.
    pub fn roll_forward(&self, txn_id: &str, state: &TxnState) -> (r: Result<
        RollForward,
        StorageError,
    >)
        ensures
            r matches Ok(f) && mutate_views(f.changes@) == change_request_views(
                self.client,
                match state@.mutations {
                    Some(m) => m,
                    None => Seq::empty(),
                },
            ) && crate::gsi::opt_bytes(f.stream_records) == state@.stream_records
                && mutate_views(f.clears@) == clear_views(
                self.client,
                txn_id@,
                match state@.participants {
                    Some(p) => p,
                    None => Seq::empty(),
                },
            ) && f.cleaned@ == log_request(self.client, txn_id@, state_mutations(STATE_CLEANED@))
                && f.dropped@ == log_request(
                self.client,
                txn_id@,
                crate::bigtable::row_deletion(),
            ) && goes_forward(f, self.client, txn_id@, state@),
    {
        let coord = TxnCoordinator::new(&self.client, self.intent_timeout_secs);
        let changes: Vec<MutateRowRequest> = match &state.mutations {
            Some(m) => match change_requests(&self.client, m.as_slice()) {
                Ok(q) => q,
                Err(e) => return Err(e),
            },
            None => {
                let none: Vec<MutateRowRequest> = Vec::new();
                assert(mutate_views(none@) =~= change_request_views(self.client, Seq::empty()));
                none
            },
        };
        let clears: Vec<MutateRowRequest> = match &state.participants {
            Some(p) => clear_intents(&coord, txn_id, p.as_slice()),
            None => {
                let none: Vec<MutateRowRequest> = Vec::new();
                assert(mutate_views(none@) =~= clear_views(self.client, txn_id@, Seq::empty()));
                none
            },
        };
        let stream_records = match &state.stream_records {
            Some(b) => Some(crate::bytes::bytes_copy(b.as_slice())),
            None => None,
        };
        Ok(
            RollForward {
                changes,
                stream_records,
                clears,
                cleaned: coord.cleaned(txn_id),
                dropped: coord.drop(txn_id),
            },
        )
    }
}

// ---------------------------------------------------------------------------
// Records of request tokens
// ---------------------------------------------------------------------------

/// The record of a token whose transaction was found in the log.
pub open spec fn resumed_record(fingerprint: Seq<char>, txn: Seq<char>) -> JsonView {
    JsonView::Object(
        seq![("fingerprint"@, JsonView::Str(fingerprint)), ("txn_id"@, JsonView::Str(txn))],
    )
}

/// The record of a token whose transaction went through.
pub open spec fn applied_record(fingerprint: Seq<char>, at: int) -> JsonView {
    JsonView::Object(
        seq![
            ("applied_at"@, JsonView::Number(crate::text::signed_decimal(at))),
            ("fingerprint"@, JsonView::Str(fingerprint)),
        ],
    )
}

proof fn lemma_record_names()
    ensures
        crate::bytes::lex_lt(encode_utf8("fingerprint"@), encode_utf8("txn_id"@)),
        crate::bytes::lex_lt(encode_utf8("applied_at"@), encode_utf8("fingerprint"@)),
{
    reveal_strlit("fingerprint");
    reveal_strlit("txn_id");
    reveal_strlit("applied_at");
    vstd::utf8::is_ascii_chars_encode_utf8("fingerprint"@);
    vstd::utf8::is_ascii_chars_encode_utf8("txn_id"@);
    vstd::utf8::is_ascii_chars_encode_utf8("applied_at"@);
    assert("fingerprint"@[0] == 'f' && "txn_id"@[0] == 't' && "applied_at"@[0] == 'a');
    assert(crate::bytes::lex_lt_at(encode_utf8("fingerprint"@), encode_utf8("txn_id"@), 0));
    assert(crate::bytes::lex_lt_at(encode_utf8("applied_at"@), encode_utf8("fingerprint"@), 0));
}

/// Builds the record of a token whose transaction was found in the log.
pub fn resumed_token_record(fingerprint: &str, txn_id: &str) -> (r: Value)
    ensures
        json_view(r) == resumed_record(fingerprint@, txn_id@),
        token_check(Some(json_view(r)), fingerprint@) == Err::<(), ErrView>(
            ErrView::IdempotentReplay,
        ),
{
    proof {
        lemma_record_names();
        crate::transact::lemma_two_members(
            ("fingerprint"@, JsonView::Str(fingerprint@)),
            ("txn_id"@, JsonView::Str(txn_id@)),
            0,
        );
    }
    crate::transact::two_members(
        "fingerprint",
        json_string(text(fingerprint)),
        "txn_id",
        json_string(text(txn_id)),
    )
}

/// Builds the record of a token whose transaction went through. The same
/// request is then known, and any other request with the token is not.
pub fn applied_token_record(fingerprint: &str, now_secs: i64) -> (r: Value)
    ensures
        json_view(r) == applied_record(fingerprint@, now_secs as int),
        token_check(Some(json_view(r)), fingerprint@) == Err::<(), ErrView>(
            ErrView::IdempotentReplay,
        ),
        forall|other: Seq<char>|
            other != fingerprint@ ==> #[trigger] token_check(Some(json_view(r)), other) == Err::<
                (),
                ErrView,
            >(ErrView::IdempotentMismatch),
{
    proof {
        lemma_record_names();
        crate::transact::lemma_two_members(
            ("applied_at"@, JsonView::Number(crate::text::signed_decimal(now_secs as int))),
            ("fingerprint"@, JsonView::Str(fingerprint@)),
            0,
        );
    }
    crate::transact::two_members(
        "applied_at",
        json_i64(now_secs),
        "fingerprint",
        json_string(text(fingerprint)),
    )
}

} // verus!
