//! The course of transactions.

use serde_json::Value;

use extenddb_storage_bigtable::error::{cancellation_reason, StorageError};
use extenddb_storage_bigtable::query_scan::{
    apply_filter, build_range_for_query, filter_items_by_sk_condition, hash_segment, path_to_name,
    resolve_expr_value, CompareOp, Expr, PathElement, SortKeyCondition,
};
use extenddb_storage_bigtable::transact::{
    changes_cell, changes_from_cell, ensure_txn_log_table, participants_cell,
    participants_from_cell, IntentAttempts, IntentStep, ParticipantMutation, ParticipantRow,
    TxnCoordinator, TxnOpPayload,
};
use extenddb_storage_bigtable::transact_write::{
    applied_token_record, check_token, resume_txn, resumed_token_record, PendingStep, PendingWait,
    Resume,
};
use extenddb_storage_bigtable::ttl_worker::ensure_ttl_index_table;
use extenddb_storage_bigtable::txn::{TxnAction, TxnDriver, TxnSignal};
use extenddb_storage_bigtable::value::{AttributeValue, Item};

fn json(s: &str) -> Value {
    serde_json::from_str(s).unwrap()
}

/// Drives a transaction with the given answers, and then with `Done`.
fn drive(n: usize, answers: &[TxnSignal]) -> (Vec<TxnAction>, Result<(), StorageError>) {
    let mut d = TxnDriver::new(n);
    let mut actions = Vec::new();
    let mut answers = answers.iter();
    loop {
        let a = d.action();
        if a == TxnAction::Stop {
            return (actions, d.finish());
        }
        actions.push(a);
        let signal = *answers.next().unwrap_or(&TxnSignal::Done);
        d.step(
            signal,
            Some(StorageError::Internal("failed".into())),
            Some(vec![cancellation_reason("ConditionalCheckFailed", None, None)]),
        );
    }
}

use TxnAction::{
    Apply, Clear, Commit, Drop, Emit, Evaluate, MarkAborted, MarkCleaned, Open, Place, RecordToken,
    Sleep,
};
use TxnSignal::{ConditionsFailed, Done, EvaluationFailed, Failed, Refused};

#[test]
fn a_transaction_that_goes_through() {
    let (actions, r) = drive(2, &[]);
    assert_eq!(r, Ok(()));
    assert_eq!(
        actions,
        vec![
            Open,
            Place { at: 0 },
            Place { at: 1 },
            Evaluate,
            Commit,
            Apply,
            Emit,
            Clear { at: 0 },
            Clear { at: 1 },
            MarkCleaned,
            Drop,
            RecordToken,
        ]
    );
    assert_eq!(drive(0, &[]).1, Ok(()));
}

#[test]
fn a_transaction_that_meets_another() {
    let answers = [
        Done, Done, Refused, Done, Done, Done, Refused, Done, Done, Done, Refused, Done, Done, Done,
    ];
    let (actions, r) = drive(2, &answers);
    assert_eq!(
        actions,
        vec![
            Open,
            Place { at: 0 },
            Place { at: 1 },
            Clear { at: 0 },
            Sleep { base_ms: 50 },
            Place { at: 0 },
            Place { at: 1 },
            Clear { at: 0 },
            Sleep { base_ms: 100 },
            Place { at: 0 },
            Place { at: 1 },
            Clear { at: 0 },
            Clear { at: 0 },
            Drop,
        ]
    );
    match r {
        Err(StorageError::TransactionCanceled(reasons)) => {
            let codes: Vec<&str> = reasons.iter().map(|x| x.code.as_str()).collect();
            assert_eq!(codes, vec!["None", "TransactionConflict"]);
            assert_eq!(
                reasons[1].message.as_deref(),
                Some("concurrent transaction holds an intent on this row")
            );
        }
        other => panic!("expected a cancellation, got {other:?}"),
    }
}

#[test]
fn transactions_that_fail() {
    // Placing an intent fails, and then so does clearing one.
    let (actions, r) = drive(2, &[Done, Done, Failed, Failed]);
    assert_eq!(actions, vec![Open, Place { at: 0 }, Place { at: 1 }, Clear { at: 0 }, MarkAborted]);
    assert_eq!(r, Err(StorageError::Internal("failed".into())));
    // Conditions that do not hold.
    let (actions, r) = drive(1, &[Done, Done, ConditionsFailed]);
    assert_eq!(actions, vec![Open, Place { at: 0 }, Evaluate, Clear { at: 0 }, Drop]);
    assert!(matches!(r, Err(StorageError::TransactionCanceled(l)) if l.len() == 1));
    // Conditions that cannot be evaluated.
    let (actions, r) = drive(1, &[Done, Done, EvaluationFailed, Failed]);
    assert_eq!(actions, vec![Open, Place { at: 0 }, Evaluate, Clear { at: 0 }, Drop]);
    assert_eq!(r, Err(StorageError::Internal("failed".into())));
    // After the commit nothing is undone.
    let (actions, r) = drive(1, &[Done, Done, Done, Done, Failed]);
    assert_eq!(actions, vec![Open, Place { at: 0 }, Evaluate, Commit, Apply]);
    assert!(r.is_err());
    assert_eq!(drive(1, &[Failed]).0, vec![Open]);
    // Before it everything is.
    let (actions, r) = drive(1, &[Done, Done, Done, Failed]);
    assert_eq!(actions, vec![Open, Place { at: 0 }, Evaluate, Commit, Clear { at: 0 }, Drop]);
    assert_eq!(r, Err(StorageError::Internal("failed".into())));
}

#[test]
fn intents_are_tried_five_times() {
    let mut a = IntentAttempts::new();
    let mut sleeps = Vec::new();
    let end = loop {
        match a.step(true, 1) {
            IntentStep::Retry { sleep_ms } => sleeps.push(sleep_ms),
            other => break other,
        }
    };
    assert_eq!(end, IntentStep::Conflict);
    assert_eq!(sleeps, vec![11, 21, 41, 81]);
    assert_eq!(IntentAttempts::new().step(false, 0), IntentStep::Placed);
}

#[test]
fn tokens_are_known_again() {
    assert_eq!(check_token(None, "f"), Ok(()));
    let r = applied_token_record("f", 17);
    assert_eq!(r, json("{\"applied_at\":17,\"fingerprint\":\"f\"}"));
    assert_eq!(check_token(Some(&r), "f"), Err(StorageError::IdempotentReplay));
    assert_eq!(check_token(Some(&r), "g"), Err(StorageError::IdempotentMismatch));
    let r = resumed_token_record("f", "t");
    assert_eq!(r, json("{\"fingerprint\":\"f\",\"txn_id\":\"t\"}"));
    assert_eq!(check_token(Some(&r), "f"), Err(StorageError::IdempotentReplay));
    assert_eq!(check_token(Some(&json("{}")), "f"), Err(StorageError::IdempotentMismatch));
}

#[test]
fn transactions_are_taken_up_again() {
    assert_eq!(resume_txn(None), Ok(Resume::Begin));
    assert_eq!(resume_txn(Some("CLEANED")), Ok(Resume::Record));
    assert_eq!(resume_txn(Some("COMMITTED")), Ok(Resume::RollForward));
    assert_eq!(resume_txn(Some("PENDING")), Ok(Resume::Wait));
    assert_eq!(
        resume_txn(Some("ABORTED")),
        Err(StorageError::TransactionConflict("transaction exists in state: ABORTED".into()))
    );
    let mut w = PendingWait::new();
    assert_eq!(w.delay_ms, 50);
    let mut sleeps = Vec::new();
    let end = loop {
        match w.step(Some("PENDING"), false, 2) {
            PendingStep::Sleep { ms } => sleeps.push(ms),
            other => break other,
        }
    };
    assert_eq!(sleeps, vec![102, 206, 414, 830]);
    assert_eq!(
        end,
        PendingStep::Fail(StorageError::TransactionConflict(
            "concurrent transaction with same token is pending".into()
        ))
    );
    let mut w = PendingWait::new();
    assert_eq!(w.step(Some("CLEANED"), false, 0), PendingStep::Record);
    assert_eq!(w.step(Some("COMMITTED"), false, 0), PendingStep::RollForward);
    assert_eq!(w.step(None, true, 0), PendingStep::Record);
    assert_eq!(
        w.step(None, false, 0),
        PendingStep::Fail(StorageError::TransactionConflict(
            "transaction was rolled back or disappeared".into()
        ))
    );
    assert!(matches!(w.step(Some("ODD"), false, 0), PendingStep::Fail(_)));
}

#[test]
fn the_log_reads_back() {
    let p = vec![
        ParticipantRow { data_table: "t\"1".into(), row_key: vec![0, 128, 255] },
        ParticipantRow { data_table: "t2".into(), row_key: vec![] },
    ];
    let b = participants_cell(&p).unwrap();
    assert_eq!(
        String::from_utf8(b.clone()).unwrap(),
        "[{\"data_table\":\"t\\\"1\",\"row_key\":[0,128,255]},{\"data_table\":\"t2\",\"row_key\":[]}]"
    );
    assert_eq!(participants_from_cell(&b), Some(p.clone()));
    assert_eq!(participants_from_cell(b"{}"), None);
    assert_eq!(participants_from_cell(b"[{\"data_table\":\"t\",\"row_key\":[256]}]"), None);
    assert_eq!(participants_from_cell(b"[{\"data_table\":\"t\"}]"), None);
    let mut item = Item::new();
    item.insert("pk".into(), AttributeValue::S("a".into()));
    item.insert("l".into(), AttributeValue::L(vec![AttributeValue::Null]));
    let c = vec![
        ParticipantMutation { participant: p[0].clone(), payload: TxnOpPayload::Put { item } },
        ParticipantMutation { participant: p[1].clone(), payload: TxnOpPayload::Delete },
    ];
    let b = changes_cell(&c).unwrap();
    assert_eq!(changes_from_cell(&b), Some(c));
    assert_eq!(changes_from_cell(b"[1]"), None);
    let text = String::from_utf8(b).unwrap();
    assert!(text.contains("\"payload\":{\"Put\":{\"item\":{\"l\":{\"L\":[{\"NULL\":true}]}"));
    assert!(text.ends_with("\"payload\":\"Delete\"}]"));
}

#[test]
fn names_of_transactions() {
    let id = TxnCoordinator::new_txn_id();
    assert!(id.starts_with("txn-") && id.len() == 36);
    assert_ne!(id, TxnCoordinator::new_txn_id());
    assert_eq!(TxnCoordinator::coordinator_row_key("x"), "txn:x");
    assert_eq!(TxnCoordinator::intent_qualifier("x"), b"intent:x".to_vec());
    assert_eq!(
        ensure_txn_log_table(),
        ("__extenddb_txn_log__".to_string(), vec!["t".to_string()])
    );
    assert_eq!(
        ensure_ttl_index_table(),
        ("__extenddb_ttl_index__".to_string(), vec!["d".to_string()])
    );
}

// ---------------------------------------------------------------------------
// Conditions of queries
// ---------------------------------------------------------------------------

fn placeholder(v: AttributeValue) -> Expr {
    Expr::Placeholder(Ok(v))
}

#[test]
fn operands_must_be_placeholders() {
    assert_eq!(
        resolve_expr_value(&Expr::Other),
        Err(StorageError::Validation("key condition values must be placeholders".into()))
    );
    assert_eq!(
        resolve_expr_value(&Expr::Placeholder(Err(":x".into()))),
        Err(StorageError::Validation("placeholder resolve: :x".into()))
    );
    assert_eq!(path_to_name(&[PathElement::Attribute("a".into())]), Ok("a".to_string()));
    assert!(path_to_name(&[PathElement::Index(0)]).is_err());
    assert!(path_to_name(&[]).is_err());
}

#[test]
fn ranges_byte_by_byte() {
    let pk = AttributeValue::S("p".into());
    let head = b"S\x00\x00\x00\x01p".to_vec();
    let with = |tail: &[u8], n: usize| {
        let mut k = head.clone();
        k.extend_from_slice(tail);
        k.extend(vec![0xFF; n]);
        k
    };
    assert_eq!(build_range_for_query(&pk, None), Ok((with(b"", 0), with(b"", 17), false)));
    let range = |op| {
        let c = SortKeyCondition::Compare { op, value: placeholder(AttributeValue::S("k".into())) };
        build_range_for_query(&pk, Some(&c))
    };
    assert_eq!(range(CompareOp::Eq), Ok((with(b"Sk", 0), with(b"Sk", 17), false)));
    assert_eq!(range(CompareOp::Lt), Ok((with(b"", 0), with(b"Sk", 0), true)));
    assert_eq!(range(CompareOp::Le), Ok((with(b"", 0), with(b"Sk", 17), false)));
    assert_eq!(range(CompareOp::Gt), Ok((with(b"Sk", 17), with(b"", 17), false)));
    assert_eq!(range(CompareOp::Ge), Ok((with(b"Sk", 0), with(b"", 17), false)));
    assert_eq!(
        range(CompareOp::Ne),
        Err(StorageError::Validation("Ne not valid in KeyConditionExpression for SK".into()))
    );
    let c = SortKeyCondition::BeginsWith { prefix: placeholder(AttributeValue::N("1".into())) };
    assert_eq!(
        build_range_for_query(&pk, Some(&c)),
        Err(StorageError::Validation("begins_with prefix must be S/B".into()))
    );
    let c = SortKeyCondition::BeginsWith { prefix: placeholder(AttributeValue::B(vec![7])) };
    assert_eq!(build_range_for_query(&pk, Some(&c)), Ok((with(b"B\x07", 0), with(b"B\x07", 17), false)));
}

#[test]
fn items_are_kept_by_their_sort_keys() {
    let mk = |v: &str| {
        let mut i = Item::new();
        i.insert("r".into(), AttributeValue::S(v.into()));
        i
    };
    let items = || vec![mk("a"), mk("ab"), Item::new(), mk("b")];
    let keep = |c: SortKeyCondition| {
        filter_items_by_sk_condition(items(), "r", &c).map(|l| {
            l.iter()
                .map(|i| match i.get("r") {
                    Some(AttributeValue::S(s)) => s.clone(),
                    _ => String::new(),
                })
                .collect::<Vec<String>>()
        })
    };
    let cmp = |op, v: &str| SortKeyCondition::Compare {
        op,
        value: placeholder(AttributeValue::S(v.into())),
    };
    assert_eq!(keep(cmp(CompareOp::Eq, "ab")).unwrap(), vec!["ab"]);
    assert_eq!(keep(cmp(CompareOp::Lt, "ab")).unwrap(), vec!["a"]);
    assert_eq!(keep(cmp(CompareOp::Le, "ab")).unwrap(), vec!["a", "ab"]);
    assert_eq!(keep(cmp(CompareOp::Gt, "ab")).unwrap(), vec!["b"]);
    assert_eq!(keep(cmp(CompareOp::Ge, "ab")).unwrap(), vec!["ab", "b"]);
    assert!(keep(cmp(CompareOp::Ne, "ab")).is_err());
    let between = SortKeyCondition::Between {
        low: placeholder(AttributeValue::S("aa".into())),
        high: placeholder(AttributeValue::S("b".into())),
    };
    assert_eq!(keep(between).unwrap(), vec!["ab", "b"]);
    let begins = SortKeyCondition::BeginsWith { prefix: placeholder(AttributeValue::S("a".into())) };
    assert_eq!(keep(begins).unwrap(), vec!["a", "ab"]);
    let mut odd = Item::new();
    odd.insert("r".into(), AttributeValue::Null);
    assert!(filter_items_by_sk_condition(vec![odd], "r", &cmp(CompareOp::Eq, "a")).is_err());
    let all = items();
    let kept =
        apply_filter(all, &[Ok(true), Ok(false), Ok(true), Ok(false)]).unwrap();
    assert_eq!(kept, vec![mk("a"), Item::new()]);
    assert_eq!(
        apply_filter(vec![mk("a")], &[Err("bad".into())]),
        Err(StorageError::Validation("filter expression evaluation: bad".into()))
    );
}

#[test]
fn segments_of_keys() {
    assert_eq!(hash_segment(b"", 7), 0xcbf29ce484222325u64 % 7);
    assert_eq!(hash_segment(b"a", u64::MAX), 0xaf63dc4c8601ec8c);
    for k in [&b"x"[..], b"row", b""] {
        assert!(hash_segment(k, 3) < 3);
        assert_eq!(hash_segment(k, 1), 0);
    }
}
