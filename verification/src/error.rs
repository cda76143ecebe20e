//! Errors of the storage layer.

use vstd::prelude::*;

use crate::text::{opt_view, text};
use crate::value::{opt_item_view, Item, ItemView};

verus! {

/// Why one operation of a transaction did or did not go through.
#[derive(Debug, PartialEq, Eq)]
pub struct CancellationReason {
    pub code: String,
    pub message: Option<String>,
    pub item: Option<Item>,
}

/// What a [`CancellationReason`] is.
pub struct ReasonView {
    pub code: Seq<char>,
    pub message: Option<Seq<char>>,
    pub item: Option<ItemView>,
}

impl CancellationReason {
    pub open spec fn view(&self) -> ReasonView {
        ReasonView {
            code: self.code@,
            message: opt_view(self.message),
            item: opt_item_view(self.item),
        }
    }
}

pub open spec fn reason_views(s: Seq<CancellationReason>) -> Seq<ReasonView> {
    s.map_values(|r: CancellationReason| r@)
}

/// An error of a storage operation.
#[derive(Debug, PartialEq, Eq)]
pub enum StorageError {
    Validation(String),
    Internal(String),
    TableNotFound(String),
    TableAlreadyExists(String),
    DeletionProtected(String),
    IndexNotFound(String),
    ConditionFailed(Option<Item>),
    TransactionConflict(String),
    TransactionCanceled(Vec<CancellationReason>),
    IdempotentReplay,
    IdempotentMismatch,
}

/// What a [`StorageError`] is.
pub enum ErrView {
    Validation(Seq<char>),
    Internal(Seq<char>),
    TableNotFound(Seq<char>),
    TableAlreadyExists(Seq<char>),
    DeletionProtected(Seq<char>),
    IndexNotFound(Seq<char>),
    ConditionFailed(Option<ItemView>),
    TransactionConflict(Seq<char>),
    TransactionCanceled(Seq<ReasonView>),
    IdempotentReplay,
    IdempotentMismatch,
}

impl StorageError {
    pub open spec fn view(&self) -> ErrView {
        match self {
            StorageError::Validation(m) => ErrView::Validation(m@),
            StorageError::Internal(m) => ErrView::Internal(m@),
            StorageError::TableNotFound(m) => ErrView::TableNotFound(m@),
            StorageError::TableAlreadyExists(m) => ErrView::TableAlreadyExists(m@),
            StorageError::DeletionProtected(m) => ErrView::DeletionProtected(m@),
            StorageError::IndexNotFound(m) => ErrView::IndexNotFound(m@),
            StorageError::ConditionFailed(i) => ErrView::ConditionFailed(opt_item_view(*i)),
            StorageError::TransactionConflict(m) => ErrView::TransactionConflict(m@),
            StorageError::TransactionCanceled(r) => ErrView::TransactionCanceled(reason_views(r@)),
            StorageError::IdempotentReplay => ErrView::IdempotentReplay,
            StorageError::IdempotentMismatch => ErrView::IdempotentMismatch,
        }
    }
}

/// A validation error with the given message.
pub fn invalid(message: &str) -> (r: StorageError)
    ensures
        r@ == ErrView::Validation(message@),
{
    StorageError::Validation(text(message))
}

/// An internal error with the given message.
pub fn internal(message: &str) -> (r: StorageError)
    ensures
        r@ == ErrView::Internal(message@),
{
    StorageError::Internal(text(message))
}

/// Builds a cancellation reason.
pub fn cancellation_reason(code: &str, message: Option<&str>, item: Option<Item>) -> (r:
    CancellationReason)
    ensures
        r@ == (ReasonView {
            code: code@,
            message: match message {
                Some(m) => Some(m@),
                None => None,
            },
            item: opt_item_view(item),
        }),
{
    CancellationReason {
        code: text(code),
        message: match message {
            Some(m) => Some(text(m)),
            None => None,
        },
        item,
    }
}

} // verus!
