//! Requests of the control plane, and the keys that order them.

use vstd::prelude::*;
use vstd::string::*;

verus! {

/// Where an XT instance stands in the order of execution.
#[derive(Debug, Clone, Copy, PartialEq, Eq, PartialOrd, Ord, Structural)]
pub struct XtOrderKey {
    pub period_id: u64,
    pub sequence_number: u64,
}

/// `a` comes before `b`: an earlier period, or an earlier number in it.
pub open spec fn order_lt(a: XtOrderKey, b: XtOrderKey) -> bool {
    a.period_id < b.period_id || (a.period_id == b.period_id && a.sequence_number
        < b.sequence_number)
}

impl XtOrderKey {
    /// Whether this key comes before `other`.
    pub fn less(self, other: XtOrderKey) -> (res: bool)
        ensures
            res == order_lt(self, other),
            self.period_id < other.period_id ==> res,
            self.period_id > other.period_id ==> !res,
            self.period_id == other.period_id ==> res == (self.sequence_number
                < other.sequence_number),
    {
        self.period_id < other.period_id || (self.period_id == other.period_id
            && self.sequence_number < other.sequence_number)
    }
}

/// Asks the builder to reserve the nonces of an XT instance.
#[derive(Debug, Clone)]
pub struct SubmitXtRequest {
    pub instance_id: String,
    pub order: XtOrderKey,
    pub transactions: Vec<Vec<u8>>,
}

/// Makes a submitted XT instance executable, behind the given `putInbox`
/// transactions.
#[derive(Debug, Clone)]
pub struct ReleaseXtRequest {
    pub instance_id: String,
    pub transactions: Vec<Vec<u8>>,
}

/// Drops an XT instance.
#[derive(Debug, Clone)]
pub struct AbortXtRequest {
    pub instance_id: String,
}

/// Why an XT transaction could not be executed.
#[derive(Debug)]
pub enum XtExecutionError {
    Decode(String),
    SignatureRecovery,
    InvalidTransactionType,
    LimitsExceeded(String),
    ExecutionFailed(String),
}

impl XtExecutionError {
    /// The text of the error.
    pub open spec fn text(&self) -> Seq<char> {
        match self {
            XtExecutionError::Decode(detail) => "failed to decode XT transaction: "@ + detail@,
            XtExecutionError::SignatureRecovery => "XT transaction signature recovery failed"@,
            XtExecutionError::InvalidTransactionType => "XT transaction type is not supported"@,
            XtExecutionError::LimitsExceeded(detail) => {
                "XT transaction exceeds block limits: "@ + detail@
            },
            XtExecutionError::ExecutionFailed(detail) => {
                "XT transaction execution failed: "@ + detail@
            },
        }
    }

    /// The error as a message.
    pub fn message(&self) -> (res: String)
        ensures
            res@ == self.text(),
            res@ == (match *self {
                XtExecutionError::Decode(detail) => "failed to decode XT transaction: "@ + detail@,
                XtExecutionError::SignatureRecovery => "XT transaction signature recovery failed"@,
                XtExecutionError::InvalidTransactionType => "XT transaction type is not supported"@,
                XtExecutionError::LimitsExceeded(detail) => "XT transaction exceeds block limits: "@
                    + detail@,
                XtExecutionError::ExecutionFailed(detail) => "XT transaction execution failed: "@
                    + detail@,
            }),
    {
        match self {
            XtExecutionError::Decode(detail) => "failed to decode XT transaction: ".to_owned().concat(
                detail.as_str(),
            ),
            XtExecutionError::SignatureRecovery => {
                "XT transaction signature recovery failed".to_owned()
            },
            XtExecutionError::InvalidTransactionType => {
                "XT transaction type is not supported".to_owned()
            },
            XtExecutionError::LimitsExceeded(detail) => {
                "XT transaction exceeds block limits: ".to_owned().concat(detail.as_str())
            },
            XtExecutionError::ExecutionFailed(detail) => {
                "XT transaction execution failed: ".to_owned().concat(detail.as_str())
            },
        }
    }
}

} // verus!
