//! Outcomes of one invocation and of one identifier, and the record that the
//! progress cache keeps of them.

use vstd::prelude::*;

verus! {

/// How an action classifies a failure that it reports.
#[derive(Clone, Copy, Debug, PartialEq, Eq, Structural)]
pub enum ErrorClass {
    /// Expected to go away on a later attempt (a timeout, a throttled request).
    Transient,
    /// Will not go away on a later attempt (invalid input, a rejected request).
    Permanent,
}

/// Why an identifier ended in failure.
#[derive(Clone, Copy, Debug, PartialEq, Eq, Structural)]
pub enum FailureKind {
    /// The action reported a permanent failure.
    Permanent,
    /// Every allowed attempt failed transiently.
    RetriesExhausted,
}

/// A failure as an action reports it: its class and a message.
#[derive(Debug, PartialEq, Eq)]
pub struct ClassifiedError {
    pub class: ErrorClass,
    pub message: String,
}

/// Mathematical value of a [`ClassifiedError`].
pub struct ClassifiedErrorView {
    pub class: ErrorClass,
    pub message: Seq<char>,
}

impl View for ClassifiedError {
    type V = ClassifiedErrorView;

    open spec fn view(&self) -> ClassifiedErrorView {
        ClassifiedErrorView { class: self.class, message: self.message@ }
    }
}

impl ClassifiedError {
    /// A transient failure with the given message.
    pub fn transient(message: String) -> (e: ClassifiedError)
        ensures
            e@ == (ClassifiedErrorView { class: ErrorClass::Transient, message: message@ }),
    {
        ClassifiedError { class: ErrorClass::Transient, message }
    }

    /// A permanent failure with the given message.
    pub fn permanent(message: String) -> (e: ClassifiedError)
        ensures
            e@ == (ClassifiedErrorView { class: ErrorClass::Permanent, message: message@ }),
    {
        ClassifiedError { class: ErrorClass::Permanent, message }
    }
}

impl Clone for ClassifiedError {
    fn clone(&self) -> (c: ClassifiedError)
        ensures
            c@ == self@,
    {
        ClassifiedError { class: self.class, message: self.message.clone() }
    }
}

/// What one invocation of an action hands back: a receipt, or a classified
/// failure.
pub type ActionResult = Result<String, ClassifiedError>;

/// Mathematical value of an [`ActionResult`].
pub type ActionResultView = Result<Seq<char>, ClassifiedErrorView>;

/// The value of an action's result.
pub open spec fn result_view(r: ActionResult) -> ActionResultView {
    match r {
        Ok(receipt) => Ok(receipt@),
        Err(e) => Err(e@),
    }
}

/// The definitive outcome for one identifier.
#[derive(Debug, PartialEq, Eq)]
pub enum ActionOutcome {
    /// The action succeeded; the receipt it returned.
    Success(String),
    /// The action failed for good; why, and the last message.
    Failure(FailureKind, String),
}

/// Mathematical value of an [`ActionOutcome`].
pub enum ActionOutcomeView {
    Success(Seq<char>),
    Failure(FailureKind, Seq<char>),
}

impl View for ActionOutcome {
    type V = ActionOutcomeView;

    open spec fn view(&self) -> ActionOutcomeView {
        match self {
            ActionOutcome::Success(receipt) => ActionOutcomeView::Success(receipt@),
            ActionOutcome::Failure(kind, message) => ActionOutcomeView::Failure(*kind, message@),
        }
    }
}

impl ActionOutcome {
    /// Whether this outcome is a success.
    pub fn is_success(&self) -> (b: bool)
        ensures
            b == (self@ is Success),
    {
        match self {
            ActionOutcome::Success(_) => true,
            ActionOutcome::Failure(_, _) => false,
        }
    }

    /// The receipt of a success, the message of a failure.
    pub fn detail(&self) -> (d: &String)
        ensures
            d@ == detail_of(self@),
    {
        match self {
            ActionOutcome::Success(receipt) => receipt,
            ActionOutcome::Failure(_, message) => message,
        }
    }
}

/// The receipt of a success, the message of a failure.
pub open spec fn detail_of(o: ActionOutcomeView) -> Seq<char> {
    match o {
        ActionOutcomeView::Success(receipt) => receipt,
        ActionOutcomeView::Failure(_, message) => message,
    }
}

impl Clone for ActionOutcome {
    fn clone(&self) -> (c: ActionOutcome)
        ensures
            c@ == self@,
    {
        match self {
            ActionOutcome::Success(receipt) => ActionOutcome::Success(receipt.clone()),
            ActionOutcome::Failure(kind, message) => ActionOutcome::Failure(*kind, message.clone()),
        }
    }
}

/// What the progress cache keeps for one identifier: its latest definitive
/// outcome and the number of retries that were spent to reach it.
#[derive(Debug, PartialEq, Eq)]
pub struct CacheEntry {
    pub outcome: ActionOutcome,
    pub retry_count: u8,
}

/// Mathematical value of a [`CacheEntry`].
pub struct CacheEntryView {
    pub outcome: ActionOutcomeView,
    pub retry_count: nat,
}

impl View for CacheEntry {
    type V = CacheEntryView;

    open spec fn view(&self) -> CacheEntryView {
        CacheEntryView { outcome: self.outcome@, retry_count: self.retry_count as nat }
    }
}

impl CacheEntry {
    /// Whether the recorded outcome is a success.
    pub fn is_success(&self) -> (b: bool)
        ensures
            b == (self@.outcome is Success),
    {
        self.outcome.is_success()
    }
}

impl Clone for CacheEntry {
    fn clone(&self) -> (c: CacheEntry)
        ensures
            c@ == self@,
    {
        CacheEntry { outcome: self.outcome.clone(), retry_count: self.retry_count }
    }
}

} // verus!
