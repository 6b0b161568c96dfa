use vstd::prelude::*;
use vstd::string::StringExecFns;

verus! {

/// Everything that can go wrong while serving a command. The dispatcher
/// converts each of these into a well-formed response; none of them escapes
/// `execute` as a failure.
#[derive(Debug, PartialEq)]
pub enum KvError {
    /// The key was absent from the table: table, key.
    NotFound(String, String),
    /// The request carried no operation.
    InvalidCommand(String),
    /// The request variant is known but not served by this build.
    Internal(String),
    /// The backend itself failed: operation, table, key, cause.
    StorageError(String, String, String, String),
}

/// The mathematical shape of a [`KvError`].
pub enum KvErrorView {
    NotFound(Seq<char>, Seq<char>),
    InvalidCommand(Seq<char>),
    Internal(Seq<char>),
    StorageError(Seq<char>, Seq<char>, Seq<char>, Seq<char>),
}

impl View for KvError {
    type V = KvErrorView;

    open spec fn view(&self) -> KvErrorView {
        match self {
            KvError::NotFound(t, k) => KvErrorView::NotFound(t@, k@),
            KvError::InvalidCommand(m) => KvErrorView::InvalidCommand(m@),
            KvError::Internal(m) => KvErrorView::Internal(m@),
            KvError::StorageError(op, t, k, c) => KvErrorView::StorageError(op@, t@, k@, c@),
        }
    }
}

/// The human-readable text a response carries for the error.
pub open spec fn spec_error_message(e: KvErrorView) -> Seq<char> {
    match e {
        KvErrorView::NotFound(t, k) => "Not found"@,
        KvErrorView::InvalidCommand(m) => m,
        KvErrorView::Internal(m) => m,
        KvErrorView::StorageError(op, t, k, c) => "Cannot process command "@ + op + " with table: "@
            + t + ", key: "@ + k + ". Error: "@ + c,
    }
}

impl KvError {
    /// The text of [`spec_error_message`], built by concatenation.
    pub fn message(&self) -> (r: String)
        ensures
            r@ == spec_error_message(self@),
    {
        match self {
            KvError::NotFound(t, k) => String::from_str("Not found"),
            KvError::InvalidCommand(m) => m.clone(),
            KvError::Internal(m) => m.clone(),
            KvError::StorageError(op, t, k, c) => {
                let mut s = String::from_str("Cannot process command ");
                s.append(op.as_str());
                s.append(" with table: ");
                s.append(t.as_str());
                s.append(", key: ");
                s.append(k.as_str());
                s.append(". Error: ");
                s.append(c.as_str());
                s
            },
        }
    }
}

} // verus!
