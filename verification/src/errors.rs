//! The errors that the commands report to the user interface.
use vstd::prelude::*;

verus! {

/// An error of a command, with the text that explains it.
#[derive(Debug, PartialEq)]
pub enum AppError {
    Io(String),
    Tailscale(String),
    Ssh(String),
    Rsync(String),
    NotFound(String),
    Invalid(String),
}

/// The text shown for an error: its kind, a colon, a space and its detail.
pub open spec fn error_message(e: AppError) -> Seq<char> {
    match e {
        AppError::Io(m) => "io: "@ + m@,
        AppError::Tailscale(m) => "tailscale: "@ + m@,
        AppError::Ssh(m) => "ssh: "@ + m@,
        AppError::Rsync(m) => "rsync: "@ + m@,
        AppError::NotFound(m) => "not found: "@ + m@,
        AppError::Invalid(m) => "invalid: "@ + m@,
    }
}

impl AppError {
    /// The text of the error, as its `Display` shows it.
    pub fn message(&self) -> (r: String)
        ensures
            r@ == error_message(*self),
    {
        let (prefix, detail) = match self {
            AppError::Io(m) => ("io: ", m),
            AppError::Tailscale(m) => ("tailscale: ", m),
            AppError::Ssh(m) => ("ssh: ", m),
            AppError::Rsync(m) => ("rsync: ", m),
            AppError::NotFound(m) => ("not found: ", m),
            AppError::Invalid(m) => ("invalid: ", m),
        };
        let mut r = String::from_str(prefix);
        r.append(detail.as_str());
        r
    }
}

} // verus!
