use vstd::prelude::*;

verus! {

/// A deadline that passed before the awaited message arrived.
#[derive(Debug, Clone, Copy, PartialEq, Eq, Structural)]
pub struct DeadlineExceeded {
    /// The instant at which this error was issued: that of the poll or sweep
    /// that found the deadline passed.
    pub issued_at: u64,
    /// The instant by which the message had to arrive.
    pub deadline: u64,
}

impl DeadlineExceeded {
    /// Records that `deadline` had passed at `now`.
    pub fn new(now: u64, deadline: u64) -> (err: Self)
        ensures
            err == (DeadlineExceeded { issued_at: now, deadline }),
    {
        DeadlineExceeded { issued_at: now, deadline }
    }
}

/// Why a command has no result.
#[derive(Debug)]
pub enum CdpError {
    /// The connection is closed or failed.
    Transport(String),
    /// The parameters could not be written as JSON, or the result could not
    /// be read as what the command answers.
    Serialization(String),
    /// The browser answered with an error.
    Protocol { code: i64, message: String },
    /// No answer came in time.
    DeadlineExceeded(DeadlineExceeded),
    /// The answer held neither a result nor an error.
    EmptyResponse,
}

/// What a [`CdpError`] holds, as plain values.
pub ghost enum CdpErrorView {
    Transport(Seq<char>),
    Serialization(Seq<char>),
    Protocol { code: i64, message: Seq<char> },
    DeadlineExceeded(DeadlineExceeded),
    EmptyResponse,
}

impl View for CdpError {
    type V = CdpErrorView;

    open spec fn view(&self) -> CdpErrorView {
        match *self {
            CdpError::Transport(cause) => CdpErrorView::Transport(cause@),
            CdpError::Serialization(cause) => CdpErrorView::Serialization(cause@),
            CdpError::Protocol { code, message } => CdpErrorView::Protocol {
                code,
                message: message@,
            },
            CdpError::DeadlineExceeded(err) => CdpErrorView::DeadlineExceeded(err),
            CdpError::EmptyResponse => CdpErrorView::EmptyResponse,
        }
    }
}

} // verus!
