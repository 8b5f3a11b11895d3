//! Commands on their way to the connection, and chains of commands that are
//! issued one after the other.

use vstd::prelude::*;
use crate::error::DeadlineExceeded;
use crate::handler::REQUEST_TIMEOUT;
use crate::types::Request;
use std::collections::VecDeque;

verus! {

/// The method of the command that navigates a page.
pub open spec fn navigate_method() -> Seq<char> {
    "Page.navigate"@
}

/// A command on its way to the task that owns the connection, with the slot
/// through which the answer goes back.
#[derive(Debug)]
pub struct CommandMessage<T> {
    pub method: String,
    pub session_id: Option<String>,
    pub params: serde_json::Value,
    pub sender: T,
}

impl<T> CommandMessage<T> {
    /// A command for the browser itself, outside any session.
    pub fn new(method: String, params: serde_json::Value, sender: T) -> (message: Self)
        ensures
            message == (CommandMessage { method, session_id: None, params, sender }),
    {
        CommandMessage { method, session_id: None, params, sender }
    }

    /// Whether this command is a navigation.
    pub fn is_navigation(&self) -> (navigation: bool)
        ensures
            navigation == (self.method@ == navigate_method()),
    {
        self.method == "Page.navigate".to_owned()
    }

    /// A command for the given session.
    pub fn with_session(
        method: String,
        params: serde_json::Value,
        sender: T,
        session_id: Option<String>,
    ) -> (message: Self)
        ensures
            message == (CommandMessage { method, session_id, params, sender }),
    {
        CommandMessage { method, session_id, params, sender }
    }

    /// The request to send and the slot for its answer.
    pub fn split(self) -> (parts: (Request, T))
        ensures
            parts.0 == (Request {
                method: self.method,
                session_id: self.session_id,
                params: self.params,
            }),
            parts.1 == self.sender,
    {
        (
            Request { method: self.method, session_id: self.session_id, params: self.params },
            self.sender,
        )
    }

    /// The method of the command.
    pub fn identifier(&self) -> (method: String)
        ensures
            method@ == self.method@,
    {
        self.method.clone()
    }
}

/// What a poll finds: a value, or that there is none yet.
#[derive(Debug)]
pub enum Poll<T> {
    Ready(T),
    Pending,
}

/// One step of a chain as it is handed out: the method and the parameters of
/// the command to issue, or the deadline that the step before it missed.
pub type Step = Result<(String, serde_json::Value), DeadlineExceeded>;

/// What a [`CommandChain`] holds, as plain values.
pub ghost struct ChainView {
    /// The commands that are still to be issued, each with its parameters.
    pub queue: Seq<(Seq<char>, serde_json::Value)>,
    /// The method of the command that was issued and not yet answered, with
    /// the deadline for the answer.
    pub in_flight: Option<(Seq<char>, u64)>,
    /// How long the answer to a command may take.
    pub timeout: u64,
}

/// What a poll of a chain answers, with the method as plain characters.
pub type StepView = Poll<Option<Result<(Seq<char>, serde_json::Value), DeadlineExceeded>>>;

/// The plain form of what a poll of a chain answers.
pub open spec fn step_view(step: Poll<Option<Step>>) -> StepView {
    match step {
        Poll::Ready(Some(Ok((method, params)))) => Poll::Ready(Some(Ok((method@, params)))),
        Poll::Ready(Some(Err(err))) => Poll::Ready(Some(Err(err))),
        Poll::Ready(None) => Poll::Ready(None),
        Poll::Pending => Poll::Pending,
    }
}

impl ChainView {
    /// The chain after a poll at `now`, and what the poll answers.
    ///
    /// While a command is in flight nothing is issued: the poll answers
    /// `Pending`, or the missed deadline once `now` is past it. Else the next
    /// command leaves the queue and is in flight, with its deadline a timeout
    /// from `now`; a chain with nothing left answers `Ready(None)`.
    pub open spec fn polled(self, now: u64) -> (ChainView, StepView) {
        match self.in_flight {
            Some((method, deadline)) => if now > deadline {
                (self, Poll::Ready(Some(Err(DeadlineExceeded { issued_at: now, deadline }))))
            } else {
                (self, Poll::Pending)
            },
            None => if self.queue.len() > 0 {
                (
                    ChainView {
                        queue: self.queue.drop_first(),
                        in_flight: Some((self.queue[0].0, (now + self.timeout) as u64)),
                        ..self
                    },
                    Poll::Ready(Some(Ok(self.queue[0]))),
                )
            } else {
                (self, Poll::Ready(None))
            },
        }
    }

    /// Whether an answer to `method` is the one that the chain waits for.
    pub open spec fn awaits(self, method: Seq<char>) -> bool {
        self.in_flight matches Some((awaited, _)) && awaited == method
    }

    /// Whether nothing is left to issue and nothing is in flight.
    pub open spec fn done(self) -> bool {
        self.queue.len() == 0 && self.in_flight is None
    }
}

/// Issues commands one at a time: the next one only when the one before it
/// was answered.
#[derive(Debug)]
pub struct CommandChain {
    /// The commands still to issue: method and parameters.
    cmds: VecDeque<(String, serde_json::Value)>,
    /// The method of the command that was issued last and waits for its
    /// answer, with the deadline for it.
    waiting: Option<(String, u64)>,
    /// How long an answer may take.
    timeout: u64,
}

impl View for CommandChain {
    type V = ChainView;

    closed spec fn view(&self) -> ChainView {
        ChainView {
            queue: self.cmds@.map_values(|c: (String, serde_json::Value)| (c.0@, c.1)),
            in_flight: match self.waiting {
                Some((method, deadline)) => Some((method@, deadline)),
                None => None,
            },
            timeout: self.timeout,
        }
    }
}

/// The commands of a list with their methods as plain characters.
pub open spec fn commands_view(cmds: Seq<(String, serde_json::Value)>) -> Seq<
    (Seq<char>, serde_json::Value),
> {
    cmds.map_values(|c: (String, serde_json::Value)| (c.0@, c.1))
}

impl CommandChain {
    /// A chain that issues `cmds` in their order.
    pub fn new(cmds: Vec<(String, serde_json::Value)>) -> (chain: Self)
        ensures
            chain@ == (ChainView {
                queue: commands_view(cmds@),
                in_flight: None,
                timeout: REQUEST_TIMEOUT,
            }),
    {
        let ghost all = cmds@;
        let mut queue: VecDeque<(String, serde_json::Value)> = VecDeque::new();
        for cmd in it: cmds.into_iter()
            invariant
                it.seq() == all,
                queue@ == all.take(it.index() as int),
        {
            queue.push_back(cmd);
            assert(all.take(it.index() + 1) =~= all.take(it.index() as int).push(all[it.index() as int]));
        }
        assert(all.take(all.len() as int) =~= all);
        CommandChain { cmds: queue, waiting: None, timeout: REQUEST_TIMEOUT }
    }

    /// Adds a command to the end of the chain.
    pub fn push_back(&mut self, method: String, params: serde_json::Value)
        ensures
            final(self)@ == (ChainView {
                queue: old(self)@.queue.push((method@, params)),
                ..old(self)@
            }),
    {
        self.cmds.push_back((method, params));
        assert(self@.queue =~= old(self)@.queue.push((method@, params)));
    }

    /// An answer to `identifier` arrived. When the chain waits for that
    /// method the wait is over and the result is true; else nothing changes.
    pub fn received_response(&mut self, identifier: &str) -> (acknowledged: bool)
        ensures
            acknowledged == old(self)@.awaits(identifier@),
            acknowledged ==> final(self)@ == (ChainView { in_flight: None, ..old(self)@ }),
            !acknowledged ==> *final(self) == *old(self),
    {
        let matches = match &self.waiting {
            Some((method, _)) => *method == identifier.to_owned(),
            None => false,
        };
        if matches {
            self.waiting = None;
            true
        } else {
            false
        }
    }

    /// Whether a poll at `now` can set a deadline: the timeout from `now` is
    /// an instant that the clock can show.
    pub open spec fn can_poll_at(&self, now: u64) -> bool {
        now + self@.timeout <= u64::MAX
    }

    /// Tells whether a poll at `now` can set a deadline.
    pub fn can_poll(&self, now: u64) -> (possible: bool)
        ensures
            possible == self.can_poll_at(now),
    {
        now <= u64::MAX - self.timeout
    }

    /// The next command to issue, `Ready(None)` when the chain is done,
    /// `Pending` while an answer is awaited, or the deadline that was missed.
    pub fn poll(&mut self, now: u64) -> (step: Poll<Option<Step>>)
        requires
            old(self).can_poll_at(now),
        ensures
            (final(self)@, step_view(step)) == old(self)@.polled(now),
    {
        match &self.waiting {
            Some((_, deadline)) => {
                if now > *deadline {
                    Poll::Ready(Some(Err(DeadlineExceeded::new(now, *deadline))))
                } else {
                    Poll::Pending
                }
            },
            None => {
                if let Some((method, val)) = self.cmds.pop_front() {
                    self.waiting = Some((method.clone(), now + self.timeout));
                    assert(self@.queue =~= old(self)@.queue.drop_first());
                    Poll::Ready(Some(Ok((method, val))))
                } else {
                    Poll::Ready(None)
                }
            },
        }
    }
}

impl Default for CommandChain {
    fn default() -> (chain: Self)
        ensures
            chain@ == (ChainView {
                queue: Seq::empty(),
                in_flight: None,
                timeout: REQUEST_TIMEOUT,
            }),
    {
        let chain = CommandChain { cmds: VecDeque::new(), waiting: None, timeout: REQUEST_TIMEOUT };
        assert(chain@.queue =~= Seq::empty());
        chain
    }
}

/// What a poll answers when it issues `command`.
pub open spec fn issued(command: (Seq<char>, serde_json::Value)) -> StepView {
    Poll::Ready(Some(Ok(command)))
}

/// What a poll answers when the chain is done.
pub open spec fn finished() -> StepView {
    Poll::Ready(None)
}

/// While a command is in flight a poll issues none and removes none from the
/// queue: the next command is issued only after the answer to the one before
/// it was received.
pub proof fn law_one_command_in_flight(chain: ChainView, now: u64)
    requires
        chain.in_flight is Some,
    ensures
        chain.polled(now).0 == chain,
        !(chain.polled(now).1 matches Poll::Ready(Some(Ok(_)))),
{
}

/// A chain that waits for no answer and has commands left issues the first of
/// them at the next poll; a chain that is done answers `Ready(None)`.
pub proof fn law_chain_progress(chain: ChainView, now: u64)
    requires
        chain.in_flight is None,
    ensures
        chain.queue.len() > 0 ==> chain.polled(now).1 == issued(chain.queue[0])
            && chain.polled(now).0.awaits(chain.queue[0].0),
        chain.done() <==> chain.polled(now).1 == finished(),
{
}

} // verus!
