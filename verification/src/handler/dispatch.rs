//! The requests that were sent and wait for their response.

use vstd::prelude::*;
use crate::cmd::CommandMessage;
use crate::error::{CdpError, CdpErrorView, DeadlineExceeded};
use crate::types::{CallId, MethodCall, Response};

verus! {

/// A request that waits for its response.
#[derive(Debug)]
struct Pending<T> {
    id: CallId,
    method: String,
    deadline: u64,
    sender: T,
}

/// What is kept of a request that waits for its response.
pub ghost struct PendingView<T> {
    pub method: Seq<char>,
    /// The last instant at which the response is in time.
    pub deadline: u64,
    /// The slot through which the outcome goes back.
    pub sender: T,
}

impl<T> View for Pending<T> {
    type V = PendingView<T>;

    closed spec fn view(&self) -> PendingView<T> {
        PendingView {
            method: self.method@,
            deadline: self.deadline,
            sender: self.sender,
        }
    }
}

/// A response together with what was kept of its request.
#[derive(Debug)]
pub struct Answered<T> {
    /// The slot through which the response goes back.
    pub sender: T,
    /// The method of the request.
    pub method: String,
    pub response: Response,
}

/// What a [`Dispatcher`] holds, as plain values.
pub ghost struct DispatcherView<T> {
    /// The id that the next request gets. All smaller ids were issued.
    pub next_id: u64,
    /// The requests that wait for their response, by id.
    pub pending: Map<u64, PendingView<T>>,
    /// The ids whose outcome was handed out: a response, a missed deadline or
    /// a failure of the connection.
    pub resolved: Set<u64>,
    /// How long a response may take.
    pub timeout: u64,
    /// Why the connection is closed, if it is.
    pub closed: Option<Seq<char>>,
}

impl<T> DispatcherView<T> {
    /// Every id that was issued either waits or has had its outcome, not
    /// both; no other id does either.
    pub open spec fn accounted(self) -> bool {
        forall|id: u64|
            (#[trigger] self.pending.contains_key(id) <==> id < self.next_id
                && !self.resolved.contains(id)) && (self.resolved.contains(id) ==> id
                < self.next_id)
    }

    /// The ids of the requests whose deadline has passed at `now`.
    pub open spec fn expired(self, now: u64) -> Set<u64> {
        Set::new(|id: u64| self.pending.contains_key(id) && now > self.pending[id].deadline)
    }

    /// The state after the outcomes of the requests in `ids` were handed out.
    pub open spec fn resolve(self, ids: Set<u64>) -> DispatcherView<T> {
        DispatcherView {
            pending: self.pending.remove_keys(ids),
            resolved: self.resolved.union(ids.intersect(self.pending.dom())),
            ..self
        }
    }
}

/// Gives each request its id and keeps its reply slot until the outcome of
/// the request is known.
pub struct Dispatcher<T> {
    next_id: u64,
    /// The waiting requests, in the order of their ids.
    pending: Vec<Pending<T>>,
    timeout: u64,
    /// Why the connection is closed, if it is.
    closed: Option<String>,
    resolved: Ghost<Set<u64>>,
}

/// The ids of the waiting requests, in their order.
spec fn ids_of<T>(pending: Seq<Pending<T>>) -> Seq<u64> {
    Seq::new(pending.len(), |i: int| pending[i].id.0)
}

/// The waiting requests by id.
spec fn table_of<T>(pending: Seq<Pending<T>>) -> Map<u64, PendingView<T>> {
    let ids = ids_of(pending);
    Map::new(|id: u64| ids.contains(id), |id: u64| pending[ids.index_of(id)]@)
}

impl<T> View for Dispatcher<T> {
    type V = DispatcherView<T>;

    closed spec fn view(&self) -> DispatcherView<T> {
        DispatcherView {
            next_id: self.next_id,
            pending: table_of(self.pending@),
            resolved: self.resolved@,
            timeout: self.timeout,
            closed: match self.closed {
                Some(cause) => Some(cause@),
                None => None,
            },
        }
    }
}

proof fn lemma_table_push<T>(pending: Seq<Pending<T>>, entry: Pending<T>)
    requires
        ids_of(pending).no_duplicates(),
        !ids_of(pending).contains(entry.id.0),
    ensures
        ids_of(pending.push(entry)) == ids_of(pending).push(entry.id.0),
        ids_of(pending.push(entry)).no_duplicates(),
        table_of(pending.push(entry)) == table_of(pending).insert(entry.id.0, entry@),
{
    let ids = ids_of(pending);
    let more = ids_of(pending.push(entry));
    assert(more =~= ids.push(entry.id.0));
    assert forall|a: int, b: int| 0 <= a < b < more.len() implies more[a] != more[b] by {
        if b == ids.len() {
            assert(ids.contains(ids[a]));
        }
    }
    assert forall|id: u64| ids.contains(id) implies more.index_of(id) == ids.index_of(id) by {
        assert(more[ids.index_of(id)] == id);
    }
    assert(more[ids.len() as int] == entry.id.0);
    assert forall|id: u64| more.contains(id) <==> (ids.contains(id) || id == entry.id.0) by {
        if ids.contains(id) {
            assert(more[ids.index_of(id)] == id);
        }
    }
    assert(table_of(pending.push(entry)) =~= table_of(pending).insert(entry.id.0, entry@));
}

proof fn lemma_table_remove<T>(pending: Seq<Pending<T>>, at: int)
    requires
        ids_of(pending).no_duplicates(),
        0 <= at < pending.len(),
    ensures
        ids_of(pending.remove(at)) == ids_of(pending).remove(at),
        ids_of(pending.remove(at)).no_duplicates(),
        table_of(pending.remove(at)) == table_of(pending).remove(pending[at].id.0),
        table_of(pending).contains_key(pending[at].id.0),
        table_of(pending)[pending[at].id.0] == pending[at]@,
{
    let ids = ids_of(pending);
    let less = ids_of(pending.remove(at));
    let gone = pending[at].id.0;
    assert(less =~= ids.remove(at));
    assert(ids[at] == gone);
    assert forall|a: int, b: int| 0 <= a < b < less.len() implies less[a] != less[b] by {
        let a0 = if a < at { a } else { a + 1 };
        let b0 = if b < at { b } else { b + 1 };
        assert(ids[a0] != ids[b0]);
    }
    assert forall|id: u64| less.contains(id) implies ids.contains(id) && id != gone
        && pending[ids.index_of(id)] == pending.remove(at)[less.index_of(id)] by {
        let j = less.index_of(id);
        if j < at {
            assert(ids[j] == id);
        } else {
            assert(ids[j + 1] == id);
        }
    }
    assert forall|id: u64| ids.contains(id) && id != gone implies less.contains(id) by {
        let j = ids.index_of(id);
        if j < at {
            assert(less[j] == id);
        } else {
            assert(less[j - 1] == id);
        }
    }
    assert(table_of(pending.remove(at)) =~= table_of(pending).remove(gone));
}

impl<T> Dispatcher<T> {
    /// The waiting requests have different ids, and every issued id is
    /// accounted for.
    pub closed spec fn wf(&self) -> bool {
        &&& ids_of(self.pending@).no_duplicates()
        &&& self@.accounted()
    }

    /// A dispatcher without requests, for responses that may take `timeout`.
    pub fn new(timeout: u64) -> (dispatcher: Self)
        ensures
            dispatcher.wf(),
            dispatcher@ == (DispatcherView::<T> {
                next_id: 0,
                pending: Map::empty(),
                resolved: Set::empty(),
                timeout,
                closed: None,
            }),
    {
        let dispatcher = Dispatcher {
            next_id: 0,
            pending: Vec::new(),
            timeout,
            closed: None,
            resolved: Ghost(Set::empty()),
        };
        assert(dispatcher@.pending =~= Map::<u64, PendingView<T>>::empty());
        dispatcher
    }

    fn position(&self, id: CallId) -> (pos: Option<usize>)
        ensures
            match pos {
                Some(i) => i < self.pending@.len() && self.pending@[i as int].id == id,
                None => !ids_of(self.pending@).contains(id.0),
            },
    {
        let mut i: usize = 0;
        while i < self.pending.len()
            invariant
                i <= self.pending@.len(),
                forall|j: int| 0 <= j < i ==> ids_of(self.pending@)[j] != id.0,
            decreases self.pending@.len() - i,
        {
            if self.pending[i].id.0 == id.0 {
                return Some(i);
            }
            i += 1;
        }
        None
    }

    /// Whether the request `id` waits for its response.
    pub fn is_pending(&self, id: CallId) -> (pending: bool)
        ensures
            pending == self@.pending.contains_key(id.0),
    {
        match self.position(id) {
            Some(i) => {
                assert(ids_of(self.pending@)[i as int] == id.0);
                true
            },
            None => false,
        }
    }

    /// Whether a request can be handed in at `now`: an id is left, and the
    /// deadline is an instant that the clock can show.
    pub open spec fn can_submit_at(&self, now: u64) -> bool {
        self@.next_id < u64::MAX && now + self@.timeout <= u64::MAX
    }

    /// Tells whether a request can be handed in at `now`.
    pub fn can_submit(&self, now: u64) -> (possible: bool)
        ensures
            possible == self.can_submit_at(now),
    {
        self.next_id < u64::MAX && now <= u64::MAX - self.timeout
    }

    /// Takes a command in: it gets the next id, and its reply slot waits for
    /// the response until a timeout from `now`. The result is the request to
    /// put on the wire. A closed dispatcher hands the slot back instead, with
    /// the failure of the connection as the error.
    pub fn submit(&mut self, message: CommandMessage<T>, now: u64) -> (sent: Result<
        MethodCall,
        (T, CdpError),
    >)
        requires
            old(self).wf(),
            old(self).can_submit_at(now),
        ensures
            final(self).wf(),
            match sent {
                Ok(call) => {
                    &&& old(self)@.closed is None
                    &&& call.id == CallId(old(self)@.next_id)
                    &&& call.method@ == message.method@
                    &&& call.session_id == message.session_id
                    &&& call.params == message.params
                    &&& final(self)@ == (DispatcherView {
                        next_id: (old(self)@.next_id + 1) as u64,
                        pending: old(self)@.pending.insert(
                            old(self)@.next_id,
                            PendingView {
                                method: message.method@,
                                deadline: (now + old(self)@.timeout) as u64,
                                sender: message.sender,
                            },
                        ),
                        ..old(self)@
                    })
                },
                Err((sender, err)) => {
                    &&& old(self)@.closed matches Some(cause)
                    &&& err@ == CdpErrorView::Transport(cause)
                    &&& sender == message.sender
                    &&& final(self)@ == old(self)@
                },
            },
    {
        if let Some(cause) = &self.closed {
            return Err((message.sender, CdpError::Transport(cause.clone())));
        }
        let id = CallId(self.next_id);
        let entry = Pending {
            id,
            method: message.method.clone(),
            deadline: now + self.timeout,
            sender: message.sender,
        };
        proof {
            assert(!self@.pending.contains_key(self.next_id));
            lemma_table_push(self.pending@, entry);
        }
        self.pending.push(entry);
        self.next_id = self.next_id + 1;
        Ok(
            MethodCall {
                id,
                method: message.method,
                session_id: message.session_id,
                params: message.params,
            },
        )
    }

    fn take_at(&mut self, at: usize) -> (entry: Pending<T>)
        requires
            old(self).wf(),
            at < old(self).pending@.len(),
        ensures
            final(self).wf(),
            entry == old(self).pending@[at as int],
            final(self).pending@ == old(self).pending@.remove(at as int),
            old(self)@.pending.contains_key(entry.id.0),
            old(self)@.pending[entry.id.0] == entry@,
            final(self)@ == (DispatcherView {
                pending: old(self)@.pending.remove(entry.id.0),
                resolved: old(self)@.resolved.insert(entry.id.0),
                ..old(self)@
            }),
    {
        proof {
            lemma_table_remove(self.pending@, at as int);
        }
        let entry = self.pending.remove(at);
        self.resolved = Ghost(self.resolved@.insert(entry.id.0));
        proof {
            let before = old(self)@;
            let after = self@;
            assert(before.pending.contains_key(entry.id.0));
            assert forall|id: u64|
                (#[trigger] after.pending.contains_key(id) <==> id < after.next_id
                    && !after.resolved.contains(id)) && (after.resolved.contains(id) ==> id
                    < after.next_id) by {
                assert(before.pending.contains_key(id) <==> id < before.next_id
                    && !before.resolved.contains(id));
            }
        }
        entry
    }

    /// A response arrived. When its request waits, the wait is over: the
    /// result is the reply slot and the method of the request, with the
    /// response for it. A response to anything else is dropped.
    pub fn on_response(&mut self, response: Response) -> (answered: Option<Answered<T>>)
        requires
            old(self).wf(),
        ensures
            final(self).wf(),
            match answered {
                Some(answer) => {
                    &&& old(self)@.pending.contains_key(response.id.0)
                    &&& answer.sender == old(self)@.pending[response.id.0].sender
                    &&& answer.method@ == old(self)@.pending[response.id.0].method
                    &&& answer.response == response
                    &&& final(self)@ == old(self)@.resolve(set![response.id.0])
                },
                None => !old(self)@.pending.contains_key(response.id.0) && final(self)@ == old(
                    self,
                )@,
            },
    {
        match self.position(response.id) {
            Some(at) => {
                let entry = self.take_at(at);
                proof {
                    let one = set![response.id.0];
                    assert(old(self)@.pending.remove_keys(one) =~= old(self)@.pending.remove(
                        response.id.0,
                    ));
                    assert(old(self)@.resolved.union(one.intersect(old(self)@.pending.dom()))
                        =~= old(self)@.resolved.insert(response.id.0));
                }
                Some(Answered { sender: entry.sender, method: entry.method, response })
            },
            None => None,
        }
    }
}

/// Whether `handed` lists the requests `ids` of `pending`, each once, with
/// its reply slot.
pub open spec fn hands_back<T>(
    handed: Seq<(CallId, T)>,
    pending: Map<u64, PendingView<T>>,
    ids: Set<u64>,
) -> bool {
    &&& forall|i: int|
        0 <= i < handed.len() ==> ids.contains((#[trigger] handed[i]).0.0) && pending.contains_key(
            handed[i].0.0,
        ) && handed[i].1 == pending[handed[i].0.0].sender
    &&& forall|i: int, j: int|
        0 <= i < j < handed.len() ==> (#[trigger] handed[i]).0 != (#[trigger] handed[j]).0
    &&& forall|id: u64|
        ids.contains(id) && pending.contains_key(id) ==> exists|i: int|
            0 <= i < handed.len() && (#[trigger] handed[i]).0.0 == id
}

/// The ids and reply slots of `failed`.
pub open spec fn slots_of<T>(failed: Seq<(CallId, T, CdpError)>) -> Seq<(CallId, T)> {
    failed.map_values(|e: (CallId, T, CdpError)| (e.0, e.1))
}

impl<T> Dispatcher<T> {
    proof fn lemma_table_entry(&self, id: u64) -> (at: int)
        requires
            self.wf(),
            self@.pending.contains_key(id),
        ensures
            0 <= at < self.pending@.len(),
            self.pending@[at].id.0 == id,
            self@.pending[id] == self.pending@[at]@,
    {
        let ids = ids_of(self.pending@);
        ids.index_of(id)
    }

    /// Takes out the requests whose deadline has passed at `now` (a response
    /// at the deadline itself is still in time) and hands their reply slots
    /// back, each with its id and the deadline that it missed as the error.
    pub fn evict_timed_out(&mut self, now: u64) -> (late: Vec<(CallId, T, CdpError)>)
        requires
            old(self).wf(),
        ensures
            final(self).wf(),
            final(self)@ == old(self)@.resolve(old(self)@.expired(now)),
            hands_back(slots_of(late@), old(self)@.pending, old(self)@.expired(now)),
            forall|i: int|
                0 <= i < late@.len() ==> (#[trigger] late@[i]).2@ == CdpErrorView::DeadlineExceeded(
                    DeadlineExceeded {
                        issued_at: now,
                        deadline: old(self)@.pending[late@[i].0.0].deadline,
                    },
                ),
    {
        let ghost before = old(self)@;
        let ghost mut done: Set<u64> = Set::empty();
        let mut late: Vec<(CallId, T, CdpError)> = Vec::new();
        let ghost mut handed: Seq<(CallId, T)> = Seq::empty();
        let mut i: usize = 0;
        proof {
            assert(before.pending.remove_keys(done) =~= before.pending);
            assert(before.resolved.union(done) =~= before.resolved);
            assert(slots_of(late@) =~= handed);
        }
        while i < self.pending.len()
            invariant
                self.wf(),
                i <= self.pending@.len(),
                before.accounted(),
                self@ == (DispatcherView {
                    pending: before.pending.remove_keys(done),
                    resolved: before.resolved.union(done),
                    ..before
                }),
                done.subset_of(before.expired(now)),
                forall|k: int| 0 <= k < i ==> !(now > (#[trigger] self.pending@[k]).deadline),
                handed == slots_of(late@),
                hands_back(handed, before.pending, done),
                forall|k: int| 0 <= k < handed.len() ==> done.contains((#[trigger] handed[k]).0.0),
                forall|k: int|
                    0 <= k < late@.len() ==> (#[trigger] late@[k]).2@
                        == CdpErrorView::DeadlineExceeded(
                        DeadlineExceeded {
                            issued_at: now,
                            deadline: before.pending[late@[k].0.0].deadline,
                        },
                    ),
            decreases self.pending@.len() - i,
        {
            if now > self.pending[i].deadline {
                let ghost current = self@;
                let entry = self.take_at(i);
                proof {
                    let id = entry.id.0;
                    assert(current.pending.contains_key(id));
                    assert(before.pending.contains_key(id) && before.pending[id] == entry@);
                    assert(!done.contains(id));
                    assert(before.expired(now).contains(id));
                    assert(before.pending.remove_keys(done.insert(id)) =~= before.pending.remove_keys(
                        done,
                    ).remove(id));
                    assert(before.resolved.union(done.insert(id)) =~= before.resolved.union(
                        done,
                    ).insert(id));
                    let more = handed.push((entry.id, entry.sender));
                    assert forall|k: int| 0 <= k < more.len() implies done.insert(id).contains(
                        (#[trigger] more[k]).0.0,
                    ) && before.pending.contains_key(more[k].0.0) && more[k].1
                        == before.pending[more[k].0.0].sender by {
                        if k < handed.len() {
                            assert(more[k] == handed[k]);
                        }
                    }
                    assert forall|a: int, b: int| 0 <= a < b < more.len() implies (#[trigger] more[a]).0
                        != (#[trigger] more[b]).0 by {
                        assert(more[a] == handed[a]);
                        if b < handed.len() {
                            assert(more[b] == handed[b]);
                        } else {
                            assert(done.contains(handed[a].0.0));
                        }
                    }
                    assert forall|other: u64|
                        done.insert(id).contains(other) && before.pending.contains_key(
                            other,
                        ) implies exists|k: int|
                        0 <= k < more.len() && (#[trigger] more[k]).0.0 == other by {
                        if other == id {
                            assert(more[handed.len() as int].0.0 == id);
                        } else {
                            let k = choose|k: int|
                                0 <= k < handed.len() && (#[trigger] handed[k]).0.0 == other;
                            assert(more[k].0.0 == other);
                        }
                    }
                    done = done.insert(id);
                    handed = more;
                }
                let err = CdpError::DeadlineExceeded(DeadlineExceeded::new(now, entry.deadline));
                late.push((entry.id, entry.sender, err));
                assert(slots_of(late@) =~= handed);
            } else {
                i += 1;
            }
        }
        proof {
            assert forall|id: u64| before.expired(now).contains(id) implies done.contains(id) by {
                if !done.contains(id) {
                    let at = self.lemma_table_entry(id);
                    assert(!(now > self.pending@[at].deadline));
                }
            }
            assert(done =~= before.expired(now));
            assert(before.resolved.union(done) =~= before.resolved.union(
                done.intersect(before.pending.dom()),
            ));
        }
        late
    }

    /// The request `id` could not be sent, because of `cause`: it waits no
    /// longer, and its reply slot is handed back with the failure as the
    /// error. Nothing happens for an id that does not wait.
    pub fn fail(&mut self, id: CallId, cause: String) -> (failed: Option<(T, CdpError)>)
        requires
            old(self).wf(),
        ensures
            final(self).wf(),
            match failed {
                Some((sender, err)) => {
                    &&& old(self)@.pending.contains_key(id.0)
                    &&& sender == old(self)@.pending[id.0].sender
                    &&& err@ == CdpErrorView::Transport(cause@)
                    &&& final(self)@ == old(self)@.resolve(set![id.0])
                },
                None => !old(self)@.pending.contains_key(id.0) && final(self)@ == old(self)@,
            },
    {
        match self.position(id) {
            Some(at) => {
                let entry = self.take_at(at);
                proof {
                    let one = set![id.0];
                    assert(old(self)@.pending.remove_keys(one) =~= old(self)@.pending.remove(id.0));
                    assert(old(self)@.resolved.union(one.intersect(old(self)@.pending.dom()))
                        =~= old(self)@.resolved.insert(id.0));
                }
                Some((entry.sender, CdpError::Transport(cause)))
            },
            None => None,
        }
    }

    /// The connection failed, because of `cause`: no request waits any longer,
    /// all reply slots are handed back with the failure as the error, and the
    /// dispatcher takes no more requests.
    pub fn close(&mut self, cause: String) -> (open: Vec<(CallId, T, CdpError)>)
        requires
            old(self).wf(),
        ensures
            final(self).wf(),
            final(self)@ == (DispatcherView {
                closed: Some(cause@),
                ..old(self)@.resolve(old(self)@.pending.dom())
            }),
            hands_back(slots_of(open@), old(self)@.pending, old(self)@.pending.dom()),
            forall|i: int|
                0 <= i < open@.len() ==> (#[trigger] open@[i]).2@ == CdpErrorView::Transport(cause@),
    {
        let ghost before = old(self)@;
        let ghost mut done: Set<u64> = Set::empty();
        let mut open: Vec<(CallId, T, CdpError)> = Vec::new();
        let ghost mut handed: Seq<(CallId, T)> = Seq::empty();
        proof {
            assert(before.pending.remove_keys(done) =~= before.pending);
            assert(before.resolved.union(done) =~= before.resolved);
            assert(slots_of(open@) =~= handed);
        }
        while self.pending.len() > 0
            invariant
                self.wf(),
                before.accounted(),
                self@ == (DispatcherView {
                    pending: before.pending.remove_keys(done),
                    resolved: before.resolved.union(done),
                    ..before
                }),
                done.subset_of(before.pending.dom()),
                handed == slots_of(open@),
                hands_back(handed, before.pending, done),
                forall|k: int| 0 <= k < handed.len() ==> done.contains((#[trigger] handed[k]).0.0),
                forall|k: int|
                    0 <= k < open@.len() ==> (#[trigger] open@[k]).2@ == CdpErrorView::Transport(
                        cause@,
                    ),
            decreases self.pending@.len(),
        {
            let last = self.pending.len() - 1;
            let ghost current = self@;
            let entry = self.take_at(last);
            proof {
                let id = entry.id.0;
                assert(current.pending.contains_key(id));
                assert(before.pending.contains_key(id) && before.pending[id] == entry@);
                assert(!done.contains(id));
                assert(before.pending.remove_keys(done.insert(id)) =~= before.pending.remove_keys(
                    done,
                ).remove(id));
                assert(before.resolved.union(done.insert(id)) =~= before.resolved.union(
                    done,
                ).insert(id));
                let more = handed.push((entry.id, entry.sender));
                assert forall|k: int| 0 <= k < more.len() implies done.insert(id).contains(
                    (#[trigger] more[k]).0.0,
                ) && before.pending.contains_key(more[k].0.0) && more[k].1
                    == before.pending[more[k].0.0].sender by {
                    if k < handed.len() {
                        assert(more[k] == handed[k]);
                    }
                }
                assert forall|a: int, b: int| 0 <= a < b < more.len() implies (#[trigger] more[a]).0
                    != (#[trigger] more[b]).0 by {
                    assert(more[a] == handed[a]);
                    if b < handed.len() {
                        assert(more[b] == handed[b]);
                    } else {
                        assert(done.contains(handed[a].0.0));
                    }
                }
                assert forall|other: u64|
                    done.insert(id).contains(other) && before.pending.contains_key(
                        other,
                    ) implies exists|k: int|
                    0 <= k < more.len() && (#[trigger] more[k]).0.0 == other by {
                    if other == id {
                        assert(more[handed.len() as int].0.0 == id);
                    } else {
                        let k = choose|k: int|
                            0 <= k < handed.len() && (#[trigger] handed[k]).0.0 == other;
                        assert(more[k].0.0 == other);
                    }
                }
                done = done.insert(id);
                handed = more;
            }
            open.push((entry.id, entry.sender, CdpError::Transport(cause.clone())));
            assert(slots_of(open@) =~= handed);
        }
        proof {
            assert forall|id: u64| before.pending.contains_key(id) implies done.contains(id) by {
                if !done.contains(id) {
                    let at = self.lemma_table_entry(id);
                }
            }
            assert(done =~= before.pending.dom());
            assert(before.resolved.union(done) =~= before.resolved.union(
                done.intersect(before.pending.dom()),
            ));
        }
        self.closed = Some(cause);
        open
    }
}

impl<T> Default for Dispatcher<T> {
    fn default() -> (dispatcher: Self)
        ensures
            dispatcher.wf(),
            dispatcher@ == (DispatcherView::<T> {
                next_id: 0,
                pending: Map::empty(),
                resolved: Set::empty(),
                timeout: crate::handler::REQUEST_TIMEOUT,
                closed: None,
            }),
    {
        Dispatcher::new(crate::handler::REQUEST_TIMEOUT)
    }
}

impl<T> Dispatcher<T> {
    /// An id that was issued waits for its response exactly as long as no
    /// outcome was handed out for it; an id that was not issued does neither.
    pub proof fn law_pending_until_resolved(&self, id: u64)
        requires
            self.wf(),
        ensures
            id < self@.next_id ==> (self@.pending.contains_key(id) <==> !self@.resolved.contains(
                id,
            )),
            id >= self@.next_id ==> !self@.pending.contains_key(id) && !self@.resolved.contains(
                id,
            ),
    {
        assert(self@.pending.contains_key(id) <==> id < self@.next_id && !self@.resolved.contains(
            id,
        ));
    }
}

/// A request is still in time at the instant of its deadline: a sweep at that
/// instant leaves it waiting, so that a response which arrives then finds it.
pub proof fn law_in_time_at_the_deadline<T>(state: DispatcherView<T>, id: u64)
    requires
        state.pending.contains_key(id),
    ensures
        !state.expired(state.pending[id].deadline).contains(id),
        state.resolve(state.expired(state.pending[id].deadline)).pending.contains_key(id),
        state.resolve(state.expired(state.pending[id].deadline)).pending[id] == state.pending[id],
{
}

} // verus!
