//! The frames of a page and the navigations that are under way in it.

use vstd::prelude::*;
use crate::cdp::{
    EventAttachedToTarget, EventExecutionContextCreated, EventExecutionContextDestroyed,
    EventExecutionContextsCleared, EventFrameDetached, EventFrameStoppedLoading,
    EventLifecycleEvent, EventNavigatedWithinDocument, FrameId, FrameTree, LoaderId,
};
use crate::cmd::CommandChain;
use crate::error::DeadlineExceeded;
use crate::handler::model::{
    is_init_sequence, opt_chars, FrameEventView, FrameManagerView, FrameView,
    NavigationErrorView, WatcherView,
};
use crate::handler::tree::{
    ancestor, child_navigated, detached, lemma_child_deeper, lemma_detach_child,
    lemma_linked_child, lemma_linked_part, lemma_reached_by_children, lemma_subtree_by_children,
    lemma_wf_attached, lemma_wf_child_navigated, lemma_wf_detached, lemma_wf_empty,
    lemma_wf_linked, lemma_wf_main_navigated, lemma_wf_own_id, lemma_wf_ranked,
    lemma_wf_replaced, lifecycle_reached, linked, main_navigated, pruned, ranked, attached,
    without_subtree, FrameMap,
};
use crate::handler::REQUEST_TIMEOUT;
use crate::json::{
    bool_value, empty_object, get_member, has_member, is_object, json_view, set_member,
    string_value, JsonView,
};
use crate::string_map::StringMap;
use crate::string_set::StringSet;
use crate::types::Request;
use std::collections::VecDeque;

verus! {

/// A node of the frame tree.
#[derive(Debug)]
pub struct Frame {
    pub parent_frame: Option<FrameId>,
    pub id: FrameId,
    pub loader_id: Option<LoaderId>,
    pub url: Option<String>,
    pub child_frames: StringSet,
    pub name: Option<String>,
    pub lifecycle_events: StringSet,
}

impl View for Frame {
    type V = FrameView;

    open spec fn view(&self) -> FrameView {
        FrameView {
            parent_frame: opt_chars(self.parent_frame),
            id: self.id@,
            loader_id: opt_chars(self.loader_id),
            url: opt_chars(self.url),
            child_frames: self.child_frames@,
            name: opt_chars(self.name),
            lifecycle_events: self.lifecycle_events@,
        }
    }
}

/// A copy of an optional string.
fn clone_opt(text: &Option<String>) -> (copy: Option<String>)
    ensures
        opt_chars(copy) == opt_chars(*text),
{
    match text {
        Some(s) => Some(s.clone()),
        None => None,
    }
}

impl Frame {
    /// A frame without parent, children or history.
    pub fn new(id: FrameId) -> (frame: Self)
        ensures
            frame@ == FrameView::fresh(id@),
    {
        Frame {
            parent_frame: None,
            id,
            loader_id: None,
            url: None,
            child_frames: StringSet::new(),
            name: None,
            lifecycle_events: StringSet::new(),
        }
    }

    /// A new frame under `parent`, which gets it as a child.
    pub fn with_parent(id: FrameId, parent: &mut Frame) -> (frame: Self)
        ensures
            frame@ == (FrameView { parent_frame: Some(old(parent).id@), ..FrameView::fresh(id@) }),
            final(parent)@ == (FrameView {
                child_frames: old(parent)@.child_frames.insert(id@),
                ..old(parent)@
            }),
    {
        parent.child_frames.insert(id.clone());
        Frame {
            parent_frame: Some(parent.id.clone()),
            id,
            loader_id: None,
            url: None,
            child_frames: StringSet::new(),
            name: None,
            lifecycle_events: StringSet::new(),
        }
    }

    fn navigated(&mut self, frame: &crate::cdp::Frame)
        ensures
            final(self)@ == old(self)@.navigated(
                opt_chars(frame.name),
                frame.url@,
                opt_chars(frame.url_fragment),
            ),
    {
        self.name = clone_opt(&frame.name);
        let url = match &frame.url_fragment {
            Some(fragment) => frame.url.clone().concat(fragment.as_str()),
            None => frame.url.clone(),
        };
        self.url = Some(url);
    }

    fn navigated_within_url(&mut self, url: String)
        ensures
            final(self)@ == old(self)@.navigated_within(url@),
    {
        self.url = Some(url)
    }

    fn on_loading_stopped(&mut self)
        ensures
            final(self)@ == old(self)@.loading_stopped(),
    {
        self.lifecycle_events.insert("DOMContentLoaded".to_owned());
        self.lifecycle_events.insert("load".to_owned());
    }
}

impl From<crate::cdp::Frame> for Frame {
    /// The frame that the browser describes, without children and without
    /// lifecycle events.
    fn from(frame: crate::cdp::Frame) -> (made: Self)
        ensures
            made@ == FrameView::described(frame@),
    {
        Frame {
            parent_frame: frame.parent_id,
            id: frame.id,
            loader_id: Some(frame.loader_id),
            url: Some(frame.url),
            child_frames: StringSet::new(),
            name: frame.name,
            lifecycle_events: StringSet::new(),
        }
    }
}

/// A frame holds sets that no specification can build, so the conversion has
/// no value in specifications: what it gives is said by the contract of
/// `from`, over the view.
impl vstd::std_specs::convert::FromSpecImpl<crate::cdp::Frame> for Frame {
    open spec fn obeys_from_spec() -> bool {
        false
    }

    open spec fn from_spec(frame: crate::cdp::Frame) -> Self {
        arbitrary()
    }
}

/// Tells the navigations of one page apart.
#[derive(Debug, Copy, Clone, Hash, Eq, PartialEq, Structural)]
pub struct NavigationId(pub usize);

/// A navigation that came to its end.
#[derive(Debug, Clone, Copy, Eq, PartialEq, Structural)]
pub enum NavigationOk {
    SameDocumentNavigation(NavigationId),
    NewDocumentNavigation(NavigationId),
}

impl NavigationOk {
    /// The navigation that ended.
    pub fn navigation_id(&self) -> (id: &NavigationId)
        ensures
            *id == match *self {
                NavigationOk::SameDocumentNavigation(id) => id,
                NavigationOk::NewDocumentNavigation(id) => id,
            },
    {
        match self {
            NavigationOk::SameDocumentNavigation(id) => id,
            NavigationOk::NewDocumentNavigation(id) => id,
        }
    }
}

/// A navigation that failed.
#[derive(Debug)]
pub enum NavigationError {
    Timeout { id: NavigationId, err: DeadlineExceeded },
    FrameNotFound { id: NavigationId, frame: FrameId },
}

impl NavigationError {
    /// The navigation that failed.
    pub fn navigation_id(&self) -> (id: &NavigationId)
        ensures
            *id == match *self {
                NavigationError::Timeout { id, .. } => id,
                NavigationError::FrameNotFound { id, .. } => id,
            },
    {
        match self {
            NavigationError::Timeout { id, .. } => id,
            NavigationError::FrameNotFound { id, .. } => id,
        }
    }
}

impl View for NavigationError {
    type V = NavigationErrorView;

    open spec fn view(&self) -> NavigationErrorView {
        match *self {
            NavigationError::Timeout { id, err } => NavigationErrorView::Timeout { id, err },
            NavigationError::FrameNotFound { id, frame } => NavigationErrorView::FrameNotFound {
                id,
                frame: frame@,
            },
        }
    }
}

/// What the frame manager hands to its driver.
#[derive(Debug)]
pub enum FrameEvent {
    /// A navigation ended or failed.
    NavigationResult(Result<NavigationOk, NavigationError>),
    /// A navigation starts: the request is to be sent.
    NavigationRequest(NavigationId, Request),
}

impl View for FrameEvent {
    type V = FrameEventView;

    open spec fn view(&self) -> FrameEventView {
        match *self {
            FrameEvent::NavigationResult(Ok(ok)) => FrameEventView::NavigationResult(Ok(ok)),
            FrameEvent::NavigationResult(Err(err)) => FrameEventView::NavigationResult(Err(err@)),
            FrameEvent::NavigationRequest(id, req) => FrameEventView::NavigationRequest(id, req),
        }
    }
}

/// What an optional [`FrameEvent`] holds, as plain values.
pub open spec fn event_view(event: Option<FrameEvent>) -> Option<FrameEventView> {
    match event {
        Some(e) => Some(e@),
        None => None,
    }
}

/// A request to navigate, with the id under which its end is reported.
#[derive(Debug)]
pub struct FrameNavigationRequest {
    pub id: NavigationId,
    pub req: Request,
    pub timeout: u64,
}

impl FrameNavigationRequest {
    /// A navigation request with the default timeout.
    pub fn new(id: NavigationId, req: Request) -> (request: Self)
        ensures
            request.id == id,
            request.req == req,
            request.timeout == REQUEST_TIMEOUT,
    {
        FrameNavigationRequest { id, req, timeout: REQUEST_TIMEOUT }
    }

    /// Whether the parameters are an object that still lacks a `frameId`.
    pub open spec fn lacks_frame_id(&self) -> bool {
        json_view(self.req.params) is Object && !has_member(self.req.params, "frameId"@)
    }

    /// Whether `named` is this request with `frame_id` as the frame to
    /// navigate: parameters that are an object without a `frameId` have got
    /// that member, with the id as a string; any others are as they were.
    pub open spec fn names_frame(&self, named: Self, frame_id: Seq<char>) -> bool {
        &&& named.id == self.id
        &&& named.timeout == self.timeout
        &&& named.req.method == self.req.method
        &&& named.req.session_id == self.req.session_id
        &&& self.lacks_frame_id() ==> json_view(named.req.params) == JsonView::Object(
            json_view(self.req.params)->Object_0.insert("frameId"@, JsonView::String(frame_id)),
        )
        &&& !self.lacks_frame_id() ==> named.req.params == self.req.params
    }

    /// Names the frame to navigate in the parameters, unless they name one
    /// already or are no object.
    pub fn set_frame_id(&mut self, frame_id: FrameId)
        ensures
            old(self).names_frame(*final(self), frame_id@),
    {
        if is_object(&self.req.params) {
            if get_member(&self.req.params, "frameId").is_none() {
                set_member(&mut self.req.params, "frameId", string_value(frame_id));
            }
        }
    }
}

/// Follows a navigation from its request to its end.
#[derive(Debug)]
pub struct NavigationWatcher {
    id: NavigationId,
    expected_lifecycle: StringSet,
    frame_id: FrameId,
    /// The loader of the frame when the navigation was requested.
    loader_id: Option<LoaderId>,
    /// Whether the frame reported a navigation within its document.
    same_document_navigation: bool,
}

impl View for NavigationWatcher {
    type V = WatcherView;

    closed spec fn view(&self) -> WatcherView {
        WatcherView {
            id: self.id,
            expected_lifecycle: self.expected_lifecycle@,
            frame_id: self.frame_id@,
            loader_id: opt_chars(self.loader_id),
            same_document_navigation: self.same_document_navigation,
        }
    }
}

impl NavigationWatcher {
    /// A watcher that waits for `frame` to reach `load`, from loader `loader_id`.
    pub fn until_page_load(id: NavigationId, frame: FrameId, loader_id: Option<LoaderId>) -> (watcher:
        Self)
        ensures
            watcher@ == (WatcherView {
                id,
                expected_lifecycle: set!["load"@],
                frame_id: frame@,
                loader_id: opt_chars(loader_id),
                same_document_navigation: false,
            }),
    {
        let mut expected_lifecycle = StringSet::new();
        expected_lifecycle.insert("load".to_owned());
        assert(expected_lifecycle@ =~= set!["load"@]);
        NavigationWatcher {
            id,
            expected_lifecycle,
            loader_id,
            frame_id: frame,
            same_document_navigation: false,
        }
    }

    /// Whether the watcher waits for no lifecycle event at all.
    pub fn is_lifecycle_complete(&self) -> (complete: bool)
        ensures
            complete == (self@.expected_lifecycle == Set::<Seq<char>>::empty()),
    {
        self.expected_lifecycle.is_empty()
    }

    fn on_frame_navigated_within_document(&mut self, frame_id: &FrameId)
        ensures
            final(self)@ == old(self)@.navigated_within_document(frame_id@),
    {
        if self.frame_id == *frame_id {
            self.same_document_navigation = true;
        }
    }
}

/// The frames of a stored map as plain values.
spec fn frame_views(frames: Map<Seq<char>, Frame>) -> FrameMap {
    frames.map_values(|f: Frame| f@)
}

proof fn lemma_views_insert(frames: Map<Seq<char>, Frame>, key: Seq<char>, frame: Frame)
    ensures
        frame_views(frames.insert(key, frame)) == frame_views(frames).insert(key, frame@),
{
    assert(frame_views(frames.insert(key, frame)) =~= frame_views(frames).insert(key, frame@));
}

proof fn lemma_views_remove(frames: Map<Seq<char>, Frame>, key: Seq<char>)
    ensures
        frame_views(frames.remove(key)) == frame_views(frames).remove(key),
{
    assert(frame_views(frames.remove(key)) =~= frame_views(frames).remove(key));
}

/// The children among the first `count` of `order`.
spec fn first_of(order: Seq<Seq<char>>, count: int) -> Set<Seq<char>> {
    Set::new(|c: Seq<char>| exists|j: int| 0 <= j < count && j < order.len() && order[j] == c)
}

/// Whether two optional strings have the same characters, or are both absent.
fn same_text(left: &Option<String>, right: &Option<String>) -> (same: bool)
    ensures
        same == (opt_chars(*left) == opt_chars(*right)),
{
    match (left, right) {
        (Some(l), Some(r)) => *l == *r,
        (None, None) => true,
        _ => false,
    }
}

/// Keeps the frame tree of a page up to date from the events of the browser,
/// and tells when a navigation has come to its end.
#[derive(Debug)]
pub struct FrameManager {
    main_frame: Option<FrameId>,
    frames: StringMap<Frame>,
    /// The navigations that wait for their turn.
    pending_navigations: VecDeque<(FrameNavigationRequest, NavigationWatcher)>,
    /// The navigation under way, with its deadline.
    navigation: Option<(NavigationWatcher, u64)>,
}

impl View for FrameManager {
    type V = FrameManagerView;

    closed spec fn view(&self) -> FrameManagerView {
        FrameManagerView {
            main_frame: opt_chars(self.main_frame),
            frames: frame_views(self.frames@),
            pending_navigations: self.pending_navigations@.map_values(
                |p: (FrameNavigationRequest, NavigationWatcher)| (p.0, p.1@),
            ),
            navigation: match self.navigation {
                Some((watcher, deadline)) => Some((watcher@, deadline)),
                None => None,
            },
        }
    }
}

impl FrameManager {
    /// The frames form one tree under the main frame.
    pub open spec fn wf(&self) -> bool {
        self@.wf()
    }

    /// The commands to issue, in this order, before the frame manager can
    /// follow a page.
    pub fn init_commands() -> (chain: CommandChain)
        ensures
            is_init_sequence(chain@.queue),
            chain@.in_flight is None,
            chain@.timeout == REQUEST_TIMEOUT,
    {
        let enable = empty_object();
        let get_tree = empty_object();
        let mut set_lifecycle = empty_object();
        set_member(&mut set_lifecycle, "enabled", bool_value(true));
        let enable_runtime = empty_object();
        let mut cmds: Vec<(String, serde_json::Value)> = Vec::new();
        cmds.push(("Page.enable".to_owned(), enable));
        cmds.push(("Page.getFrameTree".to_owned(), get_tree));
        cmds.push(("Page.setLifecycleEventsEnabled".to_owned(), set_lifecycle));
        cmds.push(("Runtime.enable".to_owned(), enable_runtime));
        CommandChain::new(cmds)
    }

    /// The main frame, if there is one and it is still in the tree.
    pub fn main_frame(&self) -> (frame: Option<&Frame>)
        ensures
            match frame {
                Some(f) => self@.main_frame matches Some(id) && self@.frames.contains_key(id)
                    && f@ == self@.frames[id],
                None => !(self@.main_frame matches Some(id) && self@.frames.contains_key(id)),
            },
    {
        match &self.main_frame {
            Some(id) => self.frames.get(id.as_str()),
            None => None,
        }
    }

    /// All frames, each once, in no particular order.
    pub fn frames(&self) -> (all: Vec<&Frame>)
        requires
            self.wf(),
        ensures
            all@.len() == self@.frames.dom().len(),
            forall|i: int|
                0 <= i < all@.len() ==> self@.frames.contains_key(#[trigger] all@[i]@.id)
                    && all@[i]@ == self@.frames[all@[i]@.id],
            forall|i: int, j: int|
                0 <= i < j < all@.len() ==> #[trigger] all@[i]@.id != #[trigger] all@[j]@.id,
    {
        let count = self.frames.len();
        let ghost order = self.frames.key_order();
        assert(self@.frames.dom() =~= self.frames@.dom());
        let mut all: Vec<&Frame> = Vec::new();
        let mut i: usize = 0;
        while i < count
            invariant
                i <= count,
                count == order.len(),
                order == self.frames.key_order(),
                order.no_duplicates(),
                order.to_set() == self.frames@.dom(),
                self.wf(),
                all@.len() == i,
                forall|j: int|
                    0 <= j < i ==> (#[trigger] all@[j])@.id == order[j] && self@.frames.contains_key(
                        order[j],
                    ) && all@[j]@ == self@.frames[order[j]],
            decreases count - i,
        {
            let frame = self.frames.value_at(i).unwrap();
            proof {
                assert(order.to_set().contains(order[i as int])) by {
                    assert(order.contains(order[i as int]));
                }
                assert(self.frames@.dom().contains(order[i as int]));
                lemma_wf_own_id(self@.main_frame, self@.frames, order[i as int]);
            }
            all.push(frame);
            i += 1;
        }
        all
    }

    /// The frame with the given id, if it is in the tree.
    pub fn frame(&self, id: &FrameId) -> (frame: Option<&Frame>)
        ensures
            match frame {
                Some(f) => self@.frames.contains_key(id@) && f@ == self@.frames[id@],
                None => !self@.frames.contains_key(id@),
            },
    {
        self.frames.get(id.as_str())
    }

    /// Whether `frame` and all its descendants have reached the lifecycle
    /// events that `watcher` waits for.
    fn check_lifecycle(
        &self,
        watcher: &NavigationWatcher,
        frame: &Frame,
        Ghost(depth): Ghost<spec_fn(Seq<char>) -> nat>,
        Ghost(bound): Ghost<nat>,
    ) -> (reached: bool)
        requires
            self.wf(),
            ranked(self@.main_frame, self@.frames, depth, bound),
            self@.frames.contains_key(frame.id@),
            self@.frames[frame.id@] == frame@,
        ensures
            reached == lifecycle_reached(self@.frames, frame.id@, watcher@.expected_lifecycle),
        decreases bound - depth(frame.id@),
    {
        let ghost frames = self@.frames;
        let ghost expected = watcher@.expected_lifecycle;
        let ghost here = expected.subset_of(frame@.lifecycle_events);
        let ghost below = forall|c: Seq<char>| #[trigger]
            frame@.child_frames.contains(c) ==> lifecycle_reached(frames, c, expected);
        proof {
            lemma_reached_by_children(self@.main_frame, frames, frame.id@, expected);
        }
        let ghost whole = lifecycle_reached(frames, frame.id@, expected);
        assert(whole == (here && below));
        let events = watcher.expected_lifecycle.len();
        let ghost awaited = watcher.expected_lifecycle.elements();
        let mut i: usize = 0;
        while i < events
            invariant
                i <= events,
                events == awaited.len(),
                awaited == watcher.expected_lifecycle.elements(),
                awaited.to_set() == expected,
                here == expected.subset_of(frame@.lifecycle_events),
                whole == (here && below),
                whole == lifecycle_reached(self@.frames, frame.id@, watcher@.expected_lifecycle),
                forall|j: int| 0 <= j < i ==> frame@.lifecycle_events.contains(awaited[j]),
            decreases events - i,
        {
            let event = watcher.expected_lifecycle.get_at(i).unwrap();
            if !frame.lifecycle_events.contains(event.as_str()) {
                assert(awaited.to_set().contains(awaited[i as int]));
                assert(!here);
                return false;
            }
            i += 1;
        }
        assert(here) by {
            assert forall|e: Seq<char>| expected.contains(e) implies frame@.lifecycle_events.contains(
                e,
            ) by {
                assert(awaited.to_set().contains(e));
            }
        }
        let children = frame.child_frames.len();
        let ghost order = frame.child_frames.elements();
        let mut i: usize = 0;
        while i < children
            invariant
                i <= children,
                children == order.len(),
                order == frame.child_frames.elements(),
                order.to_set() == frame@.child_frames,
                self.wf(),
                ranked(self@.main_frame, self@.frames, depth, bound),
                frames == self@.frames,
                frames.contains_key(frame.id@),
                frames[frame.id@] == frame@,
                expected == watcher@.expected_lifecycle,
                here,
                below == (forall|c: Seq<char>| #[trigger]
                    frame@.child_frames.contains(c) ==> lifecycle_reached(frames, c, expected)),
                whole == (here && below),
                whole == lifecycle_reached(self@.frames, frame.id@, watcher@.expected_lifecycle),
                forall|j: int| 0 <= j < i ==> lifecycle_reached(frames, order[j], expected),
            decreases children - i,
        {
            let child_id = frame.child_frames.get_at(i).unwrap();
            proof {
                assert(order.to_set().contains(order[i as int]));
                assert(frame@.child_frames.contains(child_id@));
                lemma_child_deeper(self@.main_frame, frames, depth, bound, frame.id@, child_id@);
            }
            if let Some(child) = self.frames.get(child_id.as_str()) {
                if !self.check_lifecycle(watcher, child, Ghost(depth), Ghost(bound)) {
                    assert(!below);
                    return false;
                }
            }
            i += 1;
        }
        assert(below) by {
            assert forall|c: Seq<char>| #[trigger]
                frame@.child_frames.contains(c) implies lifecycle_reached(frames, c, expected) by {
                assert(order.to_set().contains(c));
            }
        }
        true
    }

    /// How the navigation that `watcher` follows ended, if it has.
    fn check_lifecycle_complete(&self, watcher: &NavigationWatcher, frame: &Frame) -> (outcome:
        Option<NavigationOk>)
        requires
            self.wf(),
            watcher@.frame_id == frame.id@,
            self@.frames.contains_key(frame.id@),
            self@.frames[frame.id@] == frame@,
        ensures
            outcome == watcher@.outcome(self@.frames),
    {
        let ghost rank = lemma_wf_ranked(self@.main_frame, self@.frames);
        if !self.check_lifecycle(watcher, frame, Ghost(rank.0), Ghost(rank.1)) {
            return None;
        }
        let same_loader = same_text(&frame.loader_id, &watcher.loader_id);
        if same_loader && !watcher.same_document_navigation {
            return None;
        }
        if watcher.same_document_navigation {
            return Some(NavigationOk::SameDocumentNavigation(watcher.id));
        }
        if !same_loader {
            return Some(NavigationOk::NewDocumentNavigation(watcher.id));
        }
        None
    }

    /// Drives the navigations: starts the oldest waiting one when none is
    /// under way, and else tells whether the one under way has ended, has
    /// lost its frame, or has passed its deadline. A navigation that starts
    /// gets its deadline a timeout from `now`, which must be an instant that
    /// the clock can show.
    pub fn poll(&mut self, now: u64) -> (event: Option<FrameEvent>)
        requires
            old(self).wf(),
            now + REQUEST_TIMEOUT <= u64::MAX,
        ensures
            final(self).wf(),
            (final(self)@, event_view(event)) == old(self)@.polled(now),
    {
        let ghost before = old(self)@;
        if let Some((watcher, deadline)) = self.navigation.take() {
            if now > deadline {
                return Some(
                    FrameEvent::NavigationResult(
                        Err(
                            NavigationError::Timeout {
                                err: DeadlineExceeded::new(now, deadline),
                                id: watcher.id,
                            },
                        ),
                    ),
                );
            }
            if let Some(frame) = self.frames.get(watcher.frame_id.as_str()) {
                proof {
                    lemma_wf_own_id(before.main_frame, before.frames, watcher@.frame_id);
                }
                if let Some(nav) = self.check_lifecycle_complete(&watcher, frame) {
                    return Some(FrameEvent::NavigationResult(Ok(nav)));
                } else {
                    self.navigation = Some((watcher, deadline));
                }
            } else {
                return Some(
                    FrameEvent::NavigationResult(
                        Err(NavigationError::FrameNotFound { frame: watcher.frame_id, id: watcher.id }),
                    ),
                );
            }
        } else {
            if let Some((req, watcher)) = self.pending_navigations.pop_front() {
                let deadline = now + REQUEST_TIMEOUT;
                self.navigation = Some((watcher, deadline));
                proof {
                    assert(self@.pending_navigations =~= before.pending_navigations.drop_first());
                }
                return Some(FrameEvent::NavigationRequest(req.id, req.req));
            }
        }
        None
    }

    /// Asks for a navigation of the main frame. Without a main frame the
    /// request is dropped.
    pub fn goto(&mut self, req: FrameNavigationRequest)
        ensures
            match old(self)@.main_frame {
                Some(id) => old(self)@.queued(final(self)@, req, id),
                None => final(self)@ == old(self)@,
            },
            old(self).wf() ==> final(self).wf(),
    {
        if let Some(frame_id) = clone_opt(&self.main_frame) {
            self.navigate_frame(frame_id, req);
        }
    }

    /// Asks for a navigation of the given frame: the request waits for its
    /// turn, with a watcher that remembers the loader that the frame has now.
    pub fn navigate_frame(&mut self, frame_id: FrameId, req: FrameNavigationRequest)
        ensures
            old(self)@.queued(final(self)@, req, frame_id@),
            old(self).wf() ==> final(self).wf(),
    {
        let ghost before = old(self)@;
        let mut req = req;
        let loader_id = match self.frames.get(frame_id.as_str()) {
            Some(f) => clone_opt(&f.loader_id),
            None => None,
        };
        let watcher = NavigationWatcher::until_page_load(req.id, frame_id.clone(), loader_id);
        req.set_frame_id(frame_id);
        self.pending_navigations.push_back((req, watcher));
        proof {
            assert(self@.pending_navigations.drop_last() =~= before.pending_navigations);
        }
    }

    /// A frame moved to another session. Nothing is kept of it.
    pub fn on_attached_to_target(&mut self, _event: &EventAttachedToTarget)
        ensures
            *final(self) == *old(self),
    {
    }

    /// A snapshot of the frame tree: its frame is attached and navigated, then
    /// the snapshots nested in it are taken in, in their order.
    pub fn on_frame_tree(&mut self, frame_tree: FrameTree)
        requires
            old(self).wf(),
        ensures
            final(self).wf(),
            final(self)@ == old(self)@.frame_tree(frame_tree),
        decreases frame_tree,
    {
        let ghost start = old(self)@;
        self.on_frame_attached(
            frame_tree.frame.id.clone(),
            clone_opt(&frame_tree.frame.parent_id),
        );
        self.on_frame_navigated(frame_tree.frame);
        let ghost here = self@;
        if let Some(children) = frame_tree.child_frames {
            let ghost trees = children;
            for child_tree in it: children.into_iter()
                invariant
                    self.wf(),
                    it.seq() == trees@,
                    self@ == here.frame_trees(trees, it.index() as nat),
                    decreases_to!(frame_tree => trees),
            {
                self.on_frame_tree(child_tree);
            }
        }
    }

    /// A frame was attached under a parent. Nothing happens when the frame is
    /// known already, or when the parent is not.
    pub fn on_frame_attached(&mut self, frame_id: FrameId, parent_frame_id: Option<FrameId>)
        requires
            old(self).wf(),
        ensures
            final(self).wf(),
            final(self)@ == old(self)@.frame_attached(frame_id@, opt_chars(parent_frame_id)),
    {
        proof {
            lemma_wf_attached(old(self)@.main_frame, old(self)@.frames, frame_id@, opt_chars(parent_frame_id));
        }
        if self.frames.contains_key(frame_id.as_str()) {
            return ;
        }
        if let Some(parent_frame_id) = parent_frame_id {
            let ghost stored = self.frames@;
            if let Some(mut parent_frame) = self.frames.remove(parent_frame_id.as_str()) {
                let frame = Frame::with_parent(frame_id.clone(), &mut parent_frame);
                proof {
                    lemma_wf_own_id(old(self)@.main_frame, old(self)@.frames, parent_frame_id@);
                    lemma_views_remove(stored, parent_frame_id@);
                    lemma_views_insert(stored.remove(parent_frame_id@), parent_frame_id@, parent_frame);
                    lemma_views_insert(
                        stored.remove(parent_frame_id@).insert(parent_frame_id@, parent_frame),
                        frame_id@,
                        frame,
                    );
                }
                self.frames.insert(parent_frame_id, parent_frame);
                self.frames.insert(frame_id, frame);
                assert(self@.frames =~= attached(
                    old(self)@.frames,
                    frame_id@,
                    Some(parent_frame_id@),
                ));
            } else {
                assert(stored.remove(parent_frame_id@) =~= stored);
            }
        }
    }

    /// A frame was detached: it goes with all its descendants.
    pub fn on_frame_detached(&mut self, event: &EventFrameDetached)
        requires
            old(self).wf(),
        ensures
            final(self).wf(),
            final(self)@ == old(self)@.frame_detached(event.frame_id@),
    {
        proof {
            lemma_wf_linked(self@.main_frame, self@.frames);
            lemma_wf_detached(self@.main_frame, self@.frames, event.frame_id@);
        }
        self.remove_frames_recursively(&event.frame_id);
    }

    /// A frame navigated to a new document.
    ///
    /// A frame with a parent is updated if it is known: its descendants go,
    /// and it shows the new name and url. A frame without parent becomes the
    /// main frame: the main frame that was there goes on under the new id and
    /// loader, without its descendants; if none was there a new frame is made.
    pub fn on_frame_navigated(&mut self, frame: crate::cdp::Frame)
        requires
            old(self).wf(),
        ensures
            final(self).wf(),
            final(self)@ == old(self)@.frame_navigated(frame@),
    {
        if frame.parent_id.is_some() {
            self.on_child_frame_navigated(frame);
        } else {
            proof {
                lemma_wf_main_navigated(self@.main_frame, self@.frames, frame@);
            }
            let mut f = self.take_main_frame(&frame);
            f.navigated(&frame);
            proof {
                lemma_views_insert(self.frames@, f.id@, f);
            }
            self.main_frame = Some(f.id.clone());
            self.frames.insert(f.id.clone(), f);
        }
    }

    /// The navigation of a frame with a parent.
    fn on_child_frame_navigated(&mut self, frame: crate::cdp::Frame)
        requires
            old(self).wf(),
        ensures
            final(self).wf(),
            final(self)@ == (FrameManagerView {
                frames: child_navigated(old(self)@.frames, frame@),
                ..old(self)@
            }),
    {
        let ghost before = old(self)@;
        let ghost stored = self.frames@;
        proof {
            lemma_wf_linked(before.main_frame, before.frames);
            lemma_wf_child_navigated(before.main_frame, before.frames, frame@);
        }
        if let Some(mut f) = self.frames.remove(frame.id.as_str()) {
            proof {
                lemma_views_remove(stored, frame.id@);
                lemma_wf_own_id(before.main_frame, before.frames, frame.id@);
                assert(before.frames.remove(frame.id@).insert(frame.id@, f@) =~= before.frames);
            }
            self.detach_children(&f);
            f.child_frames.clear();
            f.navigated(&frame);
            proof {
                lemma_views_insert(self.frames@, frame.id@, f);
                assert(ancestor(before.frames, frame.id@, 0) == Some(frame.id@));
                assert(without_subtree(before.frames, frame.id@).insert(frame.id@, f@)
                    =~= child_navigated(before.frames, frame@));
            }
            self.frames.insert(frame.id, f);
        } else {
            assert(stored.remove(frame.id@) =~= stored);
        }
    }

    /// Takes the main frame out of the map, without its descendants and under
    /// the id and loader of `frame`; makes a new frame if there is none.
    fn take_main_frame(&mut self, frame: &crate::cdp::Frame) -> (root: Frame)
        requires
            old(self).wf(),
        ensures
            root@.id == frame.id@,
            final(self)@.main_frame is None,
            final(self)@.pending_navigations == old(self)@.pending_navigations,
            final(self)@.navigation == old(self)@.navigation,
            final(self)@.frames.insert(
                frame.id@,
                root@.navigated(frame@.name, frame@.url, frame@.url_fragment),
            ) == main_navigated(old(self)@.main_frame, old(self)@.frames, frame@),
    {
        let ghost before = old(self)@;
        let ghost stored = self.frames@;
        proof {
            lemma_wf_linked(before.main_frame, before.frames);
        }
        if let Some(main) = self.main_frame.take() {
            match self.frames.remove(main.as_str()) {
                Some(mut main_frame) => {
                    proof {
                        lemma_views_remove(stored, main@);
                        lemma_wf_own_id(before.main_frame, before.frames, main@);
                        assert(before.frames.remove(main@).insert(main@, main_frame@)
                            =~= before.frames);
                    }
                    self.detach_children(&main_frame);
                    main_frame.child_frames.clear();
                    main_frame.id = frame.id.clone();
                    main_frame.loader_id = Some(frame.loader_id.clone());
                    main_frame
                },
                None => {
                    assert(stored.remove(main@) =~= stored);
                    Frame::new(frame.id.clone())
                },
            }
        } else {
            Frame::new(frame.id.clone())
        }
    }

    /// A frame showed another url without loading a new document.
    pub fn on_frame_navigated_within_document(&mut self, event: &EventNavigatedWithinDocument)
        requires
            old(self).wf(),
        ensures
            final(self).wf(),
            final(self)@ == old(self)@.navigated_within_document(event.frame_id@, event.url@),
    {
        let ghost before = *self;
        let ghost stored = self.frames@;
        if let Some(mut frame) = self.frames.remove(event.frame_id.as_str()) {
            frame.navigated_within_url(event.url.clone());
            proof {
                lemma_views_remove(stored, event.frame_id@);
                lemma_wf_own_id(before@.main_frame, before@.frames, event.frame_id@);
            }
            self.put_back(frame, Ghost(before));
        } else {
            assert(stored.remove(event.frame_id@) =~= stored);
        }
        if let Some((mut watcher, deadline)) = self.navigation.take() {
            watcher.on_frame_navigated_within_document(&event.frame_id);
            self.navigation = Some((watcher, deadline));
        }
    }

    /// A frame stopped loading: it has reached `DOMContentLoaded` and `load`.
    pub fn on_frame_stopped_loading(&mut self, event: &EventFrameStoppedLoading)
        requires
            old(self).wf(),
        ensures
            final(self).wf(),
            final(self)@ == old(self)@.stopped_loading(event.frame_id@),
    {
        let ghost before = *self;
        let ghost stored = self.frames@;
        if let Some(mut frame) = self.frames.remove(event.frame_id.as_str()) {
            frame.on_loading_stopped();
            proof {
                lemma_views_remove(stored, event.frame_id@);
                lemma_wf_own_id(before@.main_frame, before@.frames, event.frame_id@);
            }
            self.put_back(frame, Ghost(before));
        } else {
            assert(stored.remove(event.frame_id@) =~= stored);
        }
    }

    /// An execution context was created in a frame. Nothing is kept of it.
    pub fn on_frame_execution_context_created(&mut self, _event: &EventExecutionContextCreated)
        ensures
            *final(self) == *old(self),
    {
    }

    /// An execution context was destroyed. Nothing is kept of it.
    pub fn on_frame_execution_context_destroyed(
        &mut self,
        _event: &EventExecutionContextDestroyed,
    )
        ensures
            *final(self) == *old(self),
    {
    }

    /// The execution contexts were cleared. Nothing is kept of it.
    pub fn on_execution_context_cleared(&mut self, _event: &EventExecutionContextsCleared)
        ensures
            *final(self) == *old(self),
    {
    }

    /// A frame reached a milestone of a load. With `init` a new load starts:
    /// the frame takes its loader and forgets the milestones of the last load.
    pub fn on_page_lifecycle_event(&mut self, event: &EventLifecycleEvent)
        requires
            old(self).wf(),
        ensures
            final(self).wf(),
            final(self)@ == old(self)@.lifecycle_event(
                event.frame_id@,
                event.loader_id@,
                event.name@,
            ),
    {
        let ghost before = *self;
        let ghost stored = self.frames@;
        if let Some(mut frame) = self.frames.remove(event.frame_id.as_str()) {
            let init = "init".to_owned();
            if event.name == init {
                frame.loader_id = Some(event.loader_id.clone());
                frame.lifecycle_events.clear();
            }
            frame.lifecycle_events.insert(event.name.clone());
            proof {
                lemma_views_remove(stored, event.frame_id@);
                lemma_wf_own_id(before@.main_frame, before@.frames, event.frame_id@);
            }
            self.put_back(frame, Ghost(before));
        } else {
            assert(stored.remove(event.frame_id@) =~= stored);
        }
    }

    /// Puts `frame` back under its id after a change that left its id, its
    /// parent and its children alone.
    fn put_back(&mut self, frame: Frame, Ghost(before): Ghost<FrameManager>)
        requires
            before.wf(),
            before@.frames.contains_key(frame.id@),
            frame@.parent_frame == before@.frames[frame.id@].parent_frame,
            frame@.child_frames == before@.frames[frame.id@].child_frames,
            old(self)@ == (FrameManagerView {
                frames: before@.frames.remove(frame.id@),
                ..before@
            }),
        ensures
            final(self).wf(),
            final(self)@ == before@.with_frame(frame.id@, frame@),
    {
        let ghost stored = self.frames@;
        let key = frame.id.clone();
        proof {
            lemma_views_insert(stored, key@, frame);
            lemma_wf_replaced(before@.main_frame, before@.frames, frame@);
            assert(before@.frames.remove(frame.id@).insert(frame.id@, frame@)
                =~= before@.frames.insert(frame.id@, frame@));
        }
        self.frames.insert(key, frame);
    }

    /// Detaches the children of `frame`, which is no longer in the map itself,
    /// with all their descendants.
    fn detach_children(&mut self, frame: &Frame)
        requires
            !old(self)@.frames.contains_key(frame.id@),
            linked(old(self)@.frames.insert(frame.id@, frame@)),
        ensures
            final(self)@ == (FrameManagerView {
                frames: without_subtree(
                    old(self)@.frames.insert(frame.id@, frame@),
                    frame.id@,
                ),
                ..old(self)@
            }),
            final(self).frames.key_order().len() <= old(self).frames.key_order().len(),
        decreases old(self).frames.key_order().len(), 1nat,
    {
        let ghost rest = old(self)@.frames;
        let ghost before = rest.insert(frame.id@, frame@);
        let ghost order = frame.child_frames.elements();
        proof {
            assert(before.remove(frame.id@) =~= rest);
            assert(first_of(order, 0) =~= Set::<Seq<char>>::empty());
            assert(pruned(rest, first_of(order, 0)) =~= rest);
        }
        let count = frame.child_frames.len();
        let mut i: usize = 0;
        while i < count
            invariant
                i <= count,
                count == order.len(),
                order == frame.child_frames.elements(),
                order.to_set() == frame.child_frames@,
                linked(before),
                before == rest.insert(frame.id@, frame@),
                rest == before.remove(frame.id@),
                self@ == (FrameManagerView {
                    frames: pruned(rest, first_of(order, i as int)),
                    ..old(self)@
                }),
                self.frames.key_order().len() <= old(self).frames.key_order().len(),
            decreases count - i,
        {
            let child = frame.child_frames.get_at(i).unwrap();
            proof {
                let roots = first_of(order, i as int);
                assert(order.to_set().contains(order[i as int]));
                assert(roots.subset_of(before[frame.id@].child_frames)) by {
                    assert forall|c: Seq<char>| roots.contains(c) implies order.to_set().contains(
                        c,
                    ) by {}
                }
                lemma_detach_child(before, frame.id@, roots, child@);
                assert(first_of(order, i + 1) =~= roots.insert(child@));
                lemma_linked_part(rest, before);
                lemma_linked_part(pruned(rest, roots), rest);
            }
            self.remove_frames_recursively(child);
            i += 1;
        }
        proof {
            assert(first_of(order, count as int) =~= order.to_set());
            lemma_subtree_by_children(before, frame.id@);
        }
    }

    /// Detaches frame `id` with all its descendants and hands it back.
    fn remove_frames_recursively(&mut self, id: &FrameId) -> (removed: Option<Frame>)
        requires
            linked(old(self)@.frames),
        ensures
            final(self)@ == (FrameManagerView {
                frames: detached(old(self)@.frames, id@),
                ..old(self)@
            }),
            match removed {
                Some(frame) => old(self)@.frames.contains_key(id@) && frame@ == (FrameView {
                    parent_frame: None,
                    ..old(self)@.frames[id@]
                }),
                None => !old(self)@.frames.contains_key(id@),
            },
            final(self).frames.key_order().len() <= old(self).frames.key_order().len(),
        decreases old(self).frames.key_order().len(), 0nat,
    {
        let ghost before = old(self)@.frames;
        let ghost stored = self.frames@;
        if let Some(mut frame) = self.frames.remove(id.as_str()) {
            proof {
                lemma_views_remove(stored, id@);
                lemma_linked_child(before, id@, id@);
                assert(before.remove(id@).insert(id@, frame@) =~= before);
            }
            self.detach_children(&frame);
            let ghost pruned_map = self.frames@;
            let parent_frame = frame.parent_frame.take();
            if let Some(parent_id) = parent_frame {
                if let Some(mut parent) = self.frames.remove(parent_id.as_str()) {
                    parent.child_frames.remove(frame.id.as_str());
                    self.frames.insert(parent_id, parent);
                    proof {
                        lemma_views_remove(pruned_map, parent_id@);
                        lemma_views_insert(pruned_map.remove(parent_id@), parent_id@, parent);
                        assert(self@.frames =~= detached(before, id@));
                    }
                } else {
                    proof {
                        assert(pruned_map.remove(parent_id@) =~= pruned_map);
                        assert(self@.frames == detached(before, id@));
                    }
                }
            } else {
                assert(self@.frames == detached(before, id@));
            }
            Some(frame)
        } else {
            proof {
                assert(stored.remove(id@) =~= stored);
            }
            None
        }
    }
}

impl Default for FrameManager {
    fn default() -> (manager: Self)
        ensures
            manager@ == FrameManagerView::empty(),
            manager.wf(),
    {
        let manager = FrameManager {
            main_frame: None,
            frames: StringMap::new(),
            pending_navigations: VecDeque::new(),
            navigation: None,
        };
        proof {
            assert(manager@.frames =~= Map::<Seq<char>, FrameView>::empty());
            assert(manager@.pending_navigations =~= Seq::empty());
            lemma_wf_empty(None);
        }
        manager
    }
}

} // verus!
