//! What the frame manager holds, as plain values, and what each report of
//! the browser and each poll makes of it.

use vstd::prelude::*;
use crate::cdp::{FrameInfo, FrameTree};
use crate::error::DeadlineExceeded;
use crate::handler::frame::{FrameNavigationRequest, NavigationId, NavigationOk};
use crate::handler::tree::{
    attached, child_navigated, detached, lifecycle_reached, main_navigated, tree_wf, FrameMap,
};
use crate::handler::REQUEST_TIMEOUT;
use crate::json::{json_view, JsonView};
use crate::types::Request;

verus! {

/// The characters of an optional string.
pub open spec fn opt_chars(text: Option<String>) -> Option<Seq<char>> {
    match text {
        Some(s) => Some(s@),
        None => None,
    }
}

/// What a [`Frame`] holds, as plain values.
pub ghost struct FrameView {
    pub parent_frame: Option<Seq<char>>,
    pub id: Seq<char>,
    pub loader_id: Option<Seq<char>>,
    pub url: Option<Seq<char>>,
    pub child_frames: Set<Seq<char>>,
    pub name: Option<Seq<char>>,
    pub lifecycle_events: Set<Seq<char>>,
}

impl FrameView {
    /// A frame that has nothing but its id.
    pub open spec fn fresh(id: Seq<char>) -> FrameView {
        FrameView {
            parent_frame: None,
            id,
            loader_id: None,
            url: None,
            child_frames: Set::empty(),
            name: None,
            lifecycle_events: Set::empty(),
        }
    }

    /// The frame that the description `info` of the browser stands for, before
    /// anything is known of its children and its lifecycle.
    pub open spec fn described(info: FrameInfo) -> FrameView {
        FrameView {
            parent_frame: info.parent_id,
            id: info.id,
            loader_id: Some(info.loader_id),
            url: Some(info.url),
            child_frames: Set::empty(),
            name: info.name,
            lifecycle_events: Set::empty(),
        }
    }

    /// The url that a frame shows after a navigation to `url` with `fragment`.
    pub open spec fn full_url(url: Seq<char>, fragment: Option<Seq<char>>) -> Seq<char> {
        match fragment {
            Some(f) => url + f,
            None => url,
        }
    }

    /// The frame after a navigation that the browser reports with `name`,
    /// `url` and `fragment`.
    pub open spec fn navigated(
        self,
        name: Option<Seq<char>>,
        url: Seq<char>,
        fragment: Option<Seq<char>>,
    ) -> FrameView {
        FrameView { name, url: Some(Self::full_url(url, fragment)), ..self }
    }

    /// The frame after it showed `url` without loading a new document.
    pub open spec fn navigated_within(self, url: Seq<char>) -> FrameView {
        FrameView { url: Some(url), ..self }
    }

    /// The frame after the lifecycle event `name` of the load `loader_id`: an
    /// `init` starts a new load, which forgets the events of the last one.
    pub open spec fn lifecycle_event(self, loader_id: Seq<char>, name: Seq<char>) -> FrameView {
        if name == "init"@ {
            FrameView {
                loader_id: Some(loader_id),
                lifecycle_events: Set::<Seq<char>>::empty().insert(name),
                ..self
            }
        } else {
            FrameView { lifecycle_events: self.lifecycle_events.insert(name), ..self }
        }
    }

    /// The frame after it stopped loading.
    pub open spec fn loading_stopped(self) -> FrameView {
        FrameView {
            lifecycle_events: self.lifecycle_events.insert("DOMContentLoaded"@).insert("load"@),
            ..self
        }
    }
}

/// What a [`NavigationWatcher`] holds, as plain values.
pub ghost struct WatcherView {
    pub id: NavigationId,
    pub expected_lifecycle: Set<Seq<char>>,
    pub frame_id: Seq<char>,
    pub loader_id: Option<Seq<char>>,
    pub same_document_navigation: bool,
}

impl WatcherView {
    /// How the navigation ended, if it has, given the frames as they are:
    /// once the frame and all its descendants have reached the awaited
    /// lifecycle events, a navigation within the document has ended, and so
    /// has a navigation that changed the loader of the frame.
    pub open spec fn outcome(self, frames: FrameMap) -> Option<NavigationOk> {
        if !lifecycle_reached(frames, self.frame_id, self.expected_lifecycle) {
            None
        } else if self.same_document_navigation {
            Some(NavigationOk::SameDocumentNavigation(self.id))
        } else if frames[self.frame_id].loader_id != self.loader_id {
            Some(NavigationOk::NewDocumentNavigation(self.id))
        } else {
            None
        }
    }

    /// The watcher after frame `frame_id` navigated within its document.
    pub open spec fn navigated_within_document(self, frame_id: Seq<char>) -> WatcherView {
        if self.frame_id == frame_id {
            WatcherView { same_document_navigation: true, ..self }
        } else {
            self
        }
    }
}

/// What a [`NavigationError`] holds, as plain values.
pub ghost enum NavigationErrorView {
    Timeout { id: NavigationId, err: DeadlineExceeded },
    FrameNotFound { id: NavigationId, frame: Seq<char> },
}

/// What a [`FrameEvent`] holds, as plain values.
pub ghost enum FrameEventView {
    NavigationResult(Result<NavigationOk, NavigationErrorView>),
    NavigationRequest(NavigationId, Request),
}

/// What a [`FrameManager`] holds, as plain values.
pub ghost struct FrameManagerView {
    pub main_frame: Option<Seq<char>>,
    pub frames: FrameMap,
    /// The navigations that wait for their turn, oldest first.
    pub pending_navigations: Seq<(FrameNavigationRequest, WatcherView)>,
    /// The navigation under way, with its deadline.
    pub navigation: Option<(WatcherView, u64)>,
}

impl FrameManagerView {
    /// The frames form one tree under the main frame: parents and children
    /// name each other and are all present, no frame is its own ancestor, and
    /// the main frame is the only one without a parent.
    pub open spec fn wf(self) -> bool {
        tree_wf(self.main_frame, self.frames)
    }

    /// No frame and no navigation.
    pub open spec fn empty() -> FrameManagerView {
        FrameManagerView {
            main_frame: None,
            frames: Map::empty(),
            pending_navigations: Seq::empty(),
            navigation: None,
        }
    }

    /// The state with frame `id` replaced by `frame`, if `id` is known.
    pub open spec fn with_frame(self, id: Seq<char>, frame: FrameView) -> FrameManagerView {
        if self.frames.contains_key(id) {
            FrameManagerView { frames: self.frames.insert(id, frame), ..self }
        } else {
            self
        }
    }

    /// The loader of frame `id`, if the frame is known and has one.
    pub open spec fn loader_of(self, id: Seq<char>) -> Option<Seq<char>> {
        if self.frames.contains_key(id) {
            self.frames[id].loader_id
        } else {
            None
        }
    }

    /// The state after frame `id` was attached under `parent`.
    pub open spec fn frame_attached(
        self,
        id: Seq<char>,
        parent: Option<Seq<char>>,
    ) -> FrameManagerView {
        FrameManagerView { frames: attached(self.frames, id, parent), ..self }
    }

    /// The state after frame `id` was detached.
    pub open spec fn frame_detached(self, id: Seq<char>) -> FrameManagerView {
        FrameManagerView { frames: detached(self.frames, id), ..self }
    }

    /// The state after a frame navigated to the document that `to` describes.
    /// A frame without parent becomes the main frame.
    pub open spec fn frame_navigated(self, to: FrameInfo) -> FrameManagerView {
        if to.parent_id is Some {
            FrameManagerView { frames: child_navigated(self.frames, to), ..self }
        } else {
            FrameManagerView {
                main_frame: Some(to.id),
                frames: main_navigated(self.main_frame, self.frames, to),
                ..self
            }
        }
    }

    /// The state after frame `id` showed `url` without loading a new document:
    /// the frame has the url, and a navigation under way in that frame knows
    /// that it stays in its document.
    pub open spec fn navigated_within_document(
        self,
        id: Seq<char>,
        url: Seq<char>,
    ) -> FrameManagerView {
        FrameManagerView {
            navigation: match self.navigation {
                Some((watcher, deadline)) => Some(
                    (watcher.navigated_within_document(id), deadline),
                ),
                None => None,
            },
            ..self.with_frame(id, self.frames[id].navigated_within(url))
        }
    }

    /// The state after frame `id` stopped loading.
    pub open spec fn stopped_loading(self, id: Seq<char>) -> FrameManagerView {
        self.with_frame(id, self.frames[id].loading_stopped())
    }

    /// The state after the lifecycle event `name` of the load `loader_id` in
    /// frame `id`.
    pub open spec fn lifecycle_event(
        self,
        id: Seq<char>,
        loader_id: Seq<char>,
        name: Seq<char>,
    ) -> FrameManagerView {
        self.with_frame(id, self.frames[id].lifecycle_event(loader_id, name))
    }

    /// The state after the snapshot `tree` was taken in: its frame is attached
    /// and navigated, then its children follow in their order, each with its
    /// own children before the next.
    pub open spec fn frame_tree(self, tree: FrameTree) -> FrameManagerView
        decreases tree, 0nat,
    {
        let here = self.frame_attached(tree.frame@.id, tree.frame@.parent_id).frame_navigated(
            tree.frame@,
        );
        match tree.child_frames {
            Some(children) => here.frame_trees(children, children@.len()),
            None => here,
        }
    }

    /// The state after the first `count` of `trees` were taken in, one after
    /// the other.
    pub open spec fn frame_trees(self, trees: Vec<FrameTree>, count: nat) -> FrameManagerView
        decreases trees, count,
    {
        if count == 0 || count > trees@.len() {
            self
        } else {
            self.frame_trees(trees, (count - 1) as nat).frame_tree(trees@[count - 1])
        }
    }

    /// Whether `after` is this state with one more navigation waiting: that
    /// of `request` in frame `id`, watched until the frame reaches `load`
    /// from the loader that it has now.
    pub open spec fn queued(
        self,
        after: FrameManagerView,
        request: FrameNavigationRequest,
        id: Seq<char>,
    ) -> bool {
        &&& after.main_frame == self.main_frame
        &&& after.frames == self.frames
        &&& after.navigation == self.navigation
        &&& after.pending_navigations.len() == self.pending_navigations.len() + 1
        &&& after.pending_navigations.drop_last() == self.pending_navigations
        &&& request.names_frame(after.pending_navigations.last().0, id)
        &&& after.pending_navigations.last().1 == (WatcherView {
            id: request.id,
            expected_lifecycle: set!["load"@],
            frame_id: id,
            loader_id: self.loader_of(id),
            same_document_navigation: false,
        })
    }

    /// The state after a poll at `now`, and what the poll hands out.
    ///
    /// With a navigation under way: past its deadline it fails with a timeout;
    /// without its frame it fails too; when it has an outcome it ends; else
    /// nothing happens. Without one, the oldest waiting navigation starts,
    /// with its deadline a timeout from `now`, and its request is handed out.
    pub open spec fn polled(self, now: u64) -> (FrameManagerView, Option<FrameEventView>) {
        match self.navigation {
            Some((watcher, deadline)) => {
                let idle = FrameManagerView { navigation: None, ..self };
                if now > deadline {
                    (
                        idle,
                        Some(
                            FrameEventView::NavigationResult(
                                Err(
                                    NavigationErrorView::Timeout {
                                        id: watcher.id,
                                        err: DeadlineExceeded { issued_at: now, deadline },
                                    },
                                ),
                            ),
                        ),
                    )
                } else if !self.frames.contains_key(watcher.frame_id) {
                    (
                        idle,
                        Some(
                            FrameEventView::NavigationResult(
                                Err(
                                    NavigationErrorView::FrameNotFound {
                                        id: watcher.id,
                                        frame: watcher.frame_id,
                                    },
                                ),
                            ),
                        ),
                    )
                } else {
                    match watcher.outcome(self.frames) {
                        Some(ok) => (idle, Some(FrameEventView::NavigationResult(Ok(ok)))),
                        None => (self, None),
                    }
                }
            },
            None => if self.pending_navigations.len() > 0 {
                let (request, watcher) = self.pending_navigations[0];
                (
                    FrameManagerView {
                        pending_navigations: self.pending_navigations.drop_first(),
                        navigation: Some((watcher, (now + REQUEST_TIMEOUT) as u64)),
                        ..self
                    },
                    Some(FrameEventView::NavigationRequest(request.id, request.req)),
                )
            } else {
                (self, None)
            },
        }
    }
}

/// Whether `command` is the command `method` with the members `params`.
pub open spec fn is_command(
    command: (Seq<char>, serde_json::Value),
    method: Seq<char>,
    params: Map<Seq<char>, JsonView>,
) -> bool {
    command.0 == method && json_view(command.1) == JsonView::Object(params)
}

/// Whether `queue` holds the commands that make the browser report the frames
/// of a page: the page events are switched on, the frame tree is asked for,
/// the lifecycle events are switched on, and the runtime events are.
pub open spec fn is_init_sequence(queue: Seq<(Seq<char>, serde_json::Value)>) -> bool {
    &&& queue.len() == 4
    &&& is_command(queue[0], "Page.enable"@, Map::empty())
    &&& is_command(queue[1], "Page.getFrameTree"@, Map::empty())
    &&& is_command(
        queue[2],
        "Page.setLifecycleEventsEnabled"@,
        Map::empty().insert("enabled"@, JsonView::Bool(true)),
    )
    &&& is_command(queue[3], "Runtime.enable"@, Map::empty())
}

} // verus!
