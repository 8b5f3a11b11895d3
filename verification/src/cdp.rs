//! The payloads of the page events that the frame manager listens to.

use vstd::prelude::*;

verus! {

pub type FrameId = String;

pub type LoaderId = String;

/// A frame as the browser describes it.
#[derive(Debug)]
pub struct Frame {
    pub id: FrameId,
    pub parent_id: Option<FrameId>,
    pub loader_id: LoaderId,
    pub name: Option<String>,
    pub url: String,
    pub url_fragment: Option<String>,
}

/// What a [`Frame`] holds, as plain values.
pub ghost struct FrameInfo {
    pub id: Seq<char>,
    pub parent_id: Option<Seq<char>>,
    pub loader_id: Seq<char>,
    pub name: Option<Seq<char>>,
    pub url: Seq<char>,
    pub url_fragment: Option<Seq<char>>,
}

impl View for Frame {
    type V = FrameInfo;

    open spec fn view(&self) -> FrameInfo {
        FrameInfo {
            id: self.id@,
            parent_id: match self.parent_id {
                Some(p) => Some(p@),
                None => None,
            },
            loader_id: self.loader_id@,
            name: match self.name {
                Some(n) => Some(n@),
                None => None,
            },
            url: self.url@,
            url_fragment: match self.url_fragment {
                Some(f) => Some(f@),
                None => None,
            },
        }
    }
}

/// A snapshot of a frame with the frames nested in it.
#[derive(Debug)]
pub struct FrameTree {
    pub frame: Frame,
    pub child_frames: Option<Vec<FrameTree>>,
}

/// A frame was removed from its parent.
#[derive(Debug)]
pub struct EventFrameDetached {
    pub frame_id: FrameId,
}

/// A frame finished loading.
#[derive(Debug)]
pub struct EventFrameStoppedLoading {
    pub frame_id: FrameId,
}

/// A frame reached a named milestone of a document load.
#[derive(Debug)]
pub struct EventLifecycleEvent {
    pub frame_id: FrameId,
    pub loader_id: LoaderId,
    pub name: String,
}

/// A frame changed its url without loading a new document.
#[derive(Debug)]
pub struct EventNavigatedWithinDocument {
    pub frame_id: FrameId,
    pub url: String,
}

/// A target was attached to the session.
#[derive(Debug)]
pub struct EventAttachedToTarget {
    pub session_id: String,
    pub target_id: String,
    pub waiting_for_debugger: bool,
}

/// A script execution context was created in a frame.
#[derive(Debug)]
pub struct EventExecutionContextCreated {
    pub context_id: i64,
    pub frame_id: Option<FrameId>,
}

/// A script execution context was destroyed.
#[derive(Debug)]
pub struct EventExecutionContextDestroyed {
    pub context_id: i64,
}

/// All script execution contexts were cleared.
#[derive(Debug)]
pub struct EventExecutionContextsCleared {
}

} // verus!
