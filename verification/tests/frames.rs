use chromiumoxid::cdp::{
    EventFrameDetached, EventFrameStoppedLoading, EventLifecycleEvent,
    EventNavigatedWithinDocument, Frame as CdpFrame, FrameTree,
};
use chromiumoxid::handler::frame::{
    Frame, FrameEvent, FrameManager, FrameNavigationRequest, NavigationError, NavigationId,
    NavigationOk, NavigationWatcher,
};
use chromiumoxid::handler::REQUEST_TIMEOUT;
use chromiumoxid::types::Request;

fn payload(id: &str, parent: Option<&str>, loader: &str, url: &str) -> CdpFrame {
    CdpFrame {
        id: id.to_string(),
        parent_id: parent.map(|p| p.to_string()),
        loader_id: loader.to_string(),
        name: None,
        url: url.to_string(),
        url_fragment: None,
    }
}

fn lifecycle(frame: &str, loader: &str, name: &str) -> EventLifecycleEvent {
    EventLifecycleEvent {
        frame_id: frame.to_string(),
        loader_id: loader.to_string(),
        name: name.to_string(),
    }
}

fn navigate_request(id: usize, url: &str) -> FrameNavigationRequest {
    let mut params = serde_json::Map::new();
    params.insert("url".to_string(), serde_json::Value::String(url.to_string()));
    FrameNavigationRequest::new(
        NavigationId(id),
        Request {
            method: "Page.navigate".to_string(),
            session_id: None,
            params: serde_json::Value::Object(params),
        },
    )
}

/// A manager whose main frame `F` has loader `L0` and has reached `load`.
fn loaded_main_frame() -> FrameManager {
    let mut manager = FrameManager::default();
    manager.on_frame_navigated(payload("F", None, "L0", "https://a.example/"));
    manager.on_page_lifecycle_event(&lifecycle("F", "L0", "init"));
    manager.on_page_lifecycle_event(&lifecycle("F", "L0", "load"));
    manager
}

fn frame_ids(manager: &FrameManager) -> Vec<String> {
    let mut ids: Vec<String> = manager.frames().iter().map(|f| f.id.clone()).collect();
    ids.sort();
    ids
}

#[test]
fn default_manager_knows_nothing() {
    let mut manager = FrameManager::default();
    assert!(manager.main_frame().is_none());
    assert!(manager.frames().is_empty());
    assert!(manager.frame(&"F".to_string()).is_none());
    assert!(manager.poll(0).is_none());
}

#[test]
fn first_top_level_navigation_makes_the_main_frame() {
    let mut manager = FrameManager::default();
    let mut to = payload("F", None, "L0", "https://a.example/page");
    to.name = Some("top".to_string());
    to.url_fragment = Some("#part".to_string());
    manager.on_frame_navigated(to);
    let main = manager.main_frame().expect("main frame");
    assert_eq!(main.id, "F");
    assert_eq!(main.parent_frame, None);
    assert_eq!(main.loader_id, None);
    assert_eq!(main.name, Some("top".to_string()));
    assert_eq!(main.url, Some("https://a.example/page#part".to_string()));
    assert!(main.child_frames.is_empty());
    assert!(main.lifecycle_events.is_empty());
    assert_eq!(frame_ids(&manager), vec!["F".to_string()]);
}

#[test]
fn attach_links_parent_and_child() {
    let mut manager = loaded_main_frame();
    manager.on_frame_attached("C".to_string(), Some("F".to_string()));
    let child = manager.frame(&"C".to_string()).expect("child");
    assert_eq!(child.parent_frame, Some("F".to_string()));
    assert_eq!(child.loader_id, None);
    assert_eq!(child.url, None);
    assert!(child.lifecycle_events.is_empty());
    assert!(child.child_frames.is_empty());
    let main = manager.main_frame().expect("main frame");
    assert!(main.child_frames.contains("C"));
    assert_eq!(main.child_frames.len(), 1);
}

#[test]
fn attach_twice_is_attach_once() {
    let mut once = loaded_main_frame();
    once.on_frame_attached("C".to_string(), Some("F".to_string()));
    once.on_page_lifecycle_event(&lifecycle("C", "LC", "load"));
    let mut twice = loaded_main_frame();
    twice.on_frame_attached("C".to_string(), Some("F".to_string()));
    twice.on_page_lifecycle_event(&lifecycle("C", "LC", "load"));
    twice.on_frame_attached("C".to_string(), Some("F".to_string()));
    assert_eq!(frame_ids(&once), frame_ids(&twice));
    let a = once.frame(&"C".to_string()).expect("child");
    let b = twice.frame(&"C".to_string()).expect("child");
    assert_eq!(a.parent_frame, b.parent_frame);
    assert!(b.lifecycle_events.contains("load"));
    assert_eq!(a.lifecycle_events.len(), b.lifecycle_events.len());
    assert_eq!(twice.main_frame().expect("main").child_frames.len(), 1);
}

#[test]
fn attach_under_unknown_parent_is_dropped() {
    let mut manager = loaded_main_frame();
    manager.on_frame_attached("C".to_string(), Some("nowhere".to_string()));
    manager.on_frame_attached("D".to_string(), None);
    assert_eq!(frame_ids(&manager), vec!["F".to_string()]);
    assert!(manager.main_frame().expect("main").child_frames.is_empty());
}

#[test]
fn detach_removes_the_whole_subtree_and_unlinks_it() {
    let mut manager = loaded_main_frame();
    manager.on_frame_attached("A".to_string(), Some("F".to_string()));
    manager.on_frame_attached("B".to_string(), Some("F".to_string()));
    manager.on_frame_attached("A1".to_string(), Some("A".to_string()));
    manager.on_frame_attached("A2".to_string(), Some("A".to_string()));
    manager.on_frame_attached("A11".to_string(), Some("A1".to_string()));
    assert_eq!(manager.frames().len(), 6);
    manager.on_frame_detached(&EventFrameDetached { frame_id: "A".to_string() });
    assert_eq!(frame_ids(&manager), vec!["B".to_string(), "F".to_string()]);
    let main = manager.main_frame().expect("main");
    assert!(!main.child_frames.contains("A"));
    assert!(main.child_frames.contains("B"));
    manager.on_frame_detached(&EventFrameDetached { frame_id: "unknown".to_string() });
    assert_eq!(manager.frames().len(), 2);
}

#[test]
fn detaching_the_main_frame_empties_the_tree() {
    let mut manager = loaded_main_frame();
    manager.on_frame_attached("A".to_string(), Some("F".to_string()));
    manager.on_frame_detached(&EventFrameDetached { frame_id: "F".to_string() });
    assert!(manager.frames().is_empty());
    assert!(manager.main_frame().is_none());
}

#[test]
fn child_navigation_drops_descendants_and_keeps_the_frame() {
    let mut manager = loaded_main_frame();
    manager.on_frame_attached("A".to_string(), Some("F".to_string()));
    manager.on_frame_attached("A1".to_string(), Some("A".to_string()));
    manager.on_page_lifecycle_event(&lifecycle("A", "LA", "init"));
    manager.on_page_lifecycle_event(&lifecycle("A", "LA", "load"));
    let mut to = payload("A", Some("F"), "LB", "https://b.example/");
    to.name = Some("inner".to_string());
    manager.on_frame_navigated(to);
    assert_eq!(frame_ids(&manager), vec!["A".to_string(), "F".to_string()]);
    let a = manager.frame(&"A".to_string()).expect("frame A");
    assert!(a.child_frames.is_empty());
    assert_eq!(a.parent_frame, Some("F".to_string()));
    assert_eq!(a.url, Some("https://b.example/".to_string()));
    assert_eq!(a.name, Some("inner".to_string()));
    assert_eq!(a.loader_id, Some("LA".to_string()));
    assert!(a.lifecycle_events.contains("load"));
    assert!(manager.main_frame().expect("main").child_frames.contains("A"));
}

#[test]
fn child_navigation_of_unknown_frame_is_dropped() {
    let mut manager = loaded_main_frame();
    manager.on_frame_navigated(payload("X", Some("F"), "LX", "https://x.example/"));
    assert_eq!(frame_ids(&manager), vec!["F".to_string()]);
}

#[test]
fn subtree_is_invalidated_by_top_level_navigation() {
    let mut manager = loaded_main_frame();
    manager.on_frame_attached("C".to_string(), Some("F".to_string()));
    manager.on_page_lifecycle_event(&lifecycle("C", "LC", "load"));
    manager.on_frame_navigated(payload("F", None, "L1", "https://b.example/"));
    assert_eq!(frame_ids(&manager), vec!["F".to_string()]);
    let main = manager.main_frame().expect("main");
    assert!(main.child_frames.is_empty());
    assert_eq!(main.loader_id, Some("L1".to_string()));
    assert_eq!(main.url, Some("https://b.example/".to_string()));
}

#[test]
fn top_level_navigation_renames_the_main_frame() {
    let mut manager = loaded_main_frame();
    manager.on_frame_attached("C".to_string(), Some("F".to_string()));
    manager.on_frame_navigated(payload("G", None, "L1", "https://b.example/"));
    assert_eq!(frame_ids(&manager), vec!["G".to_string()]);
    let main = manager.main_frame().expect("main");
    assert_eq!(main.id, "G");
    assert_eq!(main.parent_frame, None);
    assert!(main.lifecycle_events.contains("load"));
    assert!(manager.frame(&"F".to_string()).is_none());
}

#[test]
fn init_replaces_the_loader_and_clears_the_lifecycle() {
    let mut manager = loaded_main_frame();
    manager.on_page_lifecycle_event(&lifecycle("F", "L0", "DOMContentLoaded"));
    manager.on_page_lifecycle_event(&lifecycle("F", "L7", "init"));
    let main = manager.main_frame().expect("main");
    assert_eq!(main.loader_id, Some("L7".to_string()));
    assert!(main.lifecycle_events.contains("init"));
    assert!(!main.lifecycle_events.contains("load"));
    assert!(!main.lifecycle_events.contains("DOMContentLoaded"));
    assert_eq!(main.lifecycle_events.len(), 1);
}

#[test]
fn other_lifecycle_events_keep_the_loader() {
    let mut manager = loaded_main_frame();
    manager.on_page_lifecycle_event(&lifecycle("F", "L9", "networkIdle"));
    let main = manager.main_frame().expect("main");
    assert_eq!(main.loader_id, Some("L0".to_string()));
    assert!(main.lifecycle_events.contains("networkIdle"));
    assert!(main.lifecycle_events.contains("load"));
    assert_eq!(main.lifecycle_events.len(), 3);
    manager.on_page_lifecycle_event(&lifecycle("nobody", "L9", "load"));
    assert_eq!(manager.frames().len(), 1);
}

#[test]
fn stopped_loading_injects_both_milestones() {
    let mut manager = FrameManager::default();
    manager.on_frame_navigated(payload("F", None, "L0", "https://a.example/"));
    manager.on_frame_stopped_loading(&EventFrameStoppedLoading { frame_id: "F".to_string() });
    let main = manager.main_frame().expect("main");
    assert!(main.lifecycle_events.contains("DOMContentLoaded"));
    assert!(main.lifecycle_events.contains("load"));
    assert_eq!(main.lifecycle_events.len(), 2);
}

#[test]
fn navigated_within_document_updates_only_the_url() {
    let mut manager = loaded_main_frame();
    manager.on_frame_navigated_within_document(&EventNavigatedWithinDocument {
        frame_id: "F".to_string(),
        url: "https://a.example/#x".to_string(),
    });
    let main = manager.main_frame().expect("main");
    assert_eq!(main.url, Some("https://a.example/#x".to_string()));
    assert_eq!(main.loader_id, Some("L0".to_string()));
    assert!(main.lifecycle_events.contains("load"));
}

#[test]
fn new_document_navigation_completes() {
    let mut manager = loaded_main_frame();
    manager.goto(navigate_request(1, "https://b.example/"));
    match manager.poll(1_000) {
        Some(FrameEvent::NavigationRequest(id, request)) => {
            assert_eq!(id, NavigationId(1));
            assert_eq!(request.method, "Page.navigate");
            assert_eq!(
                request.params.get("frameId"),
                Some(&serde_json::Value::String("F".to_string()))
            );
            assert_eq!(
                request.params.get("url"),
                Some(&serde_json::Value::String("https://b.example/".to_string()))
            );
        }
        other => panic!("expected the request, got {:?}", other),
    }
    assert!(manager.poll(1_001).is_none());
    manager.on_page_lifecycle_event(&lifecycle("F", "L1", "init"));
    assert!(manager.poll(1_002).is_none());
    manager.on_frame_navigated(payload("F", None, "L1", "https://b.example/"));
    manager.on_page_lifecycle_event(&lifecycle("F", "L1", "DOMContentLoaded"));
    assert!(manager.poll(1_003).is_none());
    manager.on_page_lifecycle_event(&lifecycle("F", "L1", "load"));
    match manager.poll(1_004) {
        Some(FrameEvent::NavigationResult(Ok(ok))) => {
            assert_eq!(ok, NavigationOk::NewDocumentNavigation(NavigationId(1)));
            assert_eq!(*ok.navigation_id(), NavigationId(1));
        }
        other => panic!("expected the end of the navigation, got {:?}", other),
    }
    assert!(manager.poll(1_005).is_none());
}

#[test]
fn same_document_navigation_completes() {
    let mut manager = loaded_main_frame();
    manager.goto(navigate_request(2, "https://a.example/#x"));
    assert!(matches!(manager.poll(10), Some(FrameEvent::NavigationRequest(NavigationId(2), _))));
    assert!(manager.poll(11).is_none());
    manager.on_frame_navigated_within_document(&EventNavigatedWithinDocument {
        frame_id: "F".to_string(),
        url: "https://a.example/#x".to_string(),
    });
    match manager.poll(12) {
        Some(FrameEvent::NavigationResult(Ok(ok))) => {
            assert_eq!(ok, NavigationOk::SameDocumentNavigation(NavigationId(2)));
        }
        other => panic!("expected the end of the navigation, got {:?}", other),
    }
    assert_eq!(manager.main_frame().expect("main").loader_id, Some("L0".to_string()));
}

#[test]
fn same_document_report_after_load_still_completes() {
    let mut manager = loaded_main_frame();
    manager.goto(navigate_request(3, "https://a.example/#y"));
    assert!(manager.poll(10).is_some());
    manager.on_page_lifecycle_event(&lifecycle("F", "L0", "load"));
    assert!(manager.poll(11).is_none());
    manager.on_frame_navigated_within_document(&EventNavigatedWithinDocument {
        frame_id: "F".to_string(),
        url: "https://a.example/#y".to_string(),
    });
    assert!(matches!(
        manager.poll(12),
        Some(FrameEvent::NavigationResult(Ok(NavigationOk::SameDocumentNavigation(
            NavigationId(3)
        ))))
    ));
}

#[test]
fn same_document_report_of_another_frame_does_not_complete() {
    let mut manager = loaded_main_frame();
    manager.on_frame_attached("C".to_string(), Some("F".to_string()));
    manager.on_frame_stopped_loading(&EventFrameStoppedLoading { frame_id: "C".to_string() });
    manager.goto(navigate_request(3, "https://a.example/#y"));
    assert!(manager.poll(10).is_some());
    manager.on_frame_navigated_within_document(&EventNavigatedWithinDocument {
        frame_id: "C".to_string(),
        url: "https://c.example/#y".to_string(),
    });
    assert!(manager.poll(11).is_none());
}

#[test]
fn navigation_waits_for_the_subframes() {
    let mut manager = loaded_main_frame();
    manager.goto(navigate_request(4, "https://b.example/"));
    assert!(manager.poll(0).is_some());
    manager.on_page_lifecycle_event(&lifecycle("F", "L1", "init"));
    manager.on_frame_navigated(payload("F", None, "L1", "https://b.example/"));
    manager.on_page_lifecycle_event(&lifecycle("F", "L1", "load"));
    manager.on_frame_attached("C".to_string(), Some("F".to_string()));
    manager.on_frame_attached("D".to_string(), Some("C".to_string()));
    assert!(manager.poll(1).is_none());
    manager.on_page_lifecycle_event(&lifecycle("C", "LC", "load"));
    assert!(manager.poll(2).is_none());
    manager.on_frame_stopped_loading(&EventFrameStoppedLoading { frame_id: "D".to_string() });
    assert!(matches!(
        manager.poll(3),
        Some(FrameEvent::NavigationResult(Ok(NavigationOk::NewDocumentNavigation(
            NavigationId(4)
        ))))
    ));
}

#[test]
fn navigation_times_out_strictly_after_the_deadline() {
    let mut manager = loaded_main_frame();
    manager.goto(navigate_request(5, "https://b.example/"));
    assert!(manager.poll(100).is_some());
    assert!(manager.poll(100 + REQUEST_TIMEOUT).is_none());
    match manager.poll(100 + REQUEST_TIMEOUT + 1) {
        Some(FrameEvent::NavigationResult(Err(err))) => {
            assert_eq!(*err.navigation_id(), NavigationId(5));
            match err {
                NavigationError::Timeout { id, err } => {
                    assert_eq!(id, NavigationId(5));
                    assert_eq!(err.deadline, 100 + REQUEST_TIMEOUT);
                    assert_eq!(err.issued_at, 100 + REQUEST_TIMEOUT + 1);
                }
                other => panic!("expected a timeout, got {:?}", other),
            }
        }
        other => panic!("expected a timeout, got {:?}", other),
    }
    assert!(manager.poll(100 + REQUEST_TIMEOUT + 2).is_none());
}

#[test]
fn detached_frame_fails_the_navigation() {
    let mut manager = loaded_main_frame();
    manager.goto(navigate_request(6, "https://b.example/"));
    assert!(manager.poll(0).is_some());
    manager.on_frame_detached(&EventFrameDetached { frame_id: "F".to_string() });
    match manager.poll(1) {
        Some(FrameEvent::NavigationResult(Err(NavigationError::FrameNotFound { id, frame }))) => {
            assert_eq!(id, NavigationId(6));
            assert_eq!(frame, "F");
        }
        other => panic!("expected a missing frame, got {:?}", other),
    }
    assert!(manager.poll(2).is_none());
}

#[test]
fn navigations_run_one_at_a_time_in_order() {
    let mut manager = loaded_main_frame();
    manager.goto(navigate_request(1, "https://one.example/"));
    manager.goto(navigate_request(2, "https://two.example/"));
    assert!(matches!(manager.poll(0), Some(FrameEvent::NavigationRequest(NavigationId(1), _))));
    assert!(manager.poll(1).is_none());
    assert!(manager.poll(2).is_none());
    manager.on_frame_navigated_within_document(&EventNavigatedWithinDocument {
        frame_id: "F".to_string(),
        url: "https://a.example/#1".to_string(),
    });
    assert!(matches!(
        manager.poll(3),
        Some(FrameEvent::NavigationResult(Ok(NavigationOk::SameDocumentNavigation(
            NavigationId(1)
        ))))
    ));
    assert!(matches!(manager.poll(4), Some(FrameEvent::NavigationRequest(NavigationId(2), _))));
    assert!(manager.poll(5).is_none());
}

#[test]
fn goto_without_main_frame_is_dropped() {
    let mut manager = FrameManager::default();
    manager.goto(navigate_request(1, "https://a.example/"));
    assert!(manager.poll(0).is_none());
}

#[test]
fn goto_after_the_main_frame_was_detached_reports_the_missing_frame() {
    let mut manager = loaded_main_frame();
    manager.on_frame_detached(&EventFrameDetached { frame_id: "F".to_string() });
    manager.goto(navigate_request(8, "https://a.example/"));
    assert!(matches!(manager.poll(0), Some(FrameEvent::NavigationRequest(NavigationId(8), _))));
    assert!(matches!(
        manager.poll(1),
        Some(FrameEvent::NavigationResult(Err(NavigationError::FrameNotFound { .. })))
    ));
}

#[test]
fn navigate_frame_targets_the_given_frame() {
    let mut manager = loaded_main_frame();
    manager.on_frame_attached("C".to_string(), Some("F".to_string()));
    manager.navigate_frame("C".to_string(), navigate_request(9, "https://c.example/"));
    match manager.poll(0) {
        Some(FrameEvent::NavigationRequest(id, request)) => {
            assert_eq!(id, NavigationId(9));
            assert_eq!(
                request.params.get("frameId"),
                Some(&serde_json::Value::String("C".to_string()))
            );
        }
        other => panic!("expected the request, got {:?}", other),
    }
    manager.on_page_lifecycle_event(&lifecycle("C", "LC", "init"));
    manager.on_page_lifecycle_event(&lifecycle("C", "LC", "load"));
    assert!(matches!(
        manager.poll(1),
        Some(FrameEvent::NavigationResult(Ok(NavigationOk::NewDocumentNavigation(
            NavigationId(9)
        ))))
    ));
}

#[test]
fn set_frame_id_fills_a_missing_member_only() {
    let mut lacking = navigate_request(1, "https://a.example/");
    lacking.set_frame_id("F".to_string());
    assert_eq!(
        lacking.req.params.get("frameId"),
        Some(&serde_json::Value::String("F".to_string()))
    );
    assert_eq!(
        lacking.req.params.get("url"),
        Some(&serde_json::Value::String("https://a.example/".to_string()))
    );
    assert_eq!(lacking.req.params.as_object().expect("object").len(), 2);
    assert_eq!(lacking.id, NavigationId(1));
    assert_eq!(lacking.timeout, REQUEST_TIMEOUT);

    lacking.set_frame_id("G".to_string());
    assert_eq!(
        lacking.req.params.get("frameId"),
        Some(&serde_json::Value::String("F".to_string()))
    );

    let mut no_object = FrameNavigationRequest::new(
        NavigationId(2),
        Request {
            method: "Page.navigate".to_string(),
            session_id: Some("S".to_string()),
            params: serde_json::Value::Null,
        },
    );
    no_object.set_frame_id("F".to_string());
    assert_eq!(no_object.req.params, serde_json::Value::Null);
    assert_eq!(no_object.req.session_id, Some("S".to_string()));
}

fn leaf(frame: CdpFrame) -> FrameTree {
    FrameTree { frame, child_frames: None }
}

fn sample_tree() -> FrameTree {
    FrameTree {
        frame: payload("R", None, "LR", "https://r.example/"),
        child_frames: Some(vec![
            FrameTree {
                frame: payload("A", Some("R"), "LA", "https://a.example/"),
                child_frames: Some(vec![leaf(payload("A1", Some("A"), "LA1", "https://a1.example/"))]),
            },
            leaf(payload("B", Some("R"), "LB", "https://b.example/")),
        ]),
    }
}

fn describe(manager: &FrameManager) -> Vec<(String, Option<String>, Option<String>, Option<String>, Vec<String>, usize)> {
    let mut all: Vec<_> = manager
        .frames()
        .iter()
        .map(|f| {
            let mut children = Vec::new();
            let mut i = 0;
            while let Some(c) = f.child_frames.get_at(i) {
                children.push(c.clone());
                i += 1;
            }
            children.sort();
            (
                f.id.clone(),
                f.parent_frame.clone(),
                f.loader_id.clone(),
                f.url.clone(),
                children,
                f.lifecycle_events.len(),
            )
        })
        .collect();
    all.sort();
    all
}

#[test]
fn frame_tree_equals_its_reports_in_pre_order() {
    let mut by_tree = FrameManager::default();
    by_tree.on_frame_tree(sample_tree());

    let mut by_reports = FrameManager::default();
    by_reports.on_frame_attached("R".to_string(), None);
    by_reports.on_frame_navigated(payload("R", None, "LR", "https://r.example/"));
    by_reports.on_frame_attached("A".to_string(), Some("R".to_string()));
    by_reports.on_frame_navigated(payload("A", Some("R"), "LA", "https://a.example/"));
    by_reports.on_frame_attached("A1".to_string(), Some("A".to_string()));
    by_reports.on_frame_navigated(payload("A1", Some("A"), "LA1", "https://a1.example/"));
    by_reports.on_frame_attached("B".to_string(), Some("R".to_string()));
    by_reports.on_frame_navigated(payload("B", Some("R"), "LB", "https://b.example/"));

    assert_eq!(describe(&by_tree), describe(&by_reports));
    assert_eq!(by_tree.frames().len(), 4);
    assert_eq!(by_tree.main_frame().expect("main").id, "R");
    let a = by_tree.frame(&"A".to_string()).expect("frame A");
    assert!(a.child_frames.contains("A1"));
    assert_eq!(a.url, Some("https://a.example/".to_string()));
}

#[test]
fn detach_and_replay_restores_the_frames() {
    let mut manager = FrameManager::default();
    manager.on_frame_tree(sample_tree());
    let first = describe(&manager);
    manager.on_frame_detached(&EventFrameDetached { frame_id: "R".to_string() });
    assert!(manager.frames().is_empty());
    manager.on_frame_tree(sample_tree());
    assert_eq!(describe(&manager), first);
}

#[test]
fn frames_are_stored_without_cycles() {
    let mut manager = FrameManager::default();
    manager.on_frame_tree(sample_tree());
    manager.on_frame_attached("R".to_string(), Some("A1".to_string()));
    for frame in manager.frames() {
        if let Some(parent) = &frame.parent_frame {
            let parent = manager.frame(parent).expect("parent is present");
            assert!(parent.child_frames.contains(&frame.id));
        }
        let mut i = 0;
        while let Some(child) = frame.child_frames.get_at(i) {
            let child = manager.frame(child).expect("child is present");
            assert_eq!(child.parent_frame.as_deref(), Some(frame.id.as_str()));
            i += 1;
        }
        let mut hops = 0;
        let mut at = frame;
        while let Some(parent) = &at.parent_frame {
            at = manager.frame(parent).expect("parent is present");
            hops += 1;
            assert!(hops <= 4);
        }
        assert_eq!(at.id, "R");
    }
}

#[test]
fn frame_constructors() {
    let mut parent = Frame::new("P".to_string());
    assert_eq!(parent.id, "P");
    assert!(parent.parent_frame.is_none());
    assert!(parent.child_frames.is_empty());
    let child = Frame::with_parent("C".to_string(), &mut parent);
    assert_eq!(child.parent_frame, Some("P".to_string()));
    assert_eq!(child.id, "C");
    assert!(parent.child_frames.contains("C"));

    let mut described = payload("D", Some("P"), "LD", "https://d.example/");
    described.name = Some("d".to_string());
    let made = Frame::from(described);
    assert_eq!(made.id, "D");
    assert_eq!(made.parent_frame, Some("P".to_string()));
    assert_eq!(made.loader_id, Some("LD".to_string()));
    assert_eq!(made.url, Some("https://d.example/".to_string()));
    assert_eq!(made.name, Some("d".to_string()));
    assert!(made.child_frames.is_empty());
    assert!(made.lifecycle_events.is_empty());
}

#[test]
fn watcher_waits_for_load() {
    let watcher = NavigationWatcher::until_page_load(NavigationId(1), "F".to_string(), None);
    assert!(!watcher.is_lifecycle_complete());
}

#[test]
fn init_commands_are_the_handshake() {
    let mut chain = FrameManager::init_commands();
    let mut seen = Vec::new();
    let mut now = 0;
    loop {
        match chain.poll(now) {
            chromiumoxid::cmd::Poll::Ready(Some(Ok((method, params)))) => {
                assert!(chain.received_response(&method));
                seen.push((method, params));
            }
            chromiumoxid::cmd::Poll::Ready(None) => break,
            other => panic!("unexpected {:?}", other),
        }
        now += 1;
    }
    let empty = serde_json::Value::Object(serde_json::Map::new());
    let mut enabled = serde_json::Map::new();
    enabled.insert("enabled".to_string(), serde_json::Value::Bool(true));
    assert_eq!(
        seen,
        vec![
            ("Page.enable".to_string(), empty.clone()),
            ("Page.getFrameTree".to_string(), empty.clone()),
            ("Page.setLifecycleEventsEnabled".to_string(), serde_json::Value::Object(enabled)),
            ("Runtime.enable".to_string(), empty),
        ]
    );
}

#[test]
fn completed_navigation_stays_complete_under_progress() {
    let mut manager = loaded_main_frame();
    manager.on_frame_attached("C".to_string(), Some("F".to_string()));
    manager.on_frame_stopped_loading(&EventFrameStoppedLoading { frame_id: "C".to_string() });
    manager.goto(navigate_request(7, "https://b.example/"));
    assert!(manager.poll(0).is_some());
    manager.on_page_lifecycle_event(&lifecycle("F", "L1", "init"));
    manager.on_page_lifecycle_event(&lifecycle("F", "L1", "load"));
    // the navigation has its outcome now; more progress does not take it back
    manager.on_page_lifecycle_event(&lifecycle("F", "L1", "networkIdle"));
    manager.on_page_lifecycle_event(&lifecycle("C", "LC", "firstPaint"));
    manager.on_frame_stopped_loading(&EventFrameStoppedLoading { frame_id: "F".to_string() });
    manager.on_frame_navigated_within_document(&EventNavigatedWithinDocument {
        frame_id: "C".to_string(),
        url: "https://c.example/#1".to_string(),
    });
    assert!(matches!(
        manager.poll(1),
        Some(FrameEvent::NavigationResult(Ok(NavigationOk::NewDocumentNavigation(
            NavigationId(7)
        ))))
    ));
}

#[test]
fn new_load_in_a_subframe_takes_completion_back() {
    let mut manager = loaded_main_frame();
    manager.on_frame_attached("C".to_string(), Some("F".to_string()));
    manager.on_frame_stopped_loading(&EventFrameStoppedLoading { frame_id: "C".to_string() });
    manager.goto(navigate_request(7, "https://b.example/"));
    assert!(manager.poll(0).is_some());
    manager.on_page_lifecycle_event(&lifecycle("F", "L1", "init"));
    manager.on_page_lifecycle_event(&lifecycle("F", "L1", "load"));
    manager.on_page_lifecycle_event(&lifecycle("C", "LC2", "init"));
    assert!(manager.poll(1).is_none());
    manager.on_page_lifecycle_event(&lifecycle("C", "LC2", "load"));
    assert!(manager.poll(2).is_some());
}
