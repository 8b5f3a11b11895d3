//! What holds of the frame manager whatever the browser reports.

use vstd::prelude::*;
use crate::cdp::{FrameInfo, FrameTree};
use crate::handler::frame::NavigationOk;
use crate::handler::model::{
    FrameEventView, FrameManagerView, FrameView, NavigationErrorView,
};
use crate::handler::tree::{
    ancestor, attached, detached, in_subtree, lemma_ancestor_in_larger, lemma_no_cycle,
    lemma_only_main_subtree, lemma_under_main, lemma_wf_attached, lemma_wf_child_navigated,
    lemma_wf_detached, lemma_wf_main_navigated, lemma_wf_replaced, lifecycle_reached, ranked,
    tree_wf, FrameMap,
};

verus! {

/// What the browser can report of the frames of a page.
pub ghost enum FrameInput {
    Attached { id: Seq<char>, parent: Option<Seq<char>> },
    Navigated { to: FrameInfo },
    Detached { id: Seq<char> },
    NavigatedWithinDocument { id: Seq<char>, url: Seq<char> },
    StoppedLoading { id: Seq<char> },
    Lifecycle { id: Seq<char>, loader_id: Seq<char>, name: Seq<char> },
}

impl FrameManagerView {
    /// The state after one report of the browser.
    pub open spec fn apply(self, input: FrameInput) -> FrameManagerView {
        match input {
            FrameInput::Attached { id, parent } => self.frame_attached(id, parent),
            FrameInput::Navigated { to } => self.frame_navigated(to),
            FrameInput::Detached { id } => self.frame_detached(id),
            FrameInput::NavigatedWithinDocument { id, url } => self.navigated_within_document(
                id,
                url,
            ),
            FrameInput::StoppedLoading { id } => self.stopped_loading(id),
            FrameInput::Lifecycle { id, loader_id, name } => self.lifecycle_event(
                id,
                loader_id,
                name,
            ),
        }
    }

    /// The state after the reports `inputs`, in their order.
    pub open spec fn apply_all(self, inputs: Seq<FrameInput>) -> FrameManagerView
        decreases inputs.len(),
    {
        if inputs.len() == 0 {
            self
        } else {
            self.apply_all(inputs.drop_last()).apply(inputs.last())
        }
    }
}

/// Every report of the browser leaves the frames a tree.
pub proof fn law_tree_is_kept(state: FrameManagerView, input: FrameInput)
    requires
        state.wf(),
    ensures
        state.apply(input).wf(),
{
    match input {
        FrameInput::Attached { id, parent } => {
            lemma_wf_attached(state.main_frame, state.frames, id, parent);
        },
        FrameInput::Navigated { to } => {
            lemma_wf_child_navigated(state.main_frame, state.frames, to);
            lemma_wf_main_navigated(state.main_frame, state.frames, to);
        },
        FrameInput::Detached { id } => {
            lemma_wf_detached(state.main_frame, state.frames, id);
        },
        FrameInput::NavigatedWithinDocument { id, url } => {
            if state.frames.contains_key(id) {
                crate::handler::tree::lemma_wf_own_id(state.main_frame, state.frames, id);
                lemma_wf_replaced(
                    state.main_frame,
                    state.frames,
                    state.frames[id].navigated_within(url),
                );
            }
        },
        FrameInput::StoppedLoading { id } => {
            if state.frames.contains_key(id) {
                crate::handler::tree::lemma_wf_own_id(state.main_frame, state.frames, id);
                lemma_wf_replaced(state.main_frame, state.frames, state.frames[id].loading_stopped());
            }
        },
        FrameInput::Lifecycle { id, loader_id, name } => {
            if state.frames.contains_key(id) {
                crate::handler::tree::lemma_wf_own_id(state.main_frame, state.frames, id);
                lemma_wf_replaced(
                    state.main_frame,
                    state.frames,
                    state.frames[id].lifecycle_event(loader_id, name),
                );
            }
        },
    }
}

/// In a tree the parent of every frame is present and lists the frame among
/// its children, every child of a frame is present and names the frame as its
/// parent, and no frame is its own ancestor.
pub proof fn law_parent_and_child_agree(
    state: FrameManagerView,
    id: Seq<char>,
    other: Seq<char>,
    steps: nat,
)
    requires
        state.wf(),
        state.frames.contains_key(id),
    ensures
        state.frames[id].parent_frame == Some(other) ==> state.frames.contains_key(other)
            && state.frames[other].child_frames.contains(id),
        state.frames[id].child_frames.contains(other) ==> state.frames.contains_key(other)
            && state.frames[other].parent_frame == Some(id),
        steps > 0 ==> ancestor(state.frames, id, steps) != Some(id),
{
    reveal(tree_wf);
    let (depth, bound) = choose|depth: spec_fn(Seq<char>) -> nat, bound: nat|
        ranked(state.main_frame, state.frames, depth, bound);
    if steps > 0 {
        lemma_no_cycle(state.main_frame, state.frames, id, steps);
    }
}

/// The main frame of a tree, where it is present, has no parent, and every
/// frame lies under it.
pub proof fn law_one_main_frame(state: FrameManagerView, id: Seq<char>)
    requires
        state.wf(),
        state.frames.contains_key(id),
    ensures
        state.main_frame matches Some(main) && state.frames.contains_key(main)
            && state.frames[main].parent_frame is None && in_subtree(state.frames, id, main),
{
    lemma_under_main(state.main_frame, state.frames, id);
}

/// A lifecycle event `init` leaves the frame with the loader of the event and
/// with no lifecycle event of an earlier load: `init` is all it has reached.
pub proof fn law_init_starts_a_load(state: FrameManagerView, id: Seq<char>, loader_id: Seq<char>)
    requires
        state.frames.contains_key(id),
    ensures
        state.lifecycle_event(id, loader_id, "init"@).frames[id].loader_id == Some(loader_id),
        state.lifecycle_event(id, loader_id, "init"@).frames[id].lifecycle_events == set![
            "init"@,
        ],
{
    let after = state.lifecycle_event(id, loader_id, "init"@).frames[id];
    assert(after.lifecycle_events =~= set!["init"@]);
}

/// Attaching the same frame a second time changes nothing.
pub proof fn law_attach_twice(state: FrameManagerView, id: Seq<char>, parent: Option<Seq<char>>)
    ensures
        state.frame_attached(id, parent).frame_attached(id, parent) == state.frame_attached(
            id,
            parent,
        ),
{
}

/// When the frame of the navigation under way is detached, the next poll in
/// time reports that the frame was not found.
pub proof fn law_detached_frame_is_not_found(state: FrameManagerView, now: u64)
    requires
        state.navigation matches Some((watcher, deadline)) && now <= deadline,
    ensures
        ({
            let (watcher, deadline) = state.navigation->0;
            let polled = state.frame_detached(watcher.frame_id).polled(now);
            &&& polled.1 == Some(
                FrameEventView::NavigationResult(
                    Err(
                        NavigationErrorView::FrameNotFound {
                            id: watcher.id,
                            frame: watcher.frame_id,
                        },
                    ),
                ),
            )
            &&& polled.0.navigation is None
        }),
{
    let (watcher, deadline) = state.navigation->0;
    let id = watcher.frame_id;
    if state.frames.contains_key(id) {
        assert(ancestor(state.frames, id, 0) == Some(id));
        assert(in_subtree(state.frames, id, id));
    }
    assert(!detached(state.frames, id).contains_key(id));
}

/// Frames that keep their parents keep their subtrees.
proof fn lemma_subtree_same_links(before: FrameMap, after: FrameMap, id: Seq<char>, root: Seq<char>)
    requires
        before.dom() == after.dom(),
        forall|k: Seq<char>| #[trigger]
            before.contains_key(k) ==> after[k].parent_frame == before[k].parent_frame,
    ensures
        in_subtree(before, id, root) == in_subtree(after, id, root),
{
    assert forall|k: Seq<char>| #[trigger] after.contains_key(k) implies before.contains_key(k)
        && before[k].parent_frame == after[k].parent_frame by {
        assert(after.dom().contains(k));
    }
    assert forall|k: Seq<char>| #[trigger] before.contains_key(k) implies after.contains_key(k)
        && after[k].parent_frame == before[k].parent_frame by {
        assert(before.dom().contains(k));
    }
    if in_subtree(before, id, root) {
        let steps = choose|steps: nat| ancestor(before, id, steps) == Some(root);
        lemma_ancestor_in_larger(before, after, id, steps);
    }
    if in_subtree(after, id, root) {
        let steps = choose|steps: nat| ancestor(after, id, steps) == Some(root);
        lemma_ancestor_in_larger(after, before, id, steps);
    }
}

/// Frames that keep their parents and lose no lifecycle event stay as far as
/// they were.
proof fn lemma_reached_is_kept(
    before: FrameMap,
    after: FrameMap,
    root: Seq<char>,
    expected: Set<Seq<char>>,
)
    requires
        before.dom() == after.dom(),
        forall|k: Seq<char>| #[trigger]
            before.contains_key(k) ==> after[k].parent_frame == before[k].parent_frame
                && before[k].lifecycle_events.subset_of(after[k].lifecycle_events),
        lifecycle_reached(before, root, expected),
    ensures
        lifecycle_reached(after, root, expected),
{
    reveal(lifecycle_reached);
    assert forall|k: Seq<char>| #[trigger] in_subtree(after, k, root) implies expected.subset_of(
        after[k].lifecycle_events,
    ) by {
        lemma_subtree_same_links(before, after, k, root);
        crate::handler::tree::lemma_subtree_cases(before, k, root);
        assert(before.contains_key(k));
    }
}

impl FrameInput {
    /// Whether the report takes nothing back of what a navigation has
    /// reached: a frame stopped loading, showed another url of its document,
    /// or reached a lifecycle event other than the `init` of a new load.
    pub open spec fn keeps_progress(self) -> bool {
        match self {
            FrameInput::StoppedLoading { .. } => true,
            FrameInput::NavigatedWithinDocument { .. } => true,
            FrameInput::Lifecycle { name, .. } => name != "init"@,
            _ => false,
        }
    }
}

/// A navigation that has an outcome keeps having one while the browser
/// reports nothing but progress: the next poll in time ends it.
pub proof fn law_completion_is_kept(state: FrameManagerView, input: FrameInput)
    requires
        state.navigation matches Some((watcher, _)) && state.frames.contains_key(watcher.frame_id)
            && watcher.outcome(state.frames) is Some,
        input.keeps_progress(),
    ensures
        ({
            let after = state.apply(input);
            &&& after.navigation matches Some((watcher, deadline))
            &&& deadline == (state.navigation->0).1
            &&& watcher.id == (state.navigation->0).0.id
            &&& after.frames.contains_key(watcher.frame_id)
            &&& watcher.outcome(after.frames) is Some
        }),
{
    let after = state.apply(input);
    let (watcher, deadline) = state.navigation->0;
    assert(after.frames.dom() =~= state.frames.dom());
    lemma_reached_is_kept(state.frames, after.frames, watcher.frame_id, watcher.expected_lifecycle);
}

/// Nor is the outcome of a navigation taken back when a frame is detached
/// that is neither the frame that navigates nor above it.
pub proof fn law_completion_survives_detach(state: FrameManagerView, id: Seq<char>)
    requires
        state.navigation matches Some((watcher, _)) && state.frames.contains_key(watcher.frame_id)
            && watcher.outcome(state.frames) is Some && !in_subtree(
            state.frames,
            watcher.frame_id,
            id,
        ),
    ensures
        ({
            let after = state.frame_detached(id);
            let (watcher, deadline) = state.navigation->0;
            &&& after.navigation == state.navigation
            &&& after.frames.contains_key(watcher.frame_id)
            &&& watcher.outcome(after.frames) == watcher.outcome(state.frames)
        }),
{
    reveal(lifecycle_reached);
    let after = state.frame_detached(id);
    let (watcher, deadline) = state.navigation->0;
    let root = watcher.frame_id;
    assert forall|k: Seq<char>| #[trigger] after.frames.contains_key(k) implies 
        state.frames.contains_key(k) && state.frames[k].parent_frame
        == after.frames[k].parent_frame && state.frames[k].lifecycle_events
        == after.frames[k].lifecycle_events && state.frames[k].loader_id
        == after.frames[k].loader_id by {}
    assert forall|k: Seq<char>| #[trigger] in_subtree(after.frames, k, root) implies 
        watcher.expected_lifecycle.subset_of(after.frames[k].lifecycle_events) by {
        let steps = choose|steps: nat| ancestor(after.frames, k, steps) == Some(root);
        lemma_ancestor_in_larger(after.frames, state.frames, k, steps);
        crate::handler::tree::lemma_ancestor_present(after.frames, k, steps);
        assert(in_subtree(state.frames, k, root));
    }
}

/// A navigation within the document ends the navigation under way in that
/// frame, also when the report comes after the frame has reached all the
/// lifecycle events that the navigation waits for.
pub proof fn law_same_document_completes(state: FrameManagerView, url: Seq<char>, now: u64)
    requires
        state.navigation matches Some((watcher, deadline)) && now <= deadline
            && state.frames.contains_key(watcher.frame_id) && lifecycle_reached(
            state.frames,
            watcher.frame_id,
            watcher.expected_lifecycle,
        ),
    ensures
        ({
            let (watcher, deadline) = state.navigation->0;
            let polled = state.navigated_within_document(watcher.frame_id, url).polled(now);
            &&& polled.1 == Some(
                FrameEventView::NavigationResult(
                    Ok(NavigationOk::SameDocumentNavigation(watcher.id)),
                ),
            )
            &&& polled.0.navigation is None
        }),
{
    let (watcher, deadline) = state.navigation->0;
    let after = state.navigated_within_document(watcher.frame_id, url);
    assert(after.frames.dom() =~= state.frames.dom());
    lemma_reached_is_kept(state.frames, after.frames, watcher.frame_id, watcher.expected_lifecycle);
}

/// The reports that a snapshot of the frame tree stands for: its frame is
/// attached and navigated, then each nested snapshot follows, in order.
pub open spec fn tree_inputs(tree: FrameTree) -> Seq<FrameInput>
    decreases tree, 0nat,
{
    let own = seq![
        FrameInput::Attached { id: tree.frame@.id, parent: tree.frame@.parent_id },
        FrameInput::Navigated { to: tree.frame@ },
    ];
    match tree.child_frames {
        Some(children) => own + trees_inputs(children, children@.len()),
        None => own,
    }
}

/// The reports that the first `count` of `trees` stand for.
pub open spec fn trees_inputs(trees: Vec<FrameTree>, count: nat) -> Seq<FrameInput>
    decreases trees, count,
{
    if count == 0 || count > trees@.len() {
        Seq::empty()
    } else {
        trees_inputs(trees, (count - 1) as nat) + tree_inputs(trees@[count - 1])
    }
}

/// Reports applied one list after the other are the joined list applied.
pub proof fn lemma_apply_joined(
    state: FrameManagerView,
    first: Seq<FrameInput>,
    second: Seq<FrameInput>,
)
    ensures
        state.apply_all(first + second) == state.apply_all(first).apply_all(second),
    decreases second.len(),
{
    if second.len() == 0 {
        assert(first + second =~= first);
    } else {
        lemma_apply_joined(state, first, second.drop_last());
        assert((first + second).drop_last() =~= first + second.drop_last());
        assert((first + second).last() == second.last());
    }
}

/// Taking in a snapshot of the frame tree is the same as taking in, one by
/// one, the reports that it stands for.
pub proof fn law_tree_is_its_reports(state: FrameManagerView, tree: FrameTree)
    ensures
        state.frame_tree(tree) == state.apply_all(tree_inputs(tree)),
    decreases tree, 0nat,
{
    let attach = FrameInput::Attached { id: tree.frame@.id, parent: tree.frame@.parent_id };
    let navigate = FrameInput::Navigated { to: tree.frame@ };
    let own = seq![attach, navigate];
    let here = state.apply(attach).apply(navigate);
    assert(state.apply_all(own) == here) by {
        assert(own.drop_last() =~= seq![attach]);
        assert(seq![attach].drop_last() =~= Seq::<FrameInput>::empty());
        assert(state.apply_all(Seq::<FrameInput>::empty()) == state);
        assert(state.apply_all(seq![attach]) == state.apply(attach));
    }
    match tree.child_frames {
        Some(children) => {
            lemma_trees_are_their_reports(here, children, children@.len());
            lemma_apply_joined(state, own, trees_inputs(children, children@.len()));
        },
        None => {},
    }
}

/// The same of a list of snapshots.
pub proof fn lemma_trees_are_their_reports(
    state: FrameManagerView,
    trees: Vec<FrameTree>,
    count: nat,
)
    ensures
        state.frame_trees(trees, count) == state.apply_all(trees_inputs(trees, count)),
    decreases trees, count,
{
    if count == 0 || count > trees@.len() {
    } else {
        let before = (count - 1) as nat;
        lemma_trees_are_their_reports(state, trees, before);
        law_tree_is_its_reports(state.frame_trees(trees, before), trees@[count - 1]);
        lemma_apply_joined(state, trees_inputs(trees, before), tree_inputs(trees@[count - 1]));
    }
}

/// Whether every frame of the snapshot names a parent.
pub open spec fn all_have_parents(tree: FrameTree) -> bool
    decreases tree, 0nat,
{
    &&& tree.frame@.parent_id is Some
    &&& match tree.child_frames {
        Some(children) => first_have_parents(children, children@.len()),
        None => true,
    }
}

/// Whether every frame of the first `count` of `trees` names a parent.
pub open spec fn first_have_parents(trees: Vec<FrameTree>, count: nat) -> bool
    decreases trees, count,
{
    if count == 0 || count > trees@.len() {
        true
    } else {
        first_have_parents(trees, (count - 1) as nat) && all_have_parents(trees@[count - 1])
    }
}

/// Whether the snapshot is one of a whole page: its own frame has no parent,
/// and every frame nested in it names one.
pub open spec fn is_page_snapshot(tree: FrameTree) -> bool {
    &&& tree.frame@.parent_id is None
    &&& match tree.child_frames {
        Some(children) => first_have_parents(children, children@.len()),
        None => true,
    }
}

/// A snapshot leaves the frames a tree, and touches no navigation; one whose
/// frames all name a parent leaves the main frame what it is.
pub proof fn lemma_tree_taken_in(state: FrameManagerView, tree: FrameTree)
    requires
        state.wf(),
    ensures
        state.frame_tree(tree).wf(),
        state.frame_tree(tree).pending_navigations == state.pending_navigations,
        state.frame_tree(tree).navigation == state.navigation,
        all_have_parents(tree) ==> state.frame_tree(tree).main_frame == state.main_frame,
    decreases tree, 0nat,
{
    let attach = FrameInput::Attached { id: tree.frame@.id, parent: tree.frame@.parent_id };
    let navigate = FrameInput::Navigated { to: tree.frame@ };
    law_tree_is_kept(state, attach);
    law_tree_is_kept(state.apply(attach), navigate);
    let here = state.apply(attach).apply(navigate);
    match tree.child_frames {
        Some(children) => {
            lemma_trees_taken_in(here, children, children@.len());
        },
        None => {},
    }
}

/// The same of a list of snapshots.
pub proof fn lemma_trees_taken_in(state: FrameManagerView, trees: Vec<FrameTree>, count: nat)
    requires
        state.wf(),
    ensures
        state.frame_trees(trees, count).wf(),
        state.frame_trees(trees, count).pending_navigations == state.pending_navigations,
        state.frame_trees(trees, count).navigation == state.navigation,
        first_have_parents(trees, count) ==> state.frame_trees(trees, count).main_frame
            == state.main_frame,
    decreases trees, count,
{
    if count == 0 || count > trees@.len() {
    } else {
        let before = (count - 1) as nat;
        lemma_trees_taken_in(state, trees, before);
        lemma_tree_taken_in(state.frame_trees(trees, before), trees@[count - 1]);
    }
}

/// After the snapshot of a whole page was taken in by a manager that knew
/// nothing, detaching its frame and taking the snapshot in again gives the
/// frames, and the whole state, that the first time gave.
pub proof fn law_detach_and_replay(tree: FrameTree)
    requires
        is_page_snapshot(tree),
    ensures
        ({
            let first = FrameManagerView::empty().frame_tree(tree);
            first.frame_detached(tree.frame@.id).frame_tree(tree) == first
        }),
{
    let root = tree.frame@.id;
    let unknown = FrameManagerView::empty();
    crate::handler::tree::lemma_wf_empty(None);
    let attach = FrameInput::Attached { id: root, parent: None };
    let navigate = FrameInput::Navigated { to: tree.frame@ };
    law_tree_is_kept(unknown, attach);
    law_tree_is_kept(unknown.apply(attach), navigate);
    let here = unknown.apply(attach).apply(navigate);
    let first = unknown.frame_tree(tree);
    lemma_tree_taken_in(unknown, tree);
    match tree.child_frames {
        Some(children) => {
            lemma_trees_taken_in(here, children, children@.len());
        },
        None => {},
    }
    assert(first.main_frame == Some(root));
    lemma_only_main_subtree(first.main_frame, first.frames);
    if first.frames.contains_key(root) {
        lemma_under_main(first.main_frame, first.frames, root);
    }
    let gone = first.frame_detached(root);
    assert(gone.frames =~= Map::<Seq<char>, FrameView>::empty());
    assert(gone.apply(attach).apply(navigate) == here) by {
        assert(gone.apply(attach).frames =~= gone.frames);
        assert(gone.apply(attach).apply(navigate).frames =~= here.frames);
    }
}

} // verus!
