//! The frame tree as a mathematical map from frame ids to frames, the
//! transitions that page events make on it, and what they preserve.

use vstd::prelude::*;
use crate::cdp::FrameInfo;
use crate::handler::model::FrameView;

verus! {

/// The frames of a page by id.
pub type FrameMap = Map<Seq<char>, FrameView>;

/// The frame reached from `id` by following parent links `steps` times, as
/// long as every frame on the way is in the map.
pub open spec fn ancestor(frames: FrameMap, id: Seq<char>, steps: nat) -> Option<Seq<char>>
    decreases steps,
{
    if !frames.contains_key(id) {
        None
    } else if steps == 0 {
        Some(id)
    } else {
        match frames[id].parent_frame {
            Some(parent) => ancestor(frames, parent, (steps - 1) as nat),
            None => None,
        }
    }
}

/// Whether `id` is `root` or one of its descendants.
pub open spec fn in_subtree(frames: FrameMap, id: Seq<char>, root: Seq<char>) -> bool {
    exists|steps: nat| ancestor(frames, id, steps) == Some(root)
}

/// Links that agree wherever both ends are present: each frame is stored
/// under its own id, a child that is present names its parent, and a parent
/// that is present lists its child. Ends may be missing.
#[verifier::opaque]
pub open spec fn linked(frames: FrameMap) -> bool {
    &&& forall|k: Seq<char>| #[trigger] frames.contains_key(k) ==> frames[k].id == k
    &&& forall|k: Seq<char>, c: Seq<char>|
        frames.contains_key(k) && #[trigger] frames[k].child_frames.contains(c)
            && frames.contains_key(c) ==> frames[c].parent_frame == Some(k)
    &&& forall|k: Seq<char>, p: Seq<char>|
        #![trigger frames[p].child_frames.contains(k)]
        frames.contains_key(k) && frames[k].parent_frame == Some(p) && frames.contains_key(p)
            ==> frames[p].child_frames.contains(k)
}

/// `depth` grows from each parent to its children and stays under `bound`,
/// every parent is present and lists its child, and the only frame without a
/// parent is the main frame.
pub open spec fn ranked(
    main_frame: Option<Seq<char>>,
    frames: FrameMap,
    depth: spec_fn(Seq<char>) -> nat,
    bound: nat,
) -> bool {
    forall|k: Seq<char>| #[trigger]
        frames.contains_key(k) ==> depth(k) < bound && match frames[k].parent_frame {
            None => main_frame == Some(k),
            Some(p) => frames.contains_key(p) && frames[p].child_frames.contains(k) && depth(p)
                < depth(k),
        }
}

/// The frames form one tree under the main frame: each frame is stored under
/// its own id, parents and children name each other and are all present, and
/// no frame is its own ancestor.
#[verifier::opaque]
pub open spec fn tree_wf(main_frame: Option<Seq<char>>, frames: FrameMap) -> bool {
    &&& forall|k: Seq<char>| #[trigger] frames.contains_key(k) ==> frames[k].id == k
    &&& forall|k: Seq<char>, c: Seq<char>|
        frames.contains_key(k) && #[trigger] frames[k].child_frames.contains(c)
            ==> frames.contains_key(c) && frames[c].parent_frame == Some(k)
    &&& exists|depth: spec_fn(Seq<char>) -> nat, bound: nat|
        ranked(main_frame, frames, depth, bound)
}

/// Whether every frame in the subtree of `root` has reached all of `expected`.
#[verifier::opaque]
pub open spec fn lifecycle_reached(
    frames: FrameMap,
    root: Seq<char>,
    expected: Set<Seq<char>>,
) -> bool {
    forall|k: Seq<char>| #[trigger]
        in_subtree(frames, k, root) ==> expected.subset_of(frames[k].lifecycle_events)
}

/// The map after frame `id` was attached under `parent`: nothing changes when
/// the frame is known already or the parent is not; else the parent lists the
/// new frame, which has nothing but its id and its parent.
pub open spec fn attached(frames: FrameMap, id: Seq<char>, parent: Option<Seq<char>>) -> FrameMap {
    if frames.contains_key(id) {
        frames
    } else {
        match parent {
            Some(p) => if frames.contains_key(p) {
                frames.insert(
                    p,
                    FrameView { child_frames: frames[p].child_frames.insert(id), ..frames[p] },
                ).insert(id, FrameView { parent_frame: Some(p), ..FrameView::fresh(id) })
            } else {
                frames
            },
            None => frames,
        }
    }
}

/// The map without the frames of the subtree of `root`.
pub open spec fn without_subtree(frames: FrameMap, root: Seq<char>) -> FrameMap {
    frames.restrict(Set::new(|k: Seq<char>| !in_subtree(frames, k, root)))
}

/// The map without the proper descendants of `root`.
pub open spec fn without_descendants(frames: FrameMap, root: Seq<char>) -> FrameMap {
    frames.restrict(Set::new(|k: Seq<char>| k == root || !in_subtree(frames, k, root)))
}

/// `frame` with `child` taken out of its children.
pub open spec fn unlinked(frame: FrameView, child: Seq<char>) -> FrameView {
    FrameView { child_frames: frame.child_frames.remove(child), ..frame }
}

/// The map after frame `id` was detached: the frame and all its descendants
/// are gone, and its parent no longer lists it.
pub open spec fn detached(frames: FrameMap, id: Seq<char>) -> FrameMap {
    if !frames.contains_key(id) {
        frames
    } else {
        let rest = without_subtree(frames, id);
        match frames[id].parent_frame {
            Some(p) => if rest.contains_key(p) {
                rest.insert(p, unlinked(rest[p], id))
            } else {
                rest
            },
            None => rest,
        }
    }
}

/// The map after the browser reported that a frame with a parent navigated:
/// a frame that is not known is not taken up; a known one loses its
/// descendants and shows the new name and url.
pub open spec fn child_navigated(frames: FrameMap, to: FrameInfo) -> FrameMap {
    if frames.contains_key(to.id) {
        without_descendants(frames, to.id).insert(
            to.id,
            FrameView {
                child_frames: Set::empty(),
                ..frames[to.id].navigated(to.name, to.url, to.url_fragment)
            },
        )
    } else {
        frames
    }
}

/// The map after the browser reported that a frame without parent navigated:
/// the main frame, if there is one, loses its descendants and goes on under
/// the new id and loader; else a new frame is made. Either way the frame shows
/// the new name and url.
pub open spec fn main_navigated(
    main_frame: Option<Seq<char>>,
    frames: FrameMap,
    to: FrameInfo,
) -> FrameMap {
    if main_frame is Some && frames.contains_key(main_frame->0) {
        let main = main_frame->0;
        without_subtree(frames, main).insert(
            to.id,
            FrameView {
                id: to.id,
                loader_id: Some(to.loader_id),
                child_frames: Set::empty(),
                ..frames[main].navigated(to.name, to.url, to.url_fragment)
            },
        )
    } else {
        frames.insert(to.id, FrameView::fresh(to.id).navigated(to.name, to.url, to.url_fragment))
    }
}

/// Whether `id` lies in the subtree of none of `roots`.
pub open spec fn outside(frames: FrameMap, roots: Set<Seq<char>>, id: Seq<char>) -> bool {
    forall|r: Seq<char>| roots.contains(r) ==> !in_subtree(frames, id, r)
}

/// The map without the subtrees of all of `roots`.
pub open spec fn pruned(frames: FrameMap, roots: Set<Seq<char>>) -> FrameMap {
    frames.restrict(Set::new(|k: Seq<char>| outside(frames, roots, k)))
}

/// A frame at `steps` above `id` is `later` above the frame at `first` above
/// `id`, where `steps == first + later`.
pub proof fn lemma_ancestor_split(frames: FrameMap, id: Seq<char>, first: nat, later: nat)
    ensures
        ancestor(frames, id, first + later) == match ancestor(frames, id, first) {
            Some(mid) => ancestor(frames, mid, later),
            None => None,
        },
    decreases first,
{
    if frames.contains_key(id) && first > 0 {
        match frames[id].parent_frame {
            Some(parent) => {
                lemma_ancestor_split(frames, parent, (first - 1) as nat, later);
                assert((first - 1) as nat + later == (first + later - 1) as nat);
            },
            None => {},
        }
    }
}

/// Whatever `ancestor` reaches is in the map.
pub proof fn lemma_ancestor_present(frames: FrameMap, id: Seq<char>, steps: nat)
    ensures
        ancestor(frames, id, steps) matches Some(a) ==> frames.contains_key(a)
            && frames.contains_key(id),
    decreases steps,
{
    if frames.contains_key(id) && steps > 0 {
        match frames[id].parent_frame {
            Some(parent) => {
                lemma_ancestor_present(frames, parent, (steps - 1) as nat);
            },
            None => {},
        }
    }
}

/// One more step below: a frame whose parent reaches `root` reaches it too.
pub proof fn lemma_subtree_of_parent(frames: FrameMap, id: Seq<char>, root: Seq<char>)
    requires
        frames.contains_key(id),
        frames[id].parent_frame matches Some(p) && in_subtree(frames, p, root),
    ensures
        in_subtree(frames, id, root),
{
    let p = frames[id].parent_frame->0;
    let steps = choose|steps: nat| ancestor(frames, p, steps) == Some(root);
    assert(ancestor(frames, id, steps + 1) == Some(root));
}

/// A frame that reaches `root` from below is `root` itself or has a parent
/// that reaches it.
pub proof fn lemma_subtree_cases(frames: FrameMap, id: Seq<char>, root: Seq<char>)
    requires
        in_subtree(frames, id, root),
    ensures
        frames.contains_key(id),
        frames.contains_key(root),
        id == root || (frames[id].parent_frame matches Some(p) && in_subtree(frames, p, root)),
{
    let steps = choose|steps: nat| ancestor(frames, id, steps) == Some(root);
    lemma_ancestor_present(frames, id, steps);
    if steps > 0 {
        let p = frames[id].parent_frame->0;
        assert(ancestor(frames, p, (steps - 1) as nat) == Some(root));
    }
}

/// A path in a part of the map is a path in the whole map.
pub proof fn lemma_ancestor_in_larger(small: FrameMap, big: FrameMap, id: Seq<char>, steps: nat)
    requires
        forall|k: Seq<char>| #[trigger]
            small.contains_key(k) ==> big.contains_key(k) && big[k].parent_frame
                == small[k].parent_frame,
    ensures
        ancestor(small, id, steps) matches Some(a) ==> ancestor(big, id, steps) == Some(a),
    decreases steps,
{
    if small.contains_key(id) && steps > 0 {
        match small[id].parent_frame {
            Some(parent) => {
                lemma_ancestor_in_larger(small, big, parent, (steps - 1) as nat);
            },
            None => {},
        }
    }
}

/// A part of a linked map, with the same frames, is linked.
pub proof fn lemma_linked_part(part: FrameMap, frames: FrameMap)
    requires
        linked(frames),
        forall|k: Seq<char>| #[trigger] part.contains_key(k) ==> frames.contains_key(k) && part[k] == frames[k],
    ensures
        linked(part),
{
    reveal(linked);
    assert forall|k: Seq<char>, c: Seq<char>|
        part.contains_key(k) && #[trigger] part[k].child_frames.contains(c)
            && part.contains_key(c) implies part[c].parent_frame == Some(k) by {
        assert(frames[k].child_frames.contains(c));
    }
    assert forall|k: Seq<char>, p: Seq<char>|
        part.contains_key(k) && part[k].parent_frame == Some(p) && part.contains_key(p)
        implies #[trigger] part[p].child_frames.contains(k) by {
        assert(frames[p].child_frames.contains(k));
    }
}

/// A child of a frame of a linked map names that frame as its parent, if it
/// is present; and every frame is stored under its own id.
pub proof fn lemma_linked_child(frames: FrameMap, id: Seq<char>, child: Seq<char>)
    requires
        linked(frames),
        frames.contains_key(id),
    ensures
        frames[id].id == id,
        frames[id].child_frames.contains(child) && frames.contains_key(child)
            ==> frames[child].parent_frame == Some(id),
{
    reveal(linked);
}

/// A frame lies outside one more subtree exactly when it lay outside the
/// others and does not lie in that one.
proof fn lemma_outside_insert(
    frames: FrameMap,
    roots: Set<Seq<char>>,
    root: Seq<char>,
    id: Seq<char>,
)
    ensures
        outside(frames, roots.insert(root), id) <==> outside(frames, roots, id) && !in_subtree(
            frames,
            id,
            root,
        ),
{
    if outside(frames, roots.insert(root), id) {
        assert(roots.insert(root).contains(root));
        assert forall|r: Seq<char>| roots.contains(r) implies !in_subtree(frames, id, r) by {
            assert(roots.insert(root).contains(r));
        }
    }
}

/// A path that starts in a pruned map stays in it.
proof fn lemma_ancestor_in_pruned(
    frames: FrameMap,
    roots: Set<Seq<char>>,
    id: Seq<char>,
    steps: nat,
)
    requires
        pruned(frames, roots).contains_key(id),
    ensures
        ancestor(pruned(frames, roots), id, steps) == ancestor(frames, id, steps),
    decreases steps,
{
    let cur = pruned(frames, roots);
    if steps > 0 {
        match frames[id].parent_frame {
            Some(parent) => {
                if frames.contains_key(parent) {
                    if !cur.contains_key(parent) {
                        let r = choose|r: Seq<char>|
                            roots.contains(r) && in_subtree(frames, parent, r);
                        lemma_subtree_of_parent(frames, id, r);
                        assert(false);
                    }
                    lemma_ancestor_in_pruned(frames, roots, parent, (steps - 1) as nat);
                }
            },
            None => {},
        }
    }
}

/// Detaching a child of a frame that is gone already prunes the subtree of
/// that child and touches nothing else.
pub proof fn lemma_detach_child(
    frames: FrameMap,
    id: Seq<char>,
    roots: Set<Seq<char>>,
    child: Seq<char>,
)
    requires
        linked(frames),
        frames.contains_key(id),
        frames[id].child_frames.contains(child),
        roots.subset_of(frames[id].child_frames),
    ensures
        detached(pruned(frames.remove(id), roots), child) == pruned(
            frames.remove(id),
            roots.insert(child),
        ),
{
    reveal(linked);
    let rest = frames.remove(id);
    let cur = pruned(rest, roots);
    let next = pruned(rest, roots.insert(child));
    if roots.contains(child) {
        assert(roots.insert(child) =~= roots);
    }
    if !cur.contains_key(child) {
        assert forall|k: Seq<char>| cur.contains_key(k) implies !in_subtree(rest, k, child) by {
            if in_subtree(rest, k, child) {
                lemma_subtree_cases(rest, k, child);
                // the child is in the map, so it lies in the subtree of another root
                let r = choose|r: Seq<char>| roots.contains(r) && in_subtree(rest, child, r);
                lemma_subtree_cases(rest, child, r);
                assert(frames[child].parent_frame == Some(id));
                if r != child {
                    lemma_subtree_cases(rest, rest[child].parent_frame->0, r);
                }
            }
        }
        assert forall|k: Seq<char>| next.contains_key(k) <==> cur.contains_key(k) by {
            lemma_outside_insert(rest, roots, child, k);
        }
        assert(next =~= cur);
    } else {
        assert(frames[child].parent_frame == Some(id));
        assert(!cur.contains_key(id));
        assert forall|k: Seq<char>| cur.contains_key(k) implies (in_subtree(cur, k, child)
            <==> in_subtree(rest, k, child)) by {
            if in_subtree(cur, k, child) {
                let steps = choose|steps: nat| ancestor(cur, k, steps) == Some(child);
                lemma_ancestor_in_pruned(rest, roots, k, steps);
            }
            if in_subtree(rest, k, child) {
                let steps = choose|steps: nat| ancestor(rest, k, steps) == Some(child);
                lemma_ancestor_in_pruned(rest, roots, k, steps);
            }
        }
        assert forall|k: Seq<char>| !cur.contains_key(k) implies !in_subtree(cur, k, child) by {
            if in_subtree(cur, k, child) {
                lemma_subtree_cases(cur, k, child);
            }
        }
        assert forall|k: Seq<char>| without_subtree(cur, child).contains_key(k)
            <==> next.contains_key(k) by {
            lemma_outside_insert(rest, roots, child, k);
        }
        assert(without_subtree(cur, child) =~= next);
    }
}

/// A proper descendant of `id` lies in the subtree of one of its children,
/// on a path that does not pass through `id`.
proof fn lemma_child_on_path(frames: FrameMap, id: Seq<char>, k: Seq<char>, steps: nat)
    requires
        linked(frames),
        frames.contains_key(id),
        k != id,
        ancestor(frames, k, steps) == Some(id),
    ensures
        exists|c: Seq<char>|
            frames[id].child_frames.contains(c) && in_subtree(frames.remove(id), k, c),
    decreases steps,
{
    reveal(linked);
    let rest = frames.remove(id);
    let p = frames[k].parent_frame->0;
    assert(ancestor(frames, p, (steps - 1) as nat) == Some(id));
    lemma_ancestor_present(frames, p, (steps - 1) as nat);
    if p == id {
        assert(frames[id].child_frames.contains(k));
        assert(ancestor(rest, k, 0) == Some(k));
    } else {
        lemma_child_on_path(frames, id, p, (steps - 1) as nat);
        let c = choose|c: Seq<char>|
            frames[id].child_frames.contains(c) && in_subtree(rest, p, c);
        lemma_subtree_of_parent(rest, k, c);
    }
}

/// The subtree of a frame is the frame with the subtrees of its children.
pub proof fn lemma_subtree_by_children(frames: FrameMap, id: Seq<char>)
    requires
        linked(frames),
        frames.contains_key(id),
    ensures
        pruned(frames.remove(id), frames[id].child_frames) == without_subtree(frames, id),
{
    reveal(linked);
    let rest = frames.remove(id);
    let children = frames[id].child_frames;
    assert forall|k: Seq<char>, c: Seq<char>|
        children.contains(c) && in_subtree(rest, k, c) implies in_subtree(frames, k, id) by {
        let steps = choose|steps: nat| ancestor(rest, k, steps) == Some(c);
        lemma_ancestor_in_larger(rest, frames, k, steps);
        lemma_ancestor_present(rest, k, steps);
        assert(frames[c].parent_frame == Some(id));
        assert(ancestor(frames, id, 0) == Some(id));
        assert(ancestor(frames, c, 1) == Some(id));
        lemma_ancestor_split(frames, k, steps, 1);
    }
    assert forall|k: Seq<char>| k != id && in_subtree(frames, k, id) implies exists|c: Seq<char>|
        children.contains(c) && in_subtree(rest, k, c) by {
        let steps = choose|steps: nat| ancestor(frames, k, steps) == Some(id);
        lemma_child_on_path(frames, id, k, steps);
    }
    assert(in_subtree(frames, id, id)) by {
        assert(ancestor(frames, id, 0) == Some(id));
    }
    assert(pruned(rest, children) =~= without_subtree(frames, id));
}

/// A tree is linked.
pub proof fn lemma_wf_linked(main_frame: Option<Seq<char>>, frames: FrameMap)
    requires
        tree_wf(main_frame, frames),
    ensures
        linked(frames),
{
    reveal(tree_wf);
    reveal(linked);
    let (depth, bound) = choose|depth: spec_fn(Seq<char>) -> nat, bound: nat|
        ranked(main_frame, frames, depth, bound);
    assert forall|k: Seq<char>, p: Seq<char>|
        frames.contains_key(k) && frames[k].parent_frame == Some(p) && frames.contains_key(
            p,
        ) implies #[trigger] frames[p].child_frames.contains(k) by {}
}

/// A frame of a tree is stored under its own id.
pub proof fn lemma_wf_own_id(main_frame: Option<Seq<char>>, frames: FrameMap, id: Seq<char>)
    requires
        tree_wf(main_frame, frames),
        frames.contains_key(id),
    ensures
        frames[id].id == id,
{
    reveal(tree_wf);
}

/// A tree has a depth for its frames.
pub proof fn lemma_wf_ranked(main_frame: Option<Seq<char>>, frames: FrameMap) -> (rank: (
    spec_fn(Seq<char>) -> nat,
    nat,
))
    requires
        tree_wf(main_frame, frames),
    ensures
        ranked(main_frame, frames, rank.0, rank.1),
{
    reveal(tree_wf);
    choose|depth: spec_fn(Seq<char>) -> nat, bound: nat| ranked(main_frame, frames, depth, bound)
}

/// Depth does not shrink on the way down from `root`.
proof fn lemma_depth_in_subtree(
    main_frame: Option<Seq<char>>,
    frames: FrameMap,
    depth: spec_fn(Seq<char>) -> nat,
    bound: nat,
    id: Seq<char>,
    root: Seq<char>,
    steps: nat,
)
    requires
        ranked(main_frame, frames, depth, bound),
        ancestor(frames, id, steps) == Some(root),
    ensures
        depth(root) + steps <= depth(id),
    decreases steps,
{
    if steps > 0 {
        let p = frames[id].parent_frame->0;
        lemma_depth_in_subtree(main_frame, frames, depth, bound, p, root, (steps - 1) as nat);
    }
}

/// No frame of a tree lies in the subtree of one of its children.
pub proof fn lemma_no_cycle(
    main_frame: Option<Seq<char>>,
    frames: FrameMap,
    id: Seq<char>,
    steps: nat,
)
    requires
        tree_wf(main_frame, frames),
        steps > 0,
    ensures
        ancestor(frames, id, steps) != Some(id),
{
    reveal(tree_wf);
    let (depth, bound) = choose|depth: spec_fn(Seq<char>) -> nat, bound: nat|
        ranked(main_frame, frames, depth, bound);
    if ancestor(frames, id, steps) == Some(id) {
        lemma_depth_in_subtree(main_frame, frames, depth, bound, id, id, steps);
    }
}

/// A child of a frame of a tree is present, lies deeper than the frame, and
/// under the bound.
pub proof fn lemma_child_deeper(
    main_frame: Option<Seq<char>>,
    frames: FrameMap,
    depth: spec_fn(Seq<char>) -> nat,
    bound: nat,
    id: Seq<char>,
    child: Seq<char>,
)
    requires
        tree_wf(main_frame, frames),
        ranked(main_frame, frames, depth, bound),
        frames.contains_key(id),
        frames[id].child_frames.contains(child),
    ensures
        frames.contains_key(child),
        frames[child].id == child,
        depth(id) < depth(child) < bound,
{
    reveal(tree_wf);
    assert(frames.contains_key(child) && frames[child].parent_frame == Some(id));
}

/// Every frame that has a depth reaches the main frame, which has no parent.
proof fn lemma_reaches_main(
    main_frame: Option<Seq<char>>,
    frames: FrameMap,
    depth: spec_fn(Seq<char>) -> nat,
    bound: nat,
    id: Seq<char>,
)
    requires
        ranked(main_frame, frames, depth, bound),
        frames.contains_key(id),
    ensures
        main_frame matches Some(root) && in_subtree(frames, id, root) && frames.contains_key(root)
            && frames[root].parent_frame is None,
    decreases depth(id),
{
    match frames[id].parent_frame {
        Some(p) => {
            lemma_reaches_main(main_frame, frames, depth, bound, p);
            lemma_subtree_of_parent(frames, id, main_frame->0);
        },
        None => {
            assert(ancestor(frames, id, 0) == Some(id));
        },
    }
}

/// Every frame of a tree lies under the main frame, which is present and has
/// no parent.
pub proof fn lemma_under_main(main_frame: Option<Seq<char>>, frames: FrameMap, id: Seq<char>)
    requires
        tree_wf(main_frame, frames),
        frames.contains_key(id),
    ensures
        main_frame matches Some(root) && in_subtree(frames, id, root) && frames.contains_key(root)
            && frames[root].parent_frame is None,
{
    reveal(tree_wf);
    let (depth, bound) = choose|depth: spec_fn(Seq<char>) -> nat, bound: nat|
        ranked(main_frame, frames, depth, bound);
    lemma_reaches_main(main_frame, frames, depth, bound, id);
}

/// Without the subtree of its main frame a tree is empty; so is a tree whose
/// main frame is unknown or absent.
pub proof fn lemma_only_main_subtree(main_frame: Option<Seq<char>>, frames: FrameMap)
    requires
        tree_wf(main_frame, frames),
    ensures
        match main_frame {
            Some(root) => if frames.contains_key(root) {
                without_subtree(frames, root) == Map::<Seq<char>, FrameView>::empty()
            } else {
                frames == Map::<Seq<char>, FrameView>::empty()
            },
            None => frames == Map::<Seq<char>, FrameView>::empty(),
        },
{
    reveal(tree_wf);
    assert forall|k: Seq<char>| frames.contains_key(k) implies main_frame matches Some(root)
        && in_subtree(frames, k, root) && frames.contains_key(root) by {
        lemma_under_main(main_frame, frames, k);
    }
    match main_frame {
        Some(root) => {
            if frames.contains_key(root) {
                assert(without_subtree(frames, root) =~= Map::<Seq<char>, FrameView>::empty());
            } else {
                assert(frames =~= Map::<Seq<char>, FrameView>::empty());
            }
        },
        None => {
            assert(frames =~= Map::<Seq<char>, FrameView>::empty());
        },
    }
}

/// In a tree the subtree of a frame is the frame with the subtrees of its
/// children.
pub proof fn lemma_subtree_children(
    main_frame: Option<Seq<char>>,
    frames: FrameMap,
    root: Seq<char>,
    id: Seq<char>,
)
    requires
        tree_wf(main_frame, frames),
        frames.contains_key(root),
    ensures
        in_subtree(frames, id, root) <==> id == root || exists|c: Seq<char>|
            frames[root].child_frames.contains(c) && in_subtree(frames, id, c),
{
    reveal(tree_wf);
    let (depth, bound) = choose|depth: spec_fn(Seq<char>) -> nat, bound: nat|
        ranked(main_frame, frames, depth, bound);
    if in_subtree(frames, id, root) && id != root {
        let steps = choose|steps: nat| ancestor(frames, id, steps) == Some(root);
        lemma_ancestor_split(frames, id, (steps - 1) as nat, 1);
        let c = ancestor(frames, id, (steps - 1) as nat)->0;
        lemma_ancestor_present(frames, id, (steps - 1) as nat);
        assert(frames.contains_key(c));
        assert(frames[c].parent_frame == Some(root)) by {
            reveal_with_fuel(ancestor, 2);
        }
        assert(frames[root].child_frames.contains(c));
        assert(in_subtree(frames, id, c));
    }
    if id == root {
        assert(ancestor(frames, id, 0) == Some(root));
    }
    if exists|c: Seq<char>| frames[root].child_frames.contains(c) && in_subtree(frames, id, c) {
        let c = choose|c: Seq<char>|
            frames[root].child_frames.contains(c) && in_subtree(frames, id, c);
        let steps = choose|steps: nat| ancestor(frames, id, steps) == Some(c);
        assert(frames.contains_key(c) && frames[c].parent_frame == Some(root));
        assert(ancestor(frames, root, 0) == Some(root));
        assert(ancestor(frames, c, 1) == Some(root));
        lemma_ancestor_split(frames, id, steps, 1);
    }
}

/// In a tree a frame and its descendants have reached `expected` exactly when
/// the frame has and each of its children, with its descendants, has.
pub proof fn lemma_reached_by_children(
    main_frame: Option<Seq<char>>,
    frames: FrameMap,
    root: Seq<char>,
    expected: Set<Seq<char>>,
)
    requires
        tree_wf(main_frame, frames),
        frames.contains_key(root),
    ensures
        lifecycle_reached(frames, root, expected) <==> expected.subset_of(
            frames[root].lifecycle_events,
        ) && forall|c: Seq<char>| #[trigger]
            frames[root].child_frames.contains(c) ==> lifecycle_reached(frames, c, expected),
{
    reveal(lifecycle_reached);
    if lifecycle_reached(frames, root, expected) {
        lemma_subtree_children(main_frame, frames, root, root);
        assert(in_subtree(frames, root, root));
        assert forall|c: Seq<char>| #[trigger]
            frames[root].child_frames.contains(c) implies lifecycle_reached(
            frames,
            c,
            expected,
        ) by {
            assert forall|k: Seq<char>| #[trigger] in_subtree(frames, k, c) implies expected.subset_of(
                frames[k].lifecycle_events,
            ) by {
                lemma_subtree_children(main_frame, frames, root, k);
            }
        }
    }
    if expected.subset_of(frames[root].lifecycle_events) && forall|c: Seq<char>| #[trigger]
        frames[root].child_frames.contains(c) ==> lifecycle_reached(frames, c, expected) {
        assert forall|k: Seq<char>| #[trigger] in_subtree(frames, k, root) implies expected.subset_of(
            frames[k].lifecycle_events,
        ) by {
            lemma_subtree_children(main_frame, frames, root, k);
            if k != root {
                let c = choose|c: Seq<char>|
                    frames[root].child_frames.contains(c) && in_subtree(frames, k, c);
                assert(lifecycle_reached(frames, c, expected));
            }
        }
    }
}

/// The empty map is a tree, whatever the main frame is said to be.
pub proof fn lemma_wf_empty(main_frame: Option<Seq<char>>)
    ensures
        tree_wf(main_frame, Map::<Seq<char>, FrameView>::empty()),
{
    reveal(tree_wf);
    let depth = |k: Seq<char>| 0nat;
    assert(ranked(main_frame, Map::<Seq<char>, FrameView>::empty(), depth, 1));
}

/// A single frame without parent and children is a tree under itself.
pub proof fn lemma_wf_single(frame: FrameView)
    requires
        frame.parent_frame is None,
        frame.child_frames == Set::<Seq<char>>::empty(),
    ensures
        tree_wf(Some(frame.id), Map::<Seq<char>, FrameView>::empty().insert(frame.id, frame)),
{
    reveal(tree_wf);
    let frames = Map::<Seq<char>, FrameView>::empty().insert(frame.id, frame);
    let depth = |k: Seq<char>| 0nat;
    assert(ranked(Some(frame.id), frames, depth, 1));
}

/// Attaching a frame keeps the tree.
pub proof fn lemma_wf_attached(
    main_frame: Option<Seq<char>>,
    frames: FrameMap,
    id: Seq<char>,
    parent: Option<Seq<char>>,
)
    requires
        tree_wf(main_frame, frames),
    ensures
        tree_wf(main_frame, attached(frames, id, parent)),
{
    reveal(tree_wf);
    let after = attached(frames, id, parent);
    if after != frames {
        let p = parent->0;
        let (depth, bound) = choose|depth: spec_fn(Seq<char>) -> nat, bound: nat|
            ranked(main_frame, frames, depth, bound);
        let deeper = |k: Seq<char>|
            if k == id {
                depth(p) + 1
            } else {
                depth(k)
            };
        assert forall|k: Seq<char>| #[trigger] after.contains_key(k) implies deeper(k) < bound + 1
            && match after[k].parent_frame {
            None => main_frame == Some(k),
            Some(q) => after.contains_key(q) && after[q].child_frames.contains(k) && deeper(q)
                < deeper(k),
        } by {
            if k != id {
                assert(frames.contains_key(k));
            }
        }
        assert(ranked(main_frame, after, deeper, bound + 1));
        assert forall|k: Seq<char>, c: Seq<char>|
            after.contains_key(k) && #[trigger] after[k].child_frames.contains(c) implies 
            after.contains_key(c) && after[c].parent_frame == Some(k) by {
            if k != id && c != id {
                assert(frames.contains_key(k));
                assert(frames[k].child_frames.contains(c));
            }
        }
    }
}

/// Detaching a frame keeps the tree.
pub proof fn lemma_wf_detached(main_frame: Option<Seq<char>>, frames: FrameMap, id: Seq<char>)
    requires
        tree_wf(main_frame, frames),
    ensures
        tree_wf(main_frame, detached(frames, id)),
{
    reveal(tree_wf);
    let after = detached(frames, id);
    if frames.contains_key(id) {
        let (depth, bound) = choose|depth: spec_fn(Seq<char>) -> nat, bound: nat|
            ranked(main_frame, frames, depth, bound);
        assert(in_subtree(frames, id, id)) by {
            assert(ancestor(frames, id, 0) == Some(id));
        }
        assert forall|k: Seq<char>| #[trigger] after.contains_key(k) implies frames.contains_key(k)
            && !in_subtree(frames, k, id) && after[k].parent_frame == frames[k].parent_frame
            && after[k].id == frames[k].id && after[k].child_frames.subset_of(
            frames[k].child_frames,
        ) && !after[k].child_frames.contains(id) by {
            if frames[k].child_frames.contains(id) {
                assert(frames[id].parent_frame == Some(k));
            }
        }
        assert forall|k: Seq<char>| #[trigger] after.contains_key(k) implies depth(k) < bound
            && match after[k].parent_frame {
            None => main_frame == Some(k),
            Some(q) => after.contains_key(q) && after[q].child_frames.contains(k) && depth(q)
                < depth(k),
        } by {
            assert(frames.contains_key(k));
            match frames[k].parent_frame {
                Some(q) => {
                    if in_subtree(frames, q, id) {
                        lemma_subtree_of_parent(frames, k, id);
                    }
                    assert(frames.contains_key(q) && !in_subtree(frames, q, id));
                    assert(after.contains_key(q));
                    assert(frames[q].child_frames.contains(k));
                    assert(k != id);
                    assert(after[q].child_frames.contains(k));
                },
                None => {},
            }
        }
        assert(ranked(main_frame, after, depth, bound));
        assert forall|k: Seq<char>, c: Seq<char>|
            after.contains_key(k) && #[trigger] after[k].child_frames.contains(c) implies 
            after.contains_key(c) && after[c].parent_frame == Some(k) by {
            assert(frames[k].child_frames.contains(c));
            assert(frames.contains_key(c) && frames[c].parent_frame == Some(k));
            if in_subtree(frames, c, id) {
                lemma_subtree_cases(frames, c, id);
            }
            assert(after.contains_key(c));
        }
    }
}

/// Replacing a frame by one with the same id, parent and children keeps the
/// tree.
pub proof fn lemma_wf_replaced(
    main_frame: Option<Seq<char>>,
    frames: FrameMap,
    frame: FrameView,
)
    requires
        tree_wf(main_frame, frames),
        frames.contains_key(frame.id),
        frame.parent_frame == frames[frame.id].parent_frame,
        frame.child_frames == frames[frame.id].child_frames,
    ensures
        tree_wf(main_frame, frames.insert(frame.id, frame)),
{
    reveal(tree_wf);
    let after = frames.insert(frame.id, frame);
    let (depth, bound) = choose|depth: spec_fn(Seq<char>) -> nat, bound: nat|
        ranked(main_frame, frames, depth, bound);
    assert forall|k: Seq<char>| #[trigger] after.contains_key(k) implies depth(k) < bound
        && match after[k].parent_frame {
        None => main_frame == Some(k),
        Some(q) => after.contains_key(q) && after[q].child_frames.contains(k) && depth(q) < depth(
            k,
        ),
    } by {
        assert(frames.contains_key(k));
    }
    assert(ranked(main_frame, after, depth, bound));
    assert forall|k: Seq<char>, c: Seq<char>|
        after.contains_key(k) && #[trigger] after[k].child_frames.contains(c) implies 
        after.contains_key(c) && after[c].parent_frame == Some(k) by {
        assert(frames.contains_key(k));
        assert(frames[k].child_frames.contains(c));
    }
}

/// The navigation of a frame with a parent keeps the tree.
pub proof fn lemma_wf_child_navigated(
    main_frame: Option<Seq<char>>,
    frames: FrameMap,
    to: FrameInfo,
)
    requires
        tree_wf(main_frame, frames),
    ensures
        tree_wf(main_frame, child_navigated(frames, to)),
{
    reveal(tree_wf);
    let after = child_navigated(frames, to);
    let id = to.id;
    if frames.contains_key(id) {
        let (depth, bound) = choose|depth: spec_fn(Seq<char>) -> nat, bound: nat|
            ranked(main_frame, frames, depth, bound);
        assert forall|k: Seq<char>| #[trigger] after.contains_key(k) implies frames.contains_key(k)
            && (k == id || !in_subtree(frames, k, id)) && after[k].parent_frame
            == frames[k].parent_frame && after[k].id == frames[k].id && (k != id ==> after[k]
            == frames[k]) by {}
        assert forall|k: Seq<char>| #[trigger] after.contains_key(k) implies depth(k) < bound
            && match after[k].parent_frame {
            None => main_frame == Some(k),
            Some(q) => after.contains_key(q) && after[q].child_frames.contains(k) && depth(q)
                < depth(k),
        } by {
            assert(frames.contains_key(k));
            match frames[k].parent_frame {
                Some(q) => {
                    if q != id && in_subtree(frames, q, id) {
                        lemma_subtree_of_parent(frames, k, id);
                        // then k is the navigated frame, below its own parent
                        let steps = choose|steps: nat| ancestor(frames, q, steps) == Some(id);
                        lemma_depth_in_subtree(main_frame, frames, depth, bound, q, id, steps);
                    }
                    if q == id {
                        assert(ancestor(frames, id, 0) == Some(id));
                        assert(ancestor(frames, k, 1) == Some(id));
                        assert(in_subtree(frames, k, id));
                    }
                },
                None => {},
            }
        }
        assert(ranked(main_frame, after, depth, bound));
        assert forall|k: Seq<char>, c: Seq<char>|
            after.contains_key(k) && #[trigger] after[k].child_frames.contains(c) implies 
            after.contains_key(c) && after[c].parent_frame == Some(k) by {
            assert(k != id);
            assert(frames[k].child_frames.contains(c));
            assert(frames.contains_key(c) && frames[c].parent_frame == Some(k));
            if c != id && in_subtree(frames, c, id) {
                lemma_subtree_cases(frames, c, id);
            }
        }
    }
}

/// The navigation of a frame without parent leaves a tree of that one frame.
pub proof fn lemma_wf_main_navigated(
    main_frame: Option<Seq<char>>,
    frames: FrameMap,
    to: FrameInfo,
)
    requires
        tree_wf(main_frame, frames),
    ensures
        tree_wf(Some(to.id), main_navigated(main_frame, frames, to)),
        main_navigated(main_frame, frames, to).dom() == set![to.id],
{
    reveal(tree_wf);
    let after = main_navigated(main_frame, frames, to);
    lemma_only_main_subtree(main_frame, frames);
    if main_frame is Some && frames.contains_key(main_frame->0) {
        lemma_under_main(main_frame, frames, main_frame->0);
    }
    lemma_wf_single(after[to.id]);
    assert(after =~= Map::<Seq<char>, FrameView>::empty().insert(to.id, after[to.id]));
    assert(after.dom() =~= set![to.id]);
}

} // verus!
