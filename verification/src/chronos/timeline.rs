//! The tree of world snapshots of a story, with the current position.
use vstd::prelude::*;
use std::collections::HashMap;
use crate::prim::{Timestamp, now};

verus! {

broadcast use vstd::std_specs::hash::group_hash_axioms;

/// A snapshot's place in the tree.
#[derive(Debug)]
pub struct TimelineNode {
    pub checkpoint_id: u128,
    pub parent_id: Option<u128>,
    pub children: Vec<u128>,
    pub depth: usize,
    pub created_at: Timestamp,
}

/// Abstract value of a snapshot's place in the tree.
pub struct TimelineNodeView {
    pub checkpoint_id: u128,
    pub parent_id: Option<u128>,
    pub children: Seq<u128>,
    pub depth: usize,
    pub created_at: Timestamp,
}

impl View for TimelineNode {
    type V = TimelineNodeView;

    open spec fn view(&self) -> TimelineNodeView {
        TimelineNodeView {
            checkpoint_id: self.checkpoint_id,
            parent_id: self.parent_id,
            children: self.children@,
            depth: self.depth,
            created_at: self.created_at,
        }
    }
}

/// The snapshot tree of one story.
#[derive(Debug)]
pub struct Timeline {
    pub story_id: u128,
    pub nodes: HashMap<u128, TimelineNode>,
    pub current_id: Option<u128>,
    pub root_id: Option<u128>,
}

/// Abstract state of a snapshot tree.
pub struct TimelineModel {
    pub nodes: Map<u128, TimelineNodeView>,
    pub current: Option<u128>,
    pub root: Option<u128>,
}

/// The depth a snapshot gets under `parent`: one below a stored parent, 0
/// otherwise.
pub open spec fn depth_under(m: TimelineModel, parent: Option<u128>) -> int {
    match parent {
        Some(p) => if m.nodes.contains_key(p) {
            m.nodes[p].depth + 1
        } else {
            0
        },
        None => 0,
    }
}

/// The tree after recording snapshot `id` under `parent` at time `at`: the
/// stored parent lists it as a child, it becomes the current snapshot, and
/// the root if there was none.
pub open spec fn added(m: TimelineModel, id: u128, parent: Option<u128>, at: Timestamp) -> TimelineModel {
    let with_child = match parent {
        Some(p) => if m.nodes.contains_key(p) {
            m.nodes.insert(p, TimelineNodeView { children: m.nodes[p].children.push(id), ..m.nodes[p] })
        } else {
            m.nodes
        },
        None => m.nodes,
    };
    TimelineModel {
        nodes: with_child.insert(id, TimelineNodeView {
            checkpoint_id: id,
            parent_id: parent,
            children: Seq::empty(),
            depth: depth_under(m, parent) as usize,
            created_at: at,
        }),
        current: Some(id),
        root: if m.root is None { Some(id) } else { m.root },
    }
}

/// The depth of the current snapshot (0 when there is none stored).
pub open spec fn depth_of_current(m: TimelineModel) -> int {
    match m.current {
        Some(id) => if m.nodes.contains_key(id) {
            m.nodes[id].depth as int
        } else {
            0
        },
        None => 0,
    }
}

impl Timeline {
    /// The abstract state of this tree.
    pub open spec fn model(&self) -> TimelineModel {
        TimelineModel {
            nodes: self.nodes@.map_values(|n: TimelineNode| n@),
            current: self.current_id,
            root: self.root_id,
        }
    }

    /// An empty tree for story `story_id`.
    pub fn new(story_id: u128) -> (t: Self)
        ensures
            t.story_id == story_id,
            t.model().nodes == Map::<u128, TimelineNodeView>::empty(),
            t.current_id is None,
            t.root_id is None,
    {
        let t = Timeline { story_id, nodes: HashMap::new(), current_id: None, root_id: None };
        assert(t.model().nodes =~= Map::<u128, TimelineNodeView>::empty());
        t
    }

    /// Records snapshot `checkpoint_id` under `parent_id`, stamped with the
    /// current time, and makes it the current snapshot.
    pub fn add_checkpoint(&mut self, checkpoint_id: u128, parent_id: Option<u128>)
        requires
            depth_under(old(self).model(), parent_id) <= usize::MAX,
        ensures
            final(self).model() == added(old(self).model(), checkpoint_id, parent_id,
                final(self).model().nodes[checkpoint_id].created_at),
            final(self).story_id == old(self).story_id,
    {
        let ghost m = self.model();
        let depth: usize = match parent_id {
            Some(pid) => match self.nodes.get(&pid) {
                Some(p) => p.depth + 1,
                None => 0,
            },
            None => 0,
        };
        let ghost with_child = match parent_id {
            Some(p) => if m.nodes.contains_key(p) {
                m.nodes.insert(p, TimelineNodeView { children: m.nodes[p].children.push(checkpoint_id), ..m.nodes[p] })
            } else {
                m.nodes
            },
            None => m.nodes,
        };
        match parent_id {
            Some(pid) => match self.nodes.remove(&pid) {
                Some(mut parent) => {
                    parent.children.push(checkpoint_id);
                    self.nodes.insert(pid, parent);
                },
                None => {},
            },
            None => {},
        }
        assert(self.nodes@.map_values(|n: TimelineNode| n@) =~= with_child);
        if self.root_id.is_none() {
            self.root_id = Some(checkpoint_id);
        }
        let node = TimelineNode {
            checkpoint_id,
            parent_id,
            children: Vec::new(),
            depth,
            created_at: now(),
        };
        self.nodes.insert(checkpoint_id, node);
        self.current_id = Some(checkpoint_id);
        proof {
            let at = self.model().nodes[checkpoint_id].created_at;
            assert(self.model().nodes =~= added(m, checkpoint_id, parent_id, at).nodes);
        }
    }

    /// The depth of the current snapshot, or 0 when there is none.
    pub fn current_depth(&self) -> (d: usize)
        ensures
            d == depth_of_current(self.model()),
    {
        match self.current_id {
            Some(id) => match self.nodes.get(&id) {
                Some(n) => n.depth,
                None => 0,
            },
            None => 0,
        }
    }
}

/// A snapshot recorded under a stored parent lies one level below it, and
/// becomes the current snapshot.
pub proof fn lemma_added_child_depth(m: TimelineModel, id: u128, p: u128, at: Timestamp)
    requires
        m.nodes.contains_key(p),
        m.nodes[p].depth < usize::MAX,
    ensures
        depth_of_current(added(m, id, Some(p), at)) == m.nodes[p].depth + 1,
        added(m, id, Some(p), at).nodes[id].parent_id == Some(p),
        id != p ==> added(m, id, Some(p), at).nodes[p].children.last() == id,
{
}

/// The first snapshot of a tree becomes its root, and a later one leaves
/// the root in place.
pub proof fn lemma_added_root(m: TimelineModel, id: u128, parent: Option<u128>, at: Timestamp)
    ensures
        m.root is None ==> added(m, id, parent, at).root == Some(id),
        m.root is Some ==> added(m, id, parent, at).root == m.root,
{
}

/// Recording a snapshot makes it the current one, stores it with the given
/// parent, no children and the given time, one level below a stored parent
/// (at the top otherwise), appends it to that parent's children, keeps every
/// other snapshot, and sets the root only when the tree had none.
pub proof fn lemma_added_places_snapshot(m: TimelineModel, id: u128, parent: Option<u128>, at: Timestamp)
    requires
        !m.nodes.contains_key(id),
        depth_under(m, parent) <= usize::MAX,
    ensures
        ({
            let r = added(m, id, parent, at);
            &&& r.current == Some(id)
            &&& r.nodes.contains_key(id)
            &&& r.nodes[id].checkpoint_id == id
            &&& r.nodes[id].parent_id == parent
            &&& r.nodes[id].children.len() == 0
            &&& r.nodes[id].created_at == at
            &&& (parent is Some && m.nodes.contains_key(parent->0) ==> {
                &&& r.nodes[id].depth == m.nodes[parent->0].depth + 1
                &&& r.nodes.contains_key(parent->0)
                &&& r.nodes[parent->0].children == m.nodes[parent->0].children.push(id)
                &&& r.nodes[parent->0].depth == m.nodes[parent->0].depth
                &&& r.nodes[parent->0].parent_id == m.nodes[parent->0].parent_id
            })
            &&& (!(parent is Some && m.nodes.contains_key(parent->0)) ==> r.nodes[id].depth == 0)
            &&& forall|k: u128| #[trigger] m.nodes.contains_key(k) && k != id && Some(k) != parent
                ==> r.nodes.contains_key(k) && r.nodes[k] == m.nodes[k]
            &&& r.nodes.dom() == m.nodes.dom().insert(id)
            &&& (m.root is Some ==> r.root == m.root)
            &&& (m.root is None ==> r.root == Some(id))
        }),
{
    let r = added(m, id, parent, at);
    assert(r.nodes.dom() =~= m.nodes.dom().insert(id));
}

} // verus!
