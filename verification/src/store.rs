//! The index as rows: nodes, notes and edges, ordered by identity.

use vstd::prelude::*;

use crate::text::same_text;

verus! {

/// A node of the graph.
#[derive(Debug)]
pub struct Node {
    pub id: i64,
    /// `note`, `project`, `entity` or `loop`.
    pub kind: String,
    pub name: String,
    pub path: Option<String>,
    /// JSON object text, kind-specific.
    pub meta: String,
}

/// The text of a note.
#[derive(Debug)]
pub struct NoteRow {
    pub node_id: i64,
    pub body: String,
    /// `YYYY-MM-DD` for daily notes.
    pub note_date: Option<String>,
    /// `YYYY-MM-DD` file modification date.
    pub mtime: Option<String>,
}

/// A directed edge. Its weight is the confidence in thousandths.
#[derive(Debug)]
pub struct Edge {
    pub src: i64,
    pub dst: i64,
    /// `mentions`, `wikilink`, `contains` or `defines`.
    pub kind: String,
    /// `human`, `indexer` or `agent`.
    pub provenance: String,
    pub weight: i128,
    pub rationale: Option<String>,
}

/// A whole index.
#[derive(Debug)]
pub struct Index {
    pub nodes: Vec<Node>,
    pub notes: Vec<NoteRow>,
    pub edges: Vec<Edge>,
}

/// The value of a `Node`.
pub struct NodeModel {
    pub id: int,
    pub kind: Seq<char>,
    pub name: Seq<char>,
    pub path: Option<Seq<char>>,
    pub meta: Seq<char>,
}

/// The value of a `NoteRow`.
pub struct NoteModel {
    pub node_id: int,
    pub body: Seq<char>,
    pub note_date: Option<Seq<char>>,
    pub mtime: Option<Seq<char>>,
}

/// The value of an `Edge`.
pub struct EdgeModel {
    pub src: int,
    pub dst: int,
    pub kind: Seq<char>,
    pub provenance: Seq<char>,
    pub weight: int,
    pub rationale: Option<Seq<char>>,
}

/// The value of an `Index`.
#[verifier::ext_equal]
pub struct IndexModel {
    pub nodes: Seq<NodeModel>,
    pub notes: Seq<NoteModel>,
    pub edges: Seq<EdgeModel>,
}

impl DeepView for Node {
    type V = NodeModel;

    open spec fn deep_view(&self) -> NodeModel {
        NodeModel {
            id: self.id as int,
            kind: self.kind@,
            name: self.name@,
            path: self.path.deep_view(),
            meta: self.meta@,
        }
    }
}

impl DeepView for NoteRow {
    type V = NoteModel;

    open spec fn deep_view(&self) -> NoteModel {
        NoteModel {
            node_id: self.node_id as int,
            body: self.body@,
            note_date: self.note_date.deep_view(),
            mtime: self.mtime.deep_view(),
        }
    }
}

impl DeepView for Edge {
    type V = EdgeModel;

    open spec fn deep_view(&self) -> EdgeModel {
        EdgeModel {
            src: self.src as int,
            dst: self.dst as int,
            kind: self.kind@,
            provenance: self.provenance@,
            weight: self.weight as int,
            rationale: self.rationale.deep_view(),
        }
    }
}

impl DeepView for Index {
    type V = IndexModel;

    open spec fn deep_view(&self) -> IndexModel {
        IndexModel {
            nodes: self.nodes.deep_view(),
            notes: self.notes.deep_view(),
            edges: self.edges.deep_view(),
        }
    }
}

/// A copy of an optional text.
pub fn copy_text(t: &Option<String>) -> (r: Option<String>)
    ensures
        r.deep_view() == t.deep_view(),
{
    match t {
        Some(s) => Some(s.clone()),
        None => None,
    }
}

/// Whether the nodes stand in the order of their identities.
pub open spec fn nodes_sorted(nodes: Seq<NodeModel>) -> bool {
    forall|i: int, j: int|
        0 <= i < j < nodes.len() ==> (#[trigger] nodes[i]).id < (#[trigger] nodes[j]).id
}

/// Whether the notes stand in the order of their identities.
pub open spec fn notes_sorted(notes: Seq<NoteModel>) -> bool {
    forall|i: int, j: int|
        0 <= i < j < notes.len() ==> (#[trigger] notes[i]).node_id < (#[trigger] notes[j]).node_id
}

/// Whether there is a node `id`.
pub open spec fn has_node(nodes: Seq<NodeModel>, id: int) -> bool {
    exists|i: int| 0 <= i < nodes.len() && (#[trigger] nodes[i]).id == id
}

/// Whether there is a note `id`.
pub open spec fn has_note(notes: Seq<NoteModel>, id: int) -> bool {
    exists|i: int| 0 <= i < notes.len() && (#[trigger] notes[i]).node_id == id
}

/// The place of node `id`.
pub open spec fn node_place(nodes: Seq<NodeModel>, id: int) -> int {
    choose|i: int| 0 <= i < nodes.len() && (#[trigger] nodes[i]).id == id
}

/// The place of note `id`.
pub open spec fn note_place(notes: Seq<NoteModel>, id: int) -> int {
    choose|i: int| 0 <= i < notes.len() && (#[trigger] notes[i]).node_id == id
}

/// The node `id`.
pub open spec fn node_by_id(nodes: Seq<NodeModel>, id: int) -> NodeModel {
    nodes[node_place(nodes, id)]
}

/// The note `id`.
pub open spec fn note_by_id(notes: Seq<NoteModel>, id: int) -> NoteModel {
    notes[note_place(notes, id)]
}

/// Whether an index can be queried: nodes and notes are ordered by identity, notes and edges name
/// nodes that are there, and rows can be counted.
pub open spec fn index_ok(m: IndexModel) -> bool {
    &&& m.nodes.len() <= i64::MAX
    &&& m.edges.len() <= i64::MAX
    &&& nodes_sorted(m.nodes)
    &&& notes_sorted(m.notes)
    &&& forall|i: int| 0 <= i < m.notes.len() ==> has_node(m.nodes, (#[trigger] m.notes[i]).node_id)
    &&& forall|i: int|
        0 <= i < m.edges.len() ==> has_node(m.nodes, (#[trigger] m.edges[i]).src) && has_node(
            m.nodes,
            m.edges[i].dst,
        )
}

/// How many of the nodes have the kind `kind`.
pub open spec fn kind_count(nodes: Seq<NodeModel>, kind: Seq<char>) -> nat
    decreases nodes.len(),
{
    if nodes.len() == 0 {
        0
    } else if nodes.last().kind == kind {
        kind_count(nodes.drop_last(), kind) + 1
    } else {
        kind_count(nodes.drop_last(), kind)
    }
}

/// How many of the nodes have the kind `kind`.
pub fn count_kind(nodes: &Vec<Node>, kind: &str) -> (r: usize)
    ensures
        r == kind_count(nodes.deep_view(), kind@),
{
    let ghost all = nodes.deep_view();
    let total = nodes.len();
    let mut n: usize = 0;
    let mut i: usize = 0;
    while i < nodes.len()
        invariant
            all == nodes.deep_view(),
            total == all.len(),
            i <= all.len(),
            n == kind_count(all.take(i as int), kind@),
            n <= i,
        decreases all.len() - i,
    {
        assert(all[i as int] == nodes@[i as int].deep_view());
        assert(all.take(i + 1).drop_last() =~= all.take(i as int));
        if same_text(&nodes[i].kind, kind) {
            n += 1;
        }
        i += 1;
    }
    assert(all.take(all.len() as int) =~= all);
    n
}

/// Identities name one node only.
pub proof fn lemma_node_place(nodes: Seq<NodeModel>, i: int)
    requires
        nodes_sorted(nodes),
        0 <= i < nodes.len(),
    ensures
        has_node(nodes, nodes[i].id),
        node_place(nodes, nodes[i].id) == i,
{
    let p = node_place(nodes, nodes[i].id);
    assert(nodes[i].id == nodes[i].id);
    if p < i {
        assert(nodes[p].id < nodes[i].id);
    }
    if i < p {
        assert(nodes[i].id < nodes[p].id);
    }
}

/// There are no more notes than nodes.
pub proof fn lemma_notes_fit(m: IndexModel)
    requires
        index_ok(m),
    ensures
        m.notes.len() <= m.nodes.len(),
{
    if m.notes.len() > 0 {
        lemma_note_nodes(m, m.notes.len() - 1);
    }
}

proof fn lemma_note_nodes(m: IndexModel, k: int)
    requires
        index_ok(m),
        0 <= k < m.notes.len(),
    ensures
        k <= node_place(m.nodes, m.notes[k].node_id) < m.nodes.len(),
    decreases k,
{
    assert(has_node(m.nodes, m.notes[k].node_id));
    if k > 0 {
        lemma_note_nodes(m, k - 1);
        assert(has_node(m.nodes, m.notes[k - 1].node_id));
        let a = node_place(m.nodes, m.notes[k - 1].node_id);
        let b = node_place(m.nodes, m.notes[k].node_id);
        assert(m.notes[k - 1].node_id < m.notes[k].node_id);
        assert(m.nodes[a].id == m.notes[k - 1].node_id && m.nodes[b].id == m.notes[k].node_id);
        if b < a {
            assert(m.nodes[b].id < m.nodes[a].id);
        }
    }
}

/// Identities name one note only.
pub proof fn lemma_note_place(notes: Seq<NoteModel>, i: int)
    requires
        notes_sorted(notes),
        0 <= i < notes.len(),
    ensures
        has_note(notes, notes[i].node_id),
        note_place(notes, notes[i].node_id) == i,
{
    let p = note_place(notes, notes[i].node_id);
    assert(notes[i].node_id == notes[i].node_id);
    if p < i {
        assert(notes[p].node_id < notes[i].node_id);
    }
    if i < p {
        assert(notes[i].node_id < notes[p].node_id);
    }
}

/// The place of a node.
pub fn find_node(nodes: &Vec<Node>, id: i64) -> (r: Option<usize>)
    requires
        nodes_sorted(nodes.deep_view()),
    ensures
        match r {
            Some(i) => i < nodes@.len() && nodes@[i as int].id == id && has_node(
                nodes.deep_view(),
                id as int,
            ) && node_place(nodes.deep_view(), id as int) == i,
            None => !has_node(nodes.deep_view(), id as int),
        },
{
    let ghost all = nodes.deep_view();
    let mut lo: usize = 0;
    let mut hi: usize = nodes.len();
    while lo < hi
        invariant
            all == nodes.deep_view(),
            nodes_sorted(all),
            lo <= hi <= all.len(),
            forall|k: int| 0 <= k < lo ==> (#[trigger] all[k]).id < id,
            forall|k: int| hi <= k < all.len() ==> (#[trigger] all[k]).id > id,
        decreases hi - lo,
    {
        let mid = lo + (hi - lo) / 2;
        assert(all[mid as int].id == nodes@[mid as int].id);
        if nodes[mid].id == id {
            proof {
                lemma_node_place(all, mid as int);
            }
            return Some(mid);
        }
        if nodes[mid].id < id {
            lo = mid + 1;
        } else {
            hi = mid;
        }
    }
    None
}

/// The place of a note.
pub fn find_note(notes: &Vec<NoteRow>, id: i64) -> (r: Option<usize>)
    requires
        notes_sorted(notes.deep_view()),
    ensures
        match r {
            Some(i) => i < notes@.len() && notes@[i as int].node_id == id && has_note(
                notes.deep_view(),
                id as int,
            ) && note_place(notes.deep_view(), id as int) == i,
            None => !has_note(notes.deep_view(), id as int),
        },
{
    let ghost all = notes.deep_view();
    let mut lo: usize = 0;
    let mut hi: usize = notes.len();
    while lo < hi
        invariant
            all == notes.deep_view(),
            notes_sorted(all),
            lo <= hi <= all.len(),
            forall|k: int| 0 <= k < lo ==> (#[trigger] all[k]).node_id < id,
            forall|k: int| hi <= k < all.len() ==> (#[trigger] all[k]).node_id > id,
        decreases hi - lo,
    {
        let mid = lo + (hi - lo) / 2;
        assert(all[mid as int].node_id == notes@[mid as int].node_id);
        if notes[mid].node_id == id {
            proof {
                lemma_note_place(all, mid as int);
            }
            return Some(mid);
        }
        if notes[mid].node_id < id {
            lo = mid + 1;
        } else {
            hi = mid;
        }
    }
    None
}

impl Index {
    /// Whether the index can be queried.
    pub fn is_consistent(&self) -> (r: bool)
        ensures
            r == index_ok(self.deep_view()),
    {
        let ghost m = self.deep_view();
        if self.nodes.len() as u128 > i64::MAX as u128 || self.edges.len() as u128 > i64::MAX
            as u128 {
            return false;
        }
        let mut i: usize = 1;
        while i < self.nodes.len()
            invariant
                1 <= i,
                m == self.deep_view(),
                forall|a: int, b: int|
                    0 <= a < b < i && b < m.nodes.len() ==> (#[trigger] m.nodes[a]).id < (
                    #[trigger] m.nodes[b]).id,
            decreases m.nodes.len() - i,
        {
            assert(m.nodes[i as int].id == self.nodes@[i as int].id);
            assert(m.nodes[i - 1].id == self.nodes@[i - 1].id);
            if self.nodes[i - 1].id >= self.nodes[i].id {
                return false;
            }
            i += 1;
        }
        let mut j: usize = 1;
        while j < self.notes.len()
            invariant
                1 <= j,
                m == self.deep_view(),
                forall|a: int, b: int|
                    0 <= a < b < j && b < m.notes.len() ==> (#[trigger] m.notes[a]).node_id < (
                    #[trigger] m.notes[b]).node_id,
            decreases m.notes.len() - j,
        {
            assert(m.notes[j as int].node_id == self.notes@[j as int].node_id);
            assert(m.notes[j - 1].node_id == self.notes@[j - 1].node_id);
            if self.notes[j - 1].node_id >= self.notes[j].node_id {
                return false;
            }
            j += 1;
        }
        let mut k: usize = 0;
        while k < self.notes.len()
            invariant
                m == self.deep_view(),
                nodes_sorted(m.nodes),
                k <= m.notes.len(),
                forall|a: int| 0 <= a < k ==> has_node(m.nodes, (#[trigger] m.notes[a]).node_id),
            decreases m.notes.len() - k,
        {
            assert(m.notes[k as int].node_id == self.notes@[k as int].node_id);
            if find_node(&self.nodes, self.notes[k].node_id).is_none() {
                return false;
            }
            k += 1;
        }
        let mut l: usize = 0;
        while l < self.edges.len()
            invariant
                m == self.deep_view(),
                nodes_sorted(m.nodes),
                l <= m.edges.len(),
                forall|a: int|
                    0 <= a < l ==> has_node(m.nodes, (#[trigger] m.edges[a]).src) && has_node(
                        m.nodes,
                        m.edges[a].dst,
                    ),
            decreases m.edges.len() - l,
        {
            assert(m.edges[l as int] == self.edges@[l as int].deep_view());
            if find_node(&self.nodes, self.edges[l].src).is_none() || find_node(
                &self.nodes,
                self.edges[l].dst,
            ).is_none() {
                return false;
            }
            l += 1;
        }
        true
    }
}

} // verus!
