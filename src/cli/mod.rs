use vstd::prelude::*;
use vstd::multiset::Multiset;

use crate::crawl::{key_index, lemma_key_index, sum_sizes, DataType, PathSizeRecord, PathSizeRecorder};

pub mod handler;
pub mod render;

verus! {

/// Columns of indentation per level of depth.
pub const INDENT_LEN: u16 = 2;

/// One node of the navigation tree.
pub struct TreeNode {
    pub path: String,
    pub data_type: DataType,
    pub size: u64,
    pub is_expanded: bool,
    pub children: Vec<TreeNode>,
}

/// The sum of the sizes of a sequence of nodes.
pub open spec fn sum_node_sizes(s: Seq<TreeNode>) -> int
    decreases s.len(),
{
    if s.len() == 0 {
        0
    } else {
        sum_node_sizes(s.drop_last()) + s.last().size
    }
}

/// The labels and sizes of a sequence of nodes, as a multiset.
pub open spec fn node_entries(s: Seq<TreeNode>) -> Multiset<(Seq<char>, u64)>
    decreases s.len(),
{
    if s.len() == 0 {
        Multiset::empty()
    } else {
        node_entries(s.drop_last()).insert((s.last().path@, s.last().size))
    }
}

/// The keys and totals of a sequence of labelled records, as a multiset.
pub open spec fn record_entries(s: Seq<(String, PathSizeRecord)>) -> Multiset<(Seq<char>, u64)>
    decreases s.len(),
{
    if s.len() == 0 {
        Multiset::empty()
    } else {
        record_entries(s.drop_last()).insert((s.last().0@, s.last().1.size))
    }
}

/// `n` is the collapsed navigation node built from the record `r` under
/// `label`: same label, total and metric, a total that is the record's own
/// contribution plus its children's totals, and each child built from the
/// record child with the same key, all the way down.
pub open spec fn built_from(n: TreeNode, label: Seq<char>, r: PathSizeRecord) -> bool
    decreases r,
{
    &&& n.path@ == label
    &&& n.size == r.size
    &&& n.size == r.own_size + sum_node_sizes(n.children@)
    &&& n.data_type == r.data_type
    &&& !n.is_expanded
    &&& n.children@.len() == r.children@.len()
    &&& forall|a: int, b: int|
        0 <= a < b < n.children@.len() ==> n.children@[a].path@ != n.children@[b].path@
    &&& forall|i: int|
        0 <= i < n.children@.len() ==> {
            let j = key_index(r.children@, (#[trigger] n.children@[i]).path@);
            &&& 0 <= j < r.children@.len()
            &&& built_from(n.children@[i], r.children@[j].0@, r.children@[j].1)
        }
}

/// Sizes never increase along the sequence.
pub open spec fn sorted_desc(s: Seq<TreeNode>) -> bool {
    forall|i: int, j: int| 0 <= i < j < s.len() ==> s[i].size >= s[j].size
}

impl TreeNode {
    /// Every node covers at least the total of its children, and every
    /// node's children are sorted by size, largest first.
    pub open spec fn wf(self) -> bool
        decreases self,
    {
        &&& self.size >= sum_node_sizes(self.children@)
        &&& self.children@.len() <= usize::MAX
        &&& sorted_desc(self.children@)
        &&& forall|i: int| 0 <= i < self.children@.len() ==> (#[trigger] self.children@[i]).wf()
    }

    /// No node of the tree is expanded.
    pub open spec fn collapsed(self) -> bool
        decreases self,
    {
        &&& !self.is_expanded
        &&& forall|i: int|
            0 <= i < self.children@.len() ==> (#[trigger] self.children@[i]).collapsed()
    }
}

proof fn lemma_sum_insert(s: Seq<TreeNode>, i: int, x: TreeNode)
    requires
        0 <= i <= s.len(),
    ensures
        sum_node_sizes(s.insert(i, x)) == sum_node_sizes(s) + x.size,
        node_entries(s.insert(i, x)) == node_entries(s).insert((x.path@, x.size)),
    decreases s.len(),
{
    if i == s.len() {
        assert(s.insert(i, x).drop_last() =~= s);
    } else {
        lemma_sum_insert(s.drop_last(), i, x);
        assert(s.insert(i, x).drop_last() =~= s.drop_last().insert(i, x));
        assert(node_entries(s.insert(i, x)) =~= node_entries(s).insert((x.path@, x.size)));
    }
}

/// The first position at which a node of `size` can go into the sorted
/// `nodes` after every node at least as large.
fn insert_pos(nodes: &Vec<TreeNode>, size: u64) -> (r: usize)
    requires
        sorted_desc(nodes@),
    ensures
        r <= nodes@.len(),
        forall|k: int| 0 <= k < r ==> nodes@[k].size >= size,
        forall|k: int| r <= k < nodes@.len() ==> nodes@[k].size < size,
{
    let mut i: usize = 0;
    while i < nodes.len()
        invariant
            i <= nodes@.len(),
            sorted_desc(nodes@),
            forall|k: int| 0 <= k < i ==> nodes@[k].size >= size,
        decreases nodes@.len() - i,
    {
        if nodes[i].size < size {
            assert forall|k: int| i <= k < nodes@.len() implies nodes@[k].size < size by {
                assert(nodes@[i as int].size >= nodes@[k].size);
            }
            return i;
        }
        i = i + 1;
    }
    i
}

impl TreeNode {
    /// Builds the navigation node for `record`, labelled `label`.
    pub fn from_record(label: String, record: &PathSizeRecord) -> (r: TreeNode)
        requires
            record.wf(),
        ensures
            r.wf(),
            r.collapsed(),
            r.path == label,
            r.size == record.size,
            r.data_type == record.data_type,
            r.children@.len() == record.children@.len(),
            built_from(r, label@, *record),
            node_entries(r.children@) == record_entries(record.children@),
            forall|a: int, b: int|
                0 <= a < b < r.children@.len() && r.children@[a].size == r.children@[b].size
                    ==> key_index(record.children@, r.children@[a].path@) < key_index(
                    record.children@,
                    r.children@[b].path@,
                ),
        decreases record, 0int,
    {
        let children = TreeNode::from_recorder_children(&record.children);
        proof {
            assert(children@.len() == children.len());
        }
        TreeNode {
            path: label,
            data_type: record.data_type,
            size: record.size,
            is_expanded: false,
            children,
        }
    }

    /// Builds the nodes for a record's children, sorted by size, largest
    /// first; children of equal size keep the order in which they were seen.
    #[verifier::rlimit(60)]
    pub fn from_recorder_children(child_map: &Vec<(String, PathSizeRecord)>) -> (r: Vec<TreeNode>)
        requires
            forall|i: int| 0 <= i < child_map@.len() ==> (#[trigger] child_map@[i]).1.wf(),
            forall|i: int, j: int|
                0 <= i < j < child_map@.len() ==> child_map@[i].0@ != child_map@[j].0@,
        ensures
            forall|a: int, b: int|
                0 <= a < b < r@.len() && r@[a].size == r@[b].size ==> key_index(child_map@, r@[a].path@)
                    < key_index(child_map@, r@[b].path@),
            r@.len() == child_map@.len(),
            forall|a: int, b: int| 0 <= a < b < r@.len() ==> r@[a].path@ != r@[b].path@,
            forall|i: int|
                0 <= i < r@.len() ==> {
                    let j = key_index(child_map@, (#[trigger] r@[i]).path@);
                    &&& 0 <= j < child_map@.len()
                    &&& built_from(r@[i], child_map@[j].0@, child_map@[j].1)
                },
            sorted_desc(r@),
            sum_node_sizes(r@) == sum_sizes(child_map@),
            node_entries(r@) == record_entries(child_map@),
            forall|i: int| 0 <= i < r@.len() ==> (#[trigger] r@[i]).wf() && r@[i].collapsed(),
        decreases child_map, 1int,
    {
        let mut out: Vec<TreeNode> = Vec::new();
        let mut i: usize = 0;
        while i < child_map.len()
            invariant
                i <= child_map@.len(),
                out@.len() == i,
                sorted_desc(out@),
                sum_node_sizes(out@) == sum_sizes(child_map@.subrange(0, i as int)),
                node_entries(out@) == record_entries(child_map@.subrange(0, i as int)),
                forall|k: int| 0 <= k < out@.len() ==> (#[trigger] out@[k]).wf() && out@[k].collapsed(),
                forall|k: int| 0 <= k < child_map@.len() ==> (#[trigger] child_map@[k]).1.wf(),
                forall|a: int, b: int|
                    0 <= a < b < child_map@.len() ==> child_map@[a].0@ != child_map@[b].0@,
                forall|k: int|
                    0 <= k < out@.len() ==> 0 <= #[trigger] key_index(child_map@, out@[k].path@) < i,
                forall|a: int, b: int| 0 <= a < b < out@.len() ==> out@[a].path@ != out@[b].path@,
                forall|k: int|
                    0 <= k < out@.len() ==> {
                        let j = key_index(child_map@, (#[trigger] out@[k]).path@);
                        built_from(out@[k], child_map@[j].0@, child_map@[j].1)
                    },
                forall|a: int, b: int|
                    0 <= a < b < out@.len() && out@[a].size == out@[b].size ==> key_index(
                        child_map@,
                        out@[a].path@,
                    ) < key_index(child_map@, out@[b].path@),
            decreases child_map@.len() - i,
        {
            proof {
                assert(decreases_to!(child_map => child_map@[i as int].1));
            }
            let node = TreeNode::from_record(child_map[i].0.clone(), &child_map[i].1);
            let pos = insert_pos(&out, node.size);
            let ghost before = out@;
            out.insert(pos, node);
            proof {
                lemma_key_index(child_map@, child_map@[i as int].0@);
                let ki = key_index(child_map@, child_map@[i as int].0@);
                if ki != i {
                    assert(child_map@[ki].0@ == child_map@[i as int].0@);
                }
                assert(key_index(child_map@, node.path@) == i);
                assert forall|k: int| 0 <= k < out@.len() implies {
                    let j = key_index(child_map@, (#[trigger] out@[k]).path@);
                    built_from(out@[k], child_map@[j].0@, child_map@[j].1)
                } by {
                    if k > pos {
                        assert(out@[k] == before[k - 1]);
                    } else if k < pos {
                        assert(out@[k] == before[k]);
                    }
                }
                assert forall|a: int, b: int| 0 <= a < b < out@.len() implies out@[a].path@ != out@[b].path@ by {
                    if a < pos && b > pos {
                        assert(out@[a] == before[a]);
                        assert(out@[b] == before[b - 1]);
                    } else if a > pos {
                        assert(out@[a] == before[a - 1]);
                        assert(out@[b] == before[b - 1]);
                    } else if b < pos {
                        assert(out@[a] == before[a]);
                        assert(out@[b] == before[b]);
                    } else if a == pos {
                        assert(out@[b] == before[b - 1]);
                        assert(0 <= key_index(child_map@, before[b - 1].path@) < i);
                    } else {
                        assert(out@[a] == before[a]);
                        assert(0 <= key_index(child_map@, before[a].path@) < i);
                    }
                }
                assert forall|k: int| 0 <= k < out@.len() implies 0 <= #[trigger] key_index(child_map@, out@[k].path@) < i + 1 by {
                    if k > pos {
                        assert(out@[k] == before[k - 1]);
                    } else if k < pos {
                        assert(out@[k] == before[k]);
                    }
                }
                assert forall|a: int, b: int|
                    0 <= a < b < out@.len() && out@[a].size == out@[b].size implies key_index(
                        child_map@,
                        out@[a].path@,
                    ) < key_index(child_map@, out@[b].path@) by {
                    if a < pos && b > pos {
                        assert(out@[a] == before[a]);
                        assert(out@[b] == before[b - 1]);
                    } else if a > pos {
                        assert(out@[a] == before[a - 1]);
                        assert(out@[b] == before[b - 1]);
                    } else if b < pos {
                        assert(out@[a] == before[a]);
                        assert(out@[b] == before[b]);
                    } else if a == pos {
                        assert(out@[b] == before[b - 1]);
                    } else {
                        assert(out@[a] == before[a]);
                    }
                }
                lemma_sum_insert(before, pos as int, node);
                assert(child_map@.subrange(0, i + 1).drop_last() =~= child_map@.subrange(0, i as int));
                assert forall|k: int| 0 <= k < out@.len() implies (#[trigger] out@[k]).wf() && out@[k].collapsed() by {
                    if k > pos {
                        assert(out@[k] == before[k - 1]);
                    }
                }
                assert forall|a: int, b: int| 0 <= a < b < out@.len() implies out@[a].size >= out@[b].size by {
                    if a < pos && b > pos {
                        assert(out@[b] == before[b - 1]);
                    } else if a > pos {
                        assert(out@[a] == before[a - 1]);
                        assert(out@[b] == before[b - 1]);
                    } else if b > pos {
                        assert(out@[b] == before[b - 1]);
                    }
                }
            }
            i = i + 1;
        }
        proof {
            assert(child_map@.subrange(0, child_map@.len() as int) =~= child_map@);
        }
        out
    }

    /// Builds the navigation tree of a finished aggregation, labelled by the
    /// scan root.
    pub fn from_recorder(recorder: PathSizeRecorder) -> (r: TreeNode)
        requires
            recorder.wf(),
        ensures
            r.wf(),
            r.collapsed(),
            r.path == recorder.root,
            r.size == recorder.data.size,
            r.data_type == recorder.data_type,
            built_from(r, recorder.root@, recorder.data),
            node_entries(r.children@) == record_entries(recorder.data.children@),
            forall|a: int, b: int|
                0 <= a < b < r.children@.len() && r.children@[a].size == r.children@[b].size
                    ==> key_index(recorder.data.children@, r.children@[a].path@) < key_index(
                    recorder.data.children@,
                    r.children@[b].path@,
                ),
    {
        TreeNode::from_record(recorder.root, &recorder.data)
    }
}


/// The node reached from `t` by following the child indices of `p`.
pub open spec fn node_at(t: TreeNode, p: Seq<usize>) -> TreeNode
    decreases p.len(),
{
    if p.len() == 0 {
        t
    } else {
        node_at(t, p.drop_last()).children@[p.last() as int]
    }
}

/// Every prefix of `p` resolves to an existing node of `t`.
pub open spec fn valid_path(t: TreeNode, p: Seq<usize>) -> bool
    decreases p.len(),
{
    p.len() == 0 || (valid_path(t, p.drop_last()) && p.last() < node_at(t, p.drop_last()).children@.len())
}

/// `p` is valid and every node strictly above its end is expanded.
pub open spec fn visible_path(t: TreeNode, p: Seq<usize>) -> bool
    decreases p.len(),
{
    p.len() == 0 || (visible_path(t, p.drop_last()) && node_at(t, p.drop_last()).is_expanded
        && p.last() < node_at(t, p.drop_last()).children@.len())
}

/// Two trees that differ at most in their expand flags.
pub open spec fn same_shape(a: TreeNode, b: TreeNode) -> bool
    decreases a,
{
    &&& a.path == b.path
    &&& a.size == b.size
    &&& a.data_type == b.data_type
    &&& a.children@.len() == b.children@.len()
    &&& forall|i: int|
        0 <= i < a.children@.len() ==> same_shape(#[trigger] a.children@[i], b.children@[i])
}

pub proof fn lemma_same_shape_refl(t: TreeNode)
    ensures
        same_shape(t, t),
    decreases t,
{
    assert forall|i: int| 0 <= i < t.children@.len() implies same_shape(
        #[trigger] t.children@[i],
        t.children@[i],
    ) by {
        lemma_same_shape_refl(t.children@[i]);
    }
}

/// Paths resolve alike in two trees of the same shape.
pub proof fn lemma_same_shape_path(a: TreeNode, b: TreeNode, p: Seq<usize>)
    requires
        same_shape(a, b),
        valid_path(a, p),
    ensures
        valid_path(b, p),
        same_shape(node_at(a, p), node_at(b, p)),
    decreases p.len(),
{
    if p.len() > 0 {
        lemma_same_shape_path(a, b, p.drop_last());
    }
}

/// A path stays visible in a tree of the same shape whose nodes above the
/// path's end keep their expand flags.
pub proof fn lemma_same_flags_visible(a: TreeNode, b: TreeNode, p: Seq<usize>)
    requires
        same_shape(a, b),
        visible_path(a, p),
        valid_path(a, p),
        forall|q: Seq<usize>|
            valid_path(a, q) && q.len() < p.len() ==> (#[trigger] node_at(b, q)).is_expanded
                == node_at(a, q).is_expanded,
    ensures
        visible_path(b, p),
    decreases p.len(),
{
    if p.len() > 0 {
        lemma_same_flags_visible(a, b, p.drop_last());
        lemma_same_shape_path(a, b, p.drop_last());
        assert(node_at(b, p.drop_last()).is_expanded == node_at(a, p.drop_last()).is_expanded);
    }
}

/// Resolving a path from its first index on.
pub proof fn lemma_node_at_front(t: TreeNode, p: Seq<usize>)
    requires
        p.len() > 0,
    ensures
        node_at(t, p) == node_at(t.children@[p[0] as int], p.drop_first()),
        valid_path(t, p) <==> (p[0] < t.children@.len() && valid_path(
            t.children@[p[0] as int],
            p.drop_first(),
        )),
    decreases p.len(),
{
    if p.len() == 1 {
        assert(p.drop_first() =~= Seq::<usize>::empty());
        assert(p.drop_last() =~= Seq::<usize>::empty());
        assert(valid_path(t, p.drop_last()));
        assert(node_at(t, p.drop_last()) == t);
        assert(valid_path(t.children@[p[0] as int], p.drop_first()));
    } else {
        lemma_node_at_front(t, p.drop_last());
        assert(p.drop_first().drop_last() =~= p.drop_last().drop_first());
        assert(p.drop_last()[0] == p[0]);
        assert(p.drop_first().last() == p.last());
    }
}

/// Where the cursor stands on the screen.
#[derive(Debug, Copy, Clone, PartialEq, Eq, Structural)]
pub struct CursorPos {
    pub col: u16,
    pub row: u16,
}

/// The interactive session: the tree, the cursor's path and screen position,
/// and the path of the first row on screen.
pub struct CrosstermCli {
    pub tree: TreeNode,
    pub current_path: Vec<usize>,
    pub cursor_pos: CursorPos,
    pub top_path: Vec<usize>,
}

impl CrosstermCli {
    /// Both tracked paths resolve in the tree, and the cursor is on a
    /// visible node.
    pub open spec fn wf(self) -> bool {
        &&& valid_path(self.tree, self.current_path@)
        &&& visible_path(self.tree, self.current_path@)
        &&& valid_path(self.tree, self.top_path@)
    }

    /// A session on the finished aggregation, with the cursor on the root.
    pub fn from_recorder(recorder: PathSizeRecorder) -> (r: CrosstermCli)
        requires
            recorder.wf(),
        ensures
            r.wf(),
            r.tree.wf(),
            r.tree.collapsed(),
            r.tree.path == recorder.root,
            r.tree.size == recorder.data.size,
            r.current_path@.len() == 0,
            r.top_path@.len() == 0,
            r.cursor_pos == (CursorPos { col: 1, row: 0 }),
            built_from(r.tree, recorder.root@, recorder.data),
            node_entries(r.tree.children@) == record_entries(recorder.data.children@),
            forall|a: int, b: int|
                0 <= a < b < r.tree.children@.len() && r.tree.children@[a].size == r.tree.children@[b].size
                    ==> key_index(recorder.data.children@, r.tree.children@[a].path@) < key_index(
                    recorder.data.children@,
                    r.tree.children@[b].path@,
                ),
    {
        CrosstermCli {
            tree: TreeNode::from_recorder(recorder),
            current_path: Vec::new(),
            cursor_pos: CursorPos { col: 1, row: 0 },
            top_path: Vec::new(),
        }
    }

    /// The node at `path`.
    pub fn node_at_path(&self, path: &[usize]) -> (r: &TreeNode)
        requires
            valid_path(self.tree, path@),
        ensures
            *r == node_at(self.tree, path@),
    {
        proof {
            assert(path@.subrange(0, path@.len() as int) =~= path@);
        }
        self.node_at_prefix(path, path.len())
    }

    /// The node at the first `k` indices of `path`.
    pub fn node_at_prefix(&self, path: &[usize], k: usize) -> (r: &TreeNode)
        requires
            k <= path@.len(),
            valid_path(self.tree, path@.subrange(0, k as int)),
        ensures
            *r == node_at(self.tree, path@.subrange(0, k as int)),
    {
        let mut curr_node = &self.tree;
        let mut i: usize = 0;
        while i < k
            invariant
                i <= k <= path@.len(),
                valid_path(self.tree, path@.subrange(0, k as int)),
                *curr_node == node_at(self.tree, path@.subrange(0, i as int)),
                valid_path(self.tree, path@.subrange(0, i as int)),
            decreases k - i,
        {
            proof {
                lemma_valid_prefix(self.tree, path@.subrange(0, k as int), i + 1);
                assert(path@.subrange(0, k as int).subrange(0, i + 1) =~= path@.subrange(0, i + 1));
                assert(path@.subrange(0, i + 1).drop_last() =~= path@.subrange(0, i as int));
            }
            curr_node = &curr_node.children[path[i]];
            i = i + 1;
        }
        curr_node
    }
}

/// Every node of a well-formed tree is well formed.
pub proof fn lemma_wf_node_at(t: TreeNode, p: Seq<usize>)
    requires
        t.wf(),
        valid_path(t, p),
    ensures
        node_at(t, p).wf(),
    decreases p.len(),
{
    if p.len() > 0 {
        lemma_wf_node_at(t, p.drop_last());
    }
}

/// Every prefix of a valid path is valid.
pub proof fn lemma_valid_prefix(t: TreeNode, p: Seq<usize>, k: int)
    requires
        valid_path(t, p),
        0 <= k <= p.len(),
    ensures
        valid_path(t, p.subrange(0, k)),
    decreases p.len(),
{
    if k < p.len() {
        lemma_valid_prefix(t, p.drop_last(), k);
        assert(p.drop_last().subrange(0, k) =~= p.subrange(0, k));
    } else {
        assert(p.subrange(0, k) =~= p);
    }
}

} // verus!
