use vstd::prelude::*;

use crate::crawl::DataType;

use super::{CrosstermCli, TreeNode};

verus! {

/// The expand-state glyph that a row shows.
#[derive(Debug, Copy, Clone, PartialEq, Eq, Structural)]
pub enum ExpandState {
    NoChildren,
    Expanded,
    Unexpanded,
}

/// One row on screen. `prefix` holds, for each ancestor from the root down,
/// whether that ancestor is the last child of its parent (the root counts as
/// one); `parent_size` is `None` for the root.
pub struct RenderRow {
    pub prefix: Vec<bool>,
    pub is_last_child: bool,
    pub expand_state: ExpandState,
    pub label: String,
    pub data_type: DataType,
    pub size: u64,
    pub parent_size: Option<u64>,
}

pub type RowView = (Seq<bool>, bool, ExpandState, Seq<char>, DataType, u64, Option<u64>);

impl RenderRow {
    pub open spec fn view(&self) -> RowView {
        (self.prefix@, self.is_last_child, self.expand_state, self.label@, self.data_type, self.size, self.parent_size)
    }
}

pub open spec fn views(s: Seq<RenderRow>) -> Seq<RowView> {
    s.map_values(|r: RenderRow| r@)
}

/// The first `n` elements of `s`, or all of it.
pub open spec fn trunc<A>(s: Seq<A>, n: int) -> Seq<A> {
    if n >= s.len() {
        s
    } else if n <= 0 {
        Seq::empty()
    } else {
        s.take(n)
    }
}

pub open spec fn expand_state_of(n: TreeNode) -> ExpandState {
    if n.children@.len() == 0 {
        ExpandState::NoChildren
    } else if n.is_expanded {
        ExpandState::Expanded
    } else {
        ExpandState::Unexpanded
    }
}

pub open spec fn row_of(n: TreeNode, prefix: Seq<bool>, is_last: bool, parent: Option<u64>) -> RowView {
    (prefix, is_last, expand_state_of(n), n.path@, n.data_type, n.size, parent)
}

/// The rows of the subtree at `n`, in depth-first order through expanded
/// nodes, from the row that `top` leads to: while `top` is not empty, its
/// first index says how many children to pass over at that level, and the
/// node itself shows no row.
pub open spec fn rows(n: TreeNode, prefix: Seq<bool>, is_last: bool, parent: Option<u64>, top: Seq<usize>) -> Seq<RowView>
    decreases n, 1int, 0int,
{
    let head = if top.len() == 0 {
        seq![row_of(n, prefix, is_last, parent)]
    } else {
        Seq::empty()
    };
    let to_skip: int = if top.len() == 0 { 0 } else { top[0] as int };
    let child_top = if top.len() == 0 { top } else { top.drop_first() };
    if n.is_expanded {
        head + child_rows(n.children@, prefix.push(is_last), n.size, to_skip, to_skip, child_top)
    } else {
        head
    }
}

/// The rows of the children `cs[i..]`; the child at `first` starts from `top`,
/// the others show in full.
pub open spec fn child_rows(
    cs: Seq<TreeNode>,
    prefix: Seq<bool>,
    parent: u64,
    first: int,
    i: int,
    top: Seq<usize>,
) -> Seq<RowView>
    decreases cs, 0int, cs.len() - i,
{
    if i < 0 || i >= cs.len() {
        Seq::empty()
    } else {
        let t = if i == first { top } else { Seq::empty() };
        rows(cs[i], prefix, i == cs.len() - 1, Some(parent), t)
            + child_rows(cs, prefix, parent, first, i + 1, top)
    }
}

proof fn lemma_trunc_append<A>(a: Seq<A>, b: Seq<A>, n: int)
    requires
        n >= 0,
    ensures
        trunc(a + b, n) == trunc(a, n) + trunc(b, n - trunc(a, n).len()),
{
    if n >= a.len() {
        assert(trunc(a + b, n) =~= a + trunc(b, n - a.len()));
    } else {
        assert(trunc(a + b, n) =~= trunc(a, n));
        assert(trunc(b, n - trunc(a, n).len()) =~= Seq::<A>::empty());
    }
}

impl TreeNode {
    fn row(&self, prefix: &Vec<bool>, is_last_child: bool, parent_size: Option<u64>) -> (r: RenderRow)
        ensures
            r@ == row_of(*self, prefix@, is_last_child, parent_size),
    {
        let expand_state = if self.children.len() == 0 {
            ExpandState::NoChildren
        } else if self.is_expanded {
            ExpandState::Expanded
        } else {
            ExpandState::Unexpanded
        };
        let prefix_copy = prefix.clone();
        proof {
            assert(prefix_copy@ =~= prefix@);
        }
        RenderRow {
            prefix: prefix_copy,
            is_last_child,
            expand_state,
            label: self.path.clone(),
            data_type: self.data_type,
            size: self.size,
            parent_size,
        }
    }

    /// Appends the rows of this subtree, from the row that `top_path` leads
    /// to, until `out` holds `screen_rows` rows.
    fn render(
        &self,
        prefix: &Vec<bool>,
        is_last_child: bool,
        parent_size: Option<u64>,
        top_path: &[usize],
        screen_rows: usize,
        out: &mut Vec<RenderRow>,
    )
        ensures
            views(final(out)@) == views(old(out)@) + trunc(
                rows(*self, prefix@, is_last_child, parent_size, top_path@),
                screen_rows - old(out)@.len(),
            ),
        decreases *self, 1int, 0int,
    {
        let ghost all = rows(*self, prefix@, is_last_child, parent_size, top_path@);
        if out.len() >= screen_rows {
            proof {
                assert(views(out@) =~= views(old(out)@) + trunc(all, screen_rows - old(out)@.len()));
            }
            return;
        }
        let ghost head = if top_path@.len() == 0 {
            seq![row_of(*self, prefix@, is_last_child, parent_size)]
        } else {
            Seq::empty()
        };
        if top_path.len() == 0 {
            let r = self.row(prefix, is_last_child, parent_size);
            out.push(r);
        }
        proof {
            assert(views(out@) =~= views(old(out)@) + head);
            assert(trunc(head, screen_rows - old(out)@.len()) =~= head);
        }
        let ghost budget: int = screen_rows - old(out)@.len();
        let ghost base = views(old(out)@);
        let mut child_prefix = prefix.clone();
        child_prefix.push(is_last_child);
        proof {
            assert(child_prefix@ =~= prefix@.push(is_last_child));
        }
        let to_skip: usize = if top_path.len() == 0 { 0 } else { top_path[0] };
        let ghost child_top = if top_path@.len() == 0 { top_path@ } else { top_path@.drop_first() };
        let child_top_path: &[usize] = if top_path.len() == 0 {
            top_path
        } else {
            proof {
                assert(top_path@.subrange(1, top_path@.len() as int) =~= child_top);
            }
            slice_tail(top_path)
        };
        if self.is_expanded {
            let ghost cs = self.children@;
            let mut i: usize = to_skip;
            let ghost mut acc: Seq<RowView> = head;
            proof {
                lemma_trunc_append(head, child_rows(cs, child_prefix@, self.size, to_skip as int, i as int, child_top), budget);
            }
            while i < self.children.len()
                invariant
                    cs == self.children@,
                    to_skip <= i,
                    budget >= 0,
                    child_prefix@ == prefix@.push(is_last_child),
                    child_top_path@ == child_top,
                    views(out@) == base + trunc(acc, budget),
                    trunc(all, budget) == trunc(acc + child_rows(cs, child_prefix@, self.size, to_skip as int, i as int, child_top), budget),
                    budget == screen_rows - old(out)@.len(),
                    all == rows(*self, prefix@, is_last_child, parent_size, top_path@),
                    self.is_expanded,
                    base == views(old(out)@),
                decreases self.children@.len() - i,
            {
                let ghost ti = if i == to_skip { child_top } else { Seq::<usize>::empty() };
                let ghost ri = rows(cs[i as int], child_prefix@, i == cs.len() - 1, Some(self.size), ti);
                let ghost rest = child_rows(cs, child_prefix@, self.size, to_skip as int, i + 1, child_top);
                proof {
                    assert(child_rows(cs, child_prefix@, self.size, to_skip as int, i as int, child_top) == ri + rest);
                    assert(decreases_to!(*self => self.children@[i as int]));
                    lemma_trunc_append(acc, ri, budget);
                    assert(out@.len() == base.len() + trunc(acc, budget).len()) by {
                        assert(views(out@).len() == out@.len());
                        assert(base.len() == old(out)@.len());
                    }
                }
                let is_last = i == self.children.len() - 1;
                if i == to_skip {
                    self.children[i].render(&child_prefix, is_last, Some(self.size), child_top_path, screen_rows, out);
                } else {
                    let empty: Vec<usize> = Vec::new();
                    self.children[i].render(&child_prefix, is_last, Some(self.size), empty.as_slice(), screen_rows, out);
                    proof {
                        assert(empty@ =~= Seq::<usize>::empty());
                    }
                }
                proof {
                    assert(acc + ri + rest =~= acc + (ri + rest));
                    acc = acc + ri;
                }
                i = i + 1;
            }
            proof {
                assert(child_rows(cs, child_prefix@, self.size, to_skip as int, i as int, child_top) =~= Seq::<RowView>::empty());
                assert(acc + Seq::<RowView>::empty() =~= acc);
            }
        } else {
            proof {
                assert(all == head);
            }
        }
    }
}

/// All of `s` but its first element.
fn slice_tail(s: &[usize]) -> (r: &[usize])
    requires
        s@.len() > 0,
    ensures
        r@ == s@.subrange(1, s@.len() as int),
{
    let (_, tail) = s.split_at(1);
    tail
}

impl CrosstermCli {
    /// The rows of the screen: the visible nodes in depth-first order from
    /// the one at `top_path`, at most `screen_rows` of them.
    pub fn render_rows(&self, screen_rows: u16) -> (r: Vec<RenderRow>)
        ensures
            views(r@) == trunc(rows(self.tree, Seq::empty(), true, None, self.top_path@), screen_rows as int),
    {
        let mut out: Vec<RenderRow> = Vec::new();
        let prefix: Vec<bool> = Vec::new();
        self.tree.render(&prefix, true, None, self.top_path.as_slice(), screen_rows as usize, &mut out);
        proof {
            assert(prefix@ =~= Seq::<bool>::empty());
            assert(views(out@) =~= views(Seq::<RenderRow>::empty()) + trunc(
                rows(self.tree, Seq::empty(), true, None, self.top_path@),
                screen_rows as int,
            ));
        }
        out
    }
}

} // verus!
