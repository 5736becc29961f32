use vstd::prelude::*;

use super::{
    lemma_node_at_front, lemma_same_flags_visible, lemma_same_shape_path, lemma_wf_node_at, lemma_same_shape_refl, node_at, same_shape,
    valid_path, visible_path, CrosstermCli, CursorPos, TreeNode, INDENT_LEN,
};

verus! {

/// What the caller must redraw after a command.
#[derive(Debug, Copy, Clone, PartialEq, Eq, Structural)]
pub enum CommandResponse {
    /// Do nothing
    NoOp,
    /// Rerender full screen
    RerenderScreen,
    /// Rerender only the cursor
    RerenderCursor,
    /// Quit the program
    Quit,
}

/// The key of a key press.
#[derive(Debug, Copy, Clone, PartialEq, Eq, Structural)]
pub enum KeyCode {
    Enter,
    Up,
    Down,
    Char(char),
    Other,
}

/// The modifiers held during a key press.
#[derive(Debug, Copy, Clone, PartialEq, Eq, Structural)]
pub enum KeyModifiers {
    Empty,
    Control,
    Other,
}

/// A key press.
#[derive(Debug, Copy, Clone, PartialEq, Eq, Structural)]
pub struct KeyEvent {
    pub code: KeyCode,
    pub modifiers: KeyModifiers,
}

/// The command that a key press asks for.
#[derive(Debug, Copy, Clone, PartialEq, Eq, Structural)]
pub enum KeyAction {
    Toggle,
    Down,
    Up,
    Quit,
    Ignore,
}

pub open spec fn key_action(k: KeyEvent) -> KeyAction {
    match (k.code, k.modifiers) {
        (KeyCode::Enter, KeyModifiers::Empty) => KeyAction::Toggle,
        (KeyCode::Down, KeyModifiers::Empty) => KeyAction::Down,
        (KeyCode::Char('n'), KeyModifiers::Control) => KeyAction::Down,
        (KeyCode::Up, KeyModifiers::Empty) => KeyAction::Up,
        (KeyCode::Char('p'), KeyModifiers::Control) => KeyAction::Up,
        (KeyCode::Char('q'), KeyModifiers::Empty) => KeyAction::Quit,
        (KeyCode::Char('c'), KeyModifiers::Control) => KeyAction::Quit,
        (KeyCode::Char('d'), KeyModifiers::Control) => KeyAction::Quit,
        _ => KeyAction::Ignore,
    }
}

/// The indices that lead from `n` to its deepest, last visible descendant:
/// the last child, again and again, while the node is expanded and has children.
pub open spec fn last_chain(n: TreeNode) -> Seq<usize>
    decreases n,
{
    if n.is_expanded && n.children@.len() > 0 {
        seq![(n.children@.len() - 1) as usize] + last_chain(n.children@[n.children@.len() - 1])
    } else {
        Seq::empty()
    }
}

/// The visible node just before `p` in depth-first order: the parent of a
/// first child, else the deepest last visible descendant of the previous sibling.
pub open spec fn path_above(t: TreeNode, p: Seq<usize>) -> Option<Seq<usize>> {
    if p.len() == 0 {
        None
    } else if p.last() == 0 {
        Some(p.drop_last())
    } else {
        let sib = p.drop_last().push((p.last() - 1) as usize);
        Some(sib + last_chain(node_at(t, sib)))
    }
}

/// The visible node just after `p` in depth-first order: its first child
/// when it is expanded (unless `skip`), else the next sibling of the nearest
/// node on the way up that has one.
pub open spec fn path_below_from(t: TreeNode, p: Seq<usize>, skip: bool) -> Option<Seq<usize>>
    decreases p.len(),
{
    if !skip && node_at(t, p).is_expanded && node_at(t, p).children@.len() > 0 {
        Some(p.push(0))
    } else if p.len() == 0 {
        None
    } else if p.last() + 1 < node_at(t, p.drop_last()).children@.len() {
        Some(p.drop_last().push((p.last() + 1) as usize))
    } else {
        path_below_from(t, p.drop_last(), true)
    }
}

pub open spec fn path_below(t: TreeNode, p: Seq<usize>) -> Option<Seq<usize>> {
    path_below_from(t, p, false)
}

pub open spec fn opt_seq(r: Option<Vec<usize>>) -> Option<Seq<usize>> {
    match r {
        Some(v) => Some(v@),
        None => None,
    }
}

/// The cursor's column for a path of `depth` indices, on a 16-bit screen.
pub open spec fn col_of(depth: nat) -> u16 {
    ((depth * INDENT_LEN + 1) % 65536) as u16
}

proof fn lemma_chain_valid(t: TreeNode, q: Seq<usize>)
    requires
        valid_path(t, q),
    ensures
        valid_path(t, q + last_chain(node_at(t, q))),
        visible_path(t, q) ==> visible_path(t, q + last_chain(node_at(t, q))),
    decreases node_at(t, q),
{
    let n = node_at(t, q);
    if n.is_expanded && n.children@.len() > 0 {
        let q2 = q.push((n.children@.len() - 1) as usize);
        assert(q2.drop_last() =~= q);
        assert(decreases_to!(n => n.children@[n.children@.len() - 1]));
        lemma_chain_valid(t, q2);
        assert(q + last_chain(n) =~= q2 + last_chain(node_at(t, q2)));
    } else {
        assert(q + last_chain(n) =~= q);
    }
}

proof fn lemma_below_valid(t: TreeNode, p: Seq<usize>, skip: bool)
    requires
        valid_path(t, p),
    ensures
        path_below_from(t, p, skip) matches Some(q) ==> valid_path(t, q),
        visible_path(t, p) ==> (path_below_from(t, p, skip) matches Some(q) ==> visible_path(t, q)),
    decreases p.len(),
{
    if !skip && node_at(t, p).is_expanded && node_at(t, p).children@.len() > 0 {
        assert(p.push(0).drop_last() =~= p);
    } else if p.len() == 0 {
    } else if p.last() + 1 < node_at(t, p.drop_last()).children@.len() {
        assert(p.drop_last().push((p.last() + 1) as usize).drop_last() =~= p.drop_last());
    } else {
        lemma_below_valid(t, p.drop_last(), true);
    }
}

/// A visible path is valid.
pub proof fn lemma_visible_valid(t: TreeNode, p: Seq<usize>)
    requires
        visible_path(t, p),
    ensures
        valid_path(t, p),
    decreases p.len(),
{
    if p.len() > 0 {
        lemma_visible_valid(t, p.drop_last());
    }
}

/// From a visible node, skipping its children, the next visible node's
/// predecessor is the deepest last visible descendant of the start.
proof fn lemma_below_skip_then_above(t: TreeNode, p: Seq<usize>)
    requires
        t.wf(),
        visible_path(t, p),
    ensures
        path_below_from(t, p, true) matches Some(r) ==> path_above(t, r) == Some(
            p + last_chain(node_at(t, p)),
        ),
    decreases p.len(),
{
    if p.len() == 0 {
    } else if p.last() + 1 < node_at(t, p.drop_last()).children@.len() {
        lemma_visible_valid(t, p.drop_last());
        lemma_wf_node_at(t, p.drop_last());
        let r = p.drop_last().push((p.last() + 1) as usize);
        assert(r.drop_last() =~= p.drop_last());
        assert(r.drop_last().push((r.last() - 1) as usize) =~= p);
    } else {
        let pd = p.drop_last();
        lemma_below_skip_then_above(t, pd);
        let n = node_at(t, pd);
        assert(n.children@.len() - 1 == p.last());
        assert(last_chain(n) == seq![p.last()] + last_chain(node_at(t, p)));
        assert(pd + last_chain(n) =~= p + last_chain(node_at(t, p)));
    }
}

/// Moving down from a visible node and then up again comes back to it,
/// wherever moving down moves at all.
pub proof fn lemma_down_then_up(t: TreeNode, p: Seq<usize>)
    requires
        t.wf(),
        visible_path(t, p),
    ensures
        path_below(t, p) matches Some(r) ==> path_above(t, r) == Some(p),
{
    let n = node_at(t, p);
    if n.is_expanded && n.children@.len() > 0 {
        assert(p.push(0).drop_last() =~= p);
    } else {
        lemma_below_skip_then_above(t, p);
        assert(p + last_chain(n) =~= p);
    }
}

/// The paths of the visible nodes of the subtree `n` at `p`, in depth-first
/// pre-order.
pub open spec fn preorder(n: TreeNode, p: Seq<usize>) -> Seq<Seq<usize>>
    decreases n, 1int, 0int,
{
    if n.is_expanded {
        seq![p] + preorder_children(n.children@, p, 0)
    } else {
        seq![p]
    }
}

/// The pre-orders of the children `cs[i..]` of the node at `p`, one after
/// another.
pub open spec fn preorder_children(cs: Seq<TreeNode>, p: Seq<usize>, i: int) -> Seq<Seq<usize>>
    decreases cs, 0int, cs.len() - i,
{
    if i < 0 || i >= cs.len() {
        Seq::empty()
    } else {
        preorder(cs[i], p.push(i as usize)) + preorder_children(cs, p, i + 1)
    }
}

/// Leaving the deepest last visible descendant of `p` goes where leaving `p`
/// past its children goes.
proof fn lemma_below_chain_end(t: TreeNode, p: Seq<usize>)
    requires
        t.wf(),
        valid_path(t, p),
    ensures
        path_below_from(t, p + last_chain(node_at(t, p)), false) == path_below_from(t, p, true),
    decreases node_at(t, p),
{
    let n = node_at(t, p);
    lemma_wf_node_at(t, p);
    if n.is_expanded && n.children@.len() > 0 {
        let p2 = p.push((n.children@.len() - 1) as usize);
        assert(p2.drop_last() =~= p);
        assert(decreases_to!(n => n.children@[n.children@.len() - 1]));
        lemma_below_chain_end(t, p2);
        assert(p + last_chain(n) =~= p2 + last_chain(node_at(t, p2)));
    } else {
        assert(p + last_chain(n) =~= p);
    }
}

proof fn lemma_preorder(t: TreeNode, n: TreeNode, p: Seq<usize>)
    requires
        t.wf(),
        valid_path(t, p),
        node_at(t, p) == n,
    ensures
        preorder(n, p).len() > 0,
        preorder(n, p)[0] == p,
        preorder(n, p).last() == p + last_chain(n),
        forall|k: int|
            0 <= k < preorder(n, p).len() - 1 ==> path_below(t, #[trigger] preorder(n, p)[k]) == Some(
                preorder(n, p)[k + 1],
            ),
    decreases n, 1int, 0int,
{
    lemma_wf_node_at(t, p);
    let s = preorder(n, p);
    if n.is_expanded && n.children@.len() > 0 {
        let c = preorder_children(n.children@, p, 0);
        lemma_preorder_children(t, n, p, 0);
        assert(s == seq![p] + c);
        let last = (n.children@.len() - 1) as usize;
        assert(p + last_chain(n) =~= p.push(last) + last_chain(n.children@[last as int]));
        assert forall|k: int| 0 <= k < s.len() - 1 implies path_below(t, #[trigger] s[k]) == Some(s[k + 1]) by {
            if k == 0 {
                assert(s[1] == c[0]);
            } else {
                assert(s[k] == c[k - 1]);
                assert(s[k + 1] == c[k]);
            }
        }
    } else if n.is_expanded {
        assert(preorder_children(n.children@, p, 0) =~= Seq::<Seq<usize>>::empty());
        assert(s =~= seq![p]);
        assert(p + last_chain(n) =~= p);
    } else {
        assert(p + last_chain(n) =~= p);
    }
}

proof fn lemma_preorder_children(t: TreeNode, n: TreeNode, p: Seq<usize>, i: int)
    requires
        t.wf(),
        valid_path(t, p),
        node_at(t, p) == n,
        0 <= i < n.children@.len(),
    ensures
        preorder_children(n.children@, p, i).len() > 0,
        preorder_children(n.children@, p, i)[0] == p.push(i as usize),
        preorder_children(n.children@, p, i).last() == p.push((n.children@.len() - 1) as usize)
            + last_chain(n.children@[n.children@.len() - 1]),
        forall|k: int|
            0 <= k < preorder_children(n.children@, p, i).len() - 1 ==> path_below(
                t,
                #[trigger] preorder_children(n.children@, p, i)[k],
            ) == Some(preorder_children(n.children@, p, i)[k + 1]),
    decreases n.children@, 0int, n.children@.len() - i,
{
    lemma_wf_node_at(t, p);
    let cs = n.children@;
    let pi = p.push(i as usize);
    assert(pi.drop_last() =~= p);
    assert(decreases_to!(n.children@ => n.children@[i]));
    lemma_preorder(t, cs[i], pi);
    let a = preorder(cs[i], pi);
    let s = preorder_children(cs, p, i);
    if i + 1 < cs.len() {
        lemma_preorder_children(t, n, p, i + 1);
        let b = preorder_children(cs, p, i + 1);
        assert(s == a + b);
        lemma_below_chain_end(t, pi);
        let pj = p.push((i + 1) as usize);
        assert(pi.drop_last().push((pi.last() + 1) as usize) =~= pj);
        assert forall|k: int| 0 <= k < s.len() - 1 implies path_below(t, #[trigger] s[k]) == Some(s[k + 1]) by {
            if k < a.len() - 1 {
                assert(s[k] == a[k]);
                assert(s[k + 1] == a[k + 1]);
            } else if k == a.len() - 1 {
                assert(s[k] == a.last());
                assert(s[k + 1] == b[0]);
            } else {
                assert(s[k] == b[k - a.len()]);
                assert(s[k + 1] == b[k - a.len() + 1]);
            }
        }
    } else {
        assert(preorder_children(cs, p, i + 1) =~= Seq::<Seq<usize>>::empty());
        assert(s =~= a);
    }
}

/// Moving down from the root steps through the visible nodes in depth-first
/// pre-order, one at a time, and stops after the last of them.
pub proof fn lemma_down_enumerates(t: TreeNode)
    requires
        t.wf(),
    ensures
        preorder(t, Seq::empty())[0] == Seq::<usize>::empty(),
        forall|k: int|
            0 <= k < preorder(t, Seq::empty()).len() - 1 ==> path_below(
                t,
                #[trigger] preorder(t, Seq::empty())[k],
            ) == Some(preorder(t, Seq::empty())[k + 1]),
        path_below(t, preorder(t, Seq::empty()).last()) is None,
{
    let e = Seq::<usize>::empty();
    lemma_preorder(t, t, e);
    lemma_below_chain_end(t, e);
    assert(e + last_chain(t) =~= last_chain(t));
}

/// Extends `path` by the last visible chain below `node`.
fn push_last_chain(node: &TreeNode, path: &mut Vec<usize>)
    ensures
        final(path)@ == old(path)@ + last_chain(*node),
    decreases node,
{
    if node.is_expanded && node.children.len() > 0 {
        let last = node.children.len() - 1;
        path.push(last);
        push_last_chain(&node.children[last], path);
        proof {
            assert(final(path)@ =~= old(path)@ + last_chain(*node));
        }
    } else {
        proof {
            assert(old(path)@ + last_chain(*node) =~= old(path)@);
        }
    }
}

/// Flips the expand flag of the node at `path[i..]` below `node`, unless it
/// has no children; reports whether it flipped.
fn toggle_at(node: &mut TreeNode, path: &Vec<usize>, i: usize) -> (r: bool)
    requires
        i <= path@.len(),
        valid_path(*old(node), path@.subrange(i as int, path@.len() as int)),
    ensures
        same_shape(*old(node), *final(node)),
        r == (node_at(*old(node), path@.subrange(i as int, path@.len() as int)).children@.len() > 0),
        node_at(*final(node), path@.subrange(i as int, path@.len() as int)).is_expanded == (r != node_at(
            *old(node),
            path@.subrange(i as int, path@.len() as int),
        ).is_expanded),
        forall|q: Seq<usize>|
            valid_path(*old(node), q) && q != path@.subrange(i as int, path@.len() as int)
                ==> (#[trigger] node_at(*final(node), q)).is_expanded == node_at(*old(node), q).is_expanded,
    decreases path@.len() - i,
{
    let ghost sub = path@.subrange(i as int, path@.len() as int);
    proof {
        lemma_same_shape_refl(*node);
    }
    if i == path.len() {
        if node.children.len() == 0 {
            false
        } else {
            node.is_expanded = !node.is_expanded;
            proof {
                assert forall|k: int| 0 <= k < node.children@.len() implies same_shape(
                    #[trigger] old(node).children@[k],
                    node.children@[k],
                ) by {
                    lemma_same_shape_refl(node.children@[k]);
                }
                assert forall|q: Seq<usize>|
                    valid_path(*old(node), q) && q != sub implies (#[trigger] node_at(*node, q)).is_expanded
                        == node_at(*old(node), q).is_expanded by {
                    if q.len() == 0 {
                        assert(q =~= sub);
                    } else {
                        lemma_node_at_front(*node, q);
                        lemma_node_at_front(*old(node), q);
                    }
                }
            }
            true
        }
    } else {
        let ghost old_node = *node;
        proof {
            lemma_node_at_front(old_node, sub);
            assert(sub.drop_first() =~= path@.subrange(i + 1, path@.len() as int));
        }
        let c = path[i];
        let r = toggle_at(&mut node.children[c], path, i + 1);
        proof {
            assert forall|k: int| 0 <= k < node.children@.len() implies same_shape(
                #[trigger] old_node.children@[k],
                node.children@[k],
            ) by {
                if k != c {
                    lemma_same_shape_refl(node.children@[k]);
                }
            }
            lemma_node_at_front(*node, sub);
            let sub2 = path@.subrange(i + 1, path@.len() as int);
            assert forall|q: Seq<usize>|
                valid_path(old_node, q) && q != sub implies (#[trigger] node_at(*node, q)).is_expanded
                    == node_at(old_node, q).is_expanded by {
                if q.len() > 0 {
                    lemma_node_at_front(*node, q);
                    lemma_node_at_front(old_node, q);
                    if q[0] == c {
                        if q.drop_first() == sub2 {
                            assert(sub[0] == c);
                            assert(sub.drop_first() =~= sub2);
                            assert forall|m: int| 0 <= m < q.len() implies q[m] == sub[m] by {
                                if m > 0 {
                                    assert(q[m] == q.drop_first()[m - 1]);
                                    assert(sub[m] == sub.drop_first()[m - 1]);
                                }
                            }
                            assert(q =~= sub);
                        }
                    }
                }
            }
        }
        r
    }
}

impl CrosstermCli {
    /// Effect of a move down on the session, with `screen_rows` rows on screen.
    pub open spec fn down_post(o: CrosstermCli, n: CrosstermCli, screen_rows: u16, r: CommandResponse) -> bool {
        &&& n.tree == o.tree
        &&& match path_below(o.tree, o.current_path@) {
            None => {
                &&& r == CommandResponse::NoOp
                &&& n.current_path@ == o.current_path@
                &&& n.top_path@ == o.top_path@
                &&& n.cursor_pos == o.cursor_pos
            },
            Some(q) => {
                &&& n.current_path@ == q
                &&& n.cursor_pos.col == col_of(q.len())
                &&& n.cursor_pos.row == (if o.cursor_pos.row >= screen_rows - 1 {
                    screen_rows - 1
                } else {
                    o.cursor_pos.row + 1
                })
                &&& if o.cursor_pos.row == screen_rows - 1 {
                    &&& r == CommandResponse::RerenderScreen
                    &&& n.top_path@ == match path_below(o.tree, o.top_path@) {
                        Some(t) => t,
                        None => o.top_path@,
                    }
                } else {
                    &&& r == CommandResponse::RerenderCursor
                    &&& n.top_path@ == o.top_path@
                }
            },
        }
    }

    /// Effect of a move up on the session.
    pub open spec fn up_post(o: CrosstermCli, n: CrosstermCli, r: CommandResponse) -> bool {
        &&& n.tree == o.tree
        &&& match path_above(o.tree, o.current_path@) {
            None => {
                &&& r == CommandResponse::NoOp
                &&& n.current_path@ == o.current_path@
                &&& n.top_path@ == o.top_path@
                &&& n.cursor_pos == o.cursor_pos
            },
            Some(q) => {
                &&& n.current_path@ == q
                &&& n.cursor_pos.col == col_of(q.len())
                &&& n.cursor_pos.row == (if o.cursor_pos.row == 0 {
                    0
                } else {
                    (o.cursor_pos.row - 1) as u16
                })
                &&& if o.cursor_pos.row == 0 {
                    &&& r == CommandResponse::RerenderScreen
                    &&& n.top_path@ == match path_above(o.tree, o.top_path@) {
                        Some(t) => t,
                        None => o.top_path@,
                    }
                } else {
                    &&& r == CommandResponse::RerenderCursor
                    &&& n.top_path@ == o.top_path@
                }
            },
        }
    }

    /// Effect of a toggle on the session: the flag of the node under the
    /// cursor flips when it has children, and nothing else changes in shape.
    pub open spec fn toggle_post(o: CrosstermCli, n: CrosstermCli, r: CommandResponse) -> bool {
        let has_children = node_at(o.tree, o.current_path@).children@.len() > 0;
        &&& same_shape(o.tree, n.tree)
        &&& n.current_path@ == o.current_path@
        &&& n.top_path@ == o.top_path@
        &&& n.cursor_pos == o.cursor_pos
        &&& r == (if has_children {
            CommandResponse::RerenderScreen
        } else {
            CommandResponse::NoOp
        })
        &&& node_at(n.tree, n.current_path@).is_expanded == (has_children != node_at(
            o.tree,
            o.current_path@,
        ).is_expanded)
        &&& forall|q: Seq<usize>|
            valid_path(o.tree, q) && q != o.current_path@ ==> (#[trigger] node_at(n.tree, q)).is_expanded
                == node_at(o.tree, q).is_expanded
    }

    /// Runs the command bound to `key_event`; `screen_rows` is the height of
    /// the screen.
    pub fn handle_key(&mut self, key_event: KeyEvent, screen_rows: u16) -> (r: CommandResponse)
        requires
            old(self).wf(),
            screen_rows > 0,
        ensures
            final(self).wf(),
            key_action(key_event) == KeyAction::Toggle ==> Self::toggle_post(*old(self), *final(self), r),
            key_action(key_event) == KeyAction::Down ==> Self::down_post(
                *old(self),
                *final(self),
                screen_rows,
                r,
            ),
            key_action(key_event) == KeyAction::Up ==> Self::up_post(*old(self), *final(self), r),
            key_action(key_event) == KeyAction::Quit ==> r == CommandResponse::Quit,
            key_action(key_event) == KeyAction::Ignore ==> r == CommandResponse::NoOp,
            (key_action(key_event) == KeyAction::Quit || key_action(key_event) == KeyAction::Ignore)
                ==> final(self).tree == old(self).tree && final(self).current_path@ == old(self).current_path@
                && final(self).top_path@ == old(self).top_path@ && final(self).cursor_pos == old(self).cursor_pos,
    {
        match (key_event.code, key_event.modifiers) {
            (KeyCode::Enter, KeyModifiers::Empty) => self.toggle_expand(),
            (KeyCode::Down, KeyModifiers::Empty) | (KeyCode::Char('n'), KeyModifiers::Control) => {
                self.handle_down(screen_rows)
            },
            (KeyCode::Up, KeyModifiers::Empty) | (KeyCode::Char('p'), KeyModifiers::Control) => {
                self.handle_up()
            },
            (KeyCode::Char('q'), KeyModifiers::Empty)
            | (KeyCode::Char('c'), KeyModifiers::Control)
            | (KeyCode::Char('d'), KeyModifiers::Control) => CommandResponse::Quit,
            _ => CommandResponse::NoOp,
        }
    }

    fn toggle_expand(&mut self) -> (r: CommandResponse)
        requires
            old(self).wf(),
        ensures
            final(self).wf(),
            Self::toggle_post(*old(self), *final(self), r),
    {
        proof {
            assert(self.current_path@.subrange(0, self.current_path@.len() as int) =~= self.current_path@);
        }
        let ghost o = *self;
        let flipped = toggle_at(&mut self.tree, &self.current_path, 0);
        proof {
            lemma_same_shape_path(o.tree, self.tree, self.top_path@);
            lemma_same_shape_path(o.tree, self.tree, self.current_path@);
            lemma_same_flags_visible(o.tree, self.tree, self.current_path@);
        }
        if flipped {
            CommandResponse::RerenderScreen
        } else {
            CommandResponse::NoOp
        }
    }

    fn handle_up(&mut self) -> (r: CommandResponse)
        requires
            old(self).wf(),
        ensures
            final(self).wf(),
            Self::up_post(*old(self), *final(self), r),
    {
        let path = self.current_path.clone();
        proof {
            assert(path@ =~= self.current_path@);
        }
        if let Some(new_path) = self.get_path_above(path) {
            let row = self.cursor_pos.row;
            let new_row: u16 = if row == 0 { 0 } else { row - 1 };
            let new_col = col_from_path(&new_path);

            self.cursor_pos = CursorPos { col: new_col, row: new_row };
            self.current_path = new_path;

            if row == 0 {
                let top_path = self.top_path.clone();
                proof {
                    assert(top_path@ =~= self.top_path@);
                }
                if let Some(new_top_path) = self.get_path_above(top_path) {
                    self.top_path = new_top_path;
                }
                CommandResponse::RerenderScreen
            } else {
                CommandResponse::RerenderCursor
            }
        } else {
            CommandResponse::NoOp
        }
    }

    fn get_path_above(&self, path: Vec<usize>) -> (r: Option<Vec<usize>>)
        requires
            valid_path(self.tree, path@),
        ensures
            opt_seq(r) == path_above(self.tree, path@),
            r matches Some(q) ==> valid_path(self.tree, q@),
            visible_path(self.tree, path@) ==> (r matches Some(q) ==> visible_path(self.tree, q@)),
    {
        let mut path = path;
        if path.len() == 0 {
            return None;
        }
        let ghost p0 = path@;
        let last_idx = path.len() - 1;
        if path[last_idx] == 0 {
            path.pop();
            proof {
                assert(path@ =~= p0.drop_last());
            }
        } else {
            let v = path[last_idx] - 1;
            path.set(last_idx, v);
            proof {
                assert(path@ =~= p0.drop_last().push(v));
                assert(path@.drop_last() =~= p0.drop_last());
            }
            let candidate_node = self.node_at_path(path.as_slice());
            let ghost sib = path@;
            push_last_chain(candidate_node, &mut path);
            proof {
                lemma_chain_valid(self.tree, sib);
            }
        }
        Some(path)
    }

    fn handle_down(&mut self, screen_rows: u16) -> (r: CommandResponse)
        requires
            old(self).wf(),
            screen_rows > 0,
        ensures
            final(self).wf(),
            Self::down_post(*old(self), *final(self), screen_rows, r),
    {
        let path = self.current_path.clone();
        proof {
            assert(path@ =~= self.current_path@);
        }
        if let Some(new_path) = self.get_path_below(path) {
            let new_col = col_from_path(&new_path);
            let row = self.cursor_pos.row;
            let new_row: u16 = if row >= screen_rows - 1 { screen_rows - 1 } else { row + 1 };

            self.cursor_pos = CursorPos { col: new_col, row: new_row };
            self.current_path = new_path;

            if row == screen_rows - 1 {
                let top_path = self.top_path.clone();
                proof {
                    assert(top_path@ =~= self.top_path@);
                }
                if let Some(new_top_path) = self.get_path_below(top_path) {
                    self.top_path = new_top_path;
                }
                CommandResponse::RerenderScreen
            } else {
                CommandResponse::RerenderCursor
            }
        } else {
            CommandResponse::NoOp
        }
    }

    fn get_path_below(&self, path: Vec<usize>) -> (r: Option<Vec<usize>>)
        requires
            valid_path(self.tree, path@),
        ensures
            opt_seq(r) == path_below(self.tree, path@),
            r matches Some(q) ==> valid_path(self.tree, q@),
            visible_path(self.tree, path@) ==> (r matches Some(q) ==> visible_path(self.tree, q@)),
    {
        self.get_path_below_helper(path, false)
    }

    fn get_path_below_helper(&self, path: Vec<usize>, skip_children: bool) -> (r: Option<Vec<usize>>)
        requires
            valid_path(self.tree, path@),
        ensures
            opt_seq(r) == path_below_from(self.tree, path@, skip_children),
            r matches Some(q) ==> valid_path(self.tree, q@),
            visible_path(self.tree, path@) ==> (r matches Some(q) ==> visible_path(self.tree, q@)),
        decreases path@.len(),
    {
        let mut path = path;
        let ghost p0 = path@;
        proof {
            lemma_below_valid(self.tree, p0, skip_children);
        }
        let curr_node = self.node_at_path(path.as_slice());
        if !skip_children && curr_node.is_expanded && curr_node.children.len() > 0 {
            path.push(0);
            return Some(path);
        }
        if path.len() == 0 {
            return None;
        }
        let last_idx = path.len() - 1;
        let parent_node = self.node_at_prefix(path.as_slice(), last_idx);
        proof {
            assert(path@.subrange(0, last_idx as int) =~= p0.drop_last());
        }
        if parent_node.children.len() - 1 > path[last_idx] {
            let v = path[last_idx] + 1;
            path.set(last_idx, v);
            proof {
                assert(path@ =~= p0.drop_last().push(v));
            }
            return Some(path);
        }
        path.pop();
        proof {
            assert(path@ =~= p0.drop_last());
        }
        self.get_path_below_helper(path, true)
    }
}

/// The cursor's column for `path`: its depth times the indent, plus one.
pub fn col_from_path(path: &Vec<usize>) -> (r: u16)
    ensures
        r == col_of(path@.len()),
{
    let d = (path.len() % 32768) as u16;
    proof {
        let n = path@.len() as int;
        assert((n * 2 + 1) % 65536 == (n % 32768) * 2 + 1) by (nonlinear_arith);
    }
    d * INDENT_LEN + 1
}

} // verus!
