use vstd::prelude::*;

use crate::chain::RankChain;
use crate::model::all_gt;
use crate::model::all_lt;
use crate::model::chain_of;
use crate::model::fib;
use crate::model::insert_all;
use crate::model::listing_wf;
use crate::model::seq_insert;
use crate::model::sorted;
use crate::model::vec_listing;
use crate::model::Listing;
use crate::task::Task;

verus! {

/// What a tree node holds: either a single task, or a FIFO chain of at least
/// two tasks sharing one rank. A node never holds both and never neither.
#[derive(Clone, Debug)]
pub enum TaskorLink {
    STask(Task),
    Link(RankChain),
}

impl View for TaskorLink {
    type V = Seq<Task>;

    open spec fn view(&self) -> Seq<Task> {
        match self {
            TaskorLink::STask(t) => seq![*t],
            TaskorLink::Link(c) => c@,
        }
    }
}

impl TaskorLink {
    /// Non-empty, uniform in rank, and a chain only when at least two tasks
    /// share the rank (promotion happens on the second insert of a rank).
    pub open spec fn wf(self) -> bool {
        &&& self@.len() > 0
        &&& forall|i: int| 0 <= i < self@.len() ==> (#[trigger] self@[i]).rank == self@[0].rank
        &&& self is Link ==> self@.len() >= 2
    }

    /// The representative rank: the rank shared by every task held here.
    pub open spec fn rep_spec(self) -> i32 {
        self@[0].rank
    }

    /// The representative rank, read from the first task.
    pub fn rep_rank(&self) -> (r: i32)
        requires
            self.wf(),
        ensures
            r == self.rep_spec(),
    {
        match self {
            TaskorLink::STask(t) => t.rank,
            TaskorLink::Link(c) => c.get(0).rank,
        }
    }

    /// All tasks held here, in arrival order.
    pub fn tasks(&self) -> (v: Vec<Task>)
        ensures
            v@ == self@,
    {
        match self {
            TaskorLink::STask(t) => {
                let mut v: Vec<Task> = Vec::new();
                v.push(*t);
                proof {
                    assert(v@ =~= self@);
                }
                v
            },
            TaskorLink::Link(c) => c.to_vec(),
        }
    }

    /// Absorbs one more task of the representative rank: a singleton is
    /// promoted to a two-task chain, a chain takes the task at its tail.
    fn absorb(&mut self, task: Task)
        requires
            old(self).wf(),
            task.rank == old(self).rep_spec(),
        ensures
            final(self)@ == old(self)@.push(task),
            final(self).wf(),
    {
        match self {
            TaskorLink::Link(c) => {
                c.push_back(task);
            },
            TaskorLink::STask(t) => {
                let mut c = RankChain::new();
                c.push_back(*t);
                c.push_back(task);
                *self = TaskorLink::Link(c);
                proof {
                    assert(self@ =~= old(self)@.push(task));
                }
            },
        }
    }
}

/// One node of the AVL tree: its value (singleton or chain), its cached
/// height (1 for a leaf), and its two owned subtrees.
struct Node {
    val: TaskorLink,
    height: i32,
    left: Option<Box<Node>>,
    right: Option<Box<Node>>,
}

impl Node {
    /// Height of an optional subtree; an absent child has height 0.
    spec fn oh(node: Option<Box<Node>>) -> int
        decreases node,
    {
        match node {
            None => 0,
            Some(n) => n.sheight(),
        }
    }

    /// The true height of the subtree rooted here, computed from the shape.
    spec fn sheight(self) -> int
        decreases self,
    {
        1 + vstd::math::max(Self::oh(self.left), Self::oh(self.right))
    }

    /// In-order listing of an optional subtree.
    spec fn ov(node: Option<Box<Node>>) -> Listing
        decreases node,
    {
        match node {
            None => Seq::empty(),
            Some(n) => n.sview(),
        }
    }

    /// In-order listing of the subtree rooted here: left part, then this
    /// node's rank with its tasks, then the right part.
    spec fn sview(self) -> Listing
        decreases self,
    {
        Self::ov(self.left) + seq![(self.val.rep_spec(), self.val@)] + Self::ov(self.right)
    }

    /// The cached height fields equal the true heights, everywhere.
    spec fn hok(self) -> bool
        decreases self,
    {
        &&& self.height == self.sheight()
        &&& Self::hok_opt(self.left)
        &&& Self::hok_opt(self.right)
    }

    spec fn hok_opt(node: Option<Box<Node>>) -> bool
        decreases node,
    {
        match node {
            None => true,
            Some(n) => n.hok(),
        }
    }

    /// The binary-search property with well-formed values: every rank to the
    /// left is smaller, every rank to the right larger, recursively.
    spec fn bst(self) -> bool
        decreases self,
    {
        &&& self.val.wf()
        &&& all_lt(Self::ov(self.left), self.val.rep_spec())
        &&& all_gt(Self::ov(self.right), self.val.rep_spec())
        &&& Self::bst_opt(self.left)
        &&& Self::bst_opt(self.right)
    }

    spec fn bst_opt(node: Option<Box<Node>>) -> bool
        decreases node,
    {
        match node {
            None => true,
            Some(n) => n.bst(),
        }
    }

    /// The AVL balance property: child heights differ by at most one,
    /// everywhere.
    spec fn bal(self) -> bool
        decreases self,
    {
        &&& -1 <= Self::oh(self.left) - Self::oh(self.right) <= 1
        &&& Self::bal_opt(self.left)
        &&& Self::bal_opt(self.right)
    }

    spec fn bal_opt(node: Option<Box<Node>>) -> bool
        decreases node,
    {
        match node {
            None => true,
            Some(n) => n.bal(),
        }
    }

    spec fn wf(self) -> bool {
        self.hok() && self.bst() && self.bal()
    }

    spec fn wf_opt(node: Option<Box<Node>>) -> bool {
        match node {
            None => true,
            Some(n) => n.wf(),
        }
    }

    proof fn lemma_oh_nonneg(node: Option<Box<Node>>)
        ensures
            Self::oh(node) >= 0,
            node.is_some() ==> Self::oh(node) >= 1,
        decreases node,
    {
        match node {
            None => {},
            Some(n) => {
                Self::lemma_oh_nonneg(n.left);
                Self::lemma_oh_nonneg(n.right);
            },
        }
    }

    /// A fresh leaf holding one task.
    fn leaf(task: Task) -> (n: Node)
        ensures
            n.wf(),
            n.sview() == seq![(task.rank, seq![task])],
            n.sheight() == 1,
    {
        let n = Node { val: TaskorLink::STask(task), height: 1, left: None, right: None };
        proof {
            assert(n.sview() =~= seq![(task.rank, seq![task])]);
        }
        n
    }

    /// Reads the cached height of an optional child.
    fn child_height(node: &Option<Box<Node>>) -> (h: i32)
        requires
            Self::hok_opt(*node),
        ensures
            h == Self::oh(*node),
    {
        match node {
            None => 0,
            Some(n) => n.height,
        }
    }

    /// Recomputes this node's height from its children's cached heights.
    fn update_height(&mut self)
        requires
            Self::hok_opt(old(self).left),
            Self::hok_opt(old(self).right),
            Self::oh(old(self).left) + 1 <= i32::MAX,
            Self::oh(old(self).right) + 1 <= i32::MAX,
        ensures
            final(self).val == old(self).val,
            final(self).left == old(self).left,
            final(self).right == old(self).right,
            final(self).hok(),
            final(self).sheight() == old(self).sheight(),
    {
        proof {
            Self::lemma_oh_nonneg(self.left);
            Self::lemma_oh_nonneg(self.right);
        }
        let lh = Self::child_height(&self.left);
        let rh = Self::child_height(&self.right);
        self.height = 1 + if lh > rh {
            lh
        } else {
            rh
        };
    }

    /// The balance factor: left height minus right height.
    fn balance_factor(&self) -> (b: i32)
        requires
            Self::hok_opt(self.left),
            Self::hok_opt(self.right),
        ensures
            b == Self::oh(self.left) - Self::oh(self.right),
    {
        proof {
            Self::lemma_oh_nonneg(self.left);
            Self::lemma_oh_nonneg(self.right);
        }
        let lh = Self::child_height(&self.left);
        let rh = Self::child_height(&self.right);
        lh - rh
    }

    /// Canonical left rotation: the right child becomes the root of this
    /// subtree; its left subtree is re-attached as the right subtree of the
    /// demoted node, so no subtree is dropped. The in-order listing is
    /// unchanged; only depths and cached heights change.
    fn left_rotation(&mut self)
        requires
            old(self).right.is_some(),
            Self::hok_opt(old(self).left),
            Self::hok_opt(old(self).right.unwrap().left),
            Self::hok_opt(old(self).right.unwrap().right),
            Self::oh(old(self).left) + 2 <= i32::MAX,
            Self::oh(old(self).right.unwrap().left) + 2 <= i32::MAX,
            Self::oh(old(self).right.unwrap().right) + 2 <= i32::MAX,
        ensures
            final(self).val == old(self).right.unwrap().val,
            final(self).right == old(self).right.unwrap().right,
            final(self).left.is_some(),
            final(self).left.unwrap().val == old(self).val,
            final(self).left.unwrap().left == old(self).left,
            final(self).left.unwrap().right == old(self).right.unwrap().left,
            final(self).hok(),
            final(self).sview() == old(self).sview(),
    {
        proof {
            Self::lemma_oh_nonneg(self.left);
            Self::lemma_oh_nonneg(self.right.unwrap().left);
            Self::lemma_oh_nonneg(self.right.unwrap().right);
        }
        let mut r: Box<Node> = self.right.take().unwrap();
        let rl: Option<Box<Node>> = r.left.take();
        let rr: Option<Box<Node>> = r.right.take();
        let l: Option<Box<Node>> = self.left.take();
        std::mem::swap(&mut self.val, &mut r.val);
        r.left = l;
        r.right = rl;
        (&mut *r).update_height();
        self.left = Some(r);
        self.right = rr;
        self.update_height();
        proof {
            let o = *old(self);
            let y = *o.right.unwrap();
            assert(self.val == y.val);
            assert(o.sview() == Self::ov(o.left) + seq![(o.val.rep_spec(), o.val@)] + y.sview());
            assert(y.sview() == Self::ov(y.left) + seq![(y.val.rep_spec(), y.val@)] + Self::ov(
                y.right,
            ));
            let nl = *self.left.unwrap();
            assert(nl.sview() == Self::ov(o.left) + seq![(o.val.rep_spec(), o.val@)] + Self::ov(
                y.left,
            ));
            assert(self.sview() == nl.sview() + seq![(y.val.rep_spec(), y.val@)] + Self::ov(
                y.right,
            ));
            assert(self.sview() =~= o.sview());
        }
    }

    /// Canonical right rotation, the mirror image of the left rotation. The
    /// in-order listing is unchanged; only depths and cached heights change.
    fn right_rotation(&mut self)
        requires
            old(self).left.is_some(),
            Self::hok_opt(old(self).right),
            Self::hok_opt(old(self).left.unwrap().left),
            Self::hok_opt(old(self).left.unwrap().right),
            Self::oh(old(self).right) + 2 <= i32::MAX,
            Self::oh(old(self).left.unwrap().left) + 2 <= i32::MAX,
            Self::oh(old(self).left.unwrap().right) + 2 <= i32::MAX,
        ensures
            final(self).val == old(self).left.unwrap().val,
            final(self).left == old(self).left.unwrap().left,
            final(self).right.is_some(),
            final(self).right.unwrap().val == old(self).val,
            final(self).right.unwrap().right == old(self).right,
            final(self).right.unwrap().left == old(self).left.unwrap().right,
            final(self).hok(),
            final(self).sview() == old(self).sview(),
    {
        proof {
            Self::lemma_oh_nonneg(self.right);
            Self::lemma_oh_nonneg(self.left.unwrap().left);
            Self::lemma_oh_nonneg(self.left.unwrap().right);
        }
        let mut l: Box<Node> = self.left.take().unwrap();
        let ll: Option<Box<Node>> = l.left.take();
        let lr: Option<Box<Node>> = l.right.take();
        let r: Option<Box<Node>> = self.right.take();
        std::mem::swap(&mut self.val, &mut l.val);
        l.left = lr;
        l.right = r;
        (&mut *l).update_height();
        self.right = Some(l);
        self.left = ll;
        self.update_height();
        proof {
            let o = *old(self);
            let y = *o.left.unwrap();
            assert(self.val == y.val);
            assert(o.sview() == y.sview() + seq![(o.val.rep_spec(), o.val@)] + Self::ov(o.right));
            assert(y.sview() == Self::ov(y.left) + seq![(y.val.rep_spec(), y.val@)] + Self::ov(
                y.right,
            ));
            let nr = *self.right.unwrap();
            assert(nr.sview() == Self::ov(y.right) + seq![(o.val.rep_spec(), o.val@)] + Self::ov(
                o.right,
            ));
            assert(self.sview() == Self::ov(y.left) + seq![(y.val.rep_spec(), y.val@)]
                + nr.sview());
            assert(self.sview() =~= o.sview());
        }
    }

    /// Every node's value is well-formed, with no ordering claim.
    spec fn vals_wf(self) -> bool
        decreases self,
    {
        &&& self.val.wf()
        &&& Self::vals_wf_opt(self.left)
        &&& Self::vals_wf_opt(self.right)
    }

    spec fn vals_wf_opt(node: Option<Box<Node>>) -> bool
        decreases node,
    {
        match node {
            None => true,
            Some(n) => n.vals_wf(),
        }
    }

    /// The search property makes the in-order listing a well-formed (sorted,
    /// uniform-chain) listing.
    proof fn lemma_bst_sorted(self)
        requires
            self.bst(),
        ensures
            listing_wf(self.sview()),
            self.vals_wf(),
        decreases self,
    {
        Self::lemma_bst_sorted_opt(self.left);
        Self::lemma_bst_sorted_opt(self.right);
        crate::model::lemma_listing_wf_concat(
            Self::ov(self.left),
            (self.val.rep_spec(), self.val@),
            Self::ov(self.right),
        );
    }

    proof fn lemma_bst_sorted_opt(node: Option<Box<Node>>)
        requires
            Self::bst_opt(node),
        ensures
            listing_wf(Self::ov(node)),
            Self::vals_wf_opt(node),
        decreases node,
    {
        match node {
            None => {},
            Some(n) => {
                n.lemma_bst_sorted();
            },
        }
    }

    /// Conversely, a tree of well-formed values whose in-order listing is
    /// sorted has the search property. Rotations preserve the listing, so
    /// they preserve the search property through this lemma.
    proof fn lemma_sorted_bst(self)
        requires
            self.vals_wf(),
            sorted(self.sview()),
        ensures
            self.bst(),
        decreases self,
    {
        crate::model::lemma_sorted_parts(
            Self::ov(self.left),
            (self.val.rep_spec(), self.val@),
            Self::ov(self.right),
        );
        Self::lemma_sorted_bst_opt(self.left);
        Self::lemma_sorted_bst_opt(self.right);
    }

    proof fn lemma_sorted_bst_opt(node: Option<Box<Node>>)
        requires
            Self::vals_wf_opt(node),
            sorted(Self::ov(node)),
        ensures
            Self::bst_opt(node),
        decreases node,
    {
        match node {
            None => {},
            Some(n) => {
                n.lemma_sorted_bst();
            },
        }
    }

    /// Restores the AVL balance at this node after one insertion below it,
    /// dispatching the four classical cases: a single right rotation for a
    /// left-left imbalance, left-then-right for left-right, and mirrored for
    /// the right-heavy cases. The in-order listing is unchanged.
    fn balance(&mut self)
        requires
            Self::wf_opt(old(self).left),
            Self::wf_opt(old(self).right),
            old(self).val.wf(),
            all_lt(Self::ov(old(self).left), old(self).val.rep_spec()),
            all_gt(Self::ov(old(self).right), old(self).val.rep_spec()),
            -2 <= Self::oh(old(self).left) - Self::oh(old(self).right) <= 2,
            Self::oh(old(self).left) + 3 <= i32::MAX,
            Self::oh(old(self).right) + 3 <= i32::MAX,
        ensures
            final(self).wf(),
            final(self).sview() == old(self).sview(),
            vstd::math::max(Self::oh(old(self).left), Self::oh(old(self).right)) <= final(self).sheight(),
            final(self).sheight() <= 1 + vstd::math::max(Self::oh(old(self).left), Self::oh(old(self).right)),
            -1 <= Self::oh(old(self).left) - Self::oh(old(self).right) <= 1 ==> final(self).sheight() == 1 + vstd::math::max(Self::oh(old(self).left), Self::oh(old(self).right)),
    {
        proof {
            Self::lemma_oh_nonneg(self.left);
            Self::lemma_oh_nonneg(self.right);
            assert(old(self).bst());
            old(self).lemma_bst_sorted();
        }
        self.update_height();
        let bf = self.balance_factor();
        if bf > 1 {
            proof {
                assert(self.left.is_some());
            }
            let lbf = match &self.left {
                Some(l) => l.balance_factor(),
                None => 0,
            };
            let ghost c = Self::oh(old(self).right);
            let ghost lnode = *old(self).left.unwrap();
            let ghost a = Self::oh(lnode.left);
            let ghost b = Self::oh(lnode.right);
            proof {
                Self::lemma_oh_nonneg(lnode.left);
                Self::lemma_oh_nonneg(lnode.right);
                assert(1 + vstd::math::max(a, b) == c + 2);
            }
            if lbf >= 0 {
                self.right_rotation();
                proof {
                    assert(a == c + 1 && c <= b <= c + 1);
                    let inner = *self.right.unwrap();
                    assert(inner.sheight() == 1 + vstd::math::max(b, c));
                    assert(self.sheight() == 1 + vstd::math::max(a, inner.sheight()));
                    assert(inner.bal());
                    assert(self.bal());
                    assert(c + 2 <= self.sheight() <= c + 3);
                    assert(lnode.vals_wf());
                    assert(inner.val.wf() && Self::vals_wf_opt(inner.left) && Self::vals_wf_opt(
                        inner.right,
                    ));
                    assert(inner.vals_wf());
                    assert(self.vals_wf());
                    self.lemma_sorted_bst();
                }
            } else {
                let ghost lrnode = *lnode.right.unwrap();
                let ghost d = Self::oh(lrnode.left);
                let ghost e = Self::oh(lrnode.right);
                proof {
                    assert(lnode.right.is_some());
                    Self::lemma_oh_nonneg(lrnode.left);
                    Self::lemma_oh_nonneg(lrnode.right);
                    assert(b == a + 1 && a == c);
                    assert(1 + vstd::math::max(d, e) == b);
                    assert(lnode.hok());
                    assert(lrnode.hok());
                    assert(Self::hok_opt(lnode.left));
                    assert(Self::hok_opt(lrnode.left) && Self::hok_opt(lrnode.right));
                }
                let mut l: Box<Node> = self.left.take().unwrap();
                (&mut *l).left_rotation();
                proof {
                    assert(l.sview() == lnode.sview());
                }
                self.left = Some(l);
                proof {
                    assert(self.sview() =~= old(self).sview());
                    assert(l.left.unwrap().sheight() == 1 + vstd::math::max(a, d));
                    assert(Self::oh(self.left) == c + 2);
                }
                self.right_rotation();
                proof {
                    let inner_l = *self.left.unwrap();
                    let inner_r = *self.right.unwrap();
                    assert(inner_l.sheight() == 1 + vstd::math::max(a, d));
                    assert(inner_r.sheight() == 1 + vstd::math::max(e, c));
                    assert(lnode.bal() && lrnode.bal());
                    assert(Self::bal_opt(lnode.left) && Self::bal_opt(lrnode.left)
                        && Self::bal_opt(lrnode.right));
                    assert(Self::bal_opt(old(self).right));
                    assert(-1 <= d - e <= 1);
                    assert(inner_l.bal());
                    assert(inner_r.bal());
                    assert(self.sheight() == c + 2);
                    assert(self.bal());
                    assert(old(self).vals_wf());
                    assert(Self::vals_wf_opt(old(self).left));
                    assert(lnode.vals_wf());
                    assert(Self::vals_wf_opt(lnode.right));
                    assert(lrnode.vals_wf());
                    assert(Self::vals_wf_opt(lnode.left) && Self::vals_wf_opt(lrnode.left)
                        && Self::vals_wf_opt(lrnode.right) && Self::vals_wf_opt(old(self).right));
                    assert(inner_l.val.wf() && Self::vals_wf_opt(inner_l.left)
                        && Self::vals_wf_opt(inner_l.right));
                    assert(inner_l.vals_wf());
                    assert(inner_r.val.wf() && Self::vals_wf_opt(inner_r.left)
                        && Self::vals_wf_opt(inner_r.right));
                    assert(inner_r.vals_wf());
                    assert(self.vals_wf());
                    self.lemma_sorted_bst();
                }
            }
        } else if bf < -1 {
            proof {
                assert(self.right.is_some());
            }
            let rbf = match &self.right {
                Some(r) => r.balance_factor(),
                None => 0,
            };
            let ghost c = Self::oh(old(self).left);
            let ghost rnode = *old(self).right.unwrap();
            let ghost a = Self::oh(rnode.right);
            let ghost b = Self::oh(rnode.left);
            proof {
                Self::lemma_oh_nonneg(rnode.left);
                Self::lemma_oh_nonneg(rnode.right);
                assert(1 + vstd::math::max(a, b) == c + 2);
            }
            if rbf <= 0 {
                self.left_rotation();
                proof {
                    assert(a == c + 1 && c <= b <= c + 1);
                    let inner = *self.left.unwrap();
                    assert(inner.sheight() == 1 + vstd::math::max(c, b));
                    assert(self.sheight() == 1 + vstd::math::max(inner.sheight(), a));
                    assert(inner.bal());
                    assert(self.bal());
                    assert(c + 2 <= self.sheight() <= c + 3);
                    assert(rnode.vals_wf());
                    assert(inner.val.wf() && Self::vals_wf_opt(inner.left) && Self::vals_wf_opt(
                        inner.right,
                    ));
                    assert(inner.vals_wf());
                    assert(self.vals_wf());
                    self.lemma_sorted_bst();
                }
            } else {
                let ghost rlnode = *rnode.left.unwrap();
                let ghost d = Self::oh(rlnode.right);
                let ghost e = Self::oh(rlnode.left);
                proof {
                    assert(rnode.left.is_some());
                    Self::lemma_oh_nonneg(rlnode.left);
                    Self::lemma_oh_nonneg(rlnode.right);
                    assert(b == a + 1 && a == c);
                    assert(1 + vstd::math::max(d, e) == b);
                    assert(rnode.hok());
                    assert(rlnode.hok());
                    assert(Self::hok_opt(rnode.right));
                    assert(Self::hok_opt(rlnode.left) && Self::hok_opt(rlnode.right));
                }
                let mut r: Box<Node> = self.right.take().unwrap();
                (&mut *r).right_rotation();
                proof {
                    assert(r.sview() == rnode.sview());
                }
                self.right = Some(r);
                proof {
                    assert(self.sview() =~= old(self).sview());
                    assert(r.right.unwrap().sheight() == 1 + vstd::math::max(a, d));
                    assert(Self::oh(self.right) == c + 2);
                }
                self.left_rotation();
                proof {
                    let inner_l = *self.left.unwrap();
                    let inner_r = *self.right.unwrap();
                    assert(inner_r.sheight() == 1 + vstd::math::max(a, d));
                    assert(inner_l.sheight() == 1 + vstd::math::max(c, e));
                    assert(rnode.bal() && rlnode.bal());
                    assert(Self::bal_opt(rnode.right) && Self::bal_opt(rlnode.left)
                        && Self::bal_opt(rlnode.right));
                    assert(Self::bal_opt(old(self).left));
                    assert(-1 <= d - e <= 1);
                    assert(inner_l.bal());
                    assert(inner_r.bal());
                    assert(self.sheight() == c + 2);
                    assert(self.bal());
                    assert(old(self).vals_wf());
                    assert(Self::vals_wf_opt(old(self).right));
                    assert(rnode.vals_wf());
                    assert(Self::vals_wf_opt(rnode.left));
                    assert(rlnode.vals_wf());
                    assert(Self::vals_wf_opt(rnode.right) && Self::vals_wf_opt(rlnode.left)
                        && Self::vals_wf_opt(rlnode.right) && Self::vals_wf_opt(old(self).left));
                    assert(inner_l.val.wf() && Self::vals_wf_opt(inner_l.left)
                        && Self::vals_wf_opt(inner_l.right));
                    assert(inner_l.vals_wf());
                    assert(inner_r.val.wf() && Self::vals_wf_opt(inner_r.left)
                        && Self::vals_wf_opt(inner_r.right));
                    assert(inner_r.vals_wf());
                    assert(self.vals_wf());
                    self.lemma_sorted_bst();
                }
            }
        } else {
            proof {
                assert(self.bal());
            }
        }
    }

    /// Recursive insert: absorb an equal rank into this node's value, descend
    /// left for a smaller rank, right for a larger one (smaller ranks sort
    /// left), then rebalance on the way back up.
    fn r_insert(&mut self, task: Task)
        requires
            old(self).wf(),
            old(self).sheight() + 3 <= i32::MAX,
        ensures
            final(self).wf(),
            final(self).sview() == seq_insert(old(self).sview(), task),
            old(self).sheight() <= final(self).sheight() <= old(self).sheight() + 1,
        decreases *old(self),
    {
        proof {
            Self::lemma_oh_nonneg(self.left);
            Self::lemma_oh_nonneg(self.right);
            assert(old(self).bal());
        }
        let ghost mid = (old(self).val.rep_spec(), old(self).val@);
        let rep = self.val.rep_rank();
        if task.rank == rep {
            self.val.absorb(task);
            proof {
                crate::model::lemma_seq_insert_split_eq(
                    Self::ov(old(self).left),
                    mid,
                    Self::ov(old(self).right),
                    task,
                );
                assert(self.val@[0] == old(self).val@[0]);
                assert(self.val.rep_spec() == rep);
                assert(self.sview() =~= seq_insert(old(self).sview(), task));
            }
            self.balance();
        } else if task.rank < rep {
            Self::insert_opt(&mut self.left, task);
            proof {
                crate::model::lemma_seq_insert_all_lt(Self::ov(old(self).left), task, rep);
                crate::model::lemma_seq_insert_split_lt(
                    Self::ov(old(self).left),
                    mid,
                    Self::ov(old(self).right),
                    task,
                );
                assert(self.sview() =~= seq_insert(old(self).sview(), task));
            }
            self.balance();
        } else {
            Self::insert_opt(&mut self.right, task);
            proof {
                crate::model::lemma_seq_insert_all_gt(Self::ov(old(self).right), task, rep);
                crate::model::lemma_seq_insert_split_gt(
                    Self::ov(old(self).left),
                    mid,
                    Self::ov(old(self).right),
                    task,
                );
                assert(self.sview() =~= seq_insert(old(self).sview(), task));
            }
            self.balance();
        }
    }

    /// Insert into an optional subtree, creating a fresh leaf where absent.
    fn insert_opt(node: &mut Option<Box<Node>>, task: Task)
        requires
            Self::wf_opt(*old(node)),
            Self::oh(*old(node)) + 3 <= i32::MAX,
        ensures
            final(node).is_some(),
            Self::wf_opt(*final(node)),
            Self::ov(*final(node)) == seq_insert(Self::ov(*old(node)), task),
            Self::oh(*old(node)) <= Self::oh(*final(node)) <= Self::oh(*old(node)) + 1,
        decreases *old(node),
    {
        match node.take() {
            None => {
                *node = Some(Box::new(Self::leaf(task)));
                proof {
                    assert(seq_insert(Seq::<(i32, Seq<Task>)>::empty(), task) == seq![
                        (task.rank, seq![task]),
                    ]);
                }
            },
            Some(mut bn) => {
                (&mut *bn).r_insert(task);
                *node = Some(bn);
            },
        }
    }

    /// Walks the tree with the same comparison rule as insert and hands back
    /// the value of the node holding the rank, if any.
    fn find_opt<'a>(node: &'a Option<Box<Node>>, rank: i32) -> (r: Option<&'a TaskorLink>)
        requires
            Self::wf_opt(*node),
        ensures
            match r {
                Some(v) => v@ == chain_of(Self::ov(*node), rank) && v@.len() > 0 && v.wf()
                    && v.rep_spec() == rank,
                None => chain_of(Self::ov(*node), rank) == Seq::<Task>::empty(),
            },
        decreases node,
    {
        match node {
            None => None,
            Some(n) => {
                proof {
                    crate::model::lemma_chain_of_split(
                        Self::ov(n.left),
                        (n.val.rep_spec(), n.val@),
                        Self::ov(n.right),
                        rank,
                    );
                }
                let rep = n.val.rep_rank();
                if rank == rep {
                    Some(&n.val)
                } else if rank < rep {
                    Self::find_opt(&n.left, rank)
                } else {
                    Self::find_opt(&n.right, rank)
                }
            },
        }
    }

    /// Appends the in-order listing of this subtree to `out`.
    fn collect(node: &Option<Box<Node>>, out: &mut Vec<(i32, Vec<Task>)>)
        requires
            Self::wf_opt(*node),
        ensures
            vec_listing(final(out)@) == vec_listing(old(out)@) + Self::ov(*node),
        decreases node,
    {
        match node {
            None => {
                proof {
                    assert(vec_listing(out@) =~= vec_listing(old(out)@) + Self::ov(*node));
                }
            },
            Some(n) => {
                Self::collect(&n.left, out);
                let ghost s1 = out@;
                let rep = n.val.rep_rank();
                let tasks = n.val.tasks();
                out.push((rep, tasks));
                proof {
                    assert(vec_listing(out@) =~= vec_listing(s1) + seq![
                        (n.val.rep_spec(), n.val@),
                    ]);
                }
                Self::collect(&n.right, out);
                proof {
                    assert(vec_listing(out@) =~= vec_listing(old(out)@) + n.sview());
                }
            },
        }
    }

    /// The leftmost node's value: the smallest rank present.
    fn min_opt(node: &Option<Box<Node>>) -> (r: Option<&TaskorLink>)
        requires
            Self::wf_opt(*node),
        ensures
            match r {
                None => Self::ov(*node).len() == 0,
                Some(v) => Self::ov(*node).len() > 0 && v.wf() && v@ == Self::ov(*node)[0].1
                    && v.rep_spec() == Self::ov(*node)[0].0,
            },
        decreases node,
    {
        match node {
            None => None,
            Some(n) => {
                if n.left.is_none() {
                    proof {
                        assert(n.sview()[0] == (n.val.rep_spec(), n.val@));
                    }
                    Some(&n.val)
                } else {
                    proof {
                        assert(Self::ov(n.left).len() > 0);
                        assert(n.sview()[0] == Self::ov(n.left)[0]);
                    }
                    Self::min_opt(&n.left)
                }
            },
        }
    }

    /// The rightmost node's value: the largest rank present.
    fn max_opt(node: &Option<Box<Node>>) -> (r: Option<&TaskorLink>)
        requires
            Self::wf_opt(*node),
        ensures
            match r {
                None => Self::ov(*node).len() == 0,
                Some(v) => Self::ov(*node).len() > 0 && v.wf() && v@ == Self::ov(*node).last().1
                    && v.rep_spec() == Self::ov(*node).last().0,
            },
        decreases node,
    {
        match node {
            None => None,
            Some(n) => {
                if n.right.is_none() {
                    proof {
                        assert(n.sview().last() == (n.val.rep_spec(), n.val@));
                    }
                    Some(&n.val)
                } else {
                    proof {
                        assert(Self::ov(n.right).len() > 0);
                        assert(n.sview().last() == Self::ov(n.right).last());
                    }
                    Self::max_opt(&n.right)
                }
            },
        }
    }

    /// The minimal-size bound behind the logarithmic height guarantee: a
    /// balanced subtree of height h holds at least fib(h + 2) - 1 ranks.
    proof fn lemma_fib_count_opt(node: Option<Box<Node>>)
        requires
            Self::wf_opt(node),
        ensures
            fib((Self::oh(node) + 2) as nat) <= Self::ov(node).len() + 1,
        decreases node,
    {
        Self::lemma_oh_nonneg(node);
        match node {
            None => {
                assert(fib(0) == 0);
                assert(fib(1) == 1);
                assert(fib(2) == 1);
            },
            Some(n) => {
                Self::lemma_oh_nonneg(n.left);
                Self::lemma_oh_nonneg(n.right);
                Self::lemma_fib_count_opt(n.left);
                Self::lemma_fib_count_opt(n.right);
                let hl = Self::oh(n.left);
                let hr = Self::oh(n.right);
                let h = Self::oh(node);
                assert(h == 1 + vstd::math::max(hl, hr));
                assert(n.sview().len() == Self::ov(n.left).len() + 1 + Self::ov(n.right).len());
                assert(fib((h + 2) as nat) == fib((h + 1) as nat) + fib(h as nat));
                if hl >= hr {
                    crate::model::lemma_fib_mono((h) as nat, (hr + 2) as nat);
                } else {
                    crate::model::lemma_fib_mono((h) as nat, (hl + 2) as nat);
                }
            },
        }
    }
}

/// The rank index: an AVL tree over distinct ranks, one FIFO chain of tasks
/// per rank. Its abstract view is the in-order listing of (rank, tasks)
/// entries, and every operation's contract is stated over that listing.
pub struct AvlTree {
    root: Option<Box<Node>>,
}

impl AvlTree {
    /// All invariants at once: heights cached correctly, the binary-search
    /// property over ranks, and AVL balance at every node.
    #[verifier::type_invariant]
    spec fn inv(self) -> bool {
        Node::wf_opt(self.root)
    }

    pub closed spec fn listing(self) -> Listing {
        Node::ov(self.root)
    }

    /// Height of the whole tree; 0 when empty.
    pub closed spec fn spec_height(self) -> int {
        Node::oh(self.root)
    }
}

impl View for AvlTree {
    type V = Listing;

    open spec fn view(&self) -> Listing {
        self.listing()
    }
}

impl AvlTree {
    /// A fresh, logically empty index.
    pub fn new() -> (t: AvlTree)
        ensures
            t@ == Seq::<(i32, Seq<Task>)>::empty(),
            t.spec_height() == 0,
    {
        AvlTree { root: None }
    }

    pub fn is_empty(&self) -> (r: bool)
        ensures
            r == (self@.len() == 0),
    {
        proof {
            use_type_invariant(&*self);
        }
        match &self.root {
            None => true,
            Some(n) => {
                proof {
                    assert(n.sview().len() >= 1);
                }
                false
            },
        }
    }

    /// Inserts a task. Insertion is total: a fresh rank opens a new node at
    /// its sorted position, a present rank appends the task to that rank's
    /// chain, and the tree is rebalanced on the way back up. The height
    /// bound keeps the cached heights clear of `i32` overflow.
    pub fn insert(&mut self, task: Task)
        requires
            old(self).spec_height() + 3 <= i32::MAX,
        ensures
            final(self)@ == seq_insert(old(self)@, task),
            old(self).spec_height() <= final(self).spec_height() <= old(self).spec_height() + 1,
    {
        proof {
            use_type_invariant(&*self);
        }
        let mut root: Option<Box<Node>> = None;
        std::mem::swap(&mut root, &mut self.root);
        Node::insert_opt(&mut root, task);
        self.root = root;
    }

    /// Looks a rank up: `Some` with that rank's chain or singleton exactly
    /// when the rank is present, `None` (not found) exactly when it is not.
    pub fn find(&self, rank: i32) -> (r: Option<&TaskorLink>)
        ensures
            match r {
                Some(v) => v@ == chain_of(self@, rank) && v@.len() > 0 && v.wf()
                    && v.rep_spec() == rank,
                None => chain_of(self@, rank) == Seq::<Task>::empty(),
            },
    {
        proof {
            use_type_invariant(&*self);
        }
        Node::find_opt(&self.root, rank)
    }

    /// The full in-order listing: (rank, tasks-in-arrival-order) pairs with
    /// ranks strictly increasing.
    pub fn in_order(&self) -> (r: Vec<(i32, Vec<Task>)>)
        ensures
            vec_listing(r@) == self@,
            listing_wf(self@),
    {
        proof {
            use_type_invariant(&*self);
            Node::lemma_bst_sorted_opt(self.root);
        }
        let mut out: Vec<(i32, Vec<Task>)> = Vec::new();
        Node::collect(&self.root, &mut out);
        proof {
            assert(vec_listing(out@) =~= self@);
        }
        out
    }

    /// The value at the smallest rank, if any.
    pub fn min(&self) -> (r: Option<&TaskorLink>)
        ensures
            match r {
                None => self@.len() == 0,
                Some(v) => self@.len() > 0 && v.wf() && v@ == self@[0].1 && v.rep_spec()
                    == self@[0].0,
            },
    {
        proof {
            use_type_invariant(&*self);
        }
        Node::min_opt(&self.root)
    }

    /// The value at the largest rank, if any.
    pub fn max(&self) -> (r: Option<&TaskorLink>)
        ensures
            match r {
                None => self@.len() == 0,
                Some(v) => self@.len() > 0 && v.wf() && v@ == self@.last().1 && v.rep_spec()
                    == self@.last().0,
            },
    {
        proof {
            use_type_invariant(&*self);
        }
        Node::max_opt(&self.root)
    }

    /// The tree's height, together with the balance guarantee it enjoys:
    /// fib(h + 2) <= n + 1 for n distinct ranks, the integer form of
    /// h <= 1.44 * log2(n + 1).
    pub fn height(&self) -> (h: i32)
        ensures
            h == self.spec_height(),
            0 <= h,
            fib((h + 2) as nat) <= self@.len() + 1,
    {
        proof {
            use_type_invariant(&*self);
            Node::lemma_oh_nonneg(self.root);
            Node::lemma_fib_count_opt(self.root);
        }
        Node::child_height(&self.root)
    }
}

/// The fixed sample data of the demonstration driver, in insertion order.
pub open spec fn sample_inserts() -> Seq<Task> {
    seq![
        (Task { id: 3, rank: 3, state: 0 }),
        (Task { id: 2, rank: 2, state: 0 }),
        (Task { id: 10, rank: 5, state: 0 }),
        (Task { id: 9, rank: 1, state: 0 }),
        (Task { id: 11, rank: 2, state: 0 }),
        (Task { id: 12, rank: 6, state: 0 }),
        (Task { id: 13, rank: 10, state: 0 }),
        (Task { id: 1, rank: 1, state: 0 }),
        (Task { id: 7, rank: 0, state: 0 }),
        (Task { id: 5, rank: 5, state: 0 }),
        (Task { id: 8, rank: 4, state: 0 }),
        (Task { id: 7, rank: 4, state: 0 }),
        (Task { id: 6, rank: 4, state: 0 }),
        (Task { id: 4, rank: 3, state: 0 }),
    ]
}

/// Demonstration driver: populates a fresh index from the fixed sample list
/// and returns its in-order listing for inspection.
pub fn testing() -> (r: Vec<(i32, Vec<Task>)>)
    ensures
        vec_listing(r@) == insert_all(Seq::<(i32, Seq<Task>)>::empty(), sample_inserts()),
{
    let mut ts: Vec<Task> = Vec::new();
    ts.push(Task::new(3, 3, 0));
    ts.push(Task::new(2, 2, 0));
    ts.push(Task::new(10, 5, 0));
    ts.push(Task::new(9, 1, 0));
    ts.push(Task::new(11, 2, 0));
    ts.push(Task::new(12, 6, 0));
    ts.push(Task::new(13, 10, 0));
    ts.push(Task::new(1, 1, 0));
    ts.push(Task::new(7, 0, 0));
    ts.push(Task::new(5, 5, 0));
    ts.push(Task::new(8, 4, 0));
    ts.push(Task::new(7, 4, 0));
    ts.push(Task::new(6, 4, 0));
    ts.push(Task::new(4, 3, 0));
    proof {
        assert(ts@ =~= sample_inserts());
    }
    let empty_listing = Ghost(Seq::<(i32, Seq<Task>)>::empty());
    let mut t = AvlTree::new();
    proof {
        assert(ts@.take(0) =~= Seq::<Task>::empty());
        assert(insert_all(empty_listing@, ts@.take(0)) == empty_listing@);
    }
    let mut i: usize = 0;
    while i < ts.len()
        invariant
            i <= ts.len(),
            ts@ == sample_inserts(),
            t@ == insert_all(empty_listing@, ts@.take(i as int)),
            t.spec_height() <= i,
        decreases ts.len() - i,
    {
        t.insert(ts[i]);
        proof {
            assert(ts@.take(i as int + 1) =~= ts@.take(i as int).push(ts@[i as int]));
            crate::model::lemma_insert_all_snoc(empty_listing@, ts@.take(i as int), ts@[i as int]);
        }
        i = i + 1;
    }
    proof {
        assert(ts@.take(ts@.len() as int) =~= ts@);
    }
    t.in_order()
}

} // verus!
