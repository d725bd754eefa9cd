//! The decision tree that turns random draws into biased binary choices.
//!
//! Every decision extends the current path from the root by one step. The
//! tree remembers, for every path that some trial took, the least loss that a
//! trial through it reported. At a node whose two children both exist, the
//! next choice goes to the `true` side with probability
//! `L_false / (L_false + L_true)`, so that the side with the lower loss is
//! taken more often; elsewhere both sides are equally likely.
use vstd::prelude::*;

use crate::random::draw_below;
use rand::rngs::StdRng;

verus! {

/// The loss of a node that no finished trial has reported on.
pub const UNVISITED: u64 = 0xffff_ffff_ffff_ffff;

/// One node of the arena. A child index of 0 means that the child is
/// absent: index 0 is the root, which is nobody's child.
#[derive(Clone, Copy, Debug)]
struct Node {
    min_loss: u64,
    false_child: usize,
    true_child: usize,
}

impl Node {
    spec fn child(self, b: bool) -> usize {
        if b {
            self.true_child
        } else {
            self.false_child
        }
    }

    fn new() -> (r: Node)
        ensures
            r.min_loss == UNVISITED,
            r.false_child == 0,
            r.true_child == 0,
    {
        Node { min_loss: UNVISITED, false_child: 0, true_child: 0 }
    }
}

/// Weight of the `false` and of the `true` side at a node whose children
/// have the given losses (`None` where a child is absent). A draw below the
/// `false` weight, out of the sum of both, takes the `true` side.
pub open spec fn branch_weights(false_loss: Option<u64>, true_loss: Option<u64>) -> (nat, nat) {
    if false_loss is Some && true_loss is Some && false_loss->0 + true_loss->0 > 0 {
        (false_loss->0 as nat, true_loss->0 as nat)
    } else {
        (1, 1)
    }
}

/// The loss of the child `b` of the node of `path` in `tree`, `None` where
/// there is no such child.
pub open spec fn child_loss_of(tree: Map<Seq<bool>, u64>, path: Seq<bool>, b: bool) -> Option<u64> {
    if tree.contains_key(path.push(b)) {
        Some(tree[path.push(b)])
    } else {
        None
    }
}

/// Some draw at the node of `path` in `tree` takes the side `b`: the weight
/// of that side is not 0.
pub open spec fn branch_allowed(tree: Map<Seq<bool>, u64>, path: Seq<bool>, b: bool) -> bool {
    let (wf, wt) = branch_weights(child_loss_of(tree, path, false), child_loss_of(tree, path, true));
    if b {
        wf > 0
    } else {
        wt > 0
    }
}

/// The number of equally likely draws at a node whose children have the given
/// losses.
pub fn draw_range(false_loss: Option<u64>, true_loss: Option<u64>) -> (r: u128)
    ensures
        r == branch_weights(false_loss, true_loss).0 + branch_weights(false_loss, true_loss).1,
        r > 0,
{
    match (false_loss, true_loss) {
        (Some(lf), Some(lt)) => {
            let total = lf as u128 + lt as u128;
            if total > 0 {
                total
            } else {
                2
            }
        },
        _ => 2,
    }
}

/// Whether the draw `draw` takes the `true` side at a node whose children have
/// the given losses.
pub fn branch_taken(draw: u128, false_loss: Option<u64>, true_loss: Option<u64>) -> (r: bool)
    ensures
        r == (draw < branch_weights(false_loss, true_loss).0),
{
    match (false_loss, true_loss) {
        (Some(lf), Some(lt)) => {
            if lf as u128 + lt as u128 > 0 {
                draw < lf as u128
            } else {
                draw < 1
            }
        },
        _ => draw < 1,
    }
}

/// Of the `draw_range` equally likely draws at a node, exactly the `false`
/// weight take the `true` side: `L_false` out of `L_false + L_true` where
/// both children exist and their losses are not both 0, else one out of
/// two.
pub proof fn lemma_true_share(false_loss: Option<u64>, true_loss: Option<u64>)
    ensures
        ({
            let (wf, wt) = branch_weights(false_loss, true_loss);
            let draws = Set::new(|d: nat| d < wf + wt);
            &&& draws.finite()
            &&& draws.len() == wf + wt
            &&& draws.filter(|d: nat| d < wf).len() == wf
            &&& (false_loss is Some && true_loss is Some && false_loss->0 + true_loss->0 > 0)
                ==> wf == false_loss->0 && wt == true_loss->0
            &&& !(false_loss is Some && true_loss is Some && false_loss->0 + true_loss->0 > 0)
                ==> wf == 1 && wt == 1
        }),
{
    let (wf, wt) = branch_weights(false_loss, true_loss);
    let draws = Set::new(|d: nat| d < wf + wt);
    assert(draws.filter(|d: nat| d < wf) =~= Set::new(|d: nat| d < wf));
    lemma_nat_range_len(wf);
    lemma_nat_range_len(wf + wt);
}

proof fn lemma_nat_range_len(n: nat)
    ensures
        Set::new(|d: nat| d < n).finite(),
        Set::new(|d: nat| d < n).len() == n,
    decreases n,
{
    if n == 0 {
        assert(Set::new(|d: nat| d < n) =~= Set::empty());
    } else {
        let m = (n - 1) as nat;
        lemma_nat_range_len(m);
        assert(Set::new(|d: nat| d < n) =~= Set::new(|d: nat| d < m).insert(m));
    }
}

/// A binary decision oracle that keeps a tree of the decision paths taken
/// so far and the least loss reported through each.
pub struct TreeDecider {
    rng: StdRng,
    nodes: Vec<Node>,
    current: usize,
    history: Vec<usize>,
    /// The decisions taken since the last restart.
    path: Ghost<Seq<bool>>,
    /// The arena index of the node of each path in the tree.
    index: Ghost<Map<Seq<bool>, int>>,
    /// The path of each node of the arena.
    paths: Ghost<Seq<Seq<bool>>>,
}

impl TreeDecider {
    /// The tree: each decision path that has a node, with the least loss that
    /// a finished trial through it reported ([`UNVISITED`] if none did).
    pub closed spec fn tree(&self) -> Map<Seq<bool>, u64> {
        Map::new(
            |p: Seq<bool>| self.index@.contains_key(p),
            |p: Seq<bool>| self.nodes@[self.index@[p]].min_loss,
        )
    }

    /// The random source that decisions draw from.
    pub closed spec fn rng(&self) -> StdRng {
        self.rng
    }

    /// The decisions taken since the last restart.
    pub closed spec fn path(&self) -> Seq<bool> {
        self.path@
    }

    /// The arena, the index between paths and nodes, and the current path
    /// agree with one another.
    pub closed spec fn wf(&self) -> bool {
        let nodes = self.nodes@;
        let paths = self.paths@;
        let index = self.index@;
        let path = self.path@;
        &&& nodes.len() >= 1
        &&& paths.len() == nodes.len()
        &&& paths[0] == Seq::<bool>::empty()
        &&& forall|i: int|
            0 <= i < nodes.len() ==> index.contains_key(#[trigger] paths[i]) && index[paths[i]]
                == i
        &&& forall|p: Seq<bool>|
            #[trigger] index.contains_key(p) ==> 0 <= index[p] < nodes.len() && paths[index[p]]
                == p
        &&& forall|i: int, b: bool|
            0 <= i < nodes.len() && #[trigger] nodes[i].child(b) != 0 ==> {
                let c = nodes[i].child(b) as int;
                &&& c < nodes.len()
                &&& paths[c] == paths[i].push(b)
                &&& nodes[i].min_loss <= nodes[c].min_loss
            }
        &&& forall|p: Seq<bool>, b: bool|
            #[trigger] index.contains_key(p.push(b)) ==> index.contains_key(p)
                && nodes[index[p]].child(b) == index[p.push(b)]
        &&& index.contains_key(path)
        &&& self.current == index[path]
        &&& self.history@.len() == path.len()
        &&& forall|k: int|
            #![trigger self.history@[k]]
            #![trigger path.take(k)]
            0 <= k < path.len() ==> index.contains_key(path.take(k)) && self.history@[k] == index[path.take(
                k,
            )]
    }

    /// A decider with an empty tree that draws from `rng`.
    pub fn new(rng: StdRng) -> (r: Self)
        ensures
            r.wf(),
            r.tree() == map![Seq::<bool>::empty() => UNVISITED],
            r.path() == Seq::<bool>::empty(),
            r.rng() == rng,
    {
        let mut nodes: Vec<Node> = Vec::new();
        nodes.push(Node::new());
        let ghost root = Seq::<bool>::empty();
        let ghost index = map![root => 0int];
        let ghost paths = seq![root];
        let r = TreeDecider {
            rng,
            nodes,
            current: 0,
            history: Vec::new(),
            path: Ghost(root),
            index: Ghost(index),
            paths: Ghost(paths),
        };
        proof {
            assert forall|p: Seq<bool>, b: bool| #[trigger]
                r.index@.contains_key(p.push(b)) implies r.index@.contains_key(p)
                && r.nodes@[r.index@[p]].child(b) == r.index@[p.push(b)] by {
                assert(p.push(b).len() > 0);
            }
            assert(r.tree() =~= map![root => UNVISITED]);
        }
        r
    }

    proof fn lemma_child(&self, p: Seq<bool>, b: bool)
        requires
            self.wf(),
            self.index@.contains_key(p),
        ensures
            self.index@.contains_key(p.push(b)) <==> self.nodes@[self.index@[p]].child(b) != 0,
            self.index@.contains_key(p.push(b)) ==> self.nodes@[self.index@[p]].child(b)
                == self.index@[p.push(b)],
    {
        let i = self.index@[p];
        if self.index@.contains_key(p.push(b)) {
            assert(self.paths@[self.index@[p.push(b)]] == p.push(b));
            assert(p.push(b).len() > 0);
        }
        if self.nodes@[i].child(b) != 0 {
            let c = self.nodes@[i].child(b) as int;
            assert(self.paths@[c] == self.paths@[i].push(b));
        }
    }

    /// The losses of the two children of the current node, `None` where a
    /// child is absent.
    pub fn child_losses(&self) -> (r: (Option<u64>, Option<u64>))
        requires
            self.wf(),
        ensures
            r.0 == child_loss_of(self.tree(), self.path(), false),
            r.1 == child_loss_of(self.tree(), self.path(), true),
    {
        let node = self.nodes[self.current];
        proof {
            self.lemma_child(self.path@, false);
            self.lemma_child(self.path@, true);
            assert(node.child(false) == node.false_child);
            assert(node.child(true) == node.true_child);
        }
        let lf = if node.false_child != 0 {
            Some(self.nodes[node.false_child].min_loss)
        } else {
            None
        };
        let lt = if node.true_child != 0 {
            Some(self.nodes[node.true_child].min_loss)
        } else {
            None
        };
        (lf, lt)
    }

    /// Extends the current path by `choice`, adding its node to the tree
    /// with loss [`UNVISITED`] where it is new.
    pub fn descend(&mut self, choice: bool)
        requires
            old(self).wf(),
        ensures
            final(self).wf(),
            final(self).path() == old(self).path().push(choice),
            final(self).rng() == old(self).rng(),
            final(self).tree() == (if old(self).tree().contains_key(old(self).path().push(choice)) {
                old(self).tree()
            } else {
                old(self).tree().insert(old(self).path().push(choice), UNVISITED)
            }),
    {
        let ghost old_self = *self;
        let ghost path = self.path@;
        let ghost next_path = path.push(choice);
        let cur = self.current;
        let node = self.nodes[cur];
        let child = if choice {
            node.true_child
        } else {
            node.false_child
        };
        assert(child == node.child(choice));
        proof {
            self.lemma_child(path, choice);
        }
        let next = if child != 0 {
            child
        } else {
            let n = self.nodes.len();
            self.nodes.push(Node::new());
            let mut updated = node;
            if choice {
                updated.true_child = n;
            } else {
                updated.false_child = n;
            }
            self.nodes.set(cur, updated);
            proof {
                self.paths = Ghost(self.paths@.push(next_path));
                self.index = Ghost(self.index@.insert(next_path, n as int));
            }
            n
        };
        self.history.push(cur);
        self.current = next;
        proof {
            self.path = Ghost(next_path);
            let nodes = self.nodes@;
            let paths = self.paths@;
            let index = self.index@;
            let old_nodes = old_self.nodes@;
            let old_index = old_self.index@;
            assert(paths[0] == Seq::<bool>::empty());
            assert forall|i: int| 0 <= i < nodes.len() implies index.contains_key(
                #[trigger] paths[i],
            ) && index[paths[i]] == i by {
                if child == 0 && i < old_nodes.len() {
                    assert(old_index.contains_key(paths[i]));
                }
            }
            assert forall|p: Seq<bool>| #[trigger] index.contains_key(p) implies 0 <= index[p]
                < nodes.len() && paths[index[p]] == p by {
                if child == 0 && p != next_path {
                    assert(old_index.contains_key(p));
                }
            }
            assert forall|i: int, b: bool|
                0 <= i < nodes.len() && #[trigger] nodes[i].child(b) != 0 implies {
                let c = nodes[i].child(b) as int;
                &&& c < nodes.len()
                &&& paths[c] == paths[i].push(b)
                &&& nodes[i].min_loss <= nodes[c].min_loss
            } by {
                if child == 0 && i < old_nodes.len() {
                    assert(nodes[i].min_loss == old_nodes[i].min_loss);
                    if !(i == cur && b == choice) {
                        assert(nodes[i].child(b) == old_nodes[i].child(b));
                        let c = nodes[i].child(b) as int;
                        assert(nodes[c].min_loss == old_nodes[c].min_loss);
                    } else {
                        assert(paths[i] == path);
                    }
                }
            }
            assert forall|p: Seq<bool>, b: bool| #[trigger]
                index.contains_key(p.push(b)) implies index.contains_key(p) && nodes[index[p]].child(
                b,
            ) == index[p.push(b)] by {
                if child == 0 {
                    if p.push(b) == next_path {
                        assert(p == path) by {
                            assert(p =~= p.push(b).drop_last());
                            assert(path =~= next_path.drop_last());
                        }
                        assert(b == choice) by {
                            assert(p.push(b).last() == b);
                        }
                    } else {
                        assert(old_index.contains_key(p.push(b)));
                        assert(old_index.contains_key(p));
                        assert(p != next_path) by {
                            if p == next_path {
                                assert(paths[old_index[p]] == p);
                            }
                        }
                        if old_index[p] == cur && b == choice {
                            assert(p == path);
                        }
                    }
                }
            }
            assert(index.contains_key(next_path));
            assert(self.current == index[next_path]);
            assert forall|k: int| 0 <= k < next_path.len() implies index.contains_key(
                #[trigger] next_path.take(k),
            ) && self.history@[k] == index[next_path.take(k)] by {
                if k < path.len() {
                    assert(next_path.take(k) =~= path.take(k));
                    assert(old_self.history@[k] == old_index[path.take(k)]);
                    assert(path.take(k) != next_path);
                } else {
                    assert(next_path.take(k) =~= path);
                }
            }
            if child == 0 {
                assert(self.tree() =~= old_self.tree().insert(next_path, UNVISITED)) by {
                    assert forall|p: Seq<bool>| #[trigger]
                        old_index.contains_key(p) implies nodes[index[p]].min_loss
                        == old_nodes[old_index[p]].min_loss by {
                        assert(p != next_path);
                    }
                }
            } else {
                assert(self.tree() =~= old_self.tree());
            }
        }
    }

    /// Ends the current trial with loss `loss`: every node along the current
    /// path, the root and the last node included, keeps the lesser of its
    /// loss and `loss`; the path starts again from the root.
    pub fn restart(&mut self, loss: u64)
        requires
            old(self).wf(),
        ensures
            final(self).wf(),
            final(self).path() == Seq::<bool>::empty(),
            final(self).tree() == restarted(old(self).tree(), old(self).path(), loss),
            final(self).rng() == old(self).rng(),
    {
        let ghost old_self = *self;
        let ghost path = self.path@;
        let ghost old_nodes = self.nodes@;
        let cur = self.current;
        let mut node = self.nodes[cur];
        if loss < node.min_loss {
            node.min_loss = loss;
        }
        self.nodes.set(cur, node);
        proof {
            assert forall|j: int|
                0 <= j < old_nodes.len() && j != cur implies !(
                #[trigger] self.paths@[j].is_prefix_of(path) && self.paths@[j].len() == path.len()) by {
                if self.paths@[j].is_prefix_of(path) && self.paths@[j].len() == path.len() {
                    assert(self.paths@[j] =~= path);
                    assert(self.index@[self.paths@[j]] == j);
                }
            }
        }
        let mut i: usize = 0;
        while i < self.history.len()
            invariant
                old_self.wf(),
                path == old_self.path@,
                old_nodes == old_self.nodes@,
                self.history@ == old_self.history@,
                self.rng == old_self.rng,
                self.paths@ == old_self.paths@,
                self.index@ == old_self.index@,
                i <= self.history@.len(),
                self.nodes@.len() == old_nodes.len(),
                forall|j: int|
                    0 <= j < old_nodes.len() ==> {
                        let n = #[trigger] self.nodes@[j];
                        &&& n.false_child == old_nodes[j].false_child
                        &&& n.true_child == old_nodes[j].true_child
                        &&& n.min_loss == if self.paths@[j].is_prefix_of(path) && (
                        self.paths@[j].len() < i || self.paths@[j].len() == path.len()) {
                            min_loss_of(old_nodes[j].min_loss, loss)
                        } else {
                            old_nodes[j].min_loss
                        }
                    },
            decreases self.history@.len() - i,
        {
            let h = self.history[i];
            proof {
                assert(self.paths@[h as int] == path.take(i as int));
                assert(path.take(i as int).is_prefix_of(path));
            }
            let mut node = self.nodes[h];
            if loss < node.min_loss {
                node.min_loss = loss;
            }
            self.nodes.set(h, node);
            proof {
                assert forall|j: int| 0 <= j < old_nodes.len() && j != h implies self.paths@[j]
                    != path.take(i as int) by {
                    if self.paths@[j] == path.take(i as int) {
                        assert(self.index@[self.paths@[j]] == j);
                    }
                }
            }
            i = i + 1;
        }
        self.history.clear();
        self.current = 0;
        proof {
            self.path = Ghost(Seq::<bool>::empty());
            let nodes = self.nodes@;
            let paths = self.paths@;
            let index = self.index@;
            assert forall|j: int| 0 <= j < nodes.len() implies #[trigger] nodes[j].min_loss == if
            paths[j].is_prefix_of(path) {
                min_loss_of(old_nodes[j].min_loss, loss)
            } else {
                old_nodes[j].min_loss
            } by {
                if paths[j].is_prefix_of(path) && paths[j].len() >= path.len() {
                    assert(paths[j] =~= path);
                }
            }
            assert forall|i: int, b: bool|
                0 <= i < nodes.len() && #[trigger] nodes[i].child(b) != 0 implies {
                let c = nodes[i].child(b) as int;
                &&& c < nodes.len()
                &&& paths[c] == paths[i].push(b)
                &&& nodes[i].min_loss <= nodes[c].min_loss
            } by {
                assert(nodes[i].child(b) == old_nodes[i].child(b));
                let c = nodes[i].child(b) as int;
                if paths[c].is_prefix_of(path) {
                    assert(paths[i].is_prefix_of(path)) by {
                        assert(paths[i] =~= paths[c].take(paths[i].len() as int));
                        assert(path.take(paths[i].len() as int) =~= path.take(
                            paths[c].len() as int,
                        ).take(paths[i].len() as int));
                    }
                }
            }
            assert(paths[0] =~= path.take(0));
            assert(self.tree() =~= restarted(old_self.tree(), path, loss));
        }
    }

    /// The loss recorded at the node of `path`, counted from the root, or
    /// `None` where the tree has no such node.
    pub fn loss_at(&self, path: &[bool]) -> (r: Option<u64>)
        requires
            self.wf(),
        ensures
            r == (if self.tree().contains_key(path@) {
                Some(self.tree()[path@])
            } else {
                None
            }),
    {
        let mut node: usize = 0;
        let mut i: usize = 0;
        proof {
            assert(self.index@[self.paths@[0]] == 0);
            assert(path@.take(0) =~= self.paths@[0]);
        }
        while i < path.len()
            invariant
                self.wf(),
                i <= path@.len(),
                self.index@.contains_key(path@.take(i as int)),
                node == self.index@[path@.take(i as int)],
            decreases path@.len() - i,
        {
            let ghost prefix = path@.take(i as int);
            let ghost next = path@.take(i + 1);
            proof {
                assert(next =~= prefix.push(path@[i as int]));
                self.lemma_child(prefix, path@[i as int]);
            }
            let n = self.nodes[node];
            let child = if path[i] {
                n.true_child
            } else {
                n.false_child
            };
            if child == 0 {
                proof {
                    if self.index@.contains_key(path@) {
                        self.lemma_prefix_in_tree(path@, i + 1);
                    }
                }
                return None;
            }
            node = child;
            i = i + 1;
        }
        proof {
            assert(path@.take(i as int) =~= path@);
        }
        Some(self.nodes[node].min_loss)
    }

    /// Every prefix of a path in the tree is in the tree.
    proof fn lemma_prefix_in_tree(&self, p: Seq<bool>, k: int)
        requires
            self.wf(),
            self.index@.contains_key(p),
            0 <= k <= p.len(),
        ensures
            self.index@.contains_key(p.take(k)),
        decreases p.len() - k,
    {
        if k < p.len() {
            self.lemma_prefix_in_tree(p, k + 1);
            assert(p.take(k + 1) =~= p.take(k).push(p[k]));
        } else {
            assert(p.take(k) =~= p);
        }
    }

    /// Whether no finished trial has reported on the current node yet.
    pub fn is_fresh(&self) -> (r: bool)
        requires
            self.wf(),
        ensures
            r == (self.tree()[self.path()] == UNVISITED),
    {
        self.nodes[self.current].min_loss == UNVISITED
    }

    /// Takes one decision: draws at the current node by the branch rule and
    /// descends to the chosen child, adding it where it is new.
    pub fn decide_bool(&mut self) -> (r: bool)
        requires
            old(self).wf(),
        ensures
            final(self).wf(),
            final(self).path() == old(self).path().push(r),
            final(self).tree() == (if old(self).tree().contains_key(old(self).path().push(r)) {
                old(self).tree()
            } else {
                old(self).tree().insert(old(self).path().push(r), UNVISITED)
            }),
            only_decided(*old(self), *final(self)),
            branch_allowed(old(self).tree(), old(self).path(), r),
            branch_weights(
                child_loss_of(old(self).tree(), old(self).path(), false),
                child_loss_of(old(self).tree(), old(self).path(), true),
            ).1 == 0 ==> r,
            branch_weights(
                child_loss_of(old(self).tree(), old(self).path(), false),
                child_loss_of(old(self).tree(), old(self).path(), true),
            ).0 == 0 ==> !r,
    {
        let ghost start = *self;
        let (false_loss, true_loss) = self.child_losses();
        let bound = draw_range(false_loss, true_loss);
        let draw = draw_below(&mut self.rng, bound);
        let choice = branch_taken(draw, false_loss, true_loss);
        self.descend(choice);
        proof {
            start.lemma_tree_shape();
            lemma_step_walked(start.tree(), start.path(), choice);
            assert(start.path().is_prefix_of(self.path()));
            let p = start.path();
            assert(branch_allowed(start.tree(), p, choice));
            lemma_walked_to_start(start.tree(), p);
            assert(self.path().take(p.len() as int) =~= p);
            assert(self.path()[p.len() as int] == choice);
            assert(branch_allowed(
                walked(start.tree(), p, self.path().take(p.len() as int)),
                self.path().take(p.len() as int),
                self.path()[p.len() as int],
            ));
            assert(steps_allowed(start.tree(), p, self.path()));
        }
        choice
    }
}

/// `tree` after a walk from `from` down to `to`: every path in between
/// that was missing is there, unvisited.
pub open spec fn walked(tree: Map<Seq<bool>, u64>, from: Seq<bool>, to: Seq<bool>) -> Map<
    Seq<bool>,
    u64,
> {
    Map::new(
        |p: Seq<bool>| tree.contains_key(p) || (from.is_prefix_of(p) && p.is_prefix_of(to)),
        |p: Seq<bool>|
            if tree.contains_key(p) {
                tree[p]
            } else {
                UNVISITED
            },
    )
}

/// `after` is `before` having only taken further decisions: the path grew,
/// and the tree gained the nodes along the new part of it, unvisited.
pub open spec fn only_decided(before: TreeDecider, after: TreeDecider) -> bool {
    &&& after.wf()
    &&& before.path().is_prefix_of(after.path())
    &&& after.tree() == walked(before.tree(), before.path(), after.path())
    &&& steps_allowed(before.tree(), before.path(), after.path())
}

/// Each decision on the walk from `from` down to `to` through `tree` was
/// one that the branch rule allows at the node it left.
pub open spec fn steps_allowed(tree: Map<Seq<bool>, u64>, from: Seq<bool>, to: Seq<bool>) -> bool {
    forall|k: int|
        from.len() <= k < to.len() ==> #[trigger] branch_allowed(
            walked(tree, from, to.take(k)),
            to.take(k),
            to[k],
        )
}

/// A walk that has not left its start adds nothing to a tree that holds
/// the start.
proof fn lemma_walked_to_start(tree: Map<Seq<bool>, u64>, from: Seq<bool>)
    requires
        tree.contains_key(from),
    ensures
        walked(tree, from, from) == tree,
{
    assert forall|p: Seq<bool>| from.is_prefix_of(p) && p.is_prefix_of(from) implies tree.contains_key(p) by {
        assert(p =~= from);
    }
    assert(walked(tree, from, from) =~= tree);
}

/// A walk from `a` to `b`, then on from `b` to `c`, is the walk from `a`
/// to `c`.
proof fn lemma_walked_compose(tree: Map<Seq<bool>, u64>, a: Seq<bool>, b: Seq<bool>, c: Seq<bool>)
    requires
        a.is_prefix_of(b),
        b.is_prefix_of(c),
    ensures
        walked(walked(tree, a, b), b, c) == walked(tree, a, c),
{
    assert forall|p: Seq<bool>| (a.is_prefix_of(p) && p.is_prefix_of(c)) implies ((a.is_prefix_of(p)
        && p.is_prefix_of(b)) || (b.is_prefix_of(p) && p.is_prefix_of(c))) by {
        if p.len() <= b.len() {
            lemma_prefixes_ordered(p, b, c);
        } else {
            lemma_prefixes_ordered(b, p, c);
        }
    }
    assert forall|p: Seq<bool>| (b.is_prefix_of(p) && p.is_prefix_of(c)) implies a.is_prefix_of(p) by {
        lemma_prefix_trans(a, b, p);
    }
    assert forall|p: Seq<bool>| (a.is_prefix_of(p) && p.is_prefix_of(b)) implies p.is_prefix_of(c) by {
        lemma_prefix_trans(p, b, c);
    }
    assert(walked(walked(tree, a, b), b, c) =~= walked(tree, a, c));
}

/// Where the range `first..=last` moves by one decision: the upper part on
/// `true`, the lower part on `false`, each by half the width (rounded
/// down, the width saturating at `usize::MAX`).
pub open spec fn range_half(first: int, last: int) -> int {
    if last - first + 1 > usize::MAX {
        usize::MAX as int / 2
    } else {
        (last - first + 1) / 2
    }
}

/// The range left of `first..=last` after the decisions `bits`.
pub open spec fn narrowed(first: int, last: int, bits: Seq<bool>) -> (int, int)
    decreases bits.len(),
{
    if bits.len() == 0 {
        (first, last)
    } else {
        let (f, l) = narrowed(first, last, bits.drop_last());
        if bits.last() {
            (f + range_half(f, l), l)
        } else {
            (f, l - range_half(f, l))
        }
    }
}

/// The value that the decisions `bits` select from `lo..=hi`: they narrow
/// the range to that one value, and every decision but the last left more
/// than one.
pub open spec fn range_choice(lo: int, hi: int, bits: Seq<bool>, value: int) -> bool {
    &&& narrowed(lo, hi, bits) == (value, value)
    &&& forall|k: int| 0 <= k < bits.len() ==> #[trigger] narrowed(lo, hi, bits.take(k)).0 < narrowed(lo, hi, bits.take(k)).1
}

/// Range decisions end where the value is found: of two runs that select
/// from one range, one a prefix of the other, both are the same run with
/// the same value.
pub proof fn lemma_range_choice_unique(lo: int, hi: int, a: Seq<bool>, va: int, b: Seq<bool>, vb: int)
    requires
        range_choice(lo, hi, a, va),
        range_choice(lo, hi, b, vb),
        a.is_prefix_of(b),
    ensures
        a == b,
        va == vb,
{
    if a.len() < b.len() {
        let k = a.len() as int;
        assert(b.take(k) =~= a);
        assert(narrowed(lo, hi, b.take(k)).0 < narrowed(lo, hi, b.take(k)).1);
    }
    assert(a =~= b);
}

/// The number that the decisions `bits` spell in binary, first decision
/// most significant.
pub open spec fn bits_value(bits: Seq<bool>) -> nat
    decreases bits.len(),
{
    if bits.len() == 0 {
        0
    } else {
        2 * bits_value(bits.drop_last()) + if bits.last() {
            1nat
        } else {
            0nat
        }
    }
}

proof fn lemma_prefix_trans(a: Seq<bool>, b: Seq<bool>, c: Seq<bool>)
    requires
        a.is_prefix_of(b),
        b.is_prefix_of(c),
    ensures
        a.is_prefix_of(c),
{
    assert(c.take(a.len() as int) =~= c.take(b.len() as int).take(a.len() as int));
}

/// Of two prefixes of one path, the shorter is a prefix of the longer.
proof fn lemma_prefixes_ordered(p: Seq<bool>, b: Seq<bool>, c: Seq<bool>)
    requires
        p.is_prefix_of(c),
        b.is_prefix_of(c),
        p.len() <= b.len(),
    ensures
        p.is_prefix_of(b),
{
    assert(b.take(p.len() as int) =~= c.take(b.len() as int).take(p.len() as int));
}

/// Taking no decision is taking decisions.
pub proof fn lemma_only_decided_refl(d: TreeDecider)
    requires
        d.wf(),
    ensures
        only_decided(d, d),
{
    assert(d.path().is_prefix_of(d.path()));
    d.lemma_tree_shape();
    lemma_walked_to_start(d.tree(), d.path());
}

/// Taking decisions one after another is taking them all.
pub proof fn lemma_only_decided_trans(a: TreeDecider, b: TreeDecider, c: TreeDecider)
    requires
        a.wf(),
        only_decided(a, b),
        only_decided(b, c),
    ensures
        only_decided(a, c),
{
    let (pa, pb, pc) = (a.path(), b.path(), c.path());
    lemma_prefix_trans(pa, pb, pc);
    lemma_walked_compose(a.tree(), pa, pb, pc);
    assert forall|k: int| pa.len() <= k < pc.len() implies #[trigger] branch_allowed(
        walked(a.tree(), pa, pc.take(k)),
        pc.take(k),
        pc[k],
    ) by {
        if k < pb.len() {
            assert(pb.take(k) =~= pc.take(k));
            assert(pb[k] == pc[k]);
            assert(branch_allowed(walked(a.tree(), pa, pb.take(k)), pb.take(k), pb[k]));
        } else {
            assert(pc.take(k).take(pb.len() as int) =~= pb);
            assert(pb.is_prefix_of(pc.take(k)));
            lemma_walked_compose(a.tree(), pa, pb, pc.take(k));
            assert(branch_allowed(walked(b.tree(), pb, pc.take(k)), pc.take(k), pc[k]));
        }
    }
}

impl TreeDecider {
    /// Every node lies on a path from the root; the root and the current
    /// path are in the tree; and no node has a lower loss than its parent
    /// (a trial that reported on a node went through its parent too).
    pub proof fn lemma_tree_shape(&self)
        requires
            self.wf(),
        ensures
            self.tree().contains_key(Seq::<bool>::empty()),
            self.tree().contains_key(self.path()),
            forall|p: Seq<bool>, b: bool| #[trigger]
                self.tree().contains_key(p.push(b)) ==> self.tree().contains_key(p)
                    && self.tree()[p] <= self.tree()[p.push(b)],
    {
        assert(self.index@.contains_key(self.paths@[0]));
        assert forall|p: Seq<bool>, b: bool| #[trigger]
            self.tree().contains_key(p.push(b)) implies self.tree().contains_key(p)
            && self.tree()[p] <= self.tree()[p.push(b)] by {
            assert(self.index@.contains_key(p.push(b)));
            self.lemma_child(p, b);
        }
    }

    /// Takes decisions until `lo..=hi` is narrowed to one value, and returns
    /// it: on `true` the range keeps its upper part, on `false` its lower
    /// part.
    pub fn decide_range(&mut self, lo: usize, hi: usize) -> (r: usize)
        requires
            old(self).wf(),
            lo <= hi,
        ensures
            only_decided(*old(self), *final(self)),
            lo <= r <= hi,
            range_choice(lo as int, hi as int, final(self).path().skip(old(self).path().len() as int), r as int),
    {
        let ghost start = *self;
        let ghost base = self.path@.len() as int;
        let mut first = lo;
        let mut last = hi;
        proof {
            assert(self.path@.skip(base) =~= Seq::<bool>::empty());
            lemma_only_decided_refl(start);
        }
        while first < last
            invariant
                start.wf(),
                only_decided(start, *self),
                self.path@.len() >= base,
                base == start.path().len(),
                lo <= first <= last <= hi,
                narrowed(lo as int, hi as int, self.path@.skip(base)) == (first as int, last as int),
                forall|k: int| 0 <= k < self.path@.skip(base).len() ==> #[trigger] narrowed(lo as int, hi as int, self.path@.skip(base).take(k)).0 < narrowed(lo as int, hi as int, self.path@.skip(base).take(k)).1,
            decreases last - first,
        {
            let half = (last - first).saturating_add(1) / 2;
            let ghost before = *self;
            let b = self.decide_bool();
            proof {
                lemma_only_decided_trans(start, before, *self);
                let bits = self.path@.skip(base);
                assert(bits.drop_last() =~= before.path@.skip(base));
                assert forall|k: int| 0 <= k < bits.len() implies #[trigger] narrowed(lo as int, hi as int, bits.take(k)).0 < narrowed(lo as int, hi as int, bits.take(k)).1 by {
                    assert(bits.take(k) =~= before.path@.skip(base).take(k));
                }
            }
            if b {
                first = first + half;
            } else {
                last = last - half;
            }
        }
        first
    }
}

/// One decision from `from`, as a walk.
proof fn lemma_step_walked(tree: Map<Seq<bool>, u64>, from: Seq<bool>, b: bool)
    requires
        tree.contains_key(from),
    ensures
        walked(tree, from, from.push(b)) == (if tree.contains_key(from.push(b)) {
            tree
        } else {
            tree.insert(from.push(b), UNVISITED)
        }),
{
    let to = from.push(b);
    assert forall|p: Seq<bool>| from.is_prefix_of(p) && p.is_prefix_of(to) implies p == from || p == to by {
        if p.len() == from.len() {
            assert(p =~= from);
        } else {
            assert(p =~= to);
        }
    }
    assert(from.is_prefix_of(to));
    assert(to.is_prefix_of(to));
    assert(from.is_prefix_of(from));
    if tree.contains_key(to) {
        assert(walked(tree, from, to) =~= tree);
    } else {
        assert(walked(tree, from, to) =~= tree.insert(to, UNVISITED));
    }
}

/// `tree` after a trial along `path` reported `loss`: every node on the
/// path, from the root to its end, keeps the lesser of its loss and `loss`.
pub open spec fn restarted(tree: Map<Seq<bool>, u64>, path: Seq<bool>, loss: u64) -> Map<
    Seq<bool>,
    u64,
> {
    Map::new(
        |p: Seq<bool>| tree.contains_key(p),
        |p: Seq<bool>|
            if p.is_prefix_of(path) {
                min_loss_of(tree[p], loss)
            } else {
                tree[p]
            },
    )
}

/// The lesser of two losses.
pub open spec fn min_loss_of(a: u64, b: u64) -> u64 {
    if b < a {
        b
    } else {
        a
    }
}

} // verus!
