//! The part tree of a unit model and the plan of instances that one visit
//! of it draws.
//!
//! A visit starts at the children of the root. Every node that carries a
//! mesh yields one instance of that mesh, in pre-order. Its transform is
//! built from the root transform by taking, from the top down, exactly the
//! mesh-carrying nodes on its path, each with its joint and local data (a
//! node without a mesh hands its parent's transform on unchanged). What a
//! step does is the joint's: a fixed joint composes the local transform,
//! a wheel joint composes it and then turns about the axle, and an aiming
//! joint keeps only the position of the composed transform and rebuilds
//! the frame facing the aim direction. The plan records, for each
//! instance, the path of child positions that names the node and the
//! steps, each a joint with its local data, that build its transform.

use vstd::prelude::*;

verus! {

/// How a node's local transform is adjusted before it is used.
#[derive(Clone, Copy, PartialEq, Eq, Debug)]
pub enum Joint {
    /// Used as it is.
    Fix,
    /// Replaced by a frame at the composed position that faces the aim
    /// direction of the first weapon.
    AimWeapon0,
    /// Turned about the axle by the angle of the first wheel.
    Wheel0,
}

/// A node of a unit model; `placed_mesh` is the index of the mesh that the
/// node places, if any, and `local` the node's own transform data, which
/// the plan carries along without reading it.
pub struct PartTree<L> {
    pub children: Vec<PartTree<L>>,
    pub placed_mesh: Option<usize>,
    pub joint: Joint,
    pub local: L,
}

/// One instance to draw: the mesh, the child positions from the root to
/// the node that places it, and the steps, from the top down, that build
/// its transform from the root transform.
pub struct PartInstance<L> {
    pub mesh_index: usize,
    pub path: Vec<usize>,
    pub steps: Vec<(Joint, L)>,
}

impl<L> View for PartInstance<L> {
    type V = (usize, Seq<int>, Seq<(Joint, L)>);

    open spec fn view(&self) -> (usize, Seq<int>, Seq<(Joint, L)>) {
        (self.mesh_index, ints(self.path@), self.steps@)
    }
}

/// The views of a sequence of instances.
pub open spec fn instances_view<L>(s: Seq<PartInstance<L>>) -> Seq<(usize, Seq<int>, Seq<(Joint, L)>)> {
    s.map_values(|p: PartInstance<L>| p@)
}

/// A sequence of indices as integers.
pub open spec fn ints(s: Seq<usize>) -> Seq<int> {
    s.map_values(|x: usize| x as int)
}

/// The step that a node contributes to the transforms below it.
pub open spec fn step_of<L>(n: PartTree<L>) -> (Joint, L) {
    (n.joint, n.local)
}

/// The steps handed to the children of `n` when `n` is reached with `steps`.
pub open spec fn steps_below<L>(n: PartTree<L>, steps: Seq<(Joint, L)>) -> Seq<(Joint, L)> {
    match n.placed_mesh {
        Some(_) => steps.push(step_of(n)),
        None => steps,
    }
}

/// The instances drawn below a node whose children are `cs`, whose own
/// path is `path` and whose transform is built by `steps`, in pre-order.
pub open spec fn forest_instances<L>(cs: Seq<PartTree<L>>, path: Seq<int>, steps: Seq<(Joint, L)>) -> Seq<
    (usize, Seq<int>, Seq<(Joint, L)>),
>
    decreases cs,
{
    if cs.len() == 0 {
        seq![]
    } else {
        let last = cs.last();
        let cpath = path.push(cs.len() - 1);
        let below = steps_below(last, steps);
        let own = match last.placed_mesh {
            Some(m) => seq![(m, cpath, below)],
            None => Seq::empty(),
        };
        forest_instances(cs.drop_last(), path, steps) + own + forest_instances(
            last.children@,
            cpath,
            below,
        )
    }
}

/// The instances that a visit of `tree` draws.
pub open spec fn tree_instances<L>(tree: PartTree<L>) -> Seq<(usize, Seq<int>, Seq<(Joint, L)>)> {
    forest_instances(tree.children@, seq![], seq![])
}

/// Whether `q` is a path of child positions, starting at a node of `cs`.
pub open spec fn valid_path<L>(cs: Seq<PartTree<L>>, q: Seq<int>) -> bool
    decreases q.len(),
{
    &&& q.len() >= 1
    &&& 0 <= q[0] < cs.len()
    &&& (q.len() == 1 || valid_path(cs[q[0]].children@, q.drop_first()))
}

/// The node that the path `q` names, starting at a node of `cs`.
pub open spec fn node_at<L>(cs: Seq<PartTree<L>>, q: Seq<int>) -> PartTree<L>
    decreases q.len(),
{
    if q.len() <= 1 {
        cs[q[0]]
    } else {
        node_at(cs[q[0]].children@, q.drop_first())
    }
}

/// The steps of the mesh-carrying nodes on the path `q`, from the top down.
pub open spec fn mesh_steps<L>(cs: Seq<PartTree<L>>, q: Seq<int>) -> Seq<(Joint, L)>
    decreases q.len(),
{
    if q.len() == 0 {
        seq![]
    } else {
        let n = cs[q[0]];
        steps_below(n, seq![]) + mesh_steps(n.children@, q.drop_first())
    }
}

/// The number of nodes carrying a mesh in the subtrees rooted at `cs`.
pub open spec fn mesh_count<L>(cs: Seq<PartTree<L>>) -> nat
    decreases cs,
{
    if cs.len() == 0 {
        0
    } else {
        let last = cs.last();
        mesh_count(cs.drop_last()) + (if last.placed_mesh is Some {
            1nat
        } else {
            0nat
        }) + mesh_count(last.children@)
    }
}

proof fn lemma_forest_len<L>(cs: Seq<PartTree<L>>, path: Seq<int>, steps: Seq<(Joint, L)>)
    ensures
        forest_instances(cs, path, steps).len() == mesh_count(cs),
    decreases cs,
{
    if cs.len() > 0 {
        let last = cs.last();
        lemma_forest_len(cs.drop_last(), path, steps);
        lemma_forest_len(last.children@, path.push(cs.len() - 1), steps_below(last, steps));
    }
}

/// What an instance drawn below a node with children `cs`, path `p` and
/// steps `s` is: its path extends `p` by a path to a node that carries its
/// mesh, and its steps extend `s` by the mesh steps along that path.
pub open spec fn names_mesh_node<L>(
    cs: Seq<PartTree<L>>,
    p: Seq<int>,
    s: Seq<(Joint, L)>,
    inst: (usize, Seq<int>, Seq<(Joint, L)>),
) -> bool {
    let (m, path, steps) = inst;
    let q = path.skip(p.len() as int);
    &&& path.len() > p.len()
    &&& path.take(p.len() as int) == p
    &&& valid_path(cs, q)
    &&& node_at(cs, q).placed_mesh == Some(m)
    &&& steps == s + mesh_steps(cs, q)
}

proof fn lemma_forest_sound<L>(cs: Seq<PartTree<L>>, p: Seq<int>, s: Seq<(Joint, L)>, k: int)
    requires
        0 <= k < forest_instances(cs, p, s).len(),
    ensures
        names_mesh_node(cs, p, s, forest_instances(cs, p, s)[k]),
    decreases cs,
{
    let last = cs.last();
    let i = cs.len() - 1;
    let cpath = p.push(i);
    let below = steps_below(last, s);
    let own: Seq<(usize, Seq<int>, Seq<(Joint, L)>)> = match last.placed_mesh {
        Some(m) => seq![(m, cpath, below)],
        None => Seq::empty(),
    };
    let f1 = forest_instances(cs.drop_last(), p, s);
    let f2 = forest_instances(last.children@, cpath, below);
    assert(forest_instances(cs, p, s) == f1 + own + f2);
    let inst = forest_instances(cs, p, s)[k];
    if k < f1.len() {
        lemma_forest_sound(cs.drop_last(), p, s, k);
        assert(inst == f1[k]);
        let q = inst.1.skip(p.len() as int);
        assert(names_mesh_node(cs.drop_last(), p, s, f1[k]));
        assert(valid_path(cs.drop_last(), q));
        assert(0 <= q[0] < cs.len() - 1);
        assert(cs.drop_last()[q[0]] == cs[q[0]]);
        assert(valid_path(cs, q));
        assert(node_at(cs, q) == node_at(cs.drop_last(), q));
        assert(mesh_steps(cs, q) == mesh_steps(cs.drop_last(), q));
        assert(names_mesh_node(cs, p, s, inst));
    } else if k < f1.len() + own.len() {
        assert(inst == own[0]);
        let q = inst.1.skip(p.len() as int);
        assert(q =~= seq![i]);
        assert(inst.1.take(p.len() as int) =~= p);
        assert(q.drop_first() =~= Seq::<int>::empty());
        assert(mesh_steps(last.children@, q.drop_first()) == Seq::<(Joint, L)>::empty());
        assert(mesh_steps(cs, q) =~= seq![step_of(last)]);
        assert(node_at(cs, q) == last);
        assert(inst.2 =~= s + mesh_steps(cs, q));
        assert(names_mesh_node(cs, p, s, inst));
    } else {
        let k2 = k - f1.len() - own.len();
        lemma_forest_sound(last.children@, cpath, below, k2);
        assert(inst == f2[k2]);
        let path = inst.1;
        let q = path.skip(p.len() as int);
        let q2 = path.skip(cpath.len() as int);
        assert(path.take(cpath.len() as int) == cpath);
        assert(path.take(p.len() as int) =~= cpath.take(p.len() as int));
        assert(cpath.take(p.len() as int) =~= p);
        assert(q[0] == path[p.len() as int]);
        assert(path[p.len() as int] == cpath[p.len() as int]);
        assert(q.drop_first() =~= q2);
        assert(q.len() >= 2);
        let own_step = steps_below(last, seq![]);
        assert(mesh_steps(cs, q) == own_step + mesh_steps(last.children@, q2));
        assert(below =~= s + own_step);
        assert(inst.2 =~= s + mesh_steps(cs, q));
        assert(valid_path(cs, q));
        assert(node_at(cs, q) == node_at(last.children@, q2));
        assert(names_mesh_node(cs, p, s, inst));
    }
}

proof fn lemma_forest_complete<L>(cs: Seq<PartTree<L>>, p: Seq<int>, s: Seq<(Joint, L)>, q: Seq<int>)
    requires
        valid_path(cs, q),
        node_at(cs, q).placed_mesh is Some,
    ensures
        exists|k: int|
            0 <= k < forest_instances(cs, p, s).len() && #[trigger] forest_instances(
                cs,
                p,
                s,
            )[k].1 == p + q,
    decreases cs,
{
    let last = cs.last();
    let i = cs.len() - 1;
    let cpath = p.push(i);
    let below = steps_below(last, s);
    let own: Seq<(usize, Seq<int>, Seq<(Joint, L)>)> = match last.placed_mesh {
        Some(m) => seq![(m, cpath, below)],
        None => Seq::empty(),
    };
    let f1 = forest_instances(cs.drop_last(), p, s);
    let f2 = forest_instances(last.children@, cpath, below);
    let all = forest_instances(cs, p, s);
    assert(cs.len() > 0);
    assert(all == f1 + own + f2);
    if q[0] < i {
        assert(cs.drop_last()[q[0]] == cs[q[0]]);
        assert(valid_path(cs.drop_last(), q));
        assert(node_at(cs.drop_last(), q) == node_at(cs, q));
        lemma_forest_complete(cs.drop_last(), p, s, q);
        let k = choose|k: int| 0 <= k < f1.len() && #[trigger] f1[k].1 == p + q;
        assert(all[k] == f1[k]);
        assert(0 <= k < all.len() && all[k].1 == p + q);
    } else if q.len() == 1 {
        assert(q =~= seq![i]);
        assert(node_at(cs, q) == last);
        assert(cpath =~= p + q);
        assert(all[f1.len() as int] == own[0]);
        assert(0 <= f1.len() < all.len() && all[f1.len() as int].1 == p + q);
    } else {
        let q2 = q.drop_first();
        lemma_forest_complete(last.children@, cpath, below, q2);
        let k2 = choose|k: int| 0 <= k < f2.len() && #[trigger] f2[k].1 == cpath + q2;
        assert(cpath + q2 =~= p + q);
        assert(valid_path(last.children@, q2));
        assert(all[f1.len() + own.len() + k2] == f2[k2]);
        assert(all[f1.len() + own.len() + k2].1 == p + q);
    }
}

proof fn lemma_mesh_steps_end<L>(cs: Seq<PartTree<L>>, q: Seq<int>)
    requires
        valid_path(cs, q),
        node_at(cs, q).placed_mesh is Some,
    ensures
        mesh_steps(cs, q).len() >= 1,
        mesh_steps(cs, q).last() == step_of(node_at(cs, q)),
    decreases q.len(),
{
    let n = cs[q[0]];
    let own = steps_below(n, seq![]);
    if q.len() == 1 {
        assert(q.drop_first().len() == 0);
        assert(mesh_steps(n.children@, q.drop_first()) == Seq::<(Joint, L)>::empty());
        assert(mesh_steps(cs, q) =~= seq![step_of(n)]);
    } else {
        lemma_mesh_steps_end(n.children@, q.drop_first());
        let rest = mesh_steps(n.children@, q.drop_first());
        assert(mesh_steps(cs, q) == own + rest);
        assert((own + rest).last() == rest.last());
    }
}

/// Every instance of the plan names a node of the tree (not the root)
/// that carries the instance's mesh; its steps are exactly those of the
/// mesh-carrying nodes on its path, from the top down, and the last of
/// them is the node's own.
pub proof fn lemma_plan_sound<L>(tree: PartTree<L>, k: int)
    requires
        0 <= k < tree_instances(tree).len(),
    ensures
        ({
            let (m, path, steps) = tree_instances(tree)[k];
            &&& valid_path(tree.children@, path)
            &&& node_at(tree.children@, path).placed_mesh == Some(m)
            &&& steps == mesh_steps(tree.children@, path)
            &&& steps.len() >= 1
            &&& steps.last() == step_of(node_at(tree.children@, path))
        }),
{
    lemma_forest_sound(tree.children@, seq![], seq![], k);
    let inst = tree_instances(tree)[k];
    assert(inst.1.skip(0) =~= inst.1);
    lemma_mesh_steps_end(tree.children@, inst.1);
    assert(Seq::<(Joint, L)>::empty() + mesh_steps(tree.children@, inst.1) =~= mesh_steps(
        tree.children@,
        inst.1,
    ));
}

/// Every node below the root that carries a mesh is drawn by the plan.
pub proof fn lemma_plan_complete<L>(tree: PartTree<L>, q: Seq<int>)
    requires
        valid_path(tree.children@, q),
        node_at(tree.children@, q).placed_mesh is Some,
    ensures
        exists|k: int|
            0 <= k < tree_instances(tree).len() && #[trigger] tree_instances(tree)[k].1 == q,
{
    let all = forest_instances(tree.children@, seq![], seq![]);
    lemma_forest_complete(tree.children@, seq![], seq![], q);
    assert(Seq::<int>::empty() + q =~= q);
    let k = choose|k: int| 0 <= k < all.len() && #[trigger] all[k].1 == Seq::<int>::empty() + q;
    assert(tree_instances(tree)[k].1 == q);
}

/// The plan draws as many instances as there are mesh-carrying nodes below
/// the root.
pub proof fn lemma_plan_count<L>(tree: PartTree<L>)
    ensures
        tree_instances(tree).len() == mesh_count(tree.children@),
{
    lemma_forest_len(tree.children@, seq![], seq![]);
}

proof fn lemma_forest_paths_distinct<L>(cs: Seq<PartTree<L>>, p: Seq<int>, s: Seq<(Joint, L)>)
    ensures
        forall|k1: int, k2: int|
            0 <= k1 < k2 < forest_instances(cs, p, s).len() ==> (#[trigger] forest_instances(
                cs,
                p,
                s,
            )[k1]).1 != (#[trigger] forest_instances(cs, p, s)[k2]).1,
    decreases cs,
{
    if cs.len() > 0 {
        let last = cs.last();
        let i = cs.len() - 1;
        let cpath = p.push(i);
        let below = steps_below(last, s);
        let own: Seq<(usize, Seq<int>, Seq<(Joint, L)>)> = match last.placed_mesh {
            Some(m) => seq![(m, cpath, below)],
            None => Seq::empty(),
        };
        let f1 = forest_instances(cs.drop_last(), p, s);
        let f2 = forest_instances(last.children@, cpath, below);
        let all = forest_instances(cs, p, s);
        assert(all == f1 + own + f2);
        lemma_forest_paths_distinct(cs.drop_last(), p, s);
        lemma_forest_paths_distinct(last.children@, cpath, below);
        assert forall|k1: int, k2: int| 0 <= k1 < k2 < all.len() implies (#[trigger] all[k1]).1
            != (#[trigger] all[k2]).1 by {
            let n1 = f1.len();
            let n2 = f1.len() + own.len();
            // Where each path turns at depth `p.len()`, and how long it is.
            if k1 < n1 {
                lemma_forest_sound(cs.drop_last(), p, s, k1);
                assert(all[k1] == f1[k1]);
                let q1 = f1[k1].1.skip(p.len() as int);
                assert(valid_path(cs.drop_last(), q1));
                assert(f1[k1].1[p.len() as int] == q1[0]);
                assert(f1[k1].1[p.len() as int] < i);
            }
            if n1 <= k1 < n2 {
                assert(all[k1] == own[k1 - n1]);
                assert(all[k1].1 == cpath);
            }
            if n1 <= k2 < n2 {
                assert(all[k2] == own[k2 - n1]);
                assert(all[k2].1 == cpath);
                assert(all[k2].1[p.len() as int] == i);
            }
            if k2 >= n2 {
                lemma_forest_sound(last.children@, cpath, below, k2 - n2);
                assert(all[k2] == f2[k2 - n2]);
                let path2 = f2[k2 - n2].1;
                assert(path2.take(cpath.len() as int) == cpath);
                assert(path2[p.len() as int] == path2.take(cpath.len() as int)[p.len() as int]);
                assert(path2[p.len() as int] == i);
                assert(path2.len() > cpath.len());
            }
            if k2 < n1 {
                assert(all[k1] == f1[k1]);
                assert(all[k2] == f1[k2]);
            }
            if k1 >= n2 {
                assert(all[k1] == f2[k1 - n2]);
                assert(all[k2] == f2[k2 - n2]);
            }
        }
    }
}

/// Each mesh-carrying node below the root is drawn exactly once: exactly
/// one instance of the plan has its path.
pub proof fn lemma_plan_draws_each_node_once<L>(tree: PartTree<L>, q: Seq<int>)
    requires
        valid_path(tree.children@, q),
        node_at(tree.children@, q).placed_mesh is Some,
    ensures
        exists|k: int| 0 <= k < tree_instances(tree).len() && #[trigger] tree_instances(tree)[k].1 == q,
        forall|k1: int, k2: int|
            0 <= k1 < tree_instances(tree).len() && 0 <= k2 < tree_instances(tree).len()
                && (#[trigger] tree_instances(tree)[k1]).1 == q && (#[trigger] tree_instances(
                tree,
            )[k2]).1 == q ==> k1 == k2,
{
    lemma_plan_complete(tree, q);
    lemma_forest_paths_distinct(tree.children@, seq![], seq![]);
    let all = tree_instances(tree);
    assert forall|k1: int, k2: int|
        0 <= k1 < all.len() && 0 <= k2 < all.len() && (#[trigger] all[k1]).1 == q && (
        #[trigger] all[k2]).1 == q implies k1 == k2 by {
        if k1 < k2 {
            assert(all[k1].1 != all[k2].1);
        } else if k2 < k1 {
            assert(all[k2].1 != all[k1].1);
        }
    }
}

/// The number of nodes carrying the mesh `m` in the subtrees rooted at `cs`.
pub open spec fn mesh_count_of<L>(cs: Seq<PartTree<L>>, m: usize) -> nat
    decreases cs,
{
    if cs.len() == 0 {
        0
    } else {
        let last = cs.last();
        mesh_count_of(cs.drop_last(), m) + (if last.placed_mesh == Some(m) {
            1nat
        } else {
            0nat
        }) + mesh_count_of(last.children@, m)
    }
}

/// The number of instances of `s` that draw the mesh `m`.
pub open spec fn instances_of<L>(s: Seq<(usize, Seq<int>, Seq<(Joint, L)>)>, m: usize) -> nat
    decreases s.len(),
{
    if s.len() == 0 {
        0
    } else {
        instances_of(s.drop_last(), m) + (if s.last().0 == m {
            1nat
        } else {
            0nat
        })
    }
}

proof fn lemma_instances_of_concat<L>(
    a: Seq<(usize, Seq<int>, Seq<(Joint, L)>)>,
    b: Seq<(usize, Seq<int>, Seq<(Joint, L)>)>,
    m: usize,
)
    ensures
        instances_of(a + b, m) == instances_of(a, m) + instances_of(b, m),
    decreases b.len(),
{
    if b.len() == 0 {
        assert(a + b =~= a);
    } else {
        lemma_instances_of_concat(a, b.drop_last(), m);
        assert((a + b).drop_last() =~= a + b.drop_last());
        assert((a + b).last() == b.last());
    }
}

proof fn lemma_forest_count_of<L>(cs: Seq<PartTree<L>>, p: Seq<int>, s: Seq<(Joint, L)>, m: usize)
    ensures
        instances_of(forest_instances(cs, p, s), m) == mesh_count_of(cs, m),
    decreases cs,
{
    if cs.len() > 0 {
        let last = cs.last();
        let cpath = p.push(cs.len() - 1);
        let below = steps_below(last, s);
        let own: Seq<(usize, Seq<int>, Seq<(Joint, L)>)> = match last.placed_mesh {
            Some(k) => seq![(k, cpath, below)],
            None => Seq::empty(),
        };
        let f1 = forest_instances(cs.drop_last(), p, s);
        let f2 = forest_instances(last.children@, cpath, below);
        assert(forest_instances(cs, p, s) == f1 + own + f2);
        lemma_forest_count_of(cs.drop_last(), p, s, m);
        lemma_forest_count_of(last.children@, cpath, below, m);
        lemma_instances_of_concat(f1 + own, f2, m);
        lemma_instances_of_concat(f1, own, m);
        let e = Seq::<(usize, Seq<int>, Seq<(Joint, L)>)>::empty();
        assert(instances_of(e, m) == 0);
        match last.placed_mesh {
            Some(k) => {
                assert(own.drop_last() =~= e);
                assert(own.last().0 == k);
                assert(instances_of(own, m) == (if k == m {
                    1nat
                } else {
                    0nat
                }));
            },
            None => {
                assert(own == e);
            },
        }
    }
}

/// For each mesh, the plan draws as many instances of it as there are
/// nodes below the root that carry it.
pub proof fn lemma_plan_count_per_mesh<L>(tree: PartTree<L>, m: usize)
    ensures
        instances_of(tree_instances(tree), m) == mesh_count_of(tree.children@, m),
{
    lemma_forest_count_of(tree.children@, seq![], seq![], m);
}

/// Whether the path `a` comes before the path `b` in pre-order: `a` is a
/// proper prefix of `b`, or at the first position where they differ `a`
/// takes an earlier child.
pub open spec fn path_before(a: Seq<int>, b: Seq<int>) -> bool {
    exists|d: int|
        0 <= d <= a.len() && d <= b.len() && #[trigger] a.take(d) == b.take(d) && ((d == a.len()
            && d < b.len()) || (d < a.len() && d < b.len() && a[d] < b[d]))
}

proof fn lemma_forest_preorder<L>(cs: Seq<PartTree<L>>, p: Seq<int>, s: Seq<(Joint, L)>)
    ensures
        forall|k1: int, k2: int|
            0 <= k1 < k2 < forest_instances(cs, p, s).len() ==> path_before(
                (#[trigger] forest_instances(cs, p, s)[k1]).1,
                (#[trigger] forest_instances(cs, p, s)[k2]).1,
            ),
    decreases cs,
{
    if cs.len() > 0 {
        let last = cs.last();
        let i = cs.len() - 1;
        let cpath = p.push(i);
        let below = steps_below(last, s);
        let own: Seq<(usize, Seq<int>, Seq<(Joint, L)>)> = match last.placed_mesh {
            Some(m) => seq![(m, cpath, below)],
            None => Seq::empty(),
        };
        let f1 = forest_instances(cs.drop_last(), p, s);
        let f2 = forest_instances(last.children@, cpath, below);
        let all = forest_instances(cs, p, s);
        assert(all == f1 + own + f2);
        lemma_forest_preorder(cs.drop_last(), p, s);
        lemma_forest_preorder(last.children@, cpath, below);
        let n1 = f1.len();
        let n2 = f1.len() + own.len();
        assert forall|k1: int, k2: int| 0 <= k1 < k2 < all.len() implies path_before(
            (#[trigger] all[k1]).1,
            (#[trigger] all[k2]).1,
        ) by {
            if k2 < n1 {
                assert(all[k1] == f1[k1]);
                assert(all[k2] == f1[k2]);
            } else if k1 >= n2 {
                assert(all[k1] == f2[k1 - n2]);
                assert(all[k2] == f2[k2 - n2]);
            } else {
                let a = all[k1].1;
                let b = all[k2].1;
                // `b` passes through the last child.
                if k2 < n2 {
                    assert(all[k2] == own[k2 - n1]);
                    assert(b == cpath);
                } else {
                    lemma_forest_sound(last.children@, cpath, below, k2 - n2);
                    assert(all[k2] == f2[k2 - n2]);
                    assert(b.take(cpath.len() as int) == cpath);
                    assert(b.len() > cpath.len());
                }
                assert(b.len() >= cpath.len());
                assert(b.take(p.len() as int) =~= p) by {
                    assert(b.take(p.len() as int) =~= b.take(cpath.len() as int).take(p.len() as int));
                }
                assert(b[p.len() as int] == i) by {
                    assert(b[p.len() as int] == b.take(cpath.len() as int)[p.len() as int]);
                }
                if k1 < n1 {
                    lemma_forest_sound(cs.drop_last(), p, s, k1);
                    assert(all[k1] == f1[k1]);
                    let q1 = a.skip(p.len() as int);
                    assert(valid_path(cs.drop_last(), q1));
                    assert(a[p.len() as int] == q1[0]);
                    assert(a.take(p.len() as int) == b.take(p.len() as int));
                    assert(path_before(a, b));
                } else {
                    assert(all[k1] == own[k1 - n1]);
                    assert(a == cpath);
                    assert(k2 >= n2);
                    assert(a.take(cpath.len() as int) =~= a);
                    assert(a.take(cpath.len() as int) == b.take(cpath.len() as int));
                    assert(path_before(a, b));
                }
            }
        }
    }
}

/// The plan is in pre-order: of two instances, the earlier one's path
/// comes before the later one's.
pub proof fn lemma_plan_preorder<L>(tree: PartTree<L>)
    ensures
        forall|k1: int, k2: int|
            0 <= k1 < k2 < tree_instances(tree).len() ==> path_before(
                (#[trigger] tree_instances(tree)[k1]).1,
                (#[trigger] tree_instances(tree)[k2]).1,
            ),
{
    lemma_forest_preorder(tree.children@, seq![], seq![]);
}

/// What an instance draws from: its mesh and the steps of its transform.
/// Two instances with the same record draw the same thing.
pub open spec fn record_of<L>(inst: (usize, Seq<int>, Seq<(Joint, L)>)) -> (usize, Seq<(Joint, L)>) {
    (inst.0, inst.2)
}

/// The records of a sequence of instances.
pub open spec fn records<L>(s: Seq<(usize, Seq<int>, Seq<(Joint, L)>)>) -> Seq<(usize, Seq<(Joint, L)>)> {
    s.map_values(|i: (usize, Seq<int>, Seq<(Joint, L)>)| record_of(i))
}

/// The records drawn below a node whose children are `cs` and whose
/// transform is built by `steps`, in pre-order.
pub open spec fn forest_records<L>(cs: Seq<PartTree<L>>, steps: Seq<(Joint, L)>) -> Seq<
    (usize, Seq<(Joint, L)>),
>
    decreases cs,
{
    if cs.len() == 0 {
        seq![]
    } else {
        let last = cs.last();
        let below = steps_below(last, steps);
        let own = match last.placed_mesh {
            Some(m) => seq![(m, below)],
            None => Seq::empty(),
        };
        forest_records(cs.drop_last(), steps) + own + forest_records(last.children@, below)
    }
}

proof fn lemma_records_of_forest<L>(cs: Seq<PartTree<L>>, p: Seq<int>, s: Seq<(Joint, L)>)
    ensures
        records(forest_instances(cs, p, s)) == forest_records(cs, s),
    decreases cs,
{
    if cs.len() > 0 {
        let last = cs.last();
        let cpath = p.push(cs.len() - 1);
        let below = steps_below(last, s);
        lemma_records_of_forest(cs.drop_last(), p, s);
        lemma_records_of_forest(last.children@, cpath, below);
        let own: Seq<(usize, Seq<int>, Seq<(Joint, L)>)> = match last.placed_mesh {
            Some(m) => seq![(m, cpath, below)],
            None => Seq::empty(),
        };
        let f1 = forest_instances(cs.drop_last(), p, s);
        let f2 = forest_instances(last.children@, cpath, below);
        assert(forest_instances(cs, p, s) == f1 + own + f2);
        assert(records(f1 + own + f2) =~= records(f1) + records(own) + records(f2));
        let rown: Seq<(usize, Seq<(Joint, L)>)> = match last.placed_mesh {
            Some(m) => seq![(m, below)],
            None => Seq::empty(),
        };
        assert(records(own) =~= rown);
    }
}

proof fn lemma_forest_records_concat<L>(a: Seq<PartTree<L>>, b: Seq<PartTree<L>>, s: Seq<(Joint, L)>)
    ensures
        forest_records(a + b, s) == forest_records(a, s) + forest_records(b, s),
    decreases b.len(),
{
    if b.len() == 0 {
        assert(a + b =~= a);
        assert(forest_records(a, s) + forest_records(b, s) =~= forest_records(a, s));
    } else {
        lemma_forest_records_concat(a, b.drop_last(), s);
        assert((a + b).drop_last() =~= a + b.drop_last());
        assert((a + b).last() == b.last());
        let last = b.last();
        let below = steps_below(last, s);
        let own: Seq<(usize, Seq<(Joint, L)>)> = match last.placed_mesh {
            Some(m) => seq![(m, below)],
            None => Seq::empty(),
        };
        assert(forest_records(a + b, s) == forest_records(a + b.drop_last(), s) + own
            + forest_records(last.children@, below));
        assert(forest_records(b, s) == forest_records(b.drop_last(), s) + own + forest_records(
            last.children@,
            below,
        ));
        assert(forest_records(a + b, s) =~= forest_records(a, s) + forest_records(b, s));
    }
}

proof fn lemma_forest_records_single<L>(n: PartTree<L>, s: Seq<(Joint, L)>)
    ensures
        forest_records(seq![n], s) == (match n.placed_mesh {
            Some(m) => seq![(m, steps_below(n, s))],
            None => Seq::<(usize, Seq<(Joint, L)>)>::empty(),
        }) + forest_records(n.children@, steps_below(n, s)),
{
    assert(seq![n].drop_last() =~= Seq::<PartTree<L>>::empty());
    assert(forest_records(Seq::<PartTree<L>>::empty(), s) == Seq::<(usize, Seq<(Joint, L)>)>::empty());
    let own: Seq<(usize, Seq<(Joint, L)>)> = match n.placed_mesh {
        Some(m) => seq![(m, steps_below(n, s))],
        None => Seq::empty(),
    };
    assert(Seq::<(usize, Seq<(Joint, L)>)>::empty() + own =~= own);
}

/// Whether `cs2` is `cs1` with the mesh-less node at path `q` replaced, in
/// its parent's children, by its own children in order; every other node
/// keeps its mesh, joint and local data.
pub open spec fn spliced<L>(cs1: Seq<PartTree<L>>, cs2: Seq<PartTree<L>>, q: Seq<int>) -> bool
    decreases q.len(),
{
    &&& q.len() >= 1
    &&& 0 <= q[0] < cs1.len()
    &&& if q.len() == 1 {
        &&& cs1[q[0]].placed_mesh is None
        &&& cs2 == cs1.take(q[0]) + cs1[q[0]].children@ + cs1.skip(q[0] + 1)
    } else {
        &&& cs2.len() == cs1.len()
        &&& forall|j: int| 0 <= j < cs1.len() && j != q[0] ==> #[trigger] cs2[j] == cs1[j]
        &&& cs2[q[0]].placed_mesh == cs1[q[0]].placed_mesh
        &&& cs2[q[0]].joint == cs1[q[0]].joint
        &&& cs2[q[0]].local == cs1[q[0]].local
        &&& spliced(cs1[q[0]].children@, cs2[q[0]].children@, q.drop_first())
    }
}

proof fn lemma_splice_forest<L>(
    cs1: Seq<PartTree<L>>,
    cs2: Seq<PartTree<L>>,
    q: Seq<int>,
    s: Seq<(Joint, L)>,
)
    requires
        spliced(cs1, cs2, q),
    ensures
        forest_records(cs1, s) == forest_records(cs2, s),
    decreases q.len(),
{
    let j = q[0];
    let n1 = cs1[j];
    assert(cs1 =~= cs1.take(j) + seq![n1] + cs1.skip(j + 1));
    lemma_forest_records_concat(cs1.take(j) + seq![n1], cs1.skip(j + 1), s);
    lemma_forest_records_concat(cs1.take(j), seq![n1], s);
    lemma_forest_records_single(n1, s);
    if q.len() == 1 {
        lemma_forest_records_concat(cs1.take(j) + n1.children@, cs1.skip(j + 1), s);
        lemma_forest_records_concat(cs1.take(j), n1.children@, s);
        assert(steps_below(n1, s) == s);
        assert(Seq::<(usize, Seq<(Joint, L)>)>::empty() + forest_records(n1.children@, s)
            =~= forest_records(n1.children@, s));
    } else {
        let n2 = cs2[j];
        assert(cs2.take(j) =~= cs1.take(j));
        assert(cs2.skip(j + 1) =~= cs1.skip(j + 1));
        assert(cs2 =~= cs1.take(j) + seq![n2] + cs1.skip(j + 1));
        lemma_forest_records_concat(cs1.take(j) + seq![n2], cs1.skip(j + 1), s);
        lemma_forest_records_concat(cs1.take(j), seq![n2], s);
        lemma_forest_records_single(n2, s);
        assert(steps_below(n1, s) == steps_below(n2, s));
        lemma_splice_forest(n1.children@, n2.children@, q.drop_first(), steps_below(n1, s));
    }
}

/// Splicing a mesh-less node's children into its place leaves what a
/// visit draws unchanged: the same meshes, in the same order, with
/// transforms built by the same steps. A mesh-less node's joint and local
/// data are never used.
pub proof fn lemma_splice_meshless<L>(t1: PartTree<L>, t2: PartTree<L>, q: Seq<int>)
    requires
        spliced(t1.children@, t2.children@, q),
    ensures
        records(tree_instances(t1)) == records(tree_instances(t2)),
{
    lemma_splice_forest(t1.children@, t2.children@, q, seq![]);
    lemma_records_of_forest(t1.children@, seq![], seq![]);
    lemma_records_of_forest(t2.children@, seq![], seq![]);
}

/// Whether the mesh `m` is ready to be drawn; a mesh beyond the list is not.
pub open spec fn is_ready(ready: Seq<bool>, m: usize) -> bool {
    m < ready.len() && ready[m as int]
}

/// The instances of `s` whose mesh is ready, in order.
pub open spec fn ready_instances<L>(s: Seq<(usize, Seq<int>, Seq<(Joint, L)>)>, ready: Seq<bool>) -> Seq<
    (usize, Seq<int>, Seq<(Joint, L)>),
>
    decreases s.len(),
{
    if s.len() == 0 {
        seq![]
    } else {
        ready_instances(s.drop_last(), ready) + (if is_ready(ready, s.last().0) {
            seq![s.last()]
        } else {
            seq![]
        })
    }
}

proof fn lemma_ready_concat<L>(
    a: Seq<(usize, Seq<int>, Seq<(Joint, L)>)>,
    b: Seq<(usize, Seq<int>, Seq<(Joint, L)>)>,
    ready: Seq<bool>,
)
    ensures
        ready_instances(a + b, ready) == ready_instances(a, ready) + ready_instances(b, ready),
    decreases b.len(),
{
    if b.len() == 0 {
        assert(a + b =~= a);
        assert(ready_instances(a, ready) + ready_instances(b, ready) =~= ready_instances(a, ready));
    } else {
        lemma_ready_concat(a, b.drop_last(), ready);
        assert((a + b).drop_last() =~= a + b.drop_last());
        assert((a + b).last() == b.last());
        assert(ready_instances(a + b, ready) =~= ready_instances(a, ready) + ready_instances(
            b,
            ready,
        ));
    }
}

proof fn lemma_ready_single<L>(x: (usize, Seq<int>, Seq<(Joint, L)>), ready: Seq<bool>)
    ensures
        ready_instances(seq![x], ready) == (if is_ready(ready, x.0) {
            seq![x]
        } else {
            seq![]
        }),
{
    let e = Seq::<(usize, Seq<int>, Seq<(Joint, L)>)>::empty();
    assert(seq![x].drop_last() =~= e);
    assert(ready_instances(e, ready) == e);
    assert(seq![x].last() == x);
    assert(ready_instances(seq![x], ready) =~= (if is_ready(ready, x.0) {
        seq![x]
    } else {
        seq![]
    }));
}

/// Whether `cs2` is `cs1` with the mesh of the node at path `q` changed to
/// `m2`, all else the same.
pub open spec fn remeshed<L>(cs1: Seq<PartTree<L>>, cs2: Seq<PartTree<L>>, q: Seq<int>, m2: usize) -> bool
    decreases q.len(),
{
    &&& q.len() >= 1
    &&& 0 <= q[0] < cs1.len()
    &&& cs2.len() == cs1.len()
    &&& forall|j: int| 0 <= j < cs1.len() && j != q[0] ==> #[trigger] cs2[j] == cs1[j]
    &&& cs2[q[0]].joint == cs1[q[0]].joint
    &&& cs2[q[0]].local == cs1[q[0]].local
    &&& if q.len() == 1 {
        &&& cs1[q[0]].placed_mesh is Some
        &&& cs2[q[0]].placed_mesh == Some(m2)
        &&& cs2[q[0]].children@ == cs1[q[0]].children@
    } else {
        &&& cs2[q[0]].placed_mesh == cs1[q[0]].placed_mesh
        &&& remeshed(cs1[q[0]].children@, cs2[q[0]].children@, q.drop_first(), m2)
    }
}

proof fn lemma_remesh_forest<L>(
    cs1: Seq<PartTree<L>>,
    cs2: Seq<PartTree<L>>,
    q: Seq<int>,
    m2: usize,
    p: Seq<int>,
    s: Seq<(Joint, L)>,
    ready: Seq<bool>,
) -> (parts: (Seq<(usize, Seq<int>, Seq<(Joint, L)>)>, Seq<(usize, Seq<int>, Seq<(Joint, L)>)>))
    requires
        remeshed(cs1, cs2, q, m2),
        is_ready(ready, node_at(cs1, q).placed_mesh->0),
        !is_ready(ready, m2),
    ensures
        ready_instances(forest_instances(cs1, p, s), ready) == parts.0 + seq![
            (node_at(cs1, q).placed_mesh->0, p + q, s + mesh_steps(cs1, q)),
        ] + parts.1,
        ready_instances(forest_instances(cs2, p, s), ready) == parts.0 + parts.1,
    decreases cs1,
{
    let i = cs1.len() - 1;
    let l1 = cs1.last();
    let l2 = cs2.last();
    let cpath = p.push(i);
    let b1 = steps_below(l1, s);
    let b2 = steps_below(l2, s);
    let own1: Seq<(usize, Seq<int>, Seq<(Joint, L)>)> = match l1.placed_mesh {
        Some(m) => seq![(m, cpath, b1)],
        None => Seq::empty(),
    };
    let own2: Seq<(usize, Seq<int>, Seq<(Joint, L)>)> = match l2.placed_mesh {
        Some(m) => seq![(m, cpath, b2)],
        None => Seq::empty(),
    };
    let f1a = forest_instances(cs1.drop_last(), p, s);
    let f1b = forest_instances(cs2.drop_last(), p, s);
    let g1 = forest_instances(l1.children@, cpath, b1);
    let g2 = forest_instances(l2.children@, cpath, b2);
    assert(forest_instances(cs1, p, s) == f1a + own1 + g1);
    assert(forest_instances(cs2, p, s) == f1b + own2 + g2);
    lemma_ready_concat(f1a + own1, g1, ready);
    lemma_ready_concat(f1a, own1, ready);
    lemma_ready_concat(f1b + own2, g2, ready);
    lemma_ready_concat(f1b, own2, ready);
    let x = (node_at(cs1, q).placed_mesh->0, p + q, s + mesh_steps(cs1, q));
    if q[0] < i {
        assert(l1 == l2);
        assert(remeshed(cs1.drop_last(), cs2.drop_last(), q, m2)) by {
            assert(cs1.drop_last()[q[0]] == cs1[q[0]]);
            assert(cs2.drop_last()[q[0]] == cs2[q[0]]);
        }
        assert(cs1.drop_last()[q[0]] == cs1[q[0]]);
        assert(node_at(cs1.drop_last(), q) == node_at(cs1, q));
        assert(mesh_steps(cs1.drop_last(), q) == mesh_steps(cs1, q));
        let r = lemma_remesh_forest(cs1.drop_last(), cs2.drop_last(), q, m2, p, s, ready);
        let tail = ready_instances(own1, ready) + ready_instances(g1, ready);
        assert(ready_instances(forest_instances(cs1, p, s), ready) =~= r.0 + seq![x] + (r.1
            + tail));
        assert(ready_instances(forest_instances(cs2, p, s), ready) =~= r.0 + (r.1 + tail));
        (r.0, r.1 + tail)
    } else {
        assert(cs1.drop_last() =~= cs2.drop_last());
        let head = ready_instances(f1a, ready);
        if q.len() == 1 {
            assert(q =~= seq![i]);
            assert(node_at(cs1, q) == l1);
            assert(b1 == b2);
            assert(cpath =~= p + q);
            assert(q.drop_first() =~= Seq::<int>::empty());
            assert(mesh_steps(cs1, q) =~= seq![step_of(l1)]);
            assert(b1 =~= s + mesh_steps(cs1, q));
            lemma_ready_single((m2, cpath, b2), ready);
            lemma_ready_single(own1[0], ready);
            assert(own1 =~= seq![own1[0]]);
            assert(own2 =~= seq![(m2, cpath, b2)]);
            assert(g1 == g2);
            let tail = ready_instances(g1, ready);
            assert(ready_instances(forest_instances(cs1, p, s), ready) =~= head + seq![x] + tail);
            assert(ready_instances(forest_instances(cs2, p, s), ready) =~= head + tail);
            (head, tail)
        } else {
            let q2 = q.drop_first();
            assert(own1 == own2);
            assert(b1 == b2);
            assert(node_at(cs1, q) == node_at(l1.children@, q2));
            assert(mesh_steps(cs1, q) == steps_below(l1, seq![]) + mesh_steps(l1.children@, q2));
            assert(b1 =~= s + steps_below(l1, seq![]));
            assert(cpath + q2 =~= p + q);
            assert(s + mesh_steps(cs1, q) =~= b1 + mesh_steps(l1.children@, q2));
            let r = lemma_remesh_forest(l1.children@, l2.children@, q2, m2, cpath, b1, ready);
            let front = head + ready_instances(own1, ready);
            assert(ready_instances(forest_instances(cs1, p, s), ready) =~= (front + r.0) + seq![x]
                + r.1);
            assert(ready_instances(forest_instances(cs2, p, s), ready) =~= (front + r.0) + r.1);
            (front + r.0, r.1)
        }
    }
}

/// Changing a ready mesh node's mesh to one that is not ready loses that
/// node's own instance and nothing else: every other instance, those below
/// the node included, keeps its mesh, path and steps, and the order stays.
pub proof fn lemma_unready_mesh_loses_own_instance<L>(
    t1: PartTree<L>,
    t2: PartTree<L>,
    q: Seq<int>,
    m2: usize,
    ready: Seq<bool>,
) -> (parts: (Seq<(usize, Seq<int>, Seq<(Joint, L)>)>, Seq<(usize, Seq<int>, Seq<(Joint, L)>)>))
    requires
        remeshed(t1.children@, t2.children@, q, m2),
        is_ready(ready, node_at(t1.children@, q).placed_mesh->0),
        !is_ready(ready, m2),
    ensures
        ready_instances(tree_instances(t1), ready) == parts.0 + seq![
            (
                node_at(t1.children@, q).placed_mesh->0,
                q,
                mesh_steps(t1.children@, q),
            ),
        ] + parts.1,
        ready_instances(tree_instances(t2), ready) == parts.0 + parts.1,
{
    assert(Seq::<int>::empty() + q =~= q);
    assert(Seq::<(Joint, L)>::empty() + mesh_steps(t1.children@, q) =~= mesh_steps(
        t1.children@,
        q,
    ));
    lemma_remesh_forest(t1.children@, t2.children@, q, m2, seq![], seq![], ready)
}

proof fn lemma_valid_prefix<L>(cs: Seq<PartTree<L>>, q: Seq<int>, d: int)
    requires
        valid_path(cs, q),
        0 <= d < q.len(),
    ensures
        valid_path(cs, q.take(d + 1)),
    decreases q.len(),
{
    if d > 0 {
        lemma_valid_prefix(cs[q[0]].children@, q.drop_first(), d - 1);
        assert(q.take(d + 1).drop_first() =~= q.drop_first().take(d));
    }
}

/// Every step in `mesh_steps(cs, q)` is the step of a mesh-carrying node
/// on the path `q`.
proof fn lemma_mesh_steps_from_path<L>(cs: Seq<PartTree<L>>, q: Seq<int>, i: int)
    requires
        valid_path(cs, q),
        0 <= i < mesh_steps(cs, q).len(),
    ensures
        exists|d: int|
            0 <= d < q.len() && #[trigger] node_at(cs, q.take(d + 1)).placed_mesh is Some
                && mesh_steps(cs, q)[i] == step_of(node_at(cs, q.take(d + 1))),
    decreases q.len(),
{
    let n = cs[q[0]];
    let own = steps_below(n, seq![]);
    let q2 = q.drop_first();
    assert(q.take(1) =~= seq![q[0]]);
    assert(node_at(cs, q.take(1)) == n);
    if q.len() == 1 {
        assert(mesh_steps(n.children@, q2) == Seq::<(Joint, L)>::empty());
    }
    assert(mesh_steps(cs, q) == own + mesh_steps(n.children@, q2));
    if i < own.len() {
        assert(mesh_steps(cs, q)[i] == step_of(n));
        assert(node_at(cs, q.take(0int + 1)).placed_mesh is Some);
    } else {
        lemma_mesh_steps_from_path(n.children@, q2, i - own.len());
        let d2 = choose|d: int|
            0 <= d < q2.len() && #[trigger] node_at(n.children@, q2.take(d + 1)).placed_mesh is Some
                && mesh_steps(n.children@, q2)[i - own.len()] == step_of(
                node_at(n.children@, q2.take(d + 1)),
            );
        assert(q.take(d2 + 2).drop_first() =~= q2.take(d2 + 1));
        assert(q.take(d2 + 2)[0] == q[0]);
        assert(node_at(cs, q.take(d2 + 2)) == node_at(n.children@, q2.take(d2 + 1)));
        assert(node_at(cs, q.take((d2 + 1) + 1)).placed_mesh is Some);
    }
}

/// Every step of every planned instance is the step (joint and local data)
/// of a mesh-carrying node on the instance's path: a node below the root,
/// reached by a prefix of that path, that carries a mesh.
pub proof fn lemma_plan_steps_from_mesh_nodes<L>(tree: PartTree<L>, k: int, i: int)
    requires
        0 <= k < tree_instances(tree).len(),
        0 <= i < tree_instances(tree)[k].2.len(),
    ensures
        ({
            let path = tree_instances(tree)[k].1;
            exists|d: int|
                0 <= d < path.len() && valid_path(tree.children@, path.take(d + 1))
                    && #[trigger] node_at(tree.children@, path.take(d + 1)).placed_mesh is Some
                    && tree_instances(tree)[k].2[i] == step_of(
                    node_at(tree.children@, path.take(d + 1)),
                )
        }),
{
    lemma_plan_sound(tree, k);
    let path = tree_instances(tree)[k].1;
    lemma_mesh_steps_from_path(tree.children@, path, i);
    let d = choose|d: int|
        0 <= d < path.len() && #[trigger] node_at(tree.children@, path.take(d + 1)).placed_mesh is Some
            && mesh_steps(tree.children@, path)[i] == step_of(
            node_at(tree.children@, path.take(d + 1)),
        );
    lemma_valid_prefix(tree.children@, path, d);
}

/// When no mesh-carrying node below the root has the joint `j`, no step of
/// any planned instance has it: a tree without aiming (or wheel) joints on
/// its drawn parts never uses the aim direction (or the wheel angle).
pub proof fn lemma_plan_without_joint<L>(tree: PartTree<L>, j: Joint)
    requires
        forall|q: Seq<int>|
            valid_path(tree.children@, q) && (#[trigger] node_at(tree.children@, q)).placed_mesh
                is Some ==> node_at(tree.children@, q).joint != j,
    ensures
        forall|k: int, i: int|
            0 <= k < tree_instances(tree).len() && 0 <= i < tree_instances(tree)[k].2.len()
                ==> (#[trigger] tree_instances(tree)[k].2[i]).0 != j,
{
    assert forall|k: int, i: int|
        0 <= k < tree_instances(tree).len() && 0 <= i < tree_instances(
            tree,
        )[k].2.len() implies (#[trigger] tree_instances(tree)[k].2[i]).0 != j by {
        lemma_plan_steps_from_mesh_nodes(tree, k, i);
        let path = tree_instances(tree)[k].1;
        let d = choose|d: int|
            0 <= d < path.len() && valid_path(tree.children@, path.take(d + 1))
                && #[trigger] node_at(tree.children@, path.take(d + 1)).placed_mesh is Some
                && tree_instances(tree)[k].2[i] == step_of(
                node_at(tree.children@, path.take(d + 1)),
            );
        assert(node_at(tree.children@, path.take(d + 1)).joint != j);
    }
}

proof fn lemma_ready_records_agree<L>(
    s1: Seq<(usize, Seq<int>, Seq<(Joint, L)>)>,
    s2: Seq<(usize, Seq<int>, Seq<(Joint, L)>)>,
    ready: Seq<bool>,
)
    requires
        records(s1) == records(s2),
    ensures
        records(ready_instances(s1, ready)) == records(ready_instances(s2, ready)),
    decreases s1.len(),
{
    assert(records(s1).len() == s1.len());
    assert(records(s2).len() == s2.len());
    if s1.len() > 0 {
        assert(records(s1.drop_last()) =~= records(s1).drop_last());
        assert(records(s2.drop_last()) =~= records(s2).drop_last());
        lemma_ready_records_agree(s1.drop_last(), s2.drop_last(), ready);
        assert(records(s1)[s1.len() - 1] == records(s2)[s2.len() - 1]);
        assert(record_of(s1.last()) == record_of(s2.last()));
        let t1: Seq<(usize, Seq<int>, Seq<(Joint, L)>)> = if is_ready(ready, s1.last().0) {
            seq![s1.last()]
        } else {
            seq![]
        };
        let t2: Seq<(usize, Seq<int>, Seq<(Joint, L)>)> = if is_ready(ready, s2.last().0) {
            seq![s2.last()]
        } else {
            seq![]
        };
        assert(records(t1) =~= records(t2));
        assert(records(ready_instances(s1, ready)) =~= records(ready_instances(s1.drop_last(), ready))
            + records(t1));
        assert(records(ready_instances(s2, ready)) =~= records(ready_instances(s2.drop_last(), ready))
            + records(t2));
    }
}

proof fn lemma_ready_count<L>(s: Seq<(usize, Seq<int>, Seq<(Joint, L)>)>, ready: Seq<bool>, m: usize)
    ensures
        instances_of(ready_instances(s, ready), m) == (if is_ready(ready, m) {
            instances_of(s, m)
        } else {
            0
        }),
    decreases s.len(),
{
    if s.len() > 0 {
        lemma_ready_count(s.drop_last(), ready, m);
        let t: Seq<(usize, Seq<int>, Seq<(Joint, L)>)> = if is_ready(ready, s.last().0) {
            seq![s.last()]
        } else {
            seq![]
        };
        lemma_instances_of_concat(ready_instances(s.drop_last(), ready), t, m);
        let e = Seq::<(usize, Seq<int>, Seq<(Joint, L)>)>::empty();
        assert(instances_of(e, m) == 0);
        assert(ready_instances(s, ready) == ready_instances(s.drop_last(), ready) + t);
        if is_ready(ready, s.last().0) {
            assert(t.drop_last() =~= e);
            assert(t.last() == s.last());
            assert(instances_of(t, m) == (if s.last().0 == m {
                1nat
            } else {
                0nat
            }));
        } else {
            assert(t == e);
            assert(s.last().0 != m || !is_ready(ready, m));
        }
    }
}

proof fn lemma_ready_subset<L>(s: Seq<(usize, Seq<int>, Seq<(Joint, L)>)>, ready: Seq<bool>, k: int)
    requires
        0 <= k < ready_instances(s, ready).len(),
    ensures
        s.contains(ready_instances(s, ready)[k]),
        is_ready(ready, ready_instances(s, ready)[k].0),
    decreases s.len(),
{
    let init = ready_instances(s.drop_last(), ready);
    if k < init.len() {
        lemma_ready_subset(s.drop_last(), ready, k);
        let j = choose|j: int| 0 <= j < s.drop_last().len() && s.drop_last()[j] == init[k];
        assert(s[j] == init[k]);
    } else {
        assert(ready_instances(s, ready)[k] == s.last());
        assert(s[s.len() - 1] == s.last());
    }
}

/// For each mesh, the plan for the ready meshes draws as many instances of
/// it as there are nodes below the root that carry it if it is ready, and
/// none if it is not.
pub proof fn lemma_ready_plan_count_per_mesh<L>(tree: PartTree<L>, ready: Seq<bool>, m: usize)
    ensures
        instances_of(ready_instances(tree_instances(tree), ready), m) == (if is_ready(ready, m) {
            mesh_count_of(tree.children@, m)
        } else {
            0
        }),
{
    lemma_ready_count(tree_instances(tree), ready, m);
    lemma_plan_count_per_mesh(tree, m);
}

/// Splicing a mesh-less node's children into its place leaves what a
/// visit draws into the ready meshes unchanged.
pub proof fn lemma_splice_meshless_ready<L>(
    t1: PartTree<L>,
    t2: PartTree<L>,
    q: Seq<int>,
    ready: Seq<bool>,
)
    requires
        spliced(t1.children@, t2.children@, q),
    ensures
        records(ready_instances(tree_instances(t1), ready)) == records(
            ready_instances(tree_instances(t2), ready),
        ),
{
    lemma_splice_meshless(t1, t2, q);
    lemma_ready_records_agree(tree_instances(t1), tree_instances(t2), ready);
}

/// Every instance of the plan for the ready meshes is an instance of the
/// plan whose mesh is ready, so its steps too come from mesh-carrying
/// nodes on its path; with no such node of the joint `j`, none of its
/// steps has `j`.
pub proof fn lemma_ready_plan_without_joint<L>(tree: PartTree<L>, ready: Seq<bool>, j: Joint)
    requires
        forall|q: Seq<int>|
            valid_path(tree.children@, q) && (#[trigger] node_at(tree.children@, q)).placed_mesh
                is Some ==> node_at(tree.children@, q).joint != j,
    ensures
        forall|k: int|
            0 <= k < ready_instances(tree_instances(tree), ready).len() ==> tree_instances(
                tree,
            ).contains(#[trigger] ready_instances(tree_instances(tree), ready)[k]) && is_ready(
                ready,
                ready_instances(tree_instances(tree), ready)[k].0,
            ),
        forall|k: int, i: int|
            0 <= k < ready_instances(tree_instances(tree), ready).len() && 0 <= i < ready_instances(
                tree_instances(tree),
                ready,
            )[k].2.len() ==> (#[trigger] ready_instances(tree_instances(tree), ready)[k].2[i]).0
                != j,
{
    lemma_plan_without_joint(tree, j);
    let all = tree_instances(tree);
    let r = ready_instances(all, ready);
    assert forall|k: int| 0 <= k < r.len() implies all.contains(#[trigger] r[k]) && is_ready(
        ready,
        r[k].0,
    ) by {
        lemma_ready_subset(all, ready, k);
    }
    assert forall|k: int, i: int| 0 <= k < r.len() && 0 <= i < r[k].2.len() implies (
    #[trigger] r[k].2[i]).0 != j by {
        lemma_ready_subset(all, ready, k);
        let kk = choose|kk: int| 0 <= kk < all.len() && all[kk] == r[k];
        assert(all[kk].2[i] == r[k].2[i]);
    }
}

/// Copies a sequence of values.
fn copy_all<T: Copy>(v: &Vec<T>) -> (r: Vec<T>)
    ensures
        r@ == v@,
{
    let mut r: Vec<T> = Vec::new();
    for i in 0..v.len()
        invariant
            r@ == v@.take(i as int),
    {
        r.push(v[i]);
        assert(v@.take(i + 1) =~= v@.take(i as int).push(v@[i as int]));
    }
    assert(v@.take(v@.len() as int) =~= v@);
    r
}

impl<L: Copy> PartTree<L> {
    /// Appends to `out` the instances below `self`, whose path is `path`
    /// and whose transform is built by `steps`.
    fn visit(&self, path: &mut Vec<usize>, steps: &mut Vec<(Joint, L)>, out: &mut Vec<PartInstance<L>>)
        ensures
            final(path)@ == old(path)@,
            final(steps)@ == old(steps)@,
            instances_view(final(out)@) == instances_view(old(out)@) + forest_instances(
                self.children@,
                ints(old(path)@),
                old(steps)@,
            ),
        decreases self,
    {
        let ghost path0 = path@;
        let ghost steps0 = steps@;
        let ghost out0 = out@;
        let n = self.children.len();
        for i in 0..n
            invariant
                n == self.children@.len(),
                path@ == path0,
                steps@ == steps0,
                instances_view(out@) == instances_view(out0) + forest_instances(
                    self.children@.take(i as int),
                    ints(path0),
                    steps0,
                ),
        {
            let c = &self.children[i];
            let ghost before = out@;
            path.push(i);
            assert(ints(path@) =~= ints(path0).push(i as int));
            match c.placed_mesh {
                Some(m) => {
                    steps.push((c.joint, c.local));
                    let inst = PartInstance {
                        mesh_index: m,
                        path: copy_all(path),
                        steps: copy_all(steps),
                    };
                    out.push(inst);
                    assert(instances_view(out@) =~= instances_view(before).push(inst@));
                    c.visit(path, steps, out);
                    steps.pop();
                    assert(steps@ =~= steps0);
                },
                None => {
                    c.visit(path, steps, out);
                },
            }
            path.pop();
            proof {
                let cs = self.children@.take(i + 1);
                assert(cs.drop_last() =~= self.children@.take(i as int));
                assert(cs.last() == *c);
                assert(path@ =~= path0);
            }
        }
        assert(self.children@.take(n as int) =~= self.children@);
    }

    /// The instances that one visit of this tree draws, in pre-order.
    pub fn instance_plan(&self) -> (plan: Vec<PartInstance<L>>)
        ensures
            instances_view(plan@) == tree_instances(*self),
    {
        let mut path: Vec<usize> = Vec::new();
        let mut steps: Vec<(Joint, L)> = Vec::new();
        let mut out: Vec<PartInstance<L>> = Vec::new();
        self.visit(&mut path, &mut steps, &mut out);
        assert(instances_view(Seq::<PartInstance<L>>::empty()) =~= seq![]);
        assert(ints(path@) =~= seq![]);
        assert(steps@ =~= seq![]);
        out
    }

    /// The instances that one visit of this tree draws into the meshes
    /// that are ready, in pre-order: those of the plan whose mesh `ready`
    /// marks, a mesh beyond `ready` counting as not ready. A node whose mesh
    /// is not ready still hands its transform to the nodes below it.
    pub fn ready_plan(&self, ready: &Vec<bool>) -> (plan: Vec<PartInstance<L>>)
        ensures
            instances_view(plan@) == ready_instances(tree_instances(*self), ready@),
    {
        let all = self.instance_plan();
        let ghost all_view = instances_view(all@);
        let mut plan: Vec<PartInstance<L>> = Vec::new();
        let n = all.len();
        assert(all_view.skip(0) =~= all_view);
        assert(all_view.len() == all@.len());
        let mut rest = all;
        for i in 0..n
            invariant
                n == all_view.len(),
                rest@.len() == n - i,
                instances_view(rest@) == all_view.skip(i as int),
                instances_view(plan@) == ready_instances(all_view.take(i as int), ready@),
        {
            assert(rest@.len() == n - i);
            assert(instances_view(rest@)[0] == all_view[i as int]);
            let ghost rest0 = rest@;
            let inst = rest.remove(0);
            assert(instances_view(rest@) =~= all_view.skip(i + 1)) by {
                assert(rest@ =~= rest0.remove(0));
                assert forall|j: int| 0 <= j < rest@.len() implies #[trigger] rest@[j]@
                    == all_view[i + 1 + j] by {
                    assert(rest@[j] == rest0[j + 1]);
                    assert(instances_view(rest0)[j + 1] == all_view.skip(i as int)[j + 1]);
                }
            }
            let ghost before = plan@;
            let keep = inst.mesh_index < ready.len() && ready[inst.mesh_index];
            if keep {
                plan.push(inst);
                assert(instances_view(plan@) =~= instances_view(before).push(inst@));
            }
            proof {
                let pre = all_view.take(i + 1);
                assert(pre.drop_last() =~= all_view.take(i as int));
                assert(pre.last() == inst@);
                assert(instances_view(plan@) =~= ready_instances(pre, ready@));
            }
        }
        assert(all_view.take(n as int) =~= all_view);
        plan
    }
}

} // verus!
