use unit_render::part_tree::{Joint, PartTree};

/// A node whose local data is a number naming it.
fn node(name: u32, mesh: Option<usize>, joint: Joint, children: Vec<PartTree<u32>>) -> PartTree<u32> {
    PartTree { children, placed_mesh: mesh, joint, local: name }
}

fn plan_of(tree: &PartTree<u32>) -> Vec<(usize, Vec<usize>, Vec<(Joint, u32)>)> {
    tree.instance_plan().into_iter().map(|i| (i.mesh_index, i.path, i.steps)).collect()
}

fn records(plan: Vec<(usize, Vec<usize>, Vec<(Joint, u32)>)>) -> Vec<(usize, Vec<(Joint, u32)>)> {
    plan.into_iter().map(|(m, _, s)| (m, s)).collect()
}

fn sample() -> PartTree<u32> {
    node(
        0,
        None,
        Joint::Fix,
        vec![
            node(
                1,
                Some(0),
                Joint::Fix,
                vec![node(2, None, Joint::Fix, vec![node(3, Some(2), Joint::Wheel0, vec![])])],
            ),
            node(4, None, Joint::Fix, vec![node(5, Some(1), Joint::AimWeapon0, vec![])]),
        ],
    )
}

#[test]
fn root_alone_draws_nothing() {
    let tree = node(0, Some(3), Joint::Fix, vec![]);
    assert!(tree.instance_plan().is_empty());
}

#[test]
fn preorder_with_steps_skipping_meshless_nodes() {
    assert_eq!(
        plan_of(&sample()),
        vec![
            (0, vec![0], vec![(Joint::Fix, 1)]),
            (2, vec![0, 0, 0], vec![(Joint::Fix, 1), (Joint::Wheel0, 3)]),
            (1, vec![1, 0], vec![(Joint::AimWeapon0, 5)]),
        ]
    );
}

#[test]
fn every_mesh_node_once_and_last_step_is_its_own() {
    let tree = node(
        0,
        None,
        Joint::Fix,
        vec![
            node(1, Some(4), Joint::Fix, vec![node(2, Some(4), Joint::Fix, vec![]), node(3, Some(5), Joint::Fix, vec![])]),
            node(4, Some(6), Joint::Wheel0, vec![]),
        ],
    );
    let plan = plan_of(&tree);
    assert_eq!(plan.len(), 4);
    assert_eq!(plan.iter().filter(|i| i.0 == 4).count(), 2);
    assert_eq!(
        plan,
        vec![
            (4, vec![0], vec![(Joint::Fix, 1)]),
            (4, vec![0, 0], vec![(Joint::Fix, 1), (Joint::Fix, 2)]),
            (5, vec![0, 1], vec![(Joint::Fix, 1), (Joint::Fix, 3)]),
            (6, vec![1], vec![(Joint::Wheel0, 4)]),
        ]
    );
}

#[test]
fn splicing_a_meshless_node_keeps_the_records() {
    // Node 2 carries no mesh; put node 3 straight under node 1.
    let spliced = node(
        0,
        None,
        Joint::Fix,
        vec![
            node(1, Some(0), Joint::Fix, vec![node(3, Some(2), Joint::Wheel0, vec![])]),
            node(4, None, Joint::Fix, vec![node(5, Some(1), Joint::AimWeapon0, vec![])]),
        ],
    );
    assert_eq!(records(plan_of(&sample())), records(plan_of(&spliced)));
    assert_ne!(plan_of(&sample()), plan_of(&spliced));
}

#[test]
fn unready_mesh_loses_only_its_own_instance() {
    let ready = vec![true, true, true];
    let all: Vec<_> = sample().ready_plan(&ready).into_iter().map(|i| (i.mesh_index, i.path, i.steps)).collect();
    assert_eq!(all, plan_of(&sample()));
    // Node 1 now places mesh 7, beyond the ready list.
    let mut changed = sample();
    changed.children[0].placed_mesh = Some(7);
    let fewer: Vec<_> = changed.ready_plan(&ready).into_iter().map(|i| (i.mesh_index, i.path, i.steps)).collect();
    assert_eq!(
        fewer,
        vec![
            (2, vec![0, 0, 0], vec![(Joint::Fix, 1), (Joint::Wheel0, 3)]),
            (1, vec![1, 0], vec![(Joint::AimWeapon0, 5)]),
        ]
    );
}

#[test]
fn ready_plan_skips_meshes_marked_not_ready() {
    let plan: Vec<usize> = sample().ready_plan(&vec![true, false, true]).into_iter().map(|i| i.mesh_index).collect();
    assert_eq!(plan, vec![0, 2]);
    assert!(sample().ready_plan(&vec![]).is_empty());
}

#[test]
fn steps_come_only_from_mesh_nodes_on_the_path() {
    // Node 2 has a wheel joint but no mesh: no step of any instance is a wheel step.
    let tree = node(
        0,
        None,
        Joint::Fix,
        vec![node(1, Some(0), Joint::Fix, vec![node(2, None, Joint::Wheel0, vec![node(3, Some(1), Joint::Fix, vec![])])])],
    );
    for (_, _, steps) in plan_of(&tree) {
        assert!(steps.iter().all(|(j, _)| *j == Joint::Fix));
    }
    assert_eq!(plan_of(&tree)[1].2, vec![(Joint::Fix, 1), (Joint::Fix, 3)]);
}
