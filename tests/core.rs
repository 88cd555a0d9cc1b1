use implicit_octree::stage0::{sources, Op, Stage0};
use implicit_octree::stage1::{flatten, Source, Stage1};
use implicit_octree::worker::{merge, next_action, wake_peers, Action, BranchResult, Cell, CellIndex, Task, Upward, Vertex, Worker};

#[test]
fn flatten_root_absorbs() {
    let r = flatten(true, &vec![true, false], &vec![true, true]);
    assert_eq!(r, vec![Source::Root]);
}

#[test]
fn flatten_merges_both_sides() {
    let r = flatten(false, &vec![true, true, false], &vec![true, false, true]);
    assert_eq!(r, vec![Source::Left(1), Source::Right(2), Source::Both(0)]);
}

#[test]
fn flatten_pair_becomes_both() {
    assert_eq!(flatten(false, &vec![true], &vec![true]), vec![Source::Both(0)]);
}

#[test]
fn flatten_orders_left_before_both() {
    let r = flatten(false, &vec![true, true], &vec![true, false]);
    assert_eq!(r, vec![Source::Left(1), Source::Both(0)]);
}

#[test]
fn flatten_empty_set() {
    assert_eq!(flatten(false, &vec![false, false], &vec![false, false]), vec![]);
}

fn min_xy() -> Stage0 {
    // x, y, min(x, y) with choice 0
    Stage0 { ops: vec![Op::Var(0), Op::Var(1), Op::Min(0, 1, 0)], root: 2, num_choices: 1, vars: vec!["x".to_string(), "y".to_string()] }
}

#[test]
fn sources_of_min_of_half_planes() {
    let f = sources(&min_xy());
    assert_eq!(f.root, vec![false, false, true]);
    assert_eq!(f.left, vec![vec![true], vec![false], vec![false]]);
    assert_eq!(f.right, vec![vec![false], vec![true], vec![false]]);
}

#[test]
fn min_of_two_half_planes_three_groups() {
    let s = Stage1::from_stage0(&min_xy());
    assert_eq!(s.groups.len(), 3);
    assert_eq!(s.groups[s.node_group[2]].choices, vec![Source::Root]);
    assert_eq!(s.groups[s.node_group[0]].choices, vec![Source::Left(0)]);
    assert_eq!(s.groups[s.node_group[1]].choices, vec![Source::Right(0)]);
    assert_eq!(s.groups[s.node_group[1]].nodes, vec![1]);
    assert_eq!(s.ops, min_xy().ops);
    assert_eq!(s.vars, vec!["x".to_string(), "y".to_string()]);
}

#[test]
fn operand_on_both_sides_is_both() {
    // x, max(x, x) with choice 0
    let t = Stage0 { ops: vec![Op::Var(0), Op::Max(0, 0, 0)], root: 1, num_choices: 1, vars: vec!["x".to_string()] };
    let s = Stage1::from_stage0(&t);
    assert_eq!(s.groups[s.node_group[0]].choices, vec![Source::Both(0)]);
}

#[test]
fn root_reach_absorbs_choices() {
    // x, y, min(x, y), min(x, y) + x
    let t = Stage0 {
        ops: vec![Op::Var(0), Op::Var(1), Op::Min(0, 1, 0), Op::Binary(2, 0)],
        root: 3,
        num_choices: 1,
        vars: vec!["x".to_string(), "y".to_string()],
    };
    let s = Stage1::from_stage0(&t);
    assert_eq!(s.groups[s.node_group[0]].choices, vec![Source::Root]);
    assert_eq!(s.groups[s.node_group[1]].choices, vec![Source::Right(0)]);
    assert_eq!(s.node_group[0], s.node_group[3]);
    assert_eq!(s.groups.len(), 2);
}

#[test]
fn sphere_has_one_group() {
    // x^2 + y^2 + z^2 - c
    let t = Stage0 {
        ops: vec![
            Op::Var(0), Op::Var(1), Op::Var(2),
            Op::Unary(0), Op::Unary(1), Op::Unary(2),
            Op::Binary(3, 4), Op::Binary(6, 5), Op::Const(0x3e80_0000), Op::Binary(7, 8),
        ],
        root: 9,
        num_choices: 0,
        vars: vec!["x".to_string(), "y".to_string(), "z".to_string()],
    };
    let s = Stage1::from_stage0(&t);
    assert_eq!(s.groups.len(), 1);
    assert_eq!(s.groups[0].choices, vec![Source::Root]);
    assert_eq!(s.groups[0].nodes, (0..10).collect::<Vec<usize>>());
}

#[test]
fn nested_choices_carry_inner_sources() {
    // x, y, z, min(x, y) #0, max(min, z) #1, y + z
    let t = Stage0 {
        ops: vec![Op::Var(0), Op::Var(1), Op::Var(2), Op::Min(0, 1, 0), Op::Max(3, 2, 1)],
        root: 4,
        num_choices: 2,
        vars: vec!["x".to_string(), "y".to_string(), "z".to_string()],
    };
    let s = Stage1::from_stage0(&t);
    assert_eq!(s.groups[s.node_group[3]].choices, vec![Source::Left(1)]);
    assert_eq!(s.groups[s.node_group[0]].choices, vec![Source::Left(0)]);
    assert_eq!(s.groups[s.node_group[2]].choices, vec![Source::Right(1)]);
    assert_eq!(s.groups.len(), 5);
}

#[test]
fn unreached_node_has_empty_key() {
    let t = Stage0 { ops: vec![Op::Var(0), Op::Var(1)], root: 1, num_choices: 0, vars: vec!["x".to_string(), "y".to_string()] };
    let s = Stage1::from_stage0(&t);
    assert_eq!(s.groups[s.node_group[0]].choices, vec![]);
    assert_eq!(s.groups[s.node_group[1]].choices, vec![Source::Root]);
}

#[test]
fn equal_keys_share_a_group() {
    let keys = vec![vec![Source::Root], vec![Source::Both(0)], vec![Source::Root]];
    let (groups, node_group) = Stage1::group_keys(&keys);
    assert_eq!(groups.len(), 2);
    assert_eq!(node_group[0], node_group[2]);
    assert_eq!(groups[node_group[0]].nodes, vec![0, 2]);
}

#[test]
fn constant_positive_root_is_empty() {
    let mut w = Worker::new(0);
    let mut tasks = vec![];
    assert_eq!(w.seed(&mut tasks, Some(Cell::Empty)), None);
    assert_eq!(w.cells[0], Cell::Empty);
    assert!(tasks.is_empty());
}

#[test]
fn constant_negative_root_is_full() {
    let mut w = Worker::new(0);
    let mut tasks = vec![];
    assert_eq!(w.seed(&mut tasks, Some(Cell::Full)), None);
    assert_eq!(w.cells[0], Cell::Full);
}

#[test]
fn undecided_root_pushes_root_task() {
    let mut w = Worker::new(0);
    let mut tasks = vec![];
    assert_eq!(w.seed(&mut tasks, None), Some(0));
    assert_eq!(tasks, vec![Task::new()]);
    assert_eq!(w.cells, vec![Cell::Invalid; 8]);
}

#[test]
fn finished_children_fill_the_root() {
    let mut w = Worker::new(0);
    let mut tasks = vec![Task::new()];
    let (base, up) = w.run(&mut tasks, 0, &vec![Some(Cell::Full); 8]);
    assert_eq!(base, 8);
    assert_eq!(up, Upward::Root);
    assert_eq!(w.cells[0], Cell::Full);
    assert_eq!(tasks.len(), 1);
}

#[test]
fn pending_children_become_tasks() {
    let mut w = Worker::new(0);
    let mut tasks = vec![Task::new()];
    let mut children = vec![Some(Cell::Empty); 8];
    children[2] = None;
    children[5] = None;
    let (base, up) = w.run(&mut tasks, 0, &children);
    assert_eq!(up, Upward::Waiting);
    assert_eq!(tasks[1], Task::next(0, base + 2, 0));
    assert_eq!(tasks[2], Task::next(0, base + 5, 0));
    assert_eq!(tasks.len(), 3);
    // Child 2 finishes: still waiting for child 5.
    let (_, up) = w.run(&mut tasks, 1, &vec![Some(Cell::Full); 8]);
    assert_eq!(up, Upward::Waiting);
    assert_eq!(w.cells[base + 2], Cell::Full);
    // Child 5 finishes with a mixed cluster: the root becomes a branch.
    let mut mixed = vec![Some(Cell::Empty); 8];
    mixed[0] = Some(Cell::Full);
    let (b2, up) = w.run(&mut tasks, 2, &mixed);
    assert_eq!(up, Upward::Root);
    assert_eq!(w.cells[base + 5], Cell::Branch { index: b2, thread: 0 });
    assert_eq!(w.cells[0], Cell::Branch { index: base, thread: 0 });
}

#[test]
fn remote_parent_gets_a_message() {
    let mut w = Worker::new(1);
    let tasks = vec![Task::new(), Task::next(0, 8, 0)];
    let (base, up) = w.run(&mut tasks.clone(), 1, &vec![Some(Cell::Empty); 8]);
    assert_eq!(base, 0);
    assert_eq!(up, Upward::Send { thread: 0, task: 1, result: BranchResult::Empty });
}

#[test]
fn received_branch_points_at_sender() {
    let mut w = Worker::new(0);
    let tasks = vec![Task::new()];
    let up = w.on_done(&tasks, BranchResult::Branch { index: 16 }, 3, 0);
    assert_eq!(up, Upward::Root);
    assert_eq!(w.cells[0], Cell::Branch { index: 16, thread: 3 });
}

#[test]
fn writing_twice_is_a_conflict() {
    let mut w = Worker::new(0);
    let tasks = vec![Task::new()];
    assert_eq!(w.on_done(&tasks, BranchResult::Full, 0, 0), Upward::Root);
    assert_eq!(w.on_done(&tasks, BranchResult::Empty, 0, 0), Upward::Conflict);
    assert_eq!(w.record(&tasks, 0, Cell::Empty, 0), Upward::Conflict);
    assert_eq!(w.cells[0], Cell::Full);
}

#[test]
fn cluster_summary() {
    let mut w = Worker::new(2);
    let mut tasks = vec![Task::new(), Task::next(0, 3, 0)];
    w.run(&mut tasks, 1, &vec![None; 8]);
    assert_eq!(w.check_done(0), None);
    for i in 0..7 {
        assert_eq!(w.record(&tasks, i, Cell::Empty, 1), Upward::Waiting);
    }
    assert_eq!(w.check_done(0), None);
    assert_eq!(
        w.record(&tasks, 7, Cell::Empty, 1),
        Upward::Send { thread: 0, task: 1, result: BranchResult::Empty }
    );
    assert_eq!(w.check_done(0), Some(BranchResult::Empty));
}

#[test]
fn completions_come_before_tasks() {
    assert_eq!(next_action(true, true), Action::HandleDone);
    assert_eq!(next_action(false, true), Action::RunTask);
    assert_eq!(next_action(false, false), Action::Sleep);
    assert!(wake_peers(true));
    assert!(!wake_peers(false));
}

#[test]
fn merge_remaps_branches() {
    let a = vec![
        Cell::Branch { index: 8, thread: 1 }, Cell::Leaf { leaf: 1 }, Cell::Empty, Cell::Empty,
        Cell::Empty, Cell::Empty, Cell::Empty, Cell::Leaf { leaf: 0 },
    ];
    let mut b = vec![Cell::Full; 16];
    b[3] = Cell::Branch { index: 0, thread: 0 };
    b[9] = Cell::Leaf { leaf: 0 };
    let m = merge(&vec![a, b], &vec![2, 1]);
    assert_eq!(m[1], Cell::Leaf { leaf: 1 });
    assert_eq!(m[7], Cell::Leaf { leaf: 0 });
    assert_eq!(m[17], Cell::Leaf { leaf: 2 });
    assert_eq!(m.len(), 24);
    assert_eq!(m[0], Cell::Branch { index: 16, thread: 0 });
    assert_eq!(m[11], Cell::Branch { index: 0, thread: 0 });
    assert_eq!(m[8], Cell::Full);
}

#[test]
fn child_geometry() {
    let r = CellIndex::root();
    let c = r.child(8, 5);
    assert_eq!(c, CellIndex { index: 13, depth: 1, x: 1, y: 0, z: 1 });
    let g = c.child(16, 6);
    assert_eq!(g, CellIndex { index: 22, depth: 2, x: 2, y: 1, z: 3 });
}

#[test]
fn leaves_are_numbered_in_order() {
    let mut w = Worker::new(1);
    let v = Vertex { x: 0x3f00_0000, y: 0, z: 0, nx: 0x3f80_0000, ny: 0, nz: 0 };
    assert_eq!(w.record_leaf(v), Cell::Leaf { leaf: 0 });
    assert_eq!(w.record_leaf(v), Cell::Leaf { leaf: 1 });
    assert_eq!(w.leaves, vec![v, v]);
}
