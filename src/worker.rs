use vstd::prelude::*;

verus! {

/// One octree cell in a worker's cell vector.
#[derive(Copy, Clone, Debug, PartialEq, Eq, Structural)]
pub enum Cell {
    /// Placeholder, not yet written
    Invalid,
    /// Entirely outside the surface
    Empty,
    /// Entirely inside the surface
    Full,
    /// A leaf whose vertex data is entry `leaf` of the worker's leaf store
    Leaf { leaf: usize },
    /// Eight children starting at `index` in worker `thread`'s cell vector
    Branch { index: usize, thread: usize },
}

/// Summary of a completed cluster of eight sibling cells.
#[derive(Copy, Clone, Debug, PartialEq, Eq, Structural)]
pub enum BranchResult {
    /// All eight cells are `Empty`
    Empty,
    /// All eight cells are `Full`
    Full,
    /// Mixed contents; the cluster starts at `index`
    Branch { index: usize },
}

/// Vertex data of a leaf cell, as the bit patterns of its `f32` position
/// and surface normal.
#[derive(Copy, Clone, Debug, PartialEq, Eq, Structural)]
pub struct Vertex {
    pub x: u32,
    pub y: u32,
    pub z: u32,
    pub nx: u32,
    pub ny: u32,
    pub nz: u32,
}

/// A worker's share of the octree under construction.
pub struct Worker {
    /// Index of this worker among its peers
    pub thread_index: usize,
    /// Cells owned by this worker, written once each
    pub cells: Vec<Cell>,
    /// Vertex data of this worker's leaf cells
    pub leaves: Vec<Vertex>,
}

/// The summary that a cluster of eight complete cells starting at `base` gives.
pub open spec fn cluster_result(cells: Seq<Cell>, base: int) -> BranchResult {
    if forall|j: int| base <= j < base + 8 ==> cells[j] == Cell::Empty {
        BranchResult::Empty
    } else if forall|j: int| base <= j < base + 8 ==> cells[j] == Cell::Full {
        BranchResult::Full
    } else {
        BranchResult::Branch { index: base as usize }
    }
}

/// The cell that a parent takes when its cluster, built by worker `source`,
/// completes with `result`.
pub open spec fn result_cell(result: BranchResult, source: usize) -> Cell {
    match result {
        BranchResult::Empty => Cell::Empty,
        BranchResult::Full => Cell::Full,
        BranchResult::Branch { index } => Cell::Branch { index, thread: source },
    }
}

/// A unit of work: subdivide a cell whose eight children go into a new
/// cluster. Tasks are kept in a `Vec`, and `next` names the task whose
/// cluster holds `parent` (`None` for the root task).
#[derive(Copy, Clone, Debug, PartialEq, Eq, Structural)]
pub struct Task {
    /// Index of the cell to fill, in the cell vector of worker `source`
    pub parent: usize,
    /// Worker that owns the parent cell
    pub source: usize,
    /// Task whose cluster holds the parent cell
    pub next: Option<usize>,
}

impl Task {
    /// The root task: worker 0's root cell, with nothing above it.
    pub fn new() -> (r: Task)
        ensures
            r == (Task { parent: 0, source: 0, next: None }),
    {
        Task { parent: 0, source: 0, next: None }
    }

    /// A task for child cell `parent` of worker `source`, whose cluster
    /// belongs to task `of`.
    pub fn next(of: usize, parent: usize, source: usize) -> (r: Task)
        ensures
            r == (Task { parent, source, next: Some(of) }),
    {
        Task { parent, source, next: Some(of) }
    }
}

/// What became of a result travelling up the task chain.
#[derive(Copy, Clone, Debug, PartialEq, Eq, Structural)]
pub enum Upward {
    /// A cluster on the way is still incomplete
    Waiting,
    /// The completed cluster of task `task` must go to worker `thread`
    Send { thread: usize, task: usize, result: BranchResult },
    /// The root cell was written: the tree is complete
    Root,
    /// A cell to write was missing or already written, or the chain is malformed
    Conflict,
}

/// All eight cells from `base` are written.
pub open spec fn complete(cells: Seq<Cell>, base: int) -> bool {
    forall|j: int| base <= j < base + 8 ==> cells[j] != Cell::Invalid
}

/// Checks the cluster at `base` after a write, on behalf of task `task`
/// whose cluster it is: an incomplete cluster waits; a complete one goes to
/// the parent's worker, or, when that is this worker `me`, into the parent.
pub open spec fn ascend(cells: Seq<Cell>, tasks: Seq<Task>, me: usize, base: int, task: int) -> (Seq<Cell>, Upward)
    decreases task, 1int,
{
    if !(0 <= base && base + 8 <= cells.len() && base % 8 == 0 && 0 <= task < tasks.len()) {
        (cells, Upward::Conflict)
    } else if !complete(cells, base) {
        (cells, Upward::Waiting)
    } else if tasks[task].source != me {
        (cells, Upward::Send { thread: tasks[task].source, task: task as usize, result: cluster_result(cells, base) })
    } else {
        deliver(cells, tasks, me, result_cell(cluster_result(cells, base), me), task)
    }
}

/// Writes `cell` into the parent cell of task `task` and, unless that was
/// the root, goes on checking the parent's cluster for the next task up.
pub open spec fn deliver(cells: Seq<Cell>, tasks: Seq<Task>, me: usize, cell: Cell, task: int) -> (Seq<Cell>, Upward)
    decreases task, 0int,
{
    if !(0 <= task < tasks.len()) {
        (cells, Upward::Conflict)
    } else {
        let pi = tasks[task].parent as int;
        if !(pi < cells.len() && cells[pi] == Cell::Invalid) {
            (cells, Upward::Conflict)
        } else {
            let c2 = cells.update(pi, cell);
            match tasks[task].next {
                None => (c2, Upward::Root),
                Some(nx) => if 0 <= nx < task {
                    ascend(c2, tasks, me, pi - pi % 8, nx as int)
                } else {
                    (c2, Upward::Conflict)
                },
            }
        }
    }
}

/// The tasks pushed for the first `k` children: one for each child that
/// must be subdivided, in order.
pub open spec fn child_tasks(children: Seq<Option<Cell>>, base: int, me: usize, task: usize, k: int) -> Seq<Task>
    decreases k,
{
    if k <= 0 {
        seq![]
    } else {
        child_tasks(children, base, me, task, k - 1) + if children[k - 1] is None {
            seq![Task { parent: (base + k - 1) as usize, source: me, next: Some(task) }]
        } else {
            seq![]
        }
    }
}

/// A child's cell in a new cluster: its result, or `Invalid` while it is
/// being subdivided.
pub open spec fn filled(c: Option<Cell>) -> Cell {
    match c {
        Some(cell) => cell,
        None => Cell::Invalid,
    }
}

/// What a worker does next.
#[derive(Copy, Clone, Debug, PartialEq, Eq, Structural)]
pub enum Action {
    /// Handle a completion that another worker sent
    HandleDone,
    /// Pop a task and subdivide it
    RunTask,
    /// Nothing to do: sleep until woken or shut down
    Sleep,
}

/// Completions are handled before new tasks; with neither, the worker sleeps.
pub fn next_action(done_pending: bool, task_available: bool) -> (r: Action)
    ensures
        r == (if done_pending { Action::HandleDone } else if task_available { Action::RunTask } else { Action::Sleep }),
{
    if done_pending {
        Action::HandleDone
    } else if task_available {
        Action::RunTask
    } else {
        Action::Sleep
    }
}

/// After a task: wake peers when it queued new work, else release the
/// task's storage.
pub fn wake_peers(queue_changed: bool) -> (r: bool)
    ensures
        r == queue_changed,
{
    queue_changed
}

impl Worker {
    /// A worker with no cells; worker 0 also holds the root cluster, whose
    /// cell 0 is the root.
    pub fn new(thread_index: usize) -> (r: Worker)
        ensures
            r.thread_index == thread_index,
            thread_index == 0 ==> r.cells@ == seq![Cell::Invalid; 8],
            thread_index != 0 ==> r.cells@.len() == 0,
            r.leaves@.len() == 0,
    {
        let mut cells: Vec<Cell> = Vec::new();
        if thread_index == 0 {
            cells = vec![Cell::Invalid; 8];
        }
        Worker { thread_index, cells, leaves: Vec::new() }
    }

    /// Writes a cell that was still `Invalid`.
    fn store(&mut self, index: usize, cell: Cell)
        requires
            index < old(self).cells.len(),
            old(self).cells@[index as int] == Cell::Invalid,
        ensures
            final(self).cells@ == old(self).cells@.update(index as int, cell),
            final(self).thread_index == old(self).thread_index,
    {
        self.cells.set(index, cell);
    }

    /// Returns the cluster's summary iff all eight cells from `base` are written.
    pub fn check_done(&self, base: usize) -> (r: Option<BranchResult>)
        requires
            base % 8 == 0,
            base + 8 <= self.cells.len(),
        ensures
            r.is_some() <==> (forall|j: int| base <= j < base + 8 ==> self.cells@[j] != Cell::Invalid),
            r.is_some() ==> r == Some(cluster_result(self.cells@, base as int)),
    {
        let mut all_empty = true;
        let mut all_full = true;
        let mut i: usize = 0;
        while i < 8
            invariant
                i <= 8,
                base + 8 <= self.cells.len(),
                forall|j: int| base <= j < base + i ==> self.cells@[j] != Cell::Invalid,
                all_empty == (forall|j: int| base <= j < base + i ==> self.cells@[j] == Cell::Empty),
                all_full == (forall|j: int| base <= j < base + i ==> self.cells@[j] == Cell::Full),
            decreases 8 - i,
        {
            let c = self.cells[base + i];
            if c == Cell::Invalid {
                return None;
            }
            if c != Cell::Empty {
                all_empty = false;
            }
            if c != Cell::Full {
                all_full = false;
            }
            i = i + 1;
        }
        if all_empty {
            Some(BranchResult::Empty)
        } else if all_full {
            Some(BranchResult::Full)
        } else {
            Some(BranchResult::Branch { index: base })
        }
    }

    /// Stores a leaf's vertex data and returns the `Leaf` cell naming it.
    pub fn record_leaf(&mut self, v: Vertex) -> (r: Cell)
        ensures
            final(self).leaves@ == old(self).leaves@.push(v),
            final(self).cells@ == old(self).cells@,
            final(self).thread_index == old(self).thread_index,
            r == (Cell::Leaf { leaf: old(self).leaves.len() }),
    {
        let n = self.leaves.len();
        self.leaves.push(v);
        Cell::Leaf { leaf: n }
    }

    /// Seeds the build from the root's evaluation: a finished root (`Some`)
    /// is written into cell 0 and ends the build; otherwise the root task is
    /// pushed and its index returned.
    pub fn seed(&mut self, tasks: &mut Vec<Task>, root: Option<Cell>) -> (r: Option<usize>)
        requires
            old(self).cells.len() >= 1,
            old(self).cells@[0] == Cell::Invalid,
        ensures
            final(self).thread_index == old(self).thread_index,
            match root {
                Some(c) => r is None && final(self).cells@ == old(self).cells@.update(0, c)
                    && final(tasks)@ == old(tasks)@,
                None => r == Some(old(tasks).len()) && final(self).cells@ == old(self).cells@
                    && final(tasks)@ == old(tasks)@.push(Task { parent: 0, source: 0, next: None }),
            },
    {
        match root {
            Some(c) => {
                self.store(0, c);
                None
            },
            None => {
                let i = tasks.len();
                tasks.push(Task::new());
                Some(i)
            },
        }
    }

    /// Writes `cell` into the parent of task `task` and keeps going up the
    /// chain while the parents live in this worker.
    fn deliver_up(&mut self, tasks: &Vec<Task>, first: Cell, from: usize) -> (r: Upward)
        ensures
            final(self).thread_index == old(self).thread_index,
            (final(self).cells@, r) == deliver(old(self).cells@, tasks@, old(self).thread_index, first, from as int),
    {
        let mut cell = first;
        let mut task = from;
        loop
            invariant
                self.thread_index == old(self).thread_index,
                deliver(self.cells@, tasks@, self.thread_index, cell, task as int)
                    == deliver(old(self).cells@, tasks@, old(self).thread_index, first, from as int),
            decreases task,
        {
            if task >= tasks.len() {
                return Upward::Conflict;
            }
            let t = tasks[task];
            let pi = t.parent;
            if pi >= self.cells.len() || self.cells[pi] != Cell::Invalid {
                return Upward::Conflict;
            }
            self.store(pi, cell);
            match t.next {
                None => {
                    return Upward::Root;
                },
                Some(nx) => {
                    if nx >= task {
                        return Upward::Conflict;
                    }
                    let base = pi - pi % 8;
                    if self.cells.len() < 8 || base > self.cells.len() - 8 {
                        return Upward::Conflict;
                    }
                    let tn = tasks[nx];
                    match self.check_done(base) {
                        None => {
                            return Upward::Waiting;
                        },
                        Some(r) => {
                            if tn.source != self.thread_index {
                                return Upward::Send { thread: tn.source, task: nx, result: r };
                            }
                            cell = match r {
                                BranchResult::Empty => Cell::Empty,
                                BranchResult::Full => Cell::Full,
                                BranchResult::Branch { index } => Cell::Branch { index, thread: self.thread_index },
                            };
                            task = nx;
                        },
                    }
                },
            }
        }
    }

    /// Writes child `index` of task `task`'s cluster, then checks that
    /// cluster and carries a completed one up the chain: into parents held
    /// here, until a cluster is incomplete, the root is written, or the
    /// result must go to another worker.
    pub fn record(&mut self, tasks: &Vec<Task>, index: usize, cell: Cell, task: usize) -> (r: Upward)
        ensures
            final(self).thread_index == old(self).thread_index,
            (final(self).cells@, r) == (if index < old(self).cells.len() && old(self).cells@[index as int] == Cell::Invalid {
                ascend(old(self).cells@.update(index as int, cell), tasks@, old(self).thread_index,
                    index - index % 8, task as int)
            } else {
                (old(self).cells@, Upward::Conflict)
            }),
    {
        if index >= self.cells.len() || self.cells[index] != Cell::Invalid {
            return Upward::Conflict;
        }
        self.store(index, cell);
        self.climb(tasks, index - index % 8, task)
    }

    fn climb(&mut self, tasks: &Vec<Task>, base: usize, task: usize) -> (r: Upward)
        ensures
            final(self).thread_index == old(self).thread_index,
            (final(self).cells@, r) == ascend(old(self).cells@, tasks@, old(self).thread_index, base as int, task as int),
    {
        if task >= tasks.len() || base % 8 != 0 || self.cells.len() < 8 || base > self.cells.len() - 8 {
            return Upward::Conflict;
        }
        match self.check_done(base) {
            None => Upward::Waiting,
            Some(r) => {
                let t = tasks[task];
                if t.source != self.thread_index {
                    return Upward::Send { thread: t.source, task, result: r };
                }
                let c = match r {
                    BranchResult::Empty => Cell::Empty,
                    BranchResult::Full => Cell::Full,
                    BranchResult::Branch { index } => Cell::Branch { index, thread: self.thread_index },
                };
                self.deliver_up(tasks, c, task)
            },
        }
    }

    /// Handles a completed cluster that worker `source` sent for task
    /// `task`: writes the summary into the task's parent cell and keeps
    /// going up the chain.
    pub fn on_done(&mut self, tasks: &Vec<Task>, result: BranchResult, source: usize, task: usize) -> (r: Upward)
        ensures
            final(self).thread_index == old(self).thread_index,
            (final(self).cells@, r) == deliver(old(self).cells@, tasks@, old(self).thread_index,
                result_cell(result, source), task as int),
    {
        let c = match result {
            BranchResult::Empty => Cell::Empty,
            BranchResult::Full => Cell::Full,
            BranchResult::Branch { index } => Cell::Branch { index, thread: source },
        };
        self.deliver_up(tasks, c, task)
    }

    /// Runs popped task `task`: appends a cluster of eight cells at `base`,
    /// writes each child that is finished (`Some`), pushes a new task for
    /// each child to subdivide (`None`), and carries the cluster up the
    /// chain if it is complete. Returns `base` and what became of the cluster.
    pub fn run(&mut self, tasks: &mut Vec<Task>, task: usize, children: &Vec<Option<Cell>>) -> (r: (usize, Upward))
        requires
            children.len() == 8,
            old(self).cells.len() + 8 <= usize::MAX,
        ensures
            r.0 == old(self).cells.len(),
            final(self).thread_index == old(self).thread_index,
            (final(self).cells@, r.1) == ascend(old(self).cells@ + children@.map_values(|c: Option<Cell>| filled(c)),
                old(tasks)@, old(self).thread_index, r.0 as int, task as int),
            final(tasks)@ == old(tasks)@ + child_tasks(children@, r.0 as int, old(self).thread_index, task, 8),
    {
        let base = self.cells.len();
        let mut k: usize = 0;
        while k < 8
            invariant
                k <= 8,
                children.len() == 8,
                base == old(self).cells.len(),
                self.thread_index == old(self).thread_index,
                self.cells@ == old(self).cells@ + children@.subrange(0, k as int).map_values(|c: Option<Cell>| filled(c)),
            decreases 8 - k,
        {
            self.cells.push(match children[k] {
                Some(c) => c,
                None => Cell::Invalid,
            });
            assert(children@.subrange(0, k + 1).map_values(|c: Option<Cell>| filled(c))
                =~= children@.subrange(0, k as int).map_values(|c: Option<Cell>| filled(c)).push(filled(children@[k as int])));
            k = k + 1;
        }
        assert(children@.subrange(0, 8) =~= children@);
        let up = self.climb(tasks, base, task);
        let ghost t0 = tasks@;
        let mut i: usize = 0;
        while i < 8
            invariant
                i <= 8,
                children.len() == 8,
                base + 8 <= usize::MAX,
                tasks@ == t0 + child_tasks(children@, base as int, self.thread_index, task, i as int),
            decreases 8 - i,
        {
            if children[i].is_none() {
                tasks.push(Task::next(task, base + i, self.thread_index));
            }
            assert(tasks@ =~= t0 + child_tasks(children@, base as int, self.thread_index, task, i + 1));
            i = i + 1;
        }
        (base, up)
    }
}

/// Only `Invalid` cells change, and each `Branch` they receive names a
/// cluster base (a multiple of 8).
pub open spec fn writes_once(before: Seq<Cell>, after: Seq<Cell>) -> bool {
    &&& after.len() == before.len()
    &&& forall|j: int| 0 <= j < before.len() && #[trigger] after[j] != before[j] ==>
        before[j] == Cell::Invalid && branch_aligned(after[j])
}

/// A `Branch` cell points at a multiple of 8.
pub open spec fn branch_aligned(c: Cell) -> bool {
    match c {
        Cell::Branch { index, thread } => index % 8 == 0,
        _ => true,
    }
}

/// A `Send` outcome carries a summary whose `Branch` names a cluster base.
pub open spec fn send_aligned(u: Upward) -> bool {
    match u {
        Upward::Send { thread, task, result } => match result {
            BranchResult::Branch { index } => index % 8 == 0,
            _ => true,
        },
        _ => true,
    }
}

/// Single write and branch soundness: carrying a cluster up the chain writes
/// each cell at most once, only where it was `Invalid`, and every branch it
/// writes or sends points at a cluster base.
pub proof fn lemma_ascend_writes_once(cells: Seq<Cell>, tasks: Seq<Task>, me: usize, base: int, task: int)
    requires
        cells.len() <= usize::MAX,
    ensures
        writes_once(cells, ascend(cells, tasks, me, base, task).0),
        send_aligned(ascend(cells, tasks, me, base, task).1),
    decreases task, 1int,
{
    if 0 <= base && base + 8 <= cells.len() {
        assert((base as usize) as int == base);
    }
    if 0 <= base && base + 8 <= cells.len() && base % 8 == 0 && 0 <= task < tasks.len()
        && complete(cells, base) && tasks[task].source == me {
        assert((base as usize) as int == base);
        lemma_deliver_writes_once(cells, tasks, me, result_cell(cluster_result(cells, base), me), task);
    }
}

/// The same for writing a summary into a task's parent and going on up,
/// given a cell whose branch, if any, names a cluster base.
pub proof fn lemma_deliver_writes_once(cells: Seq<Cell>, tasks: Seq<Task>, me: usize, cell: Cell, task: int)
    requires
        cells.len() <= usize::MAX,
        branch_aligned(cell),
    ensures
        writes_once(cells, deliver(cells, tasks, me, cell, task).0),
        send_aligned(deliver(cells, tasks, me, cell, task).1),
    decreases task, 0int,
{
    if 0 <= task < tasks.len() {
        let pi = tasks[task].parent as int;
        if pi < cells.len() && cells[pi] == Cell::Invalid {
            let c2 = cells.update(pi, cell);
            match tasks[task].next {
                Some(nx) => {
                    if 0 <= nx < task {
                        lemma_ascend_writes_once(c2, tasks, me, pi - pi % 8, nx as int);
                        let fin = ascend(c2, tasks, me, pi - pi % 8, nx as int).0;
                        assert forall|j: int| 0 <= j < cells.len() && #[trigger] fin[j] != cells[j] implies
                            cells[j] == Cell::Invalid && branch_aligned(fin[j]) by {
                            if fin[j] == c2[j] {
                                assert(j == pi);
                            }
                        }
                    }
                },
                None => {},
            }
        }
    }
}

/// Where worker `t`'s cells start once the parts are laid end to end.
pub open spec fn offset(lens: Seq<int>, t: int) -> int
    decreases t,
{
    if t <= 0 || t > lens.len() {
        0
    } else {
        offset(lens, t - 1) + lens[t - 1]
    }
}

/// The lengths of the workers' cell vectors.
pub open spec fn part_lens(parts: Seq<Vec<Cell>>) -> Seq<int> {
    parts.map_values(|v: Vec<Cell>| v@.len() as int)
}

/// The leaf counts, as integers.
pub open spec fn leaf_lens(counts: Seq<usize>) -> Seq<int> {
    counts.map_values(|n: usize| n as int)
}

/// A cell after merging: a branch into worker `thread` is moved by that
/// worker's offset and points into the merged vector (worker 0); a leaf is
/// moved by `leaf_base`, where its worker's leaves start.
pub open spec fn remap(c: Cell, lens: Seq<int>, leaf_base: int) -> Cell {
    match c {
        Cell::Leaf { leaf } => Cell::Leaf { leaf: (leaf + leaf_base) as usize },
        Cell::Branch { index, thread } => if thread < lens.len() {
            Cell::Branch { index: (index + offset(lens, thread as int)) as usize, thread: 0 }
        } else {
            c
        },
        _ => c,
    }
}

proof fn lemma_offset_grows(lens: Seq<int>, a: int, b: int)
    requires
        0 <= a <= b <= lens.len(),
        forall|i: int| 0 <= i < lens.len() ==> lens[i] >= 0,
    ensures
        offset(lens, a) <= offset(lens, b),
    decreases b - a,
{
    if a < b {
        lemma_offset_grows(lens, a, b - 1);
    }
}

/// Merges the workers' cell vectors into one: worker `t`'s cells follow
/// those of the workers before it, and every branch is remapped.
pub fn merge(parts: &Vec<Vec<Cell>>, leaf_counts: &Vec<usize>) -> (r: Vec<Cell>)
    requires
        leaf_counts.len() == parts.len(),
        offset(part_lens(parts@), parts.len() as int) <= usize::MAX,
        offset(leaf_lens(leaf_counts@), parts.len() as int) <= usize::MAX,
        forall|t: int, j: int| 0 <= t < parts.len() && 0 <= j < parts@[t].len() ==>
            match #[trigger] parts@[t]@[j] {
                Cell::Branch { index, thread } => thread < parts.len() ==>
                    index + offset(part_lens(parts@), thread as int) <= usize::MAX,
                Cell::Leaf { leaf } => leaf + offset(leaf_lens(leaf_counts@), t) <= usize::MAX,
                _ => true,
            },
    ensures
        r@.len() == offset(part_lens(parts@), parts.len() as int),
        forall|t: int, j: int| 0 <= t < parts.len() && 0 <= j < parts@[t].len() ==>
            r@[offset(part_lens(parts@), t) + j] == remap(#[trigger] parts@[t]@[j], part_lens(parts@),
                offset(leaf_lens(leaf_counts@), t)),
{
    let ghost lens = part_lens(parts@);
    let ghost llens = leaf_lens(leaf_counts@);
    let mut loffs: Vec<usize> = Vec::new();
    let mut ltotal: usize = 0;
    let mut t: usize = 0;
    while t < leaf_counts.len()
        invariant
            t <= leaf_counts.len(),
            llens == leaf_lens(leaf_counts@),
            offset(llens, leaf_counts.len() as int) <= usize::MAX,
            loffs.len() == t,
            ltotal == offset(llens, t as int),
            forall|i: int| 0 <= i < t ==> loffs@[i] == offset(llens, i),
        decreases leaf_counts.len() - t,
    {
        proof {
            lemma_offset_grows(llens, t + 1, leaf_counts.len() as int);
        }
        loffs.push(ltotal);
        ltotal = ltotal + leaf_counts[t];
        t = t + 1;
    }
    let mut offs: Vec<usize> = Vec::new();
    let mut total: usize = 0;
    let mut t: usize = 0;
    while t < parts.len()
        invariant
            t <= parts.len(),
            lens == part_lens(parts@),
            offset(lens, parts.len() as int) <= usize::MAX,
            offs.len() == t,
            total == offset(lens, t as int),
            forall|i: int| 0 <= i < t ==> offs@[i] == offset(lens, i),
        decreases parts.len() - t,
    {
        proof {
            lemma_offset_grows(lens, t + 1, parts.len() as int);
        }
        offs.push(total);
        total = total + parts[t].len();
        t = t + 1;
    }
    let mut out: Vec<Cell> = Vec::new();
    let mut t: usize = 0;
    while t < parts.len()
        invariant
            t <= parts.len(),
            lens == part_lens(parts@),
            offs.len() == parts.len(),
            forall|i: int| 0 <= i < parts.len() ==> offs@[i] == offset(lens, i),
            llens == leaf_lens(leaf_counts@),
            leaf_counts.len() == parts.len(),
            loffs.len() == parts.len(),
            forall|i: int| 0 <= i < parts.len() ==> loffs@[i] == offset(llens, i),
            out@.len() == offset(lens, t as int),
            forall|u: int, j: int| 0 <= u < t && 0 <= j < parts@[u].len() ==>
                out@[offset(lens, u) + j] == remap(#[trigger] parts@[u]@[j], lens, offset(llens, u)),
            forall|u: int, j: int| 0 <= u < parts.len() && 0 <= j < parts@[u].len() ==>
                match #[trigger] parts@[u]@[j] {
                    Cell::Branch { index, thread } => thread < parts.len() ==>
                        index + offset(lens, thread as int) <= usize::MAX,
                    Cell::Leaf { leaf } => leaf + offset(llens, u) <= usize::MAX,
                    _ => true,
                },
        decreases parts.len() - t,
    {
        let part = &parts[t];
        let ghost start = out@.len() as int;
        let mut j: usize = 0;
        while j < part.len()
            invariant
                t < parts.len(),
                part == &parts@[t as int],
                lens == part_lens(parts@),
                offs.len() == parts.len(),
                forall|i: int| 0 <= i < parts.len() ==> offs@[i] == offset(lens, i),
                start == offset(lens, t as int),
                j <= part.len(),
                out@.len() == start + j,
                llens == leaf_lens(leaf_counts@),
                loffs.len() == parts.len(),
                forall|i: int| 0 <= i < parts.len() ==> loffs@[i] == offset(llens, i),
                forall|u: int, k: int| 0 <= u < t && 0 <= k < parts@[u].len() ==>
                    out@[offset(lens, u) + k] == remap(#[trigger] parts@[u]@[k], lens, offset(llens, u)),
                forall|k: int| 0 <= k < j ==> out@[start + k] == remap(#[trigger] part@[k], lens, offset(llens, t as int)),
                forall|u: int, k: int| 0 <= u < parts.len() && 0 <= k < parts@[u].len() ==>
                    match #[trigger] parts@[u]@[k] {
                        Cell::Branch { index, thread } => thread < parts.len() ==>
                            index + offset(lens, thread as int) <= usize::MAX,
                        Cell::Leaf { leaf } => leaf + offset(llens, u) <= usize::MAX,
                        _ => true,
                    },
            decreases part.len() - j,
        {
            let c = part[j];
            let m = match c {
                Cell::Branch { index, thread } => if thread < offs.len() {
                    Cell::Branch { index: index + offs[thread], thread: 0 }
                } else {
                    c
                },
                Cell::Leaf { leaf } => Cell::Leaf { leaf: leaf + loffs[t] },
                _ => c,
            };
            proof {
                assert(parts@[t as int]@[j as int] == c);
                assert forall|u: int, k: int| 0 <= u < t && 0 <= k < parts@[u].len() implies
                    out@.push(m)[offset(lens, u) + k] == remap(#[trigger] parts@[u]@[k], lens, offset(llens, u)) by {
                    lemma_offset_grows(lens, u + 1, t as int);
                }
            }
            out.push(m);
            j = j + 1;
        }
        proof {
            assert(lens[t as int] == parts@[t as int]@.len());
        }
        t = t + 1;
    }
    out
}

proof fn lemma_offset_aligned(lens: Seq<int>, t: int)
    requires
        forall|i: int| 0 <= i < lens.len() ==> #[trigger] lens[i] % 8 == 0,
    ensures
        offset(lens, t) % 8 == 0,
    decreases t,
{
    if 0 < t <= lens.len() {
        lemma_offset_aligned(lens, t - 1);
        assert(lens[t - 1] % 8 == 0);
    }
}

/// Branch soundness after merging: when every worker's cell vector is made
/// of whole clusters, a branch that names a cluster base still names one
/// once it is remapped into the merged vector.
pub proof fn lemma_merge_keeps_bases(lens: Seq<int>, c: Cell, leaf_base: int)
    requires
        forall|i: int| 0 <= i < lens.len() ==> #[trigger] lens[i] % 8 == 0 && lens[i] >= 0,
        branch_aligned(c),
        match c {
            Cell::Branch { index, thread } => thread < lens.len() ==>
                index + offset(lens, thread as int) <= usize::MAX,
            _ => true,
        },
    ensures
        branch_aligned(remap(c, lens, leaf_base)),
{
    match c {
        Cell::Branch { index, thread } => {
            if thread < lens.len() {
                lemma_offset_aligned(lens, thread as int);
                lemma_offset_grows(lens, 0, thread as int);
                assert(((index + offset(lens, thread as int)) as usize) as int == index + offset(lens, thread as int));
            }
        },
        _ => {},
    }
}

/// A cell's place in the tree: its index in the cell vector, its depth, and
/// its position on the `2^depth` lattice of that depth along each axis.
#[derive(Copy, Clone, Debug, PartialEq, Eq, Structural)]
pub struct CellIndex {
    pub index: usize,
    pub depth: u32,
    pub x: u64,
    pub y: u64,
    pub z: u64,
}

impl CellIndex {
    /// The root cell: index 0, depth 0, the whole box.
    pub fn root() -> (r: CellIndex)
        ensures
            r == (CellIndex { index: 0, depth: 0, x: 0, y: 0, z: 0 }),
    {
        CellIndex { index: 0, depth: 0, x: 0, y: 0, z: 0 }
    }

    /// Child `i` of this cell, stored at `base + i`: bit 0 of `i` picks the
    /// upper half along x, bit 1 along y, bit 2 along z.
    pub fn child(&self, base: usize, i: usize) -> (r: CellIndex)
        requires
            i < 8,
            base + i <= usize::MAX,
            self.depth < u32::MAX,
            self.x < 0x8000_0000_0000_0000,
            self.y < 0x8000_0000_0000_0000,
            self.z < 0x8000_0000_0000_0000,
        ensures
            r.index == base + i,
            r.depth == self.depth + 1,
            r.x == 2 * self.x + i % 2,
            r.y == 2 * self.y + (i / 2) % 2,
            r.z == 2 * self.z + (i / 4) % 2,
    {
        CellIndex {
            index: base + i,
            depth: self.depth + 1,
            x: 2 * self.x + (i % 2) as u64,
            y: 2 * self.y + ((i / 2) % 2) as u64,
            z: 2 * self.z + ((i / 4) % 2) as u64,
        }
    }
}

} // verus!
