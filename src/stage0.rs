use vstd::prelude::*;
use crate::stage1::Source;

verus! {

/// One operation of an expression graph; operands are node indices.
#[derive(Copy, Clone, Debug, PartialEq, Eq, Structural)]
pub enum Op {
    /// A constant, held as the bit pattern of its `f32` value
    Const(u32),
    /// A variable, by index
    Var(usize),
    /// A unary operation (negation, square root, sine, ...) on one operand
    Unary(usize),
    /// A binary arithmetic operation on two operands
    Binary(usize, usize),
    /// `min(a, b)`, with its choice index
    Min(usize, usize, usize),
    /// `max(a, b)`, with its choice index
    Max(usize, usize, usize),
}

/// An expression graph: operations, the root, the number of choices, and
/// the variable names.
pub struct Stage0 {
    /// Operations; each operand index is below the index of its user
    pub ops: Vec<Op>,
    /// Root node of the expression
    pub root: usize,
    /// Number of min / max choices
    pub num_choices: usize,
    /// Variable names; `Var(i)` names `vars[i]`
    pub vars: Vec<String>,
}

/// Operands of node `p` come before it, and choice indices are in range.
pub open spec fn op_wf(op: Op, p: int, num_choices: int) -> bool {
    match op {
        Op::Const(_) | Op::Var(_) => true,
        Op::Unary(a) => a < p,
        Op::Binary(a, b) => a < p && b < p,
        Op::Min(a, b, c) | Op::Max(a, b, c) => a < p && b < p && c < num_choices,
    }
}

impl Stage0 {
    /// Well-formed: the root is a node, and every node's operands precede it
    /// (the graph is stored in topological order, so it has no cycles).
    pub open spec fn wf(&self) -> bool {
        &&& self.root < self.ops.len()
        &&& forall|p: int| 0 <= p < self.ops.len() ==>
            op_wf(#[trigger] self.ops@[p], p, self.num_choices as int)
    }
}

/// Whether node `n` is an operand of `op`.
pub open spec fn is_operand(op: Op, n: int) -> bool {
    match op {
        Op::Unary(a) => a == n,
        Op::Binary(a, b) | Op::Min(a, b, _) | Op::Max(a, b, _) => a == n || b == n,
        _ => false,
    }
}

/// Node `n` is reachable from the root along operand edges.
pub open spec fn live(t: Stage0, n: int) -> bool
    decreases t.ops.len() - n, 0int,
{
    n == t.root || (0 <= n < t.ops.len() && live_from(t, n, n + 1))
}

/// Some reachable node at index `p` or above (and above `n`) uses `n`.
pub open spec fn live_from(t: Stage0, n: int, p: int) -> bool
    decreases t.ops.len() - p, 1int,
{
    if 0 <= n < p < t.ops.len() {
        (is_operand(t.ops@[p], n) && live(t, p)) || live_from(t, n, p + 1)
    } else if 0 <= p < t.ops.len() {
        live_from(t, n, p + 1)
    } else {
        false
    }
}

/// Node `p` hands source `s` to its operand `n`: a reachable `min` / `max`
/// hands `Left(c)` to its first operand and `Right(c)` to its second; any
/// other node hands on each source that reaches it.
pub open spec fn hands(t: Stage0, p: int, n: int, s: Source) -> bool
    decreases t.ops.len() - p, 2int,
{
    if 0 <= n < p < t.ops.len() {
        match t.ops@[p] {
            Op::Min(a, b, c) | Op::Max(a, b, c) =>
                ((a == n && s == Source::Left(c)) || (b == n && s == Source::Right(c))) && live(t, p),
            Op::Unary(a) => a == n && reaches(t, p, s),
            Op::Binary(a, b) => (a == n || b == n) && reaches(t, p, s),
            _ => false,
        }
    } else {
        false
    }
}

/// Source `s` reaches node `n`: the root is reached as `Root`, and each node
/// is reached by what the nodes that use it hand down.
pub open spec fn reaches(t: Stage0, n: int, s: Source) -> bool
    decreases t.ops.len() - n, 0int,
{
    (n == t.root && s == Source::Root) || (0 <= n < t.ops.len() && reached_from(t, n, s, n + 1))
}

/// Some node at index `p` or above hands `s` to `n`.
pub open spec fn reached_from(t: Stage0, n: int, s: Source, p: int) -> bool
    decreases t.ops.len() - p, 3int,
{
    if 0 <= n < p < t.ops.len() {
        hands(t, p, n, s) || reached_from(t, n, s, p + 1)
    } else if 0 <= p < t.ops.len() {
        reached_from(t, n, s, p + 1)
    } else {
        false
    }
}

/// Raw source sets, one per node: whether `Root` reaches it, and per choice
/// whether `Left(c)` and `Right(c)` do.
pub struct Sources {
    pub root: Vec<bool>,
    pub left: Vec<Vec<bool>>,
    pub right: Vec<Vec<bool>>,
}

impl Sources {
    /// Whether the set of node `n` holds `s`.
    pub open spec fn holds(&self, n: int, s: Source) -> bool {
        match s {
            Source::Root => self.root@[n],
            Source::Left(c) => c < self.left@[n].len() && self.left@[n]@[c as int],
            Source::Right(c) => c < self.right@[n].len() && self.right@[n]@[c as int],
            Source::Both(_) => false,
        }
    }

    /// One entry per node, each row holding one flag per choice.
    pub open spec fn shaped(&self, len: int, num_choices: int) -> bool {
        &&& self.root.len() == len
        &&& self.left.len() == len
        &&& self.right.len() == len
        &&& forall|n: int| 0 <= n < len ==> (#[trigger] self.left@[n]).len() == num_choices
        &&& forall|n: int| 0 <= n < len ==> (#[trigger] self.right@[n]).len() == num_choices
    }
}

fn merged(dst: &Vec<bool>, src: &Vec<bool>) -> (r: Vec<bool>)
    requires
        dst.len() == src.len(),
    ensures
        r.len() == dst.len(),
        forall|i: int| 0 <= i < r.len() ==> r@[i] == (dst@[i] || src@[i]),
{
    let mut r: Vec<bool> = Vec::new();
    let mut i: usize = 0;
    while i < dst.len()
        invariant
            i <= dst.len(),
            dst.len() == src.len(),
            r.len() == i,
            forall|j: int| 0 <= j < i ==> r@[j] == (dst@[j] || src@[j]),
        decreases dst.len() - i,
    {
        r.push(dst[i] || src[i]);
        i = i + 1;
    }
    r
}

fn with_flag(dst: &Vec<bool>, c: usize) -> (r: Vec<bool>)
    ensures
        r.len() == dst.len(),
        forall|i: int| 0 <= i < r.len() ==> r@[i] == (dst@[i] || i == c),
{
    let mut r: Vec<bool> = Vec::new();
    let mut i: usize = 0;
    while i < dst.len()
        invariant
            i <= dst.len(),
            r.len() == i,
            forall|j: int| 0 <= j < i ==> r@[j] == (dst@[j] || j == c),
        decreases dst.len() - i,
    {
        r.push(dst[i] || i == c);
        i = i + 1;
    }
    r
}

fn any_set(row: &Vec<bool>) -> (r: bool)
    ensures
        r == (exists|i: int| 0 <= i < row.len() && row@[i]),
{
    let mut i: usize = 0;
    while i < row.len()
        invariant
            i <= row.len(),
            forall|j: int| 0 <= j < i ==> !row@[j],
        decreases row.len() - i,
    {
        if row[i] {
            return true;
        }
        i = i + 1;
    }
    false
}

/// Adds every source of node `q` to node `a`.
fn pass_down(f: &mut Sources, q: usize, a: usize, Ghost(nc): Ghost<int>)
    requires
        a < q < old(f).root.len(),
        old(f).shaped(old(f).root.len() as int, nc),
    ensures
        final(f).shaped(old(f).root.len() as int, nc),
        forall|n: int, s: Source| 0 <= n < old(f).root.len() && n != a ==>
            #[trigger] final(f).holds(n, s) == old(f).holds(n, s),
        forall|s: Source| #[trigger] final(f).holds(a as int, s) == (old(f).holds(a as int, s) || old(f).holds(q as int, s)),
{
    let r = f.root[a] || f.root[q];
    f.root.set(a, r);
    let l = merged(&f.left[a], &f.left[q]);
    f.left.set(a, l);
    let rr = merged(&f.right[a], &f.right[q]);
    f.right.set(a, rr);
}

/// Marks `Left(c)` (or `Right(c)` when `right_side`) as reaching node `a`.
fn mark(f: &mut Sources, a: usize, c: usize, right_side: bool, Ghost(nc): Ghost<int>)
    requires
        a < old(f).root.len(),
        c < nc,
        old(f).shaped(old(f).root.len() as int, nc),
    ensures
        final(f).shaped(old(f).root.len() as int, nc),
        forall|n: int, s: Source| 0 <= n < old(f).root.len() && n != a ==>
            #[trigger] final(f).holds(n, s) == old(f).holds(n, s),
        forall|s: Source| #[trigger] final(f).holds(a as int, s) == (old(f).holds(a as int, s)
            || s == (if right_side { Source::Right(c) } else { Source::Left(c) })),
{
    if right_side {
        let r = with_flag(&f.right[a], c);
        f.right.set(a, r);
    } else {
        let l = with_flag(&f.left[a], c);
        f.left.set(a, l);
    }
}

/// What the flags of node `n` hold once every node from `p` up has passed
/// its sources down.
pub open spec fn swept(t: Stage0, n: int, s: Source, p: int) -> bool {
    if n < p {
        (n == t.root && s == Source::Root) || reached_from(t, n, s, p)
    } else {
        reaches(t, n, s)
    }
}

/// Whether node `n` is marked reachable once every node from `p` up has
/// passed reachability down.
pub open spec fn swept_live(t: Stage0, n: int, p: int) -> bool {
    if n < p {
        n == t.root || live_from(t, n, p)
    } else {
        live(t, n)
    }
}

/// Computes, for every node, the set of sources that reach it.
pub fn sources(t: &Stage0) -> (r: Sources)
    requires
        t.wf(),
    ensures
        r.shaped(t.ops.len() as int, t.num_choices as int),
        forall|n: int, s: Source| 0 <= n < t.ops.len() ==> #[trigger] r.holds(n, s) == reaches(*t, n, s),
{
    let len = t.ops.len();
    let nc = t.num_choices;
    let mut f = Sources { root: Vec::new(), left: Vec::new(), right: Vec::new() };
    let mut lv: Vec<bool> = Vec::new();
    let mut i: usize = 0;
    while i < len
        invariant
            i <= len,
            len == t.ops.len(),
            nc == t.num_choices,
            t.wf(),
            f.shaped(i as int, nc as int),
            lv.len() == i,
            forall|n: int| 0 <= n < i ==> f.root@[n] == (n == t.root),
            forall|n: int| 0 <= n < i ==> lv@[n] == (n == t.root),
            forall|n: int, c: int| 0 <= n < i && 0 <= c < nc ==> !f.left@[n]@[c] && !f.right@[n]@[c],
        decreases len - i,
    {
        f.root.push(i == t.root);
        lv.push(i == t.root);
        f.left.push(vec![false; nc]);
        f.right.push(vec![false; nc]);
        i = i + 1;
    }
    assert forall|n: int, s: Source| 0 <= n < len implies
        #[trigger] f.holds(n, s) == swept(*t, n, s, len as int) by {
        assert(!reached_from(*t, n, s, len as int));
        match s {
            Source::Left(c) => { if c < nc { assert(!f.left@[n]@[c as int]); } },
            Source::Right(c) => { if c < nc { assert(!f.right@[n]@[c as int]); } },
            _ => {},
        }
    }
    assert forall|n: int| 0 <= n < len implies #[trigger] lv@[n] == swept_live(*t, n, len as int) by {
        assert(!live_from(*t, n, len as int));
    }
    let mut p: usize = len;
    while p > 0
        invariant
            p <= len,
            len == t.ops.len(),
            nc == t.num_choices,
            t.wf(),
            f.shaped(len as int, nc as int),
            lv.len() == len,
            forall|n: int, s: Source| 0 <= n < len ==> #[trigger] f.holds(n, s) == swept(*t, n, s, p as int),
            forall|n: int| 0 <= n < len ==> #[trigger] lv@[n] == swept_live(*t, n, p as int),
        decreases p,
    {
        let q = p - 1;
        let ghost before = f;
        let ghost lv0 = lv@;
        assert(op_wf(t.ops@[q as int], q as int, nc as int));
        assert(lv0[q as int] == swept_live(*t, q as int, p as int));
        assert forall|s: Source| #[trigger] before.holds(q as int, s) == reaches(*t, q as int, s) by {
            assert(before.holds(q as int, s) == swept(*t, q as int, s, p as int));
        }
        let here = lv[q];
        match t.ops[q] {
            Op::Unary(a) => {
                pass_down(&mut f, q, a, Ghost(nc as int));
                if here { lv.set(a, true); }
            },
            Op::Binary(a, b) => {
                pass_down(&mut f, q, a, Ghost(nc as int));
                pass_down(&mut f, q, b, Ghost(nc as int));
                if here { lv.set(a, true); lv.set(b, true); }
            },
            Op::Min(a, b, c) | Op::Max(a, b, c) => {
                if here {
                    mark(&mut f, a, c, false, Ghost(nc as int));
                    mark(&mut f, b, c, true, Ghost(nc as int));
                    lv.set(a, true);
                    lv.set(b, true);
                }
            },
            _ => {},
        }
        assert(live(*t, q as int) == lv0[q as int]);
        assert forall|n: int| 0 <= n < len implies #[trigger] lv@[n] == swept_live(*t, n, q as int) by {
            assert(lv0[n] == swept_live(*t, n, p as int));
            if n < q {
                assert(live_from(*t, n, q as int) == ((is_operand(t.ops@[q as int], n) && live(*t, q as int))
                    || live_from(*t, n, p as int)));
            }
        }
        assert forall|n: int, s: Source| 0 <= n < len implies
            #[trigger] f.holds(n, s) == swept(*t, n, s, q as int) by {
            assert(before.holds(n, s) == swept(*t, n, s, p as int));
            if n < q {
                assert(reached_from(*t, n, s, q as int) == (hands(*t, q as int, n, s)
                    || reached_from(*t, n, s, p as int)));
            }
        }
        p = q;
    }
    f
}

/// A node that is not a choice node.
pub open spec fn passes_on(op: Op) -> bool {
    match op {
        Op::Unary(_) | Op::Binary(_, _) => true,
        _ => false,
    }
}

proof fn lemma_handed_from(t: Stage0, m: int, s: Source, p: int, q: int)
    requires
        0 <= m < p <= q < t.ops.len(),
        hands(t, q, m, s),
    ensures
        reached_from(t, m, s, p),
    decreases q - p,
{
    if p < q {
        lemma_handed_from(t, m, s, p + 1, q);
    }
}

/// Every source that reaches a node which is not a choice node also
/// reaches each of its operands.
pub proof fn lemma_operand_keeps_sources(t: Stage0, q: int, m: int, s: Source)
    requires
        t.wf(),
        0 <= q < t.ops.len(),
        passes_on(t.ops@[q]),
        is_operand(t.ops@[q], m),
        reaches(t, q, s),
    ensures
        reaches(t, m, s),
{
    assert(op_wf(t.ops@[q], q, t.num_choices as int));
    assert(hands(t, q, m, s));
    lemma_handed_from(t, m, s, m + 1, q);
}

/// Monotonicity: along a path of operand edges that passes through no
/// choice node, each source reaching the first node reaches the last.
pub proof fn lemma_path_keeps_sources(t: Stage0, path: Seq<int>, s: Source)
    requires
        t.wf(),
        path.len() >= 1,
        forall|i: int| 0 <= i < path.len() ==> 0 <= #[trigger] path[i] < t.ops.len(),
        forall|i: int| 0 <= i < path.len() - 1 ==>
            passes_on(t.ops@[#[trigger] path[i]]) && is_operand(t.ops@[path[i]], path[i + 1]),
        reaches(t, path[0], s),
    ensures
        reaches(t, path.last(), s),
    decreases path.len(),
{
    if path.len() > 1 {
        let init = path.drop_last();
        assert forall|i: int| 0 <= i < init.len() - 1 implies
            passes_on(t.ops@[#[trigger] init[i]]) && is_operand(t.ops@[init[i]], init[i + 1]) by {
            assert(init[i] == path[i] && init[i + 1] == path[i + 1]);
        }
        lemma_path_keeps_sources(t, init, s);
        let k = path.len() - 2;
        assert(passes_on(t.ops@[path[k]]) && is_operand(t.ops@[path[k]], path[k + 1]));
        lemma_operand_keeps_sources(t, path[k], path[k + 1], s);
    }
}

} // verus!
