use vstd::prelude::*;
use crate::stage0::{Op, Stage0, reaches, sources};

verus! {

/// A condition under which a node is reached from the root.
#[derive(Copy, Clone, Debug, PartialEq, Eq, Structural)]
pub enum Source {
    /// Reached from the root without any choice in the way
    Root,
    /// Reached if the choice picks its left operand
    Left(usize),
    /// Reached if the choice picks its right operand
    Right(usize),
    /// Reached whichever operand the choice picks
    Both(usize),
}

/// Nodes enabled by the same normalized list of sources.
pub struct Group {
    /// Normalized key shared by the group's nodes
    pub choices: Vec<Source>,
    /// Indices of the nodes in the group
    pub nodes: Vec<usize>,
}

/// Per-node group assignment and the groups themselves.
pub struct Stage1 {
    /// Operations of the expression, as in the graph it was built from
    pub ops: Vec<Op>,
    /// Groups, in order of first appearance
    pub groups: Vec<Group>,
    /// Index into `groups` for each node
    pub node_group: Vec<usize>,
    /// Root node of the expression
    pub root: usize,
    /// Number of min / max choices in the expression
    pub num_choices: usize,
    /// Variable names, as in the graph it was built from
    pub vars: Vec<String>,
}

/// Position of a source's kind in the key order.
pub open spec fn kind(s: Source) -> int {
    match s {
        Source::Root => 0,
        Source::Left(_) => 1,
        Source::Right(_) => 2,
        Source::Both(_) => 3,
    }
}

/// The choice index a source names (zero for `Root`).
pub open spec fn choice_of(s: Source) -> int {
    match s {
        Source::Root => 0,
        Source::Left(c) => c as int,
        Source::Right(c) => c as int,
        Source::Both(c) => c as int,
    }
}

/// Key order: by kind (`Root`, `Left`, `Right`, `Both`), then by choice index.
pub open spec fn source_lt(a: Source, b: Source) -> bool {
    kind(a) < kind(b) || (kind(a) == kind(b) && choice_of(a) < choice_of(b))
}

/// A key is strictly increasing in key order, so sorted and free of repeats.
pub open spec fn strictly_sorted(k: Seq<Source>) -> bool {
    forall|i: int, j: int| 0 <= i < j < k.len() ==> source_lt(#[trigger] k[i], #[trigger] k[j])
}

/// Whether `s` belongs to the normalized key of a node whose raw source set
/// holds `Root` iff `root`, `Left(c)` iff `left[c]` and `Right(c)` iff `right[c]`.
pub open spec fn in_key(root: bool, left: Seq<bool>, right: Seq<bool>, s: Source) -> bool {
    if root {
        s == Source::Root
    } else {
        match s {
            Source::Root => false,
            Source::Left(c) => c < left.len() && left[c as int] && !right[c as int],
            Source::Right(c) => c < left.len() && right[c as int] && !left[c as int],
            Source::Both(c) => c < left.len() && left[c as int] && right[c as int],
        }
    }
}

/// Converts a raw source set into its normalized key: `[Root]` when the root
/// reaches the node, otherwise the one-sided choices followed by `Both(c)`
/// for each choice reached on both sides.
pub fn flatten(root: bool, left: &Vec<bool>, right: &Vec<bool>) -> (r: Vec<Source>)
    requires
        left.len() == right.len(),
    ensures
        forall|s: Source| r@.contains(s) <==> in_key(root, left@, right@, s),
        root ==> r@ == seq![Source::Root],
        strictly_sorted(r@),
{
    if root {
        return vec![Source::Root];
    }
    let mut out: Vec<Source> = Vec::new();
    let n = left.len();
    let mut pass: usize = 0;
    while pass < 3
        invariant
            pass <= 3,
            n == left.len(),
            n == right.len(),
            !root,
            strictly_sorted(out@),
            forall|k: int| 0 <= k < out.len() ==> 1 <= kind(#[trigger] out@[k]) <= pass,
            forall|k: int| 0 <= k < out.len() ==> in_key(root, left@, right@, #[trigger] out@[k]),
            forall|c: usize| c < n && pass >= 1 && left@[c as int] && !right@[c as int]
                ==> out@.contains(Source::Left(c)),
            forall|c: usize| c < n && pass >= 2 && right@[c as int] && !left@[c as int]
                ==> out@.contains(Source::Right(c)),
            forall|c: usize| c < n && pass >= 3 && left@[c as int] && right@[c as int]
                ==> out@.contains(Source::Both(c)),
        decreases 3 - pass,
    {
        let mut c: usize = 0;
        while c < n
            invariant
                pass < 3,
                c <= n,
                n == left.len(),
                n == right.len(),
                !root,
                strictly_sorted(out@),
                forall|k: int| 0 <= k < out.len() ==> 1 <= kind(#[trigger] out@[k]) <= pass
                    || (kind(out@[k]) == pass + 1 && choice_of(out@[k]) < c),
                forall|k: int| 0 <= k < out.len() ==> in_key(root, left@, right@, #[trigger] out@[k]),
                forall|d: usize| d < n && pass >= 1 && left@[d as int] && !right@[d as int]
                    ==> out@.contains(Source::Left(d)),
                forall|d: usize| d < n && pass >= 2 && right@[d as int] && !left@[d as int]
                    ==> out@.contains(Source::Right(d)),
                forall|d: usize| d < n && (pass == 0 && d < c) && left@[d as int] && !right@[d as int]
                    ==> out@.contains(Source::Left(d)),
                forall|d: usize| d < n && (pass == 1 && d < c) && right@[d as int] && !left@[d as int]
                    ==> out@.contains(Source::Right(d)),
                forall|d: usize| d < n && (pass == 2 && d < c) && left@[d as int] && right@[d as int]
                    ==> out@.contains(Source::Both(d)),
            decreases n - c,
        {
            let l = left[c];
            let rt = right[c];
            let ghost before = out@;
            if pass == 0 && l && !rt {
                out.push(Source::Left(c));
            } else if pass == 1 && rt && !l {
                out.push(Source::Right(c));
            } else if pass == 2 && l && rt {
                out.push(Source::Both(c));
            }
            assert forall|x: Source| before.contains(x) implies out@.contains(x) by {
                let k = choose|k: int| 0 <= k < before.len() && before[k] == x;
                assert(out@[k] == x);
            }
            assert(out@.contains(Source::Left(c)) || !(pass == 0 && l && !rt)) by {
                if pass == 0 && l && !rt { assert(out@[out.len() - 1] == Source::Left(c)); }
            }
            assert(out@.contains(Source::Right(c)) || !(pass == 1 && rt && !l)) by {
                if pass == 1 && rt && !l { assert(out@[out.len() - 1] == Source::Right(c)); }
            }
            assert(out@.contains(Source::Both(c)) || !(pass == 2 && l && rt)) by {
                if pass == 2 && l && rt { assert(out@[out.len() - 1] == Source::Both(c)); }
            }
            c = c + 1;
        }
        pass = pass + 1;
    }
    assert forall|s: Source| in_key(root, left@, right@, s) implies out@.contains(s) by {
        match s {
            Source::Left(c) => {},
            Source::Right(c) => {},
            Source::Both(c) => {},
            Source::Root => {},
        }
    }
    out
}

/// Some node before `n` is assigned to group `g`.
pub open spec fn has_member(node_group: Seq<usize>, n: int, g: int) -> bool {
    exists|m: int| 0 <= m < n && node_group[m] == g
}

fn same_key(a: &Vec<Source>, b: &Vec<Source>) -> (r: bool)
    ensures
        r == (a@ == b@),
{
    if a.len() != b.len() {
        return false;
    }
    let mut i: usize = 0;
    while i < a.len()
        invariant
            i <= a.len(),
            a.len() == b.len(),
            forall|j: int| 0 <= j < i ==> a@[j] == b@[j],
        decreases a.len() - i,
    {
        if a[i] != b[i] {
            return false;
        }
        i = i + 1;
    }
    assert(a@ =~= b@);
    true
}

impl Stage1 {
    /// Groups nodes by equal key: node `n` joins the group whose `choices`
    /// equal `keys[n]`, and no two groups share a key. Returns the groups and
    /// each node's group index.
    pub fn group_keys(keys: &Vec<Vec<Source>>) -> (r: (Vec<Group>, Vec<usize>))
        ensures
            r.1.len() == keys.len(),
            forall|n: int| 0 <= n < keys.len() ==> (#[trigger] r.1@[n]) < r.0.len(),
            forall|n: int| 0 <= n < keys.len() ==>
                r.0@[#[trigger] r.1@[n] as int].choices@ == keys@[n]@,
            forall|g: int, h: int| 0 <= g < r.0.len() && 0 <= h < r.0.len() && g != h
                ==> (#[trigger] r.0@[g]).choices@ != (#[trigger] r.0@[h]).choices@,
            forall|g: int, m: usize| 0 <= g < r.0.len() ==>
                (#[trigger] r.0@[g].nodes@.contains(m) <==> m < keys.len() && r.1@[m as int] == g),
            forall|g: int| 0 <= g < r.0.len() ==>
                (#[trigger] r.0@[g]).nodes@.no_duplicates() && r.0@[g].nodes@.len() >= 1,
            r.0.len() <= keys.len(),
    {
        let mut gkeys: Vec<Vec<Source>> = Vec::new();
        let mut node_group: Vec<usize> = Vec::new();
        let mut n: usize = 0;
        while n < keys.len()
            invariant
                n <= keys.len(),
                node_group.len() == n,
                gkeys.len() <= n,
                forall|g: int| 0 <= g < gkeys.len() ==> #[trigger] has_member(node_group@, n as int, g),
                forall|m: int| 0 <= m < n ==> (#[trigger] node_group@[m]) < gkeys.len(),
                forall|m: int| 0 <= m < n ==>
                    gkeys@[#[trigger] node_group@[m] as int]@ == keys@[m]@,
                forall|g: int, h: int| 0 <= g < gkeys.len() && 0 <= h < gkeys.len() && g != h
                    ==> (#[trigger] gkeys@[g])@ != (#[trigger] gkeys@[h])@,
            decreases keys.len() - n,
        {
            let ghost old_ng = node_group@;
            let mut g: usize = 0;
            let mut found = false;
            while g < gkeys.len() && !found
                invariant
                    g <= gkeys.len(),
                    n < keys.len(),
                    found ==> g < gkeys.len() && gkeys@[g as int]@ == keys@[n as int]@,
                    forall|h: int| 0 <= h < g && (!found || h != g) ==>
                        (#[trigger] gkeys@[h])@ != keys@[n as int]@,
                decreases gkeys.len() - g + (if found { 0int } else { 1int }),
            {
                if same_key(&gkeys[g], &keys[n]) {
                    found = true;
                } else {
                    g = g + 1;
                }
            }
            if !found {
                gkeys.push(keys[n].clone());
                assert(gkeys@[g as int]@ == keys@[n as int]@);
            }
            node_group.push(g);
            assert forall|h: int| 0 <= h < gkeys.len() implies
                #[trigger] has_member(node_group@, n + 1, h) by {
                if h == g {
                    assert(node_group@[n as int] == h);
                } else {
                    assert(has_member(old_ng, n as int, h));
                    let m = choose|m: int| 0 <= m < n && old_ng[m] == h;
                    assert(node_group@[m] == h);
                }
            }
            n = n + 1;
        }
        let mut groups: Vec<Group> = Vec::new();
        let mut g: usize = 0;
        while g < gkeys.len()
            invariant
                g <= gkeys.len(),
                groups.len() == g,
                forall|h: int| 0 <= h < gkeys.len() ==>
                    #[trigger] has_member(node_group@, node_group.len() as int, h),
                forall|h: int| 0 <= h < g ==> (#[trigger] groups@[h]).choices@ == gkeys@[h]@,
                forall|h: int| 0 <= h < g ==>
                    (#[trigger] groups@[h]).nodes@.no_duplicates() && groups@[h].nodes@.len() >= 1,
                forall|h: int, x: usize| 0 <= h < g ==> (#[trigger] groups@[h].nodes@.contains(x)
                    <==> x < node_group.len() && node_group@[x as int] == h),
            decreases gkeys.len() - g,
        {
            let mut nodes: Vec<usize> = Vec::new();
            let mut m: usize = 0;
            while m < node_group.len()
                invariant
                    m <= node_group.len(),
                    g < gkeys.len(),
                    forall|i: int, j: int| 0 <= i < j < nodes.len() ==> nodes@[i] < nodes@[j],
                    forall|i: int| 0 <= i < nodes.len() ==> nodes@[i] < m,
                    forall|x: usize| nodes@.contains(x) <==> x < m && node_group@[x as int] == g,
                decreases node_group.len() - m,
            {
                let ghost before = nodes@;
                if node_group[m] == g {
                    nodes.push(m);
                    assert(nodes@[nodes.len() - 1] == m);
                }
                assert forall|x: usize| nodes@.contains(x) <==> x < m + 1 && node_group@[x as int] == g by {
                    if before.contains(x) {
                        let k = choose|k: int| 0 <= k < before.len() && before[k] == x;
                        assert(nodes@[k] == x);
                    }
                    if nodes@.contains(x) && x != m {
                        let k = choose|k: int| 0 <= k < nodes.len() && nodes@[k] == x;
                        if k < before.len() { assert(before[k] == x); }
                    }
                }
                m = m + 1;
            }
            proof {
                assert(has_member(node_group@, node_group.len() as int, g as int));
                let w = choose|w: int| 0 <= w < node_group.len() && node_group@[w] == g;
                assert(nodes@.contains(w as usize));
                assert forall|i: int, j: int| 0 <= i < nodes.len() && 0 <= j < nodes.len() && i != j
                    implies nodes@[i] != nodes@[j] by {
                    if i < j { assert(nodes@[i] < nodes@[j]); } else { assert(nodes@[j] < nodes@[i]); }
                }
            }
            groups.push(Group { choices: gkeys[g].clone(), nodes });
            g = g + 1;
        }
        (groups, node_group)
    }
}

/// Whether `s` belongs to the normalized key of node `n`: `Root` alone when
/// the root reaches it, else `Left(c)` / `Right(c)` when only that side of
/// choice `c` reaches it, and `Both(c)` when both do.
pub open spec fn key_has(t: Stage0, n: int, s: Source) -> bool {
    if reaches(t, n, Source::Root) {
        s == Source::Root
    } else {
        match s {
            Source::Root => false,
            Source::Left(c) => reaches(t, n, Source::Left(c)) && !reaches(t, n, Source::Right(c)),
            Source::Right(c) => reaches(t, n, Source::Right(c)) && !reaches(t, n, Source::Left(c)),
            Source::Both(c) => reaches(t, n, Source::Left(c)) && reaches(t, n, Source::Right(c)),
        }
    }
}

impl Stage1 {
    /// Builds the groups of an expression graph: each node's key is its
    /// normalized source set, and nodes with equal keys share a group.
    pub fn from_stage0(t: &Stage0) -> (r: Stage1)
        requires
            t.wf(),
        ensures
            r.ops@ == t.ops@,
            r.root == t.root,
            r.num_choices == t.num_choices,
            r.vars.len() == t.vars.len(),
            forall|i: int| 0 <= i < t.vars.len() ==> (#[trigger] r.vars@[i])@ == t.vars@[i]@,
            r.node_group.len() == t.ops.len(),
            forall|n: int| 0 <= n < t.ops.len() ==> (#[trigger] r.node_group@[n]) < r.groups.len(),
            forall|n: int, s: Source| 0 <= n < t.ops.len() ==>
                (#[trigger] r.groups@[r.node_group@[n] as int].choices@.contains(s) <==> key_has(*t, n, s)),
            forall|n: int| 0 <= n < t.ops.len() ==>
                strictly_sorted(r.groups@[#[trigger] r.node_group@[n] as int].choices@),
            forall|g: int, h: int| 0 <= g < r.groups.len() && 0 <= h < r.groups.len() && g != h
                ==> (#[trigger] r.groups@[g]).choices@ != (#[trigger] r.groups@[h]).choices@,
            forall|g: int, m: usize| 0 <= g < r.groups.len() ==>
                (#[trigger] r.groups@[g].nodes@.contains(m) <==> m < t.ops.len() && r.node_group@[m as int] == g),
            forall|g: int| 0 <= g < r.groups.len() ==>
                (#[trigger] r.groups@[g]).nodes@.no_duplicates() && r.groups@[g].nodes@.len() >= 1,
            r.groups.len() <= t.ops.len(),
            r.groups@[r.node_group@[t.root as int] as int].choices@ == seq![Source::Root],
    {
        let f = sources(t);
        let mut keys: Vec<Vec<Source>> = Vec::new();
        let mut ops: Vec<Op> = Vec::new();
        let mut n: usize = 0;
        while n < t.ops.len()
            invariant
                n <= t.ops.len(),
                t.wf(),
                f.shaped(t.ops.len() as int, t.num_choices as int),
                forall|m: int, s: Source| 0 <= m < t.ops.len() ==> #[trigger] f.holds(m, s) == reaches(*t, m, s),
                keys.len() == n,
                ops@ == t.ops@.subrange(0, n as int),
                forall|m: int, s: Source| 0 <= m < n ==> (#[trigger] keys@[m]@.contains(s) <==> key_has(*t, m, s)),
                forall|m: int| 0 <= m < n ==> strictly_sorted(#[trigger] keys@[m]@),
                t.root < n ==> keys@[t.root as int]@ == seq![Source::Root],
            decreases t.ops.len() - n,
        {
            let k = flatten(f.root[n], &f.left[n], &f.right[n]);
            assert forall|s: Source| #[trigger] k@.contains(s) <==> key_has(*t, n as int, s) by {
                assert(f.holds(n as int, Source::Root) == reaches(*t, n as int, Source::Root));
                match s {
                    Source::Left(c) | Source::Right(c) | Source::Both(c) => {
                        assert(f.holds(n as int, Source::Left(c)) == reaches(*t, n as int, Source::Left(c)));
                        assert(f.holds(n as int, Source::Right(c)) == reaches(*t, n as int, Source::Right(c)));
                    },
                    _ => {},
                }
            }
            if n == t.root {
                assert(f.holds(n as int, Source::Root) == reaches(*t, n as int, Source::Root));
            }
            keys.push(k);
            ops.push(t.ops[n]);
            n = n + 1;
        }
        assert(ops@ =~= t.ops@);
        let (groups, node_group) = Stage1::group_keys(&keys);
        assert forall|n: int, s: Source| 0 <= n < t.ops.len() implies
            (#[trigger] groups@[node_group@[n] as int].choices@.contains(s) <==> key_has(*t, n, s)) by {
            assert(groups@[node_group@[n] as int].choices@ == keys@[n]@);
        }
        assert forall|n: int| 0 <= n < t.ops.len() implies
            strictly_sorted(groups@[#[trigger] node_group@[n] as int].choices@) by {
            assert(strictly_sorted(keys@[n]@));
        }
        let mut vars: Vec<String> = Vec::new();
        let mut i: usize = 0;
        while i < t.vars.len()
            invariant
                i <= t.vars.len(),
                vars.len() == i,
                forall|j: int| 0 <= j < i ==> (#[trigger] vars@[j])@ == t.vars@[j]@,
            decreases t.vars.len() - i,
        {
            vars.push(t.vars[i].clone());
            i = i + 1;
        }
        Stage1 { ops, groups, node_group, root: t.root, num_choices: t.num_choices, vars }
    }
}

} // verus!
