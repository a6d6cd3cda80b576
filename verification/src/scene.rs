//! The order a glTF scene's nodes are visited in. The walk keeps a stack,
//! as trimesh's does: the scene's roots are pushed in order, the top is
//! popped, and a node's children are pushed after it is visited, so the
//! last root and the last child come first. A node reached again through
//! the same parent is skipped, which also ends the walk of a cyclic file.
//! Meshes come out in this order, and which random sample lands where
//! depends on it.
use vstd::prelude::*;

verus! {

/// A visit: the node's parent on the way there (none for a root), and the
/// node.
pub type Visit = (Option<usize>, usize);

/// Where the walk stands: what is still on the stack, and the visits made,
/// in order.
pub struct Walk {
    pub stack: Seq<Visit>,
    pub seen: Seq<Visit>,
}

/// The visits a node's children are pushed as.
pub open spec fn child_visits(parent: usize, children: Seq<usize>) -> Seq<Visit> {
    children.map_values(|c: usize| (Some(parent), c))
}

/// One step: pop the top; skip it if it was made before, else record it
/// and push its node's children.
pub open spec fn step(children: Seq<Seq<usize>>, w: Walk) -> Walk {
    let top = w.stack.last();
    let rest = w.stack.drop_last();
    if w.seen.contains(top) {
        Walk { stack: rest, seen: w.seen }
    } else {
        Walk { stack: rest + child_visits(top.1, children[top.1 as int]), seen: w.seen.push(top) }
    }
}

/// The walk after at most `fuel` steps.
pub open spec fn run(children: Seq<Seq<usize>>, w: Walk, fuel: nat) -> Walk
    decreases fuel,
{
    if fuel == 0 || w.stack.len() == 0 {
        w
    } else {
        run(children, step(children, w), (fuel - 1) as nat)
    }
}

/// The walk before any step: the roots on the stack, in order.
pub open spec fn start(roots: Seq<usize>) -> Walk {
    Walk { stack: roots.map_values(|r: usize| (None::<usize>, r)), seen: seq![] }
}

/// `out` is the whole walk from `roots`: some number of steps empties the
/// stack, having made exactly these visits.
pub open spec fn walked(children: Seq<Seq<usize>>, roots: Seq<usize>, out: Seq<Visit>) -> bool {
    exists|fuel: nat|
        #![trigger run(children, start(roots), fuel)]
        run(children, start(roots), fuel).stack.len() == 0 && run(children, start(roots), fuel).seen
            == out
}

/// Every node index names a node of the scene.
pub open spec fn nodes_valid(children: Seq<Seq<usize>>, roots: Seq<usize>) -> bool {
    &&& forall|i: int| 0 <= i < roots.len() ==> (#[trigger] roots[i]) < children.len()
    &&& forall|i: int, j: int|
        0 <= i < children.len() && 0 <= j < children[i].len() ==> (#[trigger] children[i][j])
            < children.len()
}

/// A visit of a node of a scene of `n` nodes.
pub open spec fn visit_valid(v: Visit, n: nat) -> bool {
    v.1 < n && match v.0 {
        Some(p) => p < n,
        None => true,
    }
}

/// A number for each visit of a scene of `n` nodes, all below `(n + 1) * n`.
pub open spec fn visit_code(v: Visit, n: nat) -> int {
    (match v.0 {
        Some(p) => p + 1,
        None => 0,
    }) * n + v.1
}

proof fn lemma_run_step(children: Seq<Seq<usize>>, w: Walk, fuel: nat)
    requires
        run(children, w, fuel).stack.len() > 0,
    ensures
        run(children, w, fuel + 1) == step(children, run(children, w, fuel)),
    decreases fuel,
{
    if w.stack.len() > 0 {
        assert(run(children, w, fuel + 1) == run(children, step(children, w), fuel));
        if fuel == 0 {
            assert(run(children, step(children, w), 0) == step(children, w));
        } else {
            assert(run(children, w, fuel) == run(children, step(children, w), (fuel - 1) as nat));
            lemma_run_step(children, step(children, w), (fuel - 1) as nat);
            assert(((fuel - 1) as nat) + 1 == fuel);
        }
    }
}

proof fn lemma_code_range(v: Visit, n: nat)
    requires
        visit_valid(v, n),
    ensures
        0 <= visit_code(v, n) < (n + 1) * n,
{
    let q: int = match v.0 {
        Some(p) => p + 1,
        None => 0,
    };
    assert(0 <= q * n + v.1 < (n + 1) * n) by (nonlinear_arith)
        requires
            0 <= q <= n,
            0 <= v.1 < n,
    ;
}

proof fn lemma_code_injective(a: Visit, b: Visit, n: nat)
    requires
        visit_valid(a, n),
        visit_valid(b, n),
        visit_code(a, n) == visit_code(b, n),
    ensures
        a == b,
{
    let qa: int = match a.0 {
        Some(p) => p + 1,
        None => 0,
    };
    let qb: int = match b.0 {
        Some(p) => p + 1,
        None => 0,
    };
    let c = visit_code(a, n);
    vstd::arithmetic::div_mod::lemma_fundamental_div_mod_converse(c, n as int, qa, a.1 as int);
    vstd::arithmetic::div_mod::lemma_fundamental_div_mod_converse(c, n as int, qb, b.1 as int);
}

/// A walk of a scene of `n` nodes makes at most `(n + 1) * n` visits.
proof fn lemma_seen_bounded(seen: Seq<Visit>, n: nat)
    requires
        seen.no_duplicates(),
        forall|i: int| 0 <= i < seen.len() ==> visit_valid(#[trigger] seen[i], n),
    ensures
        seen.len() <= (n + 1) * n,
{
    let codes = seen.map_values(|v: Visit| visit_code(v, n));
    assert forall|i: int, j: int| 0 <= i < j < codes.len() implies codes[i] != codes[j] by {
        if codes[i] == codes[j] {
            lemma_code_injective(seen[i], seen[j], n);
        }
    }
    assert(codes.no_duplicates());
    codes.unique_seq_to_set();
    let range = vstd::set_lib::set_int_range(0, ((n + 1) * n) as int);
    vstd::set_lib::lemma_int_range(0, ((n + 1) * n) as int);
    assert forall|c: int| codes.to_set().contains(c) implies range.contains(c) by {
        let i = choose|i: int| 0 <= i < codes.len() && codes[i] == c;
        lemma_code_range(seen[i], n);
    }
    vstd::set_lib::lemma_len_subset(codes.to_set(), range);
}

fn already_seen(seen: &Vec<Visit>, v: Visit) -> (res: bool)
    ensures
        res == seen@.contains(v),
{
    let mut i: usize = 0;
    while i < seen.len()
        invariant
            i <= seen@.len(),
            forall|j: int| 0 <= j < i ==> seen@[j] != v,
        decreases seen.len() - i,
    {
        if seen[i].0 == v.0 && seen[i].1 == v.1 {
            assert(seen@[i as int] == v);
            return true;
        }
        i += 1;
    }
    false
}

/// The order the nodes of a scene are visited in, from its `roots`, each
/// node's children given by `children`.
pub fn walk_order(roots: &[usize], children: &Vec<Vec<usize>>) -> (res: Vec<Visit>)
    requires
        nodes_valid(children@.map_values(|c: Vec<usize>| c@), roots@),
    ensures
        walked(children@.map_values(|c: Vec<usize>| c@), roots@, res@),
{
    let ghost kids = children@.map_values(|c: Vec<usize>| c@);
    let ghost n = children@.len();
    let mut stack: Vec<Visit> = Vec::new();
    let mut k: usize = 0;
    while k < roots.len()
        invariant
            k <= roots@.len(),
            stack@ == roots@.take(k as int).map_values(|r: usize| (None::<usize>, r)),
        decreases roots.len() - k,
    {
        stack.push((None, roots[k]));
        assert(roots@.take(k + 1).map_values(|r: usize| (None::<usize>, r)) =~= roots@.take(
            k as int,
        ).map_values(|r: usize| (None::<usize>, r)).push((None, roots@[k as int])));
        k += 1;
    }
    assert(roots@.take(roots@.len() as int) =~= roots@);
    let mut seen: Vec<Visit> = Vec::new();
    let ghost mut fuel: nat = 0;
    assert(stack@ =~= start(roots@).stack);
    assert(seen@ =~= start(roots@).seen);
    while stack.len() > 0
        invariant
            kids == children@.map_values(|c: Vec<usize>| c@),
            n == children@.len(),
            nodes_valid(kids, roots@),
            run(kids, start(roots@), fuel) == (Walk { stack: stack@, seen: seen@ }),
            seen@.no_duplicates(),
            forall|i: int| 0 <= i < seen@.len() ==> visit_valid(#[trigger] seen@[i], n),
            forall|i: int| 0 <= i < stack@.len() ==> visit_valid(#[trigger] stack@[i], n),
        decreases (n + 1) * n - seen@.len(), stack@.len(),
    {
        proof {
            lemma_seen_bounded(seen@, n);
            lemma_run_step(kids, start(roots@), fuel);
        }
        let ghost before = Walk { stack: stack@, seen: seen@ };
        let top = stack.pop().unwrap();
        assert(top == before.stack.last());
        if !already_seen(&seen, top) {
            let ghost seen_before = seen@;
            seen.push(top);
            proof {
                assert forall|i: int, j: int| 0 <= i < j < seen@.len() implies seen@[i] != seen@[j] by {
                    if j == seen@.len() - 1 {
                        assert(seen_before.contains(seen_before[i]));
                    } else {
                        assert(seen@[i] == seen_before[i] && seen@[j] == seen_before[j]);
                    }
                }
            }
            let node = top.1;
            let cs = &children[node];
            assert(cs@ == kids[node as int]);
            let ghost base = stack@;
            let mut c: usize = 0;
            while c < cs.len()
                invariant
                    c <= cs@.len(),
                    node < n,
                    cs@ == kids[node as int],
                    nodes_valid(kids, roots@),
                    n == kids.len(),
                    stack@ == base + child_visits(node, cs@.take(c as int)),
                    forall|i: int| 0 <= i < base.len() ==> visit_valid(#[trigger] base[i], n),
                decreases cs.len() - c,
            {
                stack.push((Some(node), cs[c]));
                assert(child_visits(node, cs@.take(c + 1)) =~= child_visits(node, cs@.take(c as int)).push(
                    (Some(node), cs@[c as int]),
                ));
                c += 1;
            }
            assert(cs@.take(cs@.len() as int) =~= cs@);
            proof {
                assert forall|i: int| 0 <= i < stack@.len() implies visit_valid(#[trigger] stack@[i], n) by {
                    if i >= base.len() {
                        let j = i - base.len();
                        assert(stack@[i] == (Some(node), kids[node as int][j]));
                    }
                }
                lemma_seen_bounded(seen@, n);
            }
        }
        proof {
            fuel = fuel + 1;
        }
    }
    assert(run(kids, start(roots@), fuel).stack.len() == 0);
    seen
}

} // verus!
