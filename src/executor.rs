use vstd::prelude::*;
use crate::text::concat;
use vstd::seq_lib::*;
use vstd::set_lib::*;
use vstd::relations::injective;

verus! {

/// Outcome of running one action.
#[derive(Debug, Clone, PartialEq, Eq)]
pub enum ActionResult {
    /// The action did its work, or found that nothing was needed.
    Done,
    /// The action deliberately did nothing.
    Skip { reason: Option<String> },
    /// The action failed; the run stops here.
    Error(String),
}

impl ActionResult {
    /// A failed outcome carrying the displayable cause.
    pub fn error(cause: String) -> (r: ActionResult)
        ensures
            r == ActionResult::Error(cause),
    {
        ActionResult::Error(cause)
    }
}

/// A dependency cycle found while running: the actions that were being visited,
/// followed by the action that was reached again.
#[derive(Debug, Clone, PartialEq, Eq)]
pub struct DependencyCycle {
    pub path: Vec<usize>,
}

/// One node of a dependency graph.
#[derive(Debug, Clone)]
pub struct Node {
    /// Nodes that must run before this one, in declaration order.
    pub deps: Vec<usize>,
    /// Whether the node has a runner of its own.
    pub runnable: bool,
}

/// A dependency graph over the nodes `0..nodes.len()`.
#[derive(Debug, Clone)]
pub struct Graph {
    pub nodes: Vec<Node>,
}

impl Graph {
    pub open spec fn len(&self) -> nat {
        self.nodes@.len()
    }

    pub open spec fn deps(&self, i: int) -> Seq<usize> {
        self.nodes@[i].deps@
    }

    pub open spec fn runnable(&self, i: int) -> bool {
        self.nodes@[i].runnable
    }

    /// Every dependency names a node of the graph.
    pub open spec fn wf(&self) -> bool {
        forall|i: int, j: int|
            0 <= i < self.len() && 0 <= j < self.deps(i).len() ==> (#[trigger] self.deps(i)[j])
                < self.len()
    }

    /// `d` is a declared dependency of `a`.
    pub open spec fn edge(&self, a: int, d: int) -> bool {
        0 <= a < self.len() && self.deps(a).contains(d as usize)
    }

    /// `rank` strictly decreases along every dependency edge.
    pub open spec fn ranked_by(&self, rank: spec_fn(int) -> nat) -> bool {
        forall|a: int, d: int| #[trigger] self.edge(a, d) ==> rank(d) < rank(a)
    }

    /// The graph has no dependency cycle.
    pub open spec fn acyclic(&self) -> bool {
        exists|rank: spec_fn(int) -> nat| self.ranked_by(rank)
    }

    /// Consecutive members of `p` are linked by dependency edges.
    pub open spec fn is_walk(&self, p: Seq<usize>) -> bool {
        forall|i: int| 0 <= i < p.len() - 1 ==> #[trigger] self.edge(p[i] as int, p[i + 1] as int)
    }
}

/// The members of `s` that have a runner, in order.
pub open spec fn runnable_of(g: Graph, s: Seq<usize>) -> Seq<usize>
    decreases s.len(),
{
    if s.len() == 0 {
        Seq::empty()
    } else if g.runnable(s.last() as int) {
        runnable_of(g, s.drop_last()).push(s.last())
    } else {
        runnable_of(g, s.drop_last())
    }
}

/// The declared dependencies of every node, by node.
pub open spec fn deps_view(g: Graph) -> Seq<Seq<usize>> {
    g.nodes@.map_values(|n: Node| n.deps@)
}

/// The nodes that a visit of `a` executes, in the order in which they finish:
/// nothing when `a` is already done; otherwise its dependencies' visits in
/// declaration order, each after the ones before it, then `a` itself.
/// `depth` bounds the nesting of visits.
pub open spec fn visit(deps: Seq<Seq<usize>>, a: usize, done: Seq<usize>, depth: nat) -> Seq<usize>
    decreases depth, deps[a as int].len() + 1,
{
    if done.contains(a) || depth == 0 {
        Seq::empty()
    } else {
        deps_then(deps, a, 0, done, depth)
    }
}

/// The visits of the dependencies of `a` from the `j`-th on, then `a`.
pub open spec fn deps_then(deps: Seq<Seq<usize>>, a: usize, j: nat, done: Seq<usize>, depth: nat) -> Seq<usize>
    decreases depth, deps[a as int].len() - j,
{
    if depth == 0 {
        Seq::empty()
    } else if j >= deps[a as int].len() {
        seq![a]
    } else {
        let x = visit(deps, deps[a as int][j as int], done, (depth - 1) as nat);
        x + deps_then(deps, a, j + 1, done + x, depth)
    }
}

/// The visits of the requested nodes, one after the other.
pub open spec fn visit_all(deps: Seq<Seq<usize>>, req: Seq<usize>, done: Seq<usize>, depth: nat) -> Seq<usize>
    decreases req.len(),
{
    if req.len() == 0 {
        Seq::empty()
    } else {
        let x = visit(deps, req[0], done, depth);
        x + visit_all(deps, req.drop_first(), done + x, depth)
    }
}

proof fn lemma_deps_then_ends_with(deps: Seq<Seq<usize>>, a: usize, j: nat, done: Seq<usize>, depth: nat)
    requires
        depth > 0,
    ensures
        deps_then(deps, a, j, done, depth).len() > 0,
        deps_then(deps, a, j, done, depth).last() == a,
    decreases deps[a as int].len() - j,
{
    if j < deps[a as int].len() {
        let x = visit(deps, deps[a as int][j as int], done, (depth - 1) as nat);
        lemma_deps_then_ends_with(deps, a, j + 1, done + x, depth);
    }
}

/// Running an action again against the same context runs nothing more: once
/// a visit of `a` has finished, a second visit of `a`, against what the first
/// one added, executes no node (and so calls no runner).
pub proof fn lemma_second_visit_runs_nothing(deps: Seq<Seq<usize>>, a: usize, done: Seq<usize>, depth: nat)
    ensures
        visit(deps, a, done + visit(deps, a, done, depth), depth) == Seq::<usize>::empty(),
{
    let first = visit(deps, a, done, depth);
    if done.contains(a) {
        let k = choose|k: int| 0 <= k < done.len() && done[k] == a;
        assert((done + first)[k] == a);
    } else if depth > 0 {
        lemma_deps_then_ends_with(deps, a, 0, done, depth);
        assert((done + first)[done.len() + first.len() - 1] == a);
    }
}

/// `p` is a prefix of `s`.
pub open spec fn is_prefix(p: Seq<usize>, s: Seq<usize>) -> bool {
    p.len() <= s.len() && s.subrange(0, p.len() as int) == p
}

/// The `j`-th dependency of `e[i]` appears in `e` before position `i`.
pub open spec fn dep_earlier(g: Graph, e: Seq<usize>, i: int, j: int) -> bool {
    exists|k: int| 0 <= k < i && e[k] == g.deps(e[i] as int)[j]
}

/// Every member of `e` comes after all of its dependencies.
pub open spec fn deps_run_first(g: Graph, e: Seq<usize>) -> bool {
    forall|i: int, j: int|
        0 <= i < e.len() && 0 <= j < g.deps(e[i] as int).len() ==> #[trigger] dep_earlier(g, e, i, j)
}

/// Bookkeeping of one invocation: the nodes already executed, in the order in
/// which they finished, and the stack of nodes being visited.
pub struct ExecutionContext {
    pub executed: Vec<usize>,
    pub running: Vec<usize>,
    /// Nodes whose runner has been called, in call order.
    pub invoked: Ghost<Seq<usize>>,
    /// What each of those runner calls returned.
    pub outcomes: Ghost<Seq<ActionResult>>,
}

impl ExecutionContext {
    pub fn new() -> (r: ExecutionContext)
        ensures
            r.executed@ == Seq::<usize>::empty(),
            r.running@ == Seq::<usize>::empty(),
            r.invoked@ == Seq::<usize>::empty(),
            r.outcomes@ == Seq::<ActionResult>::empty(),
    {
        ExecutionContext {
            executed: Vec::new(),
            running: Vec::new(),
            invoked: Ghost(Seq::empty()),
            outcomes: Ghost(Seq::empty()),
        }
    }

    /// The context is consistent with `g`: nodes run at most once, every
    /// executed node ran after its dependencies, the stack is a walk along
    /// dependency edges, and runners were called exactly for the executed
    /// nodes that have one.
    pub open spec fn wf(&self, g: Graph) -> bool {
        &&& forall|i: int| 0 <= i < self.executed@.len() ==> (#[trigger] self.executed@[i]) < g.len()
        &&& forall|i: int| 0 <= i < self.running@.len() ==> (#[trigger] self.running@[i]) < g.len()
        &&& self.executed@.no_duplicates()
        &&& self.running@.no_duplicates()
        &&& forall|x: usize| #[trigger] self.running@.contains(x) ==> !self.executed@.contains(x)
        &&& deps_run_first(g, self.executed@)
        &&& g.is_walk(self.running@)
        &&& self.invoked@ == runnable_of(g, self.executed@)
        &&& self.outcomes@.len() == self.invoked@.len()
    }
}

proof fn lemma_runnable_of_subset(g: Graph, s: Seq<usize>)
    ensures
        forall|x: usize| #[trigger] runnable_of(g, s).contains(x) ==> s.contains(x),
        s.no_duplicates() ==> runnable_of(g, s).no_duplicates(),
    decreases s.len(),
{
    if s.len() > 0 {
        lemma_runnable_of_subset(g, s.drop_last());
        assert forall|x: usize| #[trigger] runnable_of(g, s).contains(x) implies s.contains(x) by {
            if runnable_of(g, s.drop_last()).contains(x) {
                let k = choose|k: int| 0 <= k < s.drop_last().len() && s.drop_last()[k] == x;
                assert(s[k] == x);
            } else {
                assert(x == s.last());
                assert(s[s.len() - 1] == x);
            }
        }
        if s.no_duplicates() {
            assert(s.drop_last().no_duplicates()) by {
                assert forall|i: int, j: int|
                    0 <= i < s.drop_last().len() && 0 <= j < s.drop_last().len() && i != j
                    implies s.drop_last()[i] != s.drop_last()[j] by {
                    assert(s[i] != s[j]);
                }
            }
            if g.runnable(s.last() as int) {
                assert(!s.drop_last().contains(s.last())) by {
                    if s.drop_last().contains(s.last()) {
                        let k = choose|k: int| 0 <= k < s.drop_last().len() && s.drop_last()[k] == s.last();
                        assert(s[k] == s[s.len() - 1]);
                    }
                }
                let f = runnable_of(g, s.drop_last());
                assert forall|i: int, j: int|
                    0 <= i < f.push(s.last()).len() && 0 <= j < f.push(s.last()).len() && i != j
                    implies f.push(s.last())[i] != f.push(s.last())[j] by {
                    if i < f.len() && j < f.len() {
                    } else if i < f.len() {
                        assert(f.contains(f[i]));
                    } else {
                        assert(f.contains(f[j]));
                    }
                }
            }
        }
    }
}

/// Nodes in the log of runner calls have a runner.
pub proof fn lemma_invoked_runnable(g: Graph, s: Seq<usize>, x: usize)
    requires
        runnable_of(g, s).contains(x),
    ensures
        g.runnable(x as int),
    decreases s.len(),
{
    if s.len() > 0 {
        if runnable_of(g, s.drop_last()).contains(x) {
            lemma_invoked_runnable(g, s.drop_last(), x);
        } else {
            assert(x == s.last());
        }
    }
}

/// Along a walk of a ranked graph the rank strictly decreases.
proof fn lemma_walk_rank(g: Graph, p: Seq<usize>, rank: spec_fn(int) -> nat, i: int, j: int)
    requires
        g.is_walk(p),
        g.ranked_by(rank),
        0 <= i < j < p.len(),
    ensures
        rank(p[j] as int) < rank(p[i] as int),
    decreases j - i,
{
    assert(g.edge(p[j - 1] as int, p[(j - 1) + 1] as int));
    if i < j - 1 {
        lemma_walk_rank(g, p, rank, i, j - 1);
    }
}

/// A duplicate-free sequence of nodes of `g` is no longer than the graph.
proof fn lemma_unique_nodes_len(g: Graph, s: Seq<usize>)
    requires
        s.no_duplicates(),
        forall|i: int| 0 <= i < s.len() ==> (#[trigger] s[i]) < g.len(),
    ensures
        s.len() <= g.len(),
{
    let f = |x: usize| x as int;
    assert(injective(f));
    s.lemma_no_duplicates_injective(f);
    let t = s.map_values(f);
    t.unique_seq_to_set();
    let range = set_int_range(0, g.len() as int);
    assert(t.to_set().subset_of(range));
    lemma_int_range(0, g.len() as int);
    lemma_len_subset(t.to_set(), range);
}

fn contains_node(v: &Vec<usize>, x: usize) -> (r: bool)
    ensures
        r == v@.contains(x),
{
    let mut i: usize = 0;
    while i < v.len()
        invariant
            0 <= i <= v@.len(),
            forall|k: int| 0 <= k < i ==> v@[k] != x,
        decreases v@.len() - i,
    {
        if v[i] == x {
            return true;
        }
        i += 1;
    }
    false
}

/// Runs node `a` of `g` and, first, its dependencies, in declaration order.
///
/// A node already being visited is a dependency cycle: it is reported with the
/// stack of visited nodes followed by `a`, and no runner of the cycle has been
/// called. A node already executed is skipped with "already executed". The
/// nodes executed are, in order, a prefix of `visit`: all of it on success,
/// and up to the failing node on `Error`, so no later sibling is visited and
/// no runner is called after the failing one. Each runner's outcome is logged
/// in `outcomes`; the node's own outcome, or the failing one, is returned.
#[verifier::loop_isolation(false)]
#[verifier::rlimit(100)]
#[verifier::spinoff_prover]
pub fn run_action<F: Fn(usize) -> ActionResult>(
    g: &Graph,
    ctx: &mut ExecutionContext,
    a: usize,
    runner: &F,
) -> (r: Result<ActionResult, DependencyCycle>)
    requires
        g.wf(),
        a < g.len(),
        old(ctx).wf(*g),
        old(ctx).running@.len() > 0 ==> g.edge(old(ctx).running@.last() as int, a as int),
        forall|i: usize| runner.requires((i,)),
    ensures
        final(ctx).wf(*g),
        final(ctx).running@ == old(ctx).running@,
        final(ctx).executed@.len() >= old(ctx).executed@.len(),
        final(ctx).executed@.subrange(0, old(ctx).executed@.len() as int) == old(ctx).executed@,
        is_prefix(
            final(ctx).executed@.subrange(old(ctx).executed@.len() as int, final(ctx).executed@.len() as int),
            visit(deps_view(*g), a, old(ctx).executed@, (g.len() - old(ctx).running@.len()) as nat),
        ),
        r matches Ok(res) && !(res is Error) ==> final(ctx).executed@ == old(ctx).executed@ + visit(
            deps_view(*g),
            a,
            old(ctx).executed@,
            (g.len() - old(ctx).running@.len()) as nat,
        ),
        final(ctx).invoked@.len() >= old(ctx).invoked@.len(),
        final(ctx).invoked@.subrange(0, old(ctx).invoked@.len() as int) == old(ctx).invoked@,
        final(ctx).outcomes@.subrange(0, old(ctx).invoked@.len() as int) == old(ctx).outcomes@,
        forall|i: int|
            old(ctx).invoked@.len() <= i < final(ctx).invoked@.len() ==> runner.ensures(
                (final(ctx).invoked@[i],),
                #[trigger] final(ctx).outcomes@[i],
            ),
        forall|i: int|
            old(ctx).invoked@.len() <= i < final(ctx).invoked@.len() && (#[trigger] final(ctx).outcomes@[i]) is Error
                ==> i == final(ctx).invoked@.len() - 1 && r == Ok::<ActionResult, DependencyCycle>(
                final(ctx).outcomes@[i],
            ),
        old(ctx).running@.contains(a) ==> (r matches Err(c) && c.path@ == old(ctx).running@.push(a)
            && *final(ctx) == *old(ctx)),
        !old(ctx).running@.contains(a) && old(ctx).executed@.contains(a) ==> (r matches Ok(
            ActionResult::Skip { reason: Some(s) },
        ) && s@ == "already executed"@ && *final(ctx) == *old(ctx)),
        r matches Ok(res) && !(res is Error) ==> final(ctx).executed@.contains(a),
        r matches Ok(res) && !(res is Error) ==> (!old(ctx).running@.contains(a) && !old(ctx).executed@.contains(a)
            ==> (if g.runnable(a as int) {
            final(ctx).invoked@.len() > old(ctx).invoked@.len() && final(ctx).invoked@.last() == a
                && final(ctx).outcomes@.last() == r->Ok_0
        } else {
            r->Ok_0 == ActionResult::Done
        })),
        r matches Ok(ActionResult::Error(e)) ==> final(ctx).invoked@.len() > old(ctx).invoked@.len()
            && final(ctx).executed@.len() > old(ctx).executed@.len()
            && final(ctx).executed@.last() == final(ctx).invoked@.last()
            && final(ctx).outcomes@.last() == ActionResult::Error(e),
        r matches Ok(ActionResult::Error(_)) ==> (!old(ctx).running@.contains(a) && !old(ctx).executed@.contains(a)
            ==> (final(ctx).executed@.contains(a) <==> final(ctx).invoked@.last() == a)),
        r matches Err(c) ==> {
            &&& c.path@.len() >= 2
            &&& c.path@.len() >= old(ctx).running@.len() + 1
            &&& g.is_walk(c.path@)
            &&& c.path@.subrange(0, (old(ctx).running@.len() + 1) as int) == old(ctx).running@.push(a)
            &&& c.path@.drop_last().contains(c.path@.last())
            &&& forall|x: usize| #[trigger] c.path@.contains(x) ==> !final(ctx).executed@.contains(x)
                && !final(ctx).invoked@.contains(x)
        },
        g.acyclic() ==> r is Ok,
    decreases g.len() - old(ctx).running@.len(),
{
    let ghost old_ctx = *ctx;
    let ghost dv = deps_view(*g);
    let ghost depth = (g.len() - old_ctx.running@.len()) as nat;
    let ghost n0 = old_ctx.invoked@.len();
    proof {
        lemma_runnable_of_subset(*g, ctx.executed@);
        assert(ctx.executed@.subrange(old_ctx.executed@.len() as int, ctx.executed@.len() as int) =~= Seq::<
            usize,
        >::empty());
        assert(ctx.executed@.subrange(0, old_ctx.executed@.len() as int) =~= old_ctx.executed@);
        assert(ctx.invoked@.subrange(0, n0 as int) =~= old_ctx.invoked@);
        assert(ctx.outcomes@.subrange(0, n0 as int) =~= old_ctx.outcomes@);
        if old_ctx.executed@.contains(a) {
            assert(visit(dv, a, old_ctx.executed@, depth) =~= Seq::<usize>::empty());
        }
        assert(visit(dv, a, old_ctx.executed@, depth).subrange(0, 0) =~= Seq::<usize>::empty());
    }
    if contains_node(&ctx.running, a) {
        let mut path = ctx.running.clone();
        path.push(a);
        proof {
            assert(path@ =~= old_ctx.running@.push(a));
            let p = path@;
            assert(g.is_walk(p)) by {
                assert forall|i: int| 0 <= i < p.len() - 1 implies #[trigger] g.edge(
                    p[i] as int,
                    p[i + 1] as int,
                ) by {
                    if i < p.len() - 2 {
                        assert(g.edge(old_ctx.running@[i] as int, old_ctx.running@[i + 1] as int));
                    }
                }
            }
            assert(p.subrange(0, (old_ctx.running@.len() + 1) as int) =~= p);
            assert(p.drop_last() =~= old_ctx.running@);
            assert forall|x: usize| #[trigger] p.contains(x) implies !old_ctx.executed@.contains(x) by {
                if x != a {
                    let k = choose|k: int| 0 <= k < p.len() && p[k] == x;
                    assert(old_ctx.running@[k] == x);
                    assert(old_ctx.running@.contains(x));
                } else {
                    assert(old_ctx.running@.contains(a));
                }
            }
            if g.acyclic() {
                let rank = choose|rank: spec_fn(int) -> nat| g.ranked_by(rank);
                let k = choose|k: int| 0 <= k < old_ctx.running@.len() && old_ctx.running@[k] == a;
                lemma_walk_rank(*g, p, rank, k, p.len() - 1);
            }
        }
        return Err(DependencyCycle { path });
    }
    if contains_node(&ctx.executed, a) {
        return Ok(ActionResult::Skip { reason: Some("already executed".to_owned()) });
    }
    proof {
        assert(old_ctx.running@.push(a).no_duplicates()) by {
            assert forall|i: int, j: int|
                0 <= i < old_ctx.running@.push(a).len() && 0 <= j < old_ctx.running@.push(a).len()
                    && i != j implies old_ctx.running@.push(a)[i] != old_ctx.running@.push(a)[j] by {
                if i < old_ctx.running@.len() && j < old_ctx.running@.len() {
                } else if i < old_ctx.running@.len() {
                    assert(old_ctx.running@.contains(old_ctx.running@[i]));
                } else {
                    assert(old_ctx.running@.contains(old_ctx.running@[j]));
                }
            }
        }
        lemma_unique_nodes_len(*g, old_ctx.running@.push(a));
    }
    ctx.running.push(a);
    proof {
        let p = ctx.running@;
        assert(p == old_ctx.running@.push(a));
        assert forall|i: int| 0 <= i < p.len() implies (#[trigger] p[i]) < g.len() by {
            if i < p.len() - 1 {
                assert(p[i] == old_ctx.running@[i]);
            }
        }
        assert(p.drop_last() =~= old_ctx.running@);
        assert(g.is_walk(p)) by {
            assert forall|i: int| 0 <= i < p.len() - 1 implies #[trigger] g.edge(
                p[i] as int,
                p[i + 1] as int,
            ) by {
                if i < p.len() - 2 {
                    assert(g.edge(old_ctx.running@[i] as int, old_ctx.running@[i + 1] as int));
                }
            }
        }
        assert forall|x: usize| #[trigger] p.contains(x) implies !ctx.executed@.contains(x) by {
            if x != a {
                let k = choose|k: int| 0 <= k < p.len() && p[k] == x;
                assert(old_ctx.running@[k] == x);
                assert(old_ctx.running@.contains(x));
            }
        }
    }
    let n = g.nodes[a].deps.len();
    let mut j: usize = 0;
    let ghost mut p: Seq<usize> = Seq::empty();
    proof {
        assert(depth > 0);
        assert(old_ctx.executed@ + p =~= old_ctx.executed@);
        assert(ctx.executed@ =~= old_ctx.executed@ + p);
        assert(p + deps_then(dv, a, 0, old_ctx.executed@ + p, depth) =~= deps_then(dv, a, 0, old_ctx.executed@, depth));
        assert(visit(dv, a, old_ctx.executed@, depth) == deps_then(dv, a, 0, old_ctx.executed@, depth));
    }
    while j < n
        invariant
            dv == deps_view(*g),
            depth == (g.len() - old_ctx.running@.len()) as nat,
            depth > 0,
            n0 == old_ctx.invoked@.len(),
            !old_ctx.executed@.contains(a),
            ctx.executed@ == old_ctx.executed@ + p,
            visit(dv, a, old_ctx.executed@, depth) == p + deps_then(dv, a, j as nat, old_ctx.executed@ + p, depth),
            ctx.invoked@.len() >= n0,
            ctx.invoked@.subrange(0, n0 as int) == old_ctx.invoked@,
            ctx.outcomes@.subrange(0, n0 as int) == old_ctx.outcomes@,
            forall|i: int|
                n0 <= i < ctx.invoked@.len() ==> runner.ensures((ctx.invoked@[i],), #[trigger] ctx.outcomes@[i])
                    && !(ctx.outcomes@[i] is Error),
            g.wf(),
            a < g.len(),
            n == g.deps(a as int).len(),
            0 <= j <= n,
            forall|i: usize| runner.requires((i,)),
            ctx.wf(*g),
            ctx.running@ == old_ctx.running@.push(a),
            ctx.executed@.len() >= old_ctx.executed@.len(),
            ctx.executed@.subrange(0, old_ctx.executed@.len() as int) == old_ctx.executed@,
            ctx.invoked@.len() >= old_ctx.invoked@.len(),
            !old_ctx.running@.contains(a),
            old_ctx.running@.len() + 1 <= g.len(),
            forall|k: int| 0 <= k < j ==> ctx.executed@.contains(#[trigger] g.deps(a as int)[k]),
            g.acyclic() ==> old_ctx.running@.len() > 0 ==> g.edge(old_ctx.running@.last() as int, a as int),
        decreases n - j,
    {
        let d = g.nodes[a].deps[j];
        let ghost before = *ctx;
        proof {
            assert(g.deps(a as int)[j as int] == d);
            assert(g.edge(a as int, d as int));
            assert(d < g.len());
        }
        assert(0 <= g.len() - ctx.running@.len() < g.len() - old_ctx.running@.len());
        let res = run_action(g, ctx, d, runner);
        let ghost after_call = *ctx;
        let ghost v = visit(dv, d, before.executed@, (depth - 1) as nat);
        let ghost cn = ctx.executed@.subrange(before.executed@.len() as int, ctx.executed@.len() as int);
        proof {
            assert(before.running@.len() == old_ctx.running@.len() + 1);
            assert(dv[a as int][j as int] == d);
            assert(deps_then(dv, a, j as nat, before.executed@, depth) == v + deps_then(
                dv,
                a,
                (j + 1) as nat,
                before.executed@ + v,
                depth,
            ));
            assert(ctx.executed@ =~= before.executed@ + cn);
            assert(cn =~= v.subrange(0, cn.len() as int));
            assert(ctx.executed@.subrange(old_ctx.executed@.len() as int, ctx.executed@.len() as int) =~= p + cn);
            assert((p + v + deps_then(dv, a, (j + 1) as nat, before.executed@ + v, depth)).subrange(
                0,
                (p + cn).len() as int,
            ) =~= p + cn);
            assert(p + (v + deps_then(dv, a, (j + 1) as nat, before.executed@ + v, depth)) =~= p + v
                + deps_then(dv, a, (j + 1) as nat, before.executed@ + v, depth));
            assert(ctx.invoked@.subrange(0, n0 as int) =~= ctx.invoked@.subrange(
                0,
                before.invoked@.len() as int,
            ).subrange(0, n0 as int));
            assert(ctx.outcomes@.subrange(0, n0 as int) =~= ctx.outcomes@.subrange(
                0,
                before.invoked@.len() as int,
            ).subrange(0, n0 as int));
            assert forall|i: int| n0 <= i < before.invoked@.len() implies ctx.invoked@[i] == before.invoked@[i]
                && ctx.outcomes@[i] == before.outcomes@[i] by {
                assert(ctx.invoked@.subrange(0, before.invoked@.len() as int)[i] == before.invoked@[i]);
                assert(ctx.outcomes@.subrange(0, before.invoked@.len() as int)[i] == before.outcomes@[i]);
            }
            assert forall|i: int| n0 <= i < after_call.invoked@.len() implies runner.ensures(
                (after_call.invoked@[i],),
                #[trigger] after_call.outcomes@[i],
            ) && (after_call.outcomes@[i] is Error ==> i == after_call.invoked@.len() - 1 && res == Ok::<
                ActionResult,
                DependencyCycle,
            >(after_call.outcomes@[i])) by {
                if i < before.invoked@.len() {
                    assert(runner.ensures((before.invoked@[i],), before.outcomes@[i]));
                }
            }
            assert(ctx.executed@.subrange(0, old_ctx.executed@.len() as int) =~= ctx.executed@.subrange(
                0,
                before.executed@.len() as int,
            ).subrange(0, old_ctx.executed@.len() as int));
        }
        match res {
            Err(c) => {
                ctx.running.pop();
                proof {
                    lemma_runnable_of_subset(*g, ctx.executed@);
                    assert(ctx.running@ =~= old_ctx.running@);
                    assert(c.path@.subrange(0, (old_ctx.running@.len() + 1) as int) =~= c.path@.subrange(
                        0,
                        (old_ctx.running@.len() + 2) as int,
                    ).subrange(0, (old_ctx.running@.len() + 1) as int));
                    assert(old_ctx.running@.push(a).push(d).subrange(0, (old_ctx.running@.len() + 1) as int)
                        =~= old_ctx.running@.push(a));
                    lemma_pop_keeps_wf(*g, after_call, *ctx, old_ctx.running@);
                }
                return Err(c);
            },
            Ok(ActionResult::Error(e)) => {
                ctx.running.pop();
                proof {
                    assert(ctx.running@ =~= old_ctx.running@);
                    lemma_pop_keeps_wf(*g, after_call, *ctx, old_ctx.running@);
                    lemma_runnable_of_subset(*g, ctx.executed@);
                    assert(after_call.running@.contains(a)) by {
                        assert(after_call.running@[old_ctx.running@.len() as int] == a);
                    }
                    assert(!ctx.executed@.contains(a));
                    assert(ctx.invoked@.contains(ctx.invoked@.last())) by {
                        assert(ctx.invoked@[ctx.invoked@.len() - 1] == ctx.invoked@.last());
                    }
                }
                return Ok(ActionResult::Error(e));
            },
            Ok(_) => {
                proof {
                    assert(ctx.executed@ =~= before.executed@ + v);
                    assert(cn =~= v);
                    assert(old_ctx.executed@ + (p + v) =~= before.executed@ + v);
                    p = p + v;
                    assert forall|i: int| n0 <= i < ctx.invoked@.len() implies runner.ensures(
                        (ctx.invoked@[i],),
                        #[trigger] ctx.outcomes@[i],
                    ) && !(ctx.outcomes@[i] is Error) by {
                        if i >= before.invoked@.len() {
                            assert(runner.ensures((ctx.invoked@[i],), ctx.outcomes@[i]));
                        }
                    }
                    assert forall|k: int| 0 <= k < j + 1 implies ctx.executed@.contains(
                        #[trigger] g.deps(a as int)[k],
                    ) by {
                        if k < j {
                            let x = g.deps(a as int)[k];
                            let m = choose|m: int|
                                0 <= m < before.executed@.len() && before.executed@[m] == x;
                            assert(ctx.executed@.subrange(0, before.executed@.len() as int)[m] == x);
                            assert(ctx.executed@[m] == x);
                        }
                    }
                }
            },
        }
        j += 1;
    }
    let ghost pre = *ctx;
    proof {
        assert(deps_then(dv, a, j as nat, old_ctx.executed@ + p, depth) =~= seq![a]);
    }
    let result = if g.nodes[a].runnable {
        proof {
            ctx.invoked@ = ctx.invoked@.push(a);
        }
        let out = runner(a);
        proof {
            ctx.outcomes@ = ctx.outcomes@.push(out);
        }
        out
    } else {
        ActionResult::Done
    };
    let ghost mid = *ctx;
    assert(mid.executed@ == pre.executed@);
    ctx.executed.push(a);
    ctx.running.pop();
    proof {
        let e = ctx.executed@;
        assert(e.drop_last() =~= mid.executed@);
        assert(ctx.running@ =~= old_ctx.running@);
        assert(e.subrange(0, old_ctx.executed@.len() as int) =~= mid.executed@.subrange(
            0,
            old_ctx.executed@.len() as int,
        ));
        lemma_finish_keeps_wf(*g, pre, *ctx, a, old_ctx.running@);
        assert(e[e.len() - 1] == a);
        assert(e =~= old_ctx.executed@ + (p + seq![a]));
        assert(e.subrange(old_ctx.executed@.len() as int, e.len() as int) =~= p + seq![a]);
        assert((p + seq![a]).subrange(0, (p + seq![a]).len() as int) =~= p + seq![a]);
        if g.runnable(a as int) {
            assert(ctx.invoked@.last() == a);
            assert(ctx.invoked@.subrange(0, n0 as int) =~= pre.invoked@.subrange(0, n0 as int));
            assert(ctx.outcomes@.subrange(0, n0 as int) =~= pre.outcomes@.subrange(0, n0 as int));
            assert forall|i: int| n0 <= i < pre.invoked@.len() implies ctx.invoked@[i] == pre.invoked@[i]
                && ctx.outcomes@[i] == pre.outcomes@[i] by {}
        }
    }
    Ok(result)
}

/// Popping the visited node after a failure keeps the context consistent.
proof fn lemma_pop_keeps_wf(g: Graph, before: ExecutionContext, after: ExecutionContext, rest: Seq<usize>)
    requires
        before.wf(g),
        before.running@.len() > 0,
        before.running@.drop_last() == rest,
        after.running@ == rest,
        after.executed@ == before.executed@,
        after.invoked@ == before.invoked@,
        after.outcomes@ == before.outcomes@,
    ensures
        after.wf(g),
{
    let p = before.running@;
    assert forall|i: int| 0 <= i < rest.len() - 1 implies #[trigger] g.edge(rest[i] as int, rest[i + 1] as int) by {
        assert(g.edge(p[i] as int, p[i + 1] as int));
    }
    assert forall|i: int, j: int| 0 <= i < rest.len() && 0 <= j < rest.len() && i != j implies rest[i] != rest[j] by {
        assert(p[i] != p[j]);
    }
    assert forall|x: usize| #[trigger] rest.contains(x) implies !after.executed@.contains(x) by {
        let k = choose|k: int| 0 <= k < rest.len() && rest[k] == x;
        assert(p[k] == x);
        assert(p.contains(x));
    }
    assert forall|i: int| 0 <= i < rest.len() implies (#[trigger] rest[i]) < g.len() by {
        assert(p[i] == rest[i]);
    }
}

/// Marking the visited node as executed keeps the context consistent.
proof fn lemma_finish_keeps_wf(
    g: Graph,
    mid: ExecutionContext,
    after: ExecutionContext,
    a: usize,
    rest: Seq<usize>,
)
    requires
        mid.wf(g),
        mid.running@ == rest.push(a),
        after.running@ == rest,
        after.executed@ == mid.executed@.push(a),
        a < g.len(),
        forall|k: int|
            0 <= k < g.deps(a as int).len() ==> mid.executed@.contains(#[trigger] g.deps(a as int)[k]),
        after.invoked@ == (if g.runnable(a as int) { mid.invoked@.push(a) } else { mid.invoked@ }),
        after.outcomes@.len() == after.invoked@.len(),
    ensures
        after.wf(g),
{
    let e = after.executed@;
    let p = mid.running@;
    assert(e.drop_last() =~= mid.executed@);
    assert(p.contains(a)) by {
        assert(p[p.len() - 1] == a);
    }
    assert(!mid.executed@.contains(a));
    assert forall|i: int, j: int| 0 <= i < e.len() && 0 <= j < e.len() && i != j implies e[i] != e[j] by {
        if i < e.len() - 1 && j < e.len() - 1 {
        } else if i < e.len() - 1 {
            assert(mid.executed@.contains(e[i]));
        } else {
            assert(mid.executed@.contains(e[j]));
        }
    }
    assert forall|i: int| 0 <= i < rest.len() - 1 implies #[trigger] g.edge(rest[i] as int, rest[i + 1] as int) by {
        assert(g.edge(p[i] as int, p[i + 1] as int));
    }
    assert forall|i: int, j: int| 0 <= i < rest.len() && 0 <= j < rest.len() && i != j implies rest[i] != rest[j] by {
        assert(p[i] != p[j]);
    }
    assert forall|x: usize| #[trigger] rest.contains(x) implies !e.contains(x) by {
        let k = choose|k: int| 0 <= k < rest.len() && rest[k] == x;
        assert(p[k] == x);
        assert(p.contains(x));
        assert(x != a) by {
            assert(p[p.len() - 1] == a);
        }
        if e.contains(x) {
            let m = choose|m: int| 0 <= m < e.len() && e[m] == x;
            assert(m < e.len() - 1);
            assert(mid.executed@[m] == x);
        }
    }
    assert forall|i: int| 0 <= i < rest.len() implies (#[trigger] rest[i]) < g.len() by {
        assert(p[i] == rest[i]);
    }
    assert forall|i: int| 0 <= i < e.len() implies (#[trigger] e[i]) < g.len() by {
        if i < e.len() - 1 {
            assert(e[i] == mid.executed@[i]);
        }
    }
    assert forall|i: int, j: int|
        0 <= i < e.len() && 0 <= j < g.deps(e[i] as int).len() implies #[trigger] dep_earlier(g, e, i, j) by {
        if i < e.len() - 1 {
            assert(e[i] == mid.executed@[i]);
            assert(dep_earlier(g, mid.executed@, i, j));
            let k = choose|k: int|
                0 <= k < i && mid.executed@[k] == g.deps(mid.executed@[i] as int)[j];
            assert(e[k] == mid.executed@[k]);
        } else {
            let x = g.deps(a as int)[j];
            assert(mid.executed@.contains(x));
            let k = choose|k: int| 0 <= k < mid.executed@.len() && mid.executed@[k] == x;
            assert(e[k] == x);
        }
    }
    assert(runnable_of(g, e) == (if g.runnable(a as int) { runnable_of(g, mid.executed@).push(a) } else {
        runnable_of(g, mid.executed@)
    }));
}

/// Runners are called at most once per context: the log of runner calls of a
/// consistent context has no repeated node, however many times a node is
/// reached as a dependency.
pub proof fn lemma_runners_called_at_most_once(g: Graph, ctx: ExecutionContext)
    requires
        ctx.wf(g),
    ensures
        ctx.invoked@.no_duplicates(),
        forall|x: usize| #[trigger] ctx.invoked@.contains(x) ==> ctx.executed@.contains(x),
{
    lemma_runnable_of_subset(g, ctx.executed@);
}

/// Runs the requested nodes one after the other against one fresh context, so
/// that nodes shared by several requests run once. Stops at the first `Error`
/// or dependency cycle and returns it; otherwise returns the outcome of the
/// last request (`Done` when nothing was requested).
pub fn run_requested<F: Fn(usize) -> ActionResult>(
    g: &Graph,
    requested: &Vec<usize>,
    runner: &F,
) -> (r: (ExecutionContext, Result<ActionResult, DependencyCycle>))
    requires
        g.wf(),
        forall|i: int| 0 <= i < requested@.len() ==> (#[trigger] requested@[i]) < g.len(),
        forall|i: usize| runner.requires((i,)),
    ensures
        r.0.wf(*g),
        r.0.running@.len() == 0,
        is_prefix(r.0.executed@, visit_all(deps_view(*g), requested@, Seq::empty(), g.len())),
        r.1 matches Ok(res) && !(res is Error) ==> r.0.executed@ == visit_all(
            deps_view(*g),
            requested@,
            Seq::empty(),
            g.len(),
        ),
        r.1 matches Ok(res) && !(res is Error) ==> forall|i: int|
            0 <= i < requested@.len() ==> r.0.executed@.contains(#[trigger] requested@[i]),
        forall|i: int|
            0 <= i < r.0.invoked@.len() ==> runner.ensures((r.0.invoked@[i],), #[trigger] r.0.outcomes@[i]),
        forall|i: int|
            0 <= i < r.0.invoked@.len() && (#[trigger] r.0.outcomes@[i]) is Error ==> i == r.0.invoked@.len() - 1
                && r.1 == Ok::<ActionResult, DependencyCycle>(r.0.outcomes@[i]),
        r.1 matches Ok(ActionResult::Error(e)) ==> r.0.invoked@.len() > 0 && r.0.executed@.len() > 0
            && r.0.executed@.last() == r.0.invoked@.last() && r.0.outcomes@.last() == ActionResult::Error(e),
        r.1 matches Err(c) ==> g.is_walk(c.path@) && c.path@.drop_last().contains(c.path@.last()),
        g.acyclic() ==> r.1 is Ok,
{
    let mut ctx = ExecutionContext::new();
    let mut last = ActionResult::Done;
    let mut i: usize = 0;
    let ghost dv = deps_view(*g);
    let ghost depth = g.len();
    let ghost whole = visit_all(dv, requested@, Seq::empty(), depth);
    proof {
        assert(ctx.invoked@ =~= runnable_of(*g, ctx.executed@));
        assert(requested@.subrange(0, requested@.len() as int) =~= requested@);
        assert(ctx.executed@ + whole =~= whole);
    }
    while i < requested.len()
        invariant
            g.wf(),
            forall|k: int| 0 <= k < requested@.len() ==> (#[trigger] requested@[k]) < g.len(),
            forall|k: usize| runner.requires((k,)),
            0 <= i <= requested@.len(),
            ctx.wf(*g),
            ctx.running@.len() == 0,
            !(last is Error),
            forall|k: int| 0 <= k < i ==> ctx.executed@.contains(#[trigger] requested@[k]),
            dv == deps_view(*g),
            depth == g.len(),
            whole == visit_all(dv, requested@, Seq::empty(), depth),
            whole == ctx.executed@ + visit_all(dv, requested@.subrange(i as int, requested@.len() as int), ctx.executed@, depth),
            forall|k: int|
                0 <= k < ctx.invoked@.len() ==> runner.ensures((ctx.invoked@[k],), #[trigger] ctx.outcomes@[k])
                    && !(ctx.outcomes@[k] is Error),
        decreases requested@.len() - i,
    {
        let a = requested[i];
        let ghost before = ctx;
        let res = run_action(g, &mut ctx, a, runner);
        let ghost v = visit(dv, a, before.executed@, depth);
        let ghost rest = visit_all(dv, requested@.subrange(i + 1, requested@.len() as int), before.executed@ + v, depth);
        let ghost cn = ctx.executed@.subrange(before.executed@.len() as int, ctx.executed@.len() as int);
        proof {
            let tail = requested@.subrange(i as int, requested@.len() as int);
            assert(tail[0] == a);
            assert(tail.drop_first() =~= requested@.subrange(i + 1, requested@.len() as int));
            assert(whole == before.executed@ + (v + rest));
            assert(ctx.executed@ =~= before.executed@ + cn);
            assert(cn =~= v.subrange(0, cn.len() as int));
            assert(whole.subrange(0, ctx.executed@.len() as int) =~= ctx.executed@);
            assert forall|k: int| 0 <= k < before.invoked@.len() implies ctx.invoked@[k] == before.invoked@[k]
                && ctx.outcomes@[k] == before.outcomes@[k] by {
                assert(ctx.invoked@.subrange(0, before.invoked@.len() as int)[k] == before.invoked@[k]);
                assert(ctx.outcomes@.subrange(0, before.invoked@.len() as int)[k] == before.outcomes@[k]);
            }
            assert forall|k: int| 0 <= k < ctx.invoked@.len() implies runner.ensures(
                (ctx.invoked@[k],),
                #[trigger] ctx.outcomes@[k],
            ) && (ctx.outcomes@[k] is Error ==> k == ctx.invoked@.len() - 1 && res == Ok::<
                ActionResult,
                DependencyCycle,
            >(ctx.outcomes@[k])) by {
                if k < before.invoked@.len() {
                    assert(runner.ensures((before.invoked@[k],), before.outcomes@[k]));
                }
            }
        }
        match res {
            Ok(ActionResult::Error(e)) => {
                return (ctx, Ok(ActionResult::Error(e)));
            },
            Err(c) => {
                return (ctx, Err(c));
            },
            Ok(other) => {
                proof {
                    assert(cn =~= v);
                    assert(ctx.executed@ =~= before.executed@ + v);
                    assert(whole =~= ctx.executed@ + rest);
                    assert forall|k: int| 0 <= k < i + 1 implies ctx.executed@.contains(
                        #[trigger] requested@[k],
                    ) by {
                        if k < i {
                            let x = requested@[k];
                            let m = choose|m: int|
                                0 <= m < before.executed@.len() && before.executed@[m] == x;
                            assert(ctx.executed@.subrange(0, before.executed@.len() as int)[m] == x);
                        }
                    }
                }
                last = other;
            },
        }
        i += 1;
    }
    proof {
        assert(requested@.subrange(i as int, requested@.len() as int) =~= Seq::<usize>::empty());
        assert(ctx.executed@ + Seq::<usize>::empty() =~= ctx.executed@);
        assert(whole.subrange(0, ctx.executed@.len() as int) =~= ctx.executed@);
    }
    (ctx, Ok(last))
}

/// The line reported when an action's runner has returned `result`: the
/// outcome of a named action, and a failure of any action.
pub open spec fn report_of(named: bool, result: ActionResult) -> Option<Seq<char>> {
    match result {
        ActionResult::Error(cause) => Some("[ERROR]: "@ + cause@),
        ActionResult::Done => if named { Some("[OK]"@) } else { None },
        ActionResult::Skip { reason: None } => if named { Some("[SKIPPED]"@) } else { None },
        ActionResult::Skip { reason: Some(why) } => if named { Some("[SKIPPED]: "@ + why@) } else { None },
    }
}

/// The line reported after running an action, if any.
pub fn report_line(named: bool, result: &ActionResult) -> (r: Option<String>)
    ensures
        r is Some <==> report_of(named, *result) is Some,
        r matches Some(line) ==> line@ == report_of(named, *result)->Some_0,
{
    match result {
        ActionResult::Error(cause) => Some(concat("[ERROR]: ", cause.as_str())),
        ActionResult::Done => if named { Some("[OK]".to_owned()) } else { None },
        ActionResult::Skip { reason: None } => if named { Some("[SKIPPED]".to_owned()) } else { None },
        ActionResult::Skip { reason: Some(why) } => if named {
            Some(concat("[SKIPPED]: ", why.as_str()))
        } else {
            None
        },
    }
}

/// The line reported before running a named action.
pub fn task_line(name: &str) -> (r: String)
    ensures
        r@ == "[TASK]: "@ + name@,
{
    concat("[TASK]: ", name)
}

} // verus!
