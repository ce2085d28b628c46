use vstd::prelude::*;
use crate::text::str_eq;
use crate::executor::{
    ActionResult, DependencyCycle, ExecutionContext, Graph, Node, dep_earlier, deps_view, is_prefix,
    lemma_runners_called_at_most_once, run_requested, runnable_of, visit_all,
};

verus! {

/// One node of the static task graph.
#[derive(Debug, Clone, Copy, PartialEq, Eq, Hash, Structural)]
pub enum Action {
    EnsureWasi,
    StubPlugin,
    EnsureWasmOpt,
    OptPlugin,
    BuildPlugin,
    PackagePlugin,
    CompileManual,
    CompileExample,
    CopyLicense,
    EnsureCargoAbout,
    ThirdPartyLicense,
    Package,
    InstallTypst,
    RunCI,
    All,
}

/// Number of actions in the table.
pub const ACTION_COUNT: usize = 15;

impl Action {
    /// Position of the action in the table.
    pub open spec fn spec_index(self) -> nat {
        match self {
            Action::EnsureWasi => 0,
            Action::StubPlugin => 1,
            Action::EnsureWasmOpt => 2,
            Action::OptPlugin => 3,
            Action::BuildPlugin => 4,
            Action::PackagePlugin => 5,
            Action::CompileManual => 6,
            Action::CompileExample => 7,
            Action::CopyLicense => 8,
            Action::EnsureCargoAbout => 9,
            Action::ThirdPartyLicense => 10,
            Action::Package => 11,
            Action::InstallTypst => 12,
            Action::RunCI => 13,
            Action::All => 14,
        }
    }

    /// Command-line token; empty when the action cannot be requested directly.
    pub open spec fn spec_token(self) -> Seq<char> {
        match self {
            Action::BuildPlugin => "build-plugin"@,
            Action::PackagePlugin => "package-plugin"@,
            Action::CompileManual => "build-manual"@,
            Action::Package => "package"@,
            Action::RunCI => "ci"@,
            Action::All => "all"@,
            _ => Seq::empty(),
        }
    }

    /// Display name; empty when running the action is not reported.
    pub open spec fn spec_name(self) -> Seq<char> {
        match self {
            Action::EnsureWasi => "prepare WASI SDK"@,
            Action::StubPlugin => "stub wasi"@,
            Action::EnsureWasmOpt => "prepare wasm-opt"@,
            Action::OptPlugin => "optimize wasm"@,
            Action::BuildPlugin => "build plugin"@,
            Action::PackagePlugin => "package plugin"@,
            Action::CompileManual => "compile manual"@,
            Action::CompileExample => "compile example"@,
            Action::ThirdPartyLicense => "generate 3rd-party license list"@,
            Action::Package => "package"@,
            _ => Seq::empty(),
        }
    }

    /// Declared dependencies, in declaration order.
    pub open spec fn spec_dependencies(self) -> Seq<Action> {
        match self {
            Action::StubPlugin => seq![Action::BuildPlugin],
            Action::OptPlugin => seq![Action::EnsureWasmOpt, Action::StubPlugin],
            Action::BuildPlugin => seq![Action::EnsureWasi],
            Action::PackagePlugin => seq![Action::StubPlugin, Action::OptPlugin],
            Action::CompileManual => seq![Action::PackagePlugin],
            Action::CompileExample => seq![Action::PackagePlugin],
            Action::Package => seq![
                Action::PackagePlugin,
                Action::CompileManual,
                Action::CompileExample,
                Action::CopyLicense,
                Action::ThirdPartyLicense,
            ],
            Action::RunCI => seq![Action::PackagePlugin, Action::InstallTypst, Action::CompileManual],
            Action::All => seq![Action::Package],
            _ => Seq::empty(),
        }
    }

    /// Whether the action carries work of its own besides its dependencies.
    pub open spec fn spec_has_runner(self) -> bool {
        match self {
            Action::PackagePlugin | Action::Package | Action::RunCI | Action::All => false,
            _ => true,
        }
    }

    /// The action at position `i` of the table.
    pub open spec fn spec_from_index(i: nat) -> Action {
        if i == 0 { Action::EnsureWasi }
        else if i == 1 { Action::StubPlugin }
        else if i == 2 { Action::EnsureWasmOpt }
        else if i == 3 { Action::OptPlugin }
        else if i == 4 { Action::BuildPlugin }
        else if i == 5 { Action::PackagePlugin }
        else if i == 6 { Action::CompileManual }
        else if i == 7 { Action::CompileExample }
        else if i == 8 { Action::CopyLicense }
        else if i == 9 { Action::EnsureCargoAbout }
        else if i == 10 { Action::ThirdPartyLicense }
        else if i == 11 { Action::Package }
        else if i == 12 { Action::InstallTypst }
        else if i == 13 { Action::RunCI }
        else { Action::All }
    }

    pub fn index(self) -> (r: usize)
        ensures
            r == self.spec_index(),
            r < ACTION_COUNT,
    {
        match self {
            Action::EnsureWasi => 0,
            Action::StubPlugin => 1,
            Action::EnsureWasmOpt => 2,
            Action::OptPlugin => 3,
            Action::BuildPlugin => 4,
            Action::PackagePlugin => 5,
            Action::CompileManual => 6,
            Action::CompileExample => 7,
            Action::CopyLicense => 8,
            Action::EnsureCargoAbout => 9,
            Action::ThirdPartyLicense => 10,
            Action::Package => 11,
            Action::InstallTypst => 12,
            Action::RunCI => 13,
            Action::All => 14,
        }
    }

    /// The action at position `i` of the table, if there is one.
    pub fn from_index(i: usize) -> (r: Option<Action>)
        ensures
            i < ACTION_COUNT <==> r is Some,
            r matches Some(a) ==> a.spec_index() == i && a == Action::spec_from_index(i as nat),
    {
        match i {
            0 => Some(Action::EnsureWasi),
            1 => Some(Action::StubPlugin),
            2 => Some(Action::EnsureWasmOpt),
            3 => Some(Action::OptPlugin),
            4 => Some(Action::BuildPlugin),
            5 => Some(Action::PackagePlugin),
            6 => Some(Action::CompileManual),
            7 => Some(Action::CompileExample),
            8 => Some(Action::CopyLicense),
            9 => Some(Action::EnsureCargoAbout),
            10 => Some(Action::ThirdPartyLicense),
            11 => Some(Action::Package),
            12 => Some(Action::InstallTypst),
            13 => Some(Action::RunCI),
            14 => Some(Action::All),
            _ => None,
        }
    }

    /// Command-line token of the action; `None` when it cannot be requested directly.
    pub fn token(self) -> (r: Option<&'static str>)
        ensures
            r is None <==> self.spec_token().len() == 0,
            r matches Some(t) ==> t@ == self.spec_token(),
    {
        proof {
            reveal_strlit("build-plugin");
            reveal_strlit("package-plugin");
            reveal_strlit("build-manual");
            reveal_strlit("package");
            reveal_strlit("ci");
            reveal_strlit("all");
        }
        match self {
            Action::BuildPlugin => Some("build-plugin"),
            Action::PackagePlugin => Some("package-plugin"),
            Action::CompileManual => Some("build-manual"),
            Action::Package => Some("package"),
            Action::RunCI => Some("ci"),
            Action::All => Some("all"),
            _ => None,
        }
    }

    /// Used for displaying the current step when running actions.
    ///
    /// If `None` is returned, the action is run without being reported.
    pub fn name(self) -> (r: Option<&'static str>)
        ensures
            r is None <==> self.spec_name().len() == 0,
            r matches Some(n) ==> n@ == self.spec_name(),
    {
        proof {
            reveal_strlit("prepare WASI SDK");
            reveal_strlit("stub wasi");
            reveal_strlit("prepare wasm-opt");
            reveal_strlit("optimize wasm");
            reveal_strlit("build plugin");
            reveal_strlit("package plugin");
            reveal_strlit("compile manual");
            reveal_strlit("compile example");
            reveal_strlit("generate 3rd-party license list");
            reveal_strlit("package");
        }
        match self {
            Action::EnsureWasi => Some("prepare WASI SDK"),
            Action::StubPlugin => Some("stub wasi"),
            Action::EnsureWasmOpt => Some("prepare wasm-opt"),
            Action::OptPlugin => Some("optimize wasm"),
            Action::BuildPlugin => Some("build plugin"),
            Action::PackagePlugin => Some("package plugin"),
            Action::CompileManual => Some("compile manual"),
            Action::CompileExample => Some("compile example"),
            Action::ThirdPartyLicense => Some("generate 3rd-party license list"),
            Action::Package => Some("package"),
            _ => None,
        }
    }

    /// Provides the list of dependencies of the action.
    pub fn dependencies(self) -> (r: Vec<Action>)
        ensures
            r@ == self.spec_dependencies(),
    {
        let r = match self {
            Action::StubPlugin => vec![Action::BuildPlugin],
            Action::OptPlugin => vec![Action::EnsureWasmOpt, Action::StubPlugin],
            Action::BuildPlugin => vec![Action::EnsureWasi],
            Action::PackagePlugin => vec![Action::StubPlugin, Action::OptPlugin],
            Action::CompileManual => vec![Action::PackagePlugin],
            Action::CompileExample => vec![Action::PackagePlugin],
            Action::Package => vec![
                Action::PackagePlugin,
                Action::CompileManual,
                Action::CompileExample,
                Action::CopyLicense,
                Action::ThirdPartyLicense,
            ],
            Action::RunCI => vec![Action::PackagePlugin, Action::InstallTypst, Action::CompileManual],
            Action::All => vec![Action::Package],
            _ => Vec::new(),
        };
        proof {
            assert(r@ =~= self.spec_dependencies());
        }
        r
    }

    /// Whether the action has a runner of its own.
    pub fn has_runner(self) -> (r: bool)
        ensures
            r == self.spec_has_runner(),
    {
        match self {
            Action::PackagePlugin | Action::Package | Action::RunCI | Action::All => false,
            _ => true,
        }
    }

    /// Tries parsing a command-line token into an `Action`.
    /// Returns the input token on failure.
    pub fn parse_arg(argument: &str) -> (r: Result<Action, String>)
        ensures
            r matches Ok(a) ==> a.spec_token() == argument@ && argument@.len() > 0,
            r is Err <==> (forall|a: Action| a.spec_token().len() == 0 || a.spec_token() != argument@),
            r matches Err(s) ==> s@ == argument@,
    {
        let mut i: usize = 0;
        while i < ACTION_COUNT
            invariant
                0 <= i <= ACTION_COUNT,
                forall|j: nat| j < i ==> {
                    let a = #[trigger] Action::spec_from_index(j);
                    a.spec_token().len() == 0 || a.spec_token() != argument@
                },
            decreases ACTION_COUNT - i,
        {
            let a = Action::from_index(i).unwrap();
            if let Some(t) = a.token() {
                if str_eq(t, argument) {
                    return Ok(a);
                }
            }
            i += 1;
        }
        proof {
            assert forall|a: Action| a.spec_token().len() == 0 || a.spec_token() != argument@ by {
                let j = a.spec_index();
                assert(Action::spec_from_index(j) == a);
            }
        }
        Err(argument.to_owned())
    }
}

impl Default for Action {
    /// Running everything is the default request.
    fn default() -> (r: Action)
        ensures
            r == Action::All,
    {
        Action::All
    }
}

/// Indices of the declared dependencies of `a`.
pub open spec fn dependency_indices(a: Action) -> Seq<usize> {
    a.spec_dependencies().map_values(|d: Action| d.spec_index() as usize)
}

/// Declared dependencies of every action of the table, by position.
pub open spec fn table_deps() -> Seq<Seq<usize>> {
    Seq::new(ACTION_COUNT as nat, |i: int| dependency_indices(Action::spec_from_index(i as nat)))
}

/// The members of `s` whose action has a runner, in order.
pub open spec fn with_runner(s: Seq<usize>) -> Seq<usize>
    decreases s.len(),
{
    if s.len() == 0 {
        Seq::empty()
    } else if Action::spec_from_index(s.last() as nat).spec_has_runner() {
        with_runner(s.drop_last()).push(s.last())
    } else {
        with_runner(s.drop_last())
    }
}

/// Positions in the table of the requested actions.
pub open spec fn request_indices(requested: Seq<Action>) -> Seq<usize> {
    requested.map_values(|a: Action| a.spec_index() as usize)
}

proof fn lemma_with_runner(g: Graph, s: Seq<usize>)
    requires
        g.len() == ACTION_COUNT,
        forall|i: int| 0 <= i < ACTION_COUNT ==> g.runnable(i) == Action::spec_from_index(i as nat).spec_has_runner(),
        forall|i: int| 0 <= i < s.len() ==> (#[trigger] s[i]) < ACTION_COUNT,
    ensures
        runnable_of(g, s) == with_runner(s),
    decreases s.len(),
{
    if s.len() > 0 {
        assert(s[s.len() - 1] < ACTION_COUNT);
        lemma_with_runner(g, s.drop_last());
    }
}

/// The `j`-th table dependency of `e[i]` appears in `e` before position `i`.
pub open spec fn table_dep_earlier(e: Seq<usize>, i: int, j: int) -> bool {
    exists|k: int| 0 <= k < i && e[k] == dependency_indices(Action::spec_from_index(e[i] as nat))[j]
}

/// Every action in `e` comes after all of its table dependencies.
pub open spec fn ran_after_table_deps(e: Seq<usize>) -> bool {
    forall|i: int, j: int|
        0 <= i < e.len() && 0 <= j < dependency_indices(Action::spec_from_index(e[i] as nat)).len()
            ==> #[trigger] table_dep_earlier(e, i, j)
}

/// Longest chain of dependencies below each action of the table.
pub open spec fn table_rank(i: int) -> nat {
    if i == 0 { 0 }         // EnsureWasi
    else if i == 4 { 1 }    // BuildPlugin
    else if i == 1 { 2 }    // StubPlugin
    else if i == 2 { 0 }    // EnsureWasmOpt
    else if i == 3 { 3 }    // OptPlugin
    else if i == 5 { 4 }    // PackagePlugin
    else if i == 6 { 5 }    // CompileManual
    else if i == 7 { 5 }    // CompileExample
    else if i == 11 { 6 }   // Package
    else if i == 13 { 6 }   // RunCI
    else if i == 14 { 7 }   // All
    else { 0 }
}

impl Action {
    /// The whole table as a dependency graph: node `i` is the action at
    /// position `i`.
    pub fn graph() -> (g: Graph)
        ensures
            g.wf(),
            g.len() == ACTION_COUNT,
            forall|i: int| 0 <= i < ACTION_COUNT ==> #[trigger] g.deps(i) == dependency_indices(Action::spec_from_index(i as nat))
                && g.runnable(i) == Action::spec_from_index(i as nat).spec_has_runner(),
            deps_view(g) == table_deps(),
    {
        let mut nodes: Vec<Node> = Vec::new();
        let mut i: usize = 0;
        while i < ACTION_COUNT
            invariant
                0 <= i <= ACTION_COUNT,
                nodes@.len() == i,
                forall|k: int| 0 <= k < i ==> (#[trigger] nodes@[k]).deps@ == dependency_indices(Action::spec_from_index(k as nat))
                    && nodes@[k].runnable == Action::spec_from_index(k as nat).spec_has_runner(),
            decreases ACTION_COUNT - i,
        {
            let a = Action::from_index(i).unwrap();
            let deps = a.dependencies();
            let mut idx: Vec<usize> = Vec::new();
            let mut j: usize = 0;
            while j < deps.len()
                invariant
                    0 <= j <= deps@.len(),
                    deps@ == a.spec_dependencies(),
                    idx@ == deps@.subrange(0, j as int).map_values(|d: Action| d.spec_index() as usize),
                decreases deps@.len() - j,
            {
                let x = deps[j].index();
                idx.push(x);
                proof {
                    assert(deps@.subrange(0, j + 1).map_values(|d: Action| d.spec_index() as usize) =~= deps@.subrange(
                        0,
                        j as int,
                    ).map_values(|d: Action| d.spec_index() as usize).push(x));
                }
                j += 1;
            }
            proof {
                assert(deps@.subrange(0, deps@.len() as int) =~= deps@);
            }
            nodes.push(Node { deps: idx, runnable: a.has_runner() });
            i += 1;
        }
        let g = Graph { nodes };
        proof {
            assert forall|i: int, j: int| 0 <= i < g.len() && 0 <= j < g.deps(i).len() implies (#[trigger] g.deps(i)[j]) < g.len() by {
                let a = Action::spec_from_index(i as nat);
                assert(g.deps(i) == dependency_indices(a));
                let d = a.spec_dependencies()[j];
                assert(g.deps(i)[j] == d.spec_index() as usize);
            }
            assert(deps_view(g) =~= table_deps()) by {
                assert forall|i: int| 0 <= i < ACTION_COUNT implies deps_view(g)[i] == table_deps()[i] by {
                    assert(g.deps(i) == dependency_indices(Action::spec_from_index(i as nat)));
                }
            }
        }
        g
    }

    /// Runs the requested actions, each after its dependencies, against one
    /// fresh context, and returns that context with the outcome. The table
    /// has no dependency cycle, so none is reported.
    pub fn run<F: Fn(usize) -> ActionResult>(requested: &Vec<Action>, runner: &F) -> (r: (
        ExecutionContext,
        Result<ActionResult, DependencyCycle>,
    ))
        requires
            forall|i: usize| runner.requires((i,)),
        ensures
            r.1 is Ok,
            r.0.running@.len() == 0,
            r.0.executed@.no_duplicates(),
            r.0.invoked@.no_duplicates(),
            r.0.invoked@ == with_runner(r.0.executed@),
            ran_after_table_deps(r.0.executed@),
            is_prefix(r.0.executed@, visit_all(table_deps(), request_indices(requested@), Seq::empty(), ACTION_COUNT as nat)),
            r.1 matches Ok(res) && !(res is Error) ==> r.0.executed@ == visit_all(
                table_deps(),
                request_indices(requested@),
                Seq::empty(),
                ACTION_COUNT as nat,
            ),
            r.1 matches Ok(res) && !(res is Error) ==> forall|i: int|
                0 <= i < requested@.len() ==> r.0.executed@.contains(#[trigger] requested@[i].spec_index() as usize),
            forall|i: int|
                0 <= i < r.0.invoked@.len() ==> runner.ensures((r.0.invoked@[i],), #[trigger] r.0.outcomes@[i]),
            forall|i: int|
                0 <= i < r.0.invoked@.len() && (#[trigger] r.0.outcomes@[i]) is Error ==> i == r.0.invoked@.len() - 1
                    && r.1 == Ok::<ActionResult, DependencyCycle>(r.0.outcomes@[i]),
            r.1 matches Ok(ActionResult::Error(e)) ==> r.0.invoked@.len() > 0 && r.0.executed@.last()
                == r.0.invoked@.last() && r.0.outcomes@.last() == ActionResult::Error(e),
    {
        let g = Action::graph();
        let mut ids: Vec<usize> = Vec::new();
        let mut i: usize = 0;
        while i < requested.len()
            invariant
                0 <= i <= requested@.len(),
                ids@.len() == i,
                forall|k: int| 0 <= k < i ==> (#[trigger] ids@[k]) == requested@[k].spec_index() && ids@[k] < ACTION_COUNT,
            decreases requested@.len() - i,
        {
            ids.push(requested[i].index());
            i += 1;
        }
        proof {
            lemma_table_acyclic(g);
        }
        let (ctx, r) = run_requested(&g, &ids, runner);
        proof {
            assert(ids@ =~= request_indices(requested@));
            assert forall|i: int| 0 <= i < ctx.executed@.len() implies (#[trigger] ctx.executed@[i]) < ACTION_COUNT by {}
            assert forall|i: int| 0 <= i < ACTION_COUNT implies g.runnable(i) == Action::spec_from_index(
                i as nat,
            ).spec_has_runner() by {
                assert(g.deps(i) == dependency_indices(Action::spec_from_index(i as nat)));
            }
            lemma_with_runner(g, ctx.executed@);
            lemma_runners_called_at_most_once(g, ctx);
            assert forall|x: usize| #[trigger] ctx.invoked@.contains(x) implies ctx.executed@.contains(x)
                && Action::spec_from_index(x as nat).spec_has_runner() by {
                crate::executor::lemma_invoked_runnable(g, ctx.executed@, x);
                let k = choose|k: int| 0 <= k < ctx.executed@.len() && ctx.executed@[k] == x;
                assert(ctx.executed@[k] < g.len());
                assert(g.deps(x as int) == dependency_indices(Action::spec_from_index(x as nat)));
            }
            assert forall|i: int, j: int|
                0 <= i < ctx.executed@.len() && 0 <= j < dependency_indices(
                    Action::spec_from_index(ctx.executed@[i] as nat),
                ).len() implies #[trigger] table_dep_earlier(ctx.executed@, i, j) by {
                assert(ctx.executed@[i] < ACTION_COUNT);
                assert(g.deps(ctx.executed@[i] as int) == dependency_indices(Action::spec_from_index(ctx.executed@[i] as nat)));
                assert(dep_earlier(g, ctx.executed@, i, j));
                let k = choose|k: int| 0 <= k < i && ctx.executed@[k] == g.deps(ctx.executed@[i] as int)[j];
                assert(ctx.executed@[k] == dependency_indices(Action::spec_from_index(ctx.executed@[i] as nat))[j]);
            }
            if r is Ok && !(r->Ok_0 is Error) {
                assert forall|i: int| 0 <= i < requested@.len() implies ctx.executed@.contains(
                    #[trigger] requested@[i].spec_index() as usize,
                ) by {
                    assert(ctx.executed@.contains(ids@[i]));
                }
            }
        }
        (ctx, r)
    }
}

/// The table's dependency graph has no cycle.
pub proof fn lemma_table_acyclic(g: Graph)
    requires
        g.len() == ACTION_COUNT,
        forall|i: int| 0 <= i < ACTION_COUNT ==> #[trigger] g.deps(i) == dependency_indices(Action::spec_from_index(i as nat)),
    ensures
        g.acyclic(),
{
    let rank = |i: int| table_rank(i);
    assert forall|a: int, d: int| #[trigger] g.edge(a, d) implies rank(d) < rank(a) by {
        let x = Action::spec_from_index(a as nat);
        let ds = dependency_indices(x);
        assert(g.deps(a) == ds);
        let k = choose|k: int| 0 <= k < ds.len() && ds[k] == d as usize;
        assert(ds[k] == x.spec_dependencies()[k].spec_index() as usize);
    }
    assert(g.ranked_by(rank));
}

} // verus!
