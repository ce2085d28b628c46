use std::cell::RefCell;
use xtask_engine::executor::{
    report_line, run_action, run_requested, task_line, ActionResult, ExecutionContext, Graph, Node,
};
use xtask_engine::Action;

fn node(deps: &[usize]) -> Node {
    Node { deps: deps.to_vec(), runnable: true }
}

fn graph(nodes: Vec<Node>) -> Graph {
    Graph { nodes }
}

const A: usize = 0;
const B: usize = 1;
const C: usize = 2;
const D: usize = 3;

fn diamond() -> Graph {
    graph(vec![node(&[]), node(&[A]), node(&[A]), node(&[B, C])])
}

#[test]
fn diamond_runs_shared_dependency_once_in_order() {
    let g = diamond();
    let calls = RefCell::new(Vec::new());
    let runner = |i: usize| {
        calls.borrow_mut().push(i);
        ActionResult::Done
    };
    let mut ctx = ExecutionContext::new();
    let r = run_action(&g, &mut ctx, D, &runner);
    assert_eq!(r, Ok(ActionResult::Done));
    assert_eq!(*calls.borrow(), vec![A, B, C, D]);
    assert_eq!(ctx.executed, vec![A, B, C, D]);
    assert!(ctx.running.is_empty());
}

#[test]
fn fan_in_runs_each_runner_at_most_once() {
    // every node depends on all earlier ones
    let g = graph(vec![node(&[]), node(&[0]), node(&[0, 1]), node(&[0, 1, 2]), node(&[0, 1, 2, 3])]);
    let calls = RefCell::new(vec![0usize; 5]);
    let runner = |i: usize| {
        calls.borrow_mut()[i] += 1;
        ActionResult::Done
    };
    let mut ctx = ExecutionContext::new();
    let r = run_action(&g, &mut ctx, 4, &runner);
    assert_eq!(r, Ok(ActionResult::Done));
    assert_eq!(*calls.borrow(), vec![1, 1, 1, 1, 1]);
}

#[test]
fn second_run_is_skipped_and_calls_nothing() {
    let g = diamond();
    let calls = RefCell::new(0usize);
    let runner = |_i: usize| {
        *calls.borrow_mut() += 1;
        ActionResult::Done
    };
    let mut ctx = ExecutionContext::new();
    assert_eq!(run_action(&g, &mut ctx, D, &runner), Ok(ActionResult::Done));
    assert_eq!(*calls.borrow(), 4);
    let second = run_action(&g, &mut ctx, D, &runner);
    assert_eq!(second, Ok(ActionResult::Skip { reason: Some("already executed".to_string()) }));
    assert_eq!(*calls.borrow(), 4);
    for a in [A, B, C] {
        let again = run_action(&g, &mut ctx, a, &runner);
        assert_eq!(again, Ok(ActionResult::Skip { reason: Some("already executed".to_string()) }));
    }
    assert_eq!(*calls.borrow(), 4);
}

#[test]
fn cycle_is_reported_before_any_runner() {
    // A -> B -> A
    let g = graph(vec![node(&[1]), node(&[0])]);
    let calls = RefCell::new(0usize);
    let runner = |_i: usize| {
        *calls.borrow_mut() += 1;
        ActionResult::Done
    };
    let mut ctx = ExecutionContext::new();
    let r = run_action(&g, &mut ctx, 0, &runner);
    let cycle = r.expect_err("cycle expected");
    assert_eq!(cycle.path, vec![0, 1, 0]);
    assert_eq!(*calls.borrow(), 0);
    assert!(ctx.executed.is_empty());
    assert!(ctx.running.is_empty());
}

#[test]
fn cycle_below_the_request_keeps_the_visit_path() {
    // 0 -> 1 -> 2 -> 1
    let g = graph(vec![node(&[1]), node(&[2]), node(&[1])]);
    let runner = |_i: usize| ActionResult::Done;
    let mut ctx = ExecutionContext::new();
    let cycle = run_action(&g, &mut ctx, 0, &runner).expect_err("cycle expected");
    assert_eq!(cycle.path, vec![0, 1, 2, 1]);
}

#[test]
fn error_stops_later_siblings_and_parent() {
    // 3 depends on 0, 1, 2; 1 fails
    let g = graph(vec![node(&[]), node(&[]), node(&[]), node(&[0, 1, 2])]);
    let calls = RefCell::new(Vec::new());
    let runner = |i: usize| {
        calls.borrow_mut().push(i);
        if i == 1 {
            ActionResult::error("broken".to_string())
        } else {
            ActionResult::Done
        }
    };
    let mut ctx = ExecutionContext::new();
    let r = run_action(&g, &mut ctx, 3, &runner);
    assert_eq!(r, Ok(ActionResult::Error("broken".to_string())));
    assert_eq!(*calls.borrow(), vec![0, 1]);
    assert!(!ctx.executed.contains(&3));
    assert!(!ctx.executed.contains(&2));
}

#[test]
fn skip_result_is_returned_and_dependents_continue() {
    let g = graph(vec![node(&[]), node(&[0])]);
    let runner = |i: usize| {
        if i == 0 {
            ActionResult::Skip { reason: Some("up to date".to_string()) }
        } else {
            ActionResult::Done
        }
    };
    let mut ctx = ExecutionContext::new();
    assert_eq!(run_action(&g, &mut ctx, 1, &runner), Ok(ActionResult::Done));
    assert_eq!(ctx.executed, vec![0, 1]);
}

#[test]
fn node_without_runner_is_done_silently() {
    let g = graph(vec![node(&[]), Node { deps: vec![0], runnable: false }]);
    let calls = RefCell::new(Vec::new());
    let runner = |i: usize| {
        calls.borrow_mut().push(i);
        ActionResult::Done
    };
    let mut ctx = ExecutionContext::new();
    assert_eq!(run_action(&g, &mut ctx, 1, &runner), Ok(ActionResult::Done));
    assert_eq!(*calls.borrow(), vec![0]);
    assert_eq!(ctx.executed, vec![0, 1]);
}

#[test]
fn requests_share_one_context() {
    let g = diamond();
    let calls = RefCell::new(Vec::new());
    let runner = |i: usize| {
        calls.borrow_mut().push(i);
        ActionResult::Done
    };
    let (ctx, r) = run_requested(&g, &vec![B, C, D], &runner);
    assert_eq!(r, Ok(ActionResult::Done));
    assert_eq!(*calls.borrow(), vec![A, B, C, D]);
    assert_eq!(ctx.executed, vec![A, B, C, D]);
}

#[test]
fn requests_stop_at_first_error() {
    let g = diamond();
    let runner = |i: usize| if i == B { ActionResult::error("no".to_string()) } else { ActionResult::Done };
    let (ctx, r) = run_requested(&g, &vec![B, C], &runner);
    assert_eq!(r, Ok(ActionResult::Error("no".to_string())));
    assert!(!ctx.executed.contains(&C));
}

#[test]
fn static_table_runs_everything_once() {
    let calls = RefCell::new(Vec::new());
    let runner = |i: usize| {
        calls.borrow_mut().push(i);
        ActionResult::Done
    };
    let (ctx, r) = Action::run(&vec![Action::All], &runner);
    assert_eq!(r, Ok(ActionResult::Done));
    assert!(ctx.executed.contains(&Action::All.index()));
    // all but EnsureCargoAbout, InstallTypst and RunCI are reachable from All
    assert_eq!(ctx.executed.len(), 12);
    let calls = calls.borrow();
    let mut sorted = calls.clone();
    sorted.sort();
    sorted.dedup();
    assert_eq!(sorted.len(), calls.len());
    // every action reachable from All that has a runner
    let expected: Vec<usize> = [
        Action::EnsureWasi,
        Action::StubPlugin,
        Action::EnsureWasmOpt,
        Action::OptPlugin,
        Action::BuildPlugin,
        Action::CompileManual,
        Action::CompileExample,
        Action::CopyLicense,
        Action::ThirdPartyLicense,
    ]
    .iter()
    .map(|a| a.index())
    .collect();
    let mut expected_sorted = expected.clone();
    expected_sorted.sort();
    assert_eq!(sorted, expected_sorted);
    // BuildPlugin before StubPlugin, EnsureWasi before BuildPlugin
    let pos = |a: Action| calls.iter().position(|&c| c == a.index()).unwrap();
    assert!(pos(Action::EnsureWasi) < pos(Action::BuildPlugin));
    assert!(pos(Action::BuildPlugin) < pos(Action::StubPlugin));
    assert!(pos(Action::StubPlugin) < pos(Action::OptPlugin));
}

#[test]
fn runner_outcome_is_returned_as_is() {
    let g = graph(vec![node(&[])]);
    let runner = |_i: usize| ActionResult::Skip { reason: Some("nothing to do".to_string()) };
    let mut ctx = ExecutionContext::new();
    assert_eq!(
        run_action(&g, &mut ctx, 0, &runner),
        Ok(ActionResult::Skip { reason: Some("nothing to do".to_string()) })
    );
}

#[test]
fn visit_is_depth_first_in_declaration_order() {
    // 0 -> [1, 2], 1 -> [3], 2 -> [3, 4]; 5 is unrelated
    let g = graph(vec![node(&[1, 2]), node(&[3]), node(&[3, 4]), node(&[]), node(&[]), node(&[])]);
    let calls = RefCell::new(Vec::new());
    let runner = |i: usize| {
        calls.borrow_mut().push(i);
        ActionResult::Done
    };
    let mut ctx = ExecutionContext::new();
    assert_eq!(run_action(&g, &mut ctx, 0, &runner), Ok(ActionResult::Done));
    assert_eq!(ctx.executed, vec![3, 1, 4, 2, 0]);
    assert_eq!(*calls.borrow(), vec![3, 1, 4, 2, 0]);
}

#[test]
fn failing_dependency_is_passed_up_unchanged() {
    // 0 -> [1, 2], 1 -> [3]; 3 fails
    let g = graph(vec![node(&[1, 2]), node(&[3]), node(&[]), node(&[])]);
    let calls = RefCell::new(Vec::new());
    let runner = |i: usize| {
        calls.borrow_mut().push(i);
        if i == 3 { ActionResult::error("cause".to_string()) } else { ActionResult::Done }
    };
    let mut ctx = ExecutionContext::new();
    assert_eq!(run_action(&g, &mut ctx, 0, &runner), Ok(ActionResult::Error("cause".to_string())));
    assert_eq!(*calls.borrow(), vec![3]);
    assert_eq!(ctx.executed, vec![3]);
    assert!(ctx.running.is_empty());
}

#[test]
fn report_lines_follow_the_outcome() {
    assert_eq!(task_line("build plugin"), "[TASK]: build plugin");
    assert_eq!(report_line(true, &ActionResult::Done), Some("[OK]".to_string()));
    assert_eq!(report_line(true, &ActionResult::Skip { reason: None }), Some("[SKIPPED]".to_string()));
    assert_eq!(
        report_line(true, &ActionResult::Skip { reason: Some("cached".to_string()) }),
        Some("[SKIPPED]: cached".to_string())
    );
    assert_eq!(report_line(false, &ActionResult::Done), None);
    assert_eq!(report_line(false, &ActionResult::Skip { reason: Some("x".to_string()) }), None);
    assert_eq!(report_line(false, &ActionResult::Error("boom".to_string())), Some("[ERROR]: boom".to_string()));
}
