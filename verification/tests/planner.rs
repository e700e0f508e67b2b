use auralis::permissions::{AuthorizedToolRuntime, PermissionPolicy};
use auralis::planner::{
    direct_report, run_direct, run_plan, PlanBudget, PlanStepStatus, Planner, PlannerTask, ReferencePlanner,
};
use auralis::tool_registry::{ReferenceToolExecutor, ToolRegistry};
use auralis::tool_protocol::{ToolErrorSeverity, ToolResponse};

fn runtime(
    registry: &ToolRegistry,
) -> (AuthorizedToolRuntime, ReferenceToolExecutor) {
    let policy = PermissionPolicy::default()
        .allow_tool("lookup", 1)
        .allow_tool("ref.error", 1)
        .allow_tool("ref.echo", 1);
    (
        AuthorizedToolRuntime::new(registry.catalog(), policy).unwrap(),
        registry.reference_executor(),
    )
}

#[test]
fn plan_is_deterministic_inspectable_and_budgeted() {
    let planner = ReferencePlanner;
    let task = PlannerTask::Lookup {
        key: "city-2".into(),
    };
    let a = planner.plan(&task, PlanBudget::default()).unwrap();
    let b = planner.plan(&task, PlanBudget::default()).unwrap();
    assert_eq!(a, b);
    assert_eq!(a.fingerprint().unwrap(), b.fingerprint().unwrap());
    let text = a.canonical().unwrap();
    assert!(text.contains("auralis_plan=1"));
    assert!(text.contains("step.0.action=tool"));
    assert!(text.contains("step.1.action=finish-from-step"));
}

#[test]
fn lookup_plan_replays_exactly_with_authorized_reference_tool() {
    let registry = ToolRegistry::with_reference_tools().unwrap();
    let planner = ReferencePlanner;
    let task = PlannerTask::Lookup {
        key: "city-2".into(),
    };

    let plan = planner.plan(&task, PlanBudget::default()).unwrap();
    let (mut runtime_a, mut executor_a) = runtime(&registry);
    let a = run_plan(
        &task,
        &planner,
        plan.clone(),
        &registry,
        &mut runtime_a,
        &mut executor_a,
    );
    let (mut runtime_b, mut executor_b) = runtime(&registry);
    let b = run_plan(
        &task,
        &planner,
        plan,
        &registry,
        &mut runtime_b,
        &mut executor_b,
    );

    assert!(a.success && b.success);
    assert_eq!(a.answer.as_deref(), Some("1002"));
    assert_eq!(a.answer, b.answer);
    assert_eq!(a.steps_executed, b.steps_executed);
    assert_eq!(a.tool_calls, b.tool_calls);
    assert_eq!(a.replans, 0);
    assert_eq!(runtime_a.audit().len(), 1);
    assert_eq!(executor_a.invocations(), 1);
}

#[test]
fn recoverable_error_stops_then_replans_without_silent_continuation() {
    let registry = ToolRegistry::with_reference_tools().unwrap();
    let planner = ReferencePlanner;
    let task = PlannerTask::RecoverThenEcho {
        text: "recovered".into(),
    };
    let plan = planner.plan(&task, PlanBudget::default()).unwrap();
    let (mut runtime, mut executor) = runtime(&registry);
    let report = run_plan(
        &task,
        &planner,
        plan,
        &registry,
        &mut runtime,
        &mut executor,
    );

    assert!(report.success);
    assert_eq!(report.answer.as_deref(), Some("recovered"));
    assert_eq!(report.recoverable_errors, 1);
    assert_eq!(report.replans, 1);
    assert_eq!(report.tool_calls, 2);
    assert_eq!(report.plan_revision, 2);
    assert_eq!(runtime.audit().len(), 2);
}

#[test]
fn direct_strategy_does_not_replan_recoverable_error() {
    let registry = ToolRegistry::with_reference_tools().unwrap();
    let task = PlannerTask::RecoverThenEcho {
        text: "recovered".into(),
    };
    let (mut runtime, mut executor) = runtime(&registry);
    let direct = run_direct(&task, &registry, &mut runtime, &mut executor);
    assert!(!direct.success);
    assert_eq!(direct.recoverable_errors, 1);
    assert_eq!(direct.replans, 0);
    assert_eq!(direct.tool_calls, 1);
}

#[test]
fn tool_and_step_budgets_fail_closed() {
    let registry = ToolRegistry::with_reference_tools().unwrap();
    let planner = ReferencePlanner;
    let task = PlannerTask::Lookup {
        key: "city-1".into(),
    };
    let budget = PlanBudget {
        max_steps: 2,
        max_tool_calls: 1,
        max_timeout_ms: 50,
    };
    let plan = planner.plan(&task, budget).unwrap();
    let (mut runtime, mut executor) = runtime(&registry);
    let report = run_plan(
        &task,
        &planner,
        plan,
        &registry,
        &mut runtime,
        &mut executor,
    );
    assert!(!report.success);
    assert!(report.error.unwrap().contains("timeout budget"));
    assert_eq!(executor.invocations(), 0);
}

#[test]
fn dependency_failure_is_not_skipped() {
    let registry = ToolRegistry::with_reference_tools().unwrap();
    let planner = ReferencePlanner;
    let task = PlannerTask::Lookup {
        key: "city-1".into(),
    };
    let mut plan = planner.plan(&task, PlanBudget::default()).unwrap();
    plan.steps[0].status = PlanStepStatus::Failed;
    let (mut runtime, mut executor) = runtime(&registry);
    let report = run_plan(
        &task,
        &planner,
        plan,
        &registry,
        &mut runtime,
        &mut executor,
    );
    assert!(!report.success);
    assert!(report.error.unwrap().contains("incomplete"));
    assert_eq!(executor.invocations(), 0);
}


#[test]
fn direct_report_follows_the_tool_response() {
    let ok = direct_report(ToolResponse::result("direct:s1", "1002"), 100);
    assert!(ok.success);
    assert_eq!(ok.answer, Some("1002".to_string()));
    assert_eq!(ok.error, None);
    assert_eq!(ok.tool_calls, 1);
    assert_eq!(ok.declared_timeout_ms, 100);
    let busy = direct_report(ToolResponse::error("direct:s1", ToolErrorSeverity::Recoverable, "busy", "later"), 100);
    assert!(!busy.success);
    assert_eq!(busy.answer, None);
    assert_eq!(busy.error, Some("busy".to_string()));
    assert_eq!(busy.recoverable_errors, 1);
    let fatal = direct_report(ToolResponse::error("direct:s1", ToolErrorSeverity::Fatal, "down", "gone"), 50);
    assert_eq!(fatal.error, Some("down".to_string()));
    assert_eq!(fatal.recoverable_errors, 0);
    assert_eq!(fatal.declared_timeout_ms, 50);
}
