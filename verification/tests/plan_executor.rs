use auralis::permissions::{AuthorizedToolRuntime, PermissionPolicy};
use auralis::plan_executor::{
    execute_plan, DecisionKind, ExecutorPolicy, ExecutorReport, MachineStatus, EXECUTOR_SCHEMA_VERSION,
};
use auralis::planner::{
    Plan, PlanAction, PlanBudget, PlanStep, PlanStepStatus, Planner, PlannerError, PlannerTask, ReferencePlanner,
};
use auralis::tool_protocol::{ToolArgument, ToolRequest, ToolResponse, ToolValue};
use auralis::tool_registry::{ReferenceToolExecutor, ToolRegistry};

fn runtime(registry: &ToolRegistry) -> (AuthorizedToolRuntime, ReferenceToolExecutor) {
    let policy = PermissionPolicy::default()
        .allow_tool("lookup", 1)
        .allow_tool("ref.error", 1)
        .allow_tool("ref.echo", 1);
    (
        AuthorizedToolRuntime::new(registry.catalog(), policy).unwrap(),
        registry.reference_executor(),
    )
}

fn run(task: &PlannerTask, policy: ExecutorPolicy) -> ExecutorReport {
    let registry = ToolRegistry::with_reference_tools().unwrap();
    let planner = ReferencePlanner;
    let plan = planner.plan(task, PlanBudget::default()).unwrap();
    let (mut runtime, mut executor) = runtime(&registry);
    execute_plan(
        task,
        &planner,
        plan,
        &registry,
        &mut runtime,
        &mut executor,
        policy,
    )
}

#[test]
fn lookup_machine_confirms_and_replays_the_same_decision_log() {
    let task = PlannerTask::Lookup {
        key: "city-2".into(),
    };
    let a = run(&task, ExecutorPolicy::default());
    let b = run(&task, ExecutorPolicy::default());
    assert!(a.success && b.success);
    assert_eq!(a.answer.as_deref(), Some("1002"));
    assert_eq!(a.decision_log(), b.decision_log());
    assert_eq!(a.decision_fingerprint(), b.decision_fingerprint());
    assert!(a.decisions.iter().any(|d| d.kind == DecisionKind::Admit));
    assert!(a.decisions.iter().any(|d| d.kind == DecisionKind::Confirm));
    assert!(a.decisions.iter().any(|d| d.kind == DecisionKind::Finish));
    let trace = a.to_trace("exec-lookup");
    assert_eq!(trace.events.len(), a.decisions.len());
    assert_eq!(trace.canonical(), b.to_trace("exec-lookup").canonical());
}

#[test]
fn failed_step_skips_dependents_instead_of_continuing() {
    let registry = ToolRegistry::with_reference_tools().unwrap();
    let planner = ReferencePlanner;
    let task = PlannerTask::RecoverThenEcho {
        text: "recovered".into(),
    };
    let mut plan = planner.plan(&task, PlanBudget::default()).unwrap();
    plan.steps.push(PlanStep {
        id: "blocked".into(),
        depends_on: vec!["s1".into()],
        completion: "must not run after s1 fails without replan".into(),
        status: PlanStepStatus::Pending,
        action: PlanAction::FinishLiteral("leaked".into()),
    });
    let (mut runtime, mut executor) = runtime(&registry);
    let mut policy = ExecutorPolicy::default();
    policy.max_retries_per_step = 0;
    let report = execute_plan(
        &task,
        &NoReplan,
        plan,
        &registry,
        &mut runtime,
        &mut executor,
        policy,
    );
    assert!(!report.success);
    assert_eq!(report.skipped, 1);
    assert!(report.decisions.iter().any(|d| d.kind == DecisionKind::Skip));
    assert_ne!(report.answer.as_deref(), Some("leaked"));
}

#[test]
fn recoverable_error_retries_then_replans() {
    let task = PlannerTask::RecoverThenEcho {
        text: "recovered".into(),
    };
    let report = run(&task, ExecutorPolicy::default());
    assert!(report.success);
    assert_eq!(report.answer.as_deref(), Some("recovered"));
    assert_eq!(report.retries, 1);
    assert_eq!(report.replans, 1);
    assert!(report.decisions.iter().any(|d| d.kind == DecisionKind::Retry));
    assert!(report.decisions.iter().any(|d| d.kind == DecisionKind::Replan));
}

#[test]
fn abort_leaves_pending_steps_cancelled() {
    let task = PlannerTask::Lookup {
        key: "city-2".into(),
    };
    let mut policy = ExecutorPolicy::default();
    policy.abort_after_steps = Some(1);
    let report = run(&task, policy);
    assert!(!report.success);
    assert_eq!(report.status, MachineStatus::Cancelled);
    assert!(report.cancelled >= 1);
    assert!(report.decisions.iter().any(|d| d.kind == DecisionKind::Abort));
    assert!(report.answer.is_none());
}

#[test]
fn unconfirmed_step_rolls_back_instead_of_confirming() {
    let task = PlannerTask::Lookup {
        key: "city-2".into(),
    };
    let mut policy = ExecutorPolicy::default();
    policy.rollback_before_confirm = true;
    let report = run(&task, policy);
    assert!(!report.success);
    assert_eq!(report.rollbacks, 1);
    assert_eq!(report.status, MachineStatus::Cancelled);
    assert!(report
        .decisions
        .iter()
        .any(|d| d.kind == DecisionKind::Rollback));
    assert!(!report.decisions.iter().any(|d| d.kind == DecisionKind::Confirm));
}

#[test]
fn confirmed_mutative_action_is_not_repeated() {
    let registry = ToolRegistry::with_reference_tools().unwrap();
    let planner = ReferencePlanner;
    let task = PlannerTask::Lookup {
        key: "city-2".into(),
    };
    let mut plan = planner.plan(&task, PlanBudget::default()).unwrap();
    let request = match &plan.steps[0].action {
        PlanAction::Tool(request) => request.clone(),
        _ => panic!("expected tool step"),
    };
    plan.steps.insert(
        1,
        PlanStep {
            id: "s1b".into(),
            depends_on: vec!["s1".into()],
            completion: "must refuse confirmed mutative replay".into(),
            status: PlanStepStatus::Pending,
            action: PlanAction::Tool(ToolRequest::new(
                "plan-lookup-city-2:s1b",
                &request.tool_name,
                request.tool_version,
                request.arguments.clone(),
            )),
        },
    );
    let (mut runtime, mut executor) = runtime(&registry);
    let mut policy = ExecutorPolicy::default();
    policy.mutative_tools.push("lookup".into());
    let report = execute_plan(
        &task,
        &planner,
        plan,
        &registry,
        &mut runtime,
        &mut executor,
        policy,
    );
    assert!(!report.success);
    assert!(report
        .decisions
        .iter()
        .any(|d| d.kind == DecisionKind::RejectMutationReplay));
}

#[test]
fn hard_timeout_budget_fails_closed() {
    let registry = ToolRegistry::with_reference_tools().unwrap();
    let planner = ReferencePlanner;
    let task = PlannerTask::Lookup {
        key: "city-2".into(),
    };
    let mut budget = PlanBudget::default();
    budget.max_timeout_ms = 50;
    let plan = planner.plan(&task, budget).unwrap();
    let (mut runtime, mut executor) = runtime(&registry);
    let report = execute_plan(
        &task,
        &planner,
        plan,
        &registry,
        &mut runtime,
        &mut executor,
        ExecutorPolicy::default(),
    );
    assert!(!report.success);
    assert!(report
        .decisions
        .iter()
        .any(|d| d.kind == DecisionKind::RejectBudget));
}

struct NoReplan;

impl Planner for NoReplan {
    fn plan(&self, _task: &PlannerTask, _budget: PlanBudget) -> Result<Plan, PlannerError> {
        Err(PlannerError::NoReplan)
    }

    fn replan(
        &self,
        _task: &PlannerTask,
        _plan: &Plan,
        _failed_step: &str,
        _response: &ToolResponse,
    ) -> Result<Option<Plan>, PlannerError> {
        Ok(None)
    }
}

#[test]
fn schema_constant_is_version_one() {
    assert_eq!(EXECUTOR_SCHEMA_VERSION, 1);
    let _ = ToolArgument {
        name: "unused".into(),
        value: ToolValue::String("x".into()),
    };
}

