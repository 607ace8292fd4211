use ardenthat::execute::{Action, Event, ExecutionOutcome, Executor, Phase, StepOutcome};
use ardenthat::resolve::{DriverRequirement, InstallKind};

fn req(name: &str) -> DriverRequirement {
    DriverRequirement { component: 0, driver_name: name.as_bytes().to_vec(), kind: InstallKind::Package }
}

/// Runs an executor against a simulated system: `modules` are the names
/// that are kernel modules, `failing` the one whose install fails.
fn drive(exec: &mut Executor, modules: &[&str], failing: Option<&str>, finalize_ok: bool) -> Vec<Action> {
    let mut actions = Vec::new();
    let mut event = Event::Proceed;
    for _ in 0..100 {
        let a = exec.step(event);
        actions.push(a);
        let name = |i: usize| String::from_utf8(exec.plan()[i].driver_name.clone()).unwrap();
        event = match a {
            Action::Preview(_) => Event::Proceed,
            Action::CheckModule(i) => Event::ModuleCheck(modules.contains(&name(i).as_str())),
            Action::EnableModule(i) | Action::InstallPackage(i) => {
                if failing == Some(name(i).as_str()) {
                    Event::InstallResult(Err(b"exit status 1".to_vec()))
                } else {
                    Event::InstallResult(Ok(()))
                }
            },
            Action::RegenerateBootImage => {
                if finalize_ok {
                    Event::FinalizeResult(Ok(()))
                } else {
                    Event::FinalizeResult(Err(b"mkinitcpio failed".to_vec()))
                }
            },
            _ => break,
        };
    }
    actions
}

fn success(name: &str) -> ExecutionOutcome {
    ExecutionOutcome { driver_name: name.as_bytes().to_vec(), outcome: StepOutcome::Success }
}

#[test]
fn real_run_installs_and_finalizes_once() {
    let mut exec = Executor::new(vec![req("driverY")], false);
    let actions = drive(&mut exec, &[], None, true);
    assert_eq!(
        actions,
        vec![Action::CheckModule(0), Action::InstallPackage(0), Action::RegenerateBootImage, Action::Finished]
    );
    assert_eq!(exec.phase(), Phase::Completed);
    assert_eq!(exec.outcomes(), &vec![success("driverY")]);
}

#[test]
fn dry_run_previews_only() {
    let plan = vec![req("driverY")];
    let mut exec = Executor::new(plan.clone(), true);
    assert!(exec.is_dry_run());
    let actions = drive(&mut exec, &[], None, true);
    assert_eq!(actions, vec![Action::Preview(0), Action::Finished]);
    assert_eq!(exec.plan(), &plan);
    assert_eq!(exec.phase(), Phase::Completed);
    assert!(!actions.iter().any(|a| matches!(
        a,
        Action::EnableModule(_) | Action::InstallPackage(_) | Action::RegenerateBootImage | Action::CheckModule(_)
    )));
}

#[test]
fn kernel_module_is_enabled() {
    let mut exec = Executor::new(vec![req("snd_hda_intel"), req("driverY")], false);
    let actions = drive(&mut exec, &["snd_hda_intel"], None, true);
    assert_eq!(
        actions,
        vec![
            Action::CheckModule(0),
            Action::EnableModule(0),
            Action::CheckModule(1),
            Action::InstallPackage(1),
            Action::RegenerateBootImage,
            Action::Finished,
        ]
    );
}

#[test]
fn failure_stops_the_run() {
    let mut exec = Executor::new(vec![req("A"), req("B"), req("C")], false);
    let actions = drive(&mut exec, &[], Some("B"), true);
    assert_eq!(
        actions,
        vec![
            Action::CheckModule(0),
            Action::InstallPackage(0),
            Action::CheckModule(1),
            Action::InstallPackage(1),
            Action::InstallFailed(1),
        ]
    );
    assert_eq!(exec.phase(), Phase::Failed);
    assert_eq!(
        exec.outcomes(),
        &vec![
            success("A"),
            ExecutionOutcome { driver_name: b"B".to_vec(), outcome: StepOutcome::Failure(b"exit status 1".to_vec()) },
        ]
    );
    assert_eq!(exec.step(Event::Proceed), Action::Idle);
    assert_eq!(exec.step(Event::InstallResult(Ok(()))), Action::Idle);
    assert_eq!(exec.phase(), Phase::Failed);
}

#[test]
fn empty_plan_does_not_finalize() {
    let mut exec = Executor::new(vec![], false);
    assert_eq!(drive(&mut exec, &[], None, true), vec![Action::Finished]);
    assert!(exec.outcomes().is_empty());
}

#[test]
fn finalize_failure_is_reported() {
    let mut exec = Executor::new(vec![req("driverY")], false);
    let actions = drive(&mut exec, &[], None, false);
    assert_eq!(actions.last(), Some(&Action::FinalizeFailed));
    assert_eq!(exec.phase(), Phase::FinalizeFailed);
}

#[test]
fn unexpected_event_changes_nothing() {
    let mut exec = Executor::new(vec![req("driverY")], false);
    assert_eq!(exec.step(Event::ModuleCheck(true)), Action::Idle);
    assert_eq!(exec.phase(), Phase::Ready);
    assert_eq!(exec.step(Event::Proceed), Action::CheckModule(0));
    assert_eq!(exec.step(Event::Proceed), Action::Idle);
    assert_eq!(exec.phase(), Phase::AwaitingModuleCheck);
}

#[test]
fn dry_run_previews_in_install_order() {
    let plan = vec![req("a"), req("snd_hda_intel"), req("c")];
    let mut dry = Executor::new(plan.clone(), true);
    let previewed: Vec<usize> = drive(&mut dry, &[], None, true)
        .into_iter()
        .filter_map(|a| if let Action::Preview(i) = a { Some(i) } else { None })
        .collect();
    let mut real = Executor::new(plan, false);
    let installed: Vec<usize> = drive(&mut real, &["snd_hda_intel"], None, true)
        .into_iter()
        .filter_map(|a| match a {
            Action::EnableModule(i) | Action::InstallPackage(i) => Some(i),
            _ => None,
        })
        .collect();
    assert_eq!(previewed, vec![0, 1, 2]);
    assert_eq!(installed, previewed);
    assert_eq!(dry.plan(), real.plan());
}
