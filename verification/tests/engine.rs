use hydra::child::AutoShutdown;
use hydra::child::ChildSpec;
use hydra::child::ChildType;
use hydra::child::Restart;
use hydra::child::Shutdown;
use hydra::child::SupervisedChild;
use hydra::supervisor::ExitAction;
use hydra::supervisor::StartOutcome;
use hydra::supervisor::SupervisionStrategy;
use hydra::supervisor::Supervisor;
use hydra::supervisor::SupervisorMessage;
use hydra::types::ExitReason;
use hydra::types::Message;
use hydra::types::Pid;
use hydra::types::SystemMessage;

fn pid(serial: u64) -> Pid {
    Pid { node: 1, serial }
}

fn started(sup: &mut Supervisor, index: usize, serial: u64) {
    sup.record_start(index, StartOutcome::Started(pid(serial)))
        .expect("start should be recorded");
}

#[test]
fn defaults_of_a_new_supervisor() {
    let sup = Supervisor::new();
    assert_eq!(sup.children.len(), 0);
    assert_eq!(sup.max_restarts, 3);
    assert_eq!(sup.max_duration, 5000);
    assert!(matches!(sup.strategy, SupervisionStrategy::OneForOne));
    assert!(matches!(sup.auto_shutdown, AutoShutdown::Never));
}

#[test]
fn child_shutdown_defaults_by_type() {
    let worker = SupervisedChild {
        spec: ChildSpec::new("w"),
        pid: None,
    };
    assert_eq!(worker.shutdown(), Shutdown::Duration(5000));

    let sup_child = SupervisedChild {
        spec: ChildSpec::new("s").child_type(ChildType::Supervisor),
        pid: None,
    };
    assert_eq!(sup_child.shutdown(), Shutdown::Infinity);

    let explicit = SupervisedChild {
        spec: ChildSpec::new("b").shutdown(Shutdown::BrutalKill),
        pid: None,
    };
    assert_eq!(explicit.shutdown(), Shutdown::BrutalKill);
}

#[test]
fn restart_classes() {
    let c = SupervisedChild {
        spec: ChildSpec::new("a").restart(Restart::Transient),
        pid: None,
    };
    assert!(!c.is_permanent());
    assert!(c.is_transient());
    assert!(!c.is_temporary());
    assert_eq!(c.id(), "a".to_string());
}

#[test]
fn exit_reason_predicates() {
    assert!(ExitReason::Normal.is_normal());
    assert!(!ExitReason::Normal.is_kill());
    assert!(ExitReason::Kill.is_kill());
    assert!(ExitReason::custom("shutdown").is_shutdown());
    assert!(!ExitReason::custom("boom").is_shutdown());
    assert!(ExitReason::custom("ignore").is_ignore());
    assert_eq!(ExitReason::custom("x"), ExitReason::custom("x"));
    assert_ne!(ExitReason::custom("x"), ExitReason::Normal);
}

#[test]
fn classify_start_treats_ignore_as_empty_slot() {
    assert_eq!(
        Supervisor::classify_start(StartOutcome::Started(pid(7))),
        Ok(Some(pid(7)))
    );
    assert_eq!(
        Supervisor::classify_start(StartOutcome::Failed(ExitReason::custom("ignore"))),
        Ok(None)
    );
    assert_eq!(
        Supervisor::classify_start(StartOutcome::Failed(ExitReason::custom("boom"))),
        Err(ExitReason::custom("boom"))
    );
}

#[test]
fn record_start_failure_becomes_init_failure() {
    let mut sup = Supervisor::new().add_child(ChildSpec::new("a"));
    let err = sup
        .record_start(0, StartOutcome::Failed(ExitReason::custom("boom")))
        .unwrap_err();
    assert_eq!(err, ExitReason::custom("failed_to_start_child"));
}

#[test]
fn prune_removes_only_ignored_temporaries() {
    let mut sup = Supervisor::new()
        .add_child(ChildSpec::new("keep"))
        .add_child(ChildSpec::new("gone").restart(Restart::Temporary))
        .add_child(ChildSpec::new("live").restart(Restart::Temporary));
    started(&mut sup, 0, 1);
    sup.record_start(1, StartOutcome::Failed(ExitReason::custom("ignore")))
        .unwrap();
    started(&mut sup, 2, 3);

    sup.prune_ignored_temporaries();

    assert_eq!(sup.children.len(), 2);
    assert_eq!(sup.children[0].id(), "keep");
    assert_eq!(sup.children[1].id(), "live");
}

#[test]
fn quota_window_drops_old_restarts() {
    let mut sup = Supervisor::new().max_restarts(2).max_duration(100);
    assert!(!sup.add_restart(1000));
    assert!(!sup.add_restart(1050));
    // the first two fall out of the window ending at 1300
    assert!(!sup.add_restart(1300));
    assert_eq!(sup.restarts, vec![1300]);
}

#[test]
fn permanent_child_crash_trips_quota_after_max_restarts() {
    // One permanent child whose body keeps crashing with "boom":
    // max_restarts 3 within 1s allows three counted restarts, the fourth
    // crash stops the supervisor with "shutdown".
    let mut sup = Supervisor::new()
        .add_child(ChildSpec::new("worker"))
        .max_restarts(3)
        .max_duration(1000);
    started(&mut sup, 0, 10);

    let mut serial = 11;
    for step in 0..3u64 {
        let action = sup.on_child_exit(pid(serial - 1), ExitReason::custom("boom"), step * 10);
        match action {
            ExitAction::RunRestart(0) => {}
            other => panic!("expected a restart, got {:?}", other),
        }
        started(&mut sup, 0, serial);
        serial += 1;
    }

    let action = sup.on_child_exit(pid(serial - 1), ExitReason::custom("boom"), 40);
    match action {
        ExitAction::Stop(reason) => assert!(reason.is_shutdown()),
        other => panic!("expected the supervisor to stop, got {:?}", other),
    }
}

#[test]
fn transient_normal_exit_removes_without_restart() {
    let mut sup = Supervisor::new()
        .add_child(ChildSpec::new("t").restart(Restart::Transient))
        .auto_shutdown(AutoShutdown::Never);
    started(&mut sup, 0, 5);

    let action = sup.on_child_exit(pid(5), ExitReason::Normal, 0);
    assert!(matches!(action, ExitAction::Continue));
    assert_eq!(sup.children.len(), 0);
    assert_eq!(sup.restarts.len(), 0);
}

#[test]
fn transient_abnormal_exit_restarts() {
    let mut sup = Supervisor::new().add_child(ChildSpec::new("t").restart(Restart::Transient));
    started(&mut sup, 0, 5);
    let action = sup.on_child_exit(pid(5), ExitReason::custom("boom"), 0);
    assert!(matches!(action, ExitAction::RunRestart(0)));
}

#[test]
fn temporary_child_is_never_restarted() {
    let mut sup = Supervisor::new().add_child(ChildSpec::new("t").restart(Restart::Temporary));
    started(&mut sup, 0, 5);
    let action = sup.on_child_exit(pid(5), ExitReason::custom("boom"), 0);
    assert!(matches!(action, ExitAction::Continue));
    assert_eq!(sup.children.len(), 0);
}

#[test]
fn unknown_pid_is_ignored() {
    let mut sup = Supervisor::new().add_child(ChildSpec::new("a"));
    started(&mut sup, 0, 5);
    let action = sup.on_child_exit(pid(99), ExitReason::custom("boom"), 0);
    assert!(matches!(action, ExitAction::NotFound));
    assert_eq!(sup.children.len(), 1);
}

#[test]
fn auto_shutdown_any_significant() {
    let mut sup = Supervisor::new()
        .add_child(ChildSpec::new("s").restart(Restart::Transient).significant(true))
        .auto_shutdown(AutoShutdown::AnySignificant);
    started(&mut sup, 0, 5);
    let action = sup.on_child_exit(pid(5), ExitReason::Normal, 0);
    match action {
        ExitAction::Stop(reason) => assert!(reason.is_shutdown()),
        other => panic!("expected stop, got {:?}", other),
    }
}

#[test]
fn auto_shutdown_all_significant_waits_for_the_last() {
    let mut sup = Supervisor::new()
        .add_child(ChildSpec::new("a").restart(Restart::Transient).significant(true))
        .add_child(ChildSpec::new("b").restart(Restart::Transient).significant(true))
        .auto_shutdown(AutoShutdown::AllSignificant);
    started(&mut sup, 0, 5);
    started(&mut sup, 1, 6);

    // one significant child remains live: no shutdown yet
    let action = sup.on_child_exit(pid(5), ExitReason::Normal, 0);
    assert!(matches!(action, ExitAction::Continue));

    // the last significant child leaving shuts the supervisor down
    let action = sup.on_child_exit(pid(6), ExitReason::Normal, 1);
    match action {
        ExitAction::Stop(reason) => assert!(reason.is_shutdown()),
        other => panic!("expected stop, got {:?}", other),
    }
}

#[test]
fn one_for_all_plan_stops_in_reverse_and_starts_in_order() {
    // Three children a, b, c declared in order; b crashes. The plan stops
    // c then a (reverse declaration order of the remaining live children)
    // and starts a, b, c in declaration order.
    let mut sup = Supervisor::new()
        .add_child(ChildSpec::new("a"))
        .add_child(ChildSpec::new("b"))
        .add_child(ChildSpec::new("c"))
        .strategy(SupervisionStrategy::OneForAll);
    started(&mut sup, 0, 1);
    started(&mut sup, 1, 2);
    started(&mut sup, 2, 3);

    let plan = sup.restart_plan(1);
    assert_eq!(plan.stops, vec![2, 0]);
    assert_eq!(plan.starts, vec![0, 1, 2]);
}

#[test]
fn rest_for_one_plan_covers_the_tail() {
    let mut sup = Supervisor::new()
        .add_child(ChildSpec::new("a"))
        .add_child(ChildSpec::new("b"))
        .add_child(ChildSpec::new("c"))
        .strategy(SupervisionStrategy::RestForOne);
    started(&mut sup, 0, 1);
    started(&mut sup, 1, 2);
    started(&mut sup, 2, 3);

    let plan = sup.restart_plan(1);
    assert_eq!(plan.stops, vec![2]);
    assert_eq!(plan.starts, vec![1, 2]);
}

#[test]
fn one_for_one_plan_restarts_only_the_crashed_child() {
    let mut sup = Supervisor::new()
        .add_child(ChildSpec::new("a"))
        .add_child(ChildSpec::new("b"));
    started(&mut sup, 0, 1);
    started(&mut sup, 1, 2);
    let plan = sup.restart_plan(1);
    assert_eq!(plan.stops, Vec::<usize>::new());
    assert_eq!(plan.starts, vec![1]);
}

#[test]
fn handle_info_routes_exit_signals() {
    let mut sup = Supervisor::new().add_child(ChildSpec::new("a"));
    started(&mut sup, 0, 5);
    let action = sup.handle_info(
        Message::System(SystemMessage::Exit(pid(5), ExitReason::custom("boom"))),
        0,
    );
    assert!(matches!(action, ExitAction::RunRestart(0)));

    let action = sup.handle_info(Message::User(42), 0);
    assert!(matches!(action, ExitAction::NotFound));
}

#[test]
fn handle_cast_retries_through_the_quota() {
    let mut sup = Supervisor::new().add_child(ChildSpec::new("a")).max_restarts(1);
    let again = sup.handle_cast(
        SupervisorMessage::TryAgainRestartId("a".to_string()),
        0,
    );
    assert_eq!(again, Ok(Some(0)));
    // a second retry inside the window trips the quota
    let again = sup.handle_cast(
        SupervisorMessage::TryAgainRestartId("a".to_string()),
        1,
    );
    match again {
        Err(reason) => assert!(reason.is_shutdown()),
        other => panic!("expected the quota to trip, got {:?}", other),
    }
}

#[test]
fn handle_cast_ignores_unknown_children() {
    let mut sup = Supervisor::new().add_child(ChildSpec::new("a"));
    started(&mut sup, 0, 5);
    assert_eq!(
        sup.handle_cast(SupervisorMessage::TryAgainRestartPid(pid(9)), 0),
        Ok(None)
    );
    assert_eq!(
        sup.handle_cast(SupervisorMessage::TryAgainRestartPid(pid(5)), 0),
        Ok(Some(0))
    );
}

#[test]
fn with_children_keeps_declaration_order() {
    let sup = Supervisor::with_children(vec![
        ChildSpec::new("a"),
        ChildSpec::new("b").restart(Restart::Temporary),
    ]);
    assert_eq!(sup.children.len(), 2);
    assert_eq!(sup.children[0].id(), "a");
    assert_eq!(sup.children[1].id(), "b");
    assert!(sup.children[1].is_temporary());
}

#[test]
fn find_child_returns_the_first_match() {
    let mut sup = Supervisor::new()
        .add_child(ChildSpec::new("a"))
        .add_child(ChildSpec::new("b"));
    started(&mut sup, 1, 7);
    assert_eq!(sup.find_child(pid(7)), Some(1));
    assert_eq!(sup.find_child(pid(8)), None);
    assert_eq!(sup.find_child_by_id(&"a".to_string()), Some(0));
    assert_eq!(sup.find_child_by_id(&"zz".to_string()), None);
}
