use myrmidon::runtime::Runtime;
use myrmidon::supervisor::{
    parse_strategy, parse_strategy_lower, ChildSpec, RestartPlan, RestartStrategy, StrategyError,
    Supervisor,
};

#[test]
fn supervisor_restart_one() {
    let mut rt = Runtime::new();
    let child = rt.spawn_observed();
    let mut sup = Supervisor::new();
    sup.add_child(child, ChildSpec { factory: 1, strategy: RestartStrategy::RestartOne });
    rt.stop(child);
    let plan = sup.on_exit(child);
    assert_eq!(plan, RestartPlan::RestartOne { factory: 1 });
    // the factory makes a new observed actor
    let fresh = rt.spawn_observed();
    sup.complete_restart(child, Ok(fresh));
    assert_eq!(sup.children_count(), 1);
    assert_eq!(sup.child_pids(), vec![fresh]);
}

#[test]
fn factory_failure_drops_the_entry() {
    let mut sup = Supervisor::new();
    sup.add_child(5, ChildSpec { factory: 2, strategy: RestartStrategy::RestartOne });
    sup.complete_restart(5, Err("no".to_string()));
    assert_eq!(sup.children_count(), 0);
    assert_eq!(sup.on_exit(5), RestartPlan::Ignore);
}

#[test]
fn restart_all_lists_every_sibling() {
    let mut sup = Supervisor::new();
    sup.add_child(1, ChildSpec { factory: 10, strategy: RestartStrategy::RestartAll });
    sup.add_child(2, ChildSpec { factory: 20, strategy: RestartStrategy::RestartAll });
    assert_eq!(sup.on_exit(2), RestartPlan::RestartAll { children: vec![(1, 10), (2, 20)] });
    assert_eq!(sup.on_exit(3), RestartPlan::Ignore);
    sup.complete_restart(1, Ok(3));
    sup.complete_restart(2, Ok(4));
    assert_eq!(sup.child_pids(), vec![3, 4]);
}

#[test]
fn re_adding_a_child_replaces_its_spec() {
    let mut sup = Supervisor::new();
    sup.add_child(1, ChildSpec { factory: 10, strategy: RestartStrategy::RestartAll });
    sup.add_child(1, ChildSpec { factory: 11, strategy: RestartStrategy::RestartOne });
    assert_eq!(sup.children_count(), 1);
    assert_eq!(sup.on_exit(1), RestartPlan::RestartOne { factory: 11 });
}

#[test]
fn strategy_names() {
    assert_eq!(parse_strategy("RestartOne"), Ok(RestartStrategy::RestartOne));
    assert_eq!(parse_strategy("restart_one"), Ok(RestartStrategy::RestartOne));
    assert_eq!(parse_strategy("ONE"), Ok(RestartStrategy::RestartOne));
    assert_eq!(parse_strategy("RestartAll"), Ok(RestartStrategy::RestartAll));
    assert_eq!(parse_strategy("all"), Ok(RestartStrategy::RestartAll));
    assert_eq!(parse_strategy("sometimes"), Err(StrategyError::InvalidStrategy));
    assert_eq!(parse_strategy_lower("RestartOne"), Err(StrategyError::InvalidStrategy));
    assert_eq!(parse_strategy_lower("restart_all"), Ok(RestartStrategy::RestartAll));
}

#[test]
fn restart_all_completion_rearms_and_lists_siblings() {
    let mut sup = Supervisor::new();
    sup.add_child(1, ChildSpec { factory: 10, strategy: RestartStrategy::RestartAll });
    sup.add_child(2, ChildSpec { factory: 20, strategy: RestartStrategy::RestartAll });
    sup.add_child(3, ChildSpec { factory: 30, strategy: RestartStrategy::RestartAll });
    let stops = sup.complete_restart_all(2, vec![(1, Ok(4)), (2, Ok(5)), (3, Err("gone".to_string()))]);
    assert_eq!(stops, vec![1, 3]);
    assert_eq!(sup.child_pids(), vec![4, 5]);
    assert_eq!(sup.children_count(), 2);
}
