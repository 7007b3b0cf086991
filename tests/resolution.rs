use manic::{Compute, Computation, ResolveError, Resolver, Service};

fn s(text: &str) -> String {
    text.to_string()
}

fn constant(name: &str, text: &str) -> Service<Computation> {
    Service::new(s(name), Computation::Constant(s(text)), vec![])
}

fn joined(name: &str, label: &str, deps: &[&str]) -> Service<Computation> {
    Service::new(
        s(name),
        Computation::Join { prefix: format!("{} (", label), separator: s(", "), suffix: s(")") },
        deps.iter().map(|d| s(d)).collect(),
    )
}

fn sample() -> Resolver<Computation> {
    Resolver::new(vec![
        constant("ServiceA", "Result A"),
        joined("ServiceB", "Result B", &["ServiceA"]),
        joined("ServiceC", "Result C", &["ServiceA", "ServiceB"]),
    ])
}

#[test]
fn three_services_scenario() {
    let mut r = sample();
    assert_eq!(r.resolve("ServiceC"), Ok(s("Result C (Result A, Result B (Result A))")));
    assert_eq!(r.execution_order(), vec![s("ServiceA"), s("ServiceB"), s("ServiceC")]);
}

#[test]
fn repeated_resolution_runs_nothing_again() {
    let mut r = sample();
    let first = r.resolve("ServiceB");
    assert_eq!(first, Ok(s("Result B (Result A)")));
    let order = r.execution_order();
    assert_eq!(r.resolve("ServiceB"), first);
    assert_eq!(r.execution_order(), order);
}

#[test]
fn dependency_then_direct_resolution_runs_once() {
    let mut r = sample();
    assert!(r.resolve("ServiceC").is_ok());
    assert_eq!(r.resolve("ServiceA"), Ok(s("Result A")));
    assert_eq!(r.resolve("ServiceB"), Ok(s("Result B (Result A)")));
    assert_eq!(r.execution_order().len(), 3);
}

#[test]
fn results_follow_declared_order() {
    let mut r = Resolver::new(vec![
        constant("D1", "one"),
        constant("D2", "two"),
        constant("D3", "three"),
        joined("S", "S", &["D3", "D1", "D2"]),
    ]);
    assert_eq!(r.resolve("S"), Ok(s("S (three, one, two)")));
    assert_eq!(r.execution_order(), vec![s("D3"), s("D1"), s("D2"), s("S")]);
}

#[test]
fn diamond_shares_the_common_dependency() {
    let mut r = Resolver::new(vec![
        constant("A", "a"),
        joined("B", "b", &["A"]),
        joined("C", "c", &["A"]),
        joined("D", "d", &["B", "C"]),
    ]);
    assert_eq!(r.resolve("D"), Ok(s("d (b (a), c (a))")));
    let order = r.execution_order();
    assert_eq!(order.iter().filter(|n| n.as_str() == "A").count(), 1);
    assert_eq!(order, vec![s("A"), s("B"), s("C"), s("D")]);
}

#[test]
fn unknown_dependency_is_reported() {
    let mut r = Resolver::new(vec![constant("A", "a"), joined("B", "b", &["A", "Missing"])]);
    assert_eq!(
        r.resolve("B"),
        Err(ResolveError::UnknownService { name: s("Missing"), requested_by: Some(s("B")) })
    );
    assert_eq!(r.cached("B"), None);
    // the dependency that did resolve stays cached
    assert_eq!(r.cached("A"), Some(s("a")));
}

#[test]
fn unknown_root_is_reported() {
    let mut r = sample();
    assert_eq!(
        r.resolve("Nothing"),
        Err(ResolveError::UnknownService { name: s("Nothing"), requested_by: None })
    );
    assert!(r.execution_order().is_empty());
}

#[test]
fn two_service_cycle_is_reported() {
    let mut r = Resolver::new(vec![joined("A", "a", &["B"]), joined("B", "b", &["A"])]);
    assert_eq!(
        r.resolve("A"),
        Err(ResolveError::CyclicDependency { chain: vec![s("A"), s("B"), s("A")] })
    );
    assert_eq!(r.cached("A"), None);
    assert_eq!(r.cached("B"), None);
}

#[test]
fn cycle_below_the_root_is_reported() {
    let mut r = Resolver::new(vec![
        joined("Root", "r", &["X"]),
        joined("X", "x", &["Y"]),
        joined("Y", "y", &["X"]),
    ]);
    assert_eq!(
        r.resolve("Root"),
        Err(ResolveError::CyclicDependency { chain: vec![s("X"), s("Y"), s("X")] })
    );
}

#[test]
fn self_dependency_is_a_cycle() {
    let mut r = Resolver::new(vec![joined("A", "a", &["A"])]);
    assert_eq!(
        r.resolve("A"),
        Err(ResolveError::CyclicDependency { chain: vec![s("A"), s("A")] })
    );
}

#[test]
fn later_registration_replaces_earlier() {
    let mut r = Resolver::new(vec![constant("A", "first"), constant("A", "second")]);
    assert_eq!(r.resolve("A"), Ok(s("second")));
}

#[test]
fn failure_then_success_on_other_name() {
    let mut r = Resolver::new(vec![constant("A", "a"), joined("B", "b", &["Missing"])]);
    assert!(r.resolve("B").is_err());
    assert_eq!(r.resolve("A"), Ok(s("a")));
    assert_eq!(r.cached("A"), Some(s("a")));
}

#[test]
fn join_without_dependencies_keeps_prefix_and_suffix() {
    let svc = joined("B", "Result B", &[]);
    assert_eq!(svc.execute(vec![]), Ok(s("Result B ()")));
}

#[test]
fn execute_joins_arguments_in_order() {
    let svc = joined("B", "Result B", &["x", "y"]);
    assert_eq!(svc.execute(vec![s("1"), s("2"), s("3")]), Ok(s("Result B (1, 2, 3)")));
    assert_eq!(svc.name(), "B");
    assert_eq!(svc.dependencies(), &vec![s("x"), s("y")]);
}

#[test]
fn constant_ignores_arguments() {
    let svc = constant("A", "Result A");
    assert_eq!(svc.execute(vec![s("ignored")]), Ok(s("Result A")));
}

#[test]
fn run_with_separator() {
    let c = Computation::Join { prefix: s("<"), separator: s("|"), suffix: s(">") };
    assert_eq!(c.run(&vec![s("a"), s("b")]), Ok(s("<a|b>")));
    assert_eq!(c.run(&vec![s("a")]), Ok(s("<a>")));
}

#[test]
fn failing_computation_is_reported_and_not_cached() {
    let mut r = Resolver::new(vec![
        constant("A", "a"),
        Service::new(s("B"), Computation::Fail(s("bad input")), vec![s("A")]),
        joined("C", "c", &["B"]),
    ]);
    assert_eq!(
        r.resolve("C"),
        Err(ResolveError::ComputationFailed { service: s("B"), message: s("bad input") })
    );
    assert_eq!(r.cached("B"), None);
    assert_eq!(r.cached("C"), None);
    assert_eq!(r.cached("A"), Some(s("a")));
    assert_eq!(r.execution_order(), vec![s("A")]);
}

#[test]
fn failing_computation_may_be_retried() {
    let mut r = Resolver::new(vec![Service::new(s("F"), Computation::Fail(s("no")), vec![])]);
    assert!(r.resolve("F").is_err());
    assert_eq!(
        r.resolve("F"),
        Err(ResolveError::ComputationFailed { service: s("F"), message: s("no") })
    );
}

#[test]
fn compute_trait_on_provided_computation() {
    let c = Computation::Fail(s("oops"));
    assert_eq!(c.compute(&vec![s("x")]), Err(s("oops")));
    let k = Computation::Constant(s("k"));
    assert_eq!(k.compute(&vec![]), Ok(s("k")));
}

#[test]
fn unrelated_services_are_not_cached() {
    let mut r = sample();
    assert!(r.resolve("ServiceB").is_ok());
    assert_eq!(r.cached("ServiceC"), None);
    assert_eq!(r.execution_order(), vec![s("ServiceA"), s("ServiceB")]);
}

#[test]
fn first_unknown_dependency_is_the_one_reported() {
    let mut r = Resolver::new(vec![
        constant("A", "a"),
        joined("S", "s", &["A", "Gone", "AlsoGone"]),
    ]);
    assert_eq!(
        r.resolve("S"),
        Err(ResolveError::UnknownService { name: s("Gone"), requested_by: Some(s("S")) })
    );
    assert_eq!(r.execution_order(), vec![s("A")]);
}
