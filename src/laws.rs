use vstd::prelude::*;

use crate::graph::{
    depends_on, eval, eval_all, is_cycle, lemma_cycle_below_blocks, lemma_eval_all_elim,
    lemma_reaches_append, lemma_reaches_self, lemma_resolves_to_unique, lemma_unknown_blocks,
    blocked_at, dependencies_of, fails_with, lookup, reaches, resolves_to,
};
use crate::resolver::{names_view, resolve_outcome, ResolveError, Resolver};
use crate::service::{Compute, Service};

verus! {

/// Resolving a name a second time returns the result of the first time,
/// and no computation runs.
pub proof fn law_resolving_again_reuses_result<C: Compute>(
    s0: Resolver<C>,
    s1: Resolver<C>,
    s2: Resolver<C>,
    name: Seq<char>,
    r1: Result<String, ResolveError>,
    r2: Result<String, ResolveError>,
)
    requires
        resolve_outcome(s0, s1, name, r1),
        r1 is Ok,
        resolve_outcome(s1, s2, name, r2),
    ensures
        r2 matches Ok(t) && t@ == r1->Ok_0@,
        s2.results() == s1.results(),
{
    assert(s1.results().contains((name, r1->Ok_0@)));
}

/// A service that was resolved as a dependency of another is afterwards
/// answered from the cache: resolving it directly runs nothing and gives
/// its cached result.
pub proof fn law_dependency_result_reused<C: Compute>(
    s0: Resolver<C>,
    s1: Resolver<C>,
    s2: Resolver<C>,
    root: Seq<char>,
    dep: Seq<char>,
    r1: Result<String, ResolveError>,
    r2: Result<String, ResolveError>,
)
    requires
        resolve_outcome(s0, s1, root, r1),
        r1 is Ok,
        reaches(s0.registry(), root, dep),
        resolve_outcome(s1, s2, dep, r2),
    ensures
        r2 matches Ok(t) && s1.results().contains((dep, t@)),
        s2.results() == s1.results(),
{
    assert(exists|w: Seq<char>| #[trigger] s1.results().contains((dep, w)));
}

/// A service's result is its computation applied to the results of its
/// dependencies, taken in the order in which it declares them.
pub proof fn law_dependency_results_in_order<C: Compute>(reg: Seq<Service<C>>, name: Seq<char>, v: Seq<char>)
    requires
        resolves_to(reg, name, v),
    ensures
        lookup(reg, name) is Some,
        exists|args: Seq<Seq<char>>|
            #![trigger reg[lookup(reg, name).unwrap()].spec_computation().outcome(args)]
            {
                let svc = reg[lookup(reg, name).unwrap()];
                &&& args.len() == svc.spec_dependencies().len()
                &&& forall|j: int|
                    0 <= j < args.len() ==> resolves_to(
                        reg,
                        #[trigger] svc.spec_dependencies()[j],
                        args[j],
                    )
                &&& svc.spec_computation().outcome(args) == Ok::<Seq<char>, Seq<char>>(v)
            },
{
    let f = choose|f: nat| eval(reg, name, f) == Some(v);
    let i = lookup(reg, name).unwrap();
    let deps = reg[i].spec_dependencies();
    let ff = (f - 1) as nat;
    lemma_eval_all_elim(reg, deps, ff);
    let args = eval_all(reg, deps, ff).unwrap();
    assert forall|j: int| 0 <= j < args.len() implies resolves_to(reg, #[trigger] deps[j], args[j]) by {
        assert(eval(reg, deps[j], ff) == Some(args[j]));
    }
    assert(reg[i].spec_computation().outcome(args) == Ok::<Seq<char>, Seq<char>>(v));
}

/// When `d` depends on `b` and `c`, which both depend on `a`, resolving `d`
/// computes `a` once: it is cached exactly once, with the one value that
/// `a` resolves to, which is therefore what both `b` and `c` receive.
pub proof fn law_shared_dependency_computed_once<C: Compute>(
    s0: Resolver<C>,
    s1: Resolver<C>,
    a: Seq<char>,
    b: Seq<char>,
    c: Seq<char>,
    d: Seq<char>,
    r: Result<String, ResolveError>,
)
    requires
        resolve_outcome(s0, s1, d, r),
        r is Ok,
        depends_on(s0.registry(), d, b),
        depends_on(s0.registry(), d, c),
        depends_on(s0.registry(), b, a),
        depends_on(s0.registry(), c, a),
    ensures
        exists|w: Seq<char>|
            #![trigger s1.results().contains((a, w))]
            {
                &&& s1.results().contains((a, w))
                &&& forall|u: Seq<char>| resolves_to(s0.registry(), a, u) ==> u == w
            },
        forall|k1: int, k2: int|
            0 <= k1 < s1.results().len() && 0 <= k2 < s1.results().len() && #[trigger] s1.results()[k1].0
                == a && #[trigger] s1.results()[k2].0 == a ==> k1 == k2,
{
    let reg = s0.registry();
    lemma_reaches_self(reg, d);
    lemma_reaches_append(reg, d, d, b);
    lemma_reaches_append(reg, d, b, a);
    let w = choose|w: Seq<char>| #[trigger] s1.results().contains((a, w));
    s1.lemma_cache_sound();
    let k = choose|k: int| 0 <= k < s1.results().len() && s1.results()[k] == (a, w);
    assert(resolves_to(reg, s1.results()[k].0, s1.results()[k].1));
    assert forall|u: Seq<char>| resolves_to(reg, a, u) implies u == w by {
        lemma_resolves_to_unique(reg, a, u, w);
    }
    let names = s1.results().map_values(|e: (Seq<char>, Seq<char>)| e.0);
    assert forall|k1: int, k2: int|
        0 <= k1 < s1.results().len() && 0 <= k2 < s1.results().len() && #[trigger] s1.results()[k1].0
            == a && #[trigger] s1.results()[k2].0 == a implies k1 == k2 by {
        assert(names[k1] == a && names[k2] == a);
    }
}

/// A service that declares an unregistered dependency does not resolve,
/// and nothing is cached for it.
pub proof fn law_unknown_dependency_fails<C: Compute>(
    s0: Resolver<C>,
    s1: Resolver<C>,
    name: Seq<char>,
    missing: Seq<char>,
    r: Result<String, ResolveError>,
)
    requires
        resolve_outcome(s0, s1, name, r),
        depends_on(s0.registry(), name, missing),
        lookup(s0.registry(), missing) is None,
    ensures
        r is Err,
        forall|v: Seq<char>| !#[trigger] s1.results().contains((name, v)),
        r matches Err(ResolveError::UnknownService { name: n, .. }) ==> lookup(s0.registry(), n@)
            is None && reaches(s0.registry(), name, n@),
{
    let reg = s0.registry();
    lemma_reaches_self(reg, name);
    lemma_reaches_append(reg, name, name, missing);
    lemma_unknown_blocks(reg, name, missing);
    if let Err(ResolveError::UnknownService { name: n, requested_by: rb }) = r {
        if let Some(p) = rb {
            lemma_reaches_append(reg, name, p@, n@);
        }
    }
}

/// When a service that is not cached declares an unregistered name, and
/// every dependency it declares before that one resolves, resolving the
/// service fails naming that dependency, with the service as the one that
/// asked for it, and nothing is cached for the service.
pub proof fn law_first_unknown_dependency_reported<C: Compute>(
    s0: Resolver<C>,
    s1: Resolver<C>,
    name: Seq<char>,
    j: int,
    r: Result<String, ResolveError>,
)
    requires
        resolve_outcome(s0, s1, name, r),
        blocked_at(s0.registry(), name, j),
        forall|v: Seq<char>| !#[trigger] s0.results().contains((name, v)),
    ensures
        r matches Err(ResolveError::UnknownService { name: n, requested_by: rb }) && n@
            == dependencies_of(s0.registry(), name)[j] && (rb is Some && rb->Some_0@ == name),
        forall|v: Seq<char>| !#[trigger] s1.results().contains((name, v)),
{
}

/// Resolution succeeds whenever every name below the requested one is
/// registered, no cycle lies below it and no computation below it fails.
pub proof fn law_success_when_registered_and_acyclic<C: Compute>(
    s0: Resolver<C>,
    s1: Resolver<C>,
    name: Seq<char>,
    r: Result<String, ResolveError>,
)
    requires
        resolve_outcome(s0, s1, name, r),
        forall|n: Seq<char>| #[trigger] reaches(s0.registry(), name, n) ==> lookup(s0.registry(), n) is Some,
        forall|c: Seq<Seq<char>>|
            #[trigger] is_cycle(s0.registry(), c) ==> !reaches(s0.registry(), name, c[0]),
        forall|n: Seq<char>, m: Seq<char>|
            #[trigger] fails_with(s0.registry(), n, m) ==> !reaches(s0.registry(), name, n),
    ensures
        r is Ok,
{
    let reg = s0.registry();
    if let Err(ResolveError::UnknownService { name: n, requested_by: rb }) = r {
        match rb {
            None => {
                lemma_reaches_self(reg, name);
            },
            Some(p) => {
                lemma_reaches_append(reg, name, p@, n@);
            },
        }
    }
}

/// A name with a cycle below it does not resolve; when every name below it
/// is registered and no computation below it fails, the failure reports a
/// cycle below it.
pub proof fn law_cycle_fails<C: Compute>(
    s0: Resolver<C>,
    s1: Resolver<C>,
    name: Seq<char>,
    cycle: Seq<Seq<char>>,
    r: Result<String, ResolveError>,
)
    requires
        resolve_outcome(s0, s1, name, r),
        is_cycle(s0.registry(), cycle),
        reaches(s0.registry(), name, cycle[0]),
    ensures
        r is Err,
        (forall|n: Seq<char>| #[trigger] reaches(s0.registry(), name, n) ==> lookup(s0.registry(), n) is Some)
            && (forall|n: Seq<char>, m: Seq<char>|
            #[trigger] fails_with(s0.registry(), n, m) ==> !reaches(s0.registry(), name, n))
            ==> (r matches Err(ResolveError::CyclicDependency { chain }) && is_cycle(
            s0.registry(),
            names_view(chain@),
        ) && reaches(s0.registry(), name, chain@[0]@)),
{
    let reg = s0.registry();
    lemma_cycle_below_blocks(reg, name, cycle);
    if let Err(ResolveError::UnknownService { name: n, requested_by: rb }) = r {
        match rb {
            None => {
                lemma_reaches_self(reg, name);
            },
            Some(p) => {
                lemma_reaches_append(reg, name, p@, n@);
            },
        }
    }
}

} // verus!
