use vstd::prelude::*;

use crate::graph::{
    depends_on, eval, eval_all, is_chain, is_cycle, lemma_eval_all_intro, lemma_eval_mono,
    lemma_cycle_below_blocks, lemma_lookup, lemma_reaches_append, lemma_reaches_prepend,
    lemma_reaches_self, lemma_unknown_blocks, lemma_failure_blocks, fails_with, dependencies_of, blocked_at,
    lemma_dependency_unresolvable, lookup, reaches, resolvable,
    resolves_to,
};
use crate::service::{outcome_view, Compute, Service};

verus! {

/// Why a name could not be resolved.
#[derive(Debug, PartialEq, Eq)]
pub enum ResolveError {
    /// `name` is not registered; `requested_by` is the service that declared
    /// it as a dependency, or `None` when it was the name asked for.
    UnknownService { name: String, requested_by: Option<String> },
    /// Resolution came back to a service that was still being resolved:
    /// `chain` runs from that service through its dependencies back to it.
    CyclicDependency { chain: Vec<String> },
    /// The computation of `service` failed with `message` on the results
    /// of its dependencies.
    ComputationFailed { service: String, message: String },
}

/// The views of a list of names.
pub open spec fn names_view(v: Seq<String>) -> Seq<Seq<char>> {
    v.map_values(|s: String| s@)
}

/// What resolving `name` on `pre`, giving `r` and leaving `post`, guarantees.
///
/// The registry is untouched and the cache only grows at its end. A name
/// already cached is answered from the cache and nothing runs. Otherwise
/// resolution succeeds exactly when the name resolves in the registry, with
/// that value, which is then cached together with everything below it. A
/// failure caches nothing for `name` and says why: an unregistered name
/// below it, with the service that asked for it, a cycle below it, or a
/// computation below it that failed. Whatever happens, the only services
/// newly cached are ones below `name`. When `name` is not cached and the
/// first of its dependencies that does not resolve is unregistered, that
/// dependency is the one reported, with `name` as the service asking for it.
pub open spec fn resolve_outcome<C: Compute>(
    pre: Resolver<C>,
    post: Resolver<C>,
    name: Seq<char>,
    r: Result<String, ResolveError>,
) -> bool {
    let reg = pre.registry();
    &&& post.wf()
    &&& post.registry() == reg
    &&& pre.results().is_prefix_of(post.results())
    &&& forall|v: Seq<char>|
        #![trigger pre.results().contains((name, v))]
        pre.results().contains((name, v)) ==> (r matches Ok(s) && s@ == v) && post.results()
            == pre.results()
    &&& (r is Ok <==> resolvable(reg, name))
    &&& (r matches Ok(s) ==> resolves_to(reg, name, s@) && post.results().contains((name, s@)))
    &&& (r is Ok ==> forall|d: Seq<char>|
        #[trigger] reaches(reg, name, d) ==> exists|w: Seq<char>|
            #[trigger] post.results().contains((d, w)))
    &&& (r is Err ==> forall|v: Seq<char>| !#[trigger] post.results().contains((name, v)))
    &&& (r matches Err(ResolveError::UnknownService { name: n, requested_by: rb }) ==> {
        &&& lookup(reg, n@) is None
        &&& match rb {
            None => n@ == name,
            Some(p) => depends_on(reg, p@, n@) && reaches(reg, name, p@),
        }
    })
    &&& (r matches Err(ResolveError::CyclicDependency { chain }) ==> is_cycle(
        reg,
        names_view(chain@),
    ) && reaches(reg, name, chain@[0]@))
    &&& (r matches Err(ResolveError::ComputationFailed { service, message }) ==> fails_with(
        reg,
        service@,
        message@,
    ) && reaches(reg, name, service@))
    &&& forall|k: int|
        pre.results().len() <= k < post.results().len() ==> reaches(
            reg,
            name,
            #[trigger] post.results()[k].0,
        )
    &&& forall|j: int|
        #[trigger] blocked_at(reg, name, j) && (forall|v: Seq<char>|
            !#[trigger] pre.results().contains((name, v))) ==> (r matches Err(
            ResolveError::UnknownService { name: n, requested_by: rb },
        ) && n@ == dependencies_of(reg, name)[j] && (rb is Some && rb->Some_0@ == name))
}

/// Resolves services by name, computing each at most once.
pub struct Resolver<C> {
    services: Vec<Service<C>>,
    results: Vec<(usize, String)>,
}

/// The names of the registered services at the given positions.
spec fn names_at<C: Compute>(reg: Seq<Service<C>>, s: Seq<usize>) -> Seq<Seq<char>> {
    s.map_values(|i: usize| reg[i as int].spec_name())
}

/// The service registered under `name` has a result among the first `k`
/// cached ones.
spec fn cached_before<C: Compute>(reg: Seq<Service<C>>, results: Seq<(usize, String)>, name: Seq<char>, k: int) -> bool {
    exists|k2: int| 0 <= k2 < k && lookup(reg, name) == Some(#[trigger] results[k2].0 as int)
}

/// The positions of the services being resolved, outermost first, form a
/// chain of registered services ending above `name`.
spec fn stack_ok<C: Compute>(reg: Seq<Service<C>>, stack: Seq<usize>, name: Seq<char>) -> bool {
    &&& stack.no_duplicates()
    &&& forall|i: int|
        0 <= i < stack.len() ==> #[trigger] stack[i] < reg.len() && lookup(
            reg,
            reg[stack[i] as int].spec_name(),
        ) == Some(stack[i] as int)
    &&& is_chain(reg, names_at(reg, stack).push(name))
}

/// At most `n` distinct numbers lie below `n`.
proof fn lemma_distinct_below(s: Seq<usize>, n: nat)
    requires
        s.no_duplicates(),
        forall|i: int| 0 <= i < s.len() ==> #[trigger] s[i] < n,
    ensures
        s.len() <= n,
{
    let si = s.map_values(|x: usize| x as int);
    assert(si.no_duplicates()) by {
        assert forall|i: int, j: int| 0 <= i < si.len() && 0 <= j < si.len() && i != j implies si[i]
            != si[j] by {
            assert(s[i] != s[j]);
        }
    }
    si.unique_seq_to_set();
    vstd::set_lib::lemma_int_range(0, n as int);
    let range = vstd::set_lib::set_int_range(0, n as int);
    assert forall|x: int| si.to_set().contains(x) implies range.contains(x) by {
        let i = choose|i: int| 0 <= i < si.len() && si[i] == x;
        assert(s[i] < n);
    }
    vstd::set_lib::lemma_len_subset(si.to_set(), range);
}

impl<C: Compute> Resolver<C> {
    /// The registered services, in the order given.
    pub closed spec fn registry(self) -> Seq<Service<C>> {
        self.services@
    }

    /// The cached results in the order in which they were computed, each
    /// paired with the name of its service.
    pub closed spec fn results(self) -> Seq<(Seq<char>, Seq<char>)> {
        self.results@.map_values(
            |e: (usize, String)| (self.services@[e.0 as int].spec_name(), e.1@),
        )
    }

    /// Every cached result belongs to a registered service, appears once,
    /// and is what that service evaluates to from the results cached before it.
    pub closed spec fn wf(self) -> bool {
        &&& forall|k: int|
            0 <= k < self.results@.len() ==> {
                let e = #[trigger] self.results@[k];
                &&& e.0 < self.services@.len()
                &&& lookup(self.services@, self.services@[e.0 as int].spec_name()) == Some(
                    e.0 as int,
                )
                &&& eval(self.services@, self.services@[e.0 as int].spec_name(), (k + 1) as nat)
                    == Some(e.1@)
                &&& forall|j: int|
                    0 <= j < self.services@[e.0 as int].spec_dependencies().len()
                        ==> #[trigger] cached_before(
                        self.services@,
                        self.results@,
                        self.services@[e.0 as int].spec_dependencies()[j],
                        k,
                    )
            }
        &&& forall|k1: int, k2: int|
            0 <= k1 < self.results@.len() && 0 <= k2 < self.results@.len() && k1 != k2
                ==> #[trigger] self.results@[k1].0 != #[trigger] self.results@[k2].0
    }

    /// Registers `services`; where two share a name, the later one counts.
    pub fn new(services: Vec<Service<C>>) -> (r: Resolver<C>)
        ensures
            r.wf(),
            r.registry() == services@,
            r.results() == Seq::<(Seq<char>, Seq<char>)>::empty(),
    {
        let r = Resolver { services, results: Vec::new() };
        assert(r.results() =~= Seq::<(Seq<char>, Seq<char>)>::empty());
        r
    }

    /// The position of the service registered under `name`.
    fn find_service(&self, name: &String) -> (r: Option<usize>)
        ensures
            r matches Some(i) ==> lookup(self.services@, name@) == Some(i as int),
            r is None ==> lookup(self.services@, name@) is None,
    {
        let ghost reg = self.services@;
        let mut i: usize = self.services.len();
        while i > 0
            invariant
                i <= reg.len(),
                reg == self.services@,
                forall|j: int| i <= j < reg.len() ==> #[trigger] reg[j].spec_name() != name@,
            decreases i,
        {
            if self.services[i - 1].name().eq(name) {
                proof {
                    lemma_lookup_at(reg, name@, i - 1);
                }
                return Some(i - 1);
            }
            i = i - 1;
        }
        proof {
            lemma_lookup(reg, name@);
        }
        None
    }

    /// Each cached result belongs to a different service, so no service's
    /// computation has run twice, and each is the value its service
    /// resolves to.
    pub proof fn lemma_cache_sound(self)
        requires
            self.wf(),
        ensures
            self.results().map_values(|e: (Seq<char>, Seq<char>)| e.0).no_duplicates(),
            forall|k: int|
                0 <= k < self.results().len() ==> resolves_to(
                    self.registry(),
                    #[trigger] self.results()[k].0,
                    self.results()[k].1,
                ),
    {
        let reg = self.services@;
        let names = self.results().map_values(|e: (Seq<char>, Seq<char>)| e.0);
        assert forall|a: int, b: int| 0 <= a < names.len() && 0 <= b < names.len() && a != b implies names[a]
            != names[b] by {
            let ea = self.results@[a];
            let eb = self.results@[b];
            assert(names[a] == reg[ea.0 as int].spec_name());
            assert(names[b] == reg[eb.0 as int].spec_name());
            assert(ea.0 != eb.0);
        }
        assert forall|k: int| 0 <= k < self.results().len() implies resolves_to(
            reg,
            #[trigger] self.results()[k].0,
            self.results()[k].1,
        ) by {
            let e = self.results@[k];
            assert(eval(reg, reg[e.0 as int].spec_name(), (k + 1) as nat) == Some(e.1@));
        }
    }

    /// Dependencies are computed first: every dependency of a cached
    /// service was cached before it.
    pub proof fn lemma_dependencies_cached_first(self)
        requires
            self.wf(),
        ensures
            forall|k: int, d: Seq<char>|
                0 <= k < self.results().len() && #[trigger] dependencies_of(
                    self.registry(),
                    self.results()[k].0,
                ).contains(d) ==> exists|k2: int|
                    0 <= k2 < k && #[trigger] self.results()[k2].0 == d,
    {
        let reg = self.services@;
        assert forall|k: int, d: Seq<char>|
            0 <= k < self.results().len() && #[trigger] dependencies_of(
                reg,
                self.results()[k].0,
            ).contains(d) implies exists|k2: int|
                0 <= k2 < k && #[trigger] self.results()[k2].0 == d by {
            let e = self.results@[k];
            assert(self.results()[k].0 == reg[e.0 as int].spec_name());
            let deps = reg[e.0 as int].spec_dependencies();
            let j = choose|j: int| 0 <= j < deps.len() && deps[j] == d;
            assert(cached_before(reg, self.results@, deps[j], k));
            let k2 = choose|k2: int| 0 <= k2 < k && lookup(reg, deps[j]) == Some(#[trigger] self.results@[k2].0 as int);
            lemma_lookup(reg, d);
            assert(self.results()[k2].0 == reg[self.results@[k2].0 as int].spec_name());
        }
    }

    /// Every service below a cached one is cached too.
    pub proof fn lemma_below_cached(self, a: Seq<char>, v: Seq<char>, d: Seq<char>)
        requires
            self.wf(),
            self.results().contains((a, v)),
            reaches(self.registry(), a, d),
        ensures
            exists|w: Seq<char>| #[trigger] self.results().contains((d, w)),
    {
        let reg = self.services@;
        let p = choose|p: Seq<Seq<char>>| is_chain(reg, p) && p[0] == a && p.last() == d;
        self.lemma_chain_cached(p, v, (p.len() - 1) as int);
    }

    proof fn lemma_chain_cached(self, p: Seq<Seq<char>>, v: Seq<char>, i: int)
        requires
            self.wf(),
            is_chain(self.services@, p),
            self.results().contains((p[0], v)),
            0 <= i < p.len(),
        ensures
            exists|w: Seq<char>| #[trigger] self.results().contains((p[i], w)),
        decreases i,
    {
        let reg = self.services@;
        if i > 0 {
            self.lemma_chain_cached(p, v, i - 1);
            let w = choose|w: Seq<char>| #[trigger] self.results().contains((p[i - 1], w));
            let k = choose|k: int| 0 <= k < self.results().len() && self.results()[k] == (p[i - 1], w);
            let e = self.results@[k];
            assert(self.results()[k] == (reg[e.0 as int].spec_name(), e.1@));
            assert(depends_on(reg, p[i - 1], p[(i - 1) + 1]));
            let deps = reg[e.0 as int].spec_dependencies();
            let j = choose|j: int| 0 <= j < deps.len() && deps[j] == p[i];
            assert(cached_before(reg, self.results@, deps[j], k));
            let k2 = choose|k2: int| 0 <= k2 < k && lookup(reg, deps[j]) == Some(#[trigger] self.results@[k2].0 as int);
            lemma_lookup(reg, p[i]);
            assert(self.results()[k2] == (p[i], self.results@[k2].1@));
            assert(self.results().contains((p[i], self.results@[k2].1@)));
        } else {
            assert(self.results().contains((p[i], v)));
        }
    }

    /// Resolves the service registered under `service_name`: its
    /// dependencies first, in declaration order, then its own computation on
    /// their results. Every result is cached and reused by later calls.
    pub fn resolve(&mut self, service_name: &str) -> (r: Result<String, ResolveError>)
        requires
            old(self).wf(),
        ensures
            resolve_outcome(*old(self), *final(self), service_name@, r),
    {
        let ghost pre = *self;
        let ghost reg = self.services@;
        let name = String::from_str(service_name);
        let mut stack: Vec<usize> = Vec::new();
        proof {
            let names = names_at(reg, stack@).push(name@);
            assert(names =~= seq![name@]);
        }
        let r = self.resolve_in(&name, &mut stack);
        proof {
            let post = *self;
            assert(post.results().subrange(0, pre.results().len() as int) =~= pre.results()) by {
                assert(post.results@.subrange(0, pre.results@.len() as int) =~= pre.results@);
            }
            if post.results@ == pre.results@ {
                assert(post.results() =~= pre.results());
            }
            assert(names_at(reg, stack@) =~= Seq::<Seq<char>>::empty());
            assert forall|k: int| pre.results().len() <= k < post.results().len() implies reaches(
                reg, name@, #[trigger] post.results()[k].0) by {
                assert(post.results()[k].0 == reg[post.results@[k].0 as int].spec_name());
            }
            match &r {
                Ok(s) => {
                    let f = post.results@.len() as nat;
                    assert(eval(reg, name@, f) == Some(s@));
                    assert(resolves_to(reg, name@, s@));
                    assert(resolvable(reg, name@));
                    let k = choose|k: int|
                        0 <= k < post.results@.len() && lookup(reg, name@) == Some(
                            #[trigger] post.results@[k].0 as int,
                        ) && post.results@[k].1@ == s@;
                    lemma_lookup(reg, name@);
                    assert(post.results()[k] == (name@, s@));
                    assert forall|d: Seq<char>| #[trigger] reaches(reg, name@, d) implies exists|w: Seq<char>|
                        #[trigger] post.results().contains((d, w)) by {
                        post.lemma_below_cached(name@, s@, d);
                    }
                },
                Err(e) => {
                    assert forall|v: Seq<char>| !#[trigger] post.results().contains((name@, v)) by {
                        if post.results().contains((name@, v)) {
                            let k = choose|k: int| 0 <= k < post.results().len() && post.results()[k] == (name@, v);
                            assert(reg[post.results@[k].0 as int].spec_name() != name@);
                        }
                    }
                    match e {
                        ResolveError::UnknownService { name: n, requested_by: rb } => {
                            match rb {
                                None => {
                                    lemma_reaches_self(reg, name@);
                                },
                                Some(p) => {
                                    lemma_reaches_append(reg, name@, p@, n@);
                                },
                            }
                            lemma_unknown_blocks(reg, name@, n@);
                        },
                        ResolveError::CyclicDependency { chain } => {
                            lemma_cycle_below_blocks(reg, name@, names_view(chain@));
                        },
                        ResolveError::ComputationFailed { service, message } => {
                            lemma_failure_blocks(reg, name@, service@, message@);
                        },
                    }
                },
            }
        }
        r
    }

    /// The cached result of `service_name`, if it has been computed.
    pub fn cached(&self, service_name: &str) -> (r: Option<String>)
        requires
            self.wf(),
        ensures
            r matches Some(v) ==> self.results().contains((service_name@, v@)),
            r is None ==> forall|v: Seq<char>| !#[trigger] self.results().contains((service_name@, v)),
    {
        let ghost reg = self.services@;
        let name = String::from_str(service_name);
        proof {
            lemma_lookup(reg, name@);
        }
        match self.find_service(&name) {
            None => {
                proof {
                    assert forall|v: Seq<char>| !#[trigger] self.results().contains((name@, v)) by {
                        if self.results().contains((name@, v)) {
                            let k = choose|k: int| 0 <= k < self.results().len() && self.results()[k] == (name@, v);
                            assert(self.results()[k].0 == reg[self.results@[k].0 as int].spec_name());
                        }
                    }
                }
                None
            },
            Some(idx) => match self.find_result(idx) {
                Some(k) => {
                    proof {
                        assert(self.results()[k as int] == (name@, self.results@[k as int].1@));
                    }
                    Some(self.results[k].1.clone())
                },
                None => {
                    proof {
                        assert forall|v: Seq<char>| !#[trigger] self.results().contains((name@, v)) by {
                            if self.results().contains((name@, v)) {
                                let k = choose|k: int| 0 <= k < self.results().len() && self.results()[k] == (name@, v);
                                assert(self.results@[k].0 != idx);
                            }
                        }
                    }
                    None
                },
            },
        }
    }

    /// The names of the services computed so far, in the order they ran.
    pub fn execution_order(&self) -> (r: Vec<String>)
        requires
            self.wf(),
        ensures
            names_view(r@) == self.results().map_values(|e: (Seq<char>, Seq<char>)| e.0),
    {
        let mut r: Vec<String> = Vec::new();
        let mut k: usize = 0;
        while k < self.results.len()
            invariant
                self.wf(),
                k <= self.results@.len(),
                names_view(r@) == self.results().take(k as int).map_values(
                    |e: (Seq<char>, Seq<char>)| e.0,
                ),
            decreases self.results@.len() - k,
        {
            let i = self.results[k].0;
            let ghost before = r@;
            r.push(self.services[i].name().clone());
            proof {
                assert(names_view(r@) =~= names_view(before).push(r@.last()@));
                assert(self.results().take(k + 1) =~= self.results().take(k as int).push(self.results()[k as int]));
                assert(names_view(r@) =~= self.results().take(k + 1).map_values(
                    |e: (Seq<char>, Seq<char>)| e.0,
                ));
            }
            k = k + 1;
        }
        assert(self.results().take(k as int) =~= self.results());
        r
    }

    /// Resolves `name` while the services at the positions in `stack` are
    /// being resolved, outermost first.
    fn resolve_in(&mut self, name: &String, stack: &mut Vec<usize>) -> (r: Result<
        String,
        ResolveError,
    >)
        requires
            old(self).wf(),
            stack_ok(old(self).services@, old(stack)@, name@),
        ensures
            final(self).wf(),
            final(self).services@ == old(self).services@,
            final(stack)@ == old(stack)@,
            old(self).results@.is_prefix_of(final(self).results@),
            forall|k: int|
                old(self).results@.len() <= k < final(self).results@.len() ==> !old(
                    stack,
                )@.contains(#[trigger] final(self).results@[k].0),
            r matches Ok(s) ==> {
                &&& eval(old(self).services@, name@, final(self).results@.len() as nat) == Some(
                    s@,
                )
                &&& exists|k: int|
                    0 <= k < final(self).results@.len() && lookup(old(self).services@, name@)
                        == Some(#[trigger] final(self).results@[k].0 as int)
                        && final(self).results@[k].1@ == s@
            },
            forall|v: Seq<char>|
                #![trigger old(self).results().contains((name@, v))]
                old(self).results().contains((name@, v)) ==> (r matches Ok(s) && s@ == v)
                    && final(self).results@ == old(self).results@,
            r is Err ==> forall|k: int|
                0 <= k < final(self).results@.len() ==> old(
                    self,
                ).services@[#[trigger] final(self).results@[k].0 as int].spec_name() != name@,
            r matches Err(ResolveError::UnknownService { name: n, requested_by: rb }) ==> {
                &&& lookup(old(self).services@, n@) is None
                &&& match rb {
                    None => n@ == name@ && old(stack)@.len() == 0,
                    Some(p) => depends_on(old(self).services@, p@, n@) && (reaches(
                        old(self).services@,
                        name@,
                        p@,
                    ) || names_at(old(self).services@, old(stack)@).contains(p@)),
                }
            },
            r matches Err(ResolveError::CyclicDependency { chain }) ==> {
                &&& is_cycle(old(self).services@, names_view(chain@))
                &&& reaches(old(self).services@, name@, chain@[0]@)
            },
            r is Err ==> !resolvable(old(self).services@, name@),
            lookup(old(self).services@, name@) is None ==> (r matches Err(
                ResolveError::UnknownService { name: n, requested_by: rb },
            ) && n@ == name@ && (old(stack)@.len() > 0 ==> (rb is Some && rb->Some_0@ == old(
                self,
            ).services@[old(stack)@.last() as int].spec_name()))),
            forall|j: int|
                #[trigger] blocked_at(old(self).services@, name@, j) && (forall|v: Seq<char>|
                    !#[trigger] old(self).results().contains((name@, v))) && !names_at(
                    old(self).services@,
                    old(stack)@,
                ).contains(name@) ==> (r matches Err(
                    ResolveError::UnknownService { name: n, requested_by: rb },
                ) && n@ == dependencies_of(old(self).services@, name@)[j] && (rb is Some
                    && rb->Some_0@ == name@)),
            r matches Err(ResolveError::ComputationFailed { service, message }) ==> fails_with(
                old(self).services@,
                service@,
                message@,
            ) && reaches(old(self).services@, name@, service@),
            forall|k: int|
                old(self).results@.len() <= k < final(self).results@.len() ==> reaches(
                    old(self).services@,
                    name@,
                    old(self).services@[#[trigger] final(self).results@[k].0 as int].spec_name(),
                ),
        decreases self.services@.len() - stack@.len(),
    {
        let ghost reg = self.services@;
        let ghost stack0 = stack@;
        let ghost results0 = self.results@;
        proof {
            lemma_lookup(reg, name@);
            assert forall|v: Seq<char>| #[trigger] self.results().contains((name@, v)) implies {
                let k = choose|k: int| 0 <= k < self.results().len() && self.results()[k] == (name@, v);
                lookup(reg, name@) == Some(self.results@[k].0 as int) && self.results@[k].1@ == v
            } by {
                let k = choose|k: int| 0 <= k < self.results().len() && self.results()[k] == (name@, v);
                assert(self.results()[k] == (reg[self.results@[k].0 as int].spec_name(), self.results@[k].1@));
            }
        }
        let idx = match self.find_service(name) {
            Some(i) => i,
            None => {
                let requested_by = if stack.len() == 0 {
                    None
                } else {
                    let top = stack[stack.len() - 1];
                    proof {
                        let names = names_at(reg, stack0).push(name@);
                        assert(names[stack0.len() - 1] == reg[top as int].spec_name());
                        assert(depends_on(reg, names[stack0.len() - 1], names[(stack0.len() - 1) + 1]));
                        assert(names_at(reg, stack0)[stack0.len() - 1] == reg[top as int].spec_name());
                    }
                    Some(self.services[top].name().clone())
                };
                return Err(ResolveError::UnknownService { name: name.clone(), requested_by });
            },
        };
        if let Some(k) = self.find_result(idx) {
            let v = self.results[k].1.clone();
            proof {
                lemma_eval_mono(reg, name@, (k + 1) as nat, self.results@.len() as nat);
                assert(self.results()[k as int] == (name@, v@));
                assert(self.results().contains((name@, v@)));
            }
            return Ok(v);
        }
        proof {
            assert forall|v: Seq<char>| !self.results().contains((name@, v)) by {
                if self.results().contains((name@, v)) {
                    let k = choose|k: int| 0 <= k < self.results().len() && self.results()[k] == (name@, v);
                    assert(self.results@[k].0 != idx);
                }
            }
        }
        assert(idx < reg.len() && reg[idx as int].spec_name() == name@);
        let mut pos: usize = 0;
        #[verifier::loop_isolation(false)]
        while pos < stack.len()
            invariant
                pos <= stack@.len(),
                stack@ == stack0,
                self.wf(),
                self.services@ == reg,
                self.results@ == results0,
                stack_ok(reg, stack0, name@),
                idx < reg.len(),
                reg[idx as int].spec_name() == name@,
                forall|t: int| 0 <= t < pos ==> #[trigger] stack0[t] != idx,
            decreases stack@.len() - pos,
        {
            if stack[pos] == idx {
                let mut chain: Vec<String> = Vec::new();
                let mut j: usize = pos;
                #[verifier::loop_isolation(false)]
                while j < stack.len()
                    invariant
                        pos <= j <= stack@.len(),
                        stack@ == stack0,
                        self.services@ == reg,
                        stack_ok(reg, stack0, name@),
                        self.wf(),
                        self.results@ == results0,
                        idx < reg.len(),
                        reg[idx as int].spec_name() == name@,
                        names_view(chain@) == names_at(reg, stack0).subrange(pos as int, j as int),
                    decreases stack@.len() - j,
                {
                    let s = stack[j];
                    let ghost before = chain@;
                    chain.push(self.services[s].name().clone());
                    proof {
                        assert(s < reg.len());
                        assert(chain@ == before.push(chain@.last()));
                        assert(chain@.last()@ == names_at(reg, stack0)[j as int]);
                        assert(names_view(chain@) =~= names_view(before).push(chain@.last()@));
                        assert(names_view(chain@) =~= names_at(reg, stack0).subrange(pos as int, j + 1));
                    }
                    j = j + 1;
                }
                let ghost before = chain@;
                chain.push(name.clone());
                proof {
                    assert(names_view(chain@) =~= names_view(before).push(name@));
                    let full = names_at(reg, stack0).push(name@);
                    let c = names_view(chain@);
                    assert(c =~= full.subrange(pos as int, full.len() as int));
                    assert forall|i: int| 0 <= i < c.len() - 1 implies #[trigger] depends_on(reg, c[i], c[i + 1]) by {
                        assert(c[i] == full[pos + i] && c[i + 1] == full[(pos + i) + 1]);
                        assert(depends_on(reg, full[pos + i], full[(pos + i) + 1]));
                    }
                    assert(c[0] == reg[idx as int].spec_name());
                    assert(names_at(reg, stack0)[pos as int] == c[0]);
                    assert(names_at(reg, stack0).contains(name@));
                    lemma_reaches_self(reg, name@);
                    lemma_cycle_below_blocks(reg, name@, c);
                }
                return Err(ResolveError::CyclicDependency { chain });
            }
            pos = pos + 1;
        }
        proof {
            assert(!stack0.contains(idx));
            let grown = stack0.push(idx);
            assert forall|i: int| 0 <= i < grown.len() implies #[trigger] grown[i] < reg.len() by {
                if i < stack0.len() {
                    assert(stack0[i] < reg.len());
                }
            }
            lemma_distinct_below(grown, reg.len());
        }
        stack.push(idx);
        let ghost deps = reg[idx as int].spec_dependencies();
        let ndeps = self.services[idx].dependencies().len();
        let mut args: Vec<String> = Vec::new();
        let mut j: usize = 0;
        while j < ndeps
            invariant
                self.wf(),
                self.services@ == reg,
                reg == old(self).services@,
                stack0 == old(stack)@,
                results0 == old(self).results@,
                stack@ == stack0.push(idx),
                stack_ok(reg, stack0, name@),
                lookup(reg, name@) == Some(idx as int),
                !stack0.contains(idx),
                stack0.len() < reg.len(),
                idx < reg.len(),
                reg[idx as int].spec_name() == name@,
                forall|t: int| 0 <= t < results0.len() ==> #[trigger] results0[t].0 != idx,
                results0.is_prefix_of(self.results@),
                forall|k: int|
                    results0.len() <= k < self.results@.len() ==> !stack@.contains(
                        #[trigger] self.results@[k].0,
                    ),
                deps == reg[idx as int].spec_dependencies(),
                ndeps == deps.len(),
                j <= ndeps,
                args@.len() == j,
                forall|t: int|
                    0 <= t < j ==> eval(reg, #[trigger] deps[t], self.results@.len() as nat)
                        == Some(args@[t]@),
                forall|t: int|
                    0 <= t < j ==> cached_before(reg, self.results@, #[trigger] deps[t], self.results@.len() as int),
                forall|k: int|
                    results0.len() <= k < self.results@.len() ==> reaches(
                        reg,
                        name@,
                        reg[#[trigger] self.results@[k].0 as int].spec_name(),
                    ),
                forall|jj: int|
                    #[trigger] blocked_at(reg, name@, jj) && (forall|v: Seq<char>|
                        !#[trigger] old(self).results().contains((name@, v))) && !names_at(
                        reg,
                        stack0,
                    ).contains(name@) ==> j <= jj,
            decreases ndeps - j,
        {
            let dep = self.services[idx].dependencies()[j].clone();
            proof {
                assert(dep@ == deps[j as int]);
                let inner = stack@;
                assert(names_at(reg, inner) =~= names_at(reg, stack0).push(name@));
                assert(inner.no_duplicates()) by {
                    assert forall|a: int, b: int| 0 <= a < inner.len() && 0 <= b < inner.len() && a != b
                        implies inner[a] != inner[b] by {
                        if a < stack0.len() && b < stack0.len() {
                            assert(stack0[a] != stack0[b]);
                        } else if a < stack0.len() {
                            assert(stack0.contains(stack0[a]));
                        } else if b < stack0.len() {
                            assert(stack0.contains(stack0[b]));
                        }
                    }
                }
                assert(names_at(reg, inner).push(dep@) =~= names_at(reg, stack0).push(name@).push(dep@));
                assert(deps.contains(dep@));
                assert(depends_on(reg, name@, dep@));
                let full = names_at(reg, stack0).push(name@);
                let ext = full.push(dep@);
                assert forall|i: int| 0 <= i < ext.len() - 1 implies #[trigger] depends_on(reg, ext[i], ext[i + 1]) by {
                    if i < full.len() - 1 {
                        assert(ext[i] == full[i] && ext[i + 1] == full[i + 1]);
                    }
                }
                assert forall|i: int| 0 <= i < inner.len() implies #[trigger] inner[i] < reg.len() && lookup(
                    reg, reg[inner[i] as int].spec_name()) == Some(inner[i] as int) by {
                    if i < stack0.len() {
                        assert(inner[i] == stack0[i]);
                    }
                }
            }
            let ghost before = self.results@;
            let r = self.resolve_in(&dep, stack);
            match r {
                Ok(v) => {
                    proof {
                        assert forall|k: int| results0.len() <= k < self.results@.len() implies !stack@.contains(
                            #[trigger] self.results@[k].0) by {
                            if k < before.len() {
                                assert(self.results@[k] == before[k]);
                            }
                        }
                        assert forall|t: int| 0 <= t < j implies eval(reg, #[trigger] deps[t], self.results@.len() as nat)
                            == Some(args@[t]@) by {
                            lemma_eval_mono(reg, deps[t], before.len() as nat, self.results@.len() as nat);
                        }
                        assert(results0.is_prefix_of(self.results@)) by {
                            assert(self.results@.subrange(0, results0.len() as int) =~= before.subrange(0, results0.len() as int));
                        }
                        assert forall|t: int| 0 <= t < j implies cached_before(reg, self.results@, #[trigger] deps[t], self.results@.len() as int) by {
                            let k2 = choose|k2: int| 0 <= k2 < before.len() && lookup(reg, deps[t]) == Some(#[trigger] before[k2].0 as int);
                            assert(self.results@[k2] == before[k2]);
                        }
                        assert forall|k: int| results0.len() <= k < self.results@.len() implies reaches(
                            reg, name@, reg[#[trigger] self.results@[k].0 as int].spec_name()) by {
                            if k < before.len() {
                                assert(self.results@[k] == before[k]);
                            } else {
                                lemma_reaches_prepend(reg, name@, dep@, reg[self.results@[k].0 as int].spec_name());
                            }
                        }
                        assert(dependencies_of(reg, name@) == deps);
                        let k3 = choose|k: int| 0 <= k < self.results@.len() && lookup(reg, dep@) == Some(#[trigger] self.results@[k].0 as int) && self.results@[k].1@ == v@;
                        assert(cached_before(reg, self.results@, deps[j as int], self.results@.len() as int));
                    }
                    args.push(v);
                },
                Err(e) => {
                    let ghost grown = stack@;
                    stack.pop();
                    proof {
                        assert forall|k: int| results0.len() <= k < self.results@.len() implies !grown.contains(
                            #[trigger] self.results@[k].0) by {
                            if k < before.len() {
                                assert(self.results@[k] == before[k]);
                            }
                        }
                        assert forall|k: int| results0.len() <= k < self.results@.len() implies !stack0.contains(
                            #[trigger] self.results@[k].0) by {
                            if stack0.contains(self.results@[k].0) {
                                let t = choose|t: int| 0 <= t < stack0.len() && stack0[t] == self.results@[k].0;
                                assert(grown[t] == stack0[t]);
                            }
                        }
                        assert forall|k: int| 0 <= k < self.results@.len() implies reg[#[trigger] self.results@[k].0 as int].spec_name() != name@ by {
                            if k < results0.len() {
                                assert(self.results@[k] == results0[k]);
                            } else {
                                assert(grown[grown.len() - 1] == idx);
                            }
                        }
                        assert forall|k: int| results0.len() <= k < self.results@.len() implies reaches(
                            reg, name@, reg[#[trigger] self.results@[k].0 as int].spec_name()) by {
                            if k < before.len() {
                                assert(self.results@[k] == before[k]);
                            } else {
                                lemma_reaches_prepend(reg, name@, dep@, reg[self.results@[k].0 as int].spec_name());
                            }
                        }
                        lemma_dependency_unresolvable(reg, name@, dep@);
                        assert(dependencies_of(reg, name@) == deps);
                        assert(grown.last() == idx);
                        assert(names_at(reg, grown) =~= names_at(reg, stack0).push(name@));
                        match &e {
                            ResolveError::ComputationFailed { service, message } => {
                                lemma_reaches_prepend(reg, name@, dep@, service@);
                            },
                            ResolveError::UnknownService { name: n, requested_by: rb } => {
                                if let Some(p) = rb {
                                    if reaches(reg, dep@, p@) {
                                        lemma_reaches_prepend(reg, name@, dep@, p@);
                                    } else if p@ == name@ {
                                        lemma_reaches_self(reg, name@);
                                    } else {
                                        let t = choose|t: int| 0 <= t < names_at(reg, grown).len() && names_at(reg, grown)[t] == p@;
                                        assert(names_at(reg, stack0)[t] == p@);
                                    }
                                }
                            },
                            ResolveError::CyclicDependency { chain } => {
                                let c0 = chain@[0]@;
                                if reaches(reg, dep@, c0) {
                                    lemma_reaches_prepend(reg, name@, dep@, c0);
                                } else if c0 == name@ {
                                    lemma_reaches_self(reg, name@);
                                } else {
                                    let t = choose|t: int| 0 <= t < names_at(reg, grown).len() && names_at(reg, grown)[t] == c0;
                                    assert(names_at(reg, stack0)[t] == c0);
                                }
                            },
                        }
                        assert(results0.is_prefix_of(self.results@)) by {
                            assert(self.results@.subrange(0, results0.len() as int) =~= before.subrange(0, results0.len() as int));
                        }
                        assert(stack@ =~= stack0);
                    }
                    return Err(e);
                },
            }
            j = j + 1;
        }
        let ghost grown = stack@;
        stack.pop();
        let ghost vals = args@.map_values(|a: String| a@);
        proof {
            assert(stack@ =~= stack0);
            lemma_eval_all_intro(reg, deps, self.results@.len() as nat, vals);
            lemma_reaches_self(reg, name@);
        }
        let ghost m = self.results@.len();
        let v = match self.services[idx].execute(args) {
            Ok(v) => v,
            Err(message) => {
                proof {
                    assert(eval_all(reg, reg[idx as int].spec_dependencies(), m as nat) matches Some(a)
                        && reg[idx as int].spec_computation().outcome(a) == Err::<Seq<char>, Seq<char>>(message@));
                    assert(fails_with(reg, name@, message@));
                    lemma_failure_blocks(reg, name@, name@, message@);
                    assert(self.results@.subrange(0, results0.len() as int) =~= results0);
                    assert forall|k: int| results0.len() <= k < self.results@.len() implies !stack0.contains(
                        #[trigger] self.results@[k].0) by {
                        if stack0.contains(self.results@[k].0) {
                            let t = choose|t: int| 0 <= t < stack0.len() && stack0[t] == self.results@[k].0;
                            assert(grown[t] == stack0[t]);
                        }
                    }
                    assert forall|k: int| 0 <= k < self.results@.len() implies reg[#[trigger] self.results@[k].0 as int].spec_name() != name@ by {
                        if k < results0.len() {
                            assert(self.results@[k] == results0[k]);
                        } else {
                            assert(grown[grown.len() - 1] == idx);
                        }
                    }
                }
                return Err(ResolveError::ComputationFailed { service: name.clone(), message });
            },
        };
        let ghost prev = self.results@;
        assert(forall|t: int| 0 <= t < ndeps ==> cached_before(reg, prev, #[trigger] deps[t], m as int));
        self.results.push((idx, v.clone()));
        proof {
            assert(eval(reg, name@, (m + 1) as nat) == Some(v@));
            assert(self.results@[m as int] == (idx, v));
            assert(lookup(reg, name@) == Some(self.results@[m as int].0 as int));
            assert forall|k: int| 0 <= k < m implies #[trigger] self.results@[k].0 != idx by {
                if k < results0.len() {
                    assert(self.results@[k] == results0[k]);
                } else {
                    assert(stack0.push(idx).contains(idx));
                }
            }
            assert(self.results@.subrange(0, results0.len() as int) =~= results0);
            assert forall|k: int| results0.len() <= k < self.results@.len() implies reaches(
                reg, name@, reg[#[trigger] self.results@[k].0 as int].spec_name()) by {
                if k < m {
                    assert(self.results@[k] == prev[k]);
                }
            }
            assert forall|k: int, t: int| 0 <= k <= m && 0 <= t < reg[self.results@[k].0 as int].spec_dependencies().len()
                implies #[trigger] cached_before(reg, self.results@, reg[self.results@[k].0 as int].spec_dependencies()[t], k) by {
                if k < m {
                    assert(self.results@[k] == prev[k]);
                    assert(cached_before(reg, prev, reg[prev[k].0 as int].spec_dependencies()[t], k));
                    let k2 = choose|k2: int| 0 <= k2 < k && lookup(reg, reg[prev[k].0 as int].spec_dependencies()[t]) == Some(#[trigger] prev[k2].0 as int);
                    assert(self.results@[k2] == prev[k2]);
                } else {
                    assert(cached_before(reg, prev, deps[t], m as int));
                    let k2 = choose|k2: int| 0 <= k2 < m && lookup(reg, deps[t]) == Some(#[trigger] prev[k2].0 as int);
                    assert(self.results@[k2] == prev[k2]);
                }
            }
        }
        Ok(v)
    }

    /// The position in the cache of the result of the service at `idx`.
    fn find_result(&self, idx: usize) -> (r: Option<usize>)
        ensures
            r matches Some(k) ==> k < self.results@.len() && self.results@[k as int].0 == idx,
            r is None ==> forall|k: int|
                0 <= k < self.results@.len() ==> #[trigger] self.results@[k].0 != idx,
    {
        let mut k: usize = 0;
        while k < self.results.len()
            invariant
                k <= self.results@.len(),
                forall|t: int| 0 <= t < k ==> #[trigger] self.results@[t].0 != idx,
            decreases self.results@.len() - k,
        {
            if self.results[k].0 == idx {
                return Some(k);
            }
            k = k + 1;
        }
        None
    }
}

/// The last service of a name is the one that `lookup` finds.
proof fn lemma_lookup_at<C: Compute>(reg: Seq<Service<C>>, name: Seq<char>, i: int)
    requires
        0 <= i < reg.len(),
        reg[i].spec_name() == name,
        forall|j: int| i < j < reg.len() ==> #[trigger] reg[j].spec_name() != name,
    ensures
        lookup(reg, name) == Some(i),
    decreases reg.len(),
{
    if i < reg.len() - 1 {
        let front = reg.drop_last();
        assert forall|j: int| i < j < front.len() implies #[trigger] front[j].spec_name() != name by {
            assert(front[j] == reg[j]);
        }
        lemma_lookup_at(front, name, i);
    }
}

} // verus!
