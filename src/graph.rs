use vstd::prelude::*;

use crate::service::{Compute, Service};

verus! {

/// The position of the service registered under `name`: the last one of
/// that name, since a later registration replaces an earlier one.
pub open spec fn lookup<C: Compute>(reg: Seq<Service<C>>, name: Seq<char>) -> Option<int>
    decreases reg.len(),
{
    if reg.len() == 0 {
        None
    } else if reg.last().spec_name() == name {
        Some(reg.len() - 1)
    } else {
        lookup(reg.drop_last(), name)
    }
}

/// The result of `name` when evaluation may descend at most `fuel` levels:
/// the service's computation applied to its dependencies' results, in
/// declaration order. `None` when a name on the way is not registered, a
/// computation on the way fails, or the fuel runs out.
pub open spec fn eval<C: Compute>(reg: Seq<Service<C>>, name: Seq<char>, fuel: nat) -> Option<Seq<char>>
    decreases fuel, 0int,
{
    if fuel == 0 {
        None
    } else {
        match lookup(reg, name) {
            None => None,
            Some(i) => match eval_all(reg, reg[i].spec_dependencies(), (fuel - 1) as nat) {
                None => None,
                Some(args) => match reg[i].spec_computation().outcome(args) {
                    Ok(v) => Some(v),
                    Err(_) => None,
                },
            },
        }
    }
}

/// The results of each of `names`, in order, at the given fuel; `None` if
/// any of them has none.
pub open spec fn eval_all<C: Compute>(reg: Seq<Service<C>>, names: Seq<Seq<char>>, fuel: nat) -> Option<
    Seq<Seq<char>>,
>
    decreases fuel, names.len() + 1,
{
    if names.len() == 0 {
        Some(Seq::empty())
    } else {
        match (eval_all(reg, names.drop_last(), fuel), eval(reg, names.last(), fuel)) {
            (Some(front), Some(v)) => Some(front.push(v)),
            _ => None,
        }
    }
}

/// `name` resolves to `v` in the registry: below it every name is
/// registered, there is no cycle and no computation fails, and evaluating
/// it gives `v`.
pub open spec fn resolves_to<C: Compute>(reg: Seq<Service<C>>, name: Seq<char>, v: Seq<char>) -> bool {
    exists|f: nat| eval(reg, name, f) == Some(v)
}

/// `name` resolves to some value.
pub open spec fn resolvable<C: Compute>(reg: Seq<Service<C>>, name: Seq<char>) -> bool {
    exists|v: Seq<char>| resolves_to(reg, name, v)
}

/// The service registered under `name` fails: its dependencies all resolve,
/// and its computation, given their results, fails with `message`.
pub open spec fn fails_with<C: Compute>(reg: Seq<Service<C>>, name: Seq<char>, message: Seq<char>) -> bool {
    match lookup(reg, name) {
        None => false,
        Some(i) => exists|f: nat|
            #[trigger] eval_all(reg, reg[i].spec_dependencies(), f) matches Some(args)
                && reg[i].spec_computation().outcome(args) == Err::<Seq<char>, Seq<char>>(message),
    }
}

/// The dependencies declared by the service registered under `name`; none
/// when the name is not registered.
pub open spec fn dependencies_of<C: Compute>(reg: Seq<Service<C>>, name: Seq<char>) -> Seq<Seq<char>> {
    match lookup(reg, name) {
        Some(i) => reg[i].spec_dependencies(),
        None => Seq::empty(),
    }
}

/// The service registered under `name` declares at position `j` a name
/// that is not registered, and every dependency it declares before that
/// resolves.
pub open spec fn blocked_at<C: Compute>(reg: Seq<Service<C>>, name: Seq<char>, j: int) -> bool {
    let deps = dependencies_of(reg, name);
    &&& lookup(reg, name) is Some
    &&& 0 <= j < deps.len()
    &&& lookup(reg, deps[j]) is None
    &&& forall|t: int| 0 <= t < j ==> resolvable(reg, #[trigger] deps[t])
}

/// `a` is registered and declares `b` among its dependencies.
pub open spec fn depends_on<C: Compute>(reg: Seq<Service<C>>, a: Seq<char>, b: Seq<char>) -> bool {
    match lookup(reg, a) {
        Some(i) => reg[i].spec_dependencies().contains(b),
        None => false,
    }
}

/// Each name of `p` declares the next one as a dependency.
pub open spec fn is_chain<C: Compute>(reg: Seq<Service<C>>, p: Seq<Seq<char>>) -> bool {
    &&& p.len() >= 1
    &&& forall|i: int| 0 <= i < p.len() - 1 ==> #[trigger] depends_on(reg, p[i], p[i + 1])
}

/// `b` is `a` or lies below it in the dependency graph.
pub open spec fn reaches<C: Compute>(reg: Seq<Service<C>>, a: Seq<char>, b: Seq<char>) -> bool {
    exists|p: Seq<Seq<char>>| is_chain(reg, p) && p[0] == a && p.last() == b
}

/// `c` is a chain that comes back to where it started.
pub open spec fn is_cycle<C: Compute>(reg: Seq<Service<C>>, c: Seq<Seq<char>>) -> bool {
    &&& c.len() >= 2
    &&& is_chain(reg, c)
    &&& c[0] == c.last()
}

pub proof fn lemma_lookup<C: Compute>(reg: Seq<Service<C>>, name: Seq<char>)
    ensures
        lookup(reg, name) matches Some(i) ==> 0 <= i < reg.len() && reg[i].spec_name() == name,
        lookup(reg, name) is None ==> forall|i: int|
            0 <= i < reg.len() ==> #[trigger] reg[i].spec_name() != name,
    decreases reg.len(),
{
    if reg.len() > 0 {
        lemma_lookup(reg.drop_last(), name);
        if lookup(reg, name) is None {
            assert forall|i: int| 0 <= i < reg.len() implies #[trigger] reg[i].spec_name()
                != name by {
                if i < reg.len() - 1 {
                    assert(reg[i] == reg.drop_last()[i]);
                }
            }
        }
    }
}

pub proof fn lemma_eval_all_intro<C: Compute>(reg: Seq<Service<C>>, names: Seq<Seq<char>>, fuel: nat, vals: Seq<Seq<char>>)
    requires
        vals.len() == names.len(),
        forall|j: int| 0 <= j < names.len() ==> eval(reg, #[trigger] names[j], fuel) == Some(vals[j]),
    ensures
        eval_all(reg, names, fuel) == Some(vals),
    decreases names.len(),
{
    if names.len() > 0 {
        let front = names.drop_last();
        assert forall|j: int| 0 <= j < front.len() implies eval(reg, #[trigger] front[j], fuel)
            == Some(vals.drop_last()[j]) by {
            assert(front[j] == names[j]);
        }
        lemma_eval_all_intro(reg, front, fuel, vals.drop_last());
        assert(vals.drop_last().push(vals.last()) =~= vals);
    }
}

pub proof fn lemma_eval_all_elim<C: Compute>(reg: Seq<Service<C>>, names: Seq<Seq<char>>, fuel: nat)
    requires
        eval_all(reg, names, fuel) is Some,
    ensures
        eval_all(reg, names, fuel).unwrap().len() == names.len(),
        forall|j: int|
            0 <= j < names.len() ==> eval(reg, #[trigger] names[j], fuel) == Some(
                eval_all(reg, names, fuel).unwrap()[j],
            ),
    decreases names.len(),
{
    if names.len() > 0 {
        let front = names.drop_last();
        lemma_eval_all_elim(reg, front, fuel);
        assert forall|j: int| 0 <= j < names.len() implies eval(reg, #[trigger] names[j], fuel)
            == Some(eval_all(reg, names, fuel).unwrap()[j]) by {
            if j < names.len() - 1 {
                assert(front[j] == names[j]);
            }
        }
    }
}

pub proof fn lemma_eval_all_none<C: Compute>(reg: Seq<Service<C>>, names: Seq<Seq<char>>, fuel: nat, j: int)
    requires
        0 <= j < names.len(),
        eval(reg, names[j], fuel) is None,
    ensures
        eval_all(reg, names, fuel) is None,
{
    if eval_all(reg, names, fuel) is Some {
        lemma_eval_all_elim(reg, names, fuel);
    }
}

/// More fuel never changes a result that was already reached.
pub proof fn lemma_eval_mono<C: Compute>(reg: Seq<Service<C>>, name: Seq<char>, f: nat, g: nat)
    requires
        f <= g,
        eval(reg, name, f) is Some,
    ensures
        eval(reg, name, g) == eval(reg, name, f),
    decreases f,
{
    let i = lookup(reg, name).unwrap();
    let deps = reg[i].spec_dependencies();
    let ff = (f - 1) as nat;
    let gg = (g - 1) as nat;
    lemma_eval_all_elim(reg, deps, ff);
    let vals = eval_all(reg, deps, ff).unwrap();
    assert forall|j: int| 0 <= j < deps.len() implies eval(reg, #[trigger] deps[j], gg) == Some(
        vals[j],
    ) by {
        lemma_eval_mono(reg, deps[j], ff, gg);
    }
    lemma_eval_all_intro(reg, deps, gg, vals);
}

/// A name has at most one result.
pub proof fn lemma_resolves_to_unique<C: Compute>(reg: Seq<Service<C>>, name: Seq<char>, v: Seq<char>, w: Seq<char>)
    requires
        resolves_to(reg, name, v),
        resolves_to(reg, name, w),
    ensures
        v == w,
{
    let f = choose|f: nat| eval(reg, name, f) == Some(v);
    let g = choose|g: nat| eval(reg, name, g) == Some(w);
    if f <= g {
        lemma_eval_mono(reg, name, f, g);
    } else {
        lemma_eval_mono(reg, name, g, f);
    }
}

/// If `a` declares `b` and `b` never evaluates, neither does `a`.
proof fn lemma_dependency_blocks<C: Compute>(reg: Seq<Service<C>>, a: Seq<char>, b: Seq<char>, f: nat)
    requires
        depends_on(reg, a, b),
        forall|g: nat| #[trigger] eval(reg, b, g) is None,
    ensures
        eval(reg, a, f) is None,
{
    if f > 0 {
        let i = lookup(reg, a).unwrap();
        let deps = reg[i].spec_dependencies();
        let j = choose|j: int| 0 <= j < deps.len() && deps[j] == b;
        lemma_eval_all_none(reg, deps, (f - 1) as nat, j);
    }
}

/// A service that declares a dependency without a value has none either.
pub proof fn lemma_dependency_unresolvable<C: Compute>(reg: Seq<Service<C>>, a: Seq<char>, b: Seq<char>)
    requires
        depends_on(reg, a, b),
        !resolvable(reg, b),
    ensures
        !resolvable(reg, a),
{
    assert forall|g: nat| #[trigger] eval(reg, b, g) is None by {
        if eval(reg, b, g) is Some {
            assert(resolves_to(reg, b, eval(reg, b, g).unwrap()));
        }
    }
    assert forall|v: Seq<char>| !resolves_to(reg, a, v) by {
        assert forall|f: nat| #[trigger] eval(reg, a, f) is None by {
            lemma_dependency_blocks(reg, a, b, f);
        }
    }
}

/// No name of a chain evaluates if its last name never does.
proof fn lemma_chain_blocks<C: Compute>(reg: Seq<Service<C>>, p: Seq<Seq<char>>, k: int, f: nat)
    requires
        is_chain(reg, p),
        0 <= k < p.len(),
        forall|g: nat| #[trigger] eval(reg, p.last(), g) is None,
    ensures
        eval(reg, p[k], f) is None,
    decreases p.len() - k,
{
    if k < p.len() - 1 {
        assert forall|g: nat| #[trigger] eval(reg, p[k + 1], g) is None by {
            lemma_chain_blocks(reg, p, k + 1, g);
        }
        assert(depends_on(reg, p[k], p[k + 1]));
        lemma_dependency_blocks(reg, p[k], p[k + 1], f);
    } else {
        assert(eval(reg, p.last(), f) is None);
    }
}

/// No name on a cycle evaluates, at any fuel.
proof fn lemma_cycle_blocks<C: Compute>(reg: Seq<Service<C>>, c: Seq<Seq<char>>, k: int, f: nat)
    requires
        is_cycle(reg, c),
        0 <= k < c.len(),
    ensures
        eval(reg, c[k], f) is None,
    decreases f,
{
    if f > 0 {
        let kk = if k == c.len() - 1 { 0 } else { k };
        assert(c[kk] == c[k]);
        assert(depends_on(reg, c[kk], c[kk + 1]));
        let i = lookup(reg, c[kk]).unwrap();
        let deps = reg[i].spec_dependencies();
        let j = choose|j: int| 0 <= j < deps.len() && deps[j] == c[kk + 1];
        lemma_cycle_blocks(reg, c, kk + 1, (f - 1) as nat);
        lemma_eval_all_none(reg, deps, (f - 1) as nat, j);
    }
}

/// A name below which an unregistered name lies does not resolve.
pub proof fn lemma_unknown_blocks<C: Compute>(reg: Seq<Service<C>>, root: Seq<char>, missing: Seq<char>)
    requires
        reaches(reg, root, missing),
        lookup(reg, missing) is None,
    ensures
        !resolvable(reg, root),
{
    let p = choose|p: Seq<Seq<char>>| is_chain(reg, p) && p[0] == root && p.last() == missing;
    assert forall|v: Seq<char>| !resolves_to(reg, root, v) by {
        assert forall|f: nat| #[trigger] eval(reg, root, f) is None by {
            lemma_chain_blocks(reg, p, 0, f);
        }
    }
}

/// A name below which a cycle lies does not resolve.
pub proof fn lemma_cycle_below_blocks<C: Compute>(reg: Seq<Service<C>>, root: Seq<char>, c: Seq<Seq<char>>)
    requires
        is_cycle(reg, c),
        reaches(reg, root, c[0]),
    ensures
        !resolvable(reg, root),
{
    let p = choose|p: Seq<Seq<char>>| is_chain(reg, p) && p[0] == root && p.last() == c[0];
    assert forall|g: nat| #[trigger] eval(reg, p.last(), g) is None by {
        lemma_cycle_blocks(reg, c, 0, g);
    }
    assert forall|v: Seq<char>| !resolves_to(reg, root, v) by {
        assert forall|f: nat| #[trigger] eval(reg, root, f) is None by {
            lemma_chain_blocks(reg, p, 0, f);
        }
    }
}

/// More fuel never changes the results of a list of names once reached.
pub proof fn lemma_eval_all_mono<C: Compute>(reg: Seq<Service<C>>, names: Seq<Seq<char>>, f: nat, g: nat)
    requires
        f <= g,
        eval_all(reg, names, f) is Some,
    ensures
        eval_all(reg, names, g) == eval_all(reg, names, f),
{
    lemma_eval_all_elim(reg, names, f);
    let vals = eval_all(reg, names, f).unwrap();
    assert forall|j: int| 0 <= j < names.len() implies eval(reg, #[trigger] names[j], g) == Some(vals[j]) by {
        lemma_eval_mono(reg, names[j], f, g);
    }
    lemma_eval_all_intro(reg, names, g, vals);
}

/// A name below which a computation fails does not resolve.
pub proof fn lemma_failure_blocks<C: Compute>(reg: Seq<Service<C>>, root: Seq<char>, s: Seq<char>, message: Seq<char>)
    requires
        reaches(reg, root, s),
        fails_with(reg, s, message),
    ensures
        !resolvable(reg, root),
{
    let i = lookup(reg, s).unwrap();
    let deps = reg[i].spec_dependencies();
    let f = choose|f: nat| #[trigger] eval_all(reg, deps, f) matches Some(args)
        && reg[i].spec_computation().outcome(args) == Err::<Seq<char>, Seq<char>>(message);
    assert forall|g: nat| #[trigger] eval(reg, s, g) is None by {
        if g > 0 && eval_all(reg, deps, (g - 1) as nat) is Some {
            if f <= (g - 1) as nat {
                lemma_eval_all_mono(reg, deps, f, (g - 1) as nat);
            } else {
                lemma_eval_all_mono(reg, deps, (g - 1) as nat, f);
            }
        }
    }
    let p = choose|p: Seq<Seq<char>>| is_chain(reg, p) && p[0] == root && p.last() == s;
    assert forall|v: Seq<char>| !resolves_to(reg, root, v) by {
        assert forall|ff: nat| #[trigger] eval(reg, root, ff) is None by {
            lemma_chain_blocks(reg, p, 0, ff);
        }
    }
}

/// Putting a name that declares `p[0]` in front of a chain keeps it a chain.
pub proof fn lemma_chain_prepend<C: Compute>(reg: Seq<Service<C>>, a: Seq<char>, p: Seq<Seq<char>>)
    requires
        is_chain(reg, p),
        depends_on(reg, a, p[0]),
    ensures
        is_chain(reg, seq![a] + p),
{
    let q = seq![a] + p;
    assert forall|i: int| 0 <= i < q.len() - 1 implies #[trigger] depends_on(reg, q[i], q[i + 1]) by {
        if i > 0 {
            assert(q[i] == p[i - 1] && q[i + 1] == p[i]);
            assert(depends_on(reg, p[i - 1], p[(i - 1) + 1]));
        }
    }
}

/// Reachability extends upwards along a declared dependency.
pub proof fn lemma_reaches_prepend<C: Compute>(reg: Seq<Service<C>>, a: Seq<char>, b: Seq<char>, c: Seq<char>)
    requires
        depends_on(reg, a, b),
        reaches(reg, b, c),
    ensures
        reaches(reg, a, c),
{
    let p = choose|p: Seq<Seq<char>>| is_chain(reg, p) && p[0] == b && p.last() == c;
    lemma_chain_prepend(reg, a, p);
    let q = seq![a] + p;
    assert(q[0] == a && q.last() == c);
}

/// Reachability extends downwards along a declared dependency.
pub proof fn lemma_reaches_append<C: Compute>(reg: Seq<Service<C>>, a: Seq<char>, b: Seq<char>, c: Seq<char>)
    requires
        reaches(reg, a, b),
        depends_on(reg, b, c),
    ensures
        reaches(reg, a, c),
{
    let p = choose|p: Seq<Seq<char>>| is_chain(reg, p) && p[0] == a && p.last() == b;
    let q = p.push(c);
    assert forall|i: int| 0 <= i < q.len() - 1 implies #[trigger] depends_on(reg, q[i], q[i + 1]) by {
        if i < p.len() - 1 {
            assert(q[i] == p[i] && q[i + 1] == p[i + 1]);
        }
    }
    assert(is_chain(reg, q) && q[0] == a && q.last() == c);
}

/// Every name reaches itself.
pub proof fn lemma_reaches_self<C: Compute>(reg: Seq<Service<C>>, a: Seq<char>)
    ensures
        reaches(reg, a, a),
{
    let p = seq![a];
    assert(is_chain(reg, p) && p[0] == a && p.last() == a);
}

} // verus!
