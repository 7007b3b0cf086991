use vstd::prelude::*;

verus! {

/// The parts joined in order, with `sep` between each two neighbours.
pub open spec fn join(parts: Seq<Seq<char>>, sep: Seq<char>) -> Seq<char>
    decreases parts.len(),
{
    if parts.len() == 0 {
        Seq::empty()
    } else if parts.len() == 1 {
        parts[0]
    } else {
        join(parts.drop_last(), sep) + sep + parts.last()
    }
}

/// The view of a computation's result: its value, or its failure message.
pub open spec fn outcome_view(r: Result<String, String>) -> Result<Seq<char>, Seq<char>> {
    match r {
        Ok(v) => Ok(v@),
        Err(e) => Err(e@),
    }
}

/// A computation over the ordered results of a service's dependencies.
/// It either produces a value or fails with a message, and what it gives
/// depends on those results alone. Implement it, with its `outcome`, to
/// give services computations of your own; [`Computation`] is one
/// implementation.
pub trait Compute {
    /// What the computation gives for the dependency results `args`.
    spec fn outcome(&self, args: Seq<Seq<char>>) -> Result<Seq<char>, Seq<char>>;

    /// Runs the computation on the dependency results `args`.
    fn compute(&self, args: &Vec<String>) -> (r: Result<String, String>)
        ensures
            outcome_view(r) == self.outcome(args@.map_values(|a: String| a@)),
    ;
}

/// Computations made of text: the ones this library provides.
#[derive(Debug, PartialEq, Eq)]
pub enum Computation {
    /// A fixed text, whatever the dependencies returned.
    Constant(String),
    /// `prefix`, then the dependency results joined by `separator`, then `suffix`.
    Join { prefix: String, separator: String, suffix: String },
    /// Always fails, with the given message.
    Fail(String),
}

impl Computation {
    /// The text produced from the dependency results `args`.
    pub open spec fn output(self, args: Seq<Seq<char>>) -> Result<Seq<char>, Seq<char>> {
        match self {
            Computation::Constant(text) => Ok(text@),
            Computation::Join { prefix, separator, suffix } => Ok(
                prefix@ + join(args, separator@) + suffix@,
            ),
            Computation::Fail(message) => Err(message@),
        }
    }

    /// Runs the computation on the dependency results `args`.
    pub fn run(&self, args: &Vec<String>) -> (r: Result<String, String>)
        ensures
            outcome_view(r) == self.output(args@.map_values(|a: String| a@)),
    {
        match self {
            Computation::Constant(text) => Ok(text.clone()),
            Computation::Fail(message) => Err(message.clone()),
            Computation::Join { prefix, separator, suffix } => {
                let mut r = prefix.clone();
                let ghost parts = args@.map_values(|a: String| a@);
                let mut i: usize = 0;
                while i < args.len()
                    invariant
                        0 <= i <= args.len(),
                        parts == args@.map_values(|a: String| a@),
                        r@ == prefix@ + join(parts.take(i as int), separator@),
                    decreases args.len() - i,
                {
                    assert(parts.take(i + 1).drop_last() =~= parts.take(i as int));
                    if i > 0 {
                        r.append(separator.as_str());
                    }
                    r.append(args[i].as_str());
                    assert(r@ =~= prefix@ + join(parts.take(i + 1), separator@));
                    i = i + 1;
                }
                assert(parts.take(args.len() as int) =~= parts);
                r.append(suffix.as_str());
                Ok(r)
            },
        }
    }
}

impl Compute for Computation {
    open spec fn outcome(&self, args: Seq<Seq<char>>) -> Result<Seq<char>, Seq<char>> {
        self.output(args)
    }

    fn compute(&self, args: &Vec<String>) -> (r: Result<String, String>) {
        self.run(args)
    }
}

/// A named unit of work: a computation over the results of the services
/// named in `dependencies`, which it receives in that order.
pub struct Service<C> {
    name: String,
    computation: C,
    dependencies: Vec<String>,
}

impl<C: Compute> Service<C> {
    /// The name under which the service is registered.
    pub closed spec fn spec_name(self) -> Seq<char> {
        self.name@
    }

    /// What the service computes.
    pub closed spec fn spec_computation(self) -> C {
        self.computation
    }

    /// The names of the services whose results it needs, in order.
    pub closed spec fn spec_dependencies(self) -> Seq<Seq<char>> {
        self.dependencies@.map_values(|d: String| d@)
    }

    /// A service `name` computing `computation` over the results of `dependencies`.
    pub fn new(name: String, computation: C, dependencies: Vec<String>) -> (s: Service<C>)
        ensures
            s.spec_name() == name@,
            s.spec_computation() == computation,
            s.spec_dependencies() == dependencies@.map_values(|d: String| d@),
    {
        Service { name, computation, dependencies }
    }

    /// The name under which the service is registered.
    pub fn name(&self) -> (r: &String)
        ensures
            r@ == self.spec_name(),
    {
        &self.name
    }

    /// The names of the services whose results it needs, in order.
    pub fn dependencies(&self) -> (r: &Vec<String>)
        ensures
            r@.map_values(|d: String| d@) == self.spec_dependencies(),
    {
        &self.dependencies
    }

    /// Runs the service's computation on the results of its dependencies.
    pub fn execute(&self, args: Vec<String>) -> (r: Result<String, String>)
        ensures
            outcome_view(r) == self.spec_computation().outcome(args@.map_values(|a: String| a@)),
    {
        self.computation.compute(&args)
    }
}

} // verus!
