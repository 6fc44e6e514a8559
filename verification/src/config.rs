//! The parameters of a run, and the direction in which a fitness improves.

use vstd::prelude::*;

verus! {

/// The number of equal parts that a mutation probability is measured in:
/// `2^23`, the resolution of the random fraction that decides a mutation.
pub const PROBABILITY_SCALE: u32 = 8388608;

/// Whether a lower or a higher fitness is the better one.
#[derive(Clone, Copy, PartialEq, Eq, Debug)]
pub enum Goal {
    Minimize,
    Maximize,
}

/// How two parent permutations are crossed.
#[derive(Clone, Copy, PartialEq, Eq, Debug)]
pub enum Crossover {
    /// Every position takes the second parent's gene with one chance in two.
    Scattered,
    /// A run of `n / 2` consecutive positions, starting after a random
    /// offset and wrapping round, takes the second parent's genes.
    Segment,
}

/// How a board's fitness is computed.
#[derive(Clone, Copy, PartialEq, Eq, Debug)]
pub enum Evaluation {
    /// Every queen is compared with every other; the board is left as it
    /// is.  For small boards.
    Exhaustive,
    /// The queens on each diagonal are counted, and one column drawn at
    /// random is probed for an exchange that lowers the fitness.
    Incremental,
}

/// The parameters of a run.
#[derive(Clone, Copy, Debug)]
pub struct Config {
    /// The number of queens, and of rows and columns.
    pub board_size: usize,
    /// The mutation probability in parts of `PROBABILITY_SCALE`; that many
    /// or more means always.
    pub mutation_threshold: u32,
    /// How many candidates selection retains.
    pub population_capacity: usize,
    /// The number of generations after which the run gives up.
    pub max_iterations: usize,
    /// How many candidates are drawn to breed one child.
    pub parents_per_family: usize,
    /// How many children each generation breeds.
    pub children_per_cycle: usize,
    /// Whether a generation consists of the children alone.
    pub kill_parents: bool,
    /// The fitness at which the run stops as successful.
    pub success_threshold: usize,
    /// The crossover strategy.
    pub crossover: Crossover,
    /// The evaluation strategy.
    pub evaluation: Evaluation,
}

impl Goal {
    /// A fitness seen as a cost: the lower, the better, whatever the goal.
    pub open spec fn cost(self, fitness: usize) -> int {
        match self {
            Goal::Minimize => fitness as int,
            Goal::Maximize => usize::MAX - fitness,
        }
    }

    /// Fitness `a` is at least as good as fitness `b`.
    pub open spec fn no_worse(self, a: usize, b: usize) -> bool {
        self.cost(a) <= self.cost(b)
    }

    /// The fitness that every other one is at least as good as.
    pub fn worst(self) -> (f: usize)
        ensures
            forall|a: usize| self.no_worse(a, f),
            self.cost(f) == usize::MAX,
    {
        match self {
            Goal::Minimize => usize::MAX,
            Goal::Maximize => 0,
        }
    }

    /// Whether fitness `a` is at least as good as fitness `b`.
    pub fn is_no_worse(self, a: usize, b: usize) -> (r: bool)
        ensures
            r == self.no_worse(a, b),
    {
        match self {
            Goal::Minimize => a <= b,
            Goal::Maximize => a >= b,
        }
    }

    /// The cost of a fitness, as a sort key.
    pub fn rank(self, fitness: usize) -> (k: usize)
        ensures
            k == self.cost(fitness),
    {
        match self {
            Goal::Minimize => fitness,
            Goal::Maximize => usize::MAX - fitness,
        }
    }
}

impl Config {
    /// The sizes fit together: selection retains somebody; where children
    /// are bred it retains enough candidates to form a family; and a
    /// generation of children alone is not empty and can form one too.
    pub open spec fn coherent(&self) -> bool {
        &&& self.population_capacity >= 1
        &&& self.children_per_cycle > 0 ==> self.population_capacity >= self.parents_per_family
        &&& self.kill_parents ==> self.children_per_cycle >= 1 && self.children_per_cycle
            >= self.parents_per_family
    }

    /// The size of the first population: a child's worth of candidates for
    /// every child of a generation, and at least one family.
    pub open spec fn initial_population(&self) -> int {
        if self.children_per_cycle >= self.parents_per_family {
            self.children_per_cycle as int
        } else {
            self.parents_per_family as int
        }
    }

    /// Whether the sizes fit together.
    pub fn is_coherent(&self) -> (r: bool)
        ensures
            r == self.coherent(),
    {
        self.population_capacity >= 1 && (self.children_per_cycle == 0
            || self.population_capacity >= self.parents_per_family) && (!self.kill_parents || (
        self.children_per_cycle >= 1 && self.children_per_cycle >= self.parents_per_family))
    }
}

/// Whether a mutation is due, given the word drawn for the decision: the
/// word's low 23 bits, as a fraction of `PROBABILITY_SCALE`, lie below the
/// probability.
pub fn mutation_due(word: u32, threshold: u32) -> (due: bool)
    ensures
        due == ((word % PROBABILITY_SCALE) < threshold),
        threshold >= PROBABILITY_SCALE ==> due,
        threshold == 0 ==> !due,
{
    word % PROBABILITY_SCALE < threshold
}

} // verus!
