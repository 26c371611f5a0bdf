//! Interfaces for deriving rules from a sample grid: a provider computes the
//! socket between two adjacent sample variants, and a finder folds a whole
//! sample into a rule set.

use crate::rules::Rules;
use crate::Dimension;
use vstd::prelude::*;

verus! {

/// A provider found no socket for a variant pair.
#[derive(Debug, Clone, Copy)]
pub struct NoSocket;

/// What a provider answers for one adjacent pair: a socket value, no
/// connection, or failure.
pub type FindResult<S> = Result<Option<S>, NoSocket>;

/// A rule-finding failure.
#[derive(Debug)]
pub enum Error {
    /// The sample's dimensions could not be used.
    DimensionTooLarge,
    /// No rules could be found for these `(direction, variant, variant)` triples.
    RuleNotFound(Vec<(usize, u64, u64)>),
    /// No socket could be generated between the two variants along the direction.
    SocketGenerationFailure(u64, usize, u64),
}

/// The socket value of an `Option<Vec<u64>>` as a mathematical value.
pub open spec fn view_opt(v: Option<Vec<u64>>) -> Option<Seq<u64>> {
    match v {
        Some(s) => Some(s@),
        None => None,
    }
}

/// Derives the socket two adjacent sample variants expose to one another,
/// folding repeated sightings of the same pair into one socket value.
pub trait SocketProvider<D: Dimension>: Sized {
    /// What `find` answers, as a pure function of its arguments.
    spec fn find_spec(
        &self,
        current: Option<Seq<u64>>,
        dir: D,
        source: u64,
        target: u64,
    ) -> Result<Option<Seq<u64>>, NoSocket>;

    /// What `finalize` answers, as a pure function of its arguments.
    spec fn finalize_spec(&self, dir: D, socket: Seq<u64>) -> Seq<u64>;

    /// The working socket of `source` toward `target` along `dir`, folded
    /// over any socket already recorded for that side.
    fn find(
        &self,
        current: Option<Vec<u64>>,
        dir: D,
        source: &u64,
        target: &u64,
    ) -> (r: FindResult<Vec<u64>>)
        ensures
            match r {
                Ok(Some(s)) => self.find_spec(view_opt(current), dir, *source, *target)
                    matches Ok(Some(t)) && s@ == t,
                Ok(None) => self.find_spec(view_opt(current), dir, *source, *target) == Ok::<
                    Option<Seq<u64>>,
                    NoSocket,
                >(None),
                Err(_) => self.find_spec(view_opt(current), dir, *source, *target) is Err,
            },
    ;

    /// Turns a finished working socket into the final socket value.
    fn finalize(&self, dir: D, socket: Vec<u64>) -> (r: Vec<u64>)
        ensures
            r@ == self.finalize_spec(dir, socket@),
    ;
}

/// Folds a sample grid into a rule set.
pub trait RuleFinder<D: Dimension> {
    /// What a well-configured finder looks like; `find` asks for it.
    spec fn find_requires(&self) -> bool;

    fn find(&self) -> (r: Result<Rules<D>, Error>)
        requires
            self.find_requires(),
        ensures
            r matches Ok(rules) ==> rules.wf(),
    ;
}

} // verus!
