//! Benchmarkers judge how good a given server is.

use crate::servers::Server;
use vstd::prelude::*;

verus! {

/// The outcome of scoring one server: a score (lower is better) together with
/// the measured value it was derived from, or a message when the measurement
/// failed.
pub type ScoreLogResult<T> = Result<(u32, T), String>;

/// A Benchmarker is a way to say how good a given server is and whether it
/// should be considered for a connection.
pub trait Benchmarker<T> {
    /// Calculates a score for the given server. A lower score is better.
    fn bench(&self, server: &Server) -> ScoreLogResult<T>;
}

/// A marker for benchmarkers that can be run in parallel without an effect on
/// the result.
pub trait ParallelBenchmarker<T>: Benchmarker<T> {

}

/// Scores a server by the load it reports: the score is the load itself.
pub struct LoadBenchmarker;

impl Benchmarker<u8> for LoadBenchmarker {
    /// Scoring by load never fails and hands back the load as both score and
    /// measured value.
    fn bench(&self, server: &Server) -> (r: ScoreLogResult<u8>)
        ensures
            r == Ok::<(u32, u8), String>((server.load as u32, server.load)),
    {
        Ok((server.load as u32, server.load))
    }
}

impl ParallelBenchmarker<u8> for LoadBenchmarker {

}

} // verus!
