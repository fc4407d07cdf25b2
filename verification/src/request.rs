//! What is exchanged with the server that sets the problems.

use crate::solve::card_voice::decimal;
use crate::solve::InspectPoint;
use vstd::prelude::*;

verus! {

/// A problem as the server describes it.
#[derive(Debug)]
pub struct Problem {
    /// The problem's name.
    pub id: String,
    /// The number of chunks the recording is cut into.
    pub chunks: u32,
    /// When the problem started.
    pub start_at: u64,
    /// How long the problem runs.
    pub time_limit: u64,
    /// The number of voices laid over one another.
    pub data: u32,
}

/// The names of the chunks that the server hands out.
#[derive(Debug)]
pub struct Chunks {
    /// One file name for each chunk.
    pub chunks: Vec<String>,
}

/// An answer to a problem.
#[derive(Debug)]
pub struct Answer {
    /// The problem's name.
    pub problem_id: String,
    /// The cards heard, each by its number within its half.
    pub answers: Vec<String>,
}

/// The server's receipt for an answer.
#[derive(Debug)]
pub struct AnswerResponse {
    /// The problem's name.
    pub problem_id: String,
    /// The cards that were answered.
    pub answers: Vec<String>,
    /// When the answer was accepted.
    pub accepted_at: u64,
}

impl Problem {
    /// The number of voices to look for.
    pub fn voices(&self) -> (k: usize)
        ensures
            k == self.data,
    {
        self.data as usize
    }
}

impl Answer {
    /// The answer that names the voices of `points`, in their order.
    pub fn new(problem_id: String, points: &Vec<InspectPoint>) -> (answer: Answer)
        ensures
            answer.problem_id == problem_id,
            answer.answers@.len() == points@.len(),
            forall|i: int|
                0 <= i < points@.len() ==> (#[trigger] answer.answers@[i])@ == decimal(
                    points@[i].using_voice.number_in_half(),
                ),
    {
        let mut answers: Vec<String> = Vec::new();
        let mut i: usize = 0;
        while i < points.len()
            invariant
                i <= points.len(),
                answers@.len() == i,
                forall|j: int|
                    0 <= j < i ==> (#[trigger] answers@[j])@ == decimal(
                        points@[j].using_voice.number_in_half(),
                    ),
            decreases points.len() - i,
        {
            answers.push(points[i].using_voice.into_answer_string());
            i = i + 1;
        }
        Answer { problem_id, answers }
    }
}

} // verus!
