//! What a query asks for, and the text that answers it.

use vstd::prelude::*;
use vstd::string::*;
use crate::digest::{Digest, DigestError};
use crate::prime_digestor::{effort, lemma_effort_bounded, metrics_text, PrimeDigestor};

verus! {

/// The universe of inputs and factors.
pub type N = u64;

/// One query: the number to check, and whether the answer reports the
/// work done.
#[derive(Clone, Copy, Debug, PartialEq, Eq)]
pub struct Input {
    pub number: N,
    pub metrics: bool,
}

impl Input {
    /// The answer to the query: the display text of the outcome for the
    /// number; where metrics are asked for, a blank line, the line
    /// `metrics:` and the work of a fresh digestor follow.
    pub open spec fn answer(self) -> Seq<char> {
        let outcome = Digest::of(self.number as nat).text();
        let work = effort(Set::<N>::empty(), self.number);
        if self.metrics {
            outcome + "\n\nmetrics:\n"@ + metrics_text(work.calls, work.hits, work.known.len())
        } else {
            outcome
        }
    }

    /// Answers the query with a fresh digestor. Numbers below two have
    /// no answer.
    pub fn report(&self) -> (result: Result<String, DigestError>)
        ensures
            self.number < 2 ==> result == Err::<String, DigestError>(DigestError::BelowTwo),
            self.number >= 2 ==> (result matches Ok(text) && text@ == self.answer()),
    {
        let mut digestor = PrimeDigestor::new();
        let outcome = match digestor.is_prime(self.number) {
            Ok(outcome) => outcome,
            Err(e) => {
                return Err(e);
            },
        };
        proof {
            lemma_effort_bounded(Set::<N>::empty(), self.number);
        }
        let mut text = outcome.to_string();
        if self.metrics {
            text.append("\n\nmetrics:\n");
            let metrics = digestor.metrics_to_string();
            text.append(metrics.as_str());
        }
        Ok(text)
    }
}

} // verus!
