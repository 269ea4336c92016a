//! Errors that can arise during wave-graph computations.

use vstd::prelude::*;

use crate::text::{all_digits, decimal, digits_value, lemma_decimal_value, push_decimal};

verus! {

/// Errors that can arise during wave-graph computations.
#[derive(Debug)]
pub enum WaveError {
    /// Graph has zero nodes.
    EmptyGraph,
    /// Graph is disconnected (no wave propagation possible).
    Disconnected,
    /// Invalid parameter (e.g. negative damping).
    InvalidParameter(String),
    /// Eigenvalue computation did not converge.
    NoConvergence { iterations: usize },
    /// Index out of bounds.
    IndexOutOfBounds { index: usize, len: usize },
}

/// Convenience alias for results in this crate.
pub type WaveResult<T> = Result<T, WaveError>;

/// The message of an error, as its `Display` form writes it.
pub open spec fn error_message(e: WaveError) -> Seq<char> {
    match e {
        WaveError::EmptyGraph => "graph has zero nodes"@,
        WaveError::Disconnected => "graph is disconnected"@,
        WaveError::InvalidParameter(msg) => "invalid parameter: "@ + msg@,
        WaveError::NoConvergence { iterations } =>
            "eigenvalue computation did not converge after "@ + decimal(iterations as nat) + " iterations"@,
        WaveError::IndexOutOfBounds { index, len } =>
            "index "@ + decimal(index as nat) + " out of bounds (len "@ + decimal(len as nat) + ")"@,
    }
}

/// The numbers in a message are written out in decimal: the out-of-bounds
/// message names the index, then the length; the convergence message names
/// the number of iterations; a parameter message ends with the given text.
pub proof fn lemma_error_message_fields(e: WaveError)
    ensures
        e matches WaveError::IndexOutOfBounds { index, len } ==> exists|a: Seq<char>, b: Seq<char>|
            #![trigger digits_value(a), digits_value(b)]
            error_message(e) == "index "@ + a + " out of bounds (len "@ + b + ")"@ && all_digits(a)
                && all_digits(b) && a.len() >= 1 && b.len() >= 1 && digits_value(a) == index
                && digits_value(b) == len,
        e matches WaveError::NoConvergence { iterations } ==> exists|a: Seq<char>|
            #![trigger digits_value(a)]
            error_message(e) == "eigenvalue computation did not converge after "@ + a + " iterations"@
                && all_digits(a) && a.len() >= 1 && digits_value(a) == iterations,
        e matches WaveError::InvalidParameter(msg) ==> error_message(e) == "invalid parameter: "@ + msg@,
{
    match e {
        WaveError::IndexOutOfBounds { index, len } => {
            lemma_decimal_value(index as nat);
            lemma_decimal_value(len as nat);
            let a = decimal(index as nat);
            let b = decimal(len as nat);
            assert(digits_value(a) == index && digits_value(b) == len);
        },
        WaveError::NoConvergence { iterations } => {
            lemma_decimal_value(iterations as nat);
            let a = decimal(iterations as nat);
            assert(digits_value(a) == iterations);
        },
        _ => {},
    }
}

impl WaveError {
    /// Human-readable description of the error.
    pub fn message(&self) -> (s: String)
        ensures
            s@ == error_message(*self),
    {
        match self {
            WaveError::EmptyGraph => String::from_str("graph has zero nodes"),
            WaveError::Disconnected => String::from_str("graph is disconnected"),
            WaveError::InvalidParameter(msg) => {
                let mut s = String::from_str("invalid parameter: ");
                s.append(msg.as_str());
                s
            },
            WaveError::NoConvergence { iterations } => {
                let mut s = String::from_str("eigenvalue computation did not converge after ");
                push_decimal(&mut s, *iterations as u64);
                s.append(" iterations");
                s
            },
            WaveError::IndexOutOfBounds { index, len } => {
                let mut s = String::from_str("index ");
                push_decimal(&mut s, *index as u64);
                s.append(" out of bounds (len ");
                push_decimal(&mut s, *len as u64);
                s.append(")");
                s
            },
        }
    }
}

} // verus!
