//! The reverse-lookup policy: what the resolver reported for one address is
//! reduced to the outcome the audit consumes. A timeout stays
//! distinguishable; an empty answer and an unrecognized resolver fault both
//! count as a missing pointer record, so one environment anomaly never
//! aborts the run.
use vstd::prelude::*;

verus! {

/// What the resolver reported for one address, as plain values.
#[derive(Debug)]
pub enum ResolverEvent {
    /// The hostnames returned, in resolver order.
    Answer(Vec<String>),
    /// A valid but empty answer.
    NoRecords,
    /// The lookup timed out.
    Timeout,
    /// Any other resolver fault.
    Fault,
}

/// The outcome of one address's reverse lookup.
#[derive(Clone, PartialEq, Debug)]
pub enum LookupOutcome {
    NoPtr,
    HasPtr(Vec<String>),
    TimedOut,
}

/// Reduce a resolver report to its audit outcome: hostnames are kept in
/// order, an empty or absent answer is a missing pointer, a fault is
/// treated the same, and only a timeout stays separate.
pub fn interpret_lookup(ev: ResolverEvent) -> (r: LookupOutcome)
    ensures
        match ev {
            ResolverEvent::Answer(names) => if names@.len() == 0 {
                r is NoPtr
            } else {
                r matches LookupOutcome::HasPtr(ns) && ns@ == names@
            },
            ResolverEvent::NoRecords => r is NoPtr,
            ResolverEvent::Timeout => r is TimedOut,
            ResolverEvent::Fault => r is NoPtr,
        },
{
    match ev {
        ResolverEvent::Answer(names) => {
            if names.len() == 0 {
                LookupOutcome::NoPtr
            } else {
                LookupOutcome::HasPtr(names)
            }
        },
        ResolverEvent::NoRecords => LookupOutcome::NoPtr,
        ResolverEvent::Timeout => LookupOutcome::TimedOut,
        ResolverEvent::Fault => LookupOutcome::NoPtr,
    }
}

} // verus!
