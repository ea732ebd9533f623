//! The audit orchestrator: classifies every discovered address by the
//! outcome of its reverse lookup and an optional forbidden-hostname
//! pattern, and aggregates the failure count and health score.
use vstd::prelude::*;

use crate::ip::IpAddress;
use crate::lookup::LookupOutcome;
use crate::pattern::{regex_match, HostPattern};
use crate::records::AddressRecordSet;

verus! {

/// The classification of one address, one verdict per finding. An address
/// with several forbidden reverse hostnames draws one `BadPtr` per matching
/// hostname.
#[derive(Clone, PartialEq, Debug)]
pub enum AuditVerdict {
    /// The address has acceptable reverse records.
    Healthy,
    /// The address has no reverse record.
    MissingPtr,
    /// A reverse hostname matched the forbidden pattern; carries the
    /// hostname and the pattern.
    BadPtr(String, String),
    /// The reverse lookup timed out, so the address stays undetermined.
    ResolutionTimedOut,
}

/// The aggregate health of the zone, computed once after every address is
/// classified.
#[derive(Clone, PartialEq, Debug)]
pub struct AuditSummary {
    pub total_addresses: u64,
    pub failures: u64,
    /// Share of addresses without failure, in tenths of a percent; absent
    /// when no address was audited.
    pub percent_ok_tenths: Option<u64>,
}

/// One audited address with its verdicts, in record-set order.
#[derive(Clone, Debug)]
pub struct AddressReport {
    pub addr: IpAddress,
    pub verdicts: Vec<AuditVerdict>,
}

pub open spec fn pat_view(pattern: Option<&HostPattern>) -> Option<Seq<char>> {
    match pattern {
        Some(p) => Some(p@),
        None => None,
    }
}

/// The reverse hostnames the pattern forbids, in order.
pub open spec fn matched_names(names: Seq<Seq<char>>, pat: Seq<char>) -> Seq<Seq<char>> {
    names.filter(|n: Seq<char>| regex_match(pat, n))
}

/// How many failures one outcome contributes: one for a missing record or a
/// timeout, one per forbidden reverse hostname otherwise.
pub open spec fn failures_for(oc: LookupOutcome, pat: Option<Seq<char>>) -> nat {
    match oc {
        LookupOutcome::TimedOut => 1,
        LookupOutcome::NoPtr => 1,
        LookupOutcome::HasPtr(ns) => match pat {
            Some(p) => matched_names(ns.deep_view(), p).len(),
            None => 0,
        },
    }
}

/// The verdict list one outcome draws.
pub open spec fn verdicts_for(
    oc: LookupOutcome,
    pat: Option<Seq<char>>,
    vs: Seq<AuditVerdict>,
) -> bool {
    match oc {
        LookupOutcome::TimedOut => vs.len() == 1 && vs[0] is ResolutionTimedOut,
        LookupOutcome::NoPtr => vs.len() == 1 && vs[0] is MissingPtr,
        LookupOutcome::HasPtr(ns) => match pat {
            None => vs.len() == 1 && vs[0] is Healthy,
            Some(p) => {
                let bad = matched_names(ns.deep_view(), p);
                if bad.len() == 0 {
                    vs.len() == 1 && vs[0] is Healthy
                } else {
                    vs.len() == bad.len() && forall|i: int|
                        0 <= i < vs.len() ==> (#[trigger] vs[i] matches AuditVerdict::BadPtr(
                            nm,
                            ps,
                        ) && nm@ == bad[i] && ps@ == p)
                }
            },
        },
    }
}

/// Classify one address: its verdicts and the failures they count for.
pub fn classify_address(outcome: &LookupOutcome, pattern: Option<&HostPattern>) -> (r: (
    Vec<AuditVerdict>,
    u64,
))
    ensures
        verdicts_for(*outcome, pat_view(pattern), r.0@),
        r.1 == failures_for(*outcome, pat_view(pattern)),
{
    match outcome {
        LookupOutcome::TimedOut => {
            let mut vs: Vec<AuditVerdict> = Vec::new();
            vs.push(AuditVerdict::ResolutionTimedOut);
            (vs, 1)
        },
        LookupOutcome::NoPtr => {
            let mut vs: Vec<AuditVerdict> = Vec::new();
            vs.push(AuditVerdict::MissingPtr);
            (vs, 1)
        },
        LookupOutcome::HasPtr(ns) => {
            match pattern {
                None => {
                    let mut vs: Vec<AuditVerdict> = Vec::new();
                    vs.push(AuditVerdict::Healthy);
                    (vs, 0)
                },
                Some(p) => {
                    let ghost dv = ns.deep_view();
                    let ghost pv = p@;
                    let mut vs: Vec<AuditVerdict> = Vec::new();
                    let mut cnt: u64 = 0;
                    let n = ns.len();
                    let mut i: usize = 0;
                    proof {
                        reveal(Seq::filter);
                        assert(dv.take(0).len() == 0);
                        assert(matched_names(dv.take(0), pv).len() == 0);
                    }
                    while i < n
                        invariant
                            i <= n,
                            n == ns@.len(),
                            dv == ns.deep_view(),
                            dv.len() == n,
                            pv == p@,
                            cnt == matched_names(dv.take(i as int), pv).len(),
                            vs@.len() == cnt,
                            forall|j: int|
                                0 <= j < vs@.len() ==> (#[trigger] vs@[j] matches AuditVerdict::BadPtr(
                                    nm,
                                    ps,
                                ) && nm@ == matched_names(dv.take(i as int), pv)[j] && ps@ == pv),
                        decreases n - i,
                    {
                        let ghost t0 = dv.take(i as int);
                        let ghost t1 = dv.take(i + 1);
                        proof {
                            reveal(Seq::filter);
                            assert(dv[i as int] == ns@[i as int]@);
                            assert(t1.drop_last() =~= t0);
                            assert(t1.last() == dv[i as int]);
                            assert(matched_names(t1, pv) == if regex_match(pv, dv[i as int]) {
                                matched_names(t0, pv).push(dv[i as int])
                            } else {
                                matched_names(t0, pv)
                            });
                            t0.lemma_filter_len(|n: Seq<char>| regex_match(pv, n));
                        }
                        let name = &ns[i];
                        if p.matches_name(name.as_str()) {
                            vs.push(AuditVerdict::BadPtr(name.clone(), p.source_text()));
                            cnt = cnt + 1;
                        }
                        i = i + 1;
                    }
                    proof {
                        assert(dv.take(n as int) =~= dv);
                    }
                    if vs.len() == 0 {
                        vs.push(AuditVerdict::Healthy);
                        (vs, cnt)
                    } else {
                        (vs, cnt)
                    }
                },
            }
        },
    }
}

/// An upper bound on what one outcome can contribute, stated without the
/// pattern.
pub open spec fn outcome_weight(oc: LookupOutcome) -> nat {
    match oc {
        LookupOutcome::HasPtr(ns) => ns@.len(),
        _ => 1,
    }
}

pub open spec fn total_weight(ocs: Seq<LookupOutcome>) -> nat
    decreases ocs.len(),
{
    if ocs.len() == 0 {
        0
    } else {
        total_weight(ocs.drop_last()) + outcome_weight(ocs.last())
    }
}

/// The failures of a whole run: the sum over every outcome.
pub open spec fn total_failures(ocs: Seq<LookupOutcome>, pat: Option<Seq<char>>) -> nat
    decreases ocs.len(),
{
    if ocs.len() == 0 {
        0
    } else {
        total_failures(ocs.drop_last(), pat) + failures_for(ocs.last(), pat)
    }
}

pub proof fn lemma_failures_le_weight(ocs: Seq<LookupOutcome>, pat: Option<Seq<char>>)
    ensures
        total_failures(ocs, pat) <= total_weight(ocs),
    decreases ocs.len(),
{
    if ocs.len() > 0 {
        lemma_failures_le_weight(ocs.drop_last(), pat);
        assert(failures_for(ocs.last(), pat) <= outcome_weight(ocs.last())) by {
            match ocs.last() {
                LookupOutcome::HasPtr(ns) => {
                    match pat {
                        Some(p) => {
                            ns.deep_view().lemma_filter_len(
                                |n: Seq<char>| regex_match(p, n),
                            );
                            assert(ns.deep_view().len() == ns@.len());
                        },
                        None => {},
                    }
                },
                _ => {},
            }
        }
    }
}

pub proof fn lemma_weight_prefix(ocs: Seq<LookupOutcome>, i: int)
    requires
        0 <= i <= ocs.len(),
    ensures
        total_weight(ocs.take(i)) <= total_weight(ocs),
    decreases ocs.len(),
{
    if i < ocs.len() {
        assert(ocs.drop_last().take(i) =~= ocs.take(i));
        lemma_weight_prefix(ocs.drop_last(), i);
    } else {
        assert(ocs.take(i) =~= ocs);
    }
}

/// The health score in tenths of a percent, floored at zero.
pub open spec fn percent_tenths(total: nat, failures: nat) -> nat
    recommends
        total > 0,
{
    if failures >= total {
        0
    } else {
        (((total - failures) * 1000) / total as int) as nat
    }
}

/// Law: with any addresses at all, the score is exactly one thousand
/// tenths when nothing failed, exactly zero when every address failed, and
/// never above one thousand.
pub proof fn lemma_percent_boundaries(total: nat, failures: nat)
    requires
        total > 0,
    ensures
        failures == 0 ==> percent_tenths(total, failures) == 1000,
        failures >= total ==> percent_tenths(total, failures) == 0,
        percent_tenths(total, failures) <= 1000,
{
    if failures == 0 {
        assert((total as int * 1000) / (total as int) == 1000) by {
            vstd::arithmetic::div_mod::lemma_div_multiples_vanish(1000, total as int);
            assert(total * 1000 == 1000 * total) by {
                vstd::arithmetic::mul::lemma_mul_is_commutative(total as int, 1000);
            }
        }
    }
    if failures < total {
        assert(((total - failures) * 1000) / total as int <= 1000) by {
            assert((total - failures) * 1000 <= total * 1000) by {
                vstd::arithmetic::mul::lemma_mul_inequality(
                    total as int - failures as int,
                    total as int,
                    1000,
                );
            }
            vstd::arithmetic::div_mod::lemma_div_is_ordered(
                (total - failures) * 1000,
                total as int * 1000,
                total as int,
            );
            vstd::arithmetic::div_mod::lemma_div_multiples_vanish(1000, total as int);
            assert(total * 1000 == 1000 * total) by {
                vstd::arithmetic::mul::lemma_mul_is_commutative(total as int, 1000);
            }
        }
    }
}

/// Audit every address of the record set, in record-set order, against the
/// outcome of its reverse lookup. Yields one report per address and the
/// aggregate summary.
pub fn audit_addresses(
    records: &AddressRecordSet,
    outcomes: &Vec<LookupOutcome>,
    pattern: Option<&HostPattern>,
) -> (r: (Vec<AddressReport>, AuditSummary))
    requires
        outcomes@.len() == records@.len(),
        total_weight(outcomes@) <= u64::MAX,
    ensures
        r.0@.len() == records@.len(),
        forall|i: int|
            0 <= i < r.0@.len() ==> (#[trigger] r.0@[i]).addr == records@[i].0 && verdicts_for(
                outcomes@[i],
                pat_view(pattern),
                r.0@[i].verdicts@,
            ),
        r.1.total_addresses == records@.len(),
        r.1.failures == total_failures(outcomes@, pat_view(pattern)),
        r.1.percent_ok_tenths == if records@.len() == 0 {
            Option::<u64>::None
        } else {
            Option::<u64>::Some(
                percent_tenths(records@.len() as nat, total_failures(outcomes@, pat_view(pattern)))
                    as u64,
            )
        },
{
    let ghost pv = pat_view(pattern);
    let n = records.len();
    let mut reports: Vec<AddressReport> = Vec::new();
    let mut failures: u64 = 0;
    let mut i: usize = 0;
    while i < n
        invariant
            i <= n,
            n == records@.len(),
            outcomes@.len() == n,
            total_weight(outcomes@) <= u64::MAX,
            pv == pat_view(pattern),
            reports@.len() == i,
            forall|j: int|
                0 <= j < i ==> (#[trigger] reports@[j]).addr == records@[j].0 && verdicts_for(
                    outcomes@[j],
                    pv,
                    reports@[j].verdicts@,
                ),
            failures == total_failures(outcomes@.take(i as int), pv),
        decreases n - i,
    {
        let ghost t1 = outcomes@.take(i + 1);
        proof {
            assert(t1.drop_last() =~= outcomes@.take(i as int));
            assert(t1.last() == outcomes@[i as int]);
            lemma_failures_le_weight(t1, pv);
            lemma_weight_prefix(outcomes@, i + 1);
        }
        let addr = records.addr_at(i);
        let (vs, cnt) = classify_address(&outcomes[i], pattern);
        reports.push(AddressReport { addr, verdicts: vs });
        failures = failures + cnt;
        i = i + 1;
    }
    proof {
        assert(outcomes@.take(n as int) =~= outcomes@);
    }
    let total: u64 = n as u64;
    let percent: Option<u64> = if total == 0 {
        None
    } else if failures >= total {
        Some(0)
    } else {
        let num: u128 = ((total - failures) as u128) * 1000;
        let q: u128 = num / (total as u128);
        proof {
            lemma_percent_boundaries(total as nat, failures as nat);
        }
        Some(q as u64)
    };
    (reports, AuditSummary { total_addresses: total, failures, percent_ok_tenths: percent })
}

} // verus!
