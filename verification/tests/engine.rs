//! Transfer ingestion, reverse-lookup interpretation, and the audit.
use ptr_audit::audit::{audit_addresses, classify_address, AuditVerdict};
use ptr_audit::ip::IpAddress;
use ptr_audit::lookup::{interpret_lookup, LookupOutcome, ResolverEvent};
use ptr_audit::pattern::{HostPattern, PatternError};
use ptr_audit::records::AddressRecordSet;
use ptr_audit::transfer::{
    Collector, RecordData, TransferError, TransferEvent, TransferMessage, TransferStatus,
    ZoneRecord,
};

fn addr_record(name: &str, ip: IpAddress) -> ZoneRecord {
    ZoneRecord { name: name.to_string(), data: RecordData::Address(ip) }
}

fn boundary_record() -> ZoneRecord {
    ZoneRecord { name: "example.org.".to_string(), data: RecordData::Other }
}

#[test]
fn collector_counts_content_records_without_the_two_boundaries() {
    let mut col = Collector::new();
    let msg = TransferMessage {
        status: TransferStatus::Success,
        records: vec![
            boundary_record(),
            addr_record("a.example.org.", IpAddress::V4(192, 0, 2, 1)),
            addr_record("b.example.org.", IpAddress::V4(192, 0, 2, 2)),
            addr_record("c.example.org.", IpAddress::V4(192, 0, 2, 3)),
            boundary_record(),
        ],
    };
    assert!(col.ingest(TransferEvent::Message(msg)).is_ok());
    assert_eq!(5, col.total_records());
    assert_eq!(3, col.content_records());
}

#[test]
fn collector_folds_multi_message_transfers() {
    let mut col = Collector::new();
    let first = TransferMessage {
        status: TransferStatus::Success,
        records: vec![
            boundary_record(),
            addr_record("a.example.org.", IpAddress::V4(192, 0, 2, 1)),
            addr_record("b.example.org.", IpAddress::V4(192, 0, 2, 1)),
        ],
    };
    let second = TransferMessage {
        status: TransferStatus::Success,
        records: vec![
            addr_record("c.example.org.", IpAddress::V4(192, 0, 2, 9)),
            boundary_record(),
        ],
    };
    assert!(col.ingest(TransferEvent::Message(first)).is_ok());
    assert!(col.ingest(TransferEvent::Message(second)).is_ok());
    assert_eq!(5, col.total_records());
    assert_eq!(3, col.content_records());

    let records = col.into_records();
    assert_eq!(2, records.len());
    assert_eq!(IpAddress::V4(192, 0, 2, 1), records.addr_at(0));
    let names = records.names_at(0);
    assert_eq!(2, names.len());
    assert_eq!("a.example.org.", names[0]);
    assert_eq!("b.example.org.", names[1]);
    assert_eq!(IpAddress::V4(192, 0, 2, 9), records.addr_at(1));
    assert_eq!(1, records.names_at(1).len());
}

#[test]
fn refused_and_not_authoritative_are_terminal() {
    let mut col = Collector::new();
    let first = TransferMessage {
        status: TransferStatus::Success,
        records: vec![
            boundary_record(),
            addr_record("a.example.org.", IpAddress::V4(192, 0, 2, 1)),
        ],
    };
    assert!(col.ingest(TransferEvent::Message(first)).is_ok());

    let refused = TransferMessage { status: TransferStatus::Refused, records: vec![] };
    assert_eq!(
        Err(TransferError::Rejected),
        col.ingest(TransferEvent::Message(refused))
    );

    let notauth = TransferMessage { status: TransferStatus::NotAuthoritative, records: vec![] };
    assert_eq!(
        Err(TransferError::NotAuthoritative),
        col.ingest(TransferEvent::Message(notauth))
    );
}

#[test]
fn other_failures_and_undecodable_messages_are_protocol_errors() {
    let mut col = Collector::new();
    let bad = TransferMessage { status: TransferStatus::OtherFailure, records: vec![] };
    assert_eq!(
        Err(TransferError::ProtocolError),
        col.ingest(TransferEvent::Message(bad))
    );
    assert_eq!(
        Err(TransferError::ProtocolError),
        col.ingest(TransferEvent::Undecodable)
    );
    assert_eq!(0, col.total_records());
}

#[test]
fn lookup_interpretation_follows_the_policy() {
    assert_eq!(LookupOutcome::NoPtr, interpret_lookup(ResolverEvent::Answer(vec![])));
    assert_eq!(
        LookupOutcome::HasPtr(vec!["a.example.".to_string()]),
        interpret_lookup(ResolverEvent::Answer(vec!["a.example.".to_string()]))
    );
    assert_eq!(LookupOutcome::NoPtr, interpret_lookup(ResolverEvent::NoRecords));
    assert_eq!(LookupOutcome::TimedOut, interpret_lookup(ResolverEvent::Timeout));
    assert_eq!(LookupOutcome::NoPtr, interpret_lookup(ResolverEvent::Fault));
}

#[test]
fn pattern_compilation_accepts_and_rejects_as_the_regex_crate_does() {
    assert!(HostPattern::new("bad-.*").is_ok());
    match HostPattern::new("foo(bar") {
        Err(PatternError::InvalidPattern(t)) => assert_eq!(t, "foo(bar"),
        other => panic!("expected InvalidPattern, got {:?}", other.map(|_| ())),
    }
}

#[test]
fn pattern_matching_depends_on_the_name() {
    let pat = HostPattern::new("bad-.*").unwrap();
    assert!(pat.matches_name("bad-host.example."));
    assert!(!pat.matches_name("good-host.example."));
    assert_eq!("bad-.*", pat.source_text());
}

#[test]
fn matching_ptr_with_no_pattern_is_healthy() {
    // Forward names a.example and b.example share the address; the reverse
    // lookup returns a.example; no pattern is set.
    let mut records = AddressRecordSet::new();
    let ip = IpAddress::V4(192, 0, 2, 1);
    records.add(ip, "a.example.".to_string());
    records.add(ip, "b.example.".to_string());
    let outcomes = vec![LookupOutcome::HasPtr(vec!["a.example.".to_string()])];

    let (reports, summary) = audit_addresses(&records, &outcomes, None);
    assert_eq!(1, reports.len());
    assert_eq!(ip, reports[0].addr);
    assert_eq!(vec![AuditVerdict::Healthy], reports[0].verdicts);
    assert_eq!(1, summary.total_addresses);
    assert_eq!(0, summary.failures);
    assert_eq!(Some(1000), summary.percent_ok_tenths);
}

#[test]
fn missing_ptr_is_one_failure() {
    let mut records = AddressRecordSet::new();
    records.add(IpAddress::V4(192, 0, 2, 1), "a.example.".to_string());
    let outcomes = vec![LookupOutcome::NoPtr];

    let (reports, summary) = audit_addresses(&records, &outcomes, None);
    assert_eq!(vec![AuditVerdict::MissingPtr], reports[0].verdicts);
    assert_eq!(1, summary.failures);
    assert_eq!(Some(0), summary.percent_ok_tenths);
}

#[test]
fn forbidden_ptr_is_one_failure_per_matching_name() {
    let pat = HostPattern::new("bad-.*").unwrap();

    // One forbidden reverse hostname: one failure, however many forward
    // hostnames point at the address.
    let mut records = AddressRecordSet::new();
    let ip = IpAddress::V4(192, 0, 2, 1);
    records.add(ip, "a.example.".to_string());
    records.add(ip, "b.example.".to_string());
    records.add(ip, "c.example.".to_string());
    let outcomes = vec![LookupOutcome::HasPtr(vec!["bad-host.example.".to_string()])];
    let (reports, summary) = audit_addresses(&records, &outcomes, Some(&pat));
    assert_eq!(1, reports.len());
    assert_eq!(
        vec![AuditVerdict::BadPtr("bad-host.example.".to_string(), "bad-.*".to_string())],
        reports[0].verdicts
    );
    assert_eq!(1, summary.failures);

    // Several matching reverse hostnames on one address count once each.
    let (vs, cnt) = classify_address(
        &LookupOutcome::HasPtr(vec![
            "bad-a.example.".to_string(),
            "ok.example.".to_string(),
            "bad-b.example.".to_string(),
        ]),
        Some(&pat),
    );
    assert_eq!(2, cnt);
    assert_eq!(2, vs.len());
    assert!(matches!(&vs[0], AuditVerdict::BadPtr(n, _) if n == "bad-a.example."));
    assert!(matches!(&vs[1], AuditVerdict::BadPtr(n, _) if n == "bad-b.example."));
}

#[test]
fn timeout_is_a_distinct_recoverable_failure() {
    let mut records = AddressRecordSet::new();
    records.add(IpAddress::V4(192, 0, 2, 1), "a.example.".to_string());
    records.add(IpAddress::V4(192, 0, 2, 2), "b.example.".to_string());
    let outcomes = vec![
        LookupOutcome::TimedOut,
        LookupOutcome::HasPtr(vec!["b.example.".to_string()]),
    ];
    let (reports, summary) = audit_addresses(&records, &outcomes, None);
    assert_eq!(vec![AuditVerdict::ResolutionTimedOut], reports[0].verdicts);
    assert_eq!(vec![AuditVerdict::Healthy], reports[1].verdicts);
    assert_eq!(1, summary.failures);
    assert_eq!(Some(500), summary.percent_ok_tenths);
}

#[test]
fn percent_ok_boundaries_and_general_value() {
    // No addresses: no percentage is computed.
    let records = AddressRecordSet::new();
    let outcomes: Vec<LookupOutcome> = vec![];
    let (_, summary) = audit_addresses(&records, &outcomes, None);
    assert_eq!(0, summary.total_addresses);
    assert_eq!(None, summary.percent_ok_tenths);

    // Four addresses, one failure: 75.0 percent.
    let mut records = AddressRecordSet::new();
    records.add(IpAddress::V4(192, 0, 2, 1), "a.example.".to_string());
    records.add(IpAddress::V4(192, 0, 2, 2), "b.example.".to_string());
    records.add(IpAddress::V4(192, 0, 2, 3), "c.example.".to_string());
    records.add(IpAddress::V4(192, 0, 2, 4), "d.example.".to_string());
    let ptr = |n: &str| LookupOutcome::HasPtr(vec![n.to_string()]);
    let outcomes = vec![ptr("a.example."), ptr("b.example."), ptr("c.example."), LookupOutcome::NoPtr];
    let (_, summary) = audit_addresses(&records, &outcomes, None);
    assert_eq!(4, summary.total_addresses);
    assert_eq!(1, summary.failures);
    assert_eq!(Some(750), summary.percent_ok_tenths);
}
