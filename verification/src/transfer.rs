//! Zone-transfer ingestion: the response arrives as a finite sequence of
//! messages, each carrying a status and records. The collector consumes the
//! messages in delivery order, stops the whole transfer on a terminal
//! status, and folds every address record into the address record set.
use vstd::prelude::*;

use crate::ip::IpAddress;
use crate::records::{record_added, AddressRecordSet};

verus! {

/// The status a transfer message carries, reduced to the cases the engine
/// distinguishes.
#[derive(Clone, Copy, PartialEq, Eq, Structural, Debug)]
pub enum TransferStatus {
    /// The message is good; its records are to be processed.
    Success,
    /// The server refuses transfers to this client: terminal.
    Refused,
    /// The server is not authoritative for the zone: terminal.
    NotAuthoritative,
    /// Any other failure status: a protocol error.
    OtherFailure,
}

/// What one resource record carries: an address for the two address record
/// kinds, nothing the engine reads for every other kind (boundary markers
/// included).
#[derive(Clone, Copy, PartialEq, Eq, Structural, Debug)]
pub enum RecordData {
    Address(IpAddress),
    Other,
}

/// One resource record of a transfer message: its owner name and its
/// payload.
#[derive(Clone, Debug)]
pub struct ZoneRecord {
    pub name: String,
    pub data: RecordData,
}

impl View for ZoneRecord {
    type V = (Seq<char>, RecordData);

    open spec fn view(&self) -> (Seq<char>, RecordData) {
        (self.name@, self.data)
    }
}

/// One unit of the streamed transfer response.
#[derive(Clone, Debug)]
pub struct TransferMessage {
    pub status: TransferStatus,
    pub records: Vec<ZoneRecord>,
}

/// What the transport hands the collector next: a decoded message, or a
/// message that could not be decoded at all.
#[derive(Debug)]
pub enum TransferEvent {
    Message(TransferMessage),
    Undecodable,
}

/// Why a transfer failed. `Rejected` and `NotAuthoritative` are the two
/// terminal conditions reported with a dedicated exit signal.
#[derive(Clone, Copy, PartialEq, Eq, Structural, Debug)]
pub enum TransferError {
    Rejected,
    NotAuthoritative,
    ProtocolError,
    ConnectionError,
}

pub open spec fn records_view(v: Seq<ZoneRecord>) -> Seq<(Seq<char>, RecordData)> {
    v.map_values(|r: ZoneRecord| r@)
}

/// The record set after folding `recs` in order: each address record
/// appends its owner name under its address, every other record is skipped.
pub open spec fn folded(
    m: Seq<(IpAddress, Seq<Seq<char>>)>,
    recs: Seq<(Seq<char>, RecordData)>,
) -> Seq<(IpAddress, Seq<Seq<char>>)>
    decreases recs.len(),
{
    if recs.len() == 0 {
        m
    } else {
        let prev = folded(m, recs.drop_last());
        match recs.last().1 {
            RecordData::Address(a) => record_added(prev, a, recs.last().0),
            RecordData::Other => prev,
        }
    }
}

/// The collector: the in-progress record set and a running count of every
/// record seen, kept for diagnostic reporting.
pub struct Collector {
    records: AddressRecordSet,
    total_records: u64,
}

impl Collector {
    pub closed spec fn model(&self) -> Seq<(IpAddress, Seq<Seq<char>>)> {
        self.records@
    }

    pub closed spec fn total(&self) -> u64 {
        self.total_records
    }

    pub closed spec fn wf(&self) -> bool {
        self.records.wf()
    }

    pub fn new() -> (r: Collector)
        ensures
            r.model() =~= Seq::<(IpAddress, Seq<Seq<char>>)>::empty(),
            r.total() == 0,
            r.wf(),
    {
        Collector { records: AddressRecordSet::new(), total_records: 0 }
    }

    /// Consume one transfer event. A `Success` message has all its address
    /// records folded in and every record counted; each other status stops
    /// the transfer with its error and leaves the state unchanged.
    pub fn ingest(&mut self, ev: TransferEvent) -> (r: Result<(), TransferError>)
        requires
            old(self).wf(),
            ev matches TransferEvent::Message(m) ==> (m.status == TransferStatus::Success ==> old(
                self,
            ).total() + m.records@.len() <= u64::MAX),
        ensures
            final(self).wf(),
            match ev {
                TransferEvent::Undecodable => r == Err::<(), TransferError>(
                    TransferError::ProtocolError,
                ) && final(self).model() == old(self).model() && final(self).total() == old(
                    self,
                ).total(),
                TransferEvent::Message(m) => match m.status {
                    TransferStatus::Success => r is Ok && final(self).model() =~~= folded(
                        old(self).model(),
                        records_view(m.records@),
                    ) && final(self).total() == old(self).total() + m.records@.len(),
                    TransferStatus::Refused => r == Err::<(), TransferError>(
                        TransferError::Rejected,
                    ) && final(self).model() == old(self).model() && final(self).total() == old(
                        self,
                    ).total(),
                    TransferStatus::NotAuthoritative => r == Err::<(), TransferError>(
                        TransferError::NotAuthoritative,
                    ) && final(self).model() == old(self).model() && final(self).total() == old(
                        self,
                    ).total(),
                    TransferStatus::OtherFailure => r == Err::<(), TransferError>(
                        TransferError::ProtocolError,
                    ) && final(self).model() == old(self).model() && final(self).total() == old(
                        self,
                    ).total(),
                },
            },
    {
        match ev {
            TransferEvent::Undecodable => Err(TransferError::ProtocolError),
            TransferEvent::Message(m) => {
                match m.status {
                    TransferStatus::Refused => Err(TransferError::Rejected),
                    TransferStatus::NotAuthoritative => Err(TransferError::NotAuthoritative),
                    TransferStatus::OtherFailure => Err(TransferError::ProtocolError),
                    TransferStatus::Success => {
                        let ghost rv = records_view(m.records@);
                        let n = m.records.len();
                        let mut i: usize = 0;
                        while i < n
                            invariant
                                i <= n,
                                n == m.records@.len(),
                                rv == records_view(m.records@),
                                rv.len() == n,
                                self.records.wf(),
                                self.records@ =~~= folded(
                                    old(self).records@,
                                    rv.take(i as int),
                                ),
                                self.total_records == old(self).total_records,
                                old(self).total() + n <= u64::MAX,
                            decreases n - i,
                        {
                            let rec = &m.records[i];
                            proof {
                                assert(rv[i as int] == m.records@[i as int]@);
                                assert(rv.take(i + 1).drop_last() =~= rv.take(i as int));
                                assert(rv.take(i + 1).last() == rv[i as int]);
                            }
                            match &rec.data {
                                RecordData::Address(a) => {
                                    let name = rec.name.clone();
                                    self.records.add(*a, name);
                                },
                                RecordData::Other => {
                                },
                            }
                            i = i + 1;
                        }
                        proof {
                            assert(rv.take(n as int) =~= rv);
                        }
                        self.total_records = self.total_records + (n as u64);
                        Ok(())
                    },
                }
            },
        }
    }

    /// Hand over the finished record set.
    pub fn into_records(self) -> (r: AddressRecordSet)
        ensures
            r@ == self.model(),
            self.wf() ==> r.wf(),
    {
        self.records
    }

    pub fn total_records(&self) -> (r: u64)
        ensures
            r == self.total(),
    {
        self.total_records
    }

    /// The number of zone content records seen: every record but the two
    /// boundary markers that a full transfer always carries at its start
    /// and its end.
    pub fn content_records(&self) -> (r: u64)
        requires
            self.total() >= 2,
        ensures
            r == self.total() - 2,
    {
        self.total_records - 2
    }
}

} // verus!
