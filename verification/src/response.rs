//! The response builder: parses a query, looks the name up in an injected
//! read-only table of A records, and assembles the full response buffer —
//! success with one answer, NXDOMAIN on a miss, or an explicit drop.

use vstd::prelude::*;
use vstd::slice::slice_index_get;
use crate::wire::{be_bytes_of_u16, be_bytes_of_u32, push_u16_be, push_u32_be};
use crate::header::{DnsHeader, spec_header_bytes, spec_parse_header};
use crate::domain::{spec_encode_name, encode_domain_name};
use crate::question::{spec_parse_question, parse_question};

verus! {

/// The query type of an A record (an IPv4 address).
pub const QTYPE_A: u16 = 1;

/// The Internet query class.
pub const QCLASS_IN: u16 = 1;

/// Header flags of a standard response with no error.
pub const FLAGS_RESPONSE_NOERROR: u16 = 0x8180;

/// Header flags of a standard response with the name error (NXDOMAIN).
pub const FLAGS_RESPONSE_NXDOMAIN: u16 = 0x8183;

/// The time-to-live, in seconds, of every answer record served.
pub const ANSWER_TTL: u32 = 300;

/// The resource-data length of an A record: the four address bytes.
pub const ANSWER_RDLENGTH: u16 = 4;

/// One A record: a domain name and the four address bytes it maps to.
#[derive(Debug)]
pub struct ARecord {
    pub name: Vec<u8>,
    pub addr: [u8; 4],
}

/// The read-only name-to-address table a response is built against; an
/// injected value, owned by the caller, never by the codec.
#[derive(Debug)]
pub struct RecordTable {
    pub entries: Vec<ARecord>,
}

/// The address of the first entry whose name matches exactly (bytewise,
/// so case-sensitively), front to back.
pub open spec fn spec_lookup(entries: Seq<ARecord>, name: Seq<u8>) -> Option<Seq<u8>>
    decreases entries.len(),
{
    if entries.len() == 0 {
        None
    } else if entries[0].name@ == name {
        Some(entries[0].addr@)
    } else {
        spec_lookup(entries.subrange(1, entries.len() as int), name)
    }
}

impl RecordTable {
    /// An empty table.
    pub fn new() -> (r: RecordTable)
        ensures
            r.entries@.len() == 0,
    {
        RecordTable { entries: Vec::new() }
    }

    /// Adds a record in front, so a later entry for the same name shadows
    /// an earlier one.
    pub fn insert(&mut self, name: Vec<u8>, addr: [u8; 4])
        ensures
            final(self).entries@ == old(self).entries@.insert(0, (ARecord { name, addr })),
    {
        self.entries.insert(0, ARecord { name, addr });
    }

    /// Finds the address registered for a name, matched bytewise.
    pub fn lookup(&self, name: &[u8]) -> (r: Option<[u8; 4]>)
        ensures
            match r {
                Some(a) => spec_lookup(self.entries@, name@) == Some(a@),
                None => spec_lookup(self.entries@, name@) is None,
            },
    {
        let ghost entries = self.entries@;
        proof {
            assert(entries.subrange(0, entries.len() as int) =~= entries);
        }
        let mut i: usize = 0;
        while i < self.entries.len()
            invariant
                i <= entries.len(),
                entries == self.entries@,
                spec_lookup(entries, name@) == spec_lookup(
                    entries.subrange(i as int, entries.len() as int),
                    name@,
                ),
            decreases entries.len() - i,
        {
            let rec = slice_index_get(self.entries.as_slice(), i);
            let ghost sub = entries.subrange(i as int, entries.len() as int);
            proof {
                assert(sub[0] == entries[i as int]);
            }
            if crate::wire::bytes_eq(rec.name.as_slice(), name) {
                return Some(rec.addr);
            }
            proof {
                assert(sub.subrange(1, sub.len() as int) =~= entries.subrange(
                    i + 1,
                    entries.len() as int,
                ));
            }
            i = i + 1;
        }
        proof {
            assert(entries.subrange(i as int, entries.len() as int).len() == 0);
        }
        None
    }
}

/// Why a query produced no response: it could not be parsed, or it asked
/// for a record type this resolver does not serve.
#[derive(Clone, Copy, Debug, PartialEq, Eq, Structural)]
pub enum DropReason {
    Malformed,
    UnsupportedType,
}

/// The outcome of handling one query: a successful answer, an NXDOMAIN
/// response (also sent on the wire), or a silent drop with its reason.
#[derive(Debug)]
pub enum BuildOutcome {
    Success(Vec<u8>),
    NotFound(Vec<u8>),
    Dropped(DropReason),
}

/// The question section echoed into a response: the name re-encoded
/// literally, then the type and class.
pub open spec fn spec_question_bytes(name: Seq<u8>, qtype: u16, qclass: u16) -> Seq<u8> {
    spec_encode_name(name) + be_bytes_of_u16(qtype) + be_bytes_of_u16(qclass)
}

/// The single answer record of a successful response: its name is the
/// two-byte compression pointer to offset 12 (where the question's name
/// always stands), then type A, class IN, the TTL, the data length and
/// the four address bytes.
pub open spec fn spec_answer_bytes(addr: Seq<u8>) -> Seq<u8> {
    seq![192u8, 12u8] + be_bytes_of_u16(QTYPE_A) + be_bytes_of_u16(QCLASS_IN) + be_bytes_of_u32(
        ANSWER_TTL,
    ) + be_bytes_of_u16(ANSWER_RDLENGTH) + addr
}

/// The whole NXDOMAIN response: the name-error header with the query's
/// id, one question, no answers, and the echoed question.
pub open spec fn spec_nxdomain_response(id: u16, name: Seq<u8>, qtype: u16, qclass: u16) -> Seq<
    u8,
> {
    spec_header_bytes(
        DnsHeader {
            id,
            flags: FLAGS_RESPONSE_NXDOMAIN,
            question_count: 1,
            answer_count: 0,
            authority_count: 0,
            additional_count: 0,
        },
    ) + spec_question_bytes(name, qtype, qclass)
}

/// The whole successful response: the no-error header with the query's
/// id, one question, one answer, the echoed question and the answer.
pub open spec fn spec_success_response(
    id: u16,
    name: Seq<u8>,
    qtype: u16,
    qclass: u16,
    addr: Seq<u8>,
) -> Seq<u8> {
    spec_header_bytes(
        DnsHeader {
            id,
            flags: FLAGS_RESPONSE_NOERROR,
            question_count: 1,
            answer_count: 1,
            authority_count: 0,
            additional_count: 0,
        },
    ) + spec_question_bytes(name, qtype, qclass) + spec_answer_bytes(addr)
}

/// Handles one query buffer end to end: parse the header and the single
/// question at offset 12, drop what cannot be parsed as malformed, drop
/// structurally valid queries of any type but A, and otherwise answer
/// from the table — the address found, or NXDOMAIN.
pub fn build_response(query_buffer: &[u8], records: &RecordTable) -> (r: BuildOutcome)
    ensures
        ({
            let q = spec_parse_question(query_buffer@, 12);
            match q {
                None => r matches BuildOutcome::Dropped(DropReason::Malformed),
                Some(qq) => {
                    let id = spec_parse_header(query_buffer@).id;
                    if qq.1 != QTYPE_A {
                        r matches BuildOutcome::Dropped(DropReason::UnsupportedType)
                    } else {
                        match spec_lookup(records.entries@, qq.0) {
                            None => r matches BuildOutcome::NotFound(b) && b@
                                == spec_nxdomain_response(id, qq.0, qq.1, qq.2),
                            Some(addr) => r matches BuildOutcome::Success(b) && b@
                                == spec_success_response(id, qq.0, qq.1, qq.2, addr),
                        }
                    }
                },
            }
        }),
{
    let header = match DnsHeader::parse(query_buffer) {
        Some(h) => h,
        None => {
            return BuildOutcome::Dropped(DropReason::Malformed);
        },
    };
    let mut offset: usize = 12;
    let question = match parse_question(query_buffer, &mut offset) {
        Some(q) => q,
        None => {
            return BuildOutcome::Dropped(DropReason::Malformed);
        },
    };
    if question.qtype != QTYPE_A {
        return BuildOutcome::Dropped(DropReason::UnsupportedType);
    }
    match records.lookup(question.name.as_slice()) {
        None => {
            let response_header = DnsHeader {
                id: header.id,
                flags: FLAGS_RESPONSE_NXDOMAIN,
                question_count: 1,
                answer_count: 0,
                authority_count: 0,
                additional_count: 0,
            };
            let mut response = response_header.to_bytes();
            let mut name_bytes = encode_domain_name(question.name.as_slice());
            response.append(&mut name_bytes);
            push_u16_be(&mut response, question.qtype);
            push_u16_be(&mut response, question.qclass);
            proof {
                assert(response@ =~= spec_nxdomain_response(
                    header.id,
                    question.name@,
                    question.qtype,
                    question.qclass,
                ));
            }
            BuildOutcome::NotFound(response)
        },
        Some(addr) => {
            let response_header = DnsHeader {
                id: header.id,
                flags: FLAGS_RESPONSE_NOERROR,
                question_count: 1,
                answer_count: 1,
                authority_count: 0,
                additional_count: 0,
            };
            let mut response = response_header.to_bytes();
            let mut name_bytes = encode_domain_name(question.name.as_slice());
            response.append(&mut name_bytes);
            push_u16_be(&mut response, question.qtype);
            push_u16_be(&mut response, question.qclass);
            // the answer's name: a compression pointer to the question at
            // offset 12
            response.push(192);
            response.push(12);
            push_u16_be(&mut response, QTYPE_A);
            push_u16_be(&mut response, QCLASS_IN);
            push_u32_be(&mut response, ANSWER_TTL);
            push_u16_be(&mut response, ANSWER_RDLENGTH);
            response.push(addr[0]);
            response.push(addr[1]);
            response.push(addr[2]);
            response.push(addr[3]);
            proof {
                assert(response@ =~= spec_success_response(
                    header.id,
                    question.name@,
                    question.qtype,
                    question.qclass,
                    addr@,
                ));
            }
            BuildOutcome::Success(response)
        },
    }
}

/// The same handling with the drop reason erased: a buffer when a
/// response is owed (success or NXDOMAIN), nothing when the query is
/// dropped.
pub fn create_response(query_buffer: &[u8], _query_len: usize, records: &RecordTable) -> (r:
    Option<Vec<u8>>)
    ensures
        ({
            let q = spec_parse_question(query_buffer@, 12);
            match q {
                None => r is None,
                Some(qq) => {
                    let id = spec_parse_header(query_buffer@).id;
                    if qq.1 != QTYPE_A {
                        r is None
                    } else {
                        match spec_lookup(records.entries@, qq.0) {
                            None => r matches Some(b) && b@ == spec_nxdomain_response(
                                id,
                                qq.0,
                                qq.1,
                                qq.2,
                            ),
                            Some(addr) => r matches Some(b) && b@ == spec_success_response(
                                id,
                                qq.0,
                                qq.1,
                                qq.2,
                                addr,
                            ),
                        }
                    }
                },
            }
        }),
{
    match build_response(query_buffer, records) {
        BuildOutcome::Success(b) => Some(b),
        BuildOutcome::NotFound(b) => Some(b),
        BuildOutcome::Dropped(_) => None,
    }
}

} // verus!
