//! The fixed 12-byte DNS message header: six big-endian 16-bit fields at
//! fixed offsets, parsed and serialized without any partial values.

use vstd::prelude::*;
use crate::wire::{u16_of_be, be_bytes_of_u16, u16_from_be, push_u16_be, lemma_u16_be_round_trip};

verus! {

/// A DNS message header: transaction id, flags, and the four section counts.
#[derive(Clone, Copy, Debug, PartialEq, Eq, Structural)]
pub struct DnsHeader {
    pub id: u16,
    pub flags: u16,
    pub question_count: u16,
    pub answer_count: u16,
    pub authority_count: u16,
    pub additional_count: u16,
}

/// The header held by the first 12 bytes of a buffer.
pub open spec fn spec_parse_header(buf: Seq<u8>) -> DnsHeader
    recommends
        buf.len() >= 12,
{
    DnsHeader {
        id: u16_of_be(buf[0], buf[1]),
        flags: u16_of_be(buf[2], buf[3]),
        question_count: u16_of_be(buf[4], buf[5]),
        answer_count: u16_of_be(buf[6], buf[7]),
        authority_count: u16_of_be(buf[8], buf[9]),
        additional_count: u16_of_be(buf[10], buf[11]),
    }
}

/// The exact 12 bytes that serialize a header, fields in wire order.
pub open spec fn spec_header_bytes(h: DnsHeader) -> Seq<u8> {
    be_bytes_of_u16(h.id) + be_bytes_of_u16(h.flags) + be_bytes_of_u16(h.question_count)
        + be_bytes_of_u16(h.answer_count) + be_bytes_of_u16(h.authority_count)
        + be_bytes_of_u16(h.additional_count)
}

impl DnsHeader {
    /// Reads the six fields from the first 12 bytes; a shorter buffer
    /// yields no header at all.
    pub fn parse(buffer: &[u8]) -> (r: Option<DnsHeader>)
        ensures
            buffer@.len() >= 12 ==> r == Some(spec_parse_header(buffer@)),
            buffer@.len() < 12 ==> r is None,
    {
        if buffer.len() < 12 {
            return None;
        }
        Some(
            DnsHeader {
                id: u16_from_be(buffer[0], buffer[1]),
                flags: u16_from_be(buffer[2], buffer[3]),
                question_count: u16_from_be(buffer[4], buffer[5]),
                answer_count: u16_from_be(buffer[6], buffer[7]),
                authority_count: u16_from_be(buffer[8], buffer[9]),
                additional_count: u16_from_be(buffer[10], buffer[11]),
            },
        )
    }

    /// Serializes the header to its 12 wire bytes.
    pub fn to_bytes(&self) -> (r: Vec<u8>)
        ensures
            r@ == spec_header_bytes(*self),
            r@.len() == 12,
    {
        let mut bytes: Vec<u8> = Vec::new();
        push_u16_be(&mut bytes, self.id);
        push_u16_be(&mut bytes, self.flags);
        push_u16_be(&mut bytes, self.question_count);
        push_u16_be(&mut bytes, self.answer_count);
        push_u16_be(&mut bytes, self.authority_count);
        push_u16_be(&mut bytes, self.additional_count);
        assert(bytes@ =~= spec_header_bytes(*self));
        bytes
    }
}

/// Parsing the 12 serialized bytes of any header yields that header back.
pub proof fn lemma_header_round_trip(h: DnsHeader)
    ensures
        spec_parse_header(spec_header_bytes(h)) == h,
{
    let b = spec_header_bytes(h);
    assert(b[0] == (h.id / 256) as u8 && b[1] == (h.id % 256) as u8);
    assert(b[2] == (h.flags / 256) as u8 && b[3] == (h.flags % 256) as u8);
    assert(b[4] == (h.question_count / 256) as u8 && b[5] == (h.question_count % 256) as u8);
    assert(b[6] == (h.answer_count / 256) as u8 && b[7] == (h.answer_count % 256) as u8);
    assert(b[8] == (h.authority_count / 256) as u8 && b[9] == (h.authority_count % 256) as u8);
    assert(b[10] == (h.additional_count / 256) as u8 && b[11] == (h.additional_count % 256) as u8);
    lemma_u16_be_round_trip(h.id);
    lemma_u16_be_round_trip(h.flags);
    lemma_u16_be_round_trip(h.question_count);
    lemma_u16_be_round_trip(h.answer_count);
    lemma_u16_be_round_trip(h.authority_count);
    lemma_u16_be_round_trip(h.additional_count);
}

} // verus!
