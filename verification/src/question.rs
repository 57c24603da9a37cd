//! The question section: the queried name followed by two big-endian
//! 16-bit fields, the query type and the query class.

use vstd::prelude::*;
use crate::wire::{u16_of_be, u16_from_be};
use crate::domain::{spec_decode, spec_join, parse_domain_name};

verus! {

/// One parsed question: the dot-joined queried name, its type and class.
#[derive(Debug)]
pub struct DnsQuestion {
    pub name: Vec<u8>,
    pub qtype: u16,
    pub qclass: u16,
}

/// The question at `pos`: the decoded name, then four more bytes in
/// bounds; the resulting name, type, class and cursor. Nothing when the
/// name fails to decode or the four bytes run past the buffer.
pub open spec fn spec_parse_question(buf: Seq<u8>, pos: int) -> Option<(Seq<u8>, u16, u16, int)> {
    match spec_decode(buf, pos) {
        None => None,
        Some(pe) => if pe.1 + 4 > buf.len() {
            None
        } else {
            Some(
                (
                    spec_join(pe.0),
                    u16_of_be(buf[pe.1], buf[pe.1 + 1]),
                    u16_of_be(buf[pe.1 + 2], buf[pe.1 + 3]),
                    pe.1 + 4,
                ),
            )
        },
    }
}

/// A buffer shorter than the fixed 12-byte header holds no question at
/// offset 12, so the whole response build rejects it as malformed.
pub proof fn lemma_short_buffer_has_no_question(buf: Seq<u8>)
    requires
        buf.len() < 12,
    ensures
        spec_parse_question(buf, 12) is None,
{
}

/// Parses the question at `*offset`: the domain name, then the type and
/// class. On success the cursor ends just past the class field; when the
/// name decodes but the two fields run past the buffer, the cursor is left
/// where the name ended, as the name decode put it.
pub fn parse_question(buffer: &[u8], offset: &mut usize) -> (r: Option<DnsQuestion>)
    ensures
        match spec_parse_question(buffer@, *old(offset) as int) {
            Some(q) => {
                &&& r is Some
                &&& r->0.name@ == q.0
                &&& r->0.qtype == q.1
                &&& r->0.qclass == q.2
                &&& *final(offset) == q.3
            },
            None => {
                &&& r is None
                &&& match spec_decode(buffer@, *old(offset) as int) {
                    Some(pe) => *final(offset) == pe.1,
                    None => *final(offset) == *old(offset),
                }
            },
        },
{
    let name = match parse_domain_name(buffer, offset) {
        Some(n) => n,
        None => {
            return None;
        },
    };
    if buffer.len() < 4 || *offset > buffer.len() - 4 {
        return None;
    }
    let qtype = u16_from_be(buffer[*offset], buffer[*offset + 1]);
    let qclass = u16_from_be(buffer[*offset + 2], buffer[*offset + 3]);
    *offset = *offset + 4;
    Some(DnsQuestion { name, qtype, qclass })
}

} // verus!
