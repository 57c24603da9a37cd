//! The domain-name codec: length-prefixed labels on the wire, dot-joined
//! byte strings in memory, compression-pointer decoding with a hop bound.
//!
//! A name is kept as the raw bytes of its labels joined by `.` (byte 46);
//! label bytes are never re-interpreted as text, so every ASCII name is
//! handled exactly and a label with arbitrary bytes is carried through
//! unchanged.

use vstd::prelude::*;

verus! {

/// The dot byte that separates labels in a decoded name.
pub const LABEL_SEPARATOR: u8 = 46;

/// How many compression pointers one name may follow before the buffer is
/// rejected as malformed; bounds the work done on a pointer cycle.
pub const MAX_POINTER_HOPS: u8 = 16;

/// A name split at every separator byte, in order; always at least one
/// (possibly empty) piece.
pub open spec fn spec_split(name: Seq<u8>) -> Seq<Seq<u8>>
    decreases name.len(),
{
    if name.len() == 0 {
        seq![Seq::<u8>::empty()]
    } else if name[0] == LABEL_SEPARATOR {
        seq![Seq::<u8>::empty()] + spec_split(name.subrange(1, name.len() as int))
    } else {
        let rest = spec_split(name.subrange(1, name.len() as int));
        seq![seq![name[0]] + rest[0]] + rest.subrange(1, rest.len() as int)
    }
}

/// The pieces joined back with one separator between each pair.
pub open spec fn spec_join(parts: Seq<Seq<u8>>) -> Seq<u8>
    decreases parts.len(),
{
    if parts.len() == 0 {
        Seq::<u8>::empty()
    } else if parts.len() == 1 {
        parts[0]
    } else {
        parts[0] + seq![LABEL_SEPARATOR] + spec_join(parts.subrange(1, parts.len() as int))
    }
}

/// Splitting always yields at least one piece.
pub proof fn lemma_split_len(name: Seq<u8>)
    ensures
        spec_split(name).len() >= 1,
    decreases name.len(),
{
    if name.len() > 0 {
        lemma_split_len(name.subrange(1, name.len() as int));
    }
}

/// Joining the split of a name gives the name back, for every byte string.
pub proof fn lemma_join_split(name: Seq<u8>)
    ensures
        spec_join(spec_split(name)) == name,
    decreases name.len(),
{
    if name.len() == 0 {
    } else {
        let tail = name.subrange(1, name.len() as int);
        lemma_join_split(tail);
        lemma_split_len(tail);
        let rest = spec_split(tail);
        if name[0] == LABEL_SEPARATOR {
            let parts = seq![Seq::<u8>::empty()] + rest;
            assert(parts.len() >= 2);
            assert(parts.subrange(1, parts.len() as int) =~= rest);
            assert(spec_join(parts) =~= name);
        } else {
            let parts = seq![seq![name[0]] + rest[0]] + rest.subrange(1, rest.len() as int);
            if rest.len() == 1 {
                assert(parts.len() == 1);
                assert(spec_join(rest) == rest[0]);
                assert(spec_join(parts) =~= name);
            } else {
                assert(parts.len() >= 2);
                assert(parts.subrange(1, parts.len() as int) =~= rest.subrange(1, rest.len() as int));
                assert(spec_join(rest) == rest[0] + seq![LABEL_SEPARATOR] + spec_join(
                    rest.subrange(1, rest.len() as int),
                ));
                assert(spec_join(parts) == parts[0] + seq![LABEL_SEPARATOR] + spec_join(
                    parts.subrange(1, parts.len() as int),
                ));
                assert(parts[0] == seq![name[0]] + rest[0]);
                assert(name =~= seq![name[0]] + tail);
                assert(spec_join(parts) =~= name);
            }
        }
    }
}

/// The wire encoding of a piece sequence: each non-empty piece as a length
/// byte (truncated to 8 bits, as a length field must be) followed by its
/// bytes, closed by the zero terminator; empty pieces collapse silently.
pub open spec fn spec_encode_parts(parts: Seq<Seq<u8>>) -> Seq<u8>
    decreases parts.len(),
{
    if parts.len() == 0 {
        seq![0u8]
    } else if parts[0].len() == 0 {
        spec_encode_parts(parts.subrange(1, parts.len() as int))
    } else {
        seq![parts[0].len() as u8] + parts[0] + spec_encode_parts(
            parts.subrange(1, parts.len() as int),
        )
    }
}

/// The literal (pointer-free) wire encoding of a dot-joined name.
pub open spec fn spec_encode_name(name: Seq<u8>) -> Seq<u8> {
    spec_encode_parts(spec_split(name))
}

/// The split of a name whose first separator (or end) stands at `e`:
/// the head piece `name[0..e]`, then the split of what follows it.
pub proof fn lemma_split_at_first_separator(name: Seq<u8>, e: int)
    requires
        0 <= e <= name.len(),
        forall|i: int| 0 <= i < e ==> name[i] != LABEL_SEPARATOR,
        e == name.len() || name[e] == LABEL_SEPARATOR,
    ensures
        e == name.len() ==> spec_split(name) == seq![name],
        e < name.len() ==> spec_split(name) == seq![name.subrange(0, e)] + spec_split(
            name.subrange(e + 1, name.len() as int),
        ),
    decreases e,
{
    if e == 0 {
        if name.len() == 0 {
            assert(name =~= Seq::<u8>::empty());
            assert(spec_split(name) == seq![name]);
        } else {
            assert(name[0] == LABEL_SEPARATOR);
            assert(name.subrange(0, 0) =~= Seq::<u8>::empty());
            assert(spec_split(name) =~= seq![name.subrange(0, 0)] + spec_split(
                name.subrange(1, name.len() as int),
            ));
        }
    } else {
        let tail = name.subrange(1, name.len() as int);
        lemma_split_at_first_separator(tail, e - 1);
        lemma_split_len(tail);
        let rest = spec_split(tail);
        assert(name[0] != LABEL_SEPARATOR);
        if e == name.len() {
            assert(e - 1 == tail.len());
            assert(rest == seq![tail]);
            assert(spec_split(name) == seq![seq![name[0]] + rest[0]] + rest.subrange(
                1,
                rest.len() as int,
            ));
            assert(seq![name[0]] + rest[0] =~= name);
            assert(rest.subrange(1, rest.len() as int) =~= Seq::<Seq<u8>>::empty());
            assert(seq![seq![name[0]] + rest[0]] + rest.subrange(1, rest.len() as int) =~= seq![
                name,
            ]);
            assert(spec_split(name) == seq![name]);
        } else {
            let after = name.subrange(e + 1, name.len() as int);
            assert(tail[e - 1] == LABEL_SEPARATOR);
            assert(tail.subrange(e - 1 + 1, tail.len() as int) =~= after);
            assert(rest == seq![tail.subrange(0, e - 1)] + spec_split(after));
            lemma_split_len(after);
            assert(rest[0] == tail.subrange(0, e - 1));
            assert(seq![name[0]] + rest[0] =~= name.subrange(0, e));
            assert(rest.subrange(1, rest.len() as int) =~= spec_split(after));
            assert(spec_split(name) =~= seq![name.subrange(0, e)] + spec_split(after));
        }
    }
}

/// Decoding a wire name at `pos` with `hops` pointer follows left: the
/// labels in encounter order and the cursor position just past the name's
/// first pointer (or past its zero terminator when it has none).
///
/// A length byte of zero ends the name; a byte with both top bits set,
/// together with the next byte, is a 14-bit back-pointer whose target is
/// decoded in its place (the pointer is the last element of the name);
/// any other byte is a literal label length. Running past the buffer end,
/// a pointer target outside the buffer, or more than `hops` pointer
/// follows (a pointer cycle at the latest) decode to nothing.
pub open spec fn spec_decode_parts(buf: Seq<u8>, pos: int, hops: nat) -> Option<(Seq<Seq<u8>>, int)>
    decreases hops, buf.len() - pos,
{
    if pos < 0 || pos >= buf.len() {
        None
    } else {
        let l = buf[pos];
        if l == 0 {
            Some((Seq::<Seq<u8>>::empty(), pos + 1))
        } else if l >= 192 {
            if pos + 1 >= buf.len() {
                None
            } else if hops == 0 {
                None
            } else {
                let target = (l - 192) * 256 + buf[pos + 1];
                if target >= buf.len() {
                    None
                } else {
                    match spec_decode_parts(buf, target as int, (hops - 1) as nat) {
                        Some(pe) => Some((pe.0, pos + 2)),
                        None => None,
                    }
                }
            }
        } else if pos + 1 + l > buf.len() {
            None
        } else {
            match spec_decode_parts(buf, pos + 1 + l, hops) {
                Some(pe) => Some((seq![buf.subrange(pos + 1, pos + 1 + l)] + pe.0, pe.1)),
                None => None,
            }
        }
    }
}

/// Decoding at `pos` with the full pointer-hop budget.
pub open spec fn spec_decode(buf: Seq<u8>, pos: int) -> Option<(Seq<Seq<u8>>, int)> {
    spec_decode_parts(buf, pos, MAX_POINTER_HOPS as nat)
}

/// The dot-joined name that a successful decode at `pos` yields.
pub open spec fn spec_decoded_name(buf: Seq<u8>, pos: int) -> Seq<u8>
    recommends
        spec_decode(buf, pos) is Some,
{
    spec_join(spec_decode(buf, pos)->Some_0.0)
}

/// Joining after appending one piece: the piece lands at the end, behind
/// one separator unless nothing stood before it.
pub proof fn lemma_join_push(parts: Seq<Seq<u8>>, piece: Seq<u8>)
    ensures
        parts.len() == 0 ==> spec_join(parts.push(piece)) == piece,
        parts.len() > 0 ==> spec_join(parts.push(piece)) == spec_join(parts) + seq![
            LABEL_SEPARATOR,
        ] + piece,
    decreases parts.len(),
{
    if parts.len() == 0 {
        assert(parts.push(piece) =~= seq![piece]);
        assert(spec_join(seq![piece]) == piece);
    } else if parts.len() == 1 {
        let p = parts.push(piece);
        assert(p.len() == 2);
        assert(p.subrange(1, 2) =~= seq![piece]);
        assert(spec_join(p) == p[0] + seq![LABEL_SEPARATOR] + spec_join(p.subrange(1, 2)));
        assert(spec_join(parts) == parts[0]);
        assert(p[0] == parts[0]);
    } else {
        let sub = parts.subrange(1, parts.len() as int);
        lemma_join_push(sub, piece);
        let p = parts.push(piece);
        assert(p.subrange(1, p.len() as int) =~= sub.push(piece));
        assert(spec_join(p) == p[0] + seq![LABEL_SEPARATOR] + spec_join(sub.push(piece)));
        assert(spec_join(parts) == parts[0] + seq![LABEL_SEPARATOR] + spec_join(sub));
        assert(spec_join(parts) + seq![LABEL_SEPARATOR] + piece =~= parts[0] + seq![
            LABEL_SEPARATOR,
        ] + (spec_join(sub) + seq![LABEL_SEPARATOR] + piece));
        assert(spec_join(p) =~= spec_join(parts) + seq![LABEL_SEPARATOR] + piece);
    }
}

/// Decodes the domain name that starts at `*offset`, joining its labels
/// with dots. A compression pointer is followed in place, at most
/// `MAX_POINTER_HOPS` times, so a pointer cycle is rejected as malformed
/// instead of looping; a failed decode of a pointer target fails the whole
/// name. On success the cursor moves just past the name's first pointer
/// (or past its zero terminator when it has none); on failure it stays put.
#[verifier::loop_isolation(false)]
pub fn parse_domain_name(buffer: &[u8], offset: &mut usize) -> (r: Option<Vec<u8>>)
    ensures
        match spec_decode(buffer@, *old(offset) as int) {
            Some(pe) => {
                &&& r is Some
                &&& r->0@ == spec_join(pe.0)
                &&& *final(offset) == pe.1
            },
            None => r is None && *final(offset) == *old(offset),
        },
{
    let ghost start = *offset as int;
    let mut pos: usize = *offset;
    let mut hops: u8 = 0;
    let mut name: Vec<u8> = Vec::new();
    let mut ret: Option<usize> = None;
    let mut first: bool = true;
    let ghost mut gparts: Seq<Seq<u8>> = Seq::<Seq<u8>>::empty();
    proof {
        if let Some(pe) = spec_decode(buffer@, start) {
            assert(gparts + pe.0 =~= pe.0);
        }
    }
    loop
        invariant
            hops <= MAX_POINTER_HOPS,
            *offset == *old(offset),
            name@ == spec_join(gparts),
            first <==> gparts.len() == 0,
            match spec_decode_parts(buffer@, pos as int, (MAX_POINTER_HOPS - hops) as nat) {
                None => spec_decode(buffer@, start) is None,
                Some(pe) => spec_decode(buffer@, start) == Some(
                    (
                        gparts + pe.0,
                        match ret {
                            Some(ro) => ro as int,
                            None => pe.1,
                        },
                    ),
                ),
            },
        decreases MAX_POINTER_HOPS - hops, buffer@.len() - pos,
    {
        if pos >= buffer.len() {
            return None;
        }
        let l = buffer[pos];
        if l == 0 {
            proof {
                let cur = spec_decode_parts(
                    buffer@,
                    pos as int,
                    (MAX_POINTER_HOPS - hops) as nat,
                );
                assert(cur == Some((Seq::<Seq<u8>>::empty(), pos + 1 as int)));
                assert(gparts + Seq::<Seq<u8>>::empty() =~= gparts);
            }
            match ret {
                Some(ro) => {
                    *offset = ro;
                },
                None => {
                    *offset = pos + 1;
                },
            }
            return Some(name);
        }
        if l >= 192 {
            if pos + 1 >= buffer.len() {
                return None;
            }
            if hops >= MAX_POINTER_HOPS {
                return None;
            }
            let target: usize = ((l - 192) as usize) * 256 + (buffer[pos + 1] as usize);
            if target >= buffer.len() {
                return None;
            }
            if ret.is_none() {
                ret = Some(pos + 2);
            }
            pos = target;
            hops = hops + 1;
        } else {
            let llen = l as usize;
            if llen > buffer.len() - (pos + 1) {
                return None;
            }
            let ghost piece = buffer@.subrange(pos + 1, pos + 1 + llen as int);
            if first {
                proof {
                    lemma_join_push(gparts, piece);
                }
                crate::wire::push_range(&mut name, buffer, pos + 1, pos + 1 + llen);
                proof {
                    assert(name@ =~= piece);
                }
            } else {
                name.push(LABEL_SEPARATOR);
                proof {
                    lemma_join_push(gparts, piece);
                }
                crate::wire::push_range(&mut name, buffer, pos + 1, pos + 1 + llen);
                proof {
                    assert(name@ =~= spec_join(gparts) + seq![LABEL_SEPARATOR] + piece);
                }
            }
            proof {
                let rem = (MAX_POINTER_HOPS - hops) as nat;
                if let Some(q) = spec_decode_parts(buffer@, pos + 1 + llen as int, rem) {
                    assert(spec_decode_parts(buffer@, pos as int, rem) == Some(
                        ((seq![piece] + q.0), q.1),
                    ));
                    assert(gparts + (seq![piece] + q.0) =~= gparts.push(piece) + q.0);
                }
                gparts = gparts.push(piece);
            }
            first = false;
            pos = pos + 1 + llen;
        }
    }
}

/// Encodes a dot-joined name literally: one length byte and the raw bytes
/// for every non-empty dot-separated segment, then the zero terminator.
/// Empty segments (leading, trailing or doubled dots) are dropped, so no
/// zero-length label is ever emitted; no compression pointer is written.
pub fn encode_domain_name(name: &[u8]) -> (r: Vec<u8>)
    ensures
        r@ == spec_encode_name(name@),
{
    let mut out: Vec<u8> = Vec::new();
    let mut pos: usize = 0;
    proof {
        assert(name@.subrange(0, name@.len() as int) =~= name@);
    }
    loop
        invariant_except_break
            spec_encode_name(name@) == out@ + spec_encode_parts(
                spec_split(name@.subrange(pos as int, name@.len() as int)),
            ),
        invariant
            pos <= name@.len(),
        ensures
            out@ == spec_encode_name(name@),
        decreases name@.len() - pos,
    {
        let ghost remaining = name@.subrange(pos as int, name@.len() as int);
        // find the end of the current segment
        let mut end: usize = pos;
        while end < name.len() && name[end] != LABEL_SEPARATOR
            invariant
                pos <= end <= name@.len(),
                forall|i: int| pos <= i < end ==> name@[i] != LABEL_SEPARATOR,
            decreases name@.len() - end,
        {
            end = end + 1;
        }
        proof {
            let e = end - pos;
            assert(forall|i: int| 0 <= i < e ==> remaining[i] != LABEL_SEPARATOR);
            assert(e == remaining.len() || remaining[e] == LABEL_SEPARATOR);
            lemma_split_at_first_separator(remaining, e);
        }
        let ghost seg = remaining.subrange(0, end - pos);
        if end > pos {
            let len_byte: u8 = #[verifier::truncate] ((end - pos) as u8);
            proof {
                assert(seg.len() as u8 == len_byte);
            }
            out.push(len_byte);
            crate::wire::push_range(&mut out, name, pos, end);
            proof {
                assert(name@.subrange(pos as int, end as int) =~= seg);
            }
        }
        if end == name.len() {
            proof {
                assert(spec_split(remaining) == seq![remaining]);
                assert(seg =~= remaining);
                let parts = seq![seg];
                assert(parts.subrange(1, 1) =~= Seq::<Seq<u8>>::empty());
                assert(spec_encode_parts(Seq::<Seq<u8>>::empty()) == seq![0u8]);
                if seg.len() == 0 {
                    assert(spec_encode_parts(parts) == seq![0u8]);
                } else {
                    assert(spec_encode_parts(parts) == seq![seg.len() as u8] + seg
                        + spec_encode_parts(Seq::<Seq<u8>>::empty()));
                    assert(spec_encode_parts(parts) =~= seq![seg.len() as u8] + seg + seq![0u8]);
                }
            }
            out.push(0);
            proof {
                assert(out@ =~= spec_encode_name(name@));
            }
            break;
        }
        proof {
            let after = remaining.subrange(end - pos + 1, remaining.len() as int);
            assert(after =~= name@.subrange(end + 1, name@.len() as int));
            assert(spec_split(remaining) == seq![seg] + spec_split(after));
            let parts = seq![seg] + spec_split(after);
            assert(parts.subrange(1, parts.len() as int) =~= spec_split(after));
            if seg.len() == 0 {
                assert(spec_encode_parts(parts) == spec_encode_parts(spec_split(after)));
            } else {
                assert(spec_encode_parts(parts) =~= seq![seg.len() as u8] + seg
                    + spec_encode_parts(spec_split(after)));
            }
            assert(spec_encode_name(name@) == out@ + spec_encode_parts(spec_split(after)));
        }
        pos = end + 1;
    }
    out
}

/// Decoding a pointer-free encoding recovers exactly the pieces that were
/// encoded, whatever hop budget is at hand and whatever follows the
/// terminator in the buffer.
pub proof fn lemma_decode_encoded(buf: Seq<u8>, pos: int, parts: Seq<Seq<u8>>, hops: nat)
    requires
        0 <= pos,
        pos + spec_encode_parts(parts).len() <= buf.len(),
        buf.subrange(pos, pos + spec_encode_parts(parts).len()) == spec_encode_parts(parts),
        forall|i: int| 0 <= i < parts.len() ==> 1 <= #[trigger] parts[i].len() <= 191,
    ensures
        spec_decode_parts(buf, pos, hops) == Some(
            (parts, pos + spec_encode_parts(parts).len()),
        ),
    decreases parts.len(),
{
    let e = spec_encode_parts(parts);
    if parts.len() == 0 {
        assert(e == seq![0u8]);
        assert(buf.subrange(pos, pos + 1)[0] == buf[pos]);
        assert(buf[pos] == 0);
        assert(parts =~= Seq::<Seq<u8>>::empty());
    } else {
        let p0 = parts[0];
        let sub = parts.subrange(1, parts.len() as int);
        let e_rest = spec_encode_parts(sub);
        assert(1 <= p0.len() <= 191);
        assert(e == seq![p0.len() as u8] + p0 + e_rest);
        let l = p0.len() as u8;
        assert(l as int == p0.len());
        assert(buf.subrange(pos, pos + e.len() as int)[0] == buf[pos]);
        assert(buf[pos] == l);
        assert(1 <= l < 192);
        assert(pos + 1 + l <= buf.len());
        assert(buf.subrange(pos + 1, pos + 1 + l as int) =~= p0) by {
            assert forall|k: int| 0 <= k < p0.len() implies buf.subrange(
                pos + 1,
                pos + 1 + l as int,
            )[k] == p0[k] by {
                assert(buf.subrange(pos, pos + e.len() as int)[1 + k] == buf[pos + 1 + k]);
                assert(e[1 + k] == p0[k]);
            }
        }
        assert(buf.subrange(pos + 1 + l, pos + 1 + l + e_rest.len() as int) =~= e_rest) by {
            assert forall|k: int| 0 <= k < e_rest.len() implies buf.subrange(
                pos + 1 + l,
                pos + 1 + l + e_rest.len() as int,
            )[k] == e_rest[k] by {
                assert(buf.subrange(pos, pos + e.len() as int)[1 + p0.len() + k] == buf[pos + 1
                    + p0.len() + k]);
                assert(e[1 + p0.len() + k] == e_rest[k]);
            }
        }
        assert(forall|i: int| 0 <= i < sub.len() ==> 1 <= #[trigger] sub[i].len() <= 191) by {
            assert(forall|i: int|
                0 <= i < sub.len() ==> sub[i] == #[trigger] parts[i + 1]);
        }
        lemma_decode_encoded(buf, pos + 1 + l as int, sub, hops);
        assert(seq![buf.subrange(pos + 1, pos + 1 + l as int)] + sub =~= parts);
    }
}

/// A decode that succeeds within some hop budget returns the same labels
/// and cursor under any larger budget.
pub proof fn lemma_decode_hops_monotonic(buf: Seq<u8>, pos: int, h1: nat, h2: nat)
    requires
        h1 <= h2,
        spec_decode_parts(buf, pos, h1) is Some,
    ensures
        spec_decode_parts(buf, pos, h2) == spec_decode_parts(buf, pos, h1),
    decreases h1, buf.len() - pos,
{
    let l = buf[pos];
    if l == 0 {
    } else if l >= 192 {
        let target = (l - 192) * 256 + buf[pos + 1];
        lemma_decode_hops_monotonic(buf, target as int, (h1 - 1) as nat, (h2 - 1) as nat);
    } else {
        lemma_decode_hops_monotonic(buf, pos + 1 + l, h1, h2);
    }
}

/// A name standing solely as a compression pointer decodes to the same
/// dot-joined name as its target, with the cursor moved two bytes, as long
/// as the target itself decodes within one hop less than the full budget.
pub proof fn lemma_pointer_decodes_target(buf: Seq<u8>, p: int, t: int)
    requires
        0 <= p,
        p + 1 < buf.len(),
        buf[p] >= 192,
        (buf[p] - 192) * 256 + buf[p + 1] == t,
        spec_decode_parts(buf, t, (MAX_POINTER_HOPS - 1) as nat) is Some,
    ensures
        spec_decode(buf, p) is Some,
        spec_decode(buf, t) is Some,
        spec_decoded_name(buf, p) == spec_decoded_name(buf, t),
        spec_decode(buf, p)->Some_0.1 == p + 2,
        spec_decode(buf, p)->Some_0.0 == spec_decode(buf, t)->Some_0.0,
{
    let h1 = (MAX_POINTER_HOPS - 1) as nat;
    lemma_decode_hops_monotonic(buf, t, h1, MAX_POINTER_HOPS as nat);
    assert(0 <= t < buf.len());
}

/// A compression pointer that targets its own offset never decodes,
/// whatever hop budget is at hand: the budget runs out instead of the
/// decoder looping.
pub proof fn lemma_self_pointer_is_malformed(buf: Seq<u8>, p: int, hops: nat)
    requires
        0 <= p,
        p + 1 < buf.len(),
        buf[p] >= 192,
        (buf[p] - 192) * 256 + buf[p + 1] == p,
    ensures
        spec_decode_parts(buf, p, hops) is None,
    decreases hops,
{
    if hops > 0 {
        lemma_self_pointer_is_malformed(buf, p, (hops - 1) as nat);
    }
}

/// Round trip: encoding a name of non-empty dot-free labels, each at most
/// 191 bytes long, and decoding the result at its start yields the name
/// itself, with the cursor just past the encoding.
pub proof fn lemma_name_round_trip(name: Seq<u8>)
    requires
        forall|i: int|
            0 <= i < spec_split(name).len() ==> 1 <= #[trigger] spec_split(name)[i].len() <= 191,
    ensures
        spec_decode(spec_encode_name(name), 0) is Some,
        spec_decoded_name(spec_encode_name(name), 0) == name,
        spec_decode(spec_encode_name(name), 0)->Some_0.1 == spec_encode_name(name).len(),
{
    let parts = spec_split(name);
    let e = spec_encode_name(name);
    assert(e.subrange(0, e.len() as int) =~= e);
    lemma_decode_encoded(e, 0, parts, MAX_POINTER_HOPS as nat);
    lemma_join_split(name);
}

} // verus!
