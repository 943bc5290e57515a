//! The frame extractor and the message envelope.
//!
//! Given a raw byte buffer and the length table, the extractor repeatedly
//! slices out complete messages from the front, in arrival order, and stops
//! for the remainder of the buffer on the first unknown identifier,
//! zero-length message, or message that would run past the end (including a
//! self-declared length field that is itself cut off, or negative). A
//! trailing partial message is never emitted; the caller re-buffers the
//! leftover bytes.

use crate::codec::spec_decode;
use crate::layout::FieldLayout;
use crate::table::{PacketLen, PacketParser};
use crate::value::{msg_conforms, Message};
use vstd::prelude::*;
use vstd::slice::{slice_subrange, slice_to_vec};

verus! {

/// An extracted, undecoded message: identifier, declared length, and the
/// exact raw byte span (identifier included). Immutable after creation.
#[derive(Debug)]
pub struct RawPacket {
    pub packet_id: u16,
    pub length: usize,
    buffer: Vec<u8>,
}

/// Ghost model of an envelope.
#[verifier::ext_equal]
pub struct RawPacketModel {
    pub packet_id: u16,
    pub length: nat,
    pub buffer: Seq<u8>,
}

impl View for RawPacket {
    type V = RawPacketModel;

    closed spec fn view(&self) -> RawPacketModel {
        RawPacketModel {
            packet_id: self.packet_id,
            length: self.length as nat,
            buffer: self.buffer@,
        }
    }
}

impl RawPacket {
    /// The declared length always equals the held byte count.
    pub open spec fn wf(self) -> bool {
        self@.length == self@.buffer.len()
    }

    /// The envelope's raw bytes.
    pub fn bytes(&self) -> (b: &Vec<u8>)
        ensures
            b@ == self@.buffer,
    {
        &self.buffer
    }

    /// Decode-on-demand: runs the layout's decode over this envelope's raw
    /// bytes; yields nothing if the byte count violates the layout's
    /// length-validity rule. Non-destructive: the envelope can be parsed
    /// again, or passed through unchanged.
    pub fn parse(&self, layout: &FieldLayout) -> (r: Option<Message>)
        requires
            layout.wf(),
        ensures
            match r {
                Some(m) => {
                    &&& layout.spec_valid_len(self@.buffer.len() as int)
                    &&& m@ == spec_decode(self@.buffer, *layout)
                    &&& msg_conforms(m@, *layout)
                },
                None => !layout.spec_valid_len(self@.buffer.len() as int),
            },
    {
        layout.decode(self.buffer.as_slice())
    }
}

/// The 16-bit little-endian value of two bytes.
pub open spec fn le_u16(lo: u8, hi: u8) -> u16 {
    (lo + 256 * hi) as u16
}

/// The signed 16-bit little-endian value of two bytes.
pub open spec fn le_i16_val(lo: u8, hi: u8) -> int {
    if hi < 0x80 {
        lo + 256 * hi
    } else {
        lo + 256 * hi - 0x1_0000
    }
}

/// The byte span the message at the front of `b` would occupy under table
/// `t`, or 0 when extraction must stop there: fewer than 2 bytes for an
/// identifier, an unknown identifier, a cut-off or non-positive
/// self-declared length, or a zero-length rule.
pub open spec fn spec_front_len(t: Map<u16, PacketLen>, b: Seq<u8>) -> int {
    if b.len() < 2 {
        0
    } else if !t.contains_key(le_u16(b[0], b[1])) {
        0
    } else {
        let mlen = match t[le_u16(b[0], b[1])] {
            PacketLen::Fixed(n) => n as int,
            PacketLen::Variable => if b.len() < 4 {
                0
            } else {
                le_i16_val(b[2], b[3])
            },
        };
        if mlen <= 0 || b.len() < mlen {
            0
        } else {
            mlen
        }
    }
}

/// The ordered envelopes extracted from `b` under table `t`: the front
/// message, then those of the rest; extraction stops where no complete
/// front message exists, discarding the remaining bytes.
pub open spec fn spec_extract(t: Map<u16, PacketLen>, b: Seq<u8>) -> Seq<RawPacketModel>
    decreases b.len(),
{
    let mlen = spec_front_len(t, b);
    if mlen <= 0 {
        Seq::empty()
    } else {
        seq![
            RawPacketModel {
                packet_id: le_u16(b[0], b[1]),
                length: mlen as nat,
                buffer: b.take(mlen),
            },
        ] + spec_extract(t, b.skip(mlen))
    }
}

/// How many bytes of `b` extraction consumes: the bytes of the extracted
/// envelopes; everything after them is left (and discarded by the caller or
/// re-buffered, depending on why extraction stopped).
pub open spec fn spec_consumed(t: Map<u16, PacketLen>, b: Seq<u8>) -> int
    decreases b.len(),
{
    let mlen = spec_front_len(t, b);
    if mlen <= 0 {
        0
    } else {
        mlen + spec_consumed(t, b.skip(mlen))
    }
}

/// Total byte count of a run of envelopes.
pub open spec fn envelopes_len(ps: Seq<RawPacketModel>) -> int
    decreases ps.len(),
{
    if ps.len() == 0 {
        0
    } else {
        ps[0].length + envelopes_len(ps.drop_first())
    }
}

/// What extraction consumes is exactly the bytes of the envelopes it
/// emits, so a caller re-buffers correctly by dropping the sum of the
/// extracted lengths.
pub proof fn lemma_consumed_is_envelope_bytes(t: Map<u16, PacketLen>, b: Seq<u8>)
    ensures
        spec_consumed(t, b) == envelopes_len(spec_extract(t, b)),
    decreases b.len(),
{
    let mlen = spec_front_len(t, b);
    if mlen > 0 {
        lemma_consumed_is_envelope_bytes(t, b.skip(mlen));
        assert(spec_extract(t, b).drop_first() =~= spec_extract(t, b.skip(mlen)));
    }
}

/// Unknown-identifier law: a buffer beginning with an identifier absent
/// from the length table yields no envelopes at all; the remaining bytes
/// are discarded, since the true message boundary is unknowable.
pub proof fn lemma_unknown_identifier(t: Map<u16, PacketLen>, b: Seq<u8>)
    requires
        b.len() >= 2,
        !t.contains_key(le_u16(b[0], b[1])),
    ensures
        spec_extract(t, b) == Seq::<RawPacketModel>::empty(),
{
}

/// Incremental-framing law. Take a buffer that extraction consumes whole
/// (it holds some number of valid consecutive messages) and cut it at any
/// point `k`. Extracting the prefix yields a first run of envelopes and
/// consumes some `c <= k` bytes; re-buffering the leftover, i.e. continuing
/// from byte `c`, yields exactly the remaining envelopes, and that
/// remainder is again consumed whole. Applied at each chunk boundary in
/// turn, this says that feeding the buffer in arbitrary chunks while
/// re-buffering leftovers yields the same envelopes, in the same order, as
/// extracting the whole buffer at once.
pub proof fn lemma_incremental_extraction(t: Map<u16, PacketLen>, b: Seq<u8>, k: int)
    requires
        0 <= k <= b.len(),
        spec_consumed(t, b) == b.len(),
    ensures
        0 <= spec_consumed(t, b.take(k)) <= k,
        spec_extract(t, b.take(k)) + spec_extract(t, b.skip(spec_consumed(t, b.take(k))))
            == spec_extract(t, b),
        spec_consumed(t, b.skip(spec_consumed(t, b.take(k)))) == b.len() - spec_consumed(
            t,
            b.take(k),
        ),
    decreases b.len(),
{
    let p = b.take(k);
    let m = spec_front_len(t, b);
    let mp = spec_front_len(t, p);
    if mp <= 0 {
        assert(spec_consumed(t, p) == 0);
        assert(spec_extract(t, p) == Seq::<RawPacketModel>::empty());
        assert(b.skip(0) =~= b);
        assert(spec_extract(t, p) + spec_extract(t, b) =~= spec_extract(t, b));
    } else {
        assert(p.len() == k && k >= 2);
        assert(p[0] == b[0] && p[1] == b[1]);
        if t[le_u16(b[0], b[1])] is Variable {
            assert(k >= 4);
            assert(p[2] == b[2] && p[3] == b[3]);
        }
        assert(m == mp);
        let rest = b.skip(m);
        assert(spec_consumed(t, b) == m + spec_consumed(t, rest));
        assert(spec_consumed(t, rest) == rest.len());
        assert(p.skip(m) =~= rest.take(k - m));
        lemma_incremental_extraction(t, rest, k - m);
        let c2 = spec_consumed(t, rest.take(k - m));
        assert(spec_consumed(t, p) == m + c2);
        assert(b.skip(m + c2) =~= rest.skip(c2));
        assert(p.take(m) =~= b.take(m));
        assert(spec_extract(t, p) == seq![
            RawPacketModel { packet_id: le_u16(b[0], b[1]), length: m as nat, buffer: p.take(m) },
        ] + spec_extract(t, rest.take(k - m)));
        assert((seq![
            RawPacketModel { packet_id: le_u16(b[0], b[1]), length: m as nat, buffer: b.take(m) },
        ] + spec_extract(t, rest.take(k - m))) + spec_extract(t, rest.skip(c2)) =~= seq![
            RawPacketModel { packet_id: le_u16(b[0], b[1]), length: m as nat, buffer: b.take(m) },
        ] + (spec_extract(t, rest.take(k - m)) + spec_extract(t, rest.skip(c2))));
    }
}

impl PacketParser {
    /// Slices the buffer into the ordered sequence of complete messages
    /// fully contained in it, leaving any trailing partial message
    /// unconsumed. Never panics and never over-reads, whatever the bytes.
    pub fn extract_packets(&self, buf: &[u8]) -> (r: Vec<RawPacket>)
        ensures
            r@.map_values(|p: RawPacket| p@) == spec_extract(self@, buf@),
            forall|i: int| 0 <= i < r@.len() ==> (#[trigger] r@[i]).wf(),
    {
        let n = buf.len();
        let mut packets: Vec<RawPacket> = Vec::new();
        let mut pos: usize = 0;
        proof {
            assert(buf@.skip(0) =~= buf@);
        }
        while n - pos >= 2
            invariant
                0 <= pos <= n == buf@.len(),
                spec_extract(self@, buf@) == packets@.map_values(|p: RawPacket| p@)
                    + spec_extract(self@, buf@.skip(pos as int)),
                forall|i: int| 0 <= i < packets@.len() ==> (#[trigger] packets@[i]).wf(),
            decreases n - pos,
        {
            let ghost rest = buf@.skip(pos as int);
            let ghost pviews = packets@.map_values(|p: RawPacket| p@);
            proof {
                assert(rest.len() == n - pos);
                assert(rest[0] == buf@[pos as int]);
                assert(rest[1] == buf@[pos + 1]);
            }
            let id: u16 = buf[pos] as u16 + 256 * (buf[pos + 1] as u16);
            proof {
                assert(id == le_u16(rest[0], rest[1]));
            }
            let rule = match self.lookup(id) {
                None => {
                    proof {
                        assert(spec_front_len(self@, rest) == 0);
                        assert(pviews + spec_extract(self@, rest) =~= pviews);
                    }
                    return packets;
                },
                Some(rule) => rule,
            };
            let mlen: usize = match rule {
                PacketLen::Fixed(len) => {
                    if len <= 0 {
                        proof {
                            assert(spec_front_len(self@, rest) <= 0);
                            assert(pviews + spec_extract(self@, rest) =~= pviews);
                        }
                        return packets;
                    }
                    len as usize
                },
                PacketLen::Variable => {
                    if n - pos < 4 {
                        proof {
                            assert(spec_front_len(self@, rest) == 0);
                            assert(pviews + spec_extract(self@, rest) =~= pviews);
                        }
                        return packets;
                    }
                    proof {
                        assert(rest[2] == buf@[pos + 2]);
                        assert(rest[3] == buf@[pos + 3]);
                    }
                    let lo = buf[pos + 2];
                    let hi = buf[pos + 3];
                    if hi >= 0x80 {
                        proof {
                            assert(le_i16_val(rest[2], rest[3]) < 0);
                            assert(spec_front_len(self@, rest) <= 0);
                            assert(pviews + spec_extract(self@, rest) =~= pviews);
                        }
                        return packets;
                    }
                    lo as usize + 256 * (hi as usize)
                },
            };
            if mlen == 0 {
                proof {
                    assert(spec_front_len(self@, rest) <= 0);
                    assert(pviews + spec_extract(self@, rest) =~= pviews);
                }
                return packets;
            }
            if n - pos < mlen {
                proof {
                    assert(rest.len() < mlen);
                    assert(spec_front_len(self@, rest) <= 0);
                    assert(pviews + spec_extract(self@, rest) =~= pviews);
                }
                return packets;
            }
            proof {
                assert(spec_front_len(self@, rest) == mlen);
            }
            let chunk = slice_subrange(buf, pos, pos + mlen);
            let pkt = RawPacket { packet_id: id, length: mlen, buffer: slice_to_vec(chunk) };
            proof {
                assert(pkt@.buffer =~= rest.take(mlen as int));
                assert(pkt@ =~= (RawPacketModel {
                    packet_id: le_u16(rest[0], rest[1]),
                    length: mlen as nat,
                    buffer: rest.take(mlen as int),
                }));
                assert(rest.skip(mlen as int) =~= buf@.skip(pos + mlen));
                assert(packets@.push(pkt).map_values(|p: RawPacket| p@) =~= pviews.push(pkt@));
                assert(pviews.push(pkt@) + spec_extract(self@, buf@.skip(pos + mlen)) =~= pviews
                    + spec_extract(self@, rest));
            }
            packets.push(pkt);
            pos = pos + mlen;
        }
        proof {
            assert(buf@.skip(pos as int).len() < 2);
            let pviews = packets@.map_values(|p: RawPacket| p@);
            assert(pviews + spec_extract(self@, buf@.skip(pos as int)) =~= pviews);
        }
        packets
    }
}

} // verus!
