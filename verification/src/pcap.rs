//! The classic capture-file format: a 24-byte global header, then records
//! of (timestamp, captured length, original length, frame bytes). Only the
//! bytes are parsed here; reading the file is the caller's business.

use vstd::prelude::*;

use crate::wire::{be_val, pow256};

verus! {

/// Value of a byte sequence read as a little-endian unsigned integer.
pub open spec fn le_val(s: Seq<u8>) -> nat
    decreases s.len(),
{
    if s.len() == 0 {
        0
    } else {
        (s[0] + 256 * le_val(s.drop_first())) as nat
    }
}

proof fn lemma_le_val_bound(s: Seq<u8>)
    ensures
        le_val(s) < pow256(s.len()),
    decreases s.len(),
{
    if s.len() > 0 {
        lemma_le_val_bound(s.drop_first());
        let t = le_val(s.drop_first());
        assert(s[0] + 256 * t < pow256(s.len())) by (nonlinear_arith)
            requires
                t < pow256((s.len() - 1) as nat),
                s[0] < 256,
                pow256(s.len()) == 256 * pow256((s.len() - 1) as nat),
        ;
    }
}

/// Reads `w` little-endian bytes at `pos`.
pub fn read_le(b: &Vec<u8>, pos: usize, w: usize) -> (r: u64)
    requires
        w <= 8,
        pos + w <= b@.len(),
    ensures
        r == le_val(b@.subrange(pos as int, pos + w)),
        r < pow256(w as nat),
    decreases w,
{
    proof {
        crate::wire::lemma_pow256_values();
        crate::wire::lemma_pow256_mono(w as nat, 8);
        lemma_le_val_bound(b@.subrange(pos as int, pos + w));
    }
    if w == 0 {
        assert(b@.subrange(pos as int, pos as int) =~= Seq::<u8>::empty());
        0
    } else {
        let n = b.len();
        let lo = b[pos];
        let hi = read_le(b, pos + 1, w - 1);
        proof {
            let s = b@.subrange(pos as int, pos + w);
            assert(s.drop_first() =~= b@.subrange(pos + 1, pos + w));
            assert(s[0] == b@[pos as int]);
            crate::wire::lemma_pow256_mono((w - 1) as nat, 7);
            assert(lo + 256 * hi < 0x1_0000_0000_0000_0000) by (nonlinear_arith)
                requires
                    hi < pow256((w - 1) as nat),
                    pow256((w - 1) as nat) <= pow256(7),
                    pow256(7) == 0x100_0000_0000_0000,
                    lo < 256,
            ;
        }
        lo as u64 + 256 * hi
    }
}

/// A field of the capture file, read with the endianness its magic
/// declared.
pub open spec fn field_val(le: bool, s: Seq<u8>) -> nat {
    if le {
        le_val(s)
    } else {
        be_val(s)
    }
}

/// Reads one 32-bit field with the file's endianness.
pub fn read_field(b: &Vec<u8>, pos: usize, le: bool) -> (r: u32)
    requires
        pos + 4 <= b@.len(),
    ensures
        r == field_val(le, b@.subrange(pos as int, pos + 4)),
{
    proof {
        crate::wire::lemma_pow256_values();
        lemma_le_val_bound(b@.subrange(pos as int, pos + 4));
        crate::wire::lemma_be_val_bound(b@.subrange(pos as int, pos + 4));
    }
    if le {
        read_le(b, pos, 4) as u32
    } else {
        crate::wire::read_be(b, pos, 4) as u32
    }
}

/// The records encoded from `pos` on: timestamps folded to microseconds,
/// each frame's captured bytes; reading stops at the first record the
/// remaining bytes cannot hold.
pub open spec fn spec_pcap_records(bytes: Seq<u8>, pos: int, le: bool) -> Seq<(u64, Seq<u8>)>
    decreases bytes.len() - pos,
{
    if pos < 0 || pos + 16 > bytes.len() {
        Seq::empty()
    } else {
        let sec = field_val(le, bytes.subrange(pos, pos + 4));
        let usec = field_val(le, bytes.subrange(pos + 4, pos + 8));
        let incl = field_val(le, bytes.subrange(pos + 8, pos + 12)) as int;
        if pos + 16 + incl > bytes.len() {
            Seq::empty()
        } else {
            seq![
                (
                    ((sec * 1_000_000 + usec) % 0x1_0000_0000_0000_0000) as u64,
                    bytes.subrange(pos + 16, pos + 16 + incl),
                ),
            ] + spec_pcap_records(bytes, pos + 16 + incl, le)
        }
    }
}

/// Parses a whole capture file: the magic fixes the endianness (classic
/// microsecond magics only), the link type comes from the global header,
/// and the records follow. `None` when the magic is foreign or the global
/// header is short.
pub fn parse_pcap(bytes: &Vec<u8>) -> (r: Option<(u32, Vec<(u64, Vec<u8>)>)>)
    ensures
        (match r {
            Some((linktype, recs)) => {
                &&& bytes@.len() >= 24
                &&& (be_val(bytes@.subrange(0, 4)) == 0xA1B2C3D4 || be_val(
                    bytes@.subrange(0, 4),
                ) == 0xD4C3B2A1)
                &&& ({
                    let le = be_val(bytes@.subrange(0, 4)) == 0xD4C3B2A1;
                    linktype == field_val(le, bytes@.subrange(20, 24)) && recs@.map_values(
                        |e: (u64, Vec<u8>)| (e.0, e.1@),
                    ) == spec_pcap_records(bytes@, 24, le)
                })
            },
            None => bytes@.len() < 24 || (be_val(bytes@.subrange(0, 4)) != 0xA1B2C3D4 && be_val(
                bytes@.subrange(0, 4),
            ) != 0xD4C3B2A1),
        }),
{
    let n = bytes.len();
    if n < 24 {
        return None;
    }
    let magic = crate::wire::read_be(bytes, 0, 4);
    let le: bool = if magic == 0xA1B2C3D4 {
        false
    } else if magic == 0xD4C3B2A1 {
        true
    } else {
        return None;
    };
    let linktype = read_field(bytes, 20, le);
    let mut recs: Vec<(u64, Vec<u8>)> = Vec::new();
    let mut pos: usize = 24;
    let ghost mut done: Seq<(u64, Seq<u8>)> = Seq::empty();
    proof {
        assert(recs@.map_values(|e: (u64, Vec<u8>)| (e.0, e.1@)) =~= Seq::<(
            u64,
            Seq<u8>,
        )>::empty());
        assert(Seq::<(u64, Seq<u8>)>::empty() + spec_pcap_records(bytes@, 24, le)
            =~= spec_pcap_records(bytes@, 24, le));
    }
    loop
        invariant_except_break
            24 <= pos <= n,
            n == bytes@.len(),
            spec_pcap_records(bytes@, 24, le) == done + spec_pcap_records(bytes@, pos as int, le),
            recs@.map_values(|e: (u64, Vec<u8>)| (e.0, e.1@)) == done,
        ensures
            recs@.map_values(|e: (u64, Vec<u8>)| (e.0, e.1@)) == spec_pcap_records(
                bytes@,
                24,
                le,
            ),
        decreases n - pos,
    {
        if n - pos < 16 {
            proof {
                assert(spec_pcap_records(bytes@, pos as int, le) =~= Seq::<(
                    u64,
                    Seq<u8>,
                )>::empty());
                assert(done + Seq::<(u64, Seq<u8>)>::empty() =~= done);
            }
            break ;
        }
        let sec = read_field(bytes, pos, le);
        let usec = read_field(bytes, pos + 4, le);
        let incl = read_field(bytes, pos + 8, le) as usize;
        if incl > n - (pos + 16) {
            proof {
                assert(spec_pcap_records(bytes@, pos as int, le) =~= Seq::<(
                    u64,
                    Seq<u8>,
                )>::empty());
                assert(done + Seq::<(u64, Seq<u8>)>::empty() =~= done);
            }
            break ;
        }
        let frame = crate::demux::copy_range(bytes, pos + 16, pos + 16 + incl);
        let ts: u64 = (sec as u64) * 1_000_000 + (usec as u64);
        let ghost old_done = done;
        let ghost old_recs = recs@;
        let ghost old_pos = pos as int;
        let ghost framev = frame@;
        recs.push((ts, frame));
        proof {
            assert(ts as nat == ((sec as nat) * 1_000_000 + (usec as nat))
                % 0x1_0000_0000_0000_0000) by (nonlinear_arith)
                requires
                    sec < 0x1_0000_0000,
                    usec < 0x1_0000_0000,
                    ts == (sec as u64) * 1_000_000 + (usec as u64),
            ;
            done = old_done.push((ts, framev));
            assert(spec_pcap_records(bytes@, old_pos, le) == seq![(ts, framev)]
                + spec_pcap_records(bytes@, old_pos + 16 + incl, le));
            assert(spec_pcap_records(bytes@, 24, le) =~= done + spec_pcap_records(
                bytes@,
                old_pos + 16 + incl,
                le,
            )) by {
                assert(spec_pcap_records(bytes@, 24, le) == old_done + (seq![(ts, framev)]
                    + spec_pcap_records(bytes@, old_pos + 16 + incl, le)));
            }
            let lhs = recs@.map_values(|e: (u64, Vec<u8>)| (e.0, e.1@));
            assert(lhs.len() == done.len()) by {
                assert(old_recs.map_values(|e: (u64, Vec<u8>)| (e.0, e.1@)).len()
                    == old_done.len());
            }
            assert forall|q: int| 0 <= q < lhs.len() implies lhs[q] == done[q] by {
                if q < old_recs.len() {
                    assert(recs@[q] == old_recs[q]);
                    assert(old_recs.map_values(|e: (u64, Vec<u8>)| (e.0, e.1@))[q]
                        == old_done[q]);
                } else {
                    assert(recs@[q] == (ts, frame));
                }
            }
            assert(lhs =~= done);
        }
        pos = pos + 16 + incl;
    }
    Some((linktype, recs))
}

} // verus!
