//! Base-128 variable-length integer encoding, the primitive every
//! field of a log record is written with.
//!
//! Each byte carries seven low-order value bits; the high bit marks a
//! continuation.  The first byte holds the least significant bits.

use vstd::prelude::*;

verus! {

/// The encoding of `x`: low seven bits first, high bit set on every
/// byte but the last.
pub open spec fn spec_varint(x: u64) -> Seq<u8>
    decreases x,
{
    if x < 0x80 {
        seq![x as u8]
    } else {
        seq![(x % 0x80 + 0x80) as u8] + spec_varint(x / 0x80)
    }
}

/// Parses one varint at `pos`, yielding the value and the position of
/// the first byte after it.  Fails on a truncated sequence and on a
/// value that does not fit in 64 bits.
pub open spec fn spec_parse_varint(b: Seq<u8>, pos: int) -> Option<(u64, int)>
    decreases b.len() - pos,
{
    if pos < 0 || pos >= b.len() {
        None
    } else {
        let byte = b[pos];
        if byte < 0x80 {
            Some((byte as u64, pos + 1))
        } else {
            match spec_parse_varint(b, pos + 1) {
                None => None,
                Some((rest, end)) => {
                    if rest * 0x80 + (byte - 0x80) <= u64::MAX {
                        Some(((rest * 0x80 + (byte - 0x80)) as u64, end))
                    } else {
                        None
                    }
                },
            }
        }
    }
}

/// An encoding is never empty.
pub proof fn lemma_varint_len(x: u64)
    ensures
        1 <= spec_varint(x).len(),
    decreases x,
{
    if x >= 0x80 {
        lemma_varint_len(x / 0x80);
    }
}

/// Wherever the encoding of `x` sits inside a larger sequence, parsing
/// at its start yields `x` and stops right after it.
pub proof fn lemma_parse_varint_encoding(b: Seq<u8>, pos: int, x: u64)
    requires
        0 <= pos,
        pos + spec_varint(x).len() <= b.len(),
        b.subrange(pos, pos + spec_varint(x).len()) == spec_varint(x),
    ensures
        spec_parse_varint(b, pos) == Some((x, pos + spec_varint(x).len())),
    decreases x,
{
    let enc = spec_varint(x);
    lemma_varint_len(x);
    assert(b[pos] == enc[0]);
    if x < 0x80 {
        assert(enc =~= seq![x as u8]);
    } else {
        let tail = spec_varint(x / 0x80);
        lemma_varint_len(x / 0x80);
        assert(b[pos] == (x % 0x80 + 0x80) as u8);
        assert(b[pos] >= 0x80);
        assert(b.subrange(pos + 1, pos + 1 + tail.len() as int) =~= tail) by {
            assert forall|i: int| 0 <= i < tail.len() implies b[pos + 1 + i] == tail[i] by {
                assert(b.subrange(pos, pos + enc.len() as int)[i + 1] == enc[i + 1]);
            }
        }
        lemma_parse_varint_encoding(b, pos + 1, x / 0x80);
        let rest = x / 0x80;
        let low = (x % 0x80 + 0x80) as u8 - 0x80;
        assert(rest * 0x80 + low == x) by {
            assert(x / 0x80 * 0x80 + x % 0x80 == x) by (nonlinear_arith);
        }
    }
}

/// Appends the encoding of `x` to `out`.
pub fn write_varint(out: &mut Vec<u8>, x: u64)
    ensures
        final(out)@ == old(out)@ + spec_varint(x),
    decreases x,
{
    if x < 0x80 {
        out.push(x as u8);
        assert(out@ =~= old(out)@ + spec_varint(x));
    } else {
        out.push((x % 0x80 + 0x80) as u8);
        write_varint(out, x / 0x80);
        assert(out@ =~= old(out)@ + spec_varint(x));
    }
}

/// Reads one varint at `pos`, mirroring [`spec_parse_varint`] exactly.
pub fn read_varint(b: &Vec<u8>, pos: usize) -> (r: Option<(u64, usize)>)
    ensures
        match r {
            Some(p) => {
                &&& spec_parse_varint(b@, pos as int) == Some((p.0, p.1 as int))
                &&& pos < p.1 <= b@.len()
            },
            None => spec_parse_varint(b@, pos as int) is None,
        },
    decreases b.len() - pos,
{
    if pos >= b.len() {
        None
    } else {
        let byte = b[pos];
        if byte < 0x80 {
            Some((byte as u64, pos + 1))
        } else {
            match read_varint(b, pos + 1) {
                None => None,
                Some((rest, end)) => {
                    let low = byte - 0x80;
                    if rest <= (u64::MAX - low as u64) / 0x80 {
                        assert(rest * 0x80 + low <= u64::MAX) by (nonlinear_arith)
                            requires
                                rest <= (u64::MAX - low as u64) / 0x80,
                                low < 0x80,
                        ;
                        Some((rest * 0x80 + low as u64, end))
                    } else {
                        assert(rest * 0x80 + low > u64::MAX) by (nonlinear_arith)
                            requires
                                rest > (u64::MAX - low as u64) / 0x80,
                                low < 0x80,
                        ;
                        None
                    }
                },
            }
        }
    }
}

} // verus!
