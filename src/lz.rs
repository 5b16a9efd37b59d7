//! Which LZ10 / LZ11 streams the decompressor can take without failing on a
//! back-reference that reaches before the start of its output.
//!
//! Only lengths matter here: the walk follows the stream's header, flag bytes
//! and tokens, counts how much output each produces, and checks every
//! displacement against the output produced so far.
use vstd::prelude::*;
use crate::le::{read_u32, u32_at};

verus! {

/// A back-reference token at `pos`: how many bytes it copies, how far back it
/// reaches (less one), and how many stream bytes it takes; `None` when the
/// stream ends inside it.
pub open spec fn lz_token(s: Seq<u8>, ver: int, pos: int) -> Option<(int, int, int)> {
    if pos + 2 > s.len() {
        None
    } else {
        let a = s[pos] as int;
        let c = s[pos + 1] as int;
        let n = a / 16;
        if ver == 0 {
            Some((n + 3, (a % 16) * 256 + c, 2))
        } else if n > 1 {
            Some((n + 1, (a % 16) * 256 + c, 2))
        } else if n == 0 {
            if pos + 3 > s.len() {
                None
            } else {
                Some(((a % 16) * 16 + c / 16 + 0x11, (c % 16) * 256 + s[pos + 2] as int, 3))
            }
        } else {
            if pos + 4 > s.len() {
                None
            } else {
                let b1 = s[pos + 2] as int;
                Some(
                    (
                        (a % 16) * 4096 + c * 16 + b1 / 16 + 0x111,
                        (b1 % 16) * 256 + s[pos + 3] as int,
                        4,
                    ),
                )
            }
        }
    }
}

/// Whether decoding from stream position `pos`, with `out` bytes produced,
/// `bits` flag bits left and the remaining flags in the high bits of `flags`,
/// ends without a back-reference before the start of the output. A stream
/// that runs out ends in an error, not a failure.
pub open spec fn lz_walk_ok(
    s: Seq<u8>,
    ver: int,
    len: int,
    pos: int,
    out: int,
    flags: int,
    bits: int,
) -> bool
    decreases s.len() - pos, bits,
    when 0 <= pos <= s.len() && 0 <= bits
{
    if out >= len {
        true
    } else if bits == 0 {
        if pos >= s.len() {
            true
        } else {
            lz_walk_ok(s, ver, len, pos + 1, out, s[pos] as int, 8)
        }
    } else if flags < 128 {
        if pos >= s.len() {
            true
        } else {
            lz_walk_ok(s, ver, len, pos + 1, out + 1, (flags * 2) % 256, bits - 1)
        }
    } else {
        match lz_token(s, ver, pos) {
            None => true,
            Some((n, disp, used)) => disp + 1 <= out && lz_walk_ok(
                s,
                ver,
                len,
                pos + used,
                out + n,
                (flags * 2) % 256,
                bits - 1,
            ),
        }
    }
}

/// Whether the decompressor can take `s` without its output index going
/// below zero. A stream whose header is not an LZ10 or LZ11 header is
/// refused with an error, which is fine.
pub open spec fn lz_safe(s: Seq<u8>) -> bool {
    if s.len() < 4 || (s[0] != 0x10 && s[0] != 0x11) {
        true
    } else {
        let ver: int = if s[0] == 0x10 {
            0
        } else {
            1
        };
        let len0 = u32_at(s, 0) / 256;
        if len0 == 0 && ver == 1 {
            if s.len() < 8 {
                true
            } else {
                lz_walk_ok(s, 1, u32_at(s, 4), 8, 0, 0, 0)
            }
        } else {
            lz_walk_ok(s, ver, len0, 4, 0, 0, 0)
        }
    }
}

fn lz_token_exec(b: &[u8], ver: u64, pos: usize) -> (r: Option<(u64, u64, usize)>)
    requires
        pos <= b@.len(),
        ver == 0 || ver == 1,
    ensures
        match r {
            Some(t) => lz_token(b@, ver as int, pos as int) == Some((t.0 as int, t.1 as int, t.2 as int))
                && 2 <= t.2 <= 4 && t.0 < 0x20000,
            None => lz_token(b@, ver as int, pos as int) is None,
        },
{
    let total = b.len();
    if total - pos < 2 {
        return None;
    }
    let a = b[pos] as u64;
    let c = b[pos + 1] as u64;
    let n = a / 16;
    if ver == 0 {
        Some((n + 3, (a % 16) * 256 + c, 2))
    } else if n > 1 {
        Some((n + 1, (a % 16) * 256 + c, 2))
    } else if n == 0 {
        if total - pos < 3 {
            None
        } else {
            Some(((a % 16) * 16 + c / 16 + 0x11, (c % 16) * 256 + b[pos + 2] as u64, 3))
        }
    } else {
        if total - pos < 4 {
            None
        } else {
            let b1 = b[pos + 2] as u64;
            Some(((a % 16) * 4096 + c * 16 + b1 / 16 + 0x111, (b1 % 16) * 256 + b[pos + 3] as u64, 4))
        }
    }
}

/// Whether the decompressor can take `b` without failing on a
/// back-reference before the start of its output.
pub fn lz_stream_safe(b: &[u8]) -> (r: bool)
    ensures
        r == lz_safe(b@),
{
    let total = b.len();
    if total < 4 || (b[0] != 0x10 && b[0] != 0x11) {
        return true;
    }
    let ver: u64 = if b[0] == 0x10 {
        0
    } else {
        1
    };
    let mut len: u64 = (read_u32(b, 0) / 256) as u64;
    let mut pos: usize = 4;
    if len == 0 && ver == 1 {
        if total < 8 {
            return true;
        }
        len = read_u32(b, 4) as u64;
        pos = 8;
    }
    let mut out: u64 = 0;
    let mut flags: u64 = 0;
    let mut bits: u64 = 0;
    loop
        invariant
            total == b@.len(),
            pos <= total,
            ver == 0 || ver == 1,
            len < 0x1_0000_0000,
            out < len + 0x20000,
            flags < 256,
            bits <= 8,
            lz_safe(b@) == lz_walk_ok(b@, ver as int, len as int, pos as int, out as int, flags as int, bits as int),
        decreases total - pos, bits,
    {
        if out >= len {
            return true;
        }
        if bits == 0 {
            if pos >= total {
                return true;
            }
            flags = b[pos] as u64;
            bits = 8;
            pos = pos + 1;
        } else if flags < 128 {
            if pos >= total {
                return true;
            }
            pos = pos + 1;
            out = out + 1;
            flags = (flags * 2) % 256;
            bits = bits - 1;
        } else {
            match lz_token_exec(b, ver, pos) {
                None => {
                    return true;
                },
                Some((n, disp, used)) => {
                    if disp + 1 > out {
                        return false;
                    }
                    pos = pos + used;
                    out = out + n;
                    flags = (flags * 2) % 256;
                    bits = bits - 1;
                },
            }
        }
    }
}

} // verus!
