//! Little-endian field readers over a byte image held in memory, and
//! a UTF-8 validity check for name bytes.
//!
//! Every read is bounds-checked against the image; a read past the end
//! returns `None`, which the table parsers turn into a truncation error.

use vstd::prelude::*;

verus! {

/// The 16-bit little-endian value stored at byte offset `i`.
pub open spec fn le16(d: Seq<u8>, i: int) -> u16 {
    (d[i] + d[i + 1] * 0x100) as u16
}

/// The 32-bit little-endian value stored at byte offset `i`.
pub open spec fn le32(d: Seq<u8>, i: int) -> u32 {
    (d[i] + d[i + 1] * 0x100 + d[i + 2] * 0x10000 + d[i + 3] * 0x1000000) as u32
}

/// Reads the byte at offset `pos`, if the image is long enough.
pub fn read_u8(data: &Vec<u8>, pos: u64) -> (r: Option<u8>)
    ensures
        r is Some <==> pos + 1 <= data@.len(),
        r is Some ==> r->0 == data@[pos as int],
{
    if pos < data.len() as u64 {
        Some(data[pos as usize])
    } else {
        None
    }
}

/// Reads the 16-bit little-endian value at offset `pos`, if the image
/// is long enough.
pub fn read_u16(data: &Vec<u8>, pos: u64) -> (r: Option<u16>)
    ensures
        r is Some <==> pos + 2 <= data@.len(),
        r is Some ==> r->0 == le16(data@, pos as int),
{
    if pos < data.len() as u64 && data.len() as u64 - pos >= 2 {
        let p = pos as usize;
        let b0 = data[p] as u16;
        let b1 = data[p + 1] as u16;
        Some(b0 + b1 * 0x100)
    } else {
        None
    }
}

/// Reads the 32-bit little-endian value at offset `pos`, if the image
/// is long enough.
pub fn read_u32(data: &Vec<u8>, pos: u64) -> (r: Option<u32>)
    ensures
        r is Some <==> pos + 4 <= data@.len(),
        r is Some ==> r->0 == le32(data@, pos as int),
{
    if pos < data.len() as u64 && data.len() as u64 - pos >= 4 {
        let p = pos as usize;
        let b0 = data[p] as u32;
        let b1 = data[p + 1] as u32;
        let b2 = data[p + 2] as u32;
        let b3 = data[p + 3] as u32;
        Some(b0 + b1 * 0x100 + b2 * 0x10000 + b3 * 0x1000000)
    } else {
        None
    }
}

/// Copies the `len` bytes starting at offset `pos` out of the image,
/// if the image is long enough.
pub fn read_bytes(data: &Vec<u8>, pos: u64, len: u64) -> (r: Option<Vec<u8>>)
    ensures
        r is Some <==> pos + len <= data@.len(),
        r is Some ==> r->0@ == data@.subrange(pos as int, pos as int + len as int),
{
    if pos <= data.len() as u64 && data.len() as u64 - pos >= len {
        let mut out: Vec<u8> = Vec::new();
        let mut i: u64 = 0;
        while i < len
            invariant
                i <= len,
                pos + len <= data@.len(),
                data@.len() <= usize::MAX,
                out@ == data@.subrange(pos as int, pos as int + i as int),
            decreases len - i,
        {
            out.push(data[(pos + i) as usize]);
            proof {
                assert(out@ =~= data@.subrange(pos as int, pos as int + (i + 1) as int));
            }
            i = i + 1;
        }
        Some(out)
    } else {
        None
    }
}

/// True exactly when the two byte strings hold the same bytes.
pub fn bytes_eq(a: &Vec<u8>, b: &Vec<u8>) -> (r: bool)
    ensures
        r <==> a@ == b@,
{
    if a.len() != b.len() {
        proof {
            assert(a@.len() != b@.len());
        }
        return false;
    }
    let mut i: usize = 0;
    while i < a.len()
        invariant
            i <= a@.len(),
            a@.len() == b@.len(),
            forall|j: int| 0 <= j < i ==> a@[j] == b@[j],
        decreases a@.len() - i,
    {
        if a[i] != b[i] {
            return false;
        }
        i = i + 1;
    }
    proof {
        assert(a@ =~= b@);
    }
    true
}

/// True for a UTF-8 continuation byte.
pub open spec fn is_utf8_cont(b: u8) -> bool {
    0x80 <= b <= 0xBF
}

/// True exactly when `s` is a valid UTF-8 encoding: ASCII bytes stand
/// alone, and each multi-byte scalar uses the shortest form with a
/// leading byte of `0xC2..=0xF4`, the ranges of RFC 3629 (surrogates
/// and values past `U+10FFFF` excluded).
pub open spec fn is_utf8(s: Seq<u8>) -> bool
    decreases s.len(),
{
    if s.len() == 0 {
        true
    } else {
        let b0 = s[0];
        if b0 < 0x80 {
            is_utf8(s.skip(1))
        } else if 0xC2 <= b0 <= 0xDF {
            s.len() >= 2 && is_utf8_cont(s[1]) && is_utf8(s.skip(2))
        } else if b0 == 0xE0 {
            s.len() >= 3 && 0xA0 <= s[1] <= 0xBF && is_utf8_cont(s[2]) && is_utf8(s.skip(3))
        } else if 0xE1 <= b0 <= 0xEC || 0xEE <= b0 <= 0xEF {
            s.len() >= 3 && is_utf8_cont(s[1]) && is_utf8_cont(s[2]) && is_utf8(s.skip(3))
        } else if b0 == 0xED {
            s.len() >= 3 && 0x80 <= s[1] <= 0x9F && is_utf8_cont(s[2]) && is_utf8(s.skip(3))
        } else if b0 == 0xF0 {
            s.len() >= 4 && 0x90 <= s[1] <= 0xBF && is_utf8_cont(s[2]) && is_utf8_cont(s[3])
                && is_utf8(s.skip(4))
        } else if 0xF1 <= b0 <= 0xF3 {
            s.len() >= 4 && is_utf8_cont(s[1]) && is_utf8_cont(s[2]) && is_utf8_cont(s[3])
                && is_utf8(s.skip(4))
        } else if b0 == 0xF4 {
            s.len() >= 4 && 0x80 <= s[1] <= 0x8F && is_utf8_cont(s[2]) && is_utf8_cont(s[3])
                && is_utf8(s.skip(4))
        } else {
            false
        }
    }
}

/// Decides [`is_utf8`] for a byte string.
pub fn utf8_check(b: &Vec<u8>) -> (r: bool)
    ensures
        r <==> is_utf8(b@),
{
    let n = b.len();
    let mut i: usize = 0;
    proof {
        assert(b@.skip(0) =~= b@);
    }
    while i < n
        invariant
            i <= n,
            n == b@.len(),
            is_utf8(b@) <==> is_utf8(b@.skip(i as int)),
        decreases n - i,
    {
        let ghost s = b@.skip(i as int);
        proof {
            assert(s.len() == n - i);
            assert forall|k: int| 0 <= k < s.len() implies s[k] == b@[i + k] by {}
        }
        let b0 = b[i];
        if b0 < 0x80 {
            proof {
                assert(s.skip(1) =~= b@.skip(i as int + 1));
            }
            i = i + 1;
        } else if 0xC2 <= b0 && b0 <= 0xDF {
            if n - i < 2 || !(0x80 <= b[i + 1] && b[i + 1] <= 0xBF) {
                return false;
            }
            proof {
                assert(s.skip(2) =~= b@.skip(i as int + 2));
            }
            i = i + 2;
        } else if 0xE0 <= b0 && b0 <= 0xEF {
            if n - i < 3 {
                return false;
            }
            let b1 = b[i + 1];
            let b2 = b[i + 2];
            let b1_ok = if b0 == 0xE0 {
                0xA0 <= b1 && b1 <= 0xBF
            } else if b0 == 0xED {
                0x80 <= b1 && b1 <= 0x9F
            } else {
                0x80 <= b1 && b1 <= 0xBF
            };
            if !(b1_ok && 0x80 <= b2 && b2 <= 0xBF) {
                return false;
            }
            proof {
                assert(s.skip(3) =~= b@.skip(i as int + 3));
            }
            i = i + 3;
        } else if 0xF0 <= b0 && b0 <= 0xF4 {
            if n - i < 4 {
                return false;
            }
            let b1 = b[i + 1];
            let b2 = b[i + 2];
            let b3 = b[i + 3];
            let b1_ok = if b0 == 0xF0 {
                0x90 <= b1 && b1 <= 0xBF
            } else if b0 == 0xF4 {
                0x80 <= b1 && b1 <= 0x8F
            } else {
                0x80 <= b1 && b1 <= 0xBF
            };
            if !(b1_ok && 0x80 <= b2 && b2 <= 0xBF && 0x80 <= b3 && b3 <= 0xBF) {
                return false;
            }
            proof {
                assert(s.skip(4) =~= b@.skip(i as int + 4));
            }
            i = i + 4;
        } else {
            return false;
        }
    }
    proof {
        assert(b@.skip(n as int) =~= Seq::<u8>::empty());
    }
    true
}

} // verus!
