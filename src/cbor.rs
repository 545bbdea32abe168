//! Low-level decoding of the CBOR encoding used by commit frames.
use vstd::prelude::*;

verus! {

/// Big-endian unsigned value of a byte sequence.
pub open spec fn be_uint(s: Seq<u8>) -> nat
    decreases s.len(),
{
    if s.len() == 0 {
        0
    } else {
        be_uint(s.drop_last()) * 256 + s.last() as nat
    }
}

/// 256 to the power `k`.
pub open spec fn byte_pow(k: nat) -> nat
    decreases k,
{
    if k == 0 {
        1
    } else {
        256 * byte_pow((k - 1) as nat)
    }
}

/// Major type of a CBOR initial byte (its upper three bits).
pub open spec fn major_of(b: u8) -> u8 {
    b / 32
}

/// Additional information of a CBOR initial byte (its lower five bits).
pub open spec fn addl_of(b: u8) -> u8 {
    b % 32
}

/// Number of argument bytes that follow an initial byte with additional information `addl`.
pub open spec fn arg_width(addl: u8) -> nat {
    if addl <= 23 {
        0
    } else if addl == 24 {
        1
    } else if addl == 25 {
        2
    } else if addl == 26 {
        4
    } else {
        8
    }
}

/// The argument of the CBOR head at `i` and the index just past the head, if the head
/// is well formed, complete, and its argument fits in a `usize`.
pub open spec fn spec_head(buf: Seq<u8>, i: int) -> Option<(nat, int)> {
    if i < 0 || i >= buf.len() {
        None
    } else {
        let addl = addl_of(buf[i]);
        let w = arg_width(addl);
        if addl > 27 || i + 1 + w > buf.len() {
            None
        } else if addl <= 23 {
            Some((addl as nat, i + 1))
        } else if be_uint(buf.subrange(i + 1, i + 1 + w)) > usize::MAX {
            None
        } else {
            Some((be_uint(buf.subrange(i + 1, i + 1 + w)), i + 1 + w))
        }
    }
}

proof fn lemma_be_uint_bound(s: Seq<u8>)
    ensures
        be_uint(s) < byte_pow(s.len()),
    decreases s.len(),
{
    if s.len() > 0 {
        lemma_be_uint_bound(s.drop_last());
        let a = be_uint(s.drop_last());
        let p = byte_pow((s.len() - 1) as nat);
        let b = s.last() as nat;
        assert(a * 256 + b < 256 * p) by (nonlinear_arith)
            requires
                a < p,
                b < 256,
        ;
    }
}

/// Reads `n` bytes at `start` as a big-endian unsigned integer.
fn read_be(buf: &[u8], start: usize, n: usize) -> (r: u64)
    requires
        start + n <= buf@.len(),
        n <= 8,
    ensures
        r as nat == be_uint(buf@.subrange(start as int, start + n)),
{
    let len = buf.len();
    let mut val: u64 = 0;
    let mut k: usize = 0;
    while k < n
        invariant
            len == buf@.len(),
            k <= n,
            n <= 8,
            start + n <= buf@.len(),
            val as nat == be_uint(buf@.subrange(start as int, start + k)),
        decreases n - k,
    {
        let b = buf[start + k];
        proof {
            let s = buf@.subrange(start as int, start + k);
            let s2 = buf@.subrange(start as int, start + k + 1);
            assert(s2.drop_last() =~= s);
            lemma_be_uint_bound(s);
            reveal_with_fuel(byte_pow, 9);
            assert(byte_pow(k as nat) <= byte_pow(7)) by {
                assert(k <= 7);
            }
            assert(val as nat * 256 + b as nat <= 0xffff_ffff_ffff_ffff) by (nonlinear_arith)
                requires
                    (val as nat) < byte_pow(k as nat),
                    byte_pow(k as nat) <= 0x100_0000_0000_0000,
                    b < 256,
            ;
        }
        val = val * 256 + b as u64;
        k = k + 1;
    }
    val
}

/// Decodes the CBOR head at `i`: returns its argument (a length, a value or a tag
/// number) and the index just past the head.
pub fn parse_cbor_len(buf: &[u8], i: usize) -> (r: Option<(usize, usize)>)
    ensures
        match r {
            None => spec_head(buf@, i as int) is None,
            Some((len, next)) => spec_head(buf@, i as int) == Some((len as nat, next as int)),
        },
{
    if i >= buf.len() {
        return None;
    }
    let addl = buf[i] % 32;
    let w: usize = if addl <= 23 {
        0
    } else if addl == 24 {
        1
    } else if addl == 25 {
        2
    } else if addl == 26 {
        4
    } else {
        8
    };
    if addl > 27 || w > buf.len() - i - 1 {
        return None;
    }
    if addl <= 23 {
        return Some((addl as usize, i + 1));
    }
    let v = read_be(buf, i + 1, w);
    if v > usize::MAX as u64 {
        return None;
    }
    Some((v as usize, i + 1 + w))
}

/// The payload of the definite-length string of major type `major` at `i`, and the
/// index just past it.
pub open spec fn spec_string(buf: Seq<u8>, i: int, major: u8) -> Option<(Seq<u8>, int)> {
    if i < 0 || i >= buf.len() || major_of(buf[i]) != major {
        None
    } else {
        match spec_head(buf, i) {
            None => None,
            Some((len, next)) => if next + len > buf.len() {
                None
            } else {
                Some((buf.subrange(next, next + len), next + len))
            },
        }
    }
}

/// The argument of the head at `i` when its major type is `major`.
pub open spec fn spec_head_of(buf: Seq<u8>, i: int, major: u8) -> Option<(nat, int)> {
    if i < 0 || i >= buf.len() || major_of(buf[i]) != major {
        None
    } else {
        spec_head(buf, i)
    }
}

fn head_of_major(buf: &[u8], i: usize, major: u8) -> (r: Option<(u64, usize)>)
    ensures
        match r {
            None => spec_head_of(buf@, i as int, major) is None,
            Some((v, next)) => spec_head_of(buf@, i as int, major) == Some((v as nat, next as int)),
        },
{
    if i >= buf.len() || buf[i] / 32 != major {
        return None;
    }
    match parse_cbor_len(buf, i) {
        None => None,
        Some((v, next)) => Some((v as u64, next)),
    }
}

fn string_of_major(buf: &[u8], i: usize, major: u8) -> (r: Option<(&[u8], usize)>)
    ensures
        match r {
            None => spec_string(buf@, i as int, major) is None,
            Some((v, next)) => spec_string(buf@, i as int, major) == Some((v@, next as int)),
        },
{
    if i >= buf.len() || buf[i] / 32 != major {
        return None;
    }
    let (len, header_end) = match parse_cbor_len(buf, i) {
        None => return None,
        Some(p) => p,
    };
    if len > buf.len() - header_end {
        return None;
    }
    let end = header_end + len;
    Some((vstd::slice::slice_subrange(buf, header_end, end), end))
}

/// Decodes an unsigned integer (major type 0) at `i`.
pub fn parse_cbor_uint(buf: &[u8], i: usize) -> (r: Option<(u64, usize)>)
    ensures
        match r {
            None => spec_head_of(buf@, i as int, 0) is None,
            Some((v, next)) => spec_head_of(buf@, i as int, 0) == Some((v as nat, next as int)),
        },
{
    head_of_major(buf, i, 0)
}

/// Decodes a tag number (major type 6) at `i`; the index returned is that of the tagged item.
pub fn parse_cbor_tag(buf: &[u8], i: usize) -> (r: Option<(u64, usize)>)
    ensures
        match r {
            None => spec_head_of(buf@, i as int, 6) is None,
            Some((v, next)) => spec_head_of(buf@, i as int, 6) == Some((v as nat, next as int)),
        },
{
    head_of_major(buf, i, 6)
}

/// Decodes a definite-length byte string (major type 2) at `i`, borrowing its payload.
pub fn parse_cbor_bytes(buf: &[u8], i: usize) -> (r: Option<(&[u8], usize)>)
    ensures
        match r {
            None => spec_string(buf@, i as int, 2) is None,
            Some((v, next)) => spec_string(buf@, i as int, 2) == Some((v@, next as int)),
        },
{
    string_of_major(buf, i, 2)
}

/// Decodes a definite-length text string (major type 3) at `i`, borrowing its bytes.
pub fn parse_cbor_text(buf: &[u8], i: usize) -> (r: Option<(&[u8], usize)>)
    ensures
        match r {
            None => spec_string(buf@, i as int, 3) is None,
            Some((v, next)) => spec_string(buf@, i as int, 3) == Some((v@, next as int)),
        },
{
    string_of_major(buf, i, 3)
}

/// The index just past the complete CBOR item that starts at `i`. Indefinite-length
/// strings, arrays and maps end at their break byte; a tag covers the item it tags;
/// a simple value or float covers its initial byte and its 1, 2, 4 or 8 argument bytes.
/// An item that runs past the end, or uses a reserved head, has no end.
pub open spec fn spec_skip(buf: Seq<u8>, i: int) -> Option<int>
    decreases buf.len() - i, 0int, 0int,
{
    if i < 0 || i >= buf.len() {
        None
    } else {
        let major = major_of(buf[i]);
        let addl = addl_of(buf[i]);
        if addl == 31 {
            if 2 <= major && major <= 5 {
                spec_skip_indef(buf, i + 1)
            } else {
                None
            }
        } else if major == 7 {
            if addl > 27 || i + 1 + arg_width(addl) > buf.len() {
                None
            } else {
                Some(i + 1 + arg_width(addl))
            }
        } else {
            match spec_head(buf, i) {
                None => None,
                Some((len, next)) => if next <= i || next > buf.len() {
                    None
                } else if major <= 1 {
                    Some(next)
                } else if major <= 3 {
                    if next + len <= buf.len() {
                        Some(next + len)
                    } else {
                        None
                    }
                } else if major == 6 {
                    spec_skip(buf, next)
                } else if len > buf.len() {
                    None
                } else if major == 4 {
                    spec_skip_n(buf, next, len)
                } else {
                    spec_skip_n(buf, next, 2 * len)
                },
            }
        }
    }
}

/// The index just past `n` consecutive complete items starting at `idx`.
pub open spec fn spec_skip_n(buf: Seq<u8>, idx: int, n: nat) -> Option<int>
    decreases buf.len() - idx, 1int, n,
{
    if n == 0 {
        Some(idx)
    } else if idx < 0 || idx >= buf.len() {
        None
    } else {
        match spec_skip(buf, idx) {
            None => None,
            Some(j) => if j <= idx || j > buf.len() {
                None
            } else {
                spec_skip_n(buf, j, (n - 1) as nat)
            },
        }
    }
}

/// The index just past the break byte that ends the items starting at `idx`.
pub open spec fn spec_skip_indef(buf: Seq<u8>, idx: int) -> Option<int>
    decreases buf.len() - idx, 1int, 0int,
{
    if idx < 0 || idx >= buf.len() {
        None
    } else if buf[idx] == 0xff {
        Some(idx + 1)
    } else {
        match spec_skip(buf, idx) {
            None => None,
            Some(j) => if j <= idx || j > buf.len() {
                None
            } else {
                spec_skip_indef(buf, j)
            },
        }
    }
}

/// Skips the complete CBOR item at `i` and returns the index just past it.
pub fn skip_cbor_value(buf: &[u8], i: usize) -> (r: Option<usize>)
    ensures
        match r {
            None => spec_skip(buf@, i as int) is None,
            Some(j) => spec_skip(buf@, i as int) == Some(j as int) && i < j <= buf@.len(),
        },
    decreases buf@.len() - i,
{
    let len = buf.len();
    if i >= len {
        return None;
    }
    let head = buf[i];
    let major = head / 32;
    let addl = head % 32;
    if addl == 31 {
        if major < 2 || major > 5 {
            return None;
        }
        let mut idx = i + 1;
        while idx < len && buf[idx] != 0xff
            invariant
                len == buf@.len(),
                i < idx <= len,
                spec_skip(buf@, i as int) == spec_skip_indef(buf@, idx as int),
            decreases len - idx,
        {
            let j = match skip_cbor_value(buf, idx) {
                None => return None,
                Some(j) => j,
            };
            if j <= idx || j > len {
                return None;
            }
            idx = j;
        }
        if idx < len && buf[idx] == 0xff {
            return Some(idx + 1);
        }
        return None;
    }
    if major == 7 {
        let w: usize = if addl <= 23 {
            0
        } else if addl == 24 {
            1
        } else if addl == 25 {
            2
        } else if addl == 26 {
            4
        } else {
            8
        };
        if addl > 27 || w > len - i - 1 {
            return None;
        }
        return Some(i + 1 + w);
    }
    let (count, next) = match parse_cbor_len(buf, i) {
        None => return None,
        Some(p) => p,
    };
    if next <= i || next > len {
        return None;
    }
    if major <= 1 {
        return Some(next);
    }
    if major <= 3 {
        if count > len - next {
            return None;
        }
        return Some(next + count);
    }
    if major == 6 {
        return skip_cbor_value(buf, next);
    }
    if count > len {
        return None;
    }
    let per_item: usize = if major == 4 { 1 } else { 2 };
    let mut idx = next;
    let mut k: usize = 0;
    while k < count
        invariant
            len == buf@.len(),
            i < next <= idx <= len,
            k <= count,
            count <= len,
            per_item == 1 || per_item == 2,
            major == 4 ==> per_item == 1,
            major == 5 ==> per_item == 2,
            spec_skip(buf@, i as int) == spec_skip_n(buf@, idx as int, (per_item * (count - k)) as nat),
        decreases count - k,
    {
        let mut m: usize = 0;
        while m < per_item
            invariant
                len == buf@.len(),
                i < next <= idx <= len,
                k < count,
                m <= per_item,
                per_item == 1 || per_item == 2,
                spec_skip(buf@, i as int) == spec_skip_n(
                    buf@,
                    idx as int,
                    (per_item * (count - k) - m) as nat,
                ),
            decreases per_item - m,
        {
            assert(per_item * (count - k) - m > 0) by (nonlinear_arith)
                requires
                    m < per_item,
                    k < count,
            ;
            if idx >= len {
                return None;
            }
            let j = match skip_cbor_value(buf, idx) {
                None => return None,
                Some(j) => j,
            };
            if j <= idx || j > len {
                return None;
            }
            idx = j;
            m = m + 1;
        }
        assert(per_item * (count - k) - per_item == per_item * (count - (k + 1))) by (nonlinear_arith);
        k = k + 1;
    }
    Some(idx)
}

} // verus!
