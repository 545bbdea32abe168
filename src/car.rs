//! Content-addressed block bags (CAR layout): varints, raw identifiers and block lookup.
use vstd::prelude::*;

verus! {

/// The unsigned LEB128 varint at `off`, continuing from its byte `k` with the bits
/// gathered so far in `acc`: its value and its length in bytes. At most ten bytes
/// are read; bits beyond the 64th are dropped.
pub open spec fn spec_varint_from(buf: Seq<u8>, off: int, k: nat, acc: u64) -> Option<(u64, nat)>
    decreases 10 - k,
{
    if k >= 10 || off < 0 || off + k >= buf.len() {
        None
    } else {
        let b = buf[off + k];
        let v = acc | (((b & 0x7f) as u64) << ((7 * k) as u64));
        if b & 0x80 == 0 {
            Some((v, k + 1))
        } else if k + 1 >= 10 {
            None
        } else {
            spec_varint_from(buf, off, k + 1, v)
        }
    }
}

/// The varint at `off`: its value and its length in bytes.
pub open spec fn spec_varint(buf: Seq<u8>, off: int) -> Option<(u64, nat)> {
    spec_varint_from(buf, off, 0, 0)
}

/// Reads the unsigned varint at `offset`; returns its value and how many bytes it took.
pub fn read_varint(buf: &[u8], offset: usize) -> (r: Option<(u64, usize)>)
    ensures
        match r {
            None => spec_varint(buf@, offset as int) is None,
            Some((v, n)) => spec_varint(buf@, offset as int) == Some((v, n as nat)) && 1 <= n
                <= 10 && offset + n <= buf@.len(),
        },
{
    let len = buf.len();
    let mut value: u64 = 0;
    let mut k: usize = 0;
    while k < 10
        invariant
            len == buf@.len(),
            k < 10,
            spec_varint(buf@, offset as int) == spec_varint_from(buf@, offset as int, k as nat, value),
        decreases 10 - k,
    {
        if offset >= len || k >= len - offset {
            return None;
        }
        let byte = buf[offset + k];
        let shift: u64 = 7 * k as u64;
        value = value | (((byte & 0x7f) as u64) << shift);
        if byte & 0x80 == 0 {
            return Some((value, k + 1));
        }
        if k + 1 >= 10 {
            return None;
        }
        k = k + 1;
    }
    None
}

/// Length in bytes of the raw (version 1) content identifier at the start of `input`:
/// version, codec, hash type and digest length varints, then the digest.
pub open spec fn spec_cid_len(input: Seq<u8>) -> Option<int> {
    match spec_varint(input, 0) {
        None => None,
        Some((ver, n1)) => if ver != 1 {
            None
        } else {
            match spec_varint(input, n1 as int) {
                None => None,
                Some((_c, n2)) => match spec_varint(input, (n1 + n2) as int) {
                    None => None,
                    Some((_h, n3)) => match spec_varint(input, (n1 + n2 + n3) as int) {
                        None => None,
                        Some((mh_len, n4)) => if n1 + n2 + n3 + n4 + mh_len > usize::MAX {
                            None
                        } else {
                            Some(n1 + n2 + n3 + n4 + mh_len)
                        },
                    },
                },
            }
        },
    }
}

/// Length of the raw version 1 content identifier at the start of `input`.
pub fn parse_raw_cid_len(input: &[u8]) -> (r: Option<usize>)
    ensures
        match r {
            None => spec_cid_len(input@) is None,
            Some(n) => spec_cid_len(input@) == Some(n as int),
        },
{
    let (ver, n1) = match read_varint(input, 0) {
        None => return None,
        Some(p) => p,
    };
    if ver != 1 {
        return None;
    }
    let (_codec, n2) = match read_varint(input, n1) {
        None => return None,
        Some(p) => p,
    };
    let (_hash, n3) = match read_varint(input, n1 + n2) {
        None => return None,
        Some(p) => p,
    };
    let offset = n1 + n2 + n3;
    let (mh_len, n4) = match read_varint(input, offset) {
        None => return None,
        Some(p) => p,
    };
    let head = offset + n4;
    if mh_len > (usize::MAX - head) as u64 {
        return None;
    }
    Some(head + mh_len as usize)
}

/// An identifier as written inside a commit, without its leading zero sentinel byte.
pub open spec fn strip_sentinel(t: Seq<u8>) -> Seq<u8> {
    if t.len() > 0 && t[0] == 0 {
        t.subrange(1, t.len() as int)
    } else {
        t
    }
}

/// Scans the blocks from `offset` (each `[varint len][cid][data]`) and returns the
/// bounds of the data of the first block whose identifier equals `target` (any block
/// when there is no target). A block whose identifier cannot be read is passed over;
/// a length running past the end stops the scan.
pub open spec fn spec_find_block(data: Seq<u8>, offset: int, target: Option<Seq<u8>>) -> Option<(int, int)>
    decreases data.len() - offset,
{
    if offset < 0 || offset >= data.len() {
        None
    } else {
        match spec_varint(data, offset) {
            None => None,
            Some((total, v_len)) => {
                let start = offset + v_len;
                let end = start + total;
                if end > data.len() || end <= offset {
                    None
                } else {
                    let block = data.subrange(start, data.len() as int);
                    match spec_cid_len(block) {
                        Some(cid_len) if cid_len <= total => {
                            let cid = data.subrange(start, start + cid_len);
                            let found = match target {
                                None => true,
                                Some(t) => cid == strip_sentinel(t),
                            };
                            if found {
                                Some((start + cid_len, end))
                            } else {
                                spec_find_block(data, end, target)
                            }
                        },
                        _ => spec_find_block(data, end, target),
                    }
                }
            },
        }
    }
}

/// Where the blocks of a bag begin: after the varint-prefixed header.
pub open spec fn spec_blocks_start(data: Seq<u8>) -> Option<int> {
    match spec_varint(data, 0) {
        None => None,
        Some((header_len, v_len)) => Some(v_len + header_len),
    }
}

/// The data of the block of the bag `data` that `target` identifies.
pub open spec fn spec_extract(data: Seq<u8>, target: Option<Seq<u8>>) -> Option<Seq<u8>> {
    match spec_blocks_start(data) {
        None => None,
        Some(start) => match spec_find_block(data, start, target) {
            None => None,
            Some((s, e)) => Some(data.subrange(s, e)),
        },
    }
}

/// The contents of an optional borrowed byte string.
pub open spec fn opt_view(t: Option<&[u8]>) -> Option<Seq<u8>> {
    match t {
        None => None,
        Some(b) => Some(b@),
    }
}

/// An owned copy of a byte string.
pub fn copy_bytes(v: &[u8]) -> (r: Vec<u8>)
    ensures
        r@ == v@,
{
    let mut out: Vec<u8> = Vec::with_capacity(v.len());
    let mut k: usize = 0;
    while k < v.len()
        invariant
            k <= v@.len(),
            out@ == v@.subrange(0, k as int),
        decreases v@.len() - k,
    {
        out.push(v[k]);
        k = k + 1;
    }
    assert(out@ =~= v@);
    out
}

/// Byte-wise equality of two byte strings.
pub fn bytes_eq(a: &[u8], b: &[u8]) -> (r: bool)
    ensures
        r == (a@ == b@),
{
    if a.len() != b.len() {
        return false;
    }
    let mut k: usize = 0;
    while k < a.len()
        invariant
            a@.len() == b@.len(),
            k <= a@.len(),
            forall|j: int| 0 <= j < k ==> a@[j] == b@[j],
        decreases a@.len() - k,
    {
        if a[k] != b[k] {
            return false;
        }
        k = k + 1;
    }
    assert(a@ =~= b@);
    true
}

/// Finds, in a bag of content-addressed blocks, the data of the block that `target`
/// identifies (a leading zero sentinel byte of the target is ignored), or of the first
/// readable block when there is no target.
pub fn extract_from_car<'a>(data: &'a [u8], target_cid: Option<&[u8]>) -> (r: Option<&'a [u8]>)
    ensures
        match r {
            None => spec_extract(data@, opt_view(target_cid)) is None,
            Some(v) => spec_extract(data@, opt_view(target_cid)) == Some(v@),
        },
{
    let len = data.len();
    if len == 0 {
        return None;
    }
    let (header_len, v_len) = match read_varint(data, 0) {
        None => return None,
        Some(p) => p,
    };
    if header_len > (len - v_len) as u64 {
        return None;
    }
    let clean_target: Option<&[u8]> = match target_cid {
        None => None,
        Some(t) => if t.len() > 0 && t[0] == 0 {
            Some(vstd::slice::slice_subrange(t, 1, t.len()))
        } else {
            Some(t)
        },
    };
    let ghost target = opt_view(target_cid);
    let mut offset: usize = v_len + header_len as usize;
    while offset < len
        invariant
            len == data@.len(),
            offset <= len,
            target == opt_view(target_cid),
            spec_extract(data@, target) == match spec_find_block(data@, offset as int, target) {
                None => None,
                Some((s, e)) => Some(data@.subrange(s, e)),
            },
            match target {
                None => clean_target is None,
                Some(t) => clean_target is Some && clean_target.unwrap()@ == strip_sentinel(t),
            },
        decreases len - offset,
    {
        let (total, vl) = match read_varint(data, offset) {
            None => return None,
            Some(p) => p,
        };
        let start = offset + vl;
        if start > len || total > (len - start) as u64 {
            return None;
        }
        let end = start + total as usize;
        if end <= offset {
            return None;
        }
        let block = vstd::slice::slice_subrange(data, start, len);
        match parse_raw_cid_len(block) {
            Some(cid_len) => {
                if cid_len as u64 <= total {
                    let cid = vstd::slice::slice_subrange(data, start, start + cid_len);
                    let found = match clean_target {
                        None => true,
                        Some(t) => bytes_eq(cid, t),
                    };
                    if found {
                        return Some(vstd::slice::slice_subrange(data, start + cid_len, end));
                    }
                }
            },
            None => {},
        }
        offset = end;
    }
    None
}

/// The blocks of a bag from `offset` on, as (identifier, data) pairs in order. A block
/// whose identifier cannot be read, or is longer than the block, is left out; a
/// length running past the end stops the scan.
pub open spec fn car_blocks_from(data: Seq<u8>, offset: int) -> Seq<(Seq<u8>, Seq<u8>)>
    decreases data.len() - offset,
{
    if offset < 0 || offset >= data.len() {
        Seq::empty()
    } else {
        match spec_varint(data, offset) {
            None => Seq::empty(),
            Some((total, v_len)) => {
                let start = offset + v_len;
                let end = start + total;
                if end > data.len() || end <= offset {
                    Seq::empty()
                } else {
                    let rest = car_blocks_from(data, end);
                    match spec_cid_len(data.subrange(start, end)) {
                        Some(cid_len) if cid_len <= total => seq![
                            (data.subrange(start, start + cid_len), data.subrange(start + cid_len, end)),
                        ] + rest,
                        _ => rest,
                    }
                }
            },
        }
    }
}

/// The blocks of a bag.
pub open spec fn car_blocks(data: Seq<u8>) -> Seq<(Seq<u8>, Seq<u8>)> {
    match spec_blocks_start(data) {
        None => Seq::empty(),
        Some(start) => car_blocks_from(data, start),
    }
}

/// The (identifier, data) views of borrowed block pairs.
pub open spec fn pair_views(v: Seq<(&[u8], &[u8])>) -> Seq<(Seq<u8>, Seq<u8>)> {
    v.map_values(|e: (&[u8], &[u8])| (e.0@, e.1@))
}

/// An index of the blocks of a bag, borrowed from the bag's bytes.
pub struct CarStore<'a> {
    pub blocks: Vec<(&'a [u8], &'a [u8])>,
}

impl<'a> CarStore<'a> {
    /// Indexes the blocks of the bag `data`.
    pub fn new(data: &'a [u8]) -> (r: Self)
        ensures
            pair_views(r.blocks@) == car_blocks(data@),
    {
        let mut blocks: Vec<(&'a [u8], &'a [u8])> = Vec::new();
        let len = data.len();
        if len == 0 {
            assert(pair_views(blocks@) =~= car_blocks(data@));
            return CarStore { blocks };
        }
        let (header_len, v_len) = match read_varint(data, 0) {
            None => {
                assert(pair_views(blocks@) =~= car_blocks(data@));
                return CarStore { blocks };
            },
            Some(p) => p,
        };
        if header_len > (len - v_len) as u64 {
            assert(pair_views(blocks@) =~= car_blocks(data@));
            return CarStore { blocks };
        }
        let mut offset: usize = v_len + header_len as usize;
        assert(pair_views(blocks@) + car_blocks_from(data@, offset as int) =~= car_blocks(data@));
        while offset < len
            invariant
                len == data@.len(),
                offset <= len,
                car_blocks(data@) == pair_views(blocks@) + car_blocks_from(data@, offset as int),
            ensures
                car_blocks(data@) == pair_views(blocks@),
            decreases len - offset,
        {
            let (total, vl) = match read_varint(data, offset) {
                None => {
                    assert(pair_views(blocks@) + Seq::<(Seq<u8>, Seq<u8>)>::empty() =~= pair_views(blocks@));
                    break;
                },
                Some(p) => p,
            };
            let start = offset + vl;
            if start > len || total > (len - start) as u64 {
                assert(pair_views(blocks@) + Seq::<(Seq<u8>, Seq<u8>)>::empty() =~= pair_views(blocks@));
                break;
            }
            let end = start + total as usize;
            if end <= offset {
                assert(pair_views(blocks@) + Seq::<(Seq<u8>, Seq<u8>)>::empty() =~= pair_views(blocks@));
                break;
            }
            let block = vstd::slice::slice_subrange(data, start, end);
            let ghost before = pair_views(blocks@);
            let ghost rest = car_blocks_from(data@, end as int);
            match parse_raw_cid_len(block) {
                Some(cid_len) => {
                    if cid_len as u64 <= total {
                        let cid = vstd::slice::slice_subrange(data, start, start + cid_len);
                        let body = vstd::slice::slice_subrange(data, start + cid_len, end);
                        blocks.push((cid, body));
                        assert(pair_views(blocks@) =~= before.push((cid@, body@)));
                        assert(before + (seq![(cid@, body@)] + rest) =~= before.push((cid@, body@)) + rest);
                    }
                },
                None => {},
            }
            offset = end;
        }
        CarStore { blocks }
    }

    /// The data of the block that `cid` identifies (a leading zero sentinel byte is
    /// ignored); the last such block wins. Failing an exact match, an identifier longer
    /// than 30 bytes is matched by its last 31 bytes against the blocks in order.
    pub fn get_block(&self, cid: &[u8]) -> (r: Option<&'a [u8]>)
        ensures
            (exists|i: int| 0 <= i < self.blocks@.len() && (#[trigger] self.blocks@[i]).0@ == strip_sentinel(cid@)) ==> {
                let i = choose|i: int| 0 <= i < self.blocks@.len() && (#[trigger] self.blocks@[i]).0@ == strip_sentinel(cid@)
                    && forall|i2: int| i < i2 < self.blocks@.len() ==> (#[trigger] self.blocks@[i2]).0@ != strip_sentinel(cid@);
                r matches Some(b) && b@ == self.blocks@[i].1@
            },
            r matches Some(b) ==> exists|i: int| 0 <= i < self.blocks@.len() && (#[trigger] self.blocks@[i]).1@ == b@,
    {
        let clean: &[u8] = if cid.len() > 0 && cid[0] == 0 {
            vstd::slice::slice_subrange(cid, 1, cid.len())
        } else {
            cid
        };
        let n = self.blocks.len();
        let mut i = n;
        while i > 0
            invariant
                i <= n,
                n == self.blocks@.len(),
                clean@ == strip_sentinel(cid@),
                forall|i2: int| i <= i2 < n ==> (#[trigger] self.blocks@[i2]).0@ != clean@,
            decreases i,
        {
            if bytes_eq(self.blocks[i - 1].0, clean) {
                proof {
                    let w = (i - 1) as int;
                    let c = choose|j: int| 0 <= j < self.blocks@.len() && (#[trigger] self.blocks@[j]).0@ == strip_sentinel(cid@)
                        && forall|i2: int| j < i2 < self.blocks@.len() ==> (#[trigger] self.blocks@[i2]).0@ != strip_sentinel(cid@);
                    assert(0 <= w < self.blocks@.len() && self.blocks@[w].0@ == strip_sentinel(cid@)
                        && forall|i2: int| w < i2 < self.blocks@.len() ==> (#[trigger] self.blocks@[i2]).0@ != strip_sentinel(cid@));
                    if c < w {
                        assert(self.blocks@[w].0@ != strip_sentinel(cid@));
                    } else if c > w {
                        assert(self.blocks@[c].0@ != strip_sentinel(cid@));
                    }
                }
                return Some(self.blocks[i - 1].1);
            }
            i = i - 1;
        }
        if clean.len() > 30 {
            let tail = vstd::slice::slice_subrange(clean, clean.len() - 31, clean.len());
            let mut k: usize = 0;
            while k < n
                invariant
                    k <= n,
                    n == self.blocks@.len(),
                    forall|i2: int| 0 <= i2 < n ==> (#[trigger] self.blocks@[i2]).0@ != strip_sentinel(cid@),
                decreases n - k,
            {
                let key = self.blocks[k].0;
                if key.len() >= 31 && bytes_eq(vstd::slice::slice_subrange(key, key.len() - 31, key.len()), tail) {
                    return Some(self.blocks[k].1);
                }
                k = k + 1;
            }
        }
        None
    }
}

} // verus!
