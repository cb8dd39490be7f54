//! Bitcoin's consensus encoding of integers, sizes and byte strings, and a reader that checks
//! what it reads against it.

use vstd::prelude::*;
use vstd::bytes::*;

verus! {

broadcast use vstd::seq_lib::group_seq_properties;

/// The compact size of `n`: one byte below 0xfd, else a marker byte followed by the number in
/// the narrowest of 2, 4 or 8 little-endian bytes that holds it.
pub open spec fn compact_size(n: nat) -> Seq<u8> {
    if n < 0xfd {
        seq![n as u8]
    } else if n <= 0xffff {
        seq![0xfdu8] + spec_u16_to_le_bytes(n as u16)
    } else if n <= 0xffff_ffff {
        seq![0xfeu8] + spec_u32_to_le_bytes(n as u32)
    } else {
        seq![0xffu8] + spec_u64_to_le_bytes(n as u64)
    }
}

/// A byte string with its length in front.
pub open spec fn var_bytes(b: Seq<u8>) -> Seq<u8> {
    compact_size(b.len()) + b
}

/// The parts, one after the other.
pub open spec fn concat(parts: Seq<Seq<u8>>) -> Seq<u8>
    decreases parts.len(),
{
    if parts.len() == 0 {
        Seq::empty()
    } else {
        concat(parts.drop_last()) + parts.last()
    }
}

/// A list of byte strings, each with its length, after the number of them.
pub open spec fn var_list(items: Seq<Seq<u8>>) -> Seq<u8> {
    compact_size(items.len()) + concat(items.map_values(|b: Seq<u8>| var_bytes(b)))
}

pub proof fn lemma_compact_size_len(n: nat)
    ensures
        compact_size(n).len() == if n < 0xfd {
            1nat
        } else if n <= 0xffff {
            3nat
        } else if n <= 0xffff_ffff {
            5nat
        } else {
            9nat
        },
        compact_size(n).len() <= 9,
{
    lemma_auto_spec_u16_to_from_le_bytes();
    lemma_auto_spec_u32_to_from_le_bytes();
    lemma_auto_spec_u64_to_from_le_bytes();
}

/// Appends the compact size of `n`.
pub fn write_compact_size(out: &mut Vec<u8>, n: u64)
    ensures
        final(out)@ == old(out)@ + compact_size(n as nat),
{
    proof {
        lemma_auto_spec_u16_to_from_le_bytes();
        lemma_auto_spec_u32_to_from_le_bytes();
        lemma_auto_spec_u64_to_from_le_bytes();
    }
    if n < 0xfd {
        out.push(n as u8);
    } else if n <= 0xffff {
        out.push(0xfd);
        let b = u16_to_le_bytes(n as u16);
        out.extend_from_slice(b.as_slice());
    } else if n <= 0xffff_ffff {
        out.push(0xfe);
        let b = u32_to_le_bytes(n as u32);
        out.extend_from_slice(b.as_slice());
    } else {
        out.push(0xff);
        let b = u64_to_le_bytes(n);
        out.extend_from_slice(b.as_slice());
    }
}

/// Appends a byte string with its length in front.
pub fn write_var_bytes(out: &mut Vec<u8>, b: &[u8])
    ensures
        final(out)@ == old(out)@ + var_bytes(b@),
{
    write_compact_size(out, b.len() as u64);
    out.extend_from_slice(b);
}

/// Appends the little-endian bytes of a `u32`.
pub fn write_u32(out: &mut Vec<u8>, x: u32)
    ensures
        final(out)@ == old(out)@ + spec_u32_to_le_bytes(x),
{
    let b = u32_to_le_bytes(x);
    out.extend_from_slice(b.as_slice());
}

/// Appends the little-endian bytes of a `u64`.
pub fn write_u64(out: &mut Vec<u8>, x: u64)
    ensures
        final(out)@ == old(out)@ + spec_u64_to_le_bytes(x),
{
    let b = u64_to_le_bytes(x);
    out.extend_from_slice(b.as_slice());
}

/// Reads a little-endian `u32` at `pos`.
pub fn read_u32(b: &[u8], pos: usize) -> (r: Option<(u32, usize)>)
    ensures
        match r {
            Some((x, end)) => end == pos + 4 && end <= b@.len() && b@.subrange(pos as int, end as int)
                == spec_u32_to_le_bytes(x),
            None => pos + 4 > b@.len(),
        },
{
    if pos > b.len() || b.len() - pos < 4 {
        return None;
    }
    proof {
        lemma_auto_spec_u32_to_from_le_bytes();
    }
    let x = u32_from_le_bytes(vstd::slice::slice_subrange(b, pos, pos + 4));
    Some((x, pos + 4))
}

/// Reads a little-endian `u64` at `pos`.
pub fn read_u64(b: &[u8], pos: usize) -> (r: Option<(u64, usize)>)
    ensures
        match r {
            Some((x, end)) => end == pos + 8 && end <= b@.len() && b@.subrange(pos as int, end as int)
                == spec_u64_to_le_bytes(x),
            None => pos + 8 > b@.len(),
        },
{
    if pos > b.len() || b.len() - pos < 8 {
        return None;
    }
    proof {
        lemma_auto_spec_u64_to_from_le_bytes();
    }
    let x = u64_from_le_bytes(vstd::slice::slice_subrange(b, pos, pos + 8));
    Some((x, pos + 8))
}

/// Reads `len` bytes at `pos`.
pub fn read_bytes(b: &[u8], pos: usize, len: u64) -> (r: Option<(Vec<u8>, usize)>)
    ensures
        match r {
            Some((v, end)) => end == pos + len && end <= b@.len() && v@ == b@.subrange(
                pos as int,
                end as int,
            ),
            None => pos + len > b@.len(),
        },
{
    if pos > b.len() || ((b.len() - pos) as u64) < len {
        return None;
    }
    let end = pos + len as usize;
    let mut v: Vec<u8> = Vec::new();
    v.extend_from_slice(vstd::slice::slice_subrange(b, pos, end));
    Some((v, end))
}

/// Reads a compact size at `pos`, refusing any but the narrowest form.
pub fn read_compact_size(b: &[u8], pos: usize) -> (r: Option<(u64, usize)>)
    ensures
        match r {
            Some((n, end)) => pos < end <= b@.len() && b@.subrange(pos as int, end as int)
                == compact_size(n as nat),
            None => forall|n: u64|
                !(pos + compact_size(n as nat).len() <= b@.len() && #[trigger] b@.subrange(
                    pos as int,
                    pos + compact_size(n as nat).len(),
                ) == compact_size(n as nat)),
        },
{
    proof {
        lemma_auto_spec_u16_to_from_le_bytes();
        lemma_auto_spec_u32_to_from_le_bytes();
        lemma_auto_spec_u64_to_from_le_bytes();
    }
    if pos >= b.len() {
        proof {
            assert forall|n: u64|
                !(pos + compact_size(n as nat).len() <= b@.len() && #[trigger] b@.subrange(
                    pos as int,
                    pos + compact_size(n as nat).len(),
                ) == compact_size(n as nat)) by {
                lemma_compact_size_len(n as nat);
            }
        }
        return None;
    }
    let first = b[pos];
    if first < 0xfd {
        proof {
            assert(b@.subrange(pos as int, pos + 1) =~= seq![first]);
        }
        return Some((first as u64, pos + 1));
    }
    if first == 0xfd {
        match read_u16(b, pos + 1) {
            Some((x, end)) => {
                if x >= 0xfd {
                    proof {
                        assert(b@.subrange(pos as int, end as int) =~= seq![0xfdu8] + b@.subrange(
                            pos + 1,
                            end as int,
                        ));
                    }
                    return Some((x as u64, end));
                }
            },
            None => {},
        }
    } else if first == 0xfe {
        match read_u32(b, pos + 1) {
            Some((x, end)) => {
                if x > 0xffff {
                    proof {
                        assert(b@.subrange(pos as int, end as int) =~= seq![0xfeu8] + b@.subrange(
                            pos + 1,
                            end as int,
                        ));
                    }
                    return Some((x as u64, end));
                }
            },
            None => {},
        }
    } else {
        match read_u64(b, pos + 1) {
            Some((x, end)) => {
                if x > 0xffff_ffff {
                    proof {
                        assert(b@.subrange(pos as int, end as int) =~= seq![0xffu8] + b@.subrange(
                            pos + 1,
                            end as int,
                        ));
                    }
                    return Some((x, end));
                }
            },
            None => {},
        }
    }
    proof {
        assert forall|n: u64|
            !(pos + compact_size(n as nat).len() <= b@.len() && #[trigger] b@.subrange(
                pos as int,
                pos + compact_size(n as nat).len(),
            ) == compact_size(n as nat)) by {
            lemma_compact_size_len(n as nat);
            let cs = compact_size(n as nat);
            if pos + cs.len() <= b@.len() && b@.subrange(pos as int, pos + cs.len()) == cs {
                assert(b@[pos as int] == cs[0]);
                if n < 0xfd {
                } else if n <= 0xffff {
                    assert(b@.subrange(pos + 1, pos + 3) =~= cs.subrange(1, 3));
                    assert(cs.subrange(1, 3) =~= spec_u16_to_le_bytes(n as u16));
                } else if n <= 0xffff_ffff {
                    assert(b@.subrange(pos + 1, pos + 5) =~= cs.subrange(1, 5));
                    assert(cs.subrange(1, 5) =~= spec_u32_to_le_bytes(n as u32));
                } else {
                    assert(b@.subrange(pos + 1, pos + 9) =~= cs.subrange(1, 9));
                    assert(cs.subrange(1, 9) =~= spec_u64_to_le_bytes(n as u64));
                }
            }
        }
    }
    None
}

/// Reads a little-endian `u16` at `pos`.
fn read_u16(b: &[u8], pos: usize) -> (r: Option<(u16, usize)>)
    ensures
        match r {
            Some((x, end)) => end == pos + 2 && end <= b@.len() && b@.subrange(pos as int, end as int)
                == spec_u16_to_le_bytes(x),
            None => pos + 2 > b@.len(),
        },
{
    if pos > b.len() || b.len() - pos < 2 {
        return None;
    }
    proof {
        lemma_auto_spec_u16_to_from_le_bytes();
    }
    let x = u16_from_le_bytes(vstd::slice::slice_subrange(b, pos, pos + 2));
    Some((x, pos + 2))
}

/// Reads a byte string with its length in front.
pub fn read_var_bytes(b: &[u8], pos: usize) -> (r: Option<(Vec<u8>, usize)>)
    ensures
        match r {
            Some((v, end)) => pos < end <= b@.len() && b@.subrange(pos as int, end as int) == var_bytes(
                v@,
            ) && v@.len() <= u64::MAX,
            None => forall|v: Seq<u8>|
                !(pos + var_bytes(v).len() <= b@.len() && #[trigger] b@.subrange(
                    pos as int,
                    pos + var_bytes(v).len(),
                ) == var_bytes(v) && v.len() <= u64::MAX),
        },
{
    match read_compact_size(b, pos) {
        Some((len, mid)) => match read_bytes(b, mid, len) {
            Some((v, end)) => {
                proof {
                    assert(b@.subrange(pos as int, end as int) =~= b@.subrange(pos as int, mid as int)
                        + b@.subrange(mid as int, end as int));
                }
                Some((v, end))
            },
            None => {
                proof {
                    assert forall|v: Seq<u8>|
                        !(pos + var_bytes(v).len() <= b@.len() && #[trigger] b@.subrange(
                            pos as int,
                            pos + var_bytes(v).len(),
                        ) == var_bytes(v) && v.len() <= u64::MAX) by {
                        let cs = compact_size(v.len());
                        if pos + var_bytes(v).len() <= b@.len() && b@.subrange(
                            pos as int,
                            pos + var_bytes(v).len(),
                        ) == var_bytes(v) && v.len() <= u64::MAX {
                            assert(b@.subrange(pos as int, pos + cs.len()) =~= var_bytes(v).subrange(
                                0,
                                cs.len() as int,
                            ));
                            assert(var_bytes(v).subrange(0, cs.len() as int) =~= cs);
                            lemma_compact_size_prefix(b@, pos as int, len as nat, v.len());
                        }
                    }
                }
                None
            },
        },
        None => {
            proof {
                assert forall|v: Seq<u8>|
                    !(pos + var_bytes(v).len() <= b@.len() && #[trigger] b@.subrange(
                        pos as int,
                        pos + var_bytes(v).len(),
                    ) == var_bytes(v) && v.len() <= u64::MAX) by {
                    let n = v.len() as u64;
                    let cs = compact_size(n as nat);
                    if pos + var_bytes(v).len() <= b@.len() && b@.subrange(
                        pos as int,
                        pos + var_bytes(v).len(),
                    ) == var_bytes(v) && v.len() <= u64::MAX {
                        assert(b@.subrange(pos as int, pos + cs.len()) =~= var_bytes(v).subrange(
                            0,
                            cs.len() as int,
                        ));
                        assert(var_bytes(v).subrange(0, cs.len() as int) =~= cs);
                    }
                }
            }
            None
        },
    }
}

/// A compact size at the front of some bytes is the only one that can be read there.
pub proof fn lemma_compact_size_prefix(b: Seq<u8>, pos: int, n: nat, m: nat)
    requires
        0 <= pos,
        n <= u64::MAX,
        m <= u64::MAX,
        pos + compact_size(n).len() <= b.len(),
        b.subrange(pos, pos + compact_size(n).len()) == compact_size(n),
        pos + compact_size(m).len() <= b.len(),
        b.subrange(pos, pos + compact_size(m).len()) == compact_size(m),
    ensures
        n == m,
{
    lemma_compact_size_len(n);
    lemma_compact_size_len(m);
    lemma_auto_spec_u16_to_from_le_bytes();
    lemma_auto_spec_u32_to_from_le_bytes();
    lemma_auto_spec_u64_to_from_le_bytes();
    let cn = compact_size(n);
    let cm = compact_size(m);
    assert(cn[0] == b[pos] && cm[0] == b[pos]);
    if n >= 0xfd && m >= 0xfd {
        if n <= 0xffff && m <= 0xffff {
            assert(cn.subrange(1, 3) =~= b.subrange(pos + 1, pos + 3));
            assert(cm.subrange(1, 3) =~= b.subrange(pos + 1, pos + 3));
            assert(cn.subrange(1, 3) =~= spec_u16_to_le_bytes(n as u16));
            assert(cm.subrange(1, 3) =~= spec_u16_to_le_bytes(m as u16));
        } else if 0xffff < n <= 0xffff_ffff && 0xffff < m <= 0xffff_ffff {
            assert(cn.subrange(1, 5) =~= b.subrange(pos + 1, pos + 5));
            assert(cm.subrange(1, 5) =~= b.subrange(pos + 1, pos + 5));
            assert(cn.subrange(1, 5) =~= spec_u32_to_le_bytes(n as u32));
            assert(cm.subrange(1, 5) =~= spec_u32_to_le_bytes(m as u32));
        } else if n > 0xffff_ffff && m > 0xffff_ffff {
            assert(cn.subrange(1, 9) =~= b.subrange(pos + 1, pos + 9));
            assert(cm.subrange(1, 9) =~= b.subrange(pos + 1, pos + 9));
            assert(cn.subrange(1, 9) =~= spec_u64_to_le_bytes(n as u64));
            assert(cm.subrange(1, 9) =~= spec_u64_to_le_bytes(m as u64));
        }
    }
}

/// Whether `e` stands in `b` at `pos`.
pub open spec fn prefix_at(b: Seq<u8>, pos: int, e: Seq<u8>) -> bool {
    0 <= pos && pos + e.len() <= b.len() && b.subrange(pos, pos + e.len()) == e
}

/// The parts of something that stands at `pos` stand at their offsets.
pub proof fn lemma_prefix_part(b: Seq<u8>, pos: int, e: Seq<u8>, k: int, l: int)
    requires
        prefix_at(b, pos, e),
        0 <= k <= l <= e.len(),
    ensures
        b.subrange(pos + k, pos + l) == e.subrange(k, l),
        prefix_at(b, pos + k, e.subrange(k, l)),
{
    assert(b.subrange(pos + k, pos + l) =~= b.subrange(pos, pos + e.len()).subrange(k, l));
}

/// The first parts of a concatenation make up its start.
pub proof fn lemma_concat_take_prefix(s: Seq<Seq<u8>>, k: int)
    requires
        0 <= k <= s.len(),
    ensures
        concat(s.take(k)).len() <= concat(s).len(),
        concat(s).subrange(0, concat(s.take(k)).len() as int) == concat(s.take(k)),
    decreases s.len(),
{
    if k == s.len() {
        assert(s.take(k) =~= s);
        assert(concat(s).subrange(0, concat(s).len() as int) =~= concat(s));
    } else {
        let p = s.drop_last();
        assert(p.take(k) =~= s.take(k));
        lemma_concat_take_prefix(p, k);
        assert(concat(s) == concat(p) + s.last());
        assert(concat(s).subrange(0, concat(s.take(k)).len() as int) =~= concat(p).subrange(
            0,
            concat(s.take(k)).len() as int,
        ));
    }
}

/// Where the first `i` parts of a concatenation standing at `base` end, the next part stands.
pub proof fn lemma_chunk_at(b: Seq<u8>, base: int, chunks: Seq<Seq<u8>>, i: int)
    requires
        prefix_at(b, base, concat(chunks)),
        0 <= i < chunks.len(),
    ensures
        prefix_at(b, base + concat(chunks.take(i)).len(), chunks[i]),
        concat(chunks.take(i + 1)) == concat(chunks.take(i)) + chunks[i],
        concat(chunks.take(i + 1)).len() <= concat(chunks).len(),
{
    lemma_concat_take_prefix(chunks, i + 1);
    assert(chunks.take(i + 1).drop_last() =~= chunks.take(i));
    assert(chunks.take(i + 1).last() == chunks[i]);
    let pre = concat(chunks.take(i));
    let whole = concat(chunks);
    assert(concat(chunks.take(i + 1)) == pre + chunks[i]);
    lemma_prefix_part(b, base, whole, pre.len() as int, (pre.len() + chunks[i].len()) as int);
    assert(whole.subrange(pre.len() as int, (pre.len() + chunks[i].len()) as int) =~= (pre + chunks[i]).subrange(
        pre.len() as int,
        (pre.len() + chunks[i].len()) as int,
    ));
}

/// A byte string with its length, standing at some place, is the only one that can stand there.
pub proof fn lemma_var_bytes_unique(b: Seq<u8>, pos: int, v: Seq<u8>, w: Seq<u8>)
    requires
        v.len() <= u64::MAX,
        w.len() <= u64::MAX,
        prefix_at(b, pos, var_bytes(v)),
        prefix_at(b, pos, var_bytes(w)),
    ensures
        v == w,
{
    let cv = compact_size(v.len());
    let cw = compact_size(w.len());
    lemma_prefix_part(b, pos, var_bytes(v), 0, cv.len() as int);
    lemma_prefix_part(b, pos, var_bytes(w), 0, cw.len() as int);
    assert(var_bytes(v).subrange(0, cv.len() as int) =~= cv);
    assert(var_bytes(w).subrange(0, cw.len() as int) =~= cw);
    lemma_compact_size_prefix(b, pos, v.len(), w.len());
    lemma_prefix_part(b, pos, var_bytes(v), cv.len() as int, var_bytes(v).len() as int);
    lemma_prefix_part(b, pos, var_bytes(w), cw.len() as int, var_bytes(w).len() as int);
    assert(var_bytes(v).subrange(cv.len() as int, var_bytes(v).len() as int) =~= v);
    assert(var_bytes(w).subrange(cw.len() as int, var_bytes(w).len() as int) =~= w);
}

} // verus!
