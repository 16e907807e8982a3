use crate::control::{unzigzag, zigzag, Bsdiff};
use crate::error::Error;
use crate::stream::{add_region, literal_region, Entry};
use crate::varint::{
    decode_group, decode_groups, encode_data, encode_tags, group_data, group_tag, tag_data_len,
    tags_data_len,
};
use vstd::prelude::*;

verus! {

/// The parallel streams that the compact form carries: one add, copy and
/// zig-zagged seek word per control, the skip before each non-zero add byte,
/// the non-zero add bytes, and the copy bytes.
pub struct Sections {
    pub adds: Seq<u32>,
    pub copies: Seq<u32>,
    pub seeks: Seq<u32>,
    pub skips: Seq<u32>,
    pub diffs: Seq<u8>,
    pub literals: Seq<u8>,
}

pub open spec fn sections_wf(s: Sections) -> bool {
    s.copies.len() == s.adds.len() && s.seeks.len() == s.adds.len() && s.diffs.len()
        == s.skips.len()
}

/// Number of groups of four that `n` values take.
pub open spec fn groups(n: nat) -> nat {
    (n + 3) / 4
}

/// `v` padded with zeros to a multiple of four.
pub open spec fn pad4(v: Seq<u32>) -> Seq<u32> {
    v + Seq::new((groups(v.len()) * 4 - v.len()) as nat, |i: int| 0u32)
}

pub open spec fn tag_runs(s: Sections) -> Seq<u8> {
    encode_tags(pad4(s.adds)) + encode_tags(pad4(s.copies)) + encode_tags(pad4(s.skips))
        + encode_tags(pad4(s.seeks))
}

pub open spec fn data_runs(s: Sections) -> Seq<u8> {
    encode_data(pad4(s.adds)) + encode_data(pad4(s.copies)) + encode_data(pad4(s.skips))
        + encode_data(pad4(s.seeks))
}

/// The four counts of the prefix: literals, controls, deltas, data bytes.
pub open spec fn header(s: Sections) -> Seq<u32> {
    seq![
        s.literals.len() as u32,
        s.adds.len() as u32,
        s.diffs.len() as u32,
        data_runs(s).len() as u32,
    ]
}

/// Whether every count of the prefix fits in 32 bits.
pub open spec fn header_fits(s: Sections) -> bool {
    s.literals.len() <= u32::MAX && s.adds.len() <= u32::MAX && s.diffs.len() <= u32::MAX
        && data_runs(s).len() <= u32::MAX
}

/// The compact form: prefix tag, prefix data, literals, tags, delta bytes, data.
#[verifier::opaque]
pub open spec fn compact_bytes(s: Sections) -> Seq<u8> {
    seq![group_tag(header(s))] + group_data(header(s)) + s.literals + tag_runs(s) + s.diffs
        + data_runs(s)
}

/// Reads the frame of a compact stream into its sections.
pub open spec fn read_frame(c: Seq<u8>) -> Result<Sections, Error> {
    if c.len() == 0 {
        Err(Error::UnexpectedEof)
    } else {
        let pl = tag_data_len(c[0]);
        if c.len() < 1 + pl {
            Err(Error::UnexpectedEof)
        } else {
            let h = decode_group(c[0], c.subrange(1, 1 + pl as int));
            let (l, n, d, dl) = (h[0] as int, h[1] as nat, h[2] as nat, h[3] as int);
            let at0 = 1 + pl as int;
            let gc = groups(n) as int;
            let gd = groups(d) as int;
            let tl = 3 * gc + gd;
            if c.len() < at0 + l {
                Err(Error::UnexpectedEof)
            } else if c.len() < at0 + l + tl {
                Err(Error::UnexpectedEof)
            } else if c.len() < at0 + l + tl + d {
                Err(Error::UnexpectedEof)
            } else if c.len() < at0 + l + tl + d + dl {
                Err(Error::UnexpectedEof)
            } else if 4 * gc > usize::MAX || 4 * gd > usize::MAX {
                Err(Error::InvalidData)
            } else {
                let at1 = at0 + l;
                let at2 = at1 + tl;
                let at3 = at2 + d;
                let tags = c.subrange(at1, at2);
                let data = c.subrange(at3, at3 + dl);
                let ta = tags.subrange(0, gc);
                let tc = tags.subrange(gc, 2 * gc);
                let tk = tags.subrange(2 * gc, 2 * gc + gd);
                let ts = tags.subrange(2 * gc + gd, tl);
                let la = tags_data_len(ta) as int;
                let lc = tags_data_len(tc) as int;
                let lk = tags_data_len(tk) as int;
                let ls = tags_data_len(ts) as int;
                if la + lc + lk + ls > dl {
                    Err(Error::UnexpectedEof)
                } else {
                    Ok(
                        Sections {
                            adds: decode_groups(ta, data.subrange(0, la)).take(n as int),
                            copies: decode_groups(tc, data.subrange(la, la + lc)).take(n as int),
                            skips: decode_groups(tk, data.subrange(la + lc, la + lc + lk)).take(
                                d as int,
                            ),
                            seeks: decode_groups(
                                ts,
                                data.subrange(la + lc + lk, la + lc + lk + ls),
                            ).take(n as int),
                            diffs: c.subrange(at2, at3),
                            literals: c.subrange(at0, at1),
                        },
                    )
                }
            }
        }
    }
}

/// Sum of the first `k` entries of `v`.
pub open spec fn sum_prefix(v: Seq<u32>, k: int) -> nat
    decreases k,
{
    if k <= 0 {
        0
    } else {
        (sum_prefix(v, k - 1) + v[k - 1]) as nat
    }
}

/// The add region that the first `j` skips and delta bytes lay out: each
/// delta byte follows its skip of zeros.
pub open spec fn expand(skips: Seq<u32>, diffs: Seq<u8>, j: int) -> Seq<u8>
    decreases j,
{
    if j <= 0 {
        seq![]
    } else {
        expand(skips, diffs, j - 1) + Seq::new(skips[j - 1] as nat, |i: int| 0u8) + seq![
            diffs[j - 1],
        ]
    }
}

pub open spec fn zeros(n: nat) -> Seq<u8> {
    Seq::new(n, |i: int| 0u8)
}

/// The whole add region of the sections.
pub open spec fn full_region(s: Sections) -> Seq<u8> {
    let a = expand(s.skips, s.diffs, s.skips.len() as int);
    a + zeros((sum_prefix(s.adds, s.adds.len() as int) - a.len()) as nat)
}

/// Control `k` of the sections, widened, with its add and copy bytes.
pub open spec fn entry_at(s: Sections, k: int) -> Entry {
    let a = sum_prefix(s.adds, k) as int;
    let l = sum_prefix(s.copies, k) as int;
    Entry {
        ctl: Bsdiff {
            add: s.adds[k] as u64,
            copy: s.copies[k] as u64,
            seek: unzigzag(s.seeks[k]) as i64,
        },
        diff: full_region(s).subrange(a, a + s.adds[k]),
        extra: s.literals.subrange(l, l + s.copies[k]),
    }
}

/// The bsdiff records that the sections stand for; the copies must fit in
/// the literals and the delta bytes in the add region.
pub open spec fn sections_entries(s: Sections) -> Result<Seq<Entry>, Error> {
    if sum_prefix(s.copies, s.copies.len() as int) > s.literals.len() {
        Err(Error::UnexpectedEof)
    } else if expand(s.skips, s.diffs, s.skips.len() as int).len() > sum_prefix(
        s.adds,
        s.adds.len() as int,
    ) {
        Err(Error::InvalidData)
    } else {
        Ok(Seq::new(s.adds.len(), |k: int| entry_at(s, k)))
    }
}

/// The bsdiff records that a compact stream stands for.
pub open spec fn compact_entries(c: Seq<u8>) -> Result<Seq<Entry>, Error> {
    match read_frame(c) {
        Ok(s) => sections_entries(s),
        Err(e) => Err(e),
    }
}

/// One past the last non-zero byte of `a`, or 0.
pub open spec fn nz_cursor(a: Seq<u8>) -> nat
    decreases a.len(),
{
    if a.len() == 0 {
        0
    } else if a.last() != 0 {
        a.len()
    } else {
        nz_cursor(a.drop_last())
    }
}

/// For each non-zero byte of `a`, the number of zero bytes before it since
/// the previous non-zero byte.
pub open spec fn skips_of(a: Seq<u8>) -> Seq<u32>
    decreases a.len(),
{
    if a.len() == 0 {
        seq![]
    } else if a.last() != 0 {
        skips_of(a.drop_last()).push((a.len() - 1 - nz_cursor(a.drop_last())) as u32)
    } else {
        skips_of(a.drop_last())
    }
}

/// The non-zero bytes of `a`, in order.
pub open spec fn diffs_of(a: Seq<u8>) -> Seq<u8>
    decreases a.len(),
{
    if a.len() == 0 {
        seq![]
    } else if a.last() != 0 {
        diffs_of(a.drop_last()).push(a.last())
    } else {
        diffs_of(a.drop_last())
    }
}

/// The sections that the compact form of the records `es` carries.
pub open spec fn sections_of(es: Seq<Entry>) -> Sections {
    Sections {
        adds: Seq::new(es.len(), |k: int| es[k].ctl.add as u32),
        copies: Seq::new(es.len(), |k: int| es[k].ctl.copy as u32),
        seeks: Seq::new(es.len(), |k: int| zigzag(es[k].ctl.seek as i32)),
        skips: skips_of(add_region(es)),
        diffs: diffs_of(add_region(es)),
        literals: literal_region(es),
    }
}

} // verus!
