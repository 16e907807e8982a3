use crate::container::{full_region, read_frame, sum_prefix, Sections};
use crate::region::{
    delta_pos, deltas_fit, laid, lemma_laid_mono, lemma_region_delta, lemma_region_tail,
    lemma_sum_prefix_bound,
};
use crate::stream::add_bytes;
use crate::error::Error;
use crate::varint;
use crate::varint::{decode_group, decode_groups, tag_data_len, tags_data_len};
use vstd::prelude::*;

verus! {

/// The decoded word streams of a compact stream, and where its delta bytes
/// and literals lie in it.
pub struct Frame {
    pub adds: Vec<u32>,
    pub copies: Vec<u32>,
    pub seeks: Vec<u32>,
    pub skips: Vec<u32>,
    pub lit_start: usize,
    pub lit_end: usize,
    pub diff_start: usize,
    pub diff_end: usize,
}

pub open spec fn frame_sections(f: Frame, c: Seq<u8>) -> Sections {
    Sections {
        adds: f.adds@,
        copies: f.copies@,
        seeks: f.seeks@,
        skips: f.skips@,
        diffs: c.subrange(f.diff_start as int, f.diff_end as int),
        literals: c.subrange(f.lit_start as int, f.lit_end as int),
    }
}

pub open spec fn frame_wf(f: Frame, c: Seq<u8>) -> bool {
    &&& f.lit_start <= f.lit_end <= c.len()
    &&& f.diff_start <= f.diff_end <= c.len()
    &&& f.adds@.len() <= u32::MAX
    &&& f.copies@.len() == f.adds@.len()
    &&& f.seeks@.len() == f.adds@.len()
    &&& f.skips@.len() == f.diff_end - f.diff_start
    &&& f.skips@.len() <= u32::MAX
}

/// The first `n` values of a decoded tag run.
fn decode_run(tags: &[u8], data: &[u8], n: u64) -> (r: Vec<u32>)
    requires
        tags_data_len(tags@) <= data@.len(),
        n <= 4 * tags@.len(),
        4 * tags@.len() <= usize::MAX,
    ensures
        r@ == decode_groups(tags@, data@).take(n as int),
{
    let mut v: Vec<u32> = vec![0u32; 4 * tags.len()];
    let _ = varint::decode(tags, data, &mut v);
    proof {
        varint::lemma_decode_groups_len(tags@, data@);
    }
    v.truncate(n as usize);
    assert(v@ =~= decode_groups(tags@, data@).take(n as int));
    v
}

/// The length of the prefix data and the four counts it holds, if the
/// stream is long enough to hold them.
fn read_prefix(c: &[u8]) -> (r: Option<(usize, Vec<u32>)>)
    ensures
        r.is_some() <==> (c@.len() > 0 && c@.len() >= 1 + tag_data_len(c@[0])),
        r.is_some() ==> ({
            let (pl, h) = r.unwrap();
            pl == tag_data_len(c@[0]) && h@ == decode_group(c@[0], c@.subrange(1, 1 + pl as int))
        }),
{
    if c.len() == 0 {
        return None;
    }
    let t = c[0];
    let pl = varint::group_len(t);
    if ((c.len() - 1) as u64) < pl {
        return None;
    }
    let pl = pl as usize;
    let mut h: Vec<u32> = vec![0u32; 4];
    proof {
        let d = c@.subrange(1, 1 + pl as int);
        assert(c@.subrange(0, 1) =~= seq![t]);
        assert(seq![t].drop_first() =~= Seq::<u8>::empty());
        assert(tags_data_len(seq![t]) == tag_data_len(t) + tags_data_len(Seq::<u8>::empty()));
        assert(decode_groups(seq![t], d) =~= decode_group(t, d) + decode_groups(
            Seq::<u8>::empty(),
            d.subrange(tag_data_len(t) as int, d.len() as int),
        ));
    }
    let _ = varint::decode(&c[0..1], &c[1..1 + pl], &mut h);
    Some((pl, h))
}

/// Reads the frame of a compact stream: its prefix, regions and word streams.
#[verifier::rlimit(60)]
pub fn read_frame_exec(c: &[u8]) -> (r: Result<Frame, Error>)
    ensures
        match read_frame(c@) {
            Ok(s) => r.is_ok() && frame_wf(r.unwrap(), c@) && frame_sections(r.unwrap(), c@) == s,
            Err(e) => r == Err::<Frame, Error>(e),
        },
{
    let (pl, h) = match read_prefix(c) {
        Some(x) => x,
        None => return Err(Error::UnexpectedEof),
    };
    let l = h[0] as u64;
    let n = h[1] as u64;
    let d = h[2] as u64;
    let dl = h[3] as u64;
    let len = c.len() as u64;
    let at0 = 1 + pl as u64;
    let gc = (n + 3) / 4;
    let gd = (d + 3) / 4;
    let tl = 3 * gc + gd;
    if len < at0 + l {
        return Err(Error::UnexpectedEof);
    }
    if len < at0 + l + tl {
        return Err(Error::UnexpectedEof);
    }
    if len < at0 + l + tl + d {
        return Err(Error::UnexpectedEof);
    }
    if len < at0 + l + tl + d + dl {
        return Err(Error::UnexpectedEof);
    }
    if 4 * gc > usize::MAX as u64 || 4 * gd > usize::MAX as u64 {
        return Err(Error::InvalidData);
    }
    let at1 = (at0 + l) as usize;
    let at2 = at1 + tl as usize;
    let at3 = at2 + d as usize;
    let at4 = at3 + dl as usize;
    let gc = gc as usize;
    let gd = gd as usize;
    let tags = &c[at1..at2];
    let ta = &tags[0..gc];
    let tc = &tags[gc..2 * gc];
    let tk = &tags[2 * gc..2 * gc + gd];
    let ts = &tags[2 * gc + gd..tl as usize];
    let la = varint::data_len(ta);
    let lc = varint::data_len(tc);
    let lk = varint::data_len(tk);
    let ls = varint::data_len(ts);
    if la + lc + lk + ls > dl {
        return Err(Error::UnexpectedEof);
    }
    let data = &c[at3..at4];
    let (la, lc, lk, ls) = (la as usize, lc as usize, lk as usize, ls as usize);
    let adds = decode_run(ta, &data[0..la], n);
    let copies = decode_run(tc, &data[la..la + lc], n);
    let skips = decode_run(tk, &data[la + lc..la + lc + lk], d);
    let seeks = decode_run(ts, &data[la + lc + lk..la + lc + lk + ls], n);
    proof {
        varint::lemma_decode_groups_len(ta@, data@.subrange(0, la as int));
        varint::lemma_decode_groups_len(tc@, data@.subrange(la as int, (la + lc) as int));
        varint::lemma_decode_groups_len(tk@, data@.subrange((la + lc) as int, (la + lc + lk) as int));
        varint::lemma_decode_groups_len(
            ts@,
            data@.subrange((la + lc + lk) as int, (la + lc + lk + ls) as int),
        );
    }
    Ok(
        Frame {
            adds,
            copies,
            seeks,
            skips,
            lit_start: at0 as usize,
            lit_end: at1,
            diff_start: at2,
            diff_end: at3,
        },
    )
}

/// Adds to `out[start..start + (end - base)]`, which holds `bg`, the delta
/// bytes whose offsets fall in `base..end` of the add region, from delta `j`
/// on; returns the next delta and its start in the region.
pub fn apply_deltas(
    out: &mut Vec<u8>,
    start: usize,
    c: &[u8],
    f: &Frame,
    base: u64,
    end: u64,
    j: usize,
    next: u64,
    Ghost(s): Ghost<Sections>,
    Ghost(bg): Ghost<Seq<u8>>,
) -> (r: (usize, u64))
    requires
        frame_wf(*f, c@),
        s == frame_sections(*f, c@),
        deltas_fit(s),
        base <= end <= sum_prefix(s.adds, s.adds.len() as int),
        old(out)@.len() == start + (end - base),
        bg.len() == end - base,
        old(out)@.subrange(start as int, old(out)@.len() as int) == bg,
        next == laid(s, j as int),
        j <= s.skips.len(),
        next <= base,
        j < s.skips.len() ==> delta_pos(s, j as int) >= base,
    ensures
        final(out)@.len() == old(out)@.len(),
        final(out)@.subrange(0, start as int) == old(out)@.subrange(0, start as int),
        final(out)@.subrange(start as int, final(out)@.len() as int) == add_bytes(
            bg,
            full_region(s).subrange(base as int, end as int),
        ),
        r.1 == laid(s, r.0 as int),
        r.0 <= s.skips.len(),
        r.1 <= end,
        r.0 < s.skips.len() ==> delta_pos(s, r.0 as int) >= end,
{
    let ghost pre = out@.subrange(0, start as int);
    let ghost full = full_region(s);
    let d = f.skips.len();
    let total = out.len();
    let mut j = j;
    let mut next = next;
    proof {
        lemma_laid_mono(s, j as int, d as int);
        lemma_sum_prefix_bound(s.adds, s.adds.len() as int);
        assert(s.adds.len() * 0xffff_ffff <= 0xffff_ffff * 0xffff_ffff) by (nonlinear_arith)
            requires s.adds.len() <= 0xffff_ffff;
        if j < d {
            lemma_region_delta(s, j as int);
        }
    }
    while j < d && next + (f.skips[j] as u64) < end
        invariant
            frame_wf(*f, c@),
            s == frame_sections(*f, c@),
            deltas_fit(s),
            full == full_region(s),
            d == s.skips.len(),
            base <= end <= sum_prefix(s.adds, s.adds.len() as int),
            out@.len() == start + (end - base),
            out@.len() == total,
            out@.subrange(0, start as int) == pre,
            next == laid(s, j as int),
            next <= laid(s, d as int),
            laid(s, d as int) <= sum_prefix(s.adds, s.adds.len() as int) <= u64::MAX,
            j < d ==> delta_pos(s, j as int) < laid(s, d as int),
            j <= d,
            next <= end,
            j < d ==> delta_pos(s, j as int) >= base,
            forall|i: int|
                0 <= i < end - base ==> #[trigger] out@[start + i] == (if base + i < next {
                    ((bg[i] + full[base + i]) % 256) as u8
                } else {
                    bg[i]
                }),
        decreases d - j,
    {
        proof {
            lemma_region_delta(s, j as int);
        }
        let p = next + f.skips[j] as u64;
        let idx = start + (p - base) as usize;
        let ghost prev = out@;
        let diff = c[f.diff_start + j];
        let v = out[idx].wrapping_add(diff);
        out.set(idx, v);
        proof {
            assert(s.diffs[j as int] == diff);
            assert(full[p as int] == diff);
            assert(prev[idx as int] == bg[p - base]);
            assert(v == ((bg[p - base] + full[base + (p - base)]) % 256) as u8);
            assert forall|i: int| 0 <= i < end - base implies #[trigger] out@[start + i] == (if base + i
                < p + 1 {
                ((bg[i] + full[base + i]) % 256) as u8
            } else {
                bg[i]
            }) by {
                if i != p - base {
                    assert(out@[start + i] == prev[start + i]);
                    if base + i >= next && base + i < p {
                        assert(full[base + i] == 0);
                    }
                }
            }
            lemma_laid_mono(s, j + 1, d as int);
            if j + 1 < d {
                lemma_region_delta(s, j + 1);
            }
        }
        next = p + 1;
        j = j + 1;
    }
    proof {
        assert(out@.subrange(start as int, out@.len() as int) =~= add_bytes(
            bg,
            full.subrange(base as int, end as int),
        )) by {
            assert forall|i: int| 0 <= i < end - base implies out@[start + i] == ((bg[i] + full[base
                + i]) % 256) as u8 by {
                if base + i >= next {
                    if j < d {
                        lemma_region_delta(s, j as int);
                    } else {
                        lemma_region_tail(s, base + i);
                    }
                    assert(full[base + i] == 0);
                }
            }
        }
        assert(out@.subrange(0, start as int) =~= pre);
    }
    (j, next)
}

} // verus!
