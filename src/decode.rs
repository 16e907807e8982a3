use crate::container::{
    compact_entries, entry_at, full_region, sections_entries, sum_prefix, zeros,
    };
use crate::control::{unzigzag_word, Bsdiff};
use crate::encode::extend_bytes;
use crate::error::Error;
use crate::frame::{apply_deltas, frame_sections, frame_wf, read_frame_exec, Frame};
use crate::region::{
    delta_pos, deltas_fit, gap_total, laid, lemma_laid_gap_sum, lemma_region_len, lemma_sum_prefix_bound,
    lemma_sum_prefix_mono,
    sum_words,
};
use crate::stream::{add_bytes, bsdiff_bytes};
use vstd::prelude::*;

verus! {

/// Checks that the copies fit in the literals and the deltas in the add region.
pub(crate) fn check_totals(f: &Frame, c: &[u8]) -> (r: Result<(), Error>)
    requires
        frame_wf(*f, c@),
    ensures
        match sections_entries(frame_sections(*f, c@)) {
            Ok(_) => r.is_ok() && deltas_fit(frame_sections(*f, c@)) && sum_prefix(
                f.copies@,
                f.copies@.len() as int,
            ) <= f.lit_end - f.lit_start,
            Err(e) => r == Err::<(), Error>(e),
        },
{
    let ghost s = frame_sections(*f, c@);
    let tc = sum_words(&f.copies);
    if tc > (f.lit_end - f.lit_start) as u64 {
        return Err(Error::UnexpectedEof);
    }
    let ta = sum_words(&f.adds);
    let lt = gap_total(&f.skips);
    proof {
        lemma_laid_gap_sum(s, s.skips.len() as int);
    }
    if lt > ta {
        return Err(Error::InvalidData);
    }
    Ok(())
}

/// Appends `n` zero bytes to `out`.
pub(crate) fn push_zeros(out: &mut Vec<u8>, n: usize)
    ensures
        final(out)@ == old(out)@ + zeros(n as nat),
{
    let ghost start = out@;
    let mut i: usize = 0;
    while i < n
        invariant
            i <= n,
            out@ =~= start + zeros(i as nat),
        decreases n - i,
    {
        out.push(0);
        i = i + 1;
    }
}

/// Decodes a compact stream and appends the raw bsdiff stream it stands for
/// to `patch`.
pub fn decode(compact: &[u8], patch: &mut Vec<u8>) -> (r: Result<(), Error>)
    ensures
        match compact_entries(compact@) {
            Ok(es) => r.is_ok() && final(patch)@ == old(patch)@ + bsdiff_bytes(es),
            Err(e) => r == Err::<(), Error>(e),
        },
{
    let f = read_frame_exec(compact)?;
    let ghost s = frame_sections(f, compact@);
    check_totals(&f, compact)?;
    let n = f.adds.len();
    let mut k: usize = 0;
    let mut base: u64 = 0;
    let mut lb: u64 = 0;
    let mut j: usize = 0;
    let mut next: u64 = 0;
    let ghost entries = Seq::new(n as nat, |i: int| entry_at(s, i));
    while k < n
        invariant
            frame_wf(f, compact@),
            s == frame_sections(f, compact@),
            deltas_fit(s),
            sum_prefix(s.copies, n as int) <= s.literals.len(),
            n == s.adds.len(),
            entries == Seq::new(n as nat, |i: int| entry_at(s, i)),
            k <= n,
            j <= s.skips.len(),
            base == sum_prefix(s.adds, k as int),
            lb == sum_prefix(s.copies, k as int),
            next == laid(s, j as int),
            next <= base,
            j < s.skips.len() ==> delta_pos(s, j as int) >= base,
            patch@ == old(patch)@ + bsdiff_bytes(entries.take(k as int)),
        decreases n - k,
    {
        let add = f.adds[k];
        let copy = f.copies[k];
        proof {
            lemma_sum_prefix_mono(s.adds, k + 1, n as int);
            lemma_sum_prefix_mono(s.copies, k + 1, n as int);
        }
        let ctl = Bsdiff { add: add as u64, copy: copy as u64, seek: unzigzag_word(f.seeks[k]) as i64 };
        ctl.encode(patch);
        let start = patch.len();
        let ghost before = patch@;
        push_zeros(patch, add as usize);
        proof {
            lemma_sum_prefix_bound(s.adds, n as int);
            assert(n * 0xffff_ffff <= 0xffff_ffff * 0xffff_ffff) by (nonlinear_arith)
                requires n <= 0xffff_ffff;
            assert(patch@.subrange(start as int, patch@.len() as int) =~= zeros(add as nat));
            assert(patch@.subrange(0, start as int) =~= before);
        }
        let end = base + add as u64;
        let (j2, next2) = apply_deltas(
            patch,
            start,
            compact,
            &f,
            base,
            end,
            j,
            next,
            Ghost(s),
            Ghost(zeros(add as nat)),
        );
        let ghost window = add_bytes(zeros(add as nat), full_region(s).subrange(base as int, end as int));
        proof {
            lemma_region_len(s);
            let fr = full_region(s).subrange(base as int, end as int);
            assert forall|i: int| 0 <= i < add implies window[i] == fr[i] by {
                assert(zeros(add as nat)[i] == 0);
            }
            assert(window =~= full_region(s).subrange(base as int, end as int));
            assert(patch@ =~= patch@.subrange(0, start as int) + patch@.subrange(
                start as int,
                patch@.len() as int,
            ));
            assert(patch@ =~= before + window);
        }
        j = j2;
        next = next2;
        let ls = f.lit_start + lb as usize;
        extend_bytes(patch, &compact[ls..ls + copy as usize]);
        proof {
            let e = entry_at(s, k as int);
            assert(e.extra =~= compact@.subrange(ls as int, ls + copy));
            assert(e.ctl == ctl);
            assert(entries.take(k + 1).drop_last() =~= entries.take(k as int));
            assert(entries.take(k + 1).last() == e);
            assert(patch@ =~= old(patch)@ + bsdiff_bytes(entries.take(k + 1)));
        }
        base = end;
        lb = lb + copy as u64;
        k = k + 1;
    }
    proof {
        assert(entries.take(n as int) =~= entries);
    }
    Ok(())
}

} // verus!
