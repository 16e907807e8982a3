use crate::container::{entry_at, full_region, read_frame, sections_entries, sum_prefix, Sections};
use crate::control::unzigzag;
use crate::control::unzigzag_word;
use crate::decode::check_totals;
use crate::encode::extend_bytes;
use crate::error::Error;
use crate::laws::lemma_patch_room;
use crate::frame::{apply_deltas, frame_sections, frame_wf, read_frame_exec, Frame};
use crate::region::{
    delta_pos, deltas_fit, laid, lemma_region_len, lemma_sum_prefix_bound, lemma_sum_prefix_mono,
};
use crate::stream::{add_bytes, cursor_ok, lemma_run_step, next_cursor, run, run_from, Entry};
use vstd::prelude::*;

verus! {

/// Goes through controls `k..` of the sections in order, with the old-file
/// cursor at `oc`, `used` bytes written and `lb` literals taken, and fails
/// at the first control that reads past `old`, writes past `room`, takes
/// more literals than there are, or moves the cursor out of range.
pub open spec fn control_check(
    old_len: nat,
    s: Sections,
    k: nat,
    oc: int,
    used: nat,
    lb: nat,
    room: nat,
) -> Result<(), Error>
    decreases s.adds.len() - k,
{
    if k >= s.adds.len() {
        Ok(())
    } else {
        let add = s.adds[k as int] as nat;
        let copy = s.copies[k as int] as nat;
        let next = oc + add + unzigzag(s.seeks[k as int]);
        if oc + add > old_len {
            Err(Error::UnexpectedEof)
        } else if used + add > room {
            Err(Error::UnexpectedEof)
        } else if used + add + copy > room {
            Err(Error::UnexpectedEof)
        } else if lb + copy > s.literals.len() {
            Err(Error::UnexpectedEof)
        } else if !cursor_ok(next) {
            Err(Error::InvalidData)
        } else {
            control_check(old_len, s, k + 1, next, used + add + copy, lb + copy, room)
        }
    }
}

/// What applying a compact stream to `old` writes, within `room` bytes: the
/// frame is read, the controls are checked in order, and only after the last
/// one are delta bytes past the add region refused.
pub open spec fn patch_result(old: Seq<u8>, c: Seq<u8>, room: nat) -> Result<Seq<u8>, Error> {
    match read_frame(c) {
        Err(e) => Err(e),
        Ok(s) => match control_check(old.len(), s, 0, 0, 0, 0, room) {
            Err(e) => Err(e),
            Ok(_) => match sections_entries(s) {
                Err(e) => Err(e),
                Ok(es) => run(old, es, room),
            },
        },
    }
}

/// Checks the controls of a frame in order, as `control_check` does.
fn check_controls(old_len: usize, f: &Frame, c: &[u8], room: usize) -> (r: Result<(), Error>)
    requires
        frame_wf(*f, c@),
    ensures
        r == control_check(old_len as nat, frame_sections(*f, c@), 0, 0, 0, 0, room as nat),
{
    let ghost s = frame_sections(*f, c@);
    let n = f.adds.len();
    let lits = (f.lit_end - f.lit_start) as u64;
    let mut k: usize = 0;
    let mut oc: u64 = 0;
    let mut used: u64 = 0;
    let mut lb: u64 = 0;
    while k < n
        invariant
            frame_wf(*f, c@),
            s == frame_sections(*f, c@),
            n == s.adds.len(),
            lits == s.literals.len(),
            k <= n,
            used <= room,
            lb <= lits,
            oc <= i64::MAX,
            control_check(old_len as nat, s, 0, 0, 0, 0, room as nat) == control_check(
                old_len as nat,
                s,
                k as nat,
                oc as int,
                used as nat,
                lb as nat,
                room as nat,
            ),
        decreases n - k,
    {
        let add = f.adds[k] as u64;
        let copy = f.copies[k] as u64;
        let seek = unzigzag_word(f.seeks[k]);
        if oc + add > old_len as u64 {
            return Err(Error::UnexpectedEof);
        }
        if add > room as u64 - used {
            return Err(Error::UnexpectedEof);
        }
        if copy > room as u64 - used - add {
            return Err(Error::UnexpectedEof);
        }
        if copy > lits - lb {
            return Err(Error::UnexpectedEof);
        }
        let target: i128 = oc as i128 + add as i128 + seek as i128;
        if target < 0 || target > i64::MAX as i128 || target > usize::MAX as i128 {
            return Err(Error::InvalidData);
        }
        oc = target as u64;
        used = used + add + copy;
        lb = lb + copy;
        k = k + 1;
    }
    Ok(())
}

/// The outcome `r` of a patch, writing `before` into `after`, agrees with
/// `patch_result` for the given room.
pub open spec fn patch_outcome(
    old: Seq<u8>,
    c: Seq<u8>,
    room: nat,
    before: Seq<u8>,
    after: Seq<u8>,
    r: Result<(), Error>,
) -> bool {
    match patch_result(old, c, room) {
        Ok(w) => r.is_ok() && after == before + w,
        Err(e) => r == Err::<(), Error>(e),
    }
}

/// Applies a compact stream to `old`, appending what it writes to `new`,
/// and writing at most `room` bytes.
pub fn patch_within(old_data: &[u8], compact: &[u8], new: &mut Vec<u8>, room: usize) -> (r: Result<
    (),
    Error,
>)
    ensures
        patch_outcome(old_data@, compact@, room as nat, old(new)@, final(new)@, r),
{
    let f = read_frame_exec(compact)?;
    let ghost s = frame_sections(f, compact@);
    check_controls(old_data.len(), &f, compact, room)?;
    check_totals(&f, compact)?;
    let n = f.adds.len();
    let ghost entries = Seq::new(n as nat, |i: int| entry_at(s, i));
    let ghost new0 = new@;
    let mut k: usize = 0;
    let mut base: u64 = 0;
    let mut lb: u64 = 0;
    let mut j: usize = 0;
    let mut next: u64 = 0;
    let mut oc: usize = 0;
    let mut written: usize = 0;
    proof {
        lemma_sum_prefix_bound(s.adds, n as int);
        assert(n * 0xffff_ffff <= 0xffff_ffff * 0xffff_ffff) by (nonlinear_arith)
            requires
                n <= 0xffff_ffff,
        ;
        lemma_region_len(s);
        assert(new@.subrange(new0.len() as int, new@.len() as int) =~= Seq::<u8>::empty());
        assert(sections_entries(s) == Ok::<Seq<Entry>, Error>(entries));
        assert(patch_result(old_data@, compact@, room as nat) == run(old_data@, entries, room as nat));
    }
    while k < n
        invariant
            frame_wf(f, compact@),
            s == frame_sections(f, compact@),
            deltas_fit(s),
            sum_prefix(s.copies, n as int) <= s.literals.len(),
            sum_prefix(s.adds, n as int) <= u64::MAX,
            full_region(s).len() == sum_prefix(s.adds, n as int),
            n == s.adds.len(),
            entries == Seq::new(n as nat, |i: int| entry_at(s, i)),
            k <= n,
            j <= s.skips.len(),
            base == sum_prefix(s.adds, k as int),
            lb == sum_prefix(s.copies, k as int),
            next == laid(s, j as int),
            next <= base,
            j < s.skips.len() ==> delta_pos(s, j as int) >= base,
            written <= room,
            new@.len() == new0.len() + written,
            new@.subrange(0, new0.len() as int) == new0,
            patch_result(old_data@, compact@, room as nat) == run_from(
                old_data@,
                entries,
                k as nat,
                oc as int,
                new@.subrange(new0.len() as int, new@.len() as int),
                room as nat,
            ),
        decreases n - k,
    {
        let add = f.adds[k];
        let copy = f.copies[k];
        let seek = unzigzag_word(f.seeks[k]);
        proof {
            lemma_sum_prefix_mono(s.adds, k + 1, n as int);
            lemma_sum_prefix_mono(s.copies, k + 1, n as int);
        }
        let ghost e = entry_at(s, k as int);
        let ghost out = new@.subrange(new0.len() as int, new@.len() as int);
        assert(entries[k as int] == e);
        assert(e.diff.len() == add);
        proof {
            lemma_run_step(old_data@, entries, k as nat, oc as int, out, room as nat);
        }
        if add as usize > old_data.len() || oc > old_data.len() - add as usize {
            return Err(Error::UnexpectedEof);
        }
        assert(out.len() == written);
        assert(e.extra.len() == copy);
        if add as usize > room - written {
            assert(out.len() + e.diff.len() > room);
            return Err(Error::UnexpectedEof);
        }
        if copy as usize > room - written - add as usize {
            assert(out.len() + e.diff.len() + e.extra.len() > room);
            return Err(Error::UnexpectedEof);
        }
        let target: i128 = oc as i128 + add as i128 + seek as i128;
        if target < 0 || target > i64::MAX as i128 || target > usize::MAX as i128 {
            return Err(Error::InvalidData);
        }
        assert(target == next_cursor(oc as int, e));
        let end = base + add as u64;
        let oc_end = oc + add as usize;
        let start = new.len();
        let ghost before = new@;
        extend_bytes(new, &old_data[oc..oc_end]);
        proof {
            assert(new@.subrange(start as int, new@.len() as int) =~= old_data@.subrange(
                oc as int,
                oc_end as int,
            ));
        }
        let (j2, next2) = apply_deltas(
            new,
            start,
            compact,
            &f,
            base,
            end,
            j,
            next,
            Ghost(s),
            Ghost(old_data@.subrange(oc as int, oc_end as int)),
        );
        proof {
            assert(new@ =~= new@.subrange(0, start as int) + new@.subrange(
                start as int,
                new@.len() as int,
            ));
            assert(new@ =~= before + add_bytes(old_data@.subrange(oc as int, oc_end as int), e.diff));
        }
        j = j2;
        next = next2;
        let ls = f.lit_start + lb as usize;
        extend_bytes(new, &compact[ls..ls + copy as usize]);
        proof {
            assert(e.extra =~= compact@.subrange(ls as int, ls + copy));
            assert(new@.subrange(0, new0.len() as int) =~= new0);
            assert(new@.subrange(new0.len() as int, new@.len() as int) =~= out + add_bytes(
                old_data@.subrange(oc as int, oc_end as int),
                e.diff,
            ) + e.extra);
        }
        oc = target as usize;
        written = written + add as usize + copy as usize;
        base = end;
        lb = lb + copy as u64;
        k = k + 1;
    }
    assert(new@ =~= new0 + new@.subrange(new0.len() as int, new@.len() as int));
    Ok(())
}

/// Relies on `Vec::capacity`: how many elements `v` can hold without
/// reallocating, which is never less than its length.
#[verifier::external_body]
fn capacity(v: &Vec<u8>) -> (r: usize)
    ensures
        r >= v@.len(),
{
    v.capacity()
}

/// Applies a compact stream to `old`, appending the new file to `new`; it
/// never writes past the capacity that `new` had on entry.
pub fn patch(old_data: &[u8], compact: &[u8], new: &mut Vec<u8>) -> (r: Result<(), Error>)
    ensures
        exists|room: usize| patch_outcome(old_data@, compact@, room as nat, old(new)@, final(new)@, r),
        read_frame(compact@).is_err() ==> r == Err::<(), Error>(read_frame(compact@)->Err_0),
        r.is_ok() ==> final(new)@.len() >= old(new)@.len() && patch_result(
            old_data@,
            compact@,
            (final(new)@.len() - old(new)@.len()) as nat,
        ) == Ok::<Seq<u8>, Error>(final(new)@.subrange(old(new)@.len() as int, final(new)@.len() as int)),
{
    let cap = capacity(new);
    let len = new.len();
    let room = cap - len;
    let r = patch_within(old_data, compact, new, room);
    assert(patch_outcome(old_data@, compact@, room as nat, old(new)@, new@, r));
    proof {
        if r.is_ok() {
            let w = patch_result(old_data@, compact@, room as nat).unwrap();
            assert(new@.subrange(old(new)@.len() as int, new@.len() as int) =~= w);
            lemma_patch_room(old_data@, compact@, room as nat, w.len());
        }
    }
    r
}

} // verus!
