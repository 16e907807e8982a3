use crate::container::{compact_bytes, diffs_of, groups, pad4, sections_of, Sections};
use crate::control::{fits_narrow, Aehobak, Bsdiff};
use crate::encode::{counts_fit, lemma_sections_push, lemma_skips_diffs_len, EncoderState};
use crate::varint::lemma_groups_round_trip;
use crate::error::Error;
use crate::laws::{lemma_diff_applies, lemma_empty_compact};
use crate::patch::patch_result;
use crate::stream::{
    add_bytes, add_region, entries_wf, lemma_run_steps, next_cursor, run, state_after, step_ok, step_out, steps_ok, sub_bytes, Entry,
};
use vstd::prelude::*;

verus! {

/// Whether every entry of a suffix array indexes into a file of length `n`.
pub open spec fn sa_valid(sa: Seq<i32>, n: nat) -> bool {
    forall|i: int| 0 <= i < sa.len() ==> 0 <= #[trigger] sa[i] < n
}

/// Where `a` and `b` first differ at or after `i`, or the end of the shorter.
pub open spec fn prefix_from(a: Seq<u8>, b: Seq<u8>, i: int) -> int
    decreases a.len() - i,
{
    if 0 <= i < a.len() && i < b.len() && a[i] == b[i] {
        prefix_from(a, b, i + 1)
    } else {
        i
    }
}

/// Length of the common prefix of `a` and `b`.
pub open spec fn common_prefix(a: Seq<u8>, b: Seq<u8>) -> int {
    prefix_from(a, b, 0)
}

/// Whether `a` sorts before `b` lexicographically.
pub open spec fn sorts_before(a: Seq<u8>, b: Seq<u8>) -> bool {
    let m = common_prefix(a, b);
    m < a.len() && m < b.len() && a[m] < b[m]
}

proof fn lemma_prefix_from(a: Seq<u8>, b: Seq<u8>, i: int)
    requires
        0 <= i <= a.len(),
        i <= b.len(),
    ensures
        i <= prefix_from(a, b, i) <= a.len(),
        prefix_from(a, b, i) <= b.len(),
        forall|j: int| i <= j < prefix_from(a, b, i) ==> a[j] == b[j],
        prefix_from(a, b, i) < a.len() && prefix_from(a, b, i) < b.len() ==> a[prefix_from(
            a,
            b,
            i,
        )] != b[prefix_from(a, b, i)],
    decreases a.len() - i,
{
    if i < a.len() && i < b.len() && a[i] == b[i] {
        lemma_prefix_from(a, b, i + 1);
    }
}

/// The suffix of `old` that entry `k` of the suffix array starts.
pub open spec fn suffix_at(old: Seq<u8>, sa: Seq<i32>, k: int) -> Seq<u8> {
    old.subrange(sa[k] as int, old.len() as int)
}

/// The window `lo..hi` of the suffix array where the binary search for
/// `rest` ends, starting from `lo..hi`.
pub open spec fn search(old: Seq<u8>, sa: Seq<i32>, rest: Seq<u8>, lo: int, hi: int) -> (int, int)
    decreases hi - lo,
{
    if lo < hi && hi - lo > 2 {
        let mid = lo + (hi - lo - 1) / 2;
        let tail = suffix_at(old, sa, mid);
        let l = if tail.len() < rest.len() {
            tail.len()
        } else {
            rest.len()
        };
        if sorts_before(tail.take(l as int), rest.take(l as int)) {
            search(old, sa, rest, mid, hi)
        } else {
            search(old, sa, rest, lo, mid + 1)
        }
    } else {
        (lo, hi)
    }
}

/// The match of `new[scan..]` that the matcher picks: of the two suffixes
/// where the binary search ends, the one with the longer common prefix (the
/// upper one on a tie), with that prefix length.
pub open spec fn best_match(old: Seq<u8>, new: Seq<u8>, sa: Seq<i32>, scan: int) -> (int, int) {
    if sa.len() == 0 {
        (0, 0)
    } else {
        let rest = new.subrange(scan, new.len() as int);
        let (lo, hi) = search(old, sa, rest, 0, sa.len() as int);
        let a = common_prefix(suffix_at(old, sa, lo), rest);
        let b = common_prefix(suffix_at(old, sa, hi - 1), rest);
        if a > b {
            (sa[lo] as int, a)
        } else {
            (sa[hi - 1] as int, b)
        }
    }
}

/// Length of the common prefix of `a` and `b`.
fn mismatch(a: &[u8], b: &[u8]) -> (r: usize)
    ensures
        r == common_prefix(a@, b@),
        r <= a@.len(),
        r <= b@.len(),
        forall|j: int| 0 <= j < r ==> a@[j] == b@[j],
        r < a@.len() && r < b@.len() ==> a@[r as int] != b@[r as int],
{
    proof {
        lemma_prefix_from(a@, b@, 0);
    }
    let mut i: usize = 0;
    while i < a.len() && i < b.len() && a[i] == b[i]
        invariant
            i <= a@.len(),
            i <= b@.len(),
            prefix_from(a@, b@, i as int) == common_prefix(a@, b@),
        decreases a@.len() - i,
    {
        i = i + 1;
    }
    i
}

/// Whether `a` sorts before `b`.
fn lex_less(a: &[u8], b: &[u8]) -> (r: bool)
    ensures
        r == sorts_before(a@, b@),
{
    let m = mismatch(a, b);
    m < a.len() && m < b.len() && a[m] < b[m]
}

/// Matching bytes among `old[lp + j] == new[ls + j]` for `j < i`.
pub open spec fn fwd_hits(old: Seq<u8>, new: Seq<u8>, lp: int, ls: int, i: int) -> int
    decreases i,
{
    if i <= 0 {
        0
    } else {
        fwd_hits(old, new, lp, ls, i - 1) + if old[lp + i - 1] == new[ls + i - 1] {
            1int
        } else {
            0int
        }
    }
}

/// Score of an add region of length `i`: twice its matching bytes, less its length.
pub open spec fn add_score(old: Seq<u8>, new: Seq<u8>, lp: int, ls: int, i: int) -> int {
    2 * fwd_hits(old, new, lp, ls, i) - i
}

/// Matching bytes among `old[p - j] == new[s - j]` for `1 <= j <= i`.
pub open spec fn back_hits(old: Seq<u8>, new: Seq<u8>, p: int, s: int, i: int) -> int
    decreases i,
{
    if i <= 0 {
        0
    } else {
        back_hits(old, new, p, s, i - 1) + if old[p - i] == new[s - i] {
            1int
        } else {
            0int
        }
    }
}

/// Score of a backward extension of length `i`.
pub open spec fn back_score(old: Seq<u8>, new: Seq<u8>, p: int, s: int, i: int) -> int {
    2 * back_hits(old, new, p, s, i) - i
}

/// Net gain of moving the split `f` bytes forward into an overlap: bytes the
/// earlier control reproduces there, less those the later one does.
pub open spec fn overlap_gain(
    old: Seq<u8>,
    new: Seq<u8>,
    a: int,
    b: int,
    c: int,
    d: int,
    f: int,
) -> int
    decreases f,
{
    if f <= 0 {
        0
    } else {
        overlap_gain(old, new, a, b, c, d, f - 1) + (if new[a + f - 1] == old[b + f - 1] {
            1int
        } else {
            0int
        }) - (if new[c + f - 1] == old[d + f - 1] {
            1int
        } else {
            0int
        })
    }
}

/// Whether `new[j]` equals the byte `off` further on in `old`.
pub open spec fn seek_hit(old: Seq<u8>, new: Seq<u8>, off: int, j: int) -> bool {
    0 <= j + off < old.len() && 0 <= j < new.len() && old[j + off] == new[j]
}

/// Number of `j` in `from..to` with `seek_hit`: the bytes that continuing the
/// previous control at offset `off` would reproduce.
pub open spec fn seek_hits(old: Seq<u8>, new: Seq<u8>, off: int, from: int, to: int) -> int
    decreases to - from,
{
    if to <= from {
        0
    } else {
        seek_hits(old, new, off, from, to - 1) + if seek_hit(old, new, off, to - 1) {
            1int
        } else {
            0int
        }
    }
}

/// The stop the matcher's scan reaches from `scan`, with the bytes counted
/// since `scan0` up to `sub` and the last match position `pos`: the final
/// `scan`, the match position and length there, and whether a control is due.
pub open spec fn scan_stop(
    old: Seq<u8>,
    new: Seq<u8>,
    sa: Seq<i32>,
    off: int,
    scan0: int,
    scan: int,
    sub: int,
    pos: int,
) -> (int, int, int, bool)
    decreases new.len() - scan,
{
    if scan >= new.len() {
        (scan, pos, 0, true)
    } else {
        let (p, l) = best_match(old, new, sa, scan);
        let sub2 = if sub < scan + l {
            scan + l
        } else {
            sub
        };
        let sc = seek_hits(old, new, off, scan0, sub2) - seek_hits(old, new, off, scan0, scan);
        if l != 0 && (l == sc || l > sc + 8) {
            (scan, p, l, l != sc)
        } else {
            scan_stop(old, new, sa, off, scan0, scan + 1, sub2, p)
        }
    }
}

/// The add length `calc_add` picks, from length `i` with `add` best so far.
pub open spec fn add_pick(old: Seq<u8>, new: Seq<u8>, lp: int, ls: int, scan: int, i: int, add: int) -> int
    decreases scan - ls - i,
{
    if ls + i < scan && lp + i < old.len() {
        let add2 = if add_score(old, new, lp, ls, i + 1) >= add_score(old, new, lp, ls, add) {
            i + 1
        } else {
            add
        };
        add_pick(old, new, lp, ls, scan, i + 1, add2)
    } else {
        add
    }
}

/// The backward length `calc_back` picks, from length `i` with `back` best so far.
pub open spec fn back_pick(old: Seq<u8>, new: Seq<u8>, p: int, s: int, ls: int, i: int, back: int) -> int
    decreases s - ls + 1 - i,
{
    if s >= ls + i && p >= i && i >= 1 {
        let back2 = if back_score(old, new, p, s, i) > back_score(old, new, p, s, back) {
            i
        } else {
            back
        };
        back_pick(old, new, p, s, ls, i + 1, back2)
    } else {
        back
    }
}

/// The forward move `optimize_overlap` picks over an overlap of `ov` bytes.
pub open spec fn overlap_pick(
    old: Seq<u8>,
    new: Seq<u8>,
    a: int,
    b: int,
    c: int,
    d: int,
    ov: int,
    i: int,
    forward: int,
) -> int
    decreases ov - i,
{
    if i < ov {
        let f2 = if overlap_gain(old, new, a, b, c, d, i + 1) > overlap_gain(old, new, a, b, c, d, forward) {
            i + 1
        } else {
            forward
        };
        overlap_pick(old, new, a, b, c, d, ov, i + 1, f2)
    } else {
        forward
    }
}

/// The add and back lengths after the overlap between them is resolved.
pub open spec fn overlap_fix(
    old: Seq<u8>,
    new: Seq<u8>,
    ls: int,
    lp: int,
    s: int,
    p: int,
    add: int,
    back: int,
) -> (int, int) {
    if ls + add > s - back {
        let ov = ls + add - (s - back);
        let f = overlap_pick(old, new, ls + add - ov, lp + add - ov, s - back, p - back, ov, 0, 0);
        (add - ov + f, back - f)
    } else {
        (add, back)
    }
}

/// The records the greedy matcher emits from cursors `(scan, len, pos,
/// last_scan, last_pos, last_offset)`, after `es`, within `fuel` steps.
pub open spec fn records_from(
    old: Seq<u8>,
    new: Seq<u8>,
    sa: Seq<i32>,
    st: (int, int, int, int, int, int),
    es: Seq<Entry>,
    fuel: nat,
) -> Seq<Entry>
    decreases fuel,
{
    let (scan, len, pos, ls, lp, off) = st;
    if fuel == 0 || scan >= new.len() {
        es
    } else {
        let (s2, p2, l2, r) = scan_stop(old, new, sa, off, scan + len, scan + len, scan + len, pos);
        if !r {
            records_from(old, new, sa, (s2, l2, p2, ls, lp, off), es, (fuel - 1) as nat)
        } else {
            let add0 = add_pick(old, new, lp, ls, s2, 0, 0);
            let back0 = if s2 >= new.len() {
                0
            } else {
                back_pick(old, new, p2, s2, ls, 1, 0)
            };
            let (add, back) = overlap_fix(old, new, ls, lp, s2, p2, add0, back0);
            let copy = s2 - back - (ls + add);
            let seek = (p2 - lp) - (back + add);
            let e = Entry {
                ctl: Bsdiff { add: add as u64, copy: copy as u64, seek: seek as i64 },
                diff: sub_bytes(new.subrange(ls, ls + add), old.subrange(lp, lp + add)),
                extra: new.subrange(ls + add, ls + add + copy),
            };
            records_from(
                old,
                new,
                sa,
                (s2, l2, p2, s2 - back, p2 - back, p2 - s2),
                es.push(e),
                (fuel - 1) as nat,
            )
        }
    }
}

/// The records `diff` emits for `old` and `new` with suffix array `sa`.
pub open spec fn diff_records(old: Seq<u8>, new: Seq<u8>, sa: Seq<i32>) -> Seq<Entry> {
    records_from(old, new, sa, (0, 0, 0, 0, 0, 0), seq![], new.len() + 2)
}

/// The greedy matcher's cursors into `new` (`scan`, `last_scan`) and `old`
/// (`pos`, `last_pos`), with the current match length.
struct ScanState {
    scan: usize,
    len: usize,
    pos: usize,
    last_scan: usize,
    last_pos: usize,
    last_offset: i64,
}

impl ScanState {
    spec fn inv(&self, on: nat, nn: nat) -> bool {
        &&& on <= i32::MAX
        &&& nn <= i32::MAX
        &&& self.last_scan <= self.scan <= nn
        &&& self.scan + self.len <= nn
        &&& self.pos + self.len <= on
        &&& self.last_pos <= on
        &&& -(nn as int) <= self.last_offset <= on
        &&& self.last_offset == self.last_pos - self.last_scan
    }

    /// Progress measure of the outer loop.
    spec fn measure(&self, nn: nat) -> nat {
        if self.scan >= nn {
            0
        } else {
            (nn + 1 - self.scan - self.len) as nat
        }
    }

    fn new() -> (r: ScanState)
        ensures
            r.scan == 0 && r.len == 0 && r.pos == 0 && r.last_scan == 0 && r.last_pos == 0
                && r.last_offset == 0,
    {
        ScanState { scan: 0, len: 0, pos: 0, last_scan: 0, last_pos: 0, last_offset: 0 }
    }

    fn done(&self, new: &[u8]) -> (r: bool)
        ensures
            r == (self.scan >= new@.len()),
    {
        self.scan >= new.len()
    }

    /// The best match of `new[scan..]` in `old`, by binary search over the
    /// suffix array and a look at the two suffixes it ends between.
    fn find_best_match(&self, old_data: &[u8], new: &[u8], sa: &[i32]) -> (r: (usize, usize))
        requires
            self.scan < new@.len(),
            sa_valid(sa@, old_data@.len()),
        ensures
            (r.0 as int, r.1 as int) == best_match(old_data@, new@, sa@, self.scan as int),
            r.0 + r.1 <= old_data@.len(),
            r.1 <= new@.len() - self.scan,
            old_data@.subrange(r.0 as int, r.0 + r.1) == new@.subrange(
                self.scan as int,
                self.scan + r.1,
            ),
            sa@.len() > 0 ==> (r.0 + r.1 == old_data@.len() || self.scan + r.1 == new@.len()
                || old_data@[r.0 + r.1] != new@[self.scan + r.1]),
    {
        if sa.len() == 0 {
            proof {
                assert(old_data@.subrange(0, 0) =~= new@.subrange(self.scan as int, self.scan as int));
            }
            return (0, 0);
        }
        let rest = &new[self.scan..new.len()];
        let mut lo: usize = 0;
        let mut hi: usize = sa.len();
        while hi - lo > 2
            invariant
                lo < hi <= sa@.len(),
                sa_valid(sa@, old_data@.len()),
                rest@ == new@.subrange(self.scan as int, new@.len() as int),
                search(old_data@, sa@, rest@, lo as int, hi as int) == search(
                    old_data@,
                    sa@,
                    rest@,
                    0,
                    sa@.len() as int,
                ),
            decreases hi - lo,
        {
            let mid = lo + (hi - lo - 1) / 2;
            let start = sa[mid] as usize;
            let tail = &old_data[start..old_data.len()];
            let l = if tail.len() < rest.len() {
                tail.len()
            } else {
                rest.len()
            };
            if lex_less(&tail[0..l], &rest[0..l]) {
                lo = mid;
            } else {
                hi = mid + 1;
            }
        }
        let a_start = sa[lo] as usize;
        let b_start = sa[hi - 1] as usize;
        let a = mismatch(&old_data[a_start..old_data.len()], rest);
        let b = mismatch(&old_data[b_start..old_data.len()], rest);
        let (p, l) = if a > b {
            (a_start, a)
        } else {
            (b_start, b)
        };
        proof {
            let t = old_data@.subrange(p as int, old_data@.len() as int);
            assert forall|j: int| 0 <= j < l implies #[trigger] old_data@.subrange(p as int, p + l)[j]
                == new@.subrange(self.scan as int, self.scan + l)[j] by {
                assert(t[j] == rest@[j]);
            }
            assert(old_data@.subrange(p as int, p + l) =~= new@.subrange(
                self.scan as int,
                self.scan + l,
            ));
            if p + l < old_data@.len() && self.scan + l < new@.len() {
                assert(t[l as int] == old_data@[p + l]);
                assert(rest@[l as int] == new@[self.scan + l]);
            }
        }
        (p, l)
    }

    /// Moves `scan` forward to the next place worth a new control; returns
    /// whether a control is to be emitted there. Where `scan` runs off the end
    /// of `new`, the last match found stays as it was, with no length.
    fn advance(&mut self, old_data: &[u8], new: &[u8], sa: &[i32]) -> (r: bool)
        requires
            old(self).inv(old_data@.len(), new@.len()),
            sa_valid(sa@, old_data@.len()),
        ensures
            final(self).inv(old_data@.len(), new@.len()),
            final(self).scan >= old(self).scan + old(self).len,
            final(self).last_scan == old(self).last_scan,
            final(self).last_pos == old(self).last_pos,
            final(self).last_offset == old(self).last_offset,
            final(self).scan < new@.len() ==> final(self).len > 0,
            !r ==> final(self).scan < new@.len(),
            final(self).scan >= new@.len() ==> r && final(self).len == 0,
            (final(self).scan as int, final(self).pos as int, final(self).len as int, r) == scan_stop(
                old_data@,
                new@,
                sa@,
                old(self).last_offset as int,
                old(self).scan + old(self).len,
                old(self).scan + old(self).len,
                old(self).scan + old(self).len,
                old(self).pos as int,
            ),
            final(self).scan < new@.len() ==> (final(self).pos as int, final(self).len as int)
                == best_match(old_data@, new@, sa@, final(self).scan as int),
            final(self).scan < new@.len() ==> exists|sub: int|
                final(self).scan + final(self).len <= sub <= new@.len() && ({
                    let sc = #[trigger] seek_hits(
                        old_data@,
                        new@,
                        old(self).last_offset as int,
                        old(self).scan + old(self).len,
                        sub,
                    ) - seek_hits(
                        old_data@,
                        new@,
                        old(self).last_offset as int,
                        old(self).scan + old(self).len,
                        final(self).scan as int,
                    );
                    (final(self).len == sc || final(self).len > sc + 8) && r == (final(self).len
                        != sc)
                }),
    {
        let mut score: i64 = 0;
        self.scan = self.scan + self.len;
        let mut subscan = self.scan;
        let ghost scan0 = self.scan;
        self.len = 0;
        while self.scan < new.len()
            invariant_except_break
                scan_stop(
                    old_data@,
                    new@,
                    sa@,
                    self.last_offset as int,
                    scan0 as int,
                    self.scan as int,
                    subscan as int,
                    self.pos as int,
                ) == scan_stop(
                    old_data@,
                    new@,
                    sa@,
                    old(self).last_offset as int,
                    old(self).scan + old(self).len,
                    old(self).scan + old(self).len,
                    old(self).scan + old(self).len,
                    old(self).pos as int,
                ),
            invariant
                old_data@.len() <= i32::MAX,
                new@.len() <= i32::MAX,
                self.last_scan <= self.scan <= new@.len(),
                self.scan + self.len <= new@.len() + 1,
                self.pos + self.len <= old_data@.len(),
                self.last_pos <= old_data@.len(),
                -(new@.len() as int) <= self.last_offset <= old_data@.len(),
                sa_valid(sa@, old_data@.len()),
                scan0 <= self.scan,
                self.scan >= old(self).scan + old(self).len,
                self.last_scan == old(self).last_scan,
                self.last_pos == old(self).last_pos,
                self.last_offset == old(self).last_offset,
                scan0 <= subscan <= new@.len(),
                -(self.scan - scan0) <= score <= subscan - scan0,
                score == seek_hits(old_data@, new@, self.last_offset as int, scan0 as int, subscan as int)
                    - seek_hits(old_data@, new@, self.last_offset as int, scan0 as int, self.scan as int),
            ensures
                self.scan < new@.len() ==> self.len > 0 && self.scan + self.len <= new@.len(),
                self.scan < new@.len() ==> (self.pos as int, self.len as int) == best_match(
                    old_data@,
                    new@,
                    sa@,
                    self.scan as int,
                ),
                self.scan < new@.len() ==> self.scan + self.len <= subscan && (self.len == score
                    || self.len > score + 8),
                (self.scan as int, self.pos as int, (if self.scan < new@.len() {
                    self.len as int
                } else {
                    0
                }), self.scan >= new@.len() || self.len != score) == scan_stop(
                    old_data@,
                    new@,
                    sa@,
                    old(self).last_offset as int,
                    old(self).scan + old(self).len,
                    old(self).scan + old(self).len,
                    old(self).scan + old(self).len,
                    old(self).pos as int,
                ),
            decreases new@.len() - self.scan,
        {
            let ghost (sub_in, pos_in) = (subscan as int, self.pos as int);
            let (pos, len) = self.find_best_match(old_data, new, sa);
            self.pos = pos;
            self.len = len;
            let scan_limit = self.scan + self.len;
            while subscan < scan_limit
                invariant
                    scan_limit <= new@.len(),
                    scan0 <= subscan <= new@.len(),
                    -(self.scan - scan0) <= score <= subscan - scan0,
                    -(new@.len() as int) <= self.last_offset <= old_data@.len(),
                    new@.len() <= i32::MAX,
                    old_data@.len() <= i32::MAX,
                    scan0 <= self.scan,
                    score == seek_hits(old_data@, new@, self.last_offset as int, scan0 as int, subscan as int)
                        - seek_hits(old_data@, new@, self.last_offset as int, scan0 as int, self.scan as int),
                    subscan == sub_in || (sub_in < subscan <= scan_limit),
                ensures
                    subscan >= scan_limit,
                decreases scan_limit - subscan,
            {
                let idx = subscan as i64 + self.last_offset;
                if 0 <= idx && idx < old_data.len() as i64 && old_data[idx as usize] == new[subscan] {
                    score = score + 1;
                }
                subscan = subscan + 1;
            }
            proof {
                let st = scan_stop(
                    old_data@,
                    new@,
                    sa@,
                    self.last_offset as int,
                    scan0 as int,
                    self.scan as int,
                    sub_in,
                    pos_in,
                );
                let l = self.len as int;
                let sub2 = if sub_in < self.scan + l {
                    self.scan + l
                } else {
                    sub_in
                };
                assert(sub2 == subscan);
                if l != 0 && (l == score || l > score + 8) {
                    assert(st == (self.scan as int, self.pos as int, l, l != score));
                } else {
                    assert(st == scan_stop(
                        old_data@,
                        new@,
                        sa@,
                        self.last_offset as int,
                        scan0 as int,
                        self.scan + 1,
                        subscan as int,
                        self.pos as int,
                    ));
                }
            }
            if (self.len as i64 == score && self.len != 0) || (self.len as i64 > score + 8
                && self.len != 0) {
                break ;
            }
            let idx = self.scan as i64 + self.last_offset;
            if 0 <= idx && idx < old_data.len() as i64 && old_data[idx as usize] == new[self.scan] {
                score = score - 1;
            }
            self.scan = self.scan + 1;
        }
        let r = self.len as i64 != score || self.scan == new.len();
        if self.scan >= new.len() {
            self.len = 0;
        }
        proof {
            if self.scan < new@.len() {
                let sub = subscan as int;
                assert(self.scan + self.len <= sub <= new@.len());
            }
        }
        r
    }

    /// Length of the add region of the control being emitted: the length,
    /// up to where `scan` or `old` ends, with the best add score, the longest
    /// on a tie.
    fn calc_add(&self, old_data: &[u8], new: &[u8]) -> (r: usize)
        requires
            self.inv(old_data@.len(), new@.len()),
        ensures
            r == add_pick(
                old_data@,
                new@,
                self.last_pos as int,
                self.last_scan as int,
                self.scan as int,
                0,
                0,
            ),
            self.last_scan + r <= self.scan,
            self.last_pos + r <= old_data@.len(),
            forall|i: int|
                0 <= i <= self.scan - self.last_scan && self.last_pos + i <= old_data@.len()
                    ==> #[trigger] add_score(
                    old_data@,
                    new@,
                    self.last_pos as int,
                    self.last_scan as int,
                    i,
                ) <= add_score(old_data@, new@, self.last_pos as int, self.last_scan as int, r as int),
            forall|i: int|
                r < i <= self.scan - self.last_scan && self.last_pos + i <= old_data@.len()
                    ==> #[trigger] add_score(
                    old_data@,
                    new@,
                    self.last_pos as int,
                    self.last_scan as int,
                    i,
                ) < add_score(old_data@, new@, self.last_pos as int, self.last_scan as int, r as int),
    {
        let ghost lp = self.last_pos as int;
        let ghost ls = self.last_scan as int;
        let mut add: usize = 0;
        let mut score: i64 = 0;
        let mut best: i64 = 0;
        let mut i: usize = 0;
        while self.last_scan + i < self.scan && self.last_pos + i < old_data.len()
            invariant
                self.inv(old_data@.len(), new@.len()),
                lp == self.last_pos,
                ls == self.last_scan,
                self.last_scan + i <= self.scan,
                self.last_pos + i <= old_data@.len(),
                add <= i,
                score == fwd_hits(old_data@, new@, lp, ls, i as int),
                best == fwd_hits(old_data@, new@, lp, ls, add as int),
                add_pick(old_data@, new@, lp, ls, self.scan as int, i as int, add as int) == add_pick(
                    old_data@,
                    new@,
                    lp,
                    ls,
                    self.scan as int,
                    0,
                    0,
                ),
                0 <= score <= i,
                0 <= best <= add,
                forall|k: int|
                    0 <= k <= i ==> #[trigger] add_score(old_data@, new@, lp, ls, k) <= add_score(
                        old_data@,
                        new@,
                        lp,
                        ls,
                        add as int,
                    ),
                forall|k: int|
                    add < k <= i ==> #[trigger] add_score(old_data@, new@, lp, ls, k) < add_score(
                        old_data@,
                        new@,
                        lp,
                        ls,
                        add as int,
                    ),
            decreases self.scan - self.last_scan - i,
        {
            if old_data[self.last_pos + i] == new[self.last_scan + i] {
                score = score + 1;
            }
            i = i + 1;
            if score * 2 - i as i64 >= best * 2 - add as i64 {
                best = score;
                add = i;
            }
        }
        add
    }

    /// Length by which the current match extends backwards: the length, up to
    /// `last_scan` or the start of `old`, with the best backward score, the
    /// shortest on a tie; none at the end of `new`.
    fn calc_back(&self, old_data: &[u8], new: &[u8]) -> (r: usize)
        requires
            self.inv(old_data@.len(), new@.len()),
        ensures
            self.last_scan + r <= self.scan,
            r <= self.pos,
            self.scan >= new@.len() ==> r == 0,
            self.scan < new@.len() ==> r == back_pick(
                old_data@,
                new@,
                self.pos as int,
                self.scan as int,
                self.last_scan as int,
                1,
                0,
            ),
            self.scan < new@.len() ==> forall|i: int|
                0 <= i && self.last_scan + i <= self.scan && i <= self.pos ==> #[trigger] back_score(
                    old_data@,
                    new@,
                    self.pos as int,
                    self.scan as int,
                    i,
                ) <= back_score(old_data@, new@, self.pos as int, self.scan as int, r as int),
            self.scan < new@.len() ==> forall|i: int|
                0 <= i < r ==> #[trigger] back_score(
                    old_data@,
                    new@,
                    self.pos as int,
                    self.scan as int,
                    i,
                ) < back_score(old_data@, new@, self.pos as int, self.scan as int, r as int),
    {
        if self.scan >= new.len() {
            return 0;
        }
        let ghost p = self.pos as int;
        let ghost sc = self.scan as int;
        let mut back: usize = 0;
        let mut score: i64 = 0;
        let mut best: i64 = 0;
        let mut i: usize = 1;
        while self.scan >= self.last_scan + i && self.pos >= i
            invariant
                self.inv(old_data@.len(), new@.len()),
                p == self.pos,
                sc == self.scan,
                self.scan < new@.len(),
                1 <= i,
                self.last_scan + i - 1 <= self.scan,
                i - 1 <= self.pos,
                back < i,
                self.last_scan + back <= self.scan,
                back <= self.pos,
                score == back_hits(old_data@, new@, p, sc, i - 1),
                best == back_hits(old_data@, new@, p, sc, back as int),
                back_pick(old_data@, new@, p, sc, self.last_scan as int, i as int, back as int)
                    == back_pick(old_data@, new@, p, sc, self.last_scan as int, 1, 0),
                0 <= score < i,
                0 <= best <= back,
                forall|k: int|
                    0 <= k < i ==> #[trigger] back_score(old_data@, new@, p, sc, k) <= back_score(
                        old_data@,
                        new@,
                        p,
                        sc,
                        back as int,
                    ),
                forall|k: int|
                    0 <= k < back ==> #[trigger] back_score(old_data@, new@, p, sc, k) < back_score(
                        old_data@,
                        new@,
                        p,
                        sc,
                        back as int,
                    ),
            decreases self.scan + 1 - i,
        {
            if old_data[self.pos - i] == new[self.scan - i] {
                score = score + 1;
            }
            if score * 2 - i as i64 > best * 2 - back as i64 {
                best = score;
                back = i;
            }
            i = i + 1;
        }
        back
    }

    /// Moves the split between this control's add region and the current
    /// match's backward extension where the two overlap: the split moves
    /// forward by the first offset with the best net gain.
    fn optimize_overlap(&self, old_data: &[u8], new: &[u8], add: usize, back: usize) -> (r: (
        usize,
        usize,
    ))
        requires
            self.inv(old_data@.len(), new@.len()),
            self.last_scan + add <= self.scan,
            self.last_pos + add <= old_data@.len(),
            self.last_scan + back <= self.scan,
            back <= self.pos,
        ensures
            self.last_scan + r.0 + r.1 <= self.scan,
            self.last_pos + r.0 <= old_data@.len(),
            r.1 <= back,
            (r.0 as int, r.1 as int) == overlap_fix(
                old_data@,
                new@,
                self.last_scan as int,
                self.last_pos as int,
                self.scan as int,
                self.pos as int,
                add as int,
                back as int,
            ),
            self.last_scan + add <= self.scan - back ==> r == (add, back),
            self.last_scan + add > self.scan - back ==> ({
                let ov = self.last_scan + add - (self.scan - back);
                let f = back - r.1;
                let (a, b, c, d) = (
                    self.last_scan + add - ov,
                    self.last_pos + add - ov,
                    self.scan - back,
                    self.pos - back,
                );
                &&& 0 <= f <= ov
                &&& r.0 == add - ov + f
                &&& self.last_scan + r.0 == self.scan - r.1
                &&& forall|g: int|
                    0 <= g <= ov ==> #[trigger] overlap_gain(old_data@, new@, a, b, c, d, g)
                        <= overlap_gain(old_data@, new@, a, b, c, d, f)
                &&& forall|g: int|
                    0 <= g < f ==> #[trigger] overlap_gain(old_data@, new@, a, b, c, d, g)
                        < overlap_gain(old_data@, new@, a, b, c, d, f)
            }),
    {
        if self.last_scan + add > self.scan - back {
            let overlap = self.last_scan + add - (self.scan - back);
            let ghost (ga, gb, gc, gd) = (
                (self.last_scan + add - overlap) as int,
                (self.last_pos + add - overlap) as int,
                (self.scan - back) as int,
                (self.pos - back) as int,
            );
            let mut score: i64 = 0;
            let mut best: i64 = 0;
            let mut forward: usize = 0;
            let mut i: usize = 0;
            while i < overlap
                invariant
                    self.inv(old_data@.len(), new@.len()),
                    overlap <= add,
                    overlap <= back,
                    self.last_scan + add <= self.scan,
                    self.last_pos + add <= old_data@.len(),
                    back <= self.pos,
                    overlap == self.last_scan + add - (self.scan - back),
                    ga == self.last_scan + add - overlap,
                    gb == self.last_pos + add - overlap,
                    gc == self.scan - back,
                    gd == self.pos - back,
                    i <= overlap,
                    forward <= i,
                    score == overlap_gain(old_data@, new@, ga, gb, gc, gd, i as int),
                    best == overlap_gain(old_data@, new@, ga, gb, gc, gd, forward as int),
                    overlap_pick(old_data@, new@, ga, gb, gc, gd, overlap as int, i as int, forward as int)
                        == overlap_pick(old_data@, new@, ga, gb, gc, gd, overlap as int, 0, 0),
                    -(i as int) <= score <= i,
                    0 <= best <= i,
                    forall|g: int|
                        0 <= g <= i ==> #[trigger] overlap_gain(old_data@, new@, ga, gb, gc, gd, g)
                            <= best,
                    forall|g: int|
                        0 <= g < forward ==> #[trigger] overlap_gain(
                            old_data@,
                            new@,
                            ga,
                            gb,
                            gc,
                            gd,
                            g,
                        ) < best,
                decreases overlap - i,
            {
                if new[self.last_scan + add - overlap + i] == old_data[self.last_pos + add - overlap
                    + i] {
                    score = score + 1;
                }
                if new[self.scan - back + i] == old_data[self.pos - back + i] {
                    score = score - 1;
                }
                if score > best {
                    best = score;
                    forward = i + 1;
                }
                i = i + 1;
            }
            (add + forward - overlap, back - forward)
        } else {
            (add, back)
        }
    }

    /// The copy length and the seek of the control being emitted.
    fn calc_copy_seek(&self, add: usize, back: usize) -> (r: Result<(usize, i64), Error>)
        ensures
            r.is_ok() <==> (back <= self.scan && self.last_scan + add <= self.scan - back
                && i64::MIN <= (self.pos - self.last_pos) - (back + add) <= i64::MAX),
            r.is_ok() ==> r.unwrap().0 == self.scan - back - (self.last_scan + add) && r.unwrap().1
                == (self.pos - self.last_pos) - (back + add),
            r.is_err() ==> r == Err::<(usize, i64), Error>(Error::InvalidData),
    {
        if back > self.scan || self.last_scan as u128 + add as u128 > (self.scan - back) as u128 {
            return Err(Error::InvalidData);
        }
        let copy = self.scan - back - (self.last_scan + add);
        let seek: i128 = (self.pos as i128 - self.last_pos as i128) - (back as i128 + add as i128);
        if seek < i64::MIN as i128 || seek > i64::MAX as i128 {
            return Err(Error::InvalidData);
        }
        Ok((copy, seek as i64))
    }

    fn old_add_slice<'a>(&self, old_data: &'a [u8], new: &[u8], add: usize) -> (r: &'a [u8])
        requires
            old_data@.len() <= i32::MAX,
            new@.len() <= i32::MAX,
            self.last_pos + add <= old_data@.len(),
        ensures
            r@ == old_data@.subrange(self.last_pos as int, self.last_pos + add),
    {
        &old_data[self.last_pos..self.last_pos + add]
    }

    fn new_add_slice<'a>(&self, old_data: &[u8], new: &'a [u8], add: usize) -> (r: &'a [u8])
        requires
            old_data@.len() <= i32::MAX,
            new@.len() <= i32::MAX,
            self.last_scan + add <= new@.len(),
        ensures
            r@ == new@.subrange(self.last_scan as int, self.last_scan + add),
    {
        &new[self.last_scan..self.last_scan + add]
    }

    fn new_copy_slice<'a>(&self, old_data: &[u8], new: &'a [u8], add: usize, copy: usize) -> (r: &'a [u8])
        requires
            old_data@.len() <= i32::MAX,
            new@.len() <= i32::MAX,
            self.last_scan + add + copy <= new@.len(),
        ensures
            r@ == new@.subrange(self.last_scan + add, self.last_scan + add + copy),
    {
        &new[self.last_scan + add..self.last_scan + add + copy]
    }

    /// Starts the next control where the current match, extended back, begins.
    fn commit(&mut self, back: usize)
        requires
            back <= old(self).scan,
            back <= old(self).pos,
            old(self).scan <= i32::MAX,
            old(self).pos <= i32::MAX,
        ensures
            final(self).last_scan == old(self).scan - back,
            final(self).last_pos == old(self).pos - back,
            final(self).last_offset == old(self).pos - old(self).scan,
            final(self).scan == old(self).scan,
            final(self).len == old(self).len,
            final(self).pos == old(self).pos,
    {
        self.last_scan = self.scan - back;
        self.last_pos = self.pos - back;
        self.last_offset = self.pos as i64 - self.scan as i64;
    }
}

proof fn lemma_add_sub(o: Seq<u8>, n: Seq<u8>)
    requires
        o.len() == n.len(),
    ensures
        add_bytes(o, sub_bytes(n, o)) =~= n,
{
    assert forall|i: int| 0 <= i < n.len() implies add_bytes(o, sub_bytes(n, o))[i] == n[i] by {
        let d = sub_bytes(n, o)[i];
        if n[i] >= o[i] {
            assert(d == n[i] - o[i]);
        } else {
            assert(d == n[i] - o[i] + 256);
        }
    }
}

proof fn lemma_diffs_len(a: Seq<u8>)
    ensures
        diffs_of(a).len() <= a.len(),
    decreases a.len(),
{
    if a.len() > 0 {
        lemma_diffs_len(a.drop_last());
    }
}

proof fn lemma_pad4_len(v: Seq<u32>)
    ensures
        pad4(v).len() == groups(v.len()) * 4,
        pad4(v).len() <= v.len() + 3,
        pad4(v).len() % 4 == 0,
{
}

/// Sections of moderate size fit the prefix and the coder's buffers.
proof fn lemma_counts_fit(s: Sections, n: nat)
    requires
        n < 0x0fff_0000,
        s.adds.len() <= n + 1,
        s.copies.len() == s.adds.len(),
        s.seeks.len() == s.adds.len(),
        s.skips.len() <= n,
        s.diffs.len() == s.skips.len(),
        s.literals.len() <= n,
    ensures
        counts_fit(s),
{
    lemma_pad4_len(s.adds);
    lemma_pad4_len(s.copies);
    lemma_pad4_len(s.skips);
    lemma_pad4_len(s.seeks);
    lemma_groups_round_trip(pad4(s.adds), seq![]);
    lemma_groups_round_trip(pad4(s.copies), seq![]);
    lemma_groups_round_trip(pad4(s.skips), seq![]);
    lemma_groups_round_trip(pad4(s.seeks), seq![]);
}

fn check_sa(sa: &[i32], n: usize) -> (r: bool)
    ensures
        r == sa_valid(sa@, n as nat),
{
    let mut i: usize = 0;
    while i < sa.len()
        invariant
            i <= sa@.len(),
            forall|k: int| 0 <= k < i ==> 0 <= #[trigger] sa@[k] < n,
        decreases sa@.len() - i,
    {
        if sa[i] < 0 || sa[i] as usize >= n {
            return false;
        }
        i = i + 1;
    }
    true
}

/// Builds the compact form of a patch from `old` to `new` directly, by
/// greedy matching over `sa`, a suffix array of `old`, and appends it to
/// `patch`. Files over `i32::MAX` bytes, and a suffix array with an entry
/// outside `old`, are refused.
#[verifier::rlimit(80)]
pub fn diff(old_data: &[u8], new: &[u8], sa: &[i32], patch: &mut Vec<u8>) -> (r: Result<(), Error>)
    ensures
        r.is_err() ==> r == Err::<(), Error>(Error::InvalidData),
        old_data@.len() > i32::MAX ==> r.is_err(),
        new@.len() > i32::MAX ==> r.is_err(),
        !sa_valid(sa@, old_data@.len()) ==> r.is_err(),
        r.is_ok() ==> final(patch)@.subrange(0, old(patch)@.len() as int) == old(patch)@,
        r.is_ok() ==> patch_result(
            old_data@,
            final(patch)@.subrange(old(patch)@.len() as int, final(patch)@.len() as int),
            new@.len(),
        ) == Ok::<Seq<u8>, Error>(new@),
        old_data@.len() <= i32::MAX && new@.len() < 0x0fff_0000 && sa_valid(sa@, old_data@.len())
            ==> r.is_ok(),
        old_data@.len() <= i32::MAX && new@.len() <= i32::MAX && sa_valid(sa@, old_data@.len())
            ==> (r.is_ok() <==> counts_fit(sections_of(diff_records(old_data@, new@, sa@)))),
        r.is_ok() ==> final(patch)@ == old(patch)@ + compact_bytes(
            sections_of(diff_records(old_data@, new@, sa@)),
        ),
        run(old_data@, diff_records(old_data@, new@, sa@), new@.len()) == Ok::<Seq<u8>, Error>(new@)
            || r.is_err(),
        old_data@.len() <= i32::MAX && new@.len() == 0 && sa_valid(sa@, old_data@.len()) ==> r.is_ok()
            && final(patch)@ == old(patch)@ + seq![0u8],
{
    if old_data.len() > i32::MAX as usize || new.len() > i32::MAX as usize {
        return Err(Error::InvalidData);
    }
    if !check_sa(sa, old_data.len()) {
        return Err(Error::InvalidData);
    }
    let ghost on = old_data@.len();
    let ghost nn = new@.len();
    let mut st = ScanState::new();
    let mut enc = EncoderState::new(new.len());
    let ghost mut es: Seq<Entry> = seq![];
    let ghost mut fuel: nat = (new@.len() + 2) as nat;
    proof {
        assert(new@.subrange(0, 0) =~= Seq::<u8>::empty());
        assert(add_region(es) =~= Seq::<u8>::empty());
    }
    while !st.done(new)
        invariant
            on == old_data@.len(),
            nn == new@.len(),
            st.inv(on, nn),
            sa_valid(sa@, on),
            enc.wf(),
            enc@ == sections_of(es),
            enc.region() == add_region(es),
            entries_wf(es),
            forall|k: int| 0 <= k < es.len() ==> fits_narrow(#[trigger] es[k].ctl),
            steps_ok(old_data@, es, nn),
            state_after(old_data@, es) == (st.last_pos as int, new@.subrange(0, st.last_scan as int)),
            enc.region().len() + enc@.literals.len() == st.last_scan,
            st.scan >= nn ==> st.last_scan == nn,
            es.len() + st.measure(nn) <= nn + 1,
            nn == 0 ==> es.len() == 0,
            fuel >= st.measure(nn) + 1,
            diff_records(old_data@, new@, sa@) == records_from(
                old_data@,
                new@,
                sa@,
                (
                    st.scan as int,
                    st.len as int,
                    st.pos as int,
                    st.last_scan as int,
                    st.last_pos as int,
                    st.last_offset as int,
                ),
                es,
                fuel,
            ),
        decreases st.measure(nn),
    {
        if !st.advance(old_data, new, sa) {
            proof {
                fuel = (fuel - 1) as nat;
            }
            continue;
        }
        let add0 = st.calc_add(old_data, new);
        let back0 = st.calc_back(old_data, new);
        let (add, back) = st.optimize_overlap(old_data, new, add0, back0);
        let (copy, seek) = match st.calc_copy_seek(add, back) {
            Ok(x) => x,
            Err(e) => return Err(e),
        };
        let ctl = Aehobak { add: add as u32, copy: copy as u32, seek: seek as i32 };
        let ghost ls = st.last_scan as int;
        let ghost lp = st.last_pos as int;
        let ghost e = Entry {
            ctl: Bsdiff { add: add as u64, copy: copy as u64, seek: seek },
            diff: sub_bytes(new@.subrange(ls, ls + add), old_data@.subrange(lp, lp + add)),
            extra: new@.subrange(ls + add, ls + add + copy),
        };
        enc.control(ctl);
        enc.add(st.old_add_slice(old_data, new, add), st.new_add_slice(old_data, new, add));
        enc.copy(st.new_copy_slice(old_data, new, add, copy));
        proof {
            lemma_sections_push(es, e);
            let nes = es.push(e);
            assert(nes.drop_last() =~= es);
            assert(nes.last() == e);
            lemma_add_sub(old_data@.subrange(lp, lp + add), new@.subrange(ls, ls + add));
            assert(step_out(old_data@, lp, new@.subrange(0, ls), e) =~= new@.subrange(
                0,
                ls + add + copy,
            ));
            assert(step_ok(old_data@, lp, new@.subrange(0, ls), e, nn));
            assert(next_cursor(lp, e) == st.pos - back);
            assert forall|k: int| 0 <= k < nes.len() implies fits_narrow(#[trigger] nes[k].ctl) by {
                if k < es.len() {
                    assert(nes[k] == es[k]);
                }
            }
            assert(enc@ == sections_of(nes));
            es = nes;
        }
        st.commit(back);
        proof {
            fuel = (fuel - 1) as nat;
        }
    }
    proof {
        assert(new@.subrange(0, nn as int) =~= new@);
        lemma_run_steps(old_data@, es, nn);
        lemma_skips_diffs_len(add_region(es));
        lemma_diffs_len(add_region(es));
        if nn < 0x0fff_0000 {
            lemma_counts_fit(enc@, nn);
        }
    }
    let r = enc.write(patch);
    proof {
        if r.is_err() {
            assert(run(old_data@, es, new@.len()) == Ok::<Seq<u8>, Error>(new@)
                && !counts_fit(sections_of(es)));
        }
        if nn == 0 {
            assert(es.len() == 0);
            lemma_empty_compact();
            assert(es =~= Seq::<Entry>::empty());
        }
        if r.is_ok() {
            lemma_diff_applies(old_data@, new@, es);
            assert(patch@.subrange(0, old(patch)@.len() as int) =~= old(patch)@);
            assert(patch@.subrange(old(patch)@.len() as int, patch@.len() as int) =~= compact_bytes(
                sections_of(es),
            ));
        }
    }
    r
}

} // verus!
