use crate::control::{control_bytes, parse_control, Bsdiff};
use crate::error::Error;
use vstd::prelude::*;

verus! {

/// One record of a bsdiff stream: its control, the `add` delta bytes that
/// follow it, and the `copy` bytes that follow those.
pub struct Entry {
    pub ctl: Bsdiff,
    pub diff: Seq<u8>,
    pub extra: Seq<u8>,
}

pub open spec fn entry_wf(e: Entry) -> bool {
    e.diff.len() == e.ctl.add && e.extra.len() == e.ctl.copy
}

pub open spec fn entries_wf(es: Seq<Entry>) -> bool {
    forall|k: int| 0 <= k < es.len() ==> entry_wf(#[trigger] es[k])
}

pub open spec fn entry_bytes(e: Entry) -> Seq<u8> {
    control_bytes(e.ctl) + e.diff + e.extra
}

/// The raw bsdiff stream made of `es`, in order.
pub open spec fn bsdiff_bytes(es: Seq<Entry>) -> Seq<u8>
    decreases es.len(),
{
    if es.len() == 0 {
        seq![]
    } else {
        bsdiff_bytes(es.drop_last()) + entry_bytes(es.last())
    }
}

/// The entries of a raw bsdiff stream; `None` where the stream does not end
/// on a record boundary or a record runs past its end.
pub open spec fn parse_bsdiff(p: Seq<u8>) -> Option<Seq<Entry>>
    decreases p.len(),
{
    if p.len() == 0 {
        Some(seq![])
    } else if p.len() < 24 {
        None
    } else {
        let c = parse_control(p.subrange(0, 24));
        let rest = p.subrange(24, p.len() as int);
        if c.add + c.copy > rest.len() {
            None
        } else {
            let e = Entry {
                ctl: c,
                diff: rest.subrange(0, c.add as int),
                extra: rest.subrange(c.add as int, c.add + c.copy),
            };
            match parse_bsdiff(rest.subrange(c.add + c.copy, rest.len() as int)) {
                Some(es) => Some(seq![e] + es),
                None => None,
            }
        }
    }
}

/// The concatenated add bytes of `es` (the add region).
pub open spec fn add_region(es: Seq<Entry>) -> Seq<u8>
    decreases es.len(),
{
    if es.len() == 0 {
        seq![]
    } else {
        add_region(es.drop_last()) + es.last().diff
    }
}

/// The concatenated copy bytes of `es` (the literals).
pub open spec fn literal_region(es: Seq<Entry>) -> Seq<u8>
    decreases es.len(),
{
    if es.len() == 0 {
        seq![]
    } else {
        literal_region(es.drop_last()) + es.last().extra
    }
}

/// Bytewise sum, wrapping, of `a` and the first `a.len()` bytes of `b`.
pub open spec fn add_bytes(a: Seq<u8>, b: Seq<u8>) -> Seq<u8> {
    Seq::new(a.len(), |i: int| ((a[i] + b[i]) % 256) as u8)
}

/// Bytewise difference, wrapping, of `n` and `o` (equal lengths).
pub open spec fn sub_bytes(n: Seq<u8>, o: Seq<u8>) -> Seq<u8> {
    Seq::new(n.len(), |i: int| ((n[i] - o[i] + 256) % 256) as u8)
}

/// The old-file cursor after a record, if it is a valid position.
pub open spec fn next_cursor(oc: int, e: Entry) -> int {
    oc + e.diff.len() + e.ctl.seek
}

pub open spec fn cursor_ok(c: int) -> bool {
    0 <= c <= i64::MAX && c <= usize::MAX
}

/// Applying records `k..` of `es` to `old`, with the old-file cursor at `oc`,
/// `out` written so far and at most `room` bytes in all.
pub open spec fn run_from(
    old: Seq<u8>,
    es: Seq<Entry>,
    k: nat,
    oc: int,
    out: Seq<u8>,
    room: nat,
) -> Result<Seq<u8>, Error>
    decreases es.len() - k,
{
    if k >= es.len() {
        Ok(out)
    } else {
        let e = es[k as int];
        let add = e.diff.len();
        if oc + add > old.len() {
            Err(Error::UnexpectedEof)
        } else if out.len() + add > room {
            Err(Error::UnexpectedEof)
        } else if out.len() + add + e.extra.len() > room {
            Err(Error::UnexpectedEof)
        } else if !cursor_ok(next_cursor(oc, e)) {
            Err(Error::InvalidData)
        } else {
            let out2 = out + add_bytes(old.subrange(oc, oc + add), e.diff) + e.extra;
            run_from(old, es, k + 1, next_cursor(oc, e), out2, room)
        }
    }
}

/// What applying the bsdiff records `es` to `old` writes, within `room` bytes.
pub open spec fn run(old: Seq<u8>, es: Seq<Entry>, room: nat) -> Result<Seq<u8>, Error> {
    run_from(old, es, 0, 0, seq![], room)
}

/// One step of `run_from`, unfolded.
pub proof fn lemma_run_step(
    old: Seq<u8>,
    es: Seq<Entry>,
    k: nat,
    oc: int,
    out: Seq<u8>,
    room: nat,
)
    requires
        k < es.len(),
    ensures
        ({
            let e = es[k as int];
            let add = e.diff.len();
            &&& oc + add > old.len() ==> run_from(old, es, k, oc, out, room) == Err::<Seq<u8>, Error>(
                Error::UnexpectedEof,
            )
            &&& oc + add <= old.len() && out.len() + add > room ==> run_from(old, es, k, oc, out, room)
                == Err::<Seq<u8>, Error>(Error::UnexpectedEof)
            &&& oc + add <= old.len() && out.len() + add <= room && out.len() + add + e.extra.len()
                > room ==> run_from(old, es, k, oc, out, room) == Err::<Seq<u8>, Error>(
                Error::UnexpectedEof,
            )
            &&& oc + add <= old.len() && out.len() + add + e.extra.len() <= room && !cursor_ok(
                next_cursor(oc, e),
            ) ==> run_from(old, es, k, oc, out, room) == Err::<Seq<u8>, Error>(Error::InvalidData)
            &&& oc + add <= old.len() && out.len() + add + e.extra.len() <= room && cursor_ok(
                next_cursor(oc, e),
            ) ==> run_from(old, es, k, oc, out, room) == run_from(
                old,
                es,
                k + 1,
                next_cursor(oc, e),
                out + add_bytes(old.subrange(oc, oc + add), e.diff) + e.extra,
                room,
            )
        }),
{
}

/// Whether record `e` applies from old-file cursor `oc` with `out` written.
pub open spec fn step_ok(old: Seq<u8>, oc: int, out: Seq<u8>, e: Entry, room: nat) -> bool {
    &&& oc + e.diff.len() <= old.len()
    &&& out.len() + e.diff.len() + e.extra.len() <= room
    &&& cursor_ok(next_cursor(oc, e))
}

/// What is written after record `e` applies from old-file cursor `oc`.
pub open spec fn step_out(old: Seq<u8>, oc: int, out: Seq<u8>, e: Entry) -> Seq<u8> {
    out + add_bytes(old.subrange(oc, oc + e.diff.len()), e.diff) + e.extra
}

/// The old-file cursor and the output after applying all of `es`.
pub open spec fn state_after(old: Seq<u8>, es: Seq<Entry>) -> (int, Seq<u8>)
    decreases es.len(),
{
    if es.len() == 0 {
        (0, seq![])
    } else {
        let (oc, out) = state_after(old, es.drop_last());
        (next_cursor(oc, es.last()), step_out(old, oc, out, es.last()))
    }
}

/// Whether every record of `es` applies, in order.
pub open spec fn steps_ok(old: Seq<u8>, es: Seq<Entry>, room: nat) -> bool
    decreases es.len(),
{
    if es.len() == 0 {
        true
    } else {
        let (oc, out) = state_after(old, es.drop_last());
        steps_ok(old, es.drop_last(), room) && step_ok(old, oc, out, es.last(), room)
    }
}

proof fn lemma_steps_ok_take(old: Seq<u8>, es: Seq<Entry>, room: nat, j: int)
    requires
        steps_ok(old, es, room),
        0 <= j <= es.len(),
    ensures
        steps_ok(old, es.take(j), room),
    decreases es.len() - j,
{
    if j < es.len() {
        lemma_steps_ok_take(old, es.drop_last(), room, j);
        assert(es.drop_last().take(j) =~= es.take(j));
    } else {
        assert(es.take(j) =~= es);
    }
}

proof fn lemma_run_prefix(old: Seq<u8>, es: Seq<Entry>, room: nat, k: int)
    requires
        steps_ok(old, es, room),
        0 <= k <= es.len(),
    ensures
        run(old, es, room) == run_from(
            old,
            es,
            k as nat,
            state_after(old, es.take(k)).0,
            state_after(old, es.take(k)).1,
            room,
        ),
    decreases k,
{
    if k == 0 {
        assert(es.take(0) =~= Seq::<Entry>::empty());
    } else {
        lemma_run_prefix(old, es, room, k - 1);
        lemma_steps_ok_take(old, es, room, k);
        let t = es.take(k);
        assert(t.drop_last() =~= es.take(k - 1));
        assert(t.last() == es[k - 1]);
        let (oc, out) = state_after(old, es.take(k - 1));
        lemma_run_step(old, es, (k - 1) as nat, oc, out, room);
    }
}

/// Records that all apply, in order, run to the output they build.
pub proof fn lemma_run_steps(old: Seq<u8>, es: Seq<Entry>, room: nat)
    requires
        steps_ok(old, es, room),
    ensures
        run(old, es, room) == Ok::<Seq<u8>, Error>(state_after(old, es).1),
{
    lemma_run_prefix(old, es, room, es.len() as int);
    assert(es.take(es.len() as int) =~= es);
}

} // verus!
