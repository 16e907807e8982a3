use crate::container::{
    compact_bytes, data_runs, diffs_of, groups, header, nz_cursor, pad4, sections_of, skips_of,
    tag_runs, Sections,
};
use crate::control::{fits_narrow, parse_control, zigzag, Aehobak, Bsdiff};
use crate::error::Error;
use crate::stream::{add_region, sub_bytes, Entry};
use crate::varint;
use crate::varint::{encode_data, encode_tags, group_data, group_tag};
use vstd::prelude::*;

verus! {

/// The records of a raw bsdiff stream, each narrowed, while the add region
/// stays within 32-bit offsets (`base` add bytes come before `p`).
pub open spec fn parse_narrow(p: Seq<u8>, base: nat) -> Result<Seq<Entry>, Error>
    decreases p.len(),
{
    if p.len() == 0 {
        Ok(seq![])
    } else if p.len() < 24 {
        Err(Error::UnexpectedEof)
    } else {
        let c = parse_control(p.subrange(0, 24));
        let rest = p.subrange(24, p.len() as int);
        if !fits_narrow(c) {
            Err(Error::InvalidData)
        } else if base + c.add > u32::MAX {
            Err(Error::InvalidData)
        } else if c.add + c.copy > rest.len() {
            Err(Error::UnexpectedEof)
        } else {
            let e = Entry {
                ctl: c,
                diff: rest.subrange(0, c.add as int),
                extra: rest.subrange(c.add as int, c.add + c.copy),
            };
            match parse_narrow(rest.subrange(c.add + c.copy, rest.len() as int), (base + c.add) as nat) {
                Ok(es) => Ok(seq![e] + es),
                Err(x) => Err(x),
            }
        }
    }
}

/// Whether the counts of the sections fit the prefix and the coder's buffers.
pub open spec fn counts_fit(s: Sections) -> bool {
    &&& s.literals.len() <= u32::MAX
    &&& s.adds.len() <= u32::MAX
    &&& s.diffs.len() <= u32::MAX
    &&& 16 * groups(s.adds.len()) + 16 <= usize::MAX
    &&& 16 * groups(s.skips.len()) + 16 <= usize::MAX
    &&& data_runs(s).len() <= u32::MAX
}

/// What encoding a raw bsdiff stream gives: its compact form, or the error.
pub open spec fn encode_result(p: Seq<u8>) -> Result<Seq<u8>, Error> {
    match parse_narrow(p, 0) {
        Ok(es) => if counts_fit(sections_of(es)) {
            Ok(compact_bytes(sections_of(es)))
        } else {
            Err(Error::InvalidData)
        },
        Err(e) => Err(e),
    }
}

/// The streams of a compact form under construction.
pub struct EncoderState {
    literals: Vec<u8>,
    seeks: Vec<u32>,
    adds: Vec<u32>,
    copies: Vec<u32>,
    delta_skips: Vec<u32>,
    delta_diffs: Vec<u8>,
    add_cursor: u64,
    delta_cursor: u64,
    region: Ghost<Seq<u8>>,
}

impl View for EncoderState {
    type V = Sections;

    closed spec fn view(&self) -> Sections {
        Sections {
            adds: self.adds@,
            copies: self.copies@,
            seeks: self.seeks@,
            skips: self.delta_skips@,
            diffs: self.delta_diffs@,
            literals: self.literals@,
        }
    }
}

impl EncoderState {
    /// The add region received so far (all add bytes, zero or not).
    pub closed spec fn region(&self) -> Seq<u8> {
        self.region@
    }

    pub closed spec fn wf(&self) -> bool {
        &&& self.copies@.len() == self.adds@.len()
        &&& self.seeks@.len() == self.adds@.len()
        &&& self.region@.len() <= u32::MAX
        &&& self.add_cursor == self.region@.len()
        &&& self.delta_cursor == nz_cursor(self.region@)
        &&& self.delta_skips@ == skips_of(self.region@)
        &&& self.delta_diffs@ == diffs_of(self.region@)
    }

    /// An empty state; `len` is a hint for the capacity of its streams.
    pub fn new(len: usize) -> (r: EncoderState)
        ensures
            r.wf(),
            r@ == sections_of(seq![]),
            r.region() == Seq::<u8>::empty(),
    {
        let ops = len / 16;
        let r = EncoderState {
            literals: Vec::with_capacity(ops),
            seeks: Vec::with_capacity(ops),
            adds: Vec::with_capacity(ops),
            copies: Vec::with_capacity(ops),
            delta_skips: Vec::with_capacity(ops),
            delta_diffs: Vec::with_capacity(ops),
            add_cursor: 0,
            delta_cursor: 0,
            region: Ghost(Seq::empty()),
        };
        assert(r@.adds =~= sections_of(seq![]).adds);
        assert(r@.copies =~= sections_of(seq![]).copies);
        assert(r@.seeks =~= sections_of(seq![]).seeks);
        r
    }

    /// Records a control.
    pub fn control(&mut self, control: Aehobak)
        requires
            old(self).wf(),
        ensures
            final(self).wf(),
            final(self).region() == old(self).region(),
            final(self)@ == (Sections {
                adds: old(self)@.adds.push(control.add),
                copies: old(self)@.copies.push(control.copy),
                seeks: old(self)@.seeks.push(zigzag(control.seek)),
                ..old(self)@
            }),
    {
        control.encode(&mut self.adds, &mut self.copies, &mut self.seeks);
    }

    /// Records the add bytes `new_part - old_part` (bytewise, wrapping) of the current control.
    pub fn add(&mut self, old_part: &[u8], new_part: &[u8])
        requires
            old(self).wf(),
            old_part@.len() == new_part@.len(),
            old(self).region().len() + new_part@.len() <= u32::MAX,
        ensures
            final(self).wf(),
            final(self).region() == old(self).region() + sub_bytes(new_part@, old_part@),
            final(self)@ == (Sections {
                skips: skips_of(final(self).region()),
                diffs: diffs_of(final(self).region()),
                ..old(self)@
            }),
    {
        let ghost start = self.region@;
        let mut i: usize = 0;
        while i < new_part.len()
            invariant
                i <= new_part@.len() == old_part@.len(),
                start.len() + new_part@.len() <= u32::MAX,
                self.wf(),
                self.region@ =~= start + sub_bytes(new_part@, old_part@).subrange(0, i as int),
                self@.adds == old(self)@.adds,
                self@.copies == old(self)@.copies,
                self@.seeks == old(self)@.seeks,
                self@.literals == old(self)@.literals,
            decreases new_part@.len() - i,
        {
            let delta = new_part[i].wrapping_sub(old_part[i]);
            assert(delta == sub_bytes(new_part@, old_part@)[i as int]);
            self.push_byte(delta);
            i = i + 1;
        }
        assert(sub_bytes(new_part@, old_part@).subrange(0, new_part@.len() as int) =~= sub_bytes(new_part@, old_part@));
    }

    /// Records the add bytes of the current control, given as deltas.
    pub fn add_diffed(&mut self, deltas: &[u8])
        requires
            old(self).wf(),
            old(self).region().len() + deltas@.len() <= u32::MAX,
        ensures
            final(self).wf(),
            final(self).region() == old(self).region() + deltas@,
            final(self)@ == (Sections {
                skips: skips_of(final(self).region()),
                diffs: diffs_of(final(self).region()),
                ..old(self)@
            }),
    {
        let ghost start = self.region@;
        let mut i: usize = 0;
        while i < deltas.len()
            invariant
                i <= deltas@.len(),
                start.len() + deltas@.len() <= u32::MAX,
                self.wf(),
                self.region@ =~= start + deltas@.subrange(0, i as int),
                self@.adds == old(self)@.adds,
                self@.copies == old(self)@.copies,
                self@.seeks == old(self)@.seeks,
                self@.literals == old(self)@.literals,
            decreases deltas@.len() - i,
        {
            self.push_byte(deltas[i]);
            i = i + 1;
        }
        assert(deltas@.subrange(0, deltas@.len() as int) =~= deltas@);
    }

    /// Appends one byte to the add region.
    fn push_byte(&mut self, b: u8)
        requires
            old(self).wf(),
            old(self).region@.len() < u32::MAX,
        ensures
            final(self).wf(),
            final(self).region@ == old(self).region@.push(b),
            final(self)@.adds == old(self)@.adds,
            final(self)@.copies == old(self)@.copies,
            final(self)@.seeks == old(self)@.seeks,
            final(self)@.literals == old(self)@.literals,
    {
        let ghost r = self.region@;
        proof {
            lemma_nz_cursor_le(r);
            assert(r.push(b).drop_last() =~= r);
        }
        let pos = self.add_cursor;
        if b != 0 {
            let skip = pos - self.delta_cursor;
            self.delta_skips.push(skip as u32);
            self.delta_diffs.push(b);
            self.delta_cursor = pos + 1;
        }
        self.add_cursor = pos + 1;
        self.region = Ghost(r.push(b));
        proof {
            let n = r.push(b);
            assert(n.last() == b);
            assert(nz_cursor(n) == if b != 0 { n.len() } else { nz_cursor(r) });
            assert(skips_of(n) == if b != 0 { skips_of(r).push((n.len() - 1 - nz_cursor(r)) as u32) } else { skips_of(r) });
            assert(diffs_of(n) == if b != 0 { diffs_of(r).push(b) } else { diffs_of(r) });
        }
    }

    /// Records the copy bytes of the current control.
    pub fn copy(&mut self, new: &[u8])
        requires
            old(self).wf(),
        ensures
            final(self).wf(),
            final(self).region() == old(self).region(),
            final(self)@ == (Sections { literals: old(self)@.literals + new@, ..old(self)@ }),
    {
        extend_bytes(&mut self.literals, new);
    }

    /// The records of a raw bsdiff stream, gathered into an encoder state.
    pub fn parse(patch: &[u8]) -> (r: Result<EncoderState, Error>)
        ensures
            match parse_narrow(patch@, 0) {
                Ok(es) => r.is_ok() && r.unwrap().wf() && r.unwrap()@ == sections_of(es)
                    && r.unwrap().region() == add_region(es),
                Err(e) => r == Err::<EncoderState, Error>(e),
            },
    {
        let mut st = EncoderState::new(patch.len());
        let mut at: usize = 0;
        let ghost mut done: Seq<Entry> = seq![];
        proof {
            assert(patch@.subrange(0, patch@.len() as int) =~= patch@);
            if let Ok(es) = parse_narrow(patch@, 0) {
                assert(done + es =~= es);
            }
        }
        while at < patch.len()
            invariant
                at <= patch@.len(),
                st.wf(),
                st@ == sections_of(done),
                st.region() == add_region(done),
                parse_narrow(patch@, 0) == prepend(
                    done,
                    parse_narrow(patch@.subrange(at as int, patch@.len() as int), st.region().len()),
                ),
            decreases patch@.len() - at,
        {
            let ghost p = patch@.subrange(at as int, patch@.len() as int);
            if patch.len() - at < 24 {
                return Err(Error::UnexpectedEof);
            }
            let ctl = match Bsdiff::decode(&patch[at..at + 24]) {
                Some(c) => c,
                None => return Err(Error::InvalidData),
            };
            proof {
                assert(patch@.subrange(at as int, at + 24) =~= p.subrange(0, 24));
            }
            let narrow = match Aehobak::from_bsdiff(&ctl) {
                Some(n) => n,
                None => return Err(Error::InvalidData),
            };
            if st.add_cursor + ctl.add > u32::MAX as u64 {
                return Err(Error::InvalidData);
            }
            let start = at + 24;
            if ctl.add + ctl.copy > (patch.len() - start) as u64 {
                return Err(Error::UnexpectedEof);
            }
            let add_end = start + ctl.add as usize;
            let copy_end = add_end + ctl.copy as usize;
            st.control(narrow);
            st.add_diffed(&patch[start..add_end]);
            st.copy(&patch[add_end..copy_end]);
            proof {
                let rest = p.subrange(24, p.len() as int);
                let e = Entry {
                    ctl: ctl,
                    diff: rest.subrange(0, ctl.add as int),
                    extra: rest.subrange(ctl.add as int, ctl.add + ctl.copy),
                };
                assert(e.diff =~= patch@.subrange(start as int, add_end as int));
                assert(e.extra =~= patch@.subrange(add_end as int, copy_end as int));
                assert(rest.subrange(ctl.add + ctl.copy, rest.len() as int) =~= patch@.subrange(
                    copy_end as int,
                    patch@.len() as int,
                ));
                let nd = done.push(e);
                assert(nd.drop_last() =~= done);
                lemma_sections_push(done, e);
                lemma_prepend_push(done, e, parse_narrow(
                    patch@.subrange(copy_end as int, patch@.len() as int),
                    st.region().len(),
                ));
                done = nd;
            }
            at = copy_end;
        }
        proof {
            assert(patch@.subrange(at as int, patch@.len() as int) =~= Seq::<u8>::empty());
            assert(done + seq![] =~= done);
        }
        Ok(st)
    }

    /// The add, copy, skip and seek runs, each padded with zeros to a
    /// multiple of four, as the integer coder takes them.
    pub fn freeze(&self) -> (r: (Vec<u32>, Vec<u32>, Vec<u32>, Vec<u32>))
        requires
            self.wf(),
            self@.adds.len() + 4 <= usize::MAX,
            self@.skips.len() + 4 <= usize::MAX,
        ensures
            r.0@ == pad4(self@.adds),
            r.1@ == pad4(self@.copies),
            r.2@ == pad4(self@.skips),
            r.3@ == pad4(self@.seeks),
    {
        (
            pad_words(&self.adds),
            pad_words(&self.copies),
            pad_words(&self.delta_skips),
            pad_words(&self.seeks),
        )
    }

    /// Appends the compact form of the sections gathered so far to `out`.
    #[verifier::rlimit(100)]
    pub fn write(&self, out: &mut Vec<u8>) -> (r: Result<(), Error>)
        requires
            self.wf(),
        ensures
            r.is_ok() == counts_fit(self@),
            r.is_ok() ==> final(out)@ == old(out)@ + compact_bytes(self@),
            r.is_err() ==> r == Err::<(), Error>(Error::InvalidData) && final(out)@ == old(out)@,
    {
        let controls = self.adds.len();
        let deltas = self.delta_diffs.len();
        let limit: usize = (usize::MAX - 16) / 16;
        proof {
            lemma_skips_diffs_len(self.region@);
        }
        if self.literals.len() > u32::MAX as usize || controls > u32::MAX as usize || deltas
            > u32::MAX as usize || group_count(controls) > limit || group_count(deltas) > limit {
            return Err(Error::InvalidData);
        }
        let (pa, pc, pk, ps) = self.freeze();
        let (ta, da) = varint::encode(pa.as_slice());
        let (tc, dc) = varint::encode(pc.as_slice());
        let (tk, dk) = varint::encode(pk.as_slice());
        let (ts, ds) = varint::encode(ps.as_slice());
        proof {
            varint::lemma_groups_round_trip(pa@, seq![]);
            varint::lemma_groups_round_trip(pc@, seq![]);
            varint::lemma_groups_round_trip(pk@, seq![]);
            varint::lemma_groups_round_trip(ps@, seq![]);
        }
        let data_len: u64 = da.len() as u64 + dc.len() as u64 + dk.len() as u64 + ds.len() as u64;
        if data_len > u32::MAX as u64 {
            return Err(Error::InvalidData);
        }
        let mut head: Vec<u32> = Vec::new();
        head.push(self.literals.len() as u32);
        head.push(controls as u32);
        head.push(deltas as u32);
        head.push(data_len as u32);
        let (ht, hd) = varint::encode(head.as_slice());
        proof {
            assert(head@ =~= header(self@));
            assert(head@.subrange(0, 4) =~= head@);
            assert(head@.subrange(4, 4) =~= Seq::<u32>::empty());
            assert(encode_tags(Seq::<u32>::empty()) =~= Seq::<u8>::empty());
            assert(encode_data(Seq::<u32>::empty()) =~= Seq::<u8>::empty());
            assert(encode_tags(head@) == seq![group_tag(head@)] + encode_tags(head@.subrange(4, 4)));
            assert(encode_data(head@) == group_data(head@) + encode_data(head@.subrange(4, 4)));
            assert(ht@ =~= seq![group_tag(head@)]);
            assert(hd@ =~= group_data(head@));
        }
        emit(out, &ht, &hd, &self.literals, &ta, &tc, &tk, &ts, &self.delta_diffs, &da, &dc, &dk, &ds);
        proof {
            assert(pa@ == pad4(self@.adds));
            assert(pc@ == pad4(self@.copies));
            assert(pk@ == pad4(self@.skips));
            assert(ps@ == pad4(self@.seeks));
            assert(ta@ == encode_tags(pad4(self@.adds)));
            assert(tag_runs(self@) == ta@ + tc@ + tk@ + ts@);
            assert(data_runs(self@) == da@ + dc@ + dk@ + ds@);
            reveal(compact_bytes);
            assert(ht@ + hd@ + self@.literals + (ta@ + tc@ + tk@ + ts@) + self@.diffs + (da@ + dc@ + dk@ + ds@)
                =~= compact_bytes(self@));
        }
        Ok(())
    }
}

/// Appends the regions of a compact form to `out`, in order.
fn emit(
    out: &mut Vec<u8>,
    ht: &Vec<u8>,
    hd: &Vec<u8>,
    lits: &Vec<u8>,
    ta: &Vec<u8>,
    tc: &Vec<u8>,
    tk: &Vec<u8>,
    ts: &Vec<u8>,
    diffs: &Vec<u8>,
    da: &Vec<u8>,
    dc: &Vec<u8>,
    dk: &Vec<u8>,
    ds: &Vec<u8>,
)
    ensures
        final(out)@ == old(out)@ + (ht@ + hd@ + lits@ + (ta@ + tc@ + tk@ + ts@) + diffs@ + (da@ + dc@
            + dk@ + ds@)),
{
    extend_bytes(out, ht.as_slice());
    extend_bytes(out, hd.as_slice());
    extend_bytes(out, lits.as_slice());
    extend_bytes(out, ta.as_slice());
    extend_bytes(out, tc.as_slice());
    extend_bytes(out, tk.as_slice());
    extend_bytes(out, ts.as_slice());
    extend_bytes(out, diffs.as_slice());
    extend_bytes(out, da.as_slice());
    extend_bytes(out, dc.as_slice());
    extend_bytes(out, dk.as_slice());
    extend_bytes(out, ds.as_slice());
    assert(out@ =~= old(out)@ + (ht@ + hd@ + lits@ + (ta@ + tc@ + tk@ + ts@) + diffs@ + (da@ + dc@
        + dk@ + ds@)));
}

/// Number of groups of four that `n` values take.
fn group_count(n: usize) -> (r: usize)
    ensures
        r == groups(n as nat),
{
    n / 4 + if n % 4 != 0 { 1 } else { 0 }
}

/// Appends `src` to `out`.
pub(crate) fn extend_bytes(out: &mut Vec<u8>, src: &[u8])
    ensures
        final(out)@ == old(out)@ + src@,
{
    let ghost start = out@;
    let mut i: usize = 0;
    while i < src.len()
        invariant
            i <= src@.len(),
            out@ =~= start + src@.subrange(0, i as int),
        decreases src@.len() - i,
    {
        out.push(src[i]);
        i = i + 1;
    }
    assert(src@.subrange(0, src@.len() as int) =~= src@);
}

/// `v` padded with zeros to a multiple of four.
fn pad_words(v: &Vec<u32>) -> (r: Vec<u32>)
    requires
        v@.len() + 4 <= usize::MAX,
    ensures
        r@ == pad4(v@),
{
    let mut r = v.clone();
    while r.len() % 4 != 0
        invariant
            v@.len() <= r@.len() <= groups(v@.len()) * 4,
            r@.len() % 4 != 0 ==> r@.len() < groups(v@.len()) * 4,
            r@ == v@ + Seq::new((r@.len() - v@.len()) as nat, |i: int| 0u32),
            v@.len() + 4 <= usize::MAX,
        decreases groups(v@.len()) * 4 - r@.len(),
    {
        r.push(0);
        assert(r@ =~= v@ + Seq::new((r@.len() - v@.len()) as nat, |i: int| 0u32));
    }
    assert(r@ =~= pad4(v@));
    r
}

pub open spec fn prepend(done: Seq<Entry>, r: Result<Seq<Entry>, Error>) -> Result<
    Seq<Entry>,
    Error,
> {
    match r {
        Ok(es) => Ok(done + es),
        Err(e) => Err(e),
    }
}

proof fn lemma_prepend_push(done: Seq<Entry>, e: Entry, r: Result<Seq<Entry>, Error>)
    ensures
        prepend(done, prepend(seq![e], r)) == prepend(done.push(e), r),
{
    if let Ok(es) = r {
        assert(done + (seq![e] + es) =~= done.push(e) + es);
    }
}

pub proof fn lemma_skips_diffs_len(a: Seq<u8>)
    ensures
        skips_of(a).len() == diffs_of(a).len(),
    decreases a.len(),
{
    if a.len() > 0 {
        lemma_skips_diffs_len(a.drop_last());
    }
}

pub proof fn lemma_nz_cursor_le(a: Seq<u8>)
    ensures
        nz_cursor(a) <= a.len(),
    decreases a.len(),
{
    if a.len() > 0 {
        lemma_nz_cursor_le(a.drop_last());
    }
}

pub proof fn lemma_sections_push(done: Seq<Entry>, e: Entry)
    ensures
        ({
            let nd = done.push(e);
            let s = sections_of(done);
            let t = sections_of(nd);
            &&& t.adds == s.adds.push(e.ctl.add as u32)
            &&& t.copies == s.copies.push(e.ctl.copy as u32)
            &&& t.seeks == s.seeks.push(zigzag(e.ctl.seek as i32))
            &&& add_region(nd) == add_region(done) + e.diff
            &&& t.literals == s.literals + e.extra
            &&& t.skips == skips_of(add_region(nd))
            &&& t.diffs == diffs_of(add_region(nd))
        }),
{
    let nd = done.push(e);
    assert(nd.drop_last() =~= done);
    assert(sections_of(nd).adds =~= sections_of(done).adds.push(e.ctl.add as u32));
    assert(sections_of(nd).copies =~= sections_of(done).copies.push(e.ctl.copy as u32));
    assert(sections_of(nd).seeks =~= sections_of(done).seeks.push(zigzag(e.ctl.seek as i32)));
}

/// Re-encodes a raw bsdiff stream into its compact form, appended to `writer`.
pub fn encode(patch: &[u8], writer: &mut Vec<u8>) -> (r: Result<(), Error>)
    ensures
        match encode_result(patch@) {
            Ok(c) => r.is_ok() && final(writer)@ == old(writer)@ + c,
            Err(e) => r == Err::<(), Error>(e),
        },
{
    let st = EncoderState::parse(patch)?;
    st.write(writer)
}

} // verus!
