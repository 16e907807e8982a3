use crate::container::{
    compact_bytes, compact_entries, data_runs, diffs_of, entry_at, expand, full_region, groups,
    header, nz_cursor, pad4, read_frame, sections_entries, sections_of, sections_wf, skips_of,
    sum_prefix, tag_runs, zeros, Sections,
};
use crate::varint::{
    decode_group, decode_groups, encode_data, encode_tags, group_data, group_tag,
    lemma_group_round_trip, lemma_groups_round_trip, tag_data_len, tags_data_len,
};
use crate::control::{
    fits_narrow, lemma_control_bytes_parse, parse_control, unzigzag,
    zigzag,
};
use crate::encode::{counts_fit, encode_result, lemma_skips_diffs_len, parse_narrow};
use crate::patch::{control_check, patch_result};
use crate::region::lemma_sum_prefix_mono;
use crate::error::Error;
use crate::stream::{
    add_bytes, add_region, bsdiff_bytes, cursor_ok, entries_wf, entry_bytes, entry_wf, lemma_run_step,
    literal_region, next_cursor,
    parse_bsdiff, run, run_from, Entry,
};
use vstd::prelude::*;

verus! {

proof fn lemma_bsdiff_bytes_cons(e: Entry, es: Seq<Entry>)
    ensures
        bsdiff_bytes(seq![e] + es) =~= entry_bytes(e) + bsdiff_bytes(es),
        add_region(seq![e] + es) =~= e.diff + add_region(es),
    decreases es.len(),
{
    let c = seq![e] + es;
    if es.len() == 0 {
        assert(c.drop_last() =~= Seq::<Entry>::empty());
        assert(c.last() == e);
        assert(bsdiff_bytes(c) == bsdiff_bytes(c.drop_last()) + entry_bytes(c.last()));
        assert(add_region(c) == add_region(c.drop_last()) + c.last().diff);
    } else {
        lemma_bsdiff_bytes_cons(e, es.drop_last());
        assert(c.drop_last() =~= seq![e] + es.drop_last());
        assert(c.last() == es.last());
        assert(bsdiff_bytes(c) == bsdiff_bytes(c.drop_last()) + entry_bytes(c.last()));
        assert(bsdiff_bytes(es) == bsdiff_bytes(es.drop_last()) + entry_bytes(es.last()));
        assert(add_region(c) == add_region(c.drop_last()) + c.last().diff);
        assert(add_region(es) == add_region(es.drop_last()) + es.last().diff);
    }
}

/// The records that `parse_narrow` reads out of a stream write it back
/// byte for byte, are well formed, and fit the narrow form.
proof fn lemma_parse_narrow(p: Seq<u8>, base: nat)
    requires
        parse_narrow(p, base).is_ok(),
        base <= u32::MAX,
    ensures
        bsdiff_bytes(parse_narrow(p, base).unwrap()) =~= p,
        entries_wf(parse_narrow(p, base).unwrap()),
        forall|k: int|
            0 <= k < parse_narrow(p, base).unwrap().len() ==> fits_narrow(
                #[trigger] parse_narrow(p, base).unwrap()[k].ctl,
            ),
        base + add_region(parse_narrow(p, base).unwrap()).len() <= u32::MAX,
    decreases p.len(),
{
    if p.len() == 0 {
    } else {
        let c = parse_control(p.subrange(0, 24));
        let rest = p.subrange(24, p.len() as int);
        let e = Entry {
            ctl: c,
            diff: rest.subrange(0, c.add as int),
            extra: rest.subrange(c.add as int, c.add + c.copy),
        };
        let tail = rest.subrange(c.add + c.copy, rest.len() as int);
        lemma_parse_narrow(tail, (base + c.add) as nat);
        let es = parse_narrow(tail, (base + c.add) as nat).unwrap();
        lemma_bsdiff_bytes_cons(e, es);
        lemma_control_bytes_parse(p.subrange(0, 24));
        assert(p =~= p.subrange(0, 24) + e.diff + e.extra + tail);
        let all = seq![e] + es;
        assert forall|k: int| 0 <= k < all.len() implies entry_wf(#[trigger] all[k]) && fits_narrow(
            all[k].ctl,
        ) by {
            if k > 0 {
                assert(all[k] == es[k - 1]);
            }
        }
    }
}

proof fn lemma_nz_tail(a: Seq<u8>)
    ensures
        nz_cursor(a) <= a.len(),
        forall|i: int| nz_cursor(a) <= i < a.len() ==> #[trigger] a[i] == 0,
    decreases a.len(),
{
    if a.len() > 0 {
        lemma_nz_tail(a.drop_last());
        assert forall|i: int| nz_cursor(a) <= i < a.len() implies #[trigger] a[i] == 0 by {
            if i < a.len() - 1 {
                assert(a[i] == a.drop_last()[i]);
            }
        }
    }
}

proof fn lemma_expand_extend(sk: Seq<u32>, df: Seq<u8>, x: u32, y: u8, j: int)
    requires
        0 <= j <= sk.len(),
        j <= df.len(),
    ensures
        expand(sk.push(x), df.push(y), j) == expand(sk, df, j),
    decreases j,
{
    if j > 0 {
        lemma_expand_extend(sk, df, x, y, j - 1);
        assert(sk.push(x)[j - 1] == sk[j - 1]);
        assert(df.push(y)[j - 1] == df[j - 1]);
    }
}

/// The skips and non-zero bytes of `a` lay out `a` up to its last non-zero byte.
proof fn lemma_expand_sparse(a: Seq<u8>)
    requires
        a.len() <= u32::MAX,
    ensures
        skips_of(a).len() == diffs_of(a).len(),
        expand(skips_of(a), diffs_of(a), skips_of(a).len() as int) =~= a.subrange(
            0,
            nz_cursor(a) as int,
        ),
    decreases a.len(),
{
    if a.len() > 0 {
        let b = a.drop_last();
        lemma_expand_sparse(b);
        lemma_nz_tail(b);
        let d = skips_of(b).len() as int;
        if a.last() != 0 {
            let x = (a.len() - 1 - nz_cursor(b)) as u32;
            lemma_expand_extend(skips_of(b), diffs_of(b), x, a.last(), d);
            let e = expand(skips_of(a), diffs_of(a), d + 1);
            assert(e == expand(skips_of(b), diffs_of(b), d) + Seq::new(x as nat, |i: int| 0u8)
                + seq![a.last()]);
            assert forall|i: int| 0 <= i < a.len() implies e[i] == a[i] by {
                if i >= nz_cursor(b) && i < a.len() - 1 {
                    assert(a[i] == b[i]);
                }
                if i < nz_cursor(b) {
                    assert(a[i] == b[i]);
                }
            }
            assert(e =~= a.subrange(0, nz_cursor(a) as int));
        } else {
            assert(a.subrange(0, nz_cursor(a) as int) =~= b.subrange(0, nz_cursor(b) as int));
        }
    }
}

/// The full add region of sparse sections is the region they were taken from.
proof fn lemma_full_region_sparse(s: Sections, a: Seq<u8>)
    requires
        a.len() <= u32::MAX,
        s.skips == skips_of(a),
        s.diffs == diffs_of(a),
        sum_prefix(s.adds, s.adds.len() as int) == a.len(),
    ensures
        full_region(s) =~= a,
        expand(s.skips, s.diffs, s.skips.len() as int).len() <= a.len(),
{
    lemma_expand_sparse(a);
    lemma_nz_tail(a);
    let e = expand(s.skips, s.diffs, s.skips.len() as int);
    assert forall|i: int| 0 <= i < a.len() implies full_region(s)[i] == a[i] by {
        if i >= e.len() {
            assert(full_region(s)[i] == zeros((a.len() - e.len()) as nat)[i - e.len()]);
        }
    }
}

proof fn lemma_region_take(es: Seq<Entry>, k: int)
    requires
        0 <= k < es.len(),
    ensures
        add_region(es.take(k + 1)) == add_region(es.take(k)) + es[k].diff,
        literal_region(es.take(k + 1)) == literal_region(es.take(k)) + es[k].extra,
{
    assert(es.take(k + 1).drop_last() =~= es.take(k));
    assert(es.take(k + 1).last() == es[k]);
}

proof fn lemma_region_prefix(es: Seq<Entry>, j: int)
    requires
        0 <= j <= es.len(),
    ensures
        add_region(es).subrange(0, add_region(es.take(j)).len() as int) =~= add_region(es.take(j)),
        literal_region(es).subrange(0, literal_region(es.take(j)).len() as int) =~= literal_region(
            es.take(j),
        ),
        add_region(es.take(j)).len() <= add_region(es).len(),
        literal_region(es.take(j)).len() <= literal_region(es).len(),
    decreases es.len() - j,
{
    if j < es.len() {
        lemma_region_prefix(es.drop_last(), j);
        assert(es.drop_last().take(j) =~= es.take(j));
    } else {
        assert(es.take(j) =~= es);
    }
}

proof fn lemma_sum_prefix_regions(es: Seq<Entry>, k: int)
    requires
        0 <= k <= es.len(),
        entries_wf(es),
        forall|i: int| 0 <= i < es.len() ==> fits_narrow(#[trigger] es[i].ctl),
    ensures
        sum_prefix(sections_of(es).adds, k) == add_region(es.take(k)).len(),
        sum_prefix(sections_of(es).copies, k) == literal_region(es.take(k)).len(),
    decreases k,
{
    if k > 0 {
        lemma_sum_prefix_regions(es, k - 1);
        lemma_region_take(es, k - 1);
        assert(entry_wf(es[k - 1]) && fits_narrow(es[k - 1].ctl));
    } else {
        assert(es.take(0) =~= Seq::<Entry>::empty());
    }
}

/// The sections of well-formed narrow records stand for those records.
proof fn lemma_sections_entries(es: Seq<Entry>)
    requires
        entries_wf(es),
        forall|i: int| 0 <= i < es.len() ==> fits_narrow(#[trigger] es[i].ctl),
        add_region(es).len() <= u32::MAX,
    ensures
        sections_entries(sections_of(es)) == Ok::<Seq<Entry>, Error>(es),
{
    let s = sections_of(es);
    let n = es.len() as int;
    lemma_sum_prefix_regions(es, n);
    assert(es.take(n) =~= es);
    lemma_full_region_sparse(s, add_region(es));
    assert forall|k: int| 0 <= k < n implies #[trigger] entry_at(s, k) == es[k] by {
        lemma_sum_prefix_regions(es, k);
        lemma_region_take(es, k);
        lemma_region_prefix(es, k + 1);
        let e = es[k];
        assert(entry_wf(e) && fits_narrow(e.ctl));
        let a0 = add_region(es.take(k)).len() as int;
        let l0 = literal_region(es.take(k)).len() as int;
        assert(add_region(es).subrange(a0, a0 + e.diff.len()) =~= e.diff) by {
            assert(add_region(es).subrange(0, a0 + e.diff.len()) =~= add_region(es.take(k)) + e.diff);
            assert(add_region(es).subrange(a0, a0 + e.diff.len()) =~= add_region(es).subrange(
                0,
                a0 + e.diff.len(),
            ).subrange(a0, a0 + e.diff.len()));
        }
        assert(literal_region(es).subrange(l0, l0 + e.extra.len()) =~= e.extra) by {
            assert(literal_region(es).subrange(0, l0 + e.extra.len()) =~= literal_region(es.take(k))
                + e.extra);
            assert(literal_region(es).subrange(l0, l0 + e.extra.len()) =~= literal_region(
                es,
            ).subrange(0, l0 + e.extra.len()).subrange(l0, l0 + e.extra.len()));
        }
        let x = e.ctl.seek as i32;
        assert(unzigzag(zigzag(x)) == x);
    }
    assert(Seq::new(es.len(), |k: int| entry_at(s, k)) =~= es);
}

proof fn lemma_pad_run(v: Seq<u32>)
    ensures
        encode_tags(pad4(v)).len() == groups(v.len()),
        tags_data_len(encode_tags(pad4(v))) == encode_data(pad4(v)).len(),
        decode_groups(encode_tags(pad4(v)), encode_data(pad4(v))).take(v.len() as int) =~= v,
{
    let p = pad4(v);
    lemma_groups_round_trip(p, seq![]);
    assert(encode_data(p) + Seq::<u8>::empty() =~= encode_data(p));
    assert(p.take(v.len() as int) =~= v);
}

/// Where the regions of the compact form of `s` lie.
proof fn lemma_frame_parts(s: Sections)
    requires
        sections_wf(s),
        counts_fit(s),
    ensures
        ({
            let c = compact_bytes(s);
            let h = header(s);
            let pl = tag_data_len(c[0]) as int;
            let at0 = 1 + pl;
            let at1 = at0 + s.literals.len();
            let at2 = at1 + tag_runs(s).len();
            let at3 = at2 + s.diffs.len();
            &&& c.len() == at3 + data_runs(s).len()
            &&& c[0] == group_tag(h)
            &&& c.subrange(1, 1 + pl) == group_data(h)
            &&& decode_group(c[0], c.subrange(1, 1 + pl)) == h
            &&& c.subrange(at0, at1) == s.literals
            &&& c.subrange(at1, at2) == tag_runs(s)
            &&& c.subrange(at2, at3) == s.diffs
            &&& c.subrange(at3, c.len() as int) == data_runs(s)
        }),
{
    reveal(compact_bytes);
    let h = header(s);
    let c = compact_bytes(s);
    let hd = group_data(h);
    lemma_group_round_trip(h, seq![]);
    assert(hd + Seq::<u8>::empty() =~= hd);
    let pl = hd.len() as int;
    let at0 = 1 + pl;
    let at1 = at0 + s.literals.len();
    let at2 = at1 + tag_runs(s).len();
    let at3 = at2 + s.diffs.len();
    assert(c.subrange(1, 1 + pl) =~= hd);
    assert(c.subrange(at0, at1) =~= s.literals);
    assert(c.subrange(at1, at2) =~= tag_runs(s));
    assert(c.subrange(at2, at3) =~= s.diffs);
    assert(c.subrange(at3, c.len() as int) =~= data_runs(s));
}

/// Where the runs of each stream lie in the tag and data regions.
#[verifier::rlimit(60)]
proof fn lemma_run_parts(s: Sections)
    ensures
        ({
            let gc = groups(s.adds.len()) as int;
            let gd = groups(s.skips.len()) as int;
            let tags = tag_runs(s);
            let data = data_runs(s);
            let la = encode_data(pad4(s.adds)).len() as int;
            let lc = encode_data(pad4(s.copies)).len() as int;
            let lk = encode_data(pad4(s.skips)).len() as int;
            let ls = encode_data(pad4(s.seeks)).len() as int;
            &&& s.copies.len() == s.adds.len() && s.seeks.len() == s.adds.len() ==> {
                &&& tags.len() == 3 * gc + gd
                &&& tags.subrange(0, gc) == encode_tags(pad4(s.adds))
                &&& tags.subrange(gc, 2 * gc) == encode_tags(pad4(s.copies))
                &&& tags.subrange(2 * gc, 2 * gc + gd) == encode_tags(pad4(s.skips))
                &&& tags.subrange(2 * gc + gd, 3 * gc + gd) == encode_tags(pad4(s.seeks))
            }
            &&& data.len() == la + lc + lk + ls
            &&& data.subrange(0, la) == encode_data(pad4(s.adds))
            &&& data.subrange(la, la + lc) == encode_data(pad4(s.copies))
            &&& data.subrange(la + lc, la + lc + lk) == encode_data(pad4(s.skips))
            &&& data.subrange(la + lc + lk, la + lc + lk + ls) == encode_data(pad4(s.seeks))
        }),
{
    lemma_pad_run(s.adds);
    lemma_pad_run(s.copies);
    lemma_pad_run(s.skips);
    lemma_pad_run(s.seeks);
    let gc = groups(s.adds.len()) as int;
    let gd = groups(s.skips.len()) as int;
    let tags = tag_runs(s);
    let data = data_runs(s);
    let la = encode_data(pad4(s.adds)).len() as int;
    let lc = encode_data(pad4(s.copies)).len() as int;
    let lk = encode_data(pad4(s.skips)).len() as int;
    let ls = encode_data(pad4(s.seeks)).len() as int;
    if s.copies.len() == s.adds.len() && s.seeks.len() == s.adds.len() {
        assert(tags.subrange(0, gc) =~= encode_tags(pad4(s.adds)));
        assert(tags.subrange(gc, 2 * gc) =~= encode_tags(pad4(s.copies)));
        assert(tags.subrange(2 * gc, 2 * gc + gd) =~= encode_tags(pad4(s.skips)));
        assert(tags.subrange(2 * gc + gd, 3 * gc + gd) =~= encode_tags(pad4(s.seeks)));
    }
    assert(data.subrange(0, la) =~= encode_data(pad4(s.adds)));
    assert(data.subrange(la, la + lc) =~= encode_data(pad4(s.copies)));
    assert(data.subrange(la + lc, la + lc + lk) =~= encode_data(pad4(s.skips)));
    assert(data.subrange(la + lc + lk, la + lc + lk + ls) =~= encode_data(pad4(s.seeks)));
}

/// Reading the frame of the compact form of well-sized sections gives them back.
#[verifier::rlimit(60)]
proof fn lemma_frame_round_trip(s: Sections)
    requires
        sections_wf(s),
        counts_fit(s),
    ensures
        read_frame(compact_bytes(s)) == Ok::<Sections, Error>(s),
{
    lemma_frame_parts(s);
    lemma_run_parts(s);
    lemma_pad_run(s.adds);
    lemma_pad_run(s.copies);
    lemma_pad_run(s.skips);
    lemma_pad_run(s.seeks);
    let c = compact_bytes(s);
    let pl = tag_data_len(c[0]) as int;
    let at0 = 1 + pl;
    let at1 = at0 + s.literals.len();
    let at2 = at1 + tag_runs(s).len();
    let at3 = at2 + s.diffs.len();
    assert(c.subrange(at3, at3 + data_runs(s).len()) == data_runs(s));
}

proof fn lemma_parse_narrow_plain(p: Seq<u8>, base: nat)
    requires
        parse_narrow(p, base).is_ok(),
    ensures
        parse_bsdiff(p) == Some(parse_narrow(p, base).unwrap()),
    decreases p.len(),
{
    if p.len() > 0 {
        let c = parse_control(p.subrange(0, 24));
        let rest = p.subrange(24, p.len() as int);
        lemma_parse_narrow_plain(rest.subrange(c.add + c.copy, rest.len() as int), (base + c.add) as nat);
    }
}

/// The compact form of a raw bsdiff stream stands for the stream's records,
/// and those sections are well sized.
proof fn lemma_encoded(p: Seq<u8>)
    requires
        encode_result(p).is_ok(),
    ensures
        parse_bsdiff(p).is_some(),
        encode_result(p).unwrap() == compact_bytes(sections_of(parse_bsdiff(p).unwrap())),
        sections_wf(sections_of(parse_bsdiff(p).unwrap())),
        counts_fit(sections_of(parse_bsdiff(p).unwrap())),
        compact_entries(encode_result(p).unwrap()) == Ok::<Seq<Entry>, Error>(
            parse_bsdiff(p).unwrap(),
        ),
        bsdiff_bytes(parse_bsdiff(p).unwrap()) == p,
{
    lemma_parse_narrow(p, 0);
    lemma_parse_narrow_plain(p, 0);
    let es = parse_narrow(p, 0).unwrap();
    let s = sections_of(es);
    lemma_skips_diffs_len(add_region(es));
    lemma_frame_round_trip(s);
    lemma_sections_entries(es);
}

/// Decoding the compact form of a raw bsdiff stream gives the stream back,
/// byte for byte.
pub proof fn lemma_encode_decode(p: Seq<u8>)
    requires
        encode_result(p).is_ok(),
    ensures
        compact_entries(encode_result(p).unwrap()).is_ok(),
        bsdiff_bytes(compact_entries(encode_result(p).unwrap()).unwrap()) == p,
{
    lemma_encoded(p);
}

proof fn lemma_check_run(old: Seq<u8>, s: Sections, k: nat, oc: int, out: Seq<u8>, room: nat)
    requires
        sections_entries(s).is_ok(),
        sections_wf(s),
        k <= s.adds.len(),
        0 <= oc,
    ensures
        ({
            let es = sections_entries(s).unwrap();
            match control_check(old.len(), s, k, oc, out.len(), sum_prefix(s.copies, k as int), room) {
                Err(e) => run_from(old, es, k, oc, out, room) == Err::<Seq<u8>, Error>(e),
                Ok(_) => run_from(old, es, k, oc, out, room).is_ok(),
            }
        }),
    decreases s.adds.len() - k,
{
    let es = sections_entries(s).unwrap();
    let n = s.adds.len() as int;
    assert(es == Seq::new(s.adds.len(), |i: int| entry_at(s, i)));
    if k < n {
        crate::region::lemma_region_len(s);
        lemma_run_step(old, es, k, oc, out, room);
        lemma_sum_prefix_mono(s.adds, (k + 1) as int, n);
        lemma_sum_prefix_mono(s.copies, (k + 1) as int, n);
        let e = es[k as int];
        assert(e == entry_at(s, k as int));
        let add = s.adds[k as int] as nat;
        let copy = s.copies[k as int] as nat;
        assert(crate::region::deltas_fit(s));
        assert(full_region(s).len() == sum_prefix(s.adds, n));
        assert(sum_prefix(s.adds, (k + 1) as int) == sum_prefix(s.adds, k as int) + add);
        assert(sum_prefix(s.copies, (k + 1) as int) == sum_prefix(s.copies, k as int) + copy);
        let a0 = sum_prefix(s.adds, k as int) as int;
        let l0 = sum_prefix(s.copies, k as int) as int;
        assert(e.diff == full_region(s).subrange(a0, a0 + add));
        assert(e.extra == s.literals.subrange(l0, l0 + copy));
        assert(e.diff.len() == add);
        assert(e.extra.len() == copy);
        let out2 = out + add_bytes(old.subrange(oc, oc + add), e.diff) + e.extra;
        if oc + add <= old.len() && out.len() + add + copy <= room && cursor_ok(next_cursor(oc, e)) {
            lemma_check_run(old, s, k + 1, next_cursor(oc, e), out2, room);
        }
    }
}

/// The sections a frame holds have one add, copy and seek per control and
/// one skip per delta byte.
proof fn lemma_read_frame_wf(c: Seq<u8>)
    requires
        read_frame(c).is_ok(),
    ensures
        sections_wf(read_frame(c).unwrap()),
{
    assert forall|ts: Seq<u8>, d: Seq<u8>| #[trigger] decode_groups(ts, d).len() == 4 * ts.len() by {
        crate::varint::lemma_decode_groups_len(ts, d);
    }
}

/// Where a compact stream stands for bsdiff records, patching with it writes
/// what applying those records writes.
pub proof fn lemma_patch_result_entries(old: Seq<u8>, c: Seq<u8>, room: nat)
    requires
        compact_entries(c).is_ok(),
    ensures
        patch_result(old, c, room) == run(old, compact_entries(c).unwrap(), room),
{
    let s = read_frame(c).unwrap();
    lemma_read_frame_wf(c);
    lemma_check_run(old, s, 0, 0, seq![], room);
}

/// Applying the compact form of a raw bsdiff stream to `old` writes exactly
/// what applying the stream's own records to `old` writes.
pub proof fn lemma_patch_encoded(old: Seq<u8>, p: Seq<u8>, room: nat)
    requires
        encode_result(p).is_ok(),
    ensures
        parse_bsdiff(p).is_some(),
        patch_result(old, encode_result(p).unwrap(), room) == run(old, parse_bsdiff(p).unwrap(), room),
{
    lemma_encoded(p);
    lemma_patch_result_entries(old, encode_result(p).unwrap(), room);
}

/// What `diff` appends stands for its records, which rebuild `new` from `old`.
pub proof fn lemma_diff_applies(old: Seq<u8>, new: Seq<u8>, es: Seq<Entry>)
    requires
        entries_wf(es),
        forall|k: int| 0 <= k < es.len() ==> fits_narrow(#[trigger] es[k].ctl),
        add_region(es).len() <= u32::MAX,
        counts_fit(sections_of(es)),
        run(old, es, new.len()) == Ok::<Seq<u8>, Error>(new),
    ensures
        compact_entries(compact_bytes(sections_of(es))) == Ok::<Seq<Entry>, Error>(es),
        patch_result(old, compact_bytes(sections_of(es)), new.len()) == Ok::<Seq<u8>, Error>(new),
{
    lemma_skips_diffs_len(add_region(es));
    lemma_frame_round_trip(sections_of(es));
    lemma_sections_entries(es);
    lemma_patch_result_entries(old, compact_bytes(sections_of(es)), new.len());
}

#[verifier::rlimit(60)]
proof fn lemma_truncated_sections(s: Sections, k: int)
    requires
        sections_wf(s),
        counts_fit(s),
        0 <= k < compact_bytes(s).len(),
    ensures
        read_frame(compact_bytes(s).take(k)).is_err(),
{
    lemma_frame_parts(s);
    lemma_pad_run(s.adds);
    lemma_pad_run(s.copies);
    lemma_pad_run(s.skips);
    lemma_pad_run(s.seeks);
    let c = compact_bytes(s);
    let t = c.take(k);
    if k > 0 {
        assert(t[0] == c[0]);
        let pl = tag_data_len(c[0]) as int;
        if k >= 1 + pl {
            assert(t.subrange(1, 1 + pl) =~= c.subrange(1, 1 + pl));
            let h = header(s);
            assert(decode_group(t[0], t.subrange(1, 1 + pl)) == h);
            assert(tag_runs(s).len() == 3 * groups(s.adds.len()) + groups(s.skips.len()));
        }
    }
}

/// Every proper prefix of a compact form produced by the encoder is refused
/// by the frame reader, and so by decode and by patch, whatever the room.
pub proof fn lemma_truncated(old: Seq<u8>, p: Seq<u8>, k: int, room: nat)
    requires
        encode_result(p).is_ok(),
        0 <= k < encode_result(p).unwrap().len(),
    ensures
        read_frame(encode_result(p).unwrap().take(k)).is_err(),
        compact_entries(encode_result(p).unwrap().take(k)).is_err(),
        patch_result(old, encode_result(p).unwrap().take(k), room).is_err(),
{
    lemma_encoded(p);
    lemma_truncated_sections(sections_of(parse_bsdiff(p).unwrap()), k);
}

proof fn lemma_run_from_room(
    old: Seq<u8>,
    es: Seq<Entry>,
    k: nat,
    oc: int,
    out: Seq<u8>,
    room: nat,
    room2: nat,
)
    requires
        run_from(old, es, k, oc, out, room).is_ok(),
        out.len() <= room2,
        0 <= oc,
    ensures
        room2 < run_from(old, es, k, oc, out, room).unwrap().len() ==> run_from(
            old,
            es,
            k,
            oc,
            out,
            room2,
        ) == Err::<Seq<u8>, Error>(Error::UnexpectedEof),
        room2 >= run_from(old, es, k, oc, out, room).unwrap().len() ==> run_from(
            old,
            es,
            k,
            oc,
            out,
            room2,
        ) == run_from(old, es, k, oc, out, room),
    decreases es.len() - k,
{
    if k < es.len() {
        lemma_run_step(old, es, k, oc, out, room);
        lemma_run_step(old, es, k, oc, out, room2);
        let e = es[k as int];
        let add = e.diff.len();
        let out2 = out + crate::stream::add_bytes(old.subrange(oc, oc + add), e.diff) + e.extra;
        if out.len() + add + e.extra.len() <= room2 {
            lemma_run_from_room(old, es, k + 1, crate::stream::next_cursor(oc, e), out2, room, room2);
        } else {
            lemma_run_out_len(old, es, k + 1, crate::stream::next_cursor(oc, e), out2, room);
        }
    }
}

proof fn lemma_run_out_len(old: Seq<u8>, es: Seq<Entry>, k: nat, oc: int, out: Seq<u8>, room: nat)
    requires
        run_from(old, es, k, oc, out, room).is_ok(),
        0 <= oc,
    ensures
        run_from(old, es, k, oc, out, room).unwrap().len() >= out.len(),
    decreases es.len() - k,
{
    if k < es.len() {
        lemma_run_step(old, es, k, oc, out, room);
        let e = es[k as int];
        let add = e.diff.len();
        let out2 = out + crate::stream::add_bytes(old.subrange(oc, oc + add), e.diff) + e.extra;
        lemma_run_out_len(old, es, k + 1, crate::stream::next_cursor(oc, e), out2, room);
    }
}

/// A patch that writes `w` within some room writes the same within any room
/// of at least `w.len()` bytes, and fails with `UnexpectedEof` within any
/// smaller room.
pub proof fn lemma_patch_room(old: Seq<u8>, c: Seq<u8>, room: nat, room2: nat)
    requires
        patch_result(old, c, room).is_ok(),
    ensures
        room2 < patch_result(old, c, room).unwrap().len() ==> patch_result(old, c, room2)
            == Err::<Seq<u8>, Error>(Error::UnexpectedEof),
        room2 >= patch_result(old, c, room).unwrap().len() ==> patch_result(old, c, room2)
            == patch_result(old, c, room),
{
    assert(compact_entries(c).is_ok());
    let es = compact_entries(c).unwrap();
    lemma_patch_result_entries(old, c, room);
    lemma_patch_result_entries(old, c, room2);
    lemma_run_from_room(old, es, 0, 0, seq![], room, room2);
}

/// The compact form of no records is the prefix tag alone, four zero counts.
pub proof fn lemma_empty_compact()
    ensures
        compact_bytes(sections_of(Seq::<Entry>::empty())) == seq![0u8],
{
    reveal(compact_bytes);
    let s = sections_of(Seq::<Entry>::empty());
    assert(pad4(s.adds) =~= Seq::<u32>::empty());
    assert(pad4(s.copies) =~= Seq::<u32>::empty());
    assert(pad4(s.seeks) =~= Seq::<u32>::empty());
    assert(s.skips =~= Seq::<u32>::empty());
    assert(pad4(s.skips) =~= Seq::<u32>::empty());
    assert(s.diffs =~= Seq::<u8>::empty());
    assert(s.literals =~= Seq::<u8>::empty());
    assert(data_runs(s) =~= Seq::<u8>::empty());
    assert(tag_runs(s) =~= Seq::<u8>::empty());
    let h = header(s);
    assert(h =~= seq![0u32, 0, 0, 0]);
    crate::varint::lemma_value_round_trip(0u32, seq![]);
    assert(group_data(h).len() == 0);
    assert(compact_bytes(s) =~= seq![0u8]);
}

/// When a raw bsdiff stream rebuilds `new` from `old`, its compact form
/// patches `old` into `new` within any room of at least `new.len()` bytes,
/// and fails with `UnexpectedEof` within any smaller room.
pub proof fn lemma_patch_rebuilds(old: Seq<u8>, new: Seq<u8>, p: Seq<u8>, room: nat)
    requires
        encode_result(p).is_ok(),
        parse_bsdiff(p).is_some(),
        run(old, parse_bsdiff(p).unwrap(), new.len()) == Ok::<Seq<u8>, Error>(new),
    ensures
        room >= new.len() ==> patch_result(old, encode_result(p).unwrap(), room) == Ok::<
            Seq<u8>,
            Error,
        >(new),
        room < new.len() ==> patch_result(old, encode_result(p).unwrap(), room) == Err::<
            Seq<u8>,
            Error,
        >(Error::UnexpectedEof),
{
    let c = encode_result(p).unwrap();
    lemma_patch_encoded(old, p, new.len());
    lemma_patch_room(old, c, new.len(), room);
}

} // verus!
