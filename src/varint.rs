use streamvbyte64::{Coder, Coder0124};
use vstd::prelude::*;

verus! {

/// The 2-bit width code of a value: 0, 1, 2 or 4 data bytes.
pub open spec fn width_code(v: u32) -> int {
    if v == 0 {
        0
    } else if v < 0x100 {
        1
    } else if v < 0x1_0000 {
        2
    } else {
        3
    }
}

/// Number of data bytes a width code stands for.
pub open spec fn code_width(c: int) -> nat {
    if c == 0 {
        0
    } else if c == 1 {
        1
    } else if c == 2 {
        2
    } else {
        4
    }
}

/// The width code of entry `i` (0..4) of a group, held at bits `2i..2i+2` of its tag.
#[verifier::opaque]
pub open spec fn tag_field(t: u8, i: int) -> int {
    if i == 0 {
        t as int % 4
    } else if i == 1 {
        (t as int / 4) % 4
    } else if i == 2 {
        (t as int / 16) % 4
    } else {
        t as int / 64
    }
}

/// Width in bytes of entry `i` of a group with tag `t`.
pub open spec fn field_width(t: u8, i: int) -> nat {
    code_width(tag_field(t, i))
}

/// Data bytes taken by the group with tag `t`.
pub open spec fn tag_data_len(t: u8) -> nat {
    field_width(t, 0) + field_width(t, 1) + field_width(t, 2) + field_width(t, 3)
}

/// Data bytes taken by all the groups of a tag run.
pub open spec fn tags_data_len(ts: Seq<u8>) -> nat
    decreases ts.len(),
{
    if ts.len() == 0 {
        0
    } else {
        tag_data_len(ts[0]) + tags_data_len(ts.drop_first())
    }
}

/// The tag of a group of four values.
pub open spec fn group_tag(g: Seq<u32>) -> u8 {
    (width_code(g[0]) + 4 * width_code(g[1]) + 16 * width_code(g[2]) + 64 * width_code(
        g[3],
    )) as u8
}

/// Byte `k` (0..4) of `v`, little-endian.
pub open spec fn byte32(v: u32, k: int) -> u8 {
    if k == 0 {
        (v % 0x100) as u8
    } else if k == 1 {
        ((v / 0x100) % 0x100) as u8
    } else if k == 2 {
        ((v / 0x1_0000) % 0x100) as u8
    } else {
        (v / 0x100_0000) as u8
    }
}

/// The data bytes of one value: its low little-endian bytes, as many as its width.
#[verifier::opaque]
pub open spec fn value_bytes(v: u32) -> Seq<u8> {
    Seq::new(code_width(width_code(v)), |k: int| byte32(v, k))
}

/// The value held by the first `n` bytes of `b`, little-endian (`n` is 0, 1, 2 or 4).
#[verifier::opaque]
pub open spec fn read_value(b: Seq<u8>, n: nat) -> u32 {
    if n == 0 {
        0
    } else if n == 1 {
        b[0] as u32
    } else if n == 2 {
        (b[0] + 0x100 * b[1]) as u32
    } else {
        (b[0] + 0x100 * b[1] + 0x1_0000 * b[2] + 0x100_0000 * b[3]) as u32
    }
}

/// The data bytes of a group of four values.
pub open spec fn group_data(g: Seq<u32>) -> Seq<u8> {
    value_bytes(g[0]) + value_bytes(g[1]) + value_bytes(g[2]) + value_bytes(g[3])
}

/// The four values of the group with tag `t` whose data starts `d`.
pub open spec fn decode_group(t: u8, d: Seq<u8>) -> Seq<u32> {
    let d1 = d.subrange(field_width(t, 0) as int, d.len() as int);
    let d2 = d1.subrange(field_width(t, 1) as int, d1.len() as int);
    let d3 = d2.subrange(field_width(t, 2) as int, d2.len() as int);
    seq![
        read_value(d, field_width(t, 0)),
        read_value(d1, field_width(t, 1)),
        read_value(d2, field_width(t, 2)),
        read_value(d3, field_width(t, 3)),
    ]
}

/// The tag run of a sequence of values whose length is a multiple of four.
pub open spec fn encode_tags(vs: Seq<u32>) -> Seq<u8>
    decreases vs.len(),
{
    if vs.len() < 4 {
        seq![]
    } else {
        seq![group_tag(vs.subrange(0, 4))] + encode_tags(vs.subrange(4, vs.len() as int))
    }
}

/// The data run of a sequence of values whose length is a multiple of four.
pub open spec fn encode_data(vs: Seq<u32>) -> Seq<u8>
    decreases vs.len(),
{
    if vs.len() < 4 {
        seq![]
    } else {
        group_data(vs.subrange(0, 4)) + encode_data(vs.subrange(4, vs.len() as int))
    }
}

/// The values that a tag run and its data stand for, four per tag.
pub open spec fn decode_groups(ts: Seq<u8>, d: Seq<u8>) -> Seq<u32>
    decreases ts.len(),
{
    if ts.len() == 0 {
        seq![]
    } else {
        decode_group(ts[0], d) + decode_groups(
            ts.drop_first(),
            d.subrange(tag_data_len(ts[0]) as int, d.len() as int),
        )
    }
}

pub proof fn lemma_value_round_trip(v: u32, rest: Seq<u8>)
    ensures
        value_bytes(v).len() == code_width(width_code(v)),
        read_value(value_bytes(v) + rest, code_width(width_code(v))) == v,
{
    let b = value_bytes(v) + rest;
    reveal(read_value);
    reveal(value_bytes);
    if v == 0 {
    } else if v < 0x100 {
        assert(b[0] == byte32(v, 0));
    } else if v < 0x1_0000 {
        assert(b[0] == byte32(v, 0));
        assert(b[1] == byte32(v, 1));
        assert((v % 0x100) + 0x100 * ((v / 0x100) % 0x100) == v) by (nonlinear_arith)
            requires
                v < 0x1_0000,
        ;
    } else {
        assert(b[0] == byte32(v, 0));
        assert(b[1] == byte32(v, 1));
        assert(b[2] == byte32(v, 2));
        assert(b[3] == byte32(v, 3));
        assert((v % 0x100) + 0x100 * ((v / 0x100) % 0x100) + 0x1_0000 * ((v / 0x1_0000) % 0x100)
            + 0x100_0000 * (v / 0x100_0000) == v) by (nonlinear_arith);
    }
}

proof fn lemma_tag_fields(c0: int, c1: int, c2: int, c3: int)
    requires
        0 <= c0 < 4,
        0 <= c1 < 4,
        0 <= c2 < 4,
        0 <= c3 < 4,
    ensures
        ({
            let t = (c0 + 4 * c1 + 16 * c2 + 64 * c3) as u8;
            tag_field(t, 0) == c0 && tag_field(t, 1) == c1 && tag_field(t, 2) == c2 && tag_field(
                t,
                3,
            ) == c3
        }),
{
    let x = c0 + 4 * c1 + 16 * c2 + 64 * c3;
    reveal(tag_field);
    assert(0 <= x < 256);
    assert(x % 4 == c0 && (x / 4) % 4 == c1 && (x / 16) % 4 == c2 && x / 64 == c3)
        by (nonlinear_arith)
        requires
            x == c0 + 4 * c1 + 16 * c2 + 64 * c3,
            0 <= c0 < 4,
            0 <= c1 < 4,
            0 <= c2 < 4,
            0 <= c3 < 4,
    ;
}

proof fn lemma_skip_prefix(a: Seq<u8>, b: Seq<u8>)
    ensures
        (a + b).subrange(a.len() as int, (a + b).len() as int) =~= b,
{
}

pub proof fn lemma_group_round_trip(g: Seq<u32>, rest: Seq<u8>)
    requires
        g.len() == 4,
    ensures
        tag_data_len(group_tag(g)) == group_data(g).len(),
        decode_group(group_tag(g), group_data(g) + rest) =~= g,
{
    let t = group_tag(g);
    lemma_tag_fields(width_code(g[0]), width_code(g[1]), width_code(g[2]), width_code(g[3]));
    let b0 = value_bytes(g[0]);
    let b1 = value_bytes(g[1]);
    let b2 = value_bytes(g[2]);
    let b3 = value_bytes(g[3]);
    let r3 = b3 + rest;
    let r2 = b2 + r3;
    let r1 = b1 + r2;
    let d = b0 + r1;
    assert(group_data(g) + rest =~= d);
    lemma_value_round_trip(g[0], r1);
    lemma_value_round_trip(g[1], r2);
    lemma_value_round_trip(g[2], r3);
    lemma_value_round_trip(g[3], rest);
    lemma_skip_prefix(b0, r1);
    lemma_skip_prefix(b1, r2);
    lemma_skip_prefix(b2, r3);
}

/// Decoding the tag and data runs that a sequence of values encodes to gives
/// the values back, whatever bytes follow the data.
pub proof fn lemma_groups_round_trip(vs: Seq<u32>, rest: Seq<u8>)
    requires
        vs.len() % 4 == 0,
    ensures
        encode_tags(vs).len() == vs.len() / 4,
        tags_data_len(encode_tags(vs)) == encode_data(vs).len(),
        encode_data(vs).len() <= 4 * vs.len(),
        decode_groups(encode_tags(vs), encode_data(vs) + rest) =~= vs,
    decreases vs.len(),
{
    if vs.len() >= 4 {
        let g = vs.subrange(0, 4);
        let tail = vs.subrange(4, vs.len() as int);
        lemma_groups_round_trip(tail, rest);
        lemma_group_round_trip(g, encode_data(tail) + rest);
        let ts = encode_tags(vs);
        let d = encode_data(vs) + rest;
        assert(ts.drop_first() =~= encode_tags(tail));
        assert(d =~= group_data(g) + (encode_data(tail) + rest));
        assert(d.subrange(tag_data_len(ts[0]) as int, d.len() as int) =~= encode_data(tail) + rest);
        assert(vs =~= g + tail);
        lemma_value_round_trip(g[0], rest);
        lemma_value_round_trip(g[1], rest);
        lemma_value_round_trip(g[2], rest);
        lemma_value_round_trip(g[3], rest);
    } else {
        assert(vs.len() == 0);
        assert(vs =~= seq![]);
    }
}

pub proof fn lemma_decode_groups_len(ts: Seq<u8>, d: Seq<u8>)
    ensures
        decode_groups(ts, d).len() == 4 * ts.len(),
    decreases ts.len(),
{
    if ts.len() > 0 {
        lemma_decode_groups_len(ts.drop_first(), d.subrange(tag_data_len(ts[0]) as int, d.len() as int));
    }
}

fn code_len(c: u8) -> (r: u64)
    ensures
        r == code_width(c as int),
{
    if c == 0 {
        0
    } else if c == 1 {
        1
    } else if c == 2 {
        2
    } else {
        4
    }
}

/// Data bytes taken by one group, read from its tag.
pub fn group_len(t: u8) -> (r: u64)
    ensures
        r == tag_data_len(t),
        r <= 16,
{
    reveal(tag_field);
    code_len(t % 4) + code_len((t / 4) % 4) + code_len((t / 16) % 4) + code_len(t / 64)
}

/// Data bytes taken by all the groups of a tag run (the sum of `group_len`).
pub fn data_len(tags: &[u8]) -> (r: u64)
    requires
        tags@.len() <= 0x1_0000_0000,
    ensures
        r == tags_data_len(tags@),
        r <= 16 * tags@.len(),
{
    let mut r: u64 = 0;
    let mut i: usize = tags.len();
    while i > 0
        invariant
            i <= tags@.len() <= 0x1_0000_0000,
            r == tags_data_len(tags@.subrange(i as int, tags@.len() as int)),
            r <= 16 * (tags@.len() - i),
        decreases i,
    {
        i = i - 1;
        let ghost rest = tags@.subrange(i as int, tags@.len() as int);
        assert(rest.drop_first() =~= tags@.subrange(i + 1, tags@.len() as int));
        r = r + group_len(tags[i]);
    }
    assert(tags@.subrange(0, tags@.len() as int) =~= tags@);
    r
}

/// Relies on `Coder0124::encode`: one tag per group of four values, and for
/// each value its low little-endian bytes, 0, 1, 2 or 4 of them; it returns
/// the data bytes it wrote (bytes past them in `data` may be overwritten).
#[verifier::external_body]
fn encode_into(values: &[u32], tags: &mut Vec<u8>, data: &mut Vec<u8>) -> (r: usize)
    requires
        values@.len() % 4 == 0,
        old(tags)@.len() == values@.len() / 4,
        old(data)@.len() == 4 * values@.len(),
    ensures
        final(tags)@ == encode_tags(values@),
        r == encode_data(values@).len(),
        final(data)@.len() == old(data)@.len(),
        final(data)@.subrange(0, r as int) == encode_data(values@),
{
    Coder0124::new().encode(values, tags, data)
}

/// The tag run and the data run of `values`.
pub fn encode(values: &[u32]) -> (r: (Vec<u8>, Vec<u8>))
    requires
        values@.len() % 4 == 0,
        4 * values@.len() + 16 <= usize::MAX,
    ensures
        r.0@ == encode_tags(values@),
        r.1@ == encode_data(values@),
{
    let mut tags: Vec<u8> = vec![0u8; values.len() / 4];
    let mut data: Vec<u8> = vec![0u8; 4 * values.len()];
    let n = encode_into(values, &mut tags, &mut data);
    proof {
        lemma_groups_round_trip(values@, seq![]);
    }
    data.truncate(n);
    (tags, data)
}

/// Relies on `Coder0124::decode`: four values per tag, read from the data
/// as the tag's width codes say; it returns the data bytes it consumed.
#[verifier::external_body]
pub fn decode(tags: &[u8], data: &[u8], values: &mut Vec<u32>) -> (r: usize)
    requires
        old(values)@.len() == 4 * tags@.len(),
        tags_data_len(tags@) <= data@.len(),
        4 * tags@.len() <= usize::MAX,
    ensures
        final(values)@ == decode_groups(tags@, data@),
        r == tags_data_len(tags@),
{
    Coder0124::new().decode(tags, data, values)
}

} // verus!
