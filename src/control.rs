use vstd::prelude::*;

verus! {

/// A control record of the raw bsdiff format: `add` bytes are taken from the
/// old file and patched, `copy` bytes are inserted verbatim, and the old-file
/// cursor then moves by `seek`.
#[derive(Debug, Clone, Copy, PartialEq, Eq, Structural)]
pub struct Bsdiff {
    pub add: u64,
    pub copy: u64,
    pub seek: i64,
}

/// The narrow control record carried by the compact stream.
#[derive(Debug, Clone, Copy, PartialEq, Eq, Structural)]
pub struct Aehobak {
    pub add: u32,
    pub copy: u32,
    pub seek: i32,
}

pub const SIGN_BIT: u64 = 0x8000_0000_0000_0000;

/// Byte `k` (little-endian) of `x`.
pub open spec fn byte_of(x: u64, k: u64) -> u8 {
    ((x >> (8 * k)) & 0xff) as u8
}

/// The eight little-endian bytes of `x`.
pub open spec fn le_u64(x: u64) -> Seq<u8> {
    seq![
        byte_of(x, 0),
        byte_of(x, 1),
        byte_of(x, 2),
        byte_of(x, 3),
        byte_of(x, 4),
        byte_of(x, 5),
        byte_of(x, 6),
        byte_of(x, 7),
    ]
}

/// The integer whose little-endian bytes are `b[0..8]`.
pub open spec fn read_le_u64(b: Seq<u8>) -> u64 {
    (b[0] as u64) | ((b[1] as u64) << 8) | ((b[2] as u64) << 16) | ((b[3] as u64) << 24) | ((
    b[4] as u64) << 32) | ((b[5] as u64) << 40) | ((b[6] as u64) << 48) | ((b[7] as u64) << 56)
}

/// Sign-magnitude form of a seek: bit 63 is the sign, the low bits the magnitude.
pub open spec fn seek_to_wire(x: i64) -> u64 {
    if x >= 0 {
        x as u64
    } else if x == i64::MIN {
        SIGN_BIT
    } else {
        (SIGN_BIT + (-x)) as u64
    }
}

/// Inverse of `seek_to_wire`; the pattern with only the sign bit set reads as `i64::MIN`.
pub open spec fn seek_from_wire(x: u64) -> i64 {
    if x < SIGN_BIT {
        x as i64
    } else if x == SIGN_BIT {
        i64::MIN
    } else {
        (-(x - SIGN_BIT)) as i64
    }
}

/// The 24 bytes that stand for a control in a bsdiff stream.
pub open spec fn control_bytes(c: Bsdiff) -> Seq<u8> {
    le_u64(c.add) + le_u64(c.copy) + le_u64(seek_to_wire(c.seek))
}

/// The control that 24 bytes of a bsdiff stream stand for.
pub open spec fn parse_control(b: Seq<u8>) -> Bsdiff {
    Bsdiff {
        add: read_le_u64(b.subrange(0, 8)),
        copy: read_le_u64(b.subrange(8, 16)),
        seek: seek_from_wire(read_le_u64(b.subrange(16, 24))),
    }
}

/// Zig-zag mapping of a signed seek onto an unsigned word.
pub open spec fn zigzag(x: i32) -> u32 {
    if x >= 0 {
        (2 * x) as u32
    } else {
        (-2 * x - 1) as u32
    }
}

/// Inverse of `zigzag`.
pub open spec fn unzigzag(u: u32) -> i32 {
    if u % 2 == 0 {
        (u / 2) as i32
    } else {
        (-(u / 2) - 1) as i32
    }
}

/// The narrow control that three transported words stand for.
pub open spec fn words_to_control(w: Seq<u32>) -> Aehobak {
    Aehobak { add: w[0], copy: w[1], seek: unzigzag(w[2]) }
}

/// Whether every field of a wide control fits the narrow form.
pub open spec fn fits_narrow(c: Bsdiff) -> bool {
    c.add <= u32::MAX && c.copy <= u32::MAX && i32::MIN <= c.seek <= i32::MAX
}

pub open spec fn widen(c: Aehobak) -> Bsdiff {
    Bsdiff { add: c.add as u64, copy: c.copy as u64, seek: c.seek as i64 }
}

pub open spec fn narrow(c: Bsdiff) -> Aehobak {
    Aehobak { add: c.add as u32, copy: c.copy as u32, seek: c.seek as i32 }
}

proof fn lemma_le_u64(x: u64)
    ensures
        read_le_u64(le_u64(x)) == x,
{
    let b0 = byte_of(x, 0);
    let b1 = byte_of(x, 1);
    let b2 = byte_of(x, 2);
    let b3 = byte_of(x, 3);
    let b4 = byte_of(x, 4);
    let b5 = byte_of(x, 5);
    let b6 = byte_of(x, 6);
    let b7 = byte_of(x, 7);
    assert((b0 as u64) | ((b1 as u64) << 8) | ((b2 as u64) << 16) | ((b3 as u64) << 24) | ((
    b4 as u64) << 32) | ((b5 as u64) << 40) | ((b6 as u64) << 48) | ((b7 as u64) << 56) == x)
        by (bit_vector)
        requires
            b0 == ((x >> 0) & 0xff) as u8,
            b1 == ((x >> 8) & 0xff) as u8,
            b2 == ((x >> 16) & 0xff) as u8,
            b3 == ((x >> 24) & 0xff) as u8,
            b4 == ((x >> 32) & 0xff) as u8,
            b5 == ((x >> 40) & 0xff) as u8,
            b6 == ((x >> 48) & 0xff) as u8,
            b7 == ((x >> 56) & 0xff) as u8,
    ;
}

/// Writing a wide control as 24 bytes and reading them back gives the control,
/// for every add, copy and seek, `i64::MIN` included.
pub proof fn lemma_bsdiff_round_trip(c: Bsdiff)
    ensures
        control_bytes(c).len() == 24,
        parse_control(control_bytes(c)) == c,
{
    let b = control_bytes(c);
    lemma_le_u64(c.add);
    lemma_le_u64(c.copy);
    lemma_le_u64(seek_to_wire(c.seek));
    assert(b.subrange(0, 8) =~= le_u64(c.add));
    assert(b.subrange(8, 16) =~= le_u64(c.copy));
    assert(b.subrange(16, 24) =~= le_u64(seek_to_wire(c.seek)));
}

proof fn lemma_read_le_u64(b: Seq<u8>)
    requires
        b.len() == 8,
    ensures
        le_u64(read_le_u64(b)) =~= b,
{
    let (b0, b1, b2, b3, b4, b5, b6, b7) = (b[0], b[1], b[2], b[3], b[4], b[5], b[6], b[7]);
    let x = read_le_u64(b);
    assert(byte_of(x, 0) == b0 && byte_of(x, 1) == b1 && byte_of(x, 2) == b2 && byte_of(x, 3)
        == b3 && byte_of(x, 4) == b4 && byte_of(x, 5) == b5 && byte_of(x, 6) == b6 && byte_of(x, 7)
        == b7) by (bit_vector)
        requires
            x == (b0 as u64) | ((b1 as u64) << 8) | ((b2 as u64) << 16) | ((b3 as u64) << 24) | ((
            b4 as u64) << 32) | ((b5 as u64) << 40) | ((b6 as u64) << 48) | ((b7 as u64) << 56),
    ;
}

/// Reading 24 bytes as a control and writing it back gives the same bytes.
pub proof fn lemma_control_bytes_parse(b: Seq<u8>)
    requires
        b.len() == 24,
    ensures
        control_bytes(parse_control(b)) =~= b,
{
    lemma_read_le_u64(b.subrange(0, 8));
    lemma_read_le_u64(b.subrange(8, 16));
    lemma_read_le_u64(b.subrange(16, 24));
    let w = read_le_u64(b.subrange(16, 24));
    assert(seek_to_wire(seek_from_wire(w)) == w);
    assert(b =~= b.subrange(0, 8) + b.subrange(8, 16) + b.subrange(16, 24));
}

/// Transporting a narrow control as three words and reading them back gives
/// the control.
pub proof fn lemma_aehobak_round_trip(c: Aehobak)
    ensures
        words_to_control(seq![c.add, c.copy, zigzag(c.seek)]) == c,
{
}

/// A narrow control widened and narrowed again is unchanged; widening never
/// fails, and the wide form always fits the narrow one.
pub proof fn lemma_narrow_wide_narrow(c: Aehobak)
    ensures
        fits_narrow(widen(c)),
        narrow(widen(c)) == c,
{
}

fn push_le_u64(out: &mut Vec<u8>, x: u64)
    ensures
        final(out)@ == old(out)@ + le_u64(x),
{
    let ghost start = out@;
    let mut k: u64 = 0;
    while k < 8
        invariant
            k <= 8,
            out@ =~= start + le_u64(x).subrange(0, k as int),
        decreases 8 - k,
    {
        out.push(((x >> (8 * k)) & 0xff) as u8);
        k = k + 1;
    }
    assert(le_u64(x).subrange(0, 8) =~= le_u64(x));
}

fn read_u64_at(buf: &[u8], at: usize) -> (r: u64)
    requires
        at + 8 <= buf@.len(),
    ensures
        r == read_le_u64(buf@.subrange(at as int, at + 8)),
{
    (buf[at] as u64) | ((buf[at + 1] as u64) << 8) | ((buf[at + 2] as u64) << 16) | ((buf[at
        + 3] as u64) << 24) | ((buf[at + 4] as u64) << 32) | ((buf[at + 5] as u64) << 40) | ((
    buf[at + 6] as u64) << 48) | ((buf[at + 7] as u64) << 56)
}

impl Bsdiff {
    /// Appends the 24-byte bsdiff form of this control to `patch`.
    pub fn encode(&self, patch: &mut Vec<u8>)
        ensures
            final(patch)@ == old(patch)@ + control_bytes(*self),
    {
        let seek: u64 = if self.seek >= 0 {
            self.seek as u64
        } else if self.seek == i64::MIN {
            SIGN_BIT
        } else {
            SIGN_BIT + ((-self.seek) as u64)
        };
        push_le_u64(patch, self.add);
        push_le_u64(patch, self.copy);
        push_le_u64(patch, seek);
    }

    /// Reads a control from exactly 24 bytes; any other length is refused.
    pub fn decode(buf: &[u8]) -> (r: Option<Bsdiff>)
        ensures
            r.is_some() <==> buf@.len() == 24,
            r.is_some() ==> r == Some(parse_control(buf@)),
    {
        if buf.len() != 24 {
            return None;
        }
        let add = read_u64_at(buf, 0);
        let copy = read_u64_at(buf, 8);
        let raw = read_u64_at(buf, 16);
        let seek: i64 = if raw < SIGN_BIT {
            raw as i64
        } else if raw == SIGN_BIT {
            i64::MIN
        } else {
            -((raw - SIGN_BIT) as i64)
        };
        Some(Bsdiff { add, copy, seek })
    }

    /// The wide form of a narrow control; this never fails.
    pub fn from_aehobak(c: &Aehobak) -> (r: Bsdiff)
        ensures
            r == widen(*c),
    {
        Bsdiff { add: c.add as u64, copy: c.copy as u64, seek: c.seek as i64 }
    }
}

impl Aehobak {
    /// Appends this control's add, copy and zig-zagged seek to the three
    /// word streams.
    pub fn encode(&self, adds: &mut Vec<u32>, copies: &mut Vec<u32>, seeks: &mut Vec<u32>)
        ensures
            final(adds)@ == old(adds)@.push(self.add),
            final(copies)@ == old(copies)@.push(self.copy),
            final(seeks)@ == old(seeks)@.push(zigzag(self.seek)),
    {
        adds.push(self.add);
        copies.push(self.copy);
        seeks.push(zigzag_word(self.seek));
    }

    /// Reads a control from exactly three transported words.
    pub fn decode(words: &[u32]) -> (r: Option<Aehobak>)
        ensures
            r.is_some() <==> words@.len() == 3,
            r.is_some() ==> r == Some(words_to_control(words@)),
    {
        if words.len() != 3 {
            return None;
        }
        Some(Aehobak { add: words[0], copy: words[1], seek: unzigzag_word(words[2]) })
    }

    /// The narrow form of a wide control, if every field fits.
    pub fn from_bsdiff(c: &Bsdiff) -> (r: Option<Aehobak>)
        ensures
            r.is_some() <==> fits_narrow(*c),
            r.is_some() ==> r == Some(narrow(*c)),
    {
        if c.add > u32::MAX as u64 || c.copy > u32::MAX as u64 || c.seek < i32::MIN as i64
            || c.seek > i32::MAX as i64 {
            return None;
        }
        Some(Aehobak { add: c.add as u32, copy: c.copy as u32, seek: c.seek as i32 })
    }
}

pub fn zigzag_word(x: i32) -> (r: u32)
    ensures
        r == zigzag(x),
{
    if x >= 0 {
        (x as u32) * 2
    } else {
        ((-(x as i64) - 1) as u32) * 2 + 1
    }
}

pub fn unzigzag_word(u: u32) -> (r: i32)
    ensures
        r == unzigzag(u),
{
    if u % 2 == 0 {
        (u / 2) as i32
    } else {
        -((u / 2) as i32) - 1
    }
}

} // verus!
