use aehobak::{decode, diff, encode, patch, patch_within, Bsdiff, EncoderState, Error};

fn suffix_array(old: &[u8]) -> Vec<i32> {
    let mut sa: Vec<i32> = (0..old.len() as i32).collect();
    sa.sort_by(|&a, &b| old[a as usize..].cmp(&old[b as usize..]));
    sa
}

struct Rng(u64);

impl Rng {
    fn next(&mut self) -> u64 {
        self.0 ^= self.0 << 13;
        self.0 ^= self.0 >> 7;
        self.0 ^= self.0 << 17;
        self.0
    }

    fn bytes(&mut self, n: usize, alphabet: u64) -> Vec<u8> {
        (0..n).map(|_| (self.next() % alphabet) as u8).collect()
    }
}

fn pairs() -> Vec<(Vec<u8>, Vec<u8>)> {
    let mut rng = Rng(0x9e37_79b9_7f4a_7c15);
    let mut out = vec![
        (vec![], vec![]),
        (vec![], vec![1, 2, 3]),
        (vec![1, 2, 3], vec![]),
        (vec![7; 10], vec![7; 10]),
    ];
    for round in 0..24 {
        let n = 1 + (rng.next() % 300) as usize;
        let old = rng.bytes(n, if round % 2 == 0 { 4 } else { 256 });
        let mut new = old.clone();
        let edits = rng.next() % 6;
        for _ in 0..edits {
            let at = (rng.next() as usize) % (new.len() + 1);
            match rng.next() % 3 {
                0 if at < new.len() => new[at] = new[at].wrapping_add(1 + (rng.next() % 200) as u8),
                1 => {
                    let len = (rng.next() % 20) as usize;
                    let extra = rng.bytes(len, 256);
                    new.splice(at..at, extra);
                }
                _ if at < new.len() => {
                    let end = (at + (rng.next() % 10) as usize).min(new.len());
                    new.drain(at..end);
                }
                _ => {}
            }
        }
        out.push((old, new));
    }
    out
}

fn bsdiff_stream(old: &[u8], new: &[u8]) -> Vec<u8> {
    let mut p = Vec::new();
    bsdiff::diff(old, new, &mut p).unwrap();
    p
}

#[test]
fn encode_decode_round_trip() {
    for (old, new) in pairs() {
        let p = bsdiff_stream(&old, &new);
        let mut encoded = Vec::new();
        encode(&p, &mut encoded).unwrap();
        let mut decoded = Vec::new();
        decode(&encoded, &mut decoded).unwrap();
        assert_eq!(decoded, p);
    }
}

#[test]
fn direct_patch_equals_reference() {
    for (old, new) in pairs() {
        let p = bsdiff_stream(&old, &new);
        let mut encoded = Vec::new();
        encode(&p, &mut encoded).unwrap();
        let mut result = Vec::with_capacity(new.len());
        patch(&old, &encoded, &mut result).unwrap();
        assert_eq!(result, new);
    }
}

#[test]
fn direct_diff_applies() {
    for (old, new) in pairs() {
        let sa = suffix_array(&old);
        let mut encoded = Vec::new();
        diff(&old, &new, &sa, &mut encoded).unwrap();
        let mut result = Vec::with_capacity(new.len());
        patch(&old, &encoded, &mut result).unwrap();
        assert_eq!(result, new);
        let mut decoded = Vec::new();
        decode(&encoded, &mut decoded).unwrap();
        let mut rebuilt = Vec::new();
        bsdiff::patch(&old, &mut decoded.as_slice(), &mut rebuilt).unwrap();
        assert_eq!(rebuilt, new);
    }
}

#[test]
fn direct_diff_matches_bsdiff_on_single_edit() {
    let mut rng = Rng(12345);
    for _ in 0..10 {
        let len = 1 + (rng.next() % 200) as usize;
        let old = rng.bytes(len, 256);
        let mut new = old.clone();
        let at = (rng.next() as usize) % new.len();
        new[at] = new[at].wrapping_add(1);
        let reference = bsdiff_stream(&old, &new);
        let mut direct = Vec::new();
        diff(&old, &new, &suffix_array(&old), &mut direct).unwrap();
        let mut raw = Vec::new();
        decode(&direct, &mut raw).unwrap();
        assert_eq!(raw, reference);
    }
}

#[test]
fn patch_fails_at_first_failing_control() {
    // control 0 seeks below the start of old; control 1 asks for missing literals
    let stream = [68u8, 2, 2, 0, 4, 1, 5, 1];
    let mut out = Vec::with_capacity(16);
    assert_eq!(patch(&[], &stream, &mut out), Err(Error::InvalidData));
    // a delta past the add region, after a control that reads past old
    let mut raw = Vec::new();
    Bsdiff { add: 2, copy: 0, seek: 0 }.encode(&mut raw);
    raw.extend_from_slice(&[0, 0]);
    let mut encoded = Vec::new();
    encode(&raw, &mut encoded).unwrap();
    let mut out = Vec::with_capacity(16);
    assert_eq!(patch(&[7], &encoded, &mut out), Err(Error::UnexpectedEof));
}

#[test]
fn truncation_is_detected() {
    for (old, new) in pairs() {
        if new.len() < 2 {
            continue;
        }
        let mut encoded = Vec::new();
        encode(&bsdiff_stream(&old, &new), &mut encoded).unwrap();
        for cut in 1..encoded.len() {
            let mut result = Vec::with_capacity(new.len());
            assert!(patch(&old, &encoded[..cut], &mut result).is_err());
            let mut decoded = Vec::new();
            assert!(decode(&encoded[..cut], &mut decoded).is_err());
        }
    }
}

#[test]
fn capacity_bounded_patch() {
    for (old, new) in pairs() {
        if new.len() < 2 {
            continue;
        }
        let mut encoded = Vec::new();
        encode(&bsdiff_stream(&old, &new), &mut encoded).unwrap();
        let mut result = Vec::with_capacity(new.len() / 2);
        assert_eq!(patch(&old, &encoded, &mut result), Err(Error::UnexpectedEof));
        let mut bounded = Vec::new();
        assert_eq!(patch_within(&old, &encoded, &mut bounded, new.len() - 1), Err(Error::UnexpectedEof));
        let mut exact = Vec::new();
        assert_eq!(patch_within(&old, &encoded, &mut exact, new.len()), Ok(()));
        assert_eq!(exact, new);
    }
}

#[test]
fn empty_inputs() {
    let mut encoded = Vec::new();
    encode(&[], &mut encoded).unwrap();
    assert_eq!(encoded, vec![0u8]);
    let mut direct = Vec::new();
    diff(&[], &[], &[], &mut direct).unwrap();
    assert_eq!(direct, vec![0u8]);
    let mut decoded = Vec::new();
    decode(&encoded, &mut decoded).unwrap();
    assert!(decoded.is_empty());
    let mut result = Vec::with_capacity(4);
    patch(&[], &encoded, &mut result).unwrap();
    assert!(result.is_empty());
}

#[test]
fn single_changed_byte() {
    let n = 64usize;
    let k = 17usize;
    let old = vec![0u8; n];
    let mut new = old.clone();
    new[k] += 1;
    let p = bsdiff_stream(&old, &new);
    assert_eq!(p.len(), 24 + n);
    let ctl = Bsdiff::decode(&p[..24]).unwrap();
    assert_eq!((ctl.add, ctl.copy), (n as u64, 0));
    let mut deltas = vec![0u8; n];
    deltas[k] = 1;
    assert_eq!(&p[24..], deltas.as_slice());
    let mut encoded = Vec::new();
    encode(&p, &mut encoded).unwrap();
    // prefix: no literals, one control, one delta, then the data length
    assert_eq!(encoded[0] & 0b1111_1100, (1 << 2) | (1 << 4) | (1 << 6));
    assert_eq!(&encoded[1..3], &[1u8, 1][..]);
    let tags = &encoded[4..8];
    assert_eq!(&tags[..3], &[1u8, 0, 1][..]);
    assert_eq!(encoded[8], 1);
    assert_eq!(&encoded[9..11], &[n as u8, k as u8][..]);
    let mut result = Vec::with_capacity(n);
    patch(&old, &encoded, &mut result).unwrap();
    assert_eq!(result, new);
    let mut direct = Vec::new();
    diff(&old, &new, &suffix_array(&old), &mut direct).unwrap();
    let mut result = Vec::with_capacity(n);
    patch(&old, &direct, &mut result).unwrap();
    assert_eq!(result, new);
    let mut raw = Vec::new();
    decode(&direct, &mut raw).unwrap();
    assert_eq!(raw.len(), 24 + n);
    let ctl = Bsdiff::decode(&raw[..24]).unwrap();
    assert_eq!((ctl.add, ctl.copy), (n as u64, 0));
    assert_eq!(&raw[24..], deltas.as_slice());
}

#[test]
fn encode_exact_bytes() {
    let mut p = Vec::new();
    Bsdiff { add: 1, copy: 1, seek: -1 }.encode(&mut p);
    p.push(5);
    p.push(7);
    let mut encoded = Vec::new();
    encode(&p, &mut encoded).unwrap();
    assert_eq!(encoded, vec![0x55, 1, 1, 1, 3, 7, 1, 1, 0, 1, 5, 1, 1, 1]);
    let mut decoded = Vec::new();
    decode(&encoded, &mut decoded).unwrap();
    assert_eq!(decoded, p);
    let mut result = Vec::with_capacity(2);
    patch(&[10], &encoded, &mut result).unwrap();
    assert_eq!(result, vec![15, 7]);
}

#[test]
fn encoder_state_steps() {
    let mut st = EncoderState::new(0);
    st.control(aehobak::Aehobak { add: 3, copy: 2, seek: 0 });
    st.add(&[1, 2, 3], &[1, 5, 3]);
    st.copy(&[8, 9]);
    let mut out = Vec::new();
    st.write(&mut out).unwrap();
    let mut decoded = Vec::new();
    decode(&out, &mut decoded).unwrap();
    let mut expected = Vec::new();
    Bsdiff { add: 3, copy: 2, seek: 0 }.encode(&mut expected);
    expected.extend_from_slice(&[0, 3, 0, 8, 9]);
    assert_eq!(decoded, expected);
    let mut st2 = EncoderState::new(0);
    st2.control(aehobak::Aehobak { add: 3, copy: 2, seek: 0 });
    st2.add_diffed(&[0, 3, 0]);
    st2.copy(&[8, 9]);
    let mut out2 = Vec::new();
    st2.write(&mut out2).unwrap();
    assert_eq!(out2, out);
    let parsed = EncoderState::parse(&expected).unwrap();
    let mut out3 = Vec::new();
    parsed.write(&mut out3).unwrap();
    assert_eq!(out3, out);
}

#[test]
fn encode_errors() {
    let mut out = Vec::new();
    assert_eq!(encode(&[0u8; 10], &mut out), Err(Error::UnexpectedEof));
    let mut p = Vec::new();
    Bsdiff { add: 5, copy: 0, seek: 0 }.encode(&mut p);
    p.push(1);
    assert_eq!(encode(&p, &mut out), Err(Error::UnexpectedEof));
    let mut wide = Vec::new();
    Bsdiff { add: 0, copy: 0, seek: 1 << 40 }.encode(&mut wide);
    assert_eq!(encode(&wide, &mut out), Err(Error::InvalidData));
    assert!(out.is_empty());
}

#[test]
fn decode_and_patch_errors() {
    let mut out = Vec::new();
    assert_eq!(decode(&[], &mut out), Err(Error::UnexpectedEof));
    let mut result = Vec::with_capacity(10);
    assert_eq!(patch(&[], &[], &mut result), Err(Error::UnexpectedEof));
    let mut p = Vec::new();
    Bsdiff { add: 2, copy: 0, seek: 0 }.encode(&mut p);
    p.extend_from_slice(&[0, 0]);
    let mut encoded = Vec::new();
    encode(&p, &mut encoded).unwrap();
    let mut result = Vec::with_capacity(10);
    assert_eq!(patch(&[1], &encoded, &mut result), Err(Error::UnexpectedEof));
    let mut p = Vec::new();
    Bsdiff { add: 0, copy: 0, seek: -1 }.encode(&mut p);
    let mut encoded = Vec::new();
    encode(&p, &mut encoded).unwrap();
    let mut result = Vec::with_capacity(10);
    assert_eq!(patch(&[1], &encoded, &mut result), Err(Error::InvalidData));
    // a delta placed past the add region
    let bad = vec![0x55u8, 0, 1, 1, 2, 1, 0, 1, 0, 9, 1, 5];
    let mut decoded = Vec::new();
    assert_eq!(decode(&bad, &mut decoded), Err(Error::InvalidData));
}

#[test]
fn diff_refuses_bad_suffix_array() {
    let mut out = Vec::new();
    assert_eq!(diff(&[1, 2], &[1, 2, 3], &[0, 5], &mut out), Err(Error::InvalidData));
    assert_eq!(diff(&[1, 2], &[1, 2, 3], &[-1, 0], &mut out), Err(Error::InvalidData));
}

fn synthetic_stream(skeleton: &[(u8, u8, i8)], period: u8, phase: u8) -> (Vec<u8>, usize, usize) {
    let mut stream = Vec::new();
    let mut diffs = phase as usize;
    let mut old_len = 0usize;
    let mut new_len = 0usize;
    let mut cursor = 0usize;
    for &(add, copy, seek) in skeleton {
        let (add, copy, seek) = (add as u32, copy as u32, seek as i32);
        let word = ((seek << 1) ^ (seek >> 31)) as u32;
        let control = Bsdiff::from_aehobak(&aehobak::Aehobak::decode(&[add, copy, word]).unwrap());
        control.encode(&mut stream);
        for _ in 0..add {
            stream.push((diffs % (1 + period as usize) == 0) as u8);
            diffs += 1;
        }
        cursor += add as usize;
        old_len = old_len.max(cursor);
        cursor = (cursor as i64 + seek as i64).max(0) as usize;
        stream.resize(stream.len() + copy as usize, 0);
        new_len += copy as usize + add as usize;
    }
    (stream, old_len, new_len)
}

#[test]
fn arbitrary_patch_agrees_with_bspatch() {
    let mut rng = Rng(0xeba2_fa67_e5a8_1121);
    for _ in 0..200 {
        let count = (rng.next() % 6) as usize;
        let skeleton: Vec<(u8, u8, i8)> =
            (0..count).map(|_| (rng.next() as u8, rng.next() as u8, rng.next() as i8)).collect();
        let period = rng.next() as u8;
        let phase = rng.next() as u8;
        let (stream, old_len, new_len) = synthetic_stream(&skeleton, period, phase);
        let old = vec![0u8; old_len];
        let mut encoded = Vec::new();
        encode(&stream, &mut encoded).unwrap();
        let mut result = Vec::with_capacity(new_len);
        match patch(&old, &encoded, &mut result) {
            Ok(()) => {
                let mut reference = Vec::new();
                bsdiff::patch(&old, &mut stream.as_slice(), &mut reference).unwrap();
                assert_eq!(result, reference);
            }
            Err(e) => assert!(e == Error::InvalidData || e == Error::UnexpectedEof),
        }
    }
}

#[test]
fn freeze_pads_runs() {
    let mut st = EncoderState::new(0);
    st.control(aehobak::Aehobak { add: 3, copy: 2, seek: -1 });
    st.add_diffed(&[0, 3, 4]);
    st.copy(&[8, 9]);
    let (adds, copies, skips, seeks) = st.freeze();
    assert_eq!(adds, vec![3, 0, 0, 0]);
    assert_eq!(copies, vec![2, 0, 0, 0]);
    assert_eq!(skips, vec![1, 0, 0, 0]);
    assert_eq!(seeks, vec![1, 0, 0, 0]);
}
