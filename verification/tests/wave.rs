use osctet::bytes::read_u32;
use osctet::pcm;
use osctet::smpl;

fn put_u32(v: &mut Vec<u8>, offset: usize, x: u32) {
    v[offset..offset + 4].copy_from_slice(&x.to_le_bytes());
}

/// A RIFF-like prefix followed by a "smpl" chunk with the given loops.
fn wave_with_smpl(unity: u32, fraction: u32, loops: &[(u32, u32)]) -> Vec<u8> {
    let mut v = b"RIFF\0\0\0\0WAVEdata".to_vec();
    let start = v.len();
    v.extend_from_slice(&vec![0u8; 0x34 + 24 * loops.len()]);
    v[start..start + 4].copy_from_slice(b"smpl");
    put_u32(&mut v, start + 0x14, unity);
    put_u32(&mut v, start + 0x18, fraction);
    put_u32(&mut v, start + 0x24, loops.len() as u32);
    for (i, (s, e)) in loops.iter().enumerate() {
        put_u32(&mut v, start + 0x34 + 24 * i, *s);
        put_u32(&mut v, start + 0x38 + 24 * i, *e);
    }
    v
}

#[test]
fn read_u32_little_endian() {
    let data = [1, 2, 3, 4, 5];
    assert_eq!(read_u32(&data, 0), Some(0x04030201));
    assert_eq!(read_u32(&data, 1), Some(0x05040302));
    assert_eq!(read_u32(&data, 2), None);
}

#[test]
fn smpl_chunk_with_loops() {
    let v = wave_with_smpl(60, 128, &[(10, 20), (30, 40)]);
    let s = pcm::SmplData::from_wave(&v).unwrap();
    assert_eq!(s.unity_note, 60);
    assert_eq!(s.pitch_fraction, 128);
    assert_eq!(s.sample_loops, vec![(10, 20), (30, 40)]);
}

#[test]
fn smpl_chunk_missing_or_short() {
    assert!(pcm::SmplData::from_wave(b"RIFF....WAVEdata").is_none());
    assert!(pcm::SmplData::from_wave(b"xxsmpl0123").is_none());
    // a loop count larger than the records present keeps only whole records
    let mut v = wave_with_smpl(69, 0, &[(1, 2)]);
    let start = 16;
    put_u32(&mut v, start + 0x24, 5);
    let s = pcm::SmplData::from_wave(&v).unwrap();
    assert_eq!(s.sample_loops, vec![(1, 2)]);
}

#[test]
fn packed_smpl_layout() {
    let v = wave_with_smpl(60, 0, &[(10, 20), (30, 40)]);
    let s = smpl::SmplData::from_wave(&v).unwrap();
    assert_eq!(s.unity_note, 60);
    // starts come from consecutive words, every end from the first record
    assert_eq!(s.sample_loops, vec![(10, 20), (20, 20)]);
}
