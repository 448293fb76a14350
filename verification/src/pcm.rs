//! The sampler chunk of Wave files.

use vstd::prelude::*;

verus! {

use crate::bytes::{find_bytes, is_first_occurrence, read_u32, read_u32_spec};
use vstd::slice::slice_subrange;

/// Relevant data from a "smpl" chunk: the unity note with its fraction (in
/// 256ths of a semitone), and the sample loops as inclusive ranges.
pub struct SmplData {
    pub unity_note: u32,
    pub pitch_fraction: u32,
    pub sample_loops: Vec<(usize, usize)>,
}

/// The loops whose start and end both lie in `data`, among the first
/// `count` loop records (each 24 bytes, starting at 0x34).
pub open spec fn loop_records(data: Seq<u8>, count: int) -> Seq<(usize, usize)>
    decreases count,
{
    if count <= 0 {
        Seq::empty()
    } else {
        let i = count - 1;
        let prev = loop_records(data, i);
        match (read_u32_spec(data, 0x34 + i * 24), read_u32_spec(data, 0x38 + i * 24)) {
            (Some(s), Some(e)) => prev.push((s as usize, e as usize)),
            _ => prev,
        }
    }
}

/// The "smpl" chunk that starts at the beginning of `data`, if its header
/// fields are there.
pub open spec fn smpl_chunk_spec(data: Seq<u8>) -> Option<(u32, u32, Seq<(usize, usize)>)> {
    match (read_u32_spec(data, 0x14), read_u32_spec(data, 0x18), read_u32_spec(data, 0x24)) {
        (Some(unity), Some(fraction), Some(count)) =>
            Some((unity, fraction, loop_records(data, count as int))),
        _ => None,
    }
}

proof fn lemma_loop_records_past_end(data: Seq<u8>, count: int, k: int)
    requires
        0 <= k <= count,
        0x38 + k * 24 + 4 > data.len(),
    ensures
        loop_records(data, count) == loop_records(data, k),
    decreases count - k,
{
    if count > k {
        lemma_loop_records_past_end(data, count - 1, k);
        let i = count - 1;
        assert(0x38 + i * 24 + 4 > data.len());
    }
}

impl SmplData {
    /// Search for and read a sample chunk in the bytes of a wave file.
    pub fn from_wave(data: &[u8]) -> (r: Option<Self>)
        ensures
            match find_first_smpl(data@) {
                None => r.is_none(),
                Some(i) => r.is_some() == smpl_chunk_spec(data@.subrange(i as int, data@.len() as int)).is_some()
                    && (r matches Some(s) ==> s.spec_matches(smpl_chunk_spec(data@.subrange(i as int, data@.len() as int)).unwrap())),
            },
    {
        let needle: [u8; 4] = [0x73, 0x6d, 0x70, 0x6c];
        let found = find_bytes(data, &needle);
        proof {
            lemma_first_smpl(data@, needle@, found);
        }
        match found {
            Some(index) => Self::from_chunk(slice_subrange(data, index, data.len())),
            None => None,
        }
    }

    /// The fields hold the given chunk contents.
    pub open spec fn spec_matches(&self, c: (u32, u32, Seq<(usize, usize)>)) -> bool {
        &&& self.unity_note == c.0
        &&& self.pitch_fraction == c.1
        &&& self.sample_loops@ == c.2
    }

    /// Read a sample chunk.
    pub fn from_chunk(data: &[u8]) -> (r: Option<Self>)
        ensures
            r.is_some() == smpl_chunk_spec(data@).is_some(),
            r matches Some(s) ==> s.spec_matches(smpl_chunk_spec(data@).unwrap()),
    {
        let unity_note = match read_u32(data, 0x14) {
            Some(v) => v,
            None => return None,
        };
        let pitch_fraction = match read_u32(data, 0x18) {
            Some(v) => v,
            None => return None,
        };
        let num_loops = match read_u32(data, 0x24) {
            Some(v) => v,
            None => return None,
        };
        let mut sample_loops: Vec<(usize, usize)> = Vec::new();
        let mut i: u32 = 0;
        while i < num_loops
            invariant
                i <= num_loops,
                sample_loops@ == loop_records(data@, i as int),
            ensures
                sample_loops@ == loop_records(data@, num_loops as int),
            decreases num_loops - i,
        {
            let end_offset: u128 = 0x38 + i as u128 * 24;
            if end_offset + 4 > data.len() as u128 {
                proof {
                    lemma_loop_records_past_end(data@, num_loops as int, i as int);
                }
                break;
            }
            let start = read_u32(data, (end_offset - 4) as usize);
            let end = read_u32(data, end_offset as usize);
            match (start, end) {
                (Some(s), Some(e)) => sample_loops.push((s as usize, e as usize)),
                _ => {},
            }
            i = i + 1;
        }
        Some(Self { unity_note, pitch_fraction, sample_loops })
    }
}

/// The index of the first "smpl" in `data`, if any.
pub open spec fn find_first_smpl(data: Seq<u8>) -> Option<usize> {
    if exists|i: int| crate::bytes::occurs_at(data, smpl_tag(), i) {
        Some(choose|i: usize| is_first_occurrence(data, smpl_tag(), Some(i)))
    } else {
        None
    }
}

/// The bytes of "smpl".
pub open spec fn smpl_tag() -> Seq<u8> {
    seq![0x73u8, 0x6du8, 0x70u8, 0x6cu8]
}

pub(crate) proof fn lemma_first_smpl(data: Seq<u8>, needle: Seq<u8>, found: Option<usize>)
    requires
        needle == smpl_tag(),
        is_first_occurrence(data, needle, found),
    ensures
        found == find_first_smpl(data),
{
    match found {
        Some(i) => {
            assert(crate::bytes::occurs_at(data, smpl_tag(), i as int));
            let c = choose|k: usize| is_first_occurrence(data, smpl_tag(), Some(k));
            assert(is_first_occurrence(data, smpl_tag(), Some(c)));
            if c < i {
                assert(!crate::bytes::occurs_at(data, smpl_tag(), c as int));
            } else if c > i {
                assert(!crate::bytes::occurs_at(data, smpl_tag(), i as int));
            }
        },
        None => {},
    }
}

} // verus!
