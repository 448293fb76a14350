//! Read the "smpl" chunk of a Wave file, taking each loop's start from a
//! packed table and every loop's end from the first loop record.

use vstd::prelude::*;

verus! {

use crate::bytes::{find_bytes, read_u32, read_u32_spec};
use crate::pcm::find_first_smpl;
use vstd::slice::slice_subrange;

/// Relevant data from a "smpl" chunk.
pub struct SmplData {
    pub unity_note: u32,
    pub pitch_fraction: u32,
    pub sample_loops: Vec<(usize, usize)>,
}

/// The loops among the first `count` whose start (at 0x34 + 4i) and end
/// (at 0x38) lie in `data`.
pub open spec fn packed_loops(data: Seq<u8>, count: int) -> Seq<(usize, usize)>
    decreases count,
{
    if count <= 0 {
        Seq::empty()
    } else {
        let i = count - 1;
        let prev = packed_loops(data, i);
        match (read_u32_spec(data, 0x34 + i * 4), read_u32_spec(data, 0x38)) {
            (Some(s), Some(e)) => prev.push((s as usize, e as usize)),
            _ => prev,
        }
    }
}

/// The chunk at the start of `data`, if its header fields are there.
pub open spec fn packed_chunk_spec(data: Seq<u8>) -> Option<(u32, u32, Seq<(usize, usize)>)> {
    match (read_u32_spec(data, 0x14), read_u32_spec(data, 0x18), read_u32_spec(data, 0x24)) {
        (Some(unity), Some(fraction), Some(count)) =>
            Some((unity, fraction, packed_loops(data, count as int))),
        _ => None,
    }
}

proof fn lemma_packed_loops_past_end(data: Seq<u8>, count: int, k: int)
    requires
        0 <= k <= count,
        0x34 + k * 4 + 4 > data.len(),
    ensures
        packed_loops(data, count) == packed_loops(data, k),
    decreases count - k,
{
    if count > k {
        lemma_packed_loops_past_end(data, count - 1, k);
    }
}

impl SmplData {
    /// The fields hold the given chunk contents.
    pub open spec fn spec_matches(&self, c: (u32, u32, Seq<(usize, usize)>)) -> bool {
        &&& self.unity_note == c.0
        &&& self.pitch_fraction == c.1
        &&& self.sample_loops@ == c.2
    }

    /// Search for and read a sample chunk in the bytes of a wave file.
    pub fn from_wave(data: &[u8]) -> (r: Option<Self>)
        ensures
            match find_first_smpl(data@) {
                None => r.is_none(),
                Some(i) => r.is_some() == packed_chunk_spec(data@.subrange(i as int, data@.len() as int)).is_some()
                    && (r matches Some(s) ==> s.spec_matches(packed_chunk_spec(data@.subrange(i as int, data@.len() as int)).unwrap())),
            },
    {
        let needle: [u8; 4] = [0x73, 0x6d, 0x70, 0x6c];
        let found = find_bytes(data, &needle);
        proof {
            crate::pcm::lemma_first_smpl(data@, needle@, found);
        }
        match found {
            Some(index) => Self::from_chunk(slice_subrange(data, index, data.len())),
            None => None,
        }
    }

    /// Read a sample chunk.
    fn from_chunk(data: &[u8]) -> (r: Option<Self>)
        ensures
            r.is_some() == packed_chunk_spec(data@).is_some(),
            r matches Some(s) ==> s.spec_matches(packed_chunk_spec(data@).unwrap()),
    {
        let unity_note = match read_u32(data, 0x14) {
            Some(v) => v,
            None => return None,
        };
        let pitch_fraction = match read_u32(data, 0x18) {
            Some(v) => v,
            None => return None,
        };
        let num_loops = match read_u32(data, 0x24) {
            Some(v) => v,
            None => return None,
        };
        let end = read_u32(data, 0x38);
        let mut sample_loops: Vec<(usize, usize)> = Vec::new();
        let mut i: u32 = 0;
        while i < num_loops
            invariant
                i <= num_loops,
                end == read_u32_spec(data@, 0x38),
                sample_loops@ == packed_loops(data@, i as int),
            ensures
                sample_loops@ == packed_loops(data@, num_loops as int),
            decreases num_loops - i,
        {
            let offset: u128 = 0x34 + i as u128 * 4;
            if offset + 4 > data.len() as u128 {
                proof {
                    lemma_packed_loops_past_end(data@, num_loops as int, i as int);
                }
                break;
            }
            let start = read_u32(data, offset as usize);
            match (start, end) {
                (Some(s), Some(e)) => sample_loops.push((s as usize, e as usize)),
                _ => {},
            }
            i = i + 1;
        }
        Some(Self { unity_note, pitch_fraction, sample_loops })
    }
}

} // verus!
