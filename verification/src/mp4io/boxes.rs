//! The parts of a `moov` box that cutting depends on, as plain values.

use vstd::prelude::*;

verus! {

/// The kind of a sample entry in `stsd`.
#[derive(Debug, Clone, Copy, PartialEq, Eq, Structural)]
pub enum Codec {
    /// H.264 video.
    Avc1,
    /// Opus audio.
    Opus,
    /// AAC audio.
    Mp4a,
    /// FLAC audio.
    Flac,
    /// AC-3 audio.
    Ac3,
    /// Enhanced AC-3 audio.
    Eac3,
    /// AMR narrow-band audio.
    Samr,
    /// Integer PCM audio.
    Ipcm,
    /// Floating-point PCM audio.
    Fpcm,
    /// Little-endian 16-bit PCM audio of QuickTime.
    Sowt,
    /// Big-endian 16-bit PCM audio of QuickTime.
    Twos,
    /// PCM audio of QuickTime with explicit parameters.
    Lpcm,
    /// 24-bit integer PCM audio of QuickTime.
    In24,
    /// 32-bit integer PCM audio of QuickTime.
    In32,
    /// 32-bit floating-point PCM audio of QuickTime.
    Fl32,
    /// 64-bit floating-point PCM audio of QuickTime.
    Fl64,
    /// Signed 16-bit little-endian PCM audio.
    S16l,
    /// Timed text (`mov_text`).
    Tx3g,
    /// WebVTT.
    Wvtt,
    /// Anything else.
    Other,
}

/// The sizes of the samples of a track (`stsz`).
#[derive(Debug, Clone)]
pub enum StszSamples {
    /// `count` samples of `size` bytes each.
    Identical { count: u32, size: u32 },
    /// One size per sample.
    Different { sizes: Vec<u32> },
}

/// `sample_count` consecutive samples last `sample_delta` each (`stts`).
#[derive(Debug, Clone, Copy, PartialEq, Eq, Structural)]
pub struct SttsEntry {
    pub sample_count: u32,
    pub sample_delta: u32,
}

/// `sample_count` consecutive samples are shown `sample_offset` after they are
/// decoded (`ctts`).
#[derive(Debug, Clone, Copy, PartialEq, Eq, Structural)]
pub struct CttsEntry {
    pub sample_count: u32,
    pub sample_offset: i64,
}

/// From chunk `first_chunk` on, counted from 1, chunks hold `samples_per_chunk`
/// samples each (`stsc`).
#[derive(Debug, Clone, Copy, PartialEq, Eq, Structural)]
pub struct StscEntry {
    pub first_chunk: u32,
    pub samples_per_chunk: u32,
    pub sample_description_index: u32,
}

/// The sample tables of a track (`stbl`).
#[derive(Debug, Clone)]
pub struct Stbl {
    /// The sample entries of `stsd`.
    pub codecs: Vec<Codec>,
    pub stsz: StszSamples,
    pub stts: Vec<SttsEntry>,
    pub ctts: Option<Vec<CttsEntry>>,
    /// The numbers, counted from 1, of the sync samples.
    pub stss: Option<Vec<u32>>,
    pub stsc: Vec<StscEntry>,
    pub stco: Option<Vec<u32>>,
    pub co64: Option<Vec<u64>>,
}

/// A track (`trak`).
#[derive(Debug, Clone)]
pub struct Trak {
    /// Time units per second of the track (`mdhd`).
    pub timescale: u32,
    /// Whether the track has an edit list (`edts` with `elst`).
    pub has_edit_list: bool,
    pub stbl: Stbl,
}

/// A movie (`moov`).
#[derive(Debug, Clone)]
pub struct Moov {
    /// Time units per second of the movie (`mvhd`).
    pub timescale: u32,
    pub trak: Vec<Trak>,
}

impl StszSamples {
    /// The size of each sample.
    pub open spec fn sizes(&self) -> Seq<u32> {
        match self {
            StszSamples::Identical { count, size } => Seq::new(*count as nat, |i: int| *size),
            StszSamples::Different { sizes } => sizes@,
        }
    }
}

impl Stbl {
    /// The file offset of each chunk: from `stco` where there is one, else from `co64`.
    pub open spec fn chunk_offsets(&self) -> Seq<u64> {
        match (self.stco, self.co64) {
            (Some(stco), _) => stco@.map_values(|o: u32| o as u64),
            (None, Some(co64)) => co64@,
            (None, None) => Seq::empty(),
        }
    }

    /// Whether sample `k`, counted from 0, is a sync sample. Without an `stss` table
    /// every sample is one.
    pub open spec fn is_sync(&self, k: int) -> bool {
        match self.stss {
            Some(numbers) => exists|i: int|
                0 <= i < numbers@.len() && #[trigger] numbers@[i] == k + 1,
            None => true,
        }
    }
}

impl Trak {
    /// The kind of the first sample entry.
    pub open spec fn spec_codec(&self) -> Option<Codec> {
        if self.stbl.codecs@.len() > 0 {
            Some(self.stbl.codecs@[0])
        } else {
            None
        }
    }

    /// The kind of the first sample entry.
    pub fn codec(&self) -> (c: Option<Codec>)
        ensures
            c == self.spec_codec(),
    {
        if self.stbl.codecs.len() > 0 {
            Some(self.stbl.codecs[0])
        } else {
            None
        }
    }
}

} // verus!
