//! Waveform peak extraction and its cache: decoded audio frames are merged
//! to mono and folded into one (min, max) byte pair per fixed-size sample
//! window; the interleaved pairs are the persisted cache format, keyed by a
//! hash of the audio file's path.

use vstd::prelude::*;

use crate::strutil::{dec_of, u64_to_decimal};

verus! {

/// Downsampled amplitude extremes: one minimum byte then one maximum byte
/// per window. This exact byte layout is persisted and must round-trip
/// identically across restarts.
#[derive(Debug, PartialEq, Eq)]
pub struct Peaks {
    pub interleaved: Vec<u8>,
}

impl View for Peaks {
    type V = Seq<u8>;

    open spec fn view(&self) -> Seq<u8> {
        self.interleaved@
    }
}

impl Clone for Peaks {
    fn clone(&self) -> (r: Self)
        ensures
            r@ == self@,
    {
        Peaks { interleaved: self.interleaved.clone() }
    }
}

impl Default for Peaks {
    fn default() -> (r: Self)
        ensures
            r@ =~= Seq::<u8>::empty(),
    {
        Peaks { interleaved: Vec::new() }
    }
}

/// Ghost image of a `PeakAccumulator`.
pub ghost struct AccV {
    pub min: u8,
    pub max: u8,
    pub count: int,
    pub window: int,
    pub data: Seq<u8>,
}

impl AccV {
    /// The accumulator invariant: a positive window, a partial count, and an
    /// even number of emitted bytes.
    pub open spec fn wf(&self) -> bool {
        &&& self.window >= 1
        &&& 0 <= self.count < self.window
        &&& self.data.len() % 2 == 0
    }
}

/// One mono sample folded into the accumulator: extremes widen, and a full
/// window emits its (min, max) pair and resets.
pub open spec fn acc_step(a: AccV, mono: u8) -> AccV {
    let mn = if mono < a.min {
        mono
    } else {
        a.min
    };
    let mx = if mono > a.max {
        mono
    } else {
        a.max
    };
    if a.count + 1 >= a.window {
        AccV { min: 255, max: 0, count: 0, window: a.window, data: a.data + seq![mn, mx] }
    } else {
        AccV { min: mn, max: mx, count: a.count + 1, window: a.window, data: a.data }
    }
}

/// A whole run of mono samples folded in, in order.
pub open spec fn acc_fold(a: AccV, monos: Seq<u8>) -> AccV
    decreases monos.len(),
{
    if monos.len() == 0 {
        a
    } else {
        acc_step(acc_fold(a, monos.drop_last()), monos.last())
    }
}

/// The sum of `n` samples starting at `lo`.
pub open spec fn chunk_sum(s: Seq<u8>, lo: int, n: int) -> int
    decreases n,
{
    if n <= 0 {
        0
    } else {
        chunk_sum(s, lo, n - 1) + s[lo + n - 1]
    }
}

/// The mono signal of an interleaved frame: the truncated mean of each group
/// of `ch` consecutive samples, one group per audio frame.
pub open spec fn monos_of(s: Seq<u8>, ch: int) -> Seq<u8> {
    Seq::new((s.len() as int / ch) as nat, |j: int| (chunk_sum(s, j * ch, ch) / ch) as u8)
}

pub proof fn lemma_chunk_sum_bounds(s: Seq<u8>, lo: int, n: int)
    requires
        0 <= lo,
        0 <= n,
        lo + n <= s.len(),
    ensures
        0 <= chunk_sum(s, lo, n),
        chunk_sum(s, lo, n) <= 255 * n,
    decreases n,
{
    if n > 0 {
        lemma_chunk_sum_bounds(s, lo, n - 1);
    }
}

/// Folds decoded audio into waveform peaks, one byte pair per window of
/// `window` mono samples; a trailing partial window is discarded, as the
/// cache format only holds whole windows.
pub struct PeakAccumulator {
    pub min: u8,
    pub max: u8,
    pub count: usize,
    pub window: usize,
    pub peaks: Peaks,
}

impl View for PeakAccumulator {
    type V = AccV;

    open spec fn view(&self) -> AccV {
        AccV {
            min: self.min,
            max: self.max,
            count: self.count as int,
            window: self.window as int,
            data: self.peaks.interleaved@,
        }
    }
}

impl PeakAccumulator {
    /// An empty accumulator over the given window size.
    pub fn new(window: usize) -> (r: PeakAccumulator)
        requires
            window >= 1,
        ensures
            r@ == (AccV { min: 255u8, max: 0u8, count: 0int, window: window as int, data: Seq::<u8>::empty() }),
            r@.wf(),
    {
        let r = PeakAccumulator { min: 255, max: 0, count: 0, window, peaks: Peaks { interleaved: Vec::new() } };
        proof {
            assert(r@.data =~= Seq::<u8>::empty());
        }
        r
    }

    /// Fold in one mono sample.
    pub fn push_sample(&mut self, mono: u8)
        requires
            old(self)@.wf(),
        ensures
            final(self)@ == acc_step(old(self)@, mono),
            final(self)@.wf(),
    {
        let mn = if mono < self.min {
            mono
        } else {
            self.min
        };
        let mx = if mono > self.max {
            mono
        } else {
            self.max
        };
        if self.count + 1 >= self.window {
            self.peaks.interleaved.push(mn);
            self.peaks.interleaved.push(mx);
            self.min = 255;
            self.max = 0;
            self.count = 0;
            proof {
                assert(final(self)@.data =~= old(self)@.data + seq![mn, mx]);
            }
        } else {
            self.min = mn;
            self.max = mx;
            self.count = self.count + 1;
        }
    }

    /// Fold in one decoded frame of interleaved samples: each group of
    /// `num_channels` consecutive samples is merged to mono by truncated
    /// mean; a trailing group smaller than one frame is ignored.
    pub fn push_frame(&mut self, samples: &Vec<u8>, num_channels: usize)
        requires
            old(self)@.wf(),
            num_channels >= 1,
            num_channels <= 0x00ff_ffff_ffff_ffff,
        ensures
            final(self)@ == acc_fold(old(self)@, monos_of(samples@, num_channels as int)),
            final(self)@.wf(),
    {
        let ghost monos = monos_of(samples@, num_channels as int);
        let nsamp = samples.len();
        let nframes = nsamp / num_channels;
        proof {
            assert(monos.len() == nframes);
        }
        let mut j: usize = 0;
        while j < nframes
            invariant
                j <= nframes,
                num_channels >= 1,
                num_channels <= 0x00ff_ffff_ffff_ffff,
                nsamp == samples@.len(),
                nframes == samples@.len() as int / num_channels as int,
                monos == monos_of(samples@, num_channels as int),
                self@ == acc_fold(old(self)@, monos.take(j as int)),
                self@.wf(),
                self@.window == old(self)@.window,
            decreases nframes - j,
        {
            proof {
                assert(j < nframes);
                assert((j as int + 1) * num_channels as int <= samples@.len()) by (nonlinear_arith)
                    requires
                        j as int + 1 <= samples@.len() as int / num_channels as int,
                        num_channels as int >= 1,
                ;
                assert(j as int * num_channels as int + num_channels as int == (j as int + 1)
                    * num_channels as int) by (nonlinear_arith);
                assert(j as int * num_channels as int <= samples@.len());
            }
            let base = j * num_channels;
            proof {
                assert(base as int == j as int * num_channels as int);
                lemma_chunk_sum_bounds(samples@, base as int, num_channels as int);
            }
            let mut sum: u64 = 0;
            let mut k: usize = 0;
            while k < num_channels
                invariant
                    k <= num_channels,
                    nsamp == samples@.len(),
                    base as int + num_channels as int <= samples@.len(),
                    base as int + k as int <= samples@.len(),
                    sum == chunk_sum(samples@, base as int, k as int),
                    sum <= 255 * (k as int),
                    num_channels <= 0x00ff_ffff_ffff_ffff,
                decreases num_channels - k,
            {
                proof {
                    lemma_chunk_sum_bounds(samples@, base as int, k as int);
                    assert(255 * (k as int) + 255 <= 255 * (num_channels as int)) by (
                    nonlinear_arith)
                        requires
                            k as int + 1 <= num_channels as int,
                    ;
                }
                sum = sum + samples[base + k] as u64;
                k += 1;
            }
            let mono = (sum / num_channels as u64) as u8;
            proof {
                assert(chunk_sum(samples@, base as int, num_channels as int) / num_channels as int
                    <= 255) by (nonlinear_arith)
                    requires
                        num_channels as int >= 1,
                        chunk_sum(samples@, base as int, num_channels as int) <= 255
                            * num_channels as int,
                        chunk_sum(samples@, base as int, num_channels as int) >= 0,
                ;
                assert(mono == monos[j as int]);
                assert(monos.take(j as int + 1).drop_last() =~= monos.take(j as int));
                assert(monos.take(j as int + 1).last() == monos[j as int]);
            }
            self.push_sample(mono);
            j += 1;
        }
        proof {
            assert(monos.take(nframes as int) =~= monos);
        }
    }

    /// The peaks of every completed window, in emission order.
    pub fn into_peaks(self) -> (r: Peaks)
        ensures
            r@ == self@.data,
    {
        self.peaks
    }
}

/// The number of mono samples one peak window covers: sixty seconds of audio
/// yield four thousand pairs, never fewer than one sample per window. The
/// quotient is rounded to the nearest integer so the window is time-accurate
/// at any source sample rate.
pub fn samples_per_peak(sample_rate: u32) -> (r: usize)
    ensures
        r as int == if (3 * sample_rate as int + 100) / 200 >= 1 {
            (3 * sample_rate as int + 100) / 200
        } else {
            1
        },
{
    let scaled = (3 * sample_rate as u64 + 100) / 200;
    if scaled < 1 {
        1
    } else {
        scaled as usize
    }
}

/// What a cache file holds for a peaks value: the interleaved bytes as they
/// stand.
pub open spec fn encoded_entry(data: Seq<u8>) -> Seq<u8> {
    data
}

/// What reading a cache file yields: the bytes themselves when they form
/// whole (min, max) pairs; anything else is corrupt and treated as a miss.
pub open spec fn decoded_entry(bytes: Seq<u8>) -> Option<Seq<u8>> {
    if bytes.len() % 2 == 0 {
        Some(bytes)
    } else {
        None
    }
}

/// A cache entry read back is byte-identical to the peaks that were written:
/// the persisted format round-trips exactly.
pub proof fn lemma_cache_round_trip(data: Seq<u8>)
    requires
        data.len() % 2 == 0,
    ensures
        decoded_entry(encoded_entry(data)) == Some(data),
{
}

/// Folding samples into a well-formed accumulator keeps it well-formed; in
/// particular the emitted bytes always form whole (min, max) pairs.
pub proof fn lemma_acc_fold_wf(a: AccV, monos: Seq<u8>)
    requires
        a.wf(),
    ensures
        acc_fold(a, monos).wf(),
    decreases monos.len(),
{
    if monos.len() > 0 {
        lemma_acc_fold_wf(a, monos.drop_last());
    }
}

/// A second request for an unchanged file returns byte-identical peaks: what
/// one extraction emits is a valid cache entry, and reading it back yields
/// exactly the bytes the first request computed.
pub proof fn lemma_second_request_identical(a: AccV, monos: Seq<u8>)
    requires
        a.wf(),
    ensures
        decoded_entry(encoded_entry(acc_fold(a, monos).data)) == Some(acc_fold(a, monos).data),
{
    lemma_acc_fold_wf(a, monos);
    lemma_cache_round_trip(acc_fold(a, monos).data);
}

/// Serialize peaks for the cache file.
pub fn encode_cache_entry(p: &Peaks) -> (r: Vec<u8>)
    ensures
        r@ == encoded_entry(p@),
{
    p.interleaved.clone()
}

/// Deserialize a cache file; a corrupt entry yields nothing, so the caller
/// falls through to recomputing.
pub fn decode_cache_entry(bytes: Vec<u8>) -> (r: Option<Peaks>)
    ensures
        decoded_entry(bytes@) is Some <==> r is Some,
        r is Some ==> r->0@ == decoded_entry(bytes@)->0,
{
    if bytes.len() % 2 == 0 {
        Some(Peaks { interleaved: bytes })
    } else {
        None
    }
}

/// Names what hashing a path with `std::hash::DefaultHasher` returns: within
/// one build of the standard library the result depends on the characters
/// alone.
pub uninterp spec fn path_hash_of(p: Seq<char>) -> u64;

/// Relies on `DefaultHasher::new` followed by `Hash::hash` on the path
/// string: `DefaultHasher::new` is documented to create every instance in
/// the same state, so the digest is a function of the path alone.
#[verifier::external_body]
fn hash_path(p: &str) -> (r: u64)
    ensures
        r == path_hash_of(p@),
{
    let mut hasher = std::hash::DefaultHasher::new();
    std::hash::Hash::hash(p, &mut hasher);
    std::hash::Hasher::finish(&hasher)
}

/// The suffix every cache file name carries.
pub open spec fn peaks_suffix() -> Seq<char> {
    seq!['.', 'p', 'e', 'a', 'k', 's']
}

/// The peak cache: owns the directory the cache files live in. Entries are
/// written on first request for a file and never expire on their own.
pub struct Manager {
    pub peaks_dir_path: String,
}

impl Clone for Manager {
    fn clone(&self) -> (r: Self)
        ensures
            r.peaks_dir_path@ == self.peaks_dir_path@,
    {
        Manager { peaks_dir_path: self.peaks_dir_path.clone() }
    }
}

impl Manager {
    /// A cache rooted at the given directory.
    pub fn new(peaks_dir_path: String) -> (r: Manager)
        ensures
            r.peaks_dir_path@ == peaks_dir_path@,
    {
        Manager { peaks_dir_path }
    }

    /// The cache file that holds the peaks of this audio file: the decimal
    /// path hash under the cache directory. A renamed or moved file hashes
    /// differently and is recomputed.
    pub fn get_peaks_path(&self, audio_path: &str) -> (r: String)
        ensures
            r@ == self.peaks_dir_path@ + seq!['/'] + dec_of(path_hash_of(audio_path@) as nat)
                + peaks_suffix(),
    {
        let hash = hash_path(audio_path);
        let digits = u64_to_decimal(hash);
        let mut out = self.peaks_dir_path.clone();
        out.append("/");
        out.append(digits.as_str());
        out.append(".peaks");
        proof {
            reveal_strlit("/");
            reveal_strlit(".peaks");
            assert("/"@ =~= seq!['/']);
            assert(".peaks"@ =~= peaks_suffix());
        }
        out
    }
}

} // verus!
