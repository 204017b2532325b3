use music_index::peaks::{
    decode_cache_entry, encode_cache_entry, samples_per_peak, Manager, PeakAccumulator, Peaks,
};
use music_index::status::IndexStatus;

#[test]
fn accumulator_emits_one_pair_per_window() {
    let mut acc = PeakAccumulator::new(3);
    for s in [10u8, 200, 30, 40, 5, 60, 99] {
        acc.push_sample(s);
    }
    // Two full windows: (10, 200) then (5, 60); the partial 99 is dropped.
    let peaks = acc.into_peaks();
    assert_eq!(peaks.interleaved, vec![10, 200, 5, 60]);
}

#[test]
fn accumulator_merges_channels_by_mean() {
    let mut acc = PeakAccumulator::new(1);
    // Two stereo frames: (0, 101) -> 50, (200, 201) -> 200; trailing odd
    // sample is ignored.
    acc.push_frame(&vec![0u8, 101, 200, 201, 7], 2);
    let peaks = acc.into_peaks();
    assert_eq!(peaks.interleaved, vec![50, 50, 200, 200]);
}

#[test]
fn peak_extraction_is_deterministic() {
    let samples: Vec<u8> = (0..=255u8).chain((0..=255u8).rev()).collect();
    let mut a = PeakAccumulator::new(16);
    let mut b = PeakAccumulator::new(16);
    a.push_frame(&samples, 2);
    b.push_frame(&samples, 2);
    assert_eq!(a.into_peaks().interleaved, b.into_peaks().interleaved);
}

#[test]
fn window_size_is_time_accurate() {
    // 4000 pairs per minute: 44100 Hz * 60 / 4000 = 661.5, rounded to 662.
    assert_eq!(samples_per_peak(44100), 662);
    assert_eq!(samples_per_peak(48000), 720);
    assert_eq!(samples_per_peak(8000), 120);
    // Degenerate rates still give a usable window.
    assert_eq!(samples_per_peak(0), 1);
}

#[test]
fn cache_entry_round_trips() {
    let peaks = Peaks { interleaved: vec![1, 9, 0, 255] };
    let bytes = encode_cache_entry(&peaks);
    let back = decode_cache_entry(bytes).unwrap();
    assert_eq!(back.interleaved, vec![1, 9, 0, 255]);
}

#[test]
fn corrupt_cache_entry_is_a_miss() {
    assert!(decode_cache_entry(vec![1, 2, 3]).is_none());
    assert!(decode_cache_entry(Vec::new()).is_some());
}

#[test]
fn peaks_path_is_stable_per_path() {
    let mgr = Manager::new("/cache/peaks".to_owned());
    let p1 = mgr.get_peaks_path("/data/music/song.mp3");
    let p2 = mgr.get_peaks_path("/data/music/song.mp3");
    assert_eq!(p1, p2);
    assert!(p1.starts_with("/cache/peaks/"));
    assert!(p1.ends_with(".peaks"));
    // A moved file is keyed anew.
    let p3 = mgr.get_peaks_path("/data/music/moved.mp3");
    assert!(p1 != p3);
}

#[test]
fn trigger_starts_a_pass_when_idle() {
    let mut st = IndexStatus::new();
    assert_eq!(st, IndexStatus::Idle);
    assert!(st.trigger());
    assert!(st.is_indexing());
}

#[test]
fn triggers_during_a_pass_coalesce() {
    let mut st = IndexStatus::new();
    assert!(st.trigger());
    // Several triggers while indexing owe exactly one follow-up pass.
    assert!(!st.trigger());
    assert!(!st.trigger());
    assert!(st.finish_pass());
    // The follow-up pass is running; nothing further is owed.
    assert!(!st.finish_pass());
    assert_eq!(st, IndexStatus::Idle);
}
