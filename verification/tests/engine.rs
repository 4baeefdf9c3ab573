use egui_audio::FrameRange;
use egui_audio::PeakPoint;
use egui_audio::WaveformData;
use egui_audio::WaveformMipmap;

fn point(frame: u64, value: i64) -> PeakPoint {
    PeakPoint { frame, value }
}

#[test]
fn from_samples_bucket_counts() {
    let data: Vec<i64> = vec![0, 1, 2, 3, 4, 5, 6, 7, 8, 9];
    let tier = WaveformMipmap::from_samples(&data, 3);
    assert_eq!(tier.positive_peaks.len(), 4);
    assert_eq!(tier.negative_peaks.len(), 4);
    assert_eq!(tier.samples_per_point, 3);
    assert_eq!(tier.len(), 4);
    assert!(!tier.is_empty());
}

#[test]
fn from_samples_peaks_and_ties() {
    let data: Vec<i64> = vec![1, 5, 3, -2, 7, 7];
    let tier = WaveformMipmap::from_samples(&data, 2);
    assert_eq!(
        tier.positive_peaks,
        vec![point(1, 5), point(2, 3), point(4, 7)]
    );
    assert_eq!(
        tier.negative_peaks,
        vec![point(0, 1), point(3, -2), point(4, 7)]
    );
}

#[test]
fn from_samples_envelope_bounds_samples() {
    let data: Vec<i64> = (0..97).map(|i| (i * 37 % 23) - 11).collect();
    let k = 5usize;
    let tier = WaveformMipmap::from_samples(&data, k);
    for (i, &x) in data.iter().enumerate() {
        let b = i / k;
        assert!(x <= tier.positive_peaks[b].value);
        assert!(x >= tier.negative_peaks[b].value);
    }
}

#[test]
fn shrink_floors_length_and_keeps_extremes() {
    let data: Vec<i64> = vec![4, 9, 2, 2, 100];
    let tier = WaveformMipmap::from_samples(&data, 1);
    assert_eq!(tier.positive_peaks.len(), 5);
    let coarse = tier.shrink(2);
    // Integer division: the trailing fifth point is dropped.
    assert_eq!(coarse.positive_peaks.len(), 2);
    assert_eq!(coarse.negative_peaks.len(), 2);
    assert_eq!(coarse.samples_per_point, 2);
    assert_eq!(coarse.positive_peaks, vec![point(1, 9), point(2, 2)]);
    assert_eq!(coarse.negative_peaks, vec![point(0, 4), point(2, 2)]);
}

#[test]
fn shrink_envelope_bounds_parent_points() {
    let data: Vec<i64> = (0..64).map(|i| (i * 13 % 31) - 15).collect();
    let tier = WaveformMipmap::from_samples(&data, 2);
    let coarse = tier.shrink(4);
    for j in 0..coarse.positive_peaks.len() * 4 {
        assert!(tier.positive_peaks[j].value <= coarse.positive_peaks[j / 4].value);
        assert!(tier.negative_peaks[j].value >= coarse.negative_peaks[j / 4].value);
    }
}

#[test]
fn single_impulse_summary() {
    // One second at 48 kHz, a full-scale sample in the middle. With an
    // amplitude unit of 1_000_000 per 1.0, the positive envelope must
    // peak at exactly half a second and stay at or below zero elsewhere.
    let unit: i64 = 1_000_000;
    let mut samples: Vec<i64> = vec![0; 48000];
    samples[24000] = unit;
    let tier = WaveformMipmap::from_samples(&samples, 2);
    assert_eq!(tier.positive_peaks.len(), 24000);
    let b = 24000 / 2;
    assert_eq!(tier.positive_peaks[b].frame, 24000);
    assert_eq!(tier.positive_peaks[b].value, unit);
    for (i, p) in tier.positive_peaks.iter().enumerate() {
        if i != b {
            assert!(p.value <= 0);
        }
    }
}

#[test]
fn calculate_builds_and_stops() {
    let data: Vec<i64> = (0..10).collect();
    let pyramid = WaveformData::calculate(&data, 10, 2, 2);
    assert_eq!(pyramid.sample_rate, 10);
    assert_eq!(pyramid.num_samples, 10);
    assert_eq!(pyramid.mipmaps.len(), 1);
    assert_eq!(pyramid.mipmaps[0].positive_peaks.len(), 5);
}

#[test]
fn query_selects_tier_just_above_target_density() {
    // Ten seconds at 48 kHz; levels summarize 2, 4, 8, ... samples per
    // point. Asking for 100 points over one second must pick the level
    // at 187.5 points per second (256 samples per point), not the finest
    // one at 24000 points per second.
    let samples: Vec<i64> = (0..480000).map(|i| (i % 1000) - 500).collect();
    let pyramid = WaveformData::calculate(&samples, 48000, 2, 2);
    let range = FrameRange { start: 0, end: 48000 };
    let sel = pyramid.selected_tier_index(100, range);
    assert!(sel > 0);
    assert_eq!(pyramid.mipmaps[sel].samples_per_point, 256);
    // The chosen density still exceeds the request, the next coarser
    // level would not.
    assert!(100 * 256 < 48000);
    assert!(100 * 512 >= 48000);
}

#[test]
fn get_points_stays_near_window() {
    let samples: Vec<i64> = (0..1000).map(|i| (i * 7 % 13) - 6).collect();
    let pyramid = WaveformData::calculate(&samples, 1000, 2, 2);
    assert_eq!(pyramid.mipmaps.len(), 1);
    let total = pyramid.mipmaps[0].positive_peaks.len();
    let (pos, neg) = pyramid.get_points(5, FrameRange { start: 100, end: 200 });
    assert!(pos.len() <= total);
    assert!(neg.len() <= total);
    assert!(!pos.is_empty());
    // Interior points lie inside the window; the two boundary points lie
    // within two bucket spans of it (one bucket is two samples here).
    for (j, p) in pos.iter().enumerate() {
        if j > 0 && j + 1 < pos.len() {
            assert!(100 <= p.frame && p.frame <= 200);
        } else {
            assert!(100 - 4 < p.frame && p.frame < 200 + 4);
        }
    }
}

#[test]
fn get_points_empty_on_degenerate_or_missed_windows() {
    let samples: Vec<i64> = (0..1000).map(|i| i % 5).collect();
    let pyramid = WaveformData::calculate(&samples, 1000, 2, 2);
    // A window without measure is not an error: empty slices, no panic.
    let (pos, neg) = pyramid.get_points(10, FrameRange { start: 300, end: 300 });
    assert!(pos.is_empty() && neg.is_empty());
    let (pos, neg) = pyramid.get_points(10, FrameRange { start: 400, end: 100 });
    assert!(pos.is_empty() && neg.is_empty());
    // A window entirely past the audio yields empty slices too.
    let (pos, neg) = pyramid.get_points(10, FrameRange { start: 5000, end: 6000 });
    assert!(pos.is_empty() && neg.is_empty());
    // A sliver at the very start still overlaps the first bucket.
    let (pos, neg) = pyramid.get_points(10, FrameRange { start: 0, end: 1 });
    assert!(!pos.is_empty() && !neg.is_empty());
}

#[test]
fn simplify_drops_inward_folds_only() {
    let mut tier = WaveformMipmap {
        samples_per_point: 1,
        positive_peaks: vec![
            point(0, 0),
            point(1, 100),
            point(2, 0),
            point(3, 100),
            point(4, 0),
        ],
        negative_peaks: vec![
            point(0, 0),
            point(1, -100),
            point(2, 0),
            point(3, -100),
            point(4, 0),
        ],
    };
    tier.simplify(10);
    // The valley between the two crests folds inward and is dropped;
    // the crests themselves survive, so the envelope is never
    // understated.
    let pos_frames: Vec<u64> = tier.positive_peaks.iter().map(|p| p.frame).collect();
    let neg_frames: Vec<u64> = tier.negative_peaks.iter().map(|p| p.frame).collect();
    assert_eq!(pos_frames, vec![0, 1, 3, 4]);
    assert_eq!(neg_frames, vec![0, 1, 3, 4]);
    assert_eq!(tier.positive_peaks[1].value, 100);
    assert_eq!(tier.negative_peaks[1].value, -100);
}

#[test]
fn simplify_with_zero_threshold_keeps_every_point() {
    let points: Vec<PeakPoint> = vec![
        point(0, 0),
        point(1, 100),
        point(2, 0),
        point(3, 100),
        point(4, 0),
    ];
    let mut tier = WaveformMipmap {
        samples_per_point: 1,
        positive_peaks: points.clone(),
        negative_peaks: points.clone(),
    };
    // No triangle's area magnitude lies below zero, so nothing may go.
    tier.simplify(0);
    assert_eq!(tier.positive_peaks, points);
    assert_eq!(tier.negative_peaks, points);
}

#[test]
fn every_pyramid_level_bounds_the_samples() {
    let samples: Vec<i64> = (0..4000).map(|i| (i * 31 % 401) - 200).collect();
    let pyramid = WaveformData::calculate(&samples, 4000, 2, 2);
    assert!(pyramid.mipmaps.len() > 1);
    for tier in &pyramid.mipmaps {
        let spp = tier.samples_per_point as usize;
        let covered = tier.positive_peaks.len() * spp;
        for (j, &x) in samples.iter().enumerate() {
            if j < covered {
                assert!(x <= tier.positive_peaks[j / spp].value);
                assert!(x >= tier.negative_peaks[j / spp].value);
            }
        }
    }
}

#[test]
fn zero_desired_points_selects_coarsest_level() {
    let samples: Vec<i64> = (0..4000).map(|i| i % 9).collect();
    let pyramid = WaveformData::calculate(&samples, 4000, 2, 2);
    let levels = pyramid.mipmaps.len();
    assert!(levels > 1);
    // Every level is denser than a request for no points at all, so the
    // walk ends on the coarsest one.
    let sel = pyramid.selected_tier_index(0, FrameRange { start: 0, end: 4000 });
    assert_eq!(sel, levels - 1);
}

#[test]
fn reversed_window_selects_finest_level() {
    let samples: Vec<i64> = (0..4000).map(|i| i % 9).collect();
    let pyramid = WaveformData::calculate(&samples, 4000, 2, 2);
    let sel = pyramid.selected_tier_index(10, FrameRange { start: 3000, end: 1000 });
    assert_eq!(sel, 0);
}
