use std::f32::consts::PI;

use light_mixer::binary32::Binary32;
use light_mixer::visualize::{
    apply_window, half, log_band_points, pi, two, window_angles, AudioAnalyzer, Complex,
};

fn b(x: f32) -> Binary32 {
    Binary32::from_bits(x.to_bits())
}

fn bs(v: &[f32]) -> Vec<Binary32> {
    v.iter().map(|&x| b(x)).collect()
}

fn fs(v: &[Binary32]) -> Vec<f32> {
    v.iter().map(|x| f32::from_bits(x.to_bits())).collect()
}

fn noise(n: usize, seed: u32) -> Vec<f32> {
    let mut s = seed;
    (0..n)
        .map(|_| {
            s = s.wrapping_mul(1664525).wrapping_add(1013904223);
            (s >> 8) as f32 / 8388608.0 - 1.0
        })
        .collect()
}

fn analyzer(num_bands: usize, fft_size: usize, edges: &[f32], gain: f32) -> AudioAnalyzer {
    AudioAnalyzer::new(num_bands, fft_size, bs(edges), b(gain), 48000, 2)
}

#[test]
fn numbers_of_the_window() {
    assert_eq!(two(), b(2.0));
    assert_eq!(half(), b(0.5));
    assert_eq!(pi(), b(PI));
}

#[test]
fn edges_are_equally_spaced_logarithms() {
    assert_eq!(fs(&log_band_points(2, b(1.0), b(3.0))), vec![1.0, 2.0, 3.0]);
    for num_bands in [1usize, 3, 8, 31] {
        let (log_min, log_max) = (20.0f32.ln(), 16000.0f32.ln());
        let expected: Vec<f32> = (0..=num_bands)
            .map(|i| log_min + (log_max - log_min) * i as f32 / num_bands as f32)
            .collect();
        assert_eq!(fs(&log_band_points(num_bands, b(log_min), b(log_max))), expected);
    }
    // Without bands the only edge is no number.
    let edges = fs(&log_band_points(0, b(1.0), b(3.0)));
    assert_eq!(edges.len(), 1);
    assert!(edges[0].is_nan());
}

#[test]
fn hann_window() {
    for size in [1usize, 2, 8, 100] {
        let samples = noise(size, 5);
        let angles = fs(&window_angles(size));
        let expected: Vec<f32> = (0..size)
            .map(|i| 2.0 * PI * i as f32 / (size as f32 - 1.0))
            .collect();
        for i in 0..size {
            assert!(angles[i] == expected[i] || angles[i].is_nan() && expected[i].is_nan());
        }
        let cosines: Vec<f32> = angles.iter().map(|a| a.cos()).collect();
        let weighted = fs(&apply_window(&bs(&samples), &bs(&cosines)));
        for i in 0..size {
            let window = 0.5 * (1.0 - cosines[i]);
            let x = samples[i] * window;
            assert!(weighted[i] == x || weighted[i].is_nan() && x.is_nan());
        }
    }
}

#[test]
fn blocks_of_mono_samples() {
    let mut a = analyzer(0, 3, &[0.0], 1.0);
    assert_eq!(a.feed(&bs(&[1.0, 2.0, 3.0, 5.0])), None);
    assert_eq!(fs(&a.buffer), vec![1.5, 4.0]);
    // A frame that is cut short is divided as a full one.
    let block = a.feed(&bs(&[1.0, 0.0, 6.0])).unwrap();
    assert_eq!(fs(&block), vec![1.5, 4.0, 0.5]);
    assert_eq!(fs(&a.buffer), vec![3.0]);
    assert_eq!(a.feed(&[]), None);
    // One block at a time, however much waits.
    let block = a.feed(&bs(&[1.0; 12])).unwrap();
    assert_eq!(fs(&block), vec![3.0, 1.0, 1.0]);
    assert_eq!(a.buffer.len(), 4);
    let block = a.feed(&[]).unwrap();
    assert_eq!(fs(&block), vec![1.0, 1.0, 1.0]);
    assert_eq!(a.buffer.len(), 1);
}

#[test]
fn mixing_is_that_of_floats() {
    for channels in 1..6usize {
        let mut data = noise(101, channels as u32);
        data.extend([-0.0f32; 10]);
        let mut a = AudioAnalyzer::new(0, 1000, vec![Binary32::zero()], b(1.0), 44100, channels);
        a.feed(&bs(&data));
        let expected: Vec<u32> = data
            .chunks(channels)
            .map(|frame| (frame.iter().sum::<f32>() / channels as f32).to_bits())
            .collect();
        let mixed: Vec<u32> = a.buffer.iter().map(|x| x.to_bits()).collect();
        assert_eq!(mixed, expected);
    }
}

#[test]
fn pieces_mix_as_the_whole() {
    let data = noise(60, 9);
    let mut whole = analyzer(0, 1000, &[0.0], 1.0);
    whole.feed(&bs(&data));
    let mut pieces = analyzer(0, 1000, &[0.0], 1.0);
    pieces.feed(&bs(&data[..22]));
    pieces.feed(&bs(&data[22..]));
    assert_eq!(whole, pieces);
}

fn energies_in_floats(
    transform: &[(f32, f32)],
    edges: &[f32],
    bin_hz: f32,
    gain: f32,
) -> Vec<f32> {
    let bins = transform.len() / 2;
    (0..edges.len() - 1)
        .map(|band| {
            let lo = ((edges[band] / bin_hz) as usize).min(bins - 1);
            let hi = ((edges[band + 1] / bin_hz) as usize).min(bins);
            if hi <= lo {
                return 0.0;
            }
            let mut sum = 0.0f32;
            for bin in lo..hi {
                let (re, im) = transform[bin];
                sum += re * re + im * im;
            }
            ((sum / (hi - lo) as f32).sqrt() * gain).clamp(0.0, 1.0)
        })
        .collect()
}

#[test]
fn band_energies_of_a_transform() {
    let edges: Vec<f32> = log_band_points(8, b(20.0f32.ln()), b(30000.0f32.ln()))
        .iter()
        .map(|x| f32::from_bits(x.to_bits()).exp())
        .collect();
    for fft_size in [2usize, 16, 64, 512] {
        for gain in [0.3f32, 1.0, 5.0, -1.0] {
            let re = noise(fft_size, fft_size as u32);
            let im = noise(fft_size, 77);
            let transform: Vec<(f32, f32)> = re.into_iter().zip(im).collect();
            let mut a = analyzer(8, fft_size, &edges, gain);
            assert_eq!(fs(&a.band_energies()), vec![0.0; 8]);
            let complex: Vec<Complex> =
                transform.iter().map(|&(re, im)| Complex { re: b(re), im: b(im) }).collect();
            a.absorb(&complex);
            let bin_hz = 48000u32 as f32 / fft_size as f32;
            assert_eq!(
                fs(&a.band_energies()),
                energies_in_floats(&transform, &edges, bin_hz, gain)
            );
            for e in fs(&a.band_energies()) {
                assert!((0.0..=1.0).contains(&e));
            }
        }
    }
}

#[test]
fn exact_band_energy() {
    let mut a = AudioAnalyzer::new(1, 4, bs(&[0.0, 2.0]), b(0.1), 4, 1);
    assert_eq!(a.bin_hz, b(1.0));
    let complex: Vec<Complex> = [(3.0f32, 4.0f32), (5.0, 0.0), (9.0, 9.0), (9.0, 9.0)]
        .iter()
        .map(|&(re, im)| Complex { re: b(re), im: b(im) })
        .collect();
    a.absorb(&complex);
    assert_eq!(fs(&a.band_energies()), vec![0.5]);
}

#[test]
fn energies_are_numbers_whatever_was_heard() {
    let bins = [0.0f32, 1.0, f32::MAX, f32::INFINITY, f32::NAN];
    for gain in [0.0f32, -0.0, 1.0, -2.0, f32::INFINITY, f32::NEG_INFINITY, f32::NAN] {
        for re in bins {
            let mut a = AudioAnalyzer::new(1, 4, bs(&[0.0, 2.0]), b(gain), 4, 1);
            a.absorb(&[Complex { re: b(re), im: b(1.0) }; 4]);
            let energy = fs(&a.band_energies())[0];
            assert!((0.0..=1.0).contains(&energy));
            if gain == 0.0 || gain.is_nan() || re.is_nan() {
                assert_eq!(energy, 0.0);
            }
        }
    }
}

#[test]
fn doubled_gain_doubles_the_energies() {
    let edges = [0.0f32, 2000.0, 6000.0, 12000.0, 24000.0];
    let re = noise(64, 3);
    let im = noise(64, 4);
    let transform: Vec<Complex> =
        re.iter().zip(&im).map(|(&re, &im)| Complex { re: b(re), im: b(im) }).collect();
    for gain in [0.0f32, 0.001, 0.3, 0.7, 1.0, 5.0, -1.0] {
        let mut single = analyzer(4, 64, &edges, gain);
        let mut double = analyzer(4, 64, &edges, 2.0 * gain);
        single.absorb(&transform);
        double.absorb(&transform);
        let expected: Vec<f32> =
            fs(&single.band_energies()).iter().map(|e| (2.0 * e).min(1.0)).collect();
        assert_eq!(fs(&double.band_energies()), expected);
    }
}

#[test]
fn edges_end_near_the_upper_end() {
    for (log_min, log_max) in [(2.9957323f32, 9.903487f32), (-103.0, 88.0), (0.1, 0.3)] {
        for num_bands in [1usize, 3, 7, 100, 1001] {
            let points = fs(&log_band_points(num_bands, b(log_min), b(log_max)));
            let off = (points[num_bands] as f64 - log_max as f64).abs();
            let given = log_min.abs() as f64 + log_max.abs() as f64;
            assert!(off * 16777216.0 <= 5.0 * given);
        }
    }
}

#[test]
fn band_energies_of_a_tone() {
    let size = 64usize;
    let mut a = AudioAnalyzer::new(2, size, bs(&[0.0, 8.0, 32.0]), b(1.0), 64, 1);
    let tone: Vec<f32> = (0..size).map(|i| (2.0 * PI * 4.0 * i as f32 / 64.0).sin()).collect();
    let block = a.feed(&bs(&tone)).unwrap();
    let cosines: Vec<f32> = fs(&window_angles(size)).iter().map(|x| x.cos()).collect();
    let mut buffer: Vec<rustfft::num_complex::Complex<f32>> =
        fs(&apply_window(&block, &bs(&cosines)))
            .into_iter()
            .map(|re| rustfft::num_complex::Complex::new(re, 0.0))
            .collect();
    rustfft::FftPlanner::new().plan_fft_forward(size).process(&mut buffer);
    let transform: Vec<Complex> =
        buffer.iter().map(|c| Complex { re: b(c.re), im: b(c.im) }).collect();
    a.absorb(&transform);
    let energies = fs(&a.band_energies());
    assert_eq!(energies[0], 1.0);
    assert!(energies[1] < 0.1);
}

#[test]
fn edges_begin_at_the_lower_end_and_are_in_order() {
    for (log_min, log_max) in [(3.0f32, 9.7f32), (-2.5, 4.0), (1.0, 1.0), (-0.0, 2.0)] {
        for num_bands in [1usize, 7, 32, 1000] {
            let points = fs(&log_band_points(num_bands, b(log_min), b(log_max)));
            assert_eq!(points[0], log_min);
            for i in 1..points.len() {
                assert!(points[i - 1] <= points[i]);
            }
        }
    }
}

#[test]
fn doubled_bands_keep_their_edges() {
    let tiny = f32::from_bits(5);
    for (log_min, log_max) in [(2.9957323f32, 9.903487f32), (-103.0, 88.0), (0.0, tiny)] {
        for num_bands in [1usize, 3, 8, 100] {
            let single = log_band_points(num_bands, b(log_min), b(log_max));
            let double = log_band_points(2 * num_bands, b(log_min), b(log_max));
            for i in 0..=num_bands {
                assert_eq!(double[2 * i], single[i]);
            }
        }
    }
    // A share that overflows is lost.
    let single = log_band_points(1, b(0.0), b(f32::MAX));
    let double = log_band_points(2, b(0.0), b(f32::MAX));
    assert_eq!(single[1], b(f32::MAX));
    assert_eq!(double[2], b(f32::INFINITY));
}

#[test]
fn gain_of_zero_is_silent() {
    let bins = [Complex { re: b(3.0), im: b(4.0) }; 4];
    for gain in [0.0f32, -0.0] {
        let mut a = AudioAnalyzer::new(1, 4, bs(&[0.0, 2.0]), b(gain), 4, 1);
        a.absorb(&bins);
        assert_eq!(fs(&a.band_energies()), vec![0.0]);
    }
}
