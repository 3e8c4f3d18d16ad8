use light_mixer::binary32::Binary32;
use light_mixer::mixer::chart::{render_chart, CHART_HEIGHT};
use light_mixer::mixer::entry::{wavelength_color, UIEntry};
use light_mixer::mixer::spectrum::{
    compute_source_spectrum, compute_total_spectrum, downsample, greatest_of,
};

fn b(x: f32) -> Binary32 {
    Binary32::from_bits(x.to_bits())
}

fn bs(v: &[f32]) -> Vec<Binary32> {
    v.iter().map(|&x| b(x)).collect()
}

fn fs(v: &[Binary32]) -> Vec<f32> {
    v.iter().map(|x| f32::from_bits(x.to_bits())).collect()
}

fn wave(n: usize, seed: u32) -> Vec<f32> {
    let mut s = seed;
    (0..n)
        .map(|_| {
            s = s.wrapping_mul(1664525).wrapping_add(1013904223);
            (s >> 8) as f32 / 1.0e6 - 2.0
        })
        .collect()
}

fn downsample_in_floats(samples: &[f32], width: usize) -> Vec<f32> {
    let bucket = samples.len() as f32 / width as f32;
    (0..width)
        .map(|i| {
            let lo = (i as f32 * bucket) as usize;
            let hi = (((i + 1) as f32 * bucket) as usize).min(samples.len());
            if lo >= hi {
                0.0
            } else {
                samples[lo..hi].iter().cloned().fold(0.0f32, f32::max)
            }
        })
        .collect()
}

fn chart_in_floats(values: &[f32]) -> Vec<String> {
    let max = values.iter().cloned().fold(0.0f32, f32::max);
    (0..CHART_HEIGHT)
        .map(|top| {
            let row = CHART_HEIGHT - 1 - top;
            values
                .iter()
                .map(|&v| {
                    if max <= 0.0 {
                        return ' ';
                    }
                    let height = v / max * CHART_HEIGHT as f32;
                    let full = height as usize;
                    let rest = height - full as f32;
                    let blocks: Vec<char> = " \u{2581}\u{2582}\u{2583}\u{2584}\u{2585}\u{2586}\u{2587}"
                        .chars()
                        .collect();
                    if row < full {
                        '\u{2588}'
                    } else if row == full && rest > 0.1 {
                        blocks[((rest * 8.0) as usize).min(7)]
                    } else {
                        ' '
                    }
                })
                .collect()
        })
        .collect()
}

#[test]
fn columns_hold_the_greatest_sample() {
    assert_eq!(fs(&downsample(&bs(&[1.0, 5.0, 2.0, 3.0]), 2)), vec![5.0, 3.0]);
    // Fewer samples than columns leave columns empty.
    assert_eq!(fs(&downsample(&bs(&[4.0]), 3)), vec![0.0, 0.0, 4.0]);
    assert_eq!(fs(&downsample(&[], 2)), vec![0.0, 0.0]);
    assert_eq!(downsample(&bs(&[1.0]), 0).len(), 0);
    for n in [1usize, 5, 31, 32, 33, 100, 401, 1000] {
        for width in [1usize, 7, 32] {
            let v = wave(n, n as u32);
            assert_eq!(fs(&downsample(&bs(&v), width)), downsample_in_floats(&v, width));
        }
    }
}

#[test]
fn greatest_is_at_least_zero() {
    assert_eq!(greatest_of(&bs(&[-1.0, -2.0]), 0, 2), Binary32::zero());
    assert_eq!(greatest_of(&bs(&[1.0, f32::NAN, 3.0, 2.0]), 0, 4), b(3.0));
    assert_eq!(greatest_of(&bs(&[1.0, f32::NAN, 3.0, 2.0]), 0, 2), b(1.0));
}

#[test]
fn charts_of_blocks() {
    let rows = render_chart(&bs(&[0.0, 1.0, 0.5, 0.25]));
    assert_eq!(rows.len(), 6);
    assert_eq!(rows[0], " \u{2588}  ");
    assert_eq!(rows[3], " \u{2588}\u{2588} ");
    assert_eq!(rows[4], " \u{2588}\u{2588}\u{2584}");
    assert_eq!(rows[5], " \u{2588}\u{2588}\u{2588}");
    for n in 0..40usize {
        let v = wave(n, 3 * n as u32 + 1);
        assert_eq!(render_chart(&bs(&v)), chart_in_floats(&v));
    }
}

#[test]
fn dark_chart_is_blank() {
    let rows = render_chart(&bs(&[0.0, -1.0, -0.0]));
    for row in rows {
        assert_eq!(row, "   ");
    }
}

#[test]
fn greatest_bar_is_full() {
    let rows = render_chart(&bs(&[0.3, 7.7, 0.1]));
    for row in rows {
        assert_eq!(row.chars().nth(1), Some('\u{2588}'));
    }
}

fn source(flux: f32, source_index: usize) -> UIEntry {
    UIEntry::Source { label: format!("S{}", source_index), flux: b(flux), source_index }
}

fn emitter(flux: f32, spectrum: Option<Vec<f32>>, source_entry_index: usize) -> UIEntry {
    UIEntry::Emitter {
        label: String::from("E"),
        flux: b(flux),
        spectrum: spectrum.map(|s| bs(&s)),
        peak_nm: b(500.0),
        color_name: "green",
        handle_index: 0,
        source_entry_index,
    }
}

#[test]
fn mixes_add_scaled_spectra() {
    let first = wave(401, 11);
    let second = wave(500, 12);
    let third = wave(10, 13);
    let entries = vec![
        source(0.8, 0),
        emitter(0.3, Some(first.clone()), 0),
        emitter(0.0, Some(first.clone()), 0),
        emitter(1.0, None, 0),
        source(0.5, 1),
        emitter(0.7, Some(second.clone()), 4),
        emitter(0.9, Some(third.clone()), 0),
        source(0.0, 2),
        emitter(1.0, Some(first.clone()), 7),
    ];
    let mut total = vec![0.0f32; 401];
    let mut of_first = vec![0.0f32; 401];
    for (spectrum, factor, in_first) in [
        (&first, 0.3f32 * 0.8f32, true),
        (&second, 0.7f32 * 0.5f32, false),
        (&third, 0.9f32 * 0.8f32, true),
    ] {
        for (i, &v) in spectrum.iter().enumerate() {
            if i < 401 {
                total[i] += v * factor;
                if in_first {
                    of_first[i] += v * factor;
                }
            }
        }
    }
    assert_eq!(fs(&compute_total_spectrum(&entries)), total);
    assert_eq!(fs(&compute_source_spectrum(&entries, 0)), of_first);
    // A dark source is dark.
    assert_eq!(fs(&compute_source_spectrum(&entries, 7)), vec![0.0; 401]);
}

#[test]
fn single_source_is_the_whole_mix() {
    let entries = vec![
        source(0.65, 0),
        emitter(0.35, Some(wave(401, 5)), 0),
        emitter(0.95, Some(wave(401, 6)), 0),
    ];
    assert_eq!(compute_source_spectrum(&entries, 0), compute_total_spectrum(&entries));
}

#[test]
fn colors_of_wavelengths() {
    for (nm, name) in [
        (0.0f32, "violet"),
        (449.9, "violet"),
        (450.0, "blue"),
        (479.99, "blue"),
        (480.0, "cyan"),
        (500.0, "green"),
        (530.0, "lime"),
        (570.0, "amber"),
        (600.0, "orange"),
        (639.9, "orange"),
        (640.0, "red"),
        (f32::NAN, "red"),
        (-1.0, "violet"),
    ] {
        assert_eq!(wavelength_color(b(nm)), name);
    }
}

#[test]
fn columns_keep_the_peak() {
    for n in [1usize, 3, 31, 32, 33, 401, 1000, 4096] {
        for peak in [0, n / 3, n / 2, n - 1] {
            let mut v = wave(n, n as u32);
            v[peak] = 100.0;
            let columns = downsample(&bs(&v), 32);
            assert_eq!(greatest_of(&columns, 0, columns.len()), b(100.0));
        }
    }
}

#[test]
fn greater_values_have_taller_bars() {
    let values: Vec<f32> = (-10..90).map(|i| i as f32 * 0.37).collect();
    for row in render_chart(&bs(&values)) {
        let heights: Vec<u32> = row
            .chars()
            .map(|c| if c == ' ' { 0 } else { c as u32 - 0x2580 })
            .collect();
        for i in 1..heights.len() {
            assert!(heights[i - 1] <= heights[i]);
        }
    }
}

#[test]
fn every_sample_falls_into_one_column() {
    for n in [1usize, 5, 32, 100, 401] {
        for j in 0..n {
            let mut v = vec![0.0f32; n];
            v[j] = 1.0;
            let columns = fs(&downsample(&bs(&v), 32));
            assert_eq!(columns.iter().filter(|&&x| x == 1.0).count(), 1);
        }
    }
}

#[test]
fn lit_source_among_dark_ones_is_the_whole_mix() {
    let entries = vec![
        source(0.65, 0),
        emitter(0.35, Some(wave(401, 5)), 0),
        source(0.0, 1),
        emitter(0.95, Some(wave(401, 6)), 2),
        source(1.0, 2),
        emitter(0.0, Some(wave(401, 7)), 4),
    ];
    assert_eq!(compute_source_spectrum(&entries, 0), compute_total_spectrum(&entries));
}

#[test]
fn whole_mix_is_the_sum_of_the_mixes_of_the_sources() {
    // Small multiples of a power of two, so that no sum is rounded.
    let steps = |seed: usize| (0..401).map(|i| ((i * seed) % 17) as f32 / 4.0).collect();
    let entries = vec![
        source(0.5, 0),
        emitter(1.0, Some(steps(3)), 0),
        emitter(0.25, Some(steps(5)), 3),
        source(1.0, 1),
        emitter(0.5, Some(steps(7)), 0),
        emitter(0.5, Some(steps(11)), 3),
    ];
    let first = fs(&compute_source_spectrum(&entries, 0));
    let second = fs(&compute_source_spectrum(&entries, 3));
    let expected: Vec<f32> = first.iter().zip(&second).map(|(x, y)| x + y).collect();
    assert_eq!(fs(&compute_total_spectrum(&entries)), expected);
}
