use light_mixer::binary32::Binary32;
use light_mixer::mixer::chart::{render_chart, CHART_HEIGHT, CHART_WIDTH};
use light_mixer::mixer::desk::Desk;
use light_mixer::mixer::entry::UIEntry;
use light_mixer::mixer::keys::{KeyCode, KeyEvent, KeyEventKind};
use light_mixer::mixer::screen::render;
use light_mixer::mixer::spectrum::{
    compute_source_spectrum, compute_total_spectrum, downsample,
};

fn b(x: f32) -> Binary32 {
    Binary32::from_bits(x.to_bits())
}

fn source(flux: f32) -> UIEntry {
    UIEntry::Source { label: String::from("S0"), flux: b(flux), source_index: 0 }
}

fn emitter(flux: f32, n: usize, spectrum: Option<Vec<f32>>) -> UIEntry {
    UIEntry::Emitter {
        label: format!("F0S0E{}", n),
        flux: b(flux),
        spectrum: spectrum.map(|s| s.into_iter().map(b).collect()),
        peak_nm: b(522.5),
        color_name: "green",
        handle_index: n,
        source_entry_index: 0,
    }
}

const HELP: &str =
    " \u{2191}\u{2193}/jk select  \u{2190}\u{2192}/hl adjust  0 off  1 full  q quit\r\n";

fn header() -> String {
    format!(" Enody Mixer\r\n {}\r\n\r\n", "\u{2500}".repeat(68))
}

fn bar(filled: usize) -> String {
    format!("{}{}", "\u{2588}".repeat(filled), "\u{2591}".repeat(20 - filled))
}

#[test]
fn screen_without_spectra() {
    let entries = vec![source(1.0), emitter(0.35, 0, None)];
    let expected = format!(
        "{} > {:<9} {}  {}\r\n     {:<7} {}  {}\r\n\r\n{}",
        header(),
        "S0",
        bar(20),
        "1.00",
        "F0S0E0",
        bar(7),
        "0.35",
        HELP
    );
    assert_eq!(render(&entries, 0, 0, &None), expected);
}

#[test]
fn screen_with_an_error() {
    let entries = vec![source(0.0)];
    let expected = format!(
        "{} > {:<9} {}  0.00\r\n\r\n Error: no answer\r\n\r\n{}",
        header(),
        "S0",
        bar(0),
        HELP
    );
    assert_eq!(render(&entries, 0, 0, &Some(String::from("no answer"))), expected);
}

fn charts(title: &str, left: &[Binary32], right: &[Binary32]) -> String {
    let left = render_chart(left);
    let right = render_chart(right);
    let mut out = format!(" {:<w$}    {}\r\n", title, "Mix", w = CHART_WIDTH);
    for row in 0..CHART_HEIGHT {
        out.push_str(&format!(" {:<w$}    {}\r\n", left[row], right[row], w = CHART_WIDTH));
    }
    let axis = format!("380nm{:>w$}", "780nm", w = CHART_WIDTH - 5);
    out.push_str(&format!(" {:<w$}    {}\r\n\r\n", axis, axis, w = CHART_WIDTH));
    out
}

#[test]
fn screen_with_charts() {
    let spectrum: Vec<f32> = (0..401).map(|i| 1.0 / (1.0 + (i as f32 - 142.0).abs())).collect();
    let entries = vec![
        source(0.8),
        emitter(0.5, 0, Some(spectrum.clone())),
        emitter(0.25, 1, None),
    ];
    let total = downsample(&compute_total_spectrum(&entries), CHART_WIDTH);
    let own: Vec<Binary32> = spectrum.iter().map(|&x| b(x)).collect();
    let list = |selected: usize| {
        let mark = |n: usize| if n == selected { '>' } else { ' ' };
        format!(
            "{} {} {:<9} {}  0.80\r\n {}   {:<7} {}  0.50\r\n {}   {:<7} {}  0.25\r\n\r\n",
            header(),
            mark(0),
            "S0",
            bar(16),
            mark(1),
            "F0S0E0",
            bar(10),
            mark(2),
            "F0S0E1",
            bar(5)
        )
    };
    let mix = downsample(&compute_source_spectrum(&entries, 0), CHART_WIDTH);
    assert_eq!(
        render(&entries, 0, 0, &None),
        format!("{}{}{}", list(0), charts("S0 (source mix)", &mix, &total), HELP)
    );
    let own = downsample(&own, CHART_WIDTH);
    assert_eq!(
        render(&entries, 1, 0, &None),
        format!("{}{}{}", list(1), charts("F0S0E0 (522nm green)", &own, &total), HELP)
    );
    let dark = vec![Binary32::zero(); CHART_WIDTH];
    assert_eq!(
        render(&entries, 2, 0, &None),
        format!("{}{}{}", list(2), charts("F0S0E1 (522nm green)", &dark, &total), HELP)
    );
}

#[test]
fn scrolled_screen_tells_what_is_hidden() {
    let mut entries = vec![source(1.0)];
    for n in 0..29 {
        entries.push(emitter(0.0, n, None));
    }
    let mut desk = Desk::new(entries);
    let screen = desk.draw(&None);
    assert!(!screen.contains("   \u{2191} "));
    assert!(screen.contains("   \u{2193} 14 more\r\n"));
    assert!(screen.contains("F0S0E14"));
    assert!(!screen.contains("F0S0E15"));
    for _ in 0..20 {
        desk.press(KeyEvent { code: KeyCode::Down, modifiers: 0, kind: KeyEventKind::Press });
    }
    let screen = desk.draw(&None);
    assert!(screen.contains("   \u{2191} 5 more\r\n"));
    assert!(screen.contains("   \u{2193} 9 more\r\n"));
    assert!(screen.contains(" >   F0S0E19 "));
    assert!(!screen.contains("F0S0E20 "));
    assert!(!screen.contains("F0S0E3 "));
    assert!(screen.contains("F0S0E4 "));
}

#[test]
fn idle_desk_shows_only_errors() {
    let desk = Desk::new(vec![source(0.5)]);
    assert_eq!(desk.idle(&None), None);
    let error = Some(String::from("lost"));
    assert_eq!(desk.idle(&error), Some(desk.draw(&error)));
}
