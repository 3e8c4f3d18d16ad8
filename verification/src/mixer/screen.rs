//! What the desk looks like on a terminal.

use vstd::arithmetic::power2::{lemma2_to64, pow2};
use vstd::prelude::*;
use vstd::string::*;

use crate::binary32::Binary32;
use crate::mixer::chart::{chart_row, render_chart, CHART_HEIGHT, CHART_WIDTH};
use crate::mixer::desk::{entries_valid, entry_valid, visible_rows, Desk, MAX_VISIBLE};
use crate::mixer::entry::UIEntry;
use crate::mixer::level::{filled, filled_blocks, law_bar_fits, BAR_WIDTH};
use crate::mixer::spectrum::{
    column, compute_source_spectrum, compute_total_spectrum, downsample, greatest, in_column,
    law_column_holds_its_greatest, law_column_share, law_columns_keep_the_peak,
    law_sources_do_not_mix, source_known, source_spectrum, sources_known, total_spectrum,
};
use crate::rounding::SIGNIFICAND_LIMIT;
use crate::text::{
    decimal, left_aligned, push_decimal, push_left_aligned, push_repeated, push_right_aligned,
    push_two_places, push_whole, repeated, right_aligned, two_places, w, whole,
};

verus! {

/// A fader as a bar.
pub open spec fn bar_text(flux: Binary32) -> Seq<char> {
    repeated('\u{2588}', filled_blocks(flux)) + repeated(
        '\u{2591}',
        (BAR_WIDTH - filled_blocks(flux)) as nat,
    )
}

/// The name of a fader. Emitters are indented below their source.
pub open spec fn name_text(entry: UIEntry) -> Seq<char> {
    match entry {
        UIEntry::Source { label, .. } => " "@ + left_aligned(label@, 9),
        UIEntry::Emitter { label, .. } => "   "@ + left_aligned(label@, 7),
    }
}

/// The line of a fader.
pub open spec fn entry_text(entry: UIEntry, selected: bool) -> Seq<char> {
    let marker: Seq<char> = if selected {
        " >"@
    } else {
        "  "@
    };
    marker + name_text(entry) + " "@ + bar_text(entry.level()) + "  "@ + two_places(entry.level()) + "\r\n"@
}

/// The lines of the faders from `lo` up to `hi`.
pub open spec fn entries_text(entries: Seq<UIEntry>, selected: int, lo: int, hi: int) -> Seq<char>
    decreases hi - lo,
{
    if lo >= hi {
        Seq::empty()
    } else {
        entries_text(entries, selected, lo, hi - 1) + entry_text(
            entries[hi - 1],
            hi - 1 == selected,
        )
    }
}

/// The line that tells how many faders are out of sight.
pub open spec fn more_text(mark: Seq<char>, n: nat) -> Seq<char> {
    if n > 0 {
        mark + decimal(n) + " more\r\n"@
    } else {
        Seq::empty()
    }
}

/// One past the last fader that is shown.
pub open spec fn visible_end(len: nat, scroll: int) -> int {
    if scroll + visible_rows(len) < len {
        scroll + visible_rows(len)
    } else {
        len as int
    }
}

/// The list of faders.
pub open spec fn list_text(entries: Seq<UIEntry>, selected: int, scroll: int) -> Seq<char> {
    let end: int = visible_end(entries.len(), scroll);
    more_text("   \u{2191} "@, scroll as nat) + entries_text(entries, selected, scroll, end)
        + more_text("   \u{2193} "@, (entries.len() - end) as nat) + "\r\n"@
}

/// Whether the spectrum of a fader is known.
pub open spec fn has_spectrum(entry: UIEntry) -> bool {
    match entry {
        UIEntry::Emitter { spectrum: Some(_), .. } => true,
        _ => false,
    }
}

/// Whether there is anything to chart.
pub open spec fn has_spectra(entries: Seq<UIEntry>) -> bool {
    exists|n: int| 0 <= n < entries.len() && has_spectrum(#[trigger] entries[n])
}

/// A spectrum as the columns of a chart.
pub open spec fn columns(samples: Seq<Binary32>) -> Seq<Binary32> {
    Seq::new(CHART_WIDTH as nat, |i: int| column(samples, CHART_WIDTH as nat, i as nat))
}

/// The title of the chart of the selected fader.
pub open spec fn chart_title(entry: UIEntry) -> Seq<char> {
    match entry {
        UIEntry::Emitter { label, peak_nm, color_name, .. } => label@ + " ("@ + whole(peak_nm)
            + "nm "@ + color_name@ + ")"@,
        UIEntry::Source { label, .. } => label@ + " (source mix)"@,
    }
}

/// The columns of the chart of the selected fader: the spectrum of an emitter at full
/// flux, the mix of a source.
pub open spec fn chart_columns(entries: Seq<UIEntry>, selected: int) -> Seq<Binary32> {
    match entries[selected] {
        UIEntry::Emitter { spectrum: Some(spectrum), .. } => columns(spectrum@),
        UIEntry::Emitter { spectrum: None, .. } => Seq::new(
            CHART_WIDTH as nat,
            |i: int| Binary32::zero(),
        ),
        UIEntry::Source { .. } => columns(source_spectrum(entries, selected)),
    }
}

/// Two texts side by side, each as wide as a chart.
pub open spec fn beside(left: Seq<char>, right: Seq<char>) -> Seq<char> {
    " "@ + left_aligned(left, CHART_WIDTH as nat) + "    "@ + right + "\r\n"@
}

/// The first `n` rows of two charts.
pub open spec fn rows_text(left: Seq<Binary32>, right: Seq<Binary32>, n: nat) -> Seq<char>
    decreases n,
{
    if n == 0 {
        Seq::empty()
    } else {
        rows_text(left, right, (n - 1) as nat) + beside(
            chart_row(left, n - 1),
            chart_row(right, n - 1),
        )
    }
}

/// The axis below a chart.
pub open spec fn axis_text() -> Seq<char> {
    "380nm"@ + right_aligned("780nm"@, (CHART_WIDTH - 5) as nat)
}

/// The charts of the selected fader and of the whole mix.
pub open spec fn charts_text(entries: Seq<UIEntry>, selected: int) -> Seq<char> {
    if has_spectra(entries) {
        beside(chart_title(entries[selected]), "Mix"@) + rows_text(
            chart_columns(entries, selected),
            columns(total_spectrum(entries)),
            CHART_HEIGHT as nat,
        ) + beside(axis_text(), axis_text()) + "\r\n"@
    } else {
        Seq::empty()
    }
}

/// The line that tells of an error.
pub open spec fn error_text(error: Option<String>) -> Seq<char> {
    match error {
        Some(message) => " Error: "@ + message@ + "\r\n\r\n"@,
        None => Seq::empty(),
    }
}

/// The title of the screen.
pub open spec fn header_text() -> Seq<char> {
    " Enody Mixer\r\n "@ + repeated('\u{2500}', 68) + "\r\n\r\n"@
}

/// The whole screen.
pub open spec fn screen_text(
    entries: Seq<UIEntry>,
    selected: int,
    scroll: int,
    error: Option<String>,
) -> Seq<char> {
    header_text() + list_text(entries, selected, scroll) + charts_text(entries, selected)
        + error_text(error)
        + " \u{2191}\u{2193}/jk select  \u{2190}\u{2192}/hl adjust  0 off  1 full  q quit\r\n"@
}

/// Whether every fader that is shown fits its bar.
pub open spec fn bars_fit(entries: Seq<UIEntry>, scroll: int) -> bool {
    forall|i: int|
        scroll <= i < visible_end(entries.len(), scroll) ==> filled_blocks(
            (#[trigger] entries[i]).level(),
        ) <= BAR_WIDTH
}

/// Appends a fader as a bar.
fn push_bar(out: &mut String, flux: Binary32)
    requires
        filled_blocks(flux) <= BAR_WIDTH,
    ensures
        final(out)@ == old(out)@ + bar_text(flux),
{
    let ghost before: Seq<char> = out@;
    let full: usize = filled(flux);
    push_repeated(out, '\u{2588}', full);
    push_repeated(out, '\u{2591}', BAR_WIDTH - full);
    assert(out@ =~= before + bar_text(flux));
}

/// Appends the name of a fader.
fn push_name(out: &mut String, entry: &UIEntry)
    ensures
        final(out)@ == old(out)@ + name_text(*entry),
{
    let ghost before: Seq<char> = out@;
    match entry {
        UIEntry::Source { label, .. } => {
            w(out, " ");
            push_left_aligned(out, label.as_str(), 9);
        },
        UIEntry::Emitter { label, .. } => {
            w(out, "   ");
            push_left_aligned(out, label.as_str(), 7);
        },
    }
    assert(out@ =~= before + name_text(*entry));
}

/// Appends the line of a fader.
fn push_entry(out: &mut String, entry: &UIEntry, selected: bool)
    requires
        filled_blocks(entry.level()) <= BAR_WIDTH,
    ensures
        final(out)@ == old(out)@ + entry_text(*entry, selected),
{
    let ghost before: Seq<char> = out@;
    let flux: Binary32 = entry.flux();
    if selected {
        w(out, " >");
    } else {
        w(out, "  ");
    }
    push_name(out, entry);
    w(out, " ");
    push_bar(out, flux);
    w(out, "  ");
    push_two_places(out, flux);
    w(out, "\r\n");
    assert(out@ =~= before + entry_text(*entry, selected));
}

/// Appends the line that tells how many faders are out of sight.
fn push_more(out: &mut String, mark: &str, n: usize)
    ensures
        final(out)@ == old(out)@ + more_text(mark@, n as nat),
{
    let ghost before: Seq<char> = out@;
    if n > 0 {
        w(out, mark);
        push_decimal(out, n as u128);
        w(out, " more\r\n");
    }
    assert(out@ =~= before + more_text(mark@, n as nat));
}

/// Appends the list of faders.
fn push_list(out: &mut String, entries: &[UIEntry], selected: usize, scroll_offset: usize)
    requires
        scroll_offset + visible_rows(entries@.len()) <= usize::MAX,
        bars_fit(entries@, scroll_offset as int),
    ensures
        final(out)@ == old(out)@ + list_text(entries@, selected as int, scroll_offset as int),
{
    let ghost before: Seq<char> = out@;
    let len: usize = entries.len();
    let rows: usize = if len < MAX_VISIBLE {
        len
    } else {
        MAX_VISIBLE
    };
    let end: usize = if scroll_offset + rows < len {
        scroll_offset + rows
    } else {
        len
    };
    push_more(out, "   \u{2191} ", scroll_offset);
    let ghost top: Seq<char> = out@;
    let mut i: usize = scroll_offset;
    assert(out@ =~= top + entries_text(
        entries@,
        selected as int,
        scroll_offset as int,
        scroll_offset as int,
    ));
    while i < end
        invariant
            scroll_offset <= i,
            i <= end || i == scroll_offset,
            end <= entries@.len(),
            end == visible_end(entries@.len(), scroll_offset as int),
            bars_fit(entries@, scroll_offset as int),
            out@ == top + entries_text(
                entries@,
                selected as int,
                scroll_offset as int,
                i as int,
            ),
        decreases end - i,
    {
        push_entry(out, &entries[i], i == selected);
        i = i + 1;
        assert(out@ =~= top + entries_text(
            entries@,
            selected as int,
            scroll_offset as int,
            i as int,
        ));
    }
    push_more(out, "   \u{2193} ", len - end);
    w(out, "\r\n");
    assert(out@ =~= before + list_text(entries@, selected as int, scroll_offset as int));
}

/// Appends two texts side by side.
fn push_beside(out: &mut String, left: &str, right: &str)
    ensures
        final(out)@ == old(out)@ + beside(left@, right@),
{
    let ghost before: Seq<char> = out@;
    w(out, " ");
    push_left_aligned(out, left, CHART_WIDTH);
    w(out, "    ");
    w(out, right);
    w(out, "\r\n");
    assert(out@ =~= before + beside(left@, right@));
}

/// The title of the chart of the selected fader.
fn title(entry: &UIEntry) -> (t: String)
    ensures
        t@ == chart_title(*entry),
{
    let mut t: String = String::new();
    match entry {
        UIEntry::Emitter { label, peak_nm, color_name, .. } => {
            w(&mut t, label.as_str());
            w(&mut t, " (");
            push_whole(&mut t, *peak_nm);
            w(&mut t, "nm ");
            w(&mut t, color_name);
            w(&mut t, ")");
        },
        UIEntry::Source { label, .. } => {
            w(&mut t, label.as_str());
            w(&mut t, " (source mix)");
        },
    }
    assert(t@ =~= chart_title(*entry));
    t
}

/// The columns of the chart of the selected fader.
fn selected_columns(entries: &[UIEntry], selected: usize) -> (values: Vec<Binary32>)
    requires
        selected < entries@.len(),
    ensures
        values@ == chart_columns(entries@, selected as int),
{
    match &entries[selected] {
        UIEntry::Emitter { spectrum: Some(spectrum), .. } => {
            downsample(spectrum.as_slice(), CHART_WIDTH)
        },
        UIEntry::Emitter { spectrum: None, .. } => {
            let mut values: Vec<Binary32> = Vec::new();
            let mut i: usize = 0;
            while i < CHART_WIDTH
                invariant
                    i <= CHART_WIDTH,
                    values@ == Seq::new(i as nat, |i: int| Binary32::zero()),
                decreases CHART_WIDTH - i,
            {
                values.push(Binary32::zero());
                i = i + 1;
            }
            values
        },
        UIEntry::Source { .. } => {
            let spectrum: Vec<Binary32> = compute_source_spectrum(entries, selected);
            downsample(spectrum.as_slice(), CHART_WIDTH)
        },
    }
}

/// Whether there is anything to chart.
fn any_spectrum(entries: &[UIEntry]) -> (r: bool)
    ensures
        r == has_spectra(entries@),
{
    let mut i: usize = 0;
    while i < entries.len()
        invariant
            i <= entries@.len(),
            forall|n: int| 0 <= n < i ==> !has_spectrum(#[trigger] entries@[n]),
        decreases entries@.len() - i,
    {
        if let UIEntry::Emitter { spectrum: Some(_), .. } = &entries[i] {
            assert(has_spectrum(entries@[i as int]));
            return true;
        }
        i = i + 1;
    }
    false
}

/// Appends the charts of the selected fader and of the whole mix.
fn push_charts(out: &mut String, entries: &[UIEntry], selected: usize)
    requires
        has_spectra(entries@) ==> selected < entries@.len() && sources_known(entries@),
    ensures
        final(out)@ == old(out)@ + charts_text(entries@, selected as int),
{
    let ghost before: Seq<char> = out@;
    if !any_spectrum(entries) {
        assert(out@ =~= before + charts_text(entries@, selected as int));
        return;
    }
    let left_title: String = title(&entries[selected]);
    let left_columns: Vec<Binary32> = selected_columns(entries, selected);
    let total: Vec<Binary32> = compute_total_spectrum(entries);
    let right_columns: Vec<Binary32> = downsample(total.as_slice(), CHART_WIDTH);
    let left: Vec<String> = render_chart(left_columns.as_slice());
    let right: Vec<String> = render_chart(right_columns.as_slice());
    push_beside(out, left_title.as_str(), "Mix");
    let ghost top: Seq<char> = out@;
    let mut row: usize = 0;
    assert(out@ =~= top + rows_text(left_columns@, right_columns@, 0));
    while row < CHART_HEIGHT
        invariant
            row <= CHART_HEIGHT,
            left@.len() == CHART_HEIGHT,
            right@.len() == CHART_HEIGHT,
            forall|r: int|
                0 <= r < CHART_HEIGHT ==> (#[trigger] left@[r])@ == chart_row(left_columns@, r),
            forall|r: int|
                0 <= r < CHART_HEIGHT ==> (#[trigger] right@[r])@ == chart_row(right_columns@, r),
            out@ == top + rows_text(left_columns@, right_columns@, row as nat),
        decreases CHART_HEIGHT - row,
    {
        push_beside(out, left[row].as_str(), right[row].as_str());
        row = row + 1;
        assert(out@ =~= top + rows_text(left_columns@, right_columns@, row as nat));
    }
    let mut axis: String = String::new();
    w(&mut axis, "380nm");
    push_right_aligned(&mut axis, "780nm", CHART_WIDTH - 5);
    assert(axis@ =~= axis_text());
    push_beside(out, axis.as_str(), axis.as_str());
    w(out, "\r\n");
    assert(out@ =~= before + charts_text(entries@, selected as int));
}

/// Appends the title of the screen.
fn push_header(out: &mut String)
    ensures
        final(out)@ == old(out)@ + header_text(),
{
    let ghost before: Seq<char> = out@;
    w(out, " Enody Mixer\r\n ");
    push_repeated(out, '\u{2500}', 68);
    w(out, "\r\n\r\n");
    assert(out@ =~= before + header_text());
}

/// Appends the line that tells of an error.
fn push_error(out: &mut String, error: &Option<String>)
    ensures
        final(out)@ == old(out)@ + error_text(*error),
{
    let ghost before: Seq<char> = out@;
    match error {
        Some(message) => {
            w(out, " Error: ");
            w(out, message.as_str());
            w(out, "\r\n\r\n");
        },
        None => {},
    }
    assert(out@ =~= before + error_text(*error));
}

/// Draws the screen.
pub fn render(
    entries: &[UIEntry],
    selected: usize,
    scroll_offset: usize,
    error: &Option<String>,
) -> (screen: String)
    requires
        scroll_offset + visible_rows(entries@.len()) <= usize::MAX,
        bars_fit(entries@, scroll_offset as int),
        has_spectra(entries@) ==> selected < entries@.len() && sources_known(entries@),
    ensures
        screen@ == screen_text(entries@, selected as int, scroll_offset as int, *error),
{
    let mut out: String = String::new();
    push_header(&mut out);
    assert(out@ =~= header_text());
    push_list(&mut out, entries, selected, scroll_offset);
    push_charts(&mut out, entries, selected);
    push_error(&mut out, error);
    w(
        &mut out,
        " \u{2191}\u{2193}/jk select  \u{2190}\u{2192}/hl adjust  0 off  1 full  q quit\r\n",
    );
    out
}

impl Desk {
    /// Draws the desk.
    pub fn draw(&self, error: &Option<String>) -> (screen: String)
        requires
            self.wf(),
        ensures
            screen@ == screen_text(
                self.entries@,
                self.selected as int,
                self.scroll_offset as int,
                *error,
            ),
    {
        proof {
            law_valid_entries_can_be_drawn(self.entries@, self.scroll_offset as int);
            assert(self.entries.len() == self.entries@.len());
        }
        render(self.entries.as_slice(), self.selected, self.scroll_offset, error)
    }

    /// What to draw when no key was pressed for a while: nothing, unless there is an
    /// error to show.
    pub fn idle(&self, error: &Option<String>) -> (screen: Option<String>)
        requires
            self.wf(),
        ensures
            error is None <==> screen is None,
            screen is Some ==> screen->0@ == screen_text(
                self.entries@,
                self.selected as int,
                self.scroll_offset as int,
                *error,
            ),
    {
        if error.is_some() {
            Some(self.draw(error))
        } else {
            None
        }
    }
}

/// However many samples fall into a column, the peak of a spectrum is not lost on its
/// chart: the greatest column is the greatest sample.
pub proof fn law_chart_keeps_the_peak(samples: Seq<Binary32>)
    requires
        samples.len() < SIGNIFICAND_LIMIT,
    ensures
        greatest(columns(samples)) == greatest(samples),
{
    lemma2_to64();
    law_columns_keep_the_peak(samples, 5);
    assert(columns(samples) =~= Seq::new(
        pow2(5),
        |i: int| column(samples, pow2(5), i as nat),
    ));
}

/// Valid faders fit their bars and find their sources, wherever the desk is scrolled to.
pub proof fn law_valid_entries_can_be_drawn(entries: Seq<UIEntry>, scroll: int)
    requires
        entries_valid(entries),
        scroll >= 0,
    ensures
        bars_fit(entries, scroll),
        sources_known(entries),
{
    assert forall|i: int| scroll <= i < visible_end(entries.len(), scroll) implies filled_blocks(
        (#[trigger] entries[i]).level(),
    ) <= BAR_WIDTH by {
        assert(entry_valid(entries, i));
        law_bar_fits(entries[i].level());
    }
    assert forall|n: int| 0 <= n < entries.len() implies source_known(entries, n) by {
        assert(entry_valid(entries, n));
    }
}

/// A chart has thirty-two columns, and each shows the greatest of its share of the samples:
/// none of them is above it, and it is one of them, or zero.
pub proof fn law_chart_columns(samples: Seq<Binary32>, c: nat, j: int)
    requires
        32 * samples.len() < SIGNIFICAND_LIMIT,
        c < 32,
        0 <= j < samples.len(),
        (c * samples.len()) / 32 <= j < ((c + 1) * samples.len()) / 32,
        !samples[j].is_nan(),
    ensures
        columns(samples).len() == 32,
        samples[j].at_most(columns(samples)[c as int]),
        columns(samples)[c as int].bits != 0 ==> exists|k: int|
            0 <= k < samples.len() && (c * samples.len()) / 32 <= k < ((c + 1) * samples.len())
                / 32 && #[trigger] samples[k] == columns(samples)[c as int],
{
    lemma2_to64();
    let len: nat = samples.len();
    assert(c * len <= 32 * len && (c + 1) * len <= 32 * len) by (nonlinear_arith)
        requires
            c + 1 <= 32,
    ;
    law_column_share(len, 5, c);
    law_column_share(len, 5, c + 1);
    law_column_holds_its_greatest(samples, 32, c, j);
    if columns(samples)[c as int].bits != 0 {
        let k: int = choose|k: int|
            0 <= k < samples.len() && in_column(samples.len(), 32, c, k as nat)
                && #[trigger] samples[k] == column(samples, 32, c);
        assert(samples[k] == columns(samples)[c as int]);
    }
}

/// Where a source is selected, the left chart shows the light of that source: each column
/// the greatest of its share of the samples of that source's own spectrum.
pub proof fn law_chart_of_source(entries: Seq<UIEntry>, selected: int, c: nat, j: int)
    requires
        0 <= selected < entries.len(),
        entries[selected] is Source,
        c < 32,
        (c * 401) / 32 <= j < ((c + 1) * 401) / 32,
        !source_spectrum(entries, selected)[j].is_nan(),
    ensures
        ({
            let own: Seq<Binary32> = source_spectrum(entries, selected);
            let shown: Seq<Binary32> = chart_columns(entries, selected);
            &&& shown.len() == 32
            &&& own[j].at_most(shown[c as int])
            &&& shown[c as int].bits != 0 ==> exists|k: int|
                (c * 401) / 32 <= k < ((c + 1) * 401) / 32 && #[trigger] own[k]
                    == shown[c as int]
        }),
{
    let own: Seq<Binary32> = source_spectrum(entries, selected);
    assert(own.len() == 401);
    assert(((c + 1) * 401) / 32 <= 401);
    law_chart_columns(own, c, j);
    let shown: Seq<Binary32> = chart_columns(entries, selected);
    if shown[c as int].bits != 0 {
        let k: int = choose|k: int|
            0 <= k < own.len() && (c * own.len()) / 32 <= k < ((c + 1) * own.len()) / 32
                && #[trigger] own[k] == columns(own)[c as int];
        assert(own[k] == shown[c as int]);
    }
}

/// Where a source is selected, the left chart does not change when a fader of another
/// source is moved.
pub proof fn law_chart_ignores_other_sources(
    entries: Seq<UIEntry>,
    moved: Seq<UIEntry>,
    selected: int,
)
    requires
        entries.len() == moved.len(),
        0 <= selected < entries.len(),
        entries[selected] is Source,
        entries[selected] == moved[selected],
        forall|n: int|
            0 <= n < entries.len() ==> #[trigger] entries[n] == moved[n] || {
                &&& !(entries[n] matches UIEntry::Emitter { source_entry_index, .. }
                    && source_entry_index == selected)
                &&& !(moved[n] matches UIEntry::Emitter { source_entry_index, .. }
                    && source_entry_index == selected)
            },
    ensures
        chart_columns(entries, selected) == chart_columns(moved, selected),
{
    let (a, b): (Seq<Binary32>, Seq<Binary32>) = (
        source_spectrum(entries, selected),
        source_spectrum(moved, selected),
    );
    assert forall|i: int| 0 <= i < 401 implies a[i] == b[i] by {
        law_sources_do_not_mix(entries, moved, selected, i);
    }
    assert(a =~= b);
}

/// Where an emitter is selected, the left chart shows its own spectrum, whatever its fader
/// and all others are at; nothing if the spectrum is not known.
pub proof fn law_chart_of_emitter(entries: Seq<UIEntry>, selected: int, c: nat, j: int)
    requires
        0 <= selected < entries.len(),
        c < 32,
    ensures
        entries[selected] matches UIEntry::Emitter { spectrum, .. } ==> {
            let shown: Seq<Binary32> = chart_columns(entries, selected);
            &&& shown.len() == 32
            &&& spectrum is None ==> shown[c as int].bits == 0
            &&& spectrum matches Some(samples) ==> {
                let len: nat = samples@.len();
                32 * len < SIGNIFICAND_LIMIT && 0 <= j < len && (c * len) / 32 <= j < ((c + 1)
                    * len) / 32 && !samples@[j].is_nan() ==> {
                    &&& samples@[j].at_most(shown[c as int])
                    &&& shown[c as int].bits != 0 ==> exists|k: int|
                        0 <= k < len && (c * len) / 32 <= k < ((c + 1) * len) / 32
                            && #[trigger] samples@[k] == shown[c as int]
                }
            }
        },
{
    if let UIEntry::Emitter { spectrum: Some(samples), .. } = entries[selected] {
        let len: nat = samples@.len();
        if 32 * len < SIGNIFICAND_LIMIT && 0 <= j < len && (c * len) / 32 <= j < ((c + 1) * len)
            / 32 && !samples@[j].is_nan() {
            law_chart_columns(samples@, c, j);
        }
    }
}

/// The charts: the title of the left one beside that of the mix, six rows, left beside
/// right, and the axis below both. They are drawn if the spectrum of any emitter is known.
pub proof fn law_charts(entries: Seq<UIEntry>, selected: int)
    ensures
        ({
            let known: bool = exists|n: int|
                0 <= n < entries.len() && (#[trigger] entries[n] matches UIEntry::Emitter {
                    spectrum,
                    ..
                } && spectrum is Some);
            let left: Seq<Binary32> = chart_columns(entries, selected);
            let right: Seq<Binary32> = columns(total_spectrum(entries));
            let axis: Seq<char> = "380nm"@ + repeated(' ', 22) + "780nm"@;
            &&& !known ==> charts_text(entries, selected).len() == 0
            &&& known ==> charts_text(entries, selected) == chart_line(
                chart_title(entries[selected]),
                "Mix"@,
            ) + chart_line(chart_row(left, 0), chart_row(right, 0)) + chart_line(
                chart_row(left, 1),
                chart_row(right, 1),
            ) + chart_line(chart_row(left, 2), chart_row(right, 2)) + chart_line(
                chart_row(left, 3),
                chart_row(right, 3),
            ) + chart_line(chart_row(left, 4), chart_row(right, 4)) + chart_line(
                chart_row(left, 5),
                chart_row(right, 5),
            ) + chart_line(axis, axis) + "\r\n"@
        }),
{
    let known: bool = exists|n: int|
        0 <= n < entries.len() && (#[trigger] entries[n] matches UIEntry::Emitter { spectrum, .. }
            && spectrum is Some);
    let left: Seq<Binary32> = chart_columns(entries, selected);
    let right: Seq<Binary32> = columns(total_spectrum(entries));
    if has_spectra(entries) {
        let n: int = choose|n: int| 0 <= n < entries.len() && has_spectrum(#[trigger] entries[n]);
        assert(entries[n] matches UIEntry::Emitter { spectrum, .. } && spectrum is Some);
    }
    if known {
        let n: int = choose|n: int|
            0 <= n < entries.len() && (#[trigger] entries[n] matches UIEntry::Emitter {
                spectrum,
                ..
            } && spectrum is Some);
        assert(has_spectrum(entries[n]));
    }
    assert(known == has_spectra(entries));
    if known {
        reveal_strlit("780nm");
        reveal_strlit("380nm");
        let axis: Seq<char> = "380nm"@ + repeated(' ', 22) + "780nm"@;
        assert(axis_text() =~= axis);
        lemma_chart_rows(left, right);
        let first: Seq<char> = chart_line(chart_title(entries[selected]), "Mix"@);
        let end: Seq<char> = chart_line(axis, axis);
        let rows: Seq<char> = rows_text(left, right, 6);
        let (r0, r1, r2, r3, r4, r5): (
            Seq<char>,
            Seq<char>,
            Seq<char>,
            Seq<char>,
            Seq<char>,
            Seq<char>,
        ) = (
            chart_line(chart_row(left, 0), chart_row(right, 0)),
            chart_line(chart_row(left, 1), chart_row(right, 1)),
            chart_line(chart_row(left, 2), chart_row(right, 2)),
            chart_line(chart_row(left, 3), chart_row(right, 3)),
            chart_line(chart_row(left, 4), chart_row(right, 4)),
            chart_line(chart_row(left, 5), chart_row(right, 5)),
        );
        assert(first + rows =~= first + r0 + r1 + r2 + r3 + r4 + r5);
    }
}

/// A line of two charts: each text in a column of thirty-two characters.
pub open spec fn chart_line(left: Seq<char>, right: Seq<char>) -> Seq<char> {
    " "@ + left_aligned(left, 32) + "    "@ + right + "\r\n"@
}

proof fn lemma_chart_rows(left: Seq<Binary32>, right: Seq<Binary32>)
    ensures
        rows_text(left, right, 6) == chart_line(chart_row(left, 0), chart_row(right, 0))
            + chart_line(chart_row(left, 1), chart_row(right, 1)) + chart_line(
            chart_row(left, 2),
            chart_row(right, 2),
        ) + chart_line(chart_row(left, 3), chart_row(right, 3)) + chart_line(
            chart_row(left, 4),
            chart_row(right, 4),
        ) + chart_line(chart_row(left, 5), chart_row(right, 5)),
{
    reveal_with_fuel(rows_text, 7);
    let r0: Seq<char> = chart_line(chart_row(left, 0), chart_row(right, 0));
    assert(Seq::<char>::empty() + r0 =~= r0);
}

/// The title of the left chart names the fader; of an emitter it tells the peak, to the
/// nearest nanometre, and its color.
pub proof fn law_chart_titles(entry: UIEntry)
    ensures
        match entry {
            UIEntry::Source { label, .. } => chart_title(entry) == label@ + " (source mix)"@,
            UIEntry::Emitter { label, peak_nm, color_name, .. } => chart_title(entry) == label@
                + " ("@ + whole(peak_nm) + "nm "@ + color_name@ + ")"@,
        },
{
}

/// The line of a fader: the mark of the selected one, the label, indented for an emitter,
/// a bar of twenty blocks, and the flux in hundredths.
pub proof fn law_fader_lines(entry: UIEntry, selected: bool)
    ensures
        ({
            let mark: Seq<char> = if selected {
                " >"@
            } else {
                "  "@
            };
            match entry {
                UIEntry::Source { label, flux, .. } => entry_text(entry, selected) == mark + (" "@
                    + left_aligned(label@, 9)) + " "@ + bar_text(flux) + "  "@ + two_places(flux)
                    + "\r\n"@,
                UIEntry::Emitter { label, flux, .. } => entry_text(entry, selected) == mark + (
                "   "@ + left_aligned(label@, 7)) + " "@ + bar_text(flux) + "  "@ + two_places(
                    flux,
                ) + "\r\n"@,
            }
        }),
{
}

/// A bar has twenty blocks, the filled ones before the empty ones.
pub proof fn law_bars(flux: Binary32)
    requires
        filled_blocks(flux) <= 20,
    ensures
        bar_text(flux).len() == 20,
        forall|i: int|
            0 <= i < filled_blocks(flux) ==> #[trigger] bar_text(flux)[i] == '\u{2588}',
        forall|i: int|
            filled_blocks(flux) <= i < 20 ==> #[trigger] bar_text(flux)[i] == '\u{2591}',
{
}

/// The lines of faders follow each other in the order of the faders, one for each.
pub proof fn law_fader_lines_follow(
    entries: Seq<UIEntry>,
    selected: int,
    lo: int,
    middle: int,
    hi: int,
)
    requires
        lo <= middle <= hi,
    ensures
        entries_text(entries, selected, lo, hi) == entries_text(entries, selected, lo, middle)
            + entries_text(entries, selected, middle, hi),
        entries_text(entries, selected, lo, lo).len() == 0,
        entries_text(entries, selected, lo, lo + 1) == entry_text(entries[lo], lo == selected),
    decreases hi - middle,
{
    reveal_with_fuel(entries_text, 2);
    let none: Seq<char> = Seq::empty();
    assert(none + entry_text(entries[lo], lo == selected) =~= entry_text(
        entries[lo],
        lo == selected,
    ));
    let a: Seq<char> = entries_text(entries, selected, lo, middle);
    if middle == hi {
        assert(a + none =~= a);
    } else {
        law_fader_lines_follow(entries, selected, lo, middle, hi - 1);
        let b: Seq<char> = entries_text(entries, selected, middle, hi - 1);
        let c: Seq<char> = entry_text(entries[hi - 1], hi - 1 == selected);
        assert((a + b) + c =~= a + (b + c));
    }
}

/// The list shows sixteen faders from the first that is shown on, or as many as there are,
/// and tells how many are above and below them.
pub proof fn law_list(entries: Seq<UIEntry>, selected: int, scroll: int)
    requires
        0 <= scroll <= entries.len(),
    ensures
        ({
            let len: int = entries.len() as int;
            let end: int = if scroll + 16 < len {
                scroll + 16
            } else {
                len
            };
            let above: Seq<char> = if scroll > 0 {
                "   \u{2191} "@ + decimal(scroll as nat) + " more\r\n"@
            } else {
                Seq::empty()
            };
            let below: Seq<char> = if end < len {
                "   \u{2193} "@ + decimal((len - end) as nat) + " more\r\n"@
            } else {
                Seq::empty()
            };
            list_text(entries, selected, scroll) == above + entries_text(
                entries,
                selected,
                scroll,
                end,
            ) + below + "\r\n"@
        }),
{
}

/// The screen: the title, the list of faders, the charts, an error if there is one, and
/// the keys.
pub proof fn law_screen(entries: Seq<UIEntry>, selected: int, scroll: int, error: Option<String>)
    ensures
        ({
            let keys: Seq<char> =
                " \u{2191}\u{2193}/jk select  \u{2190}\u{2192}/hl adjust  0 off  1 full  q quit\r\n"@;
            let before: Seq<char> = " Enody Mixer\r\n "@ + repeated('\u{2500}', 68)
                + "\r\n\r\n"@ + list_text(entries, selected, scroll) + charts_text(
                entries,
                selected,
            );
            match error {
                Some(message) => screen_text(entries, selected, scroll, error) == before + (
                " Error: "@ + message@ + "\r\n\r\n"@) + keys,
                None => screen_text(entries, selected, scroll, error) == before + keys,
            }
        }),
{
    let before: Seq<char> = " Enody Mixer\r\n "@ + repeated('\u{2500}', 68) + "\r\n\r\n"@
        + list_text(entries, selected, scroll) + charts_text(entries, selected);
    assert(before + Seq::<char>::empty() =~= before);
}

} // verus!
