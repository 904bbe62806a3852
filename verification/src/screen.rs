//! The text of the screen, and how it is to look.
use crate::addr::SocketAddr;
use crate::rate;
use crate::rate::format_rate;
use crate::rounding;
use crate::text;
use crate::text::{decimal_text, push_decimal};
use crate::types::{
    PacketAction, PacketDirection, PacketEvent, ProxySettings, SettingKind,
};
use vstd::prelude::*;
use vstd::string::*;
use vstd::utf8::{encode_utf8, is_ascii_chars, is_ascii_chars_encode_utf8};

verus! {

/// A colour of the text.
#[derive(Clone, Copy, Debug, PartialEq, Eq, Structural)]
pub enum TextColor {
    Green,
    DarkGray,
}

/// How a text is to look.
#[derive(Clone, Copy, Debug, PartialEq, Eq)]
pub struct TextStyle {
    pub color: Option<TextColor>,
    pub bold: bool,
    pub reversed: bool,
}

/// A piece of text in one style.
#[derive(Debug)]
pub struct Span {
    pub text: String,
    pub style: TextStyle,
}

/// What stands above the table: some lines in a frame with a title.
#[derive(Debug)]
pub struct Header {
    pub title: String,
    pub lines: Vec<Vec<Span>>,
}

/// How wide a column is.
#[derive(Clone, Copy, Debug, PartialEq, Eq, Structural)]
pub enum ColumnWidth {
    /// So many characters.
    Exactly(u16),
    /// So many characters, and what is left of the screen.
    AtLeast(u16),
}

/// The table of the packets, in a frame with a title.
#[derive(Debug)]
pub struct Table {
    pub title: String,
    pub names: Vec<String>,
    pub names_style: TextStyle,
    pub widths: Vec<ColumnWidth>,
    pub rows: Vec<Vec<String>>,
}

/// What a span shows.
#[verifier::ext_equal]
pub struct SpanView {
    pub text: Seq<char>,
    pub style: TextStyle,
}

impl View for Span {
    type V = SpanView;

    open spec fn view(&self) -> SpanView {
        SpanView { text: self.text@, style: self.style }
    }
}

/// What a line shows.
pub open spec fn line_view(line: Seq<Span>) -> Seq<SpanView> {
    line.map_values(|span: Span| span@)
}

/// What some lines show.
pub open spec fn lines_view(lines: Seq<Vec<Span>>) -> Seq<Seq<SpanView>> {
    lines.map_values(|line: Vec<Span>| line_view(line@))
}

/// Text without a style of its own.
pub open spec fn plain() -> TextStyle {
    TextStyle { color: None, bold: false, reversed: false }
}

/// Text that stands out.
pub open spec fn title() -> TextStyle {
    TextStyle { color: None, bold: true, reversed: false }
}

pub open spec fn dim() -> TextStyle {
    TextStyle { color: Some(TextColor::DarkGray), bold: false, reversed: false }
}

/// A setting is green where it is switched on, and reversed where it is selected.
pub open spec fn style_of(enabled: bool, selected: bool) -> TextStyle {
    TextStyle {
        color: Some(
            if enabled {
                TextColor::Green
            } else {
                TextColor::DarkGray
            },
        ),
        bold: false,
        reversed: selected,
    }
}

pub fn setting_style(enabled: bool, selected: bool) -> (style: TextStyle)
    ensures
        style == style_of(enabled, selected),
{
    let color = if enabled {
        TextColor::Green
    } else {
        TextColor::DarkGray
    };
    TextStyle { color: Some(color), bold: false, reversed: selected }
}

pub open spec fn on_off_text(enabled: bool) -> Seq<char> {
    if enabled {
        "ON"@
    } else {
        "OFF"@
    }
}

pub fn on_off(enabled: bool) -> (word: &'static str)
    ensures
        word@ == on_off_text(enabled),
{
    if enabled {
        "ON"
    } else {
        "OFF"
    }
}

/// A time as a setting shows it.
pub open spec fn time_text(name: Seq<char>, enabled: bool, ms: u64) -> Seq<char> {
    name + on_off_text(enabled) + " "@ + text::decimal(ms as nat) + "ms"@
}

pub open spec fn loss_text(settings: ProxySettings) -> Seq<char> {
    "Loss [p] "@ + on_off_text(settings.loss_enabled) + " "@ + settings.loss_percent.text() + "%"@
}

pub open spec fn rate_setting_text(settings: ProxySettings) -> Seq<char> {
    "Rate [r] "@ + on_off_text(settings.rate_enabled) + " "@ + rate::rate_text(
        settings.rate_bytes_per_sec,
    )
}

fn time_setting(name: &str, enabled: bool, ms: u64) -> (written: String)
    ensures
        written@ == time_text(name@, enabled, ms),
{
    let mut written = String::new();
    written.append(name);
    written.append(on_off(enabled));
    written.append(" ");
    push_decimal(&mut written, ms as u128);
    written.append("ms");
    assert(written@ =~= time_text(name@, enabled, ms));
    written
}

fn loss_setting(settings: &ProxySettings) -> (written: String)
    ensures
        written@ == loss_text(*settings),
{
    let mut written = String::new();
    written.append("Loss [p] ");
    written.append(on_off(settings.loss_enabled));
    written.append(" ");
    settings.loss_percent.push_text(&mut written);
    written.append("%");
    assert(written@ =~= loss_text(*settings));
    written
}

fn rate_setting(settings: &ProxySettings) -> (written: String)
    ensures
        written@ == rate_setting_text(*settings),
{
    let mut written = String::new();
    written.append("Rate [r] ");
    written.append(on_off(settings.rate_enabled));
    written.append(" ");
    written.append(format_rate(settings.rate_bytes_per_sec).as_str());
    assert(written@ =~= rate_setting_text(*settings));
    written
}

/// The four settings as text, in the order in which they are shown.
pub open spec fn setting_texts(settings: ProxySettings) -> Seq<Seq<char>> {
    seq![
        time_text("Latency [l] "@, settings.latency_enabled, settings.latency_ms),
        time_text("Jitter [j] "@, settings.jitter_enabled, settings.jitter_ms),
        loss_text(settings),
        rate_setting_text(settings),
    ]
}

/// Four texts with separators do not fit into one line of a screen that wide.
/// The frame takes a column on each side.
pub open spec fn overflows(
    a: Seq<char>,
    b: Seq<char>,
    c: Seq<char>,
    d: Seq<char>,
    width: u16,
) -> bool {
    let inner: int = if width < 2 {
        0
    } else {
        width - 2
    };
    inner > 0 && a.len() + b.len() + c.len() + d.len() + 3 * "  |  "@.len() > inner
}

/// The settings do not fit into one line.
pub open spec fn is_split(settings: ProxySettings, width: u16) -> bool {
    let texts = setting_texts(settings);
    overflows(texts[0], texts[1], texts[2], texts[3], width)
}

/// A span of the header.
pub open spec fn shown(text: Seq<char>, style: TextStyle) -> SpanView {
    SpanView { text, style }
}

/// The lines of the settings.
pub open spec fn setting_lines(
    settings: ProxySettings,
    selected: SettingKind,
    width: u16,
) -> Seq<Seq<SpanView>> {
    let texts = setting_texts(settings);
    let sep = shown("  |  "@, dim());
    let latency = shown(
        texts[0],
        style_of(settings.latency_enabled, selected == SettingKind::Latency),
    );
    let jitter = shown(
        texts[1],
        style_of(settings.jitter_enabled, selected == SettingKind::Jitter),
    );
    let loss = shown(texts[2], style_of(settings.loss_enabled, selected == SettingKind::Loss));
    let rate = shown(texts[3], style_of(settings.rate_enabled, selected == SettingKind::Rate));
    if is_split(settings, width) {
        seq![seq![latency, sep, jitter], seq![loss, sep, rate]]
    } else {
        seq![seq![latency, sep, jitter, sep, loss, sep, rate]]
    }
}

/// The first line: the addresses, and how often the screen is drawn.
pub open spec fn address_line(
    in_addr: SocketAddr,
    out_addr: SocketAddr,
    refresh_ms: u128,
) -> Seq<SpanView> {
    seq![
        shown("udptoxy"@, title()),
        shown("  In: "@, plain()),
        shown(in_addr.text(), plain()),
        shown("  Out: "@, plain()),
        shown(out_addr.text(), plain()),
        shown("  Refresh: "@, plain()),
        shown(text::decimal(refresh_ms as nat) + "ms"@, plain()),
    ]
}

/// The last line: the keys.
pub open spec fn help_line() -> Seq<SpanView> {
    seq![
        shown("Select [Tab or Left/Right]  "@, plain()),
        shown("Adjust [+/- or Up/Down]  "@, plain()),
        shown("Quit [q]"@, plain()),
    ]
}

/// The lines above the table.
pub open spec fn header_lines(
    in_addr: SocketAddr,
    out_addr: SocketAddr,
    refresh_ms: u128,
    settings: ProxySettings,
    selected: SettingKind,
    width: u16,
) -> Seq<Seq<SpanView>> {
    seq![address_line(in_addr, out_addr, refresh_ms)] + setting_lines(settings, selected, width)
        + seq![help_line()]
}

fn span_of(text: String, style: TextStyle) -> (span: Span)
    ensures
        span@ == shown(text@, style),
{
    Span { text, style }
}

fn literal(text: &str, style: TextStyle) -> (span: Span)
    ensures
        span@ == shown(text@, style),
{
    let mut owned = String::new();
    owned.append(text);
    assert(owned@ =~= text@);
    Span { text: owned, style }
}

fn plain_style() -> (style: TextStyle)
    ensures
        style == plain(),
{
    TextStyle { color: None, bold: false, reversed: false }
}

fn separator() -> (span: Span)
    ensures
        span@ == shown("  |  "@, dim()),
{
    literal(
        "  |  ",
        TextStyle { color: Some(TextColor::DarkGray), bold: false, reversed: false },
    )
}

fn build_address_line(in_addr: SocketAddr, out_addr: SocketAddr, refresh_ms: u128) -> (line: Vec<
    Span,
>)
    ensures
        line_view(line@) == address_line(in_addr, out_addr, refresh_ms),
{
    let mut refresh = decimal_text(refresh_ms);
    refresh.append("ms");
    let mut line: Vec<Span> = Vec::new();
    line.push(literal("udptoxy", TextStyle { color: None, bold: true, reversed: false }));
    line.push(literal("  In: ", plain_style()));
    line.push(span_of(in_addr.to_text(), plain_style()));
    line.push(literal("  Out: ", plain_style()));
    line.push(span_of(out_addr.to_text(), plain_style()));
    line.push(literal("  Refresh: ", plain_style()));
    line.push(span_of(refresh, plain_style()));
    assert(line_view(line@) =~= address_line(in_addr, out_addr, refresh_ms));
    line
}

fn build_help_line() -> (line: Vec<Span>)
    ensures
        line_view(line@) == help_line(),
{
    let mut line: Vec<Span> = Vec::new();
    line.push(literal("Select [Tab or Left/Right]  ", plain_style()));
    line.push(literal("Adjust [+/- or Up/Down]  ", plain_style()));
    line.push(literal("Quit [q]", plain_style()));
    assert(line_view(line@) =~= help_line());
    line
}

/// Measures four texts with separators. Their characters are counted, which
/// is to count bytes: all of them are ASCII.
fn too_long(a: &str, b: &str, c: &str, d: &str, width: u16) -> (split: bool)
    ensures
        split == overflows(a@, b@, c@, d@, width),
{
    let inner_width: u128 = width.saturating_sub(2) as u128;
    let combined_len: u128 = a.unicode_len() as u128 + b.unicode_len() as u128
        + c.unicode_len() as u128 + d.unicode_len() as u128 + 3 * "  |  ".unicode_len() as u128;
    inner_width > 0 && combined_len > inner_width
}

/// Builds the lines of the settings.
fn build_setting_lines(settings: &ProxySettings, selected: SettingKind, width: u16) -> (lines: Vec<
    Vec<Span>,
>)
    ensures
        lines_view(lines@) == setting_lines(*settings, selected, width),
{
    let latency_text = time_setting("Latency [l] ", settings.latency_enabled, settings.latency_ms);
    let jitter_text = time_setting("Jitter [j] ", settings.jitter_enabled, settings.jitter_ms);
    let loss_text = loss_setting(settings);
    let rate_text = rate_setting(settings);
    let split = too_long(
        latency_text.as_str(),
        jitter_text.as_str(),
        loss_text.as_str(),
        rate_text.as_str(),
        width,
    );
    assert(split == is_split(*settings, width));

    let latency = span_of(
        latency_text,
        setting_style(settings.latency_enabled, selected == SettingKind::Latency),
    );
    let jitter = span_of(
        jitter_text,
        setting_style(settings.jitter_enabled, selected == SettingKind::Jitter),
    );
    let loss = span_of(
        loss_text,
        setting_style(settings.loss_enabled, selected == SettingKind::Loss),
    );
    let rate = span_of(
        rate_text,
        setting_style(settings.rate_enabled, selected == SettingKind::Rate),
    );

    let ghost expected = setting_lines(*settings, selected, width);
    let mut lines: Vec<Vec<Span>> = Vec::new();
    let mut line: Vec<Span> = Vec::new();
    line.push(latency);
    line.push(separator());
    line.push(jitter);
    if split {
        assert(line_view(line@) =~= expected[0]);
        lines.push(line);
        let mut second: Vec<Span> = Vec::new();
        second.push(loss);
        second.push(separator());
        second.push(rate);
        assert(line_view(second@) =~= expected[1]);
        lines.push(second);
    } else {
        line.push(separator());
        line.push(loss);
        line.push(separator());
        line.push(rate);
        assert(line_view(line@) =~= expected[0]);
        lines.push(line);
    }
    assert(lines_view(lines@) =~= expected);
    lines
}

/// Builds what stands above the table.
pub fn build_header(
    in_addr: SocketAddr,
    out_addr: SocketAddr,
    refresh_ms: u128,
    settings: &ProxySettings,
    selected: SettingKind,
    width: u16,
) -> (header: Header)
    ensures
        header.title@ == "Status"@,
        lines_view(header.lines@) == header_lines(
            in_addr,
            out_addr,
            refresh_ms,
            *settings,
            selected,
            width,
        ),
{
    let mut lines: Vec<Vec<Span>> = Vec::new();
    lines.push(build_address_line(in_addr, out_addr, refresh_ms));
    let mut middle = build_setting_lines(settings, selected, width);
    let ghost shown = middle@;
    lines.append(&mut middle);
    lines.push(build_help_line());
    proof {
        assert(lines_view(lines@) =~= seq![line_view(lines@[0]@)] + lines_view(shown) + seq![
            line_view(lines@.last()@),
        ]);
    }
    Header { title: cell("Status"), lines }
}

/// What some cells show.
pub open spec fn cells_view(cells: Seq<String>) -> Seq<Seq<char>> {
    cells.map_values(|cell: String| cell@)
}

/// What some rows show.
pub open spec fn rows_view(rows: Seq<Vec<String>>) -> Seq<Seq<Seq<char>>> {
    rows.map_values(|row: Vec<String>| cells_view(row@))
}

/// The names of the columns.
pub open spec fn column_names() -> Seq<Seq<char>> {
    seq!["#"@, "dir"@, "in(ms)"@, "lat(ms)"@, "out(ms)"@, "action"@, "bytes"@, "src"@]
}

/// The widths of the columns, in the order of their names.
pub open spec fn column_widths() -> Seq<ColumnWidth> {
    seq![
        ColumnWidth::Exactly(6),
        ColumnWidth::Exactly(8),
        ColumnWidth::Exactly(10),
        ColumnWidth::Exactly(8),
        ColumnWidth::Exactly(10),
        ColumnWidth::Exactly(10),
        ColumnWidth::Exactly(8),
        ColumnWidth::AtLeast(15),
    ]
}

/// The row of an event.
pub open spec fn row_of(event: PacketEvent) -> Seq<Seq<char>> {
    seq![
        text::decimal(event.id as nat),
        event.direction.text(),
        text::decimal(event.time_in_ms as nat),
        text::decimal(event.latency_ms as nat),
        match event.time_out_ms {
            Some(ms) => text::decimal(ms as nat),
            None => "-"@,
        },
        event.action.text(),
        text::decimal(event.size as nat),
        event.src.text(),
    ]
}

fn cell(text: &str) -> (owned: String)
    ensures
        owned@ == text@,
{
    let mut owned = String::new();
    owned.append(text);
    assert(owned@ =~= text@);
    owned
}

/// The names of the columns.
pub fn table_header() -> (cells: Vec<String>)
    ensures
        cells_view(cells@) == column_names(),
{
    let mut cells: Vec<String> = Vec::new();
    cells.push(cell("#"));
    cells.push(cell("dir"));
    cells.push(cell("in(ms)"));
    cells.push(cell("lat(ms)"));
    cells.push(cell("out(ms)"));
    cells.push(cell("action"));
    cells.push(cell("bytes"));
    cells.push(cell("src"));
    assert(cells_view(cells@) =~= column_names());
    cells
}

fn build_row(event: &PacketEvent) -> (cells: Vec<String>)
    ensures
        cells_view(cells@) == row_of(*event),
{
    let mut cells: Vec<String> = Vec::new();
    cells.push(decimal_text(event.id as u128));
    cells.push(cell(event.direction.as_str()));
    cells.push(decimal_text(event.time_in_ms));
    cells.push(decimal_text(event.latency_ms as u128));
    cells.push(
        match event.time_out_ms {
            Some(ms) => decimal_text(ms),
            None => cell("-"),
        },
    );
    cells.push(cell(event.action.as_str()));
    cells.push(decimal_text(event.size as u128));
    cells.push(event.src.to_text());
    assert(cells_view(cells@) =~= row_of(*event));
    cells
}

/// The widths of the columns.
pub fn table_widths() -> (widths: Vec<ColumnWidth>)
    ensures
        widths@ == column_widths(),
{
    let mut widths: Vec<ColumnWidth> = Vec::new();
    widths.push(ColumnWidth::Exactly(6));
    widths.push(ColumnWidth::Exactly(8));
    widths.push(ColumnWidth::Exactly(10));
    widths.push(ColumnWidth::Exactly(8));
    widths.push(ColumnWidth::Exactly(10));
    widths.push(ColumnWidth::Exactly(10));
    widths.push(ColumnWidth::Exactly(8));
    widths.push(ColumnWidth::AtLeast(15));
    assert(widths@ =~= column_widths());
    widths
}

/// Builds the table of some events, with a row for each of them.
pub fn build_table(events: &Vec<PacketEvent>) -> (table: Table)
    ensures
        table.title@ == "Packets"@,
        cells_view(table.names@) == column_names(),
        table.names_style == title(),
        table.widths@ == column_widths(),
        rows_view(table.rows@) == events@.map_values(|event: PacketEvent| row_of(event)),
{
    let mut rows: Vec<Vec<String>> = Vec::new();
    let mut i: usize = 0;
    while i < events.len()
        invariant
            i <= events.len(),
            rows@.len() == i,
            forall|j: int| 0 <= j < i ==> cells_view((#[trigger] rows@[j])@) == row_of(events@[j]),
        decreases events.len() - i,
    {
        rows.push(build_row(&events[i]));
        i = i + 1;
    }
    assert(rows_view(rows@) =~= events@.map_values(|event: PacketEvent| row_of(event)));
    Table {
        title: cell("Packets"),
        names: table_header(),
        names_style: TextStyle { color: None, bold: true, reversed: false },
        widths: table_widths(),
        rows,
    }
}

/// A number is written in ASCII.
proof fn lemma_decimal_is_ascii(n: nat)
    ensures
        is_ascii_chars(text::decimal(n)),
{
    text::lemma_decimal(n);
    assert forall|i: int| 0 <= i < text::decimal(n).len() implies '\0' <= #[trigger] text::decimal(
        n,
    )[i] <= '\u{7f}' by {
        assert(text::is_digit(text::decimal(n)[i]));
    }
}

proof fn lemma_one_decimal_is_ascii(tenths: nat)
    ensures
        is_ascii_chars(text::one_decimal(tenths)),
{
    lemma_decimal_is_ascii(tenths / 10);
    reveal_strlit(".");
}

/// The text of the settings is ASCII, so that it is as long in bytes as it is
/// in characters.
pub proof fn law_setting_texts_are_ascii(settings: ProxySettings, i: int)
    requires
        0 <= i < 4,
    ensures
        encode_utf8(setting_texts(settings)[i]).len() == setting_texts(settings)[i].len(),
{
    let s = setting_texts(settings)[i];
    assert(is_ascii_chars(on_off_text(settings.latency_enabled))) by {
        reveal_strlit("ON");
        reveal_strlit("OFF");
    }
    assert(is_ascii_chars(on_off_text(settings.jitter_enabled))) by {
        reveal_strlit("ON");
        reveal_strlit("OFF");
    }
    assert(is_ascii_chars(on_off_text(settings.loss_enabled))) by {
        reveal_strlit("ON");
        reveal_strlit("OFF");
    }
    assert(is_ascii_chars(on_off_text(settings.rate_enabled))) by {
        reveal_strlit("ON");
        reveal_strlit("OFF");
    }
    assert(is_ascii_chars(" "@)) by {
        reveal_strlit(" ");
    }
    if i == 0 {
        lemma_decimal_is_ascii(settings.latency_ms as nat);
        reveal_strlit("Latency [l] ");
        reveal_strlit("ms");
        assert(is_ascii_chars(s));
    } else if i == 1 {
        lemma_decimal_is_ascii(settings.jitter_ms as nat);
        reveal_strlit("Jitter [j] ");
        reveal_strlit("ms");
        assert(is_ascii_chars(s));
    } else if i == 2 {
        let loss = settings.loss_percent;
        lemma_one_decimal_is_ascii(
            rounding::round_half_even(loss.units() * 10, rounding::one()),
        );
        assert(is_ascii_chars(loss.text())) by {
            reveal_strlit("NaN");
            reveal_strlit("-");
        }
        reveal_strlit("Loss [p] ");
        reveal_strlit("%");
        assert(is_ascii_chars(s));
    } else {
        let n = settings.rate_bytes_per_sec;
        lemma_decimal_is_ascii(n as nat);
        lemma_decimal_is_ascii(rate::written_number(n, 1_000, 1));
        lemma_one_decimal_is_ascii(rate::written_number(n, 1_000_000, 10));
        lemma_one_decimal_is_ascii(rate::written_number(n, 1_000_000_000, 10));
        assert(is_ascii_chars(rate::rate_text(n))) by {
            reveal_strlit("GB/s");
            reveal_strlit("MB/s");
            reveal_strlit("KB/s");
            reveal_strlit("B/s");
        }
        reveal_strlit("Rate [r] ");
        assert(is_ascii_chars(s));
    }
    is_ascii_chars_encode_utf8(s);
}

/// What a line shows, span by span.
proof fn lemma_line(line: Seq<Span>, expected: Seq<SpanView>)
    requires
        line_view(line) == expected,
    ensures
        line.len() == expected.len(),
        forall|k: int|
            0 <= k < line.len() ==> (#[trigger] line[k]).text@ == expected[k].text && line[k].style
                == expected[k].style,
{
    assert(line_view(line).len() == line.len());
    assert forall|k: int| 0 <= k < line.len() implies (#[trigger] line[k]).text@ == expected[k].text
        && line[k].style == expected[k].style by {
        assert(line_view(line)[k] == line[k]@);
    }
}

/// What cells show, one by one.
proof fn lemma_cells(cells: Seq<String>, expected: Seq<Seq<char>>)
    requires
        cells_view(cells) == expected,
    ensures
        cells.len() == expected.len(),
        forall|k: int| 0 <= k < cells.len() ==> (#[trigger] cells[k])@ == expected[k],
{
    assert(cells_view(cells).len() == cells.len());
    assert forall|k: int| 0 <= k < cells.len() implies (#[trigger] cells[k])@ == expected[k] by {
        assert(cells_view(cells)[k] == cells[k]@);
    }
}

/// What is switched on is green, what is not is gray, and what is selected is
/// reversed.
pub proof fn law_settings_have_their_look(enabled: bool, selected: bool, style: TextStyle, word: &'static str)
    requires
        call_ensures(setting_style, (enabled, selected), style),
        call_ensures(on_off, (enabled,), word),
    ensures
        enabled ==> style.color == Some(TextColor::Green) && word@ == "ON"@,
        !enabled ==> style.color == Some(TextColor::DarkGray) && word@ == "OFF"@,
        style.reversed == selected,
        !style.bold,
        style_of(enabled, selected) == style,
        on_off_text(enabled) == word@,
{
}

/// The first line of the header names the program, the two addresses and the
/// time between two drawings; the last line names the keys. The frame is
/// titled.
pub proof fn law_the_header_names_addresses_and_keys(
    in_addr: SocketAddr,
    out_addr: SocketAddr,
    refresh_ms: u128,
    settings: ProxySettings,
    selected: SettingKind,
    width: u16,
    header: Header,
)
    requires
        call_ensures(
            build_header,
            (in_addr, out_addr, refresh_ms, &settings, selected, width),
            header,
        ),
    ensures
        header.title@ == "Status"@,
        header.lines@.len() == 3 || header.lines@.len() == 4,
        ({
            let first = header.lines@[0]@;
            &&& first.len() == 7
            &&& first[0].text@ == "udptoxy"@
            &&& first[1].text@ == "  In: "@
            &&& first[2].text@ == in_addr.text()
            &&& first[3].text@ == "  Out: "@
            &&& first[4].text@ == out_addr.text()
            &&& first[5].text@ == "  Refresh: "@
            &&& first[6].text@ == text::decimal(refresh_ms as nat) + "ms"@
            &&& first[0].style == (TextStyle { color: None, bold: true, reversed: false })
            &&& forall|k: int|
                1 <= k < 7 ==> (#[trigger] first[k]).style == (TextStyle {
                    color: None,
                    bold: false,
                    reversed: false,
                })
        }),
        ({
            let last = header.lines@.last()@;
            &&& last.len() == 3
            &&& last[0].text@ == "Select [Tab or Left/Right]  "@
            &&& last[1].text@ == "Adjust [+/- or Up/Down]  "@
            &&& last[2].text@ == "Quit [q]"@
            &&& forall|k: int|
                0 <= k < 3 ==> (#[trigger] last[k]).style == (TextStyle {
                    color: None,
                    bold: false,
                    reversed: false,
                })
        }),
{
    let lines = header.lines@;
    let shown = header_lines(in_addr, out_addr, refresh_ms, settings, selected, width);
    assert(lines_view(lines) == shown);
    assert(lines_view(lines).len() == lines.len());
    assert(lines_view(lines)[0] == line_view(lines[0]@));
    assert(lines_view(lines)[lines.len() - 1] == line_view(lines.last()@));
    assert(shown[0] == address_line(in_addr, out_addr, refresh_ms));
    assert(shown.last() == help_line());
    lemma_line(lines[0]@, address_line(in_addr, out_addr, refresh_ms));
    lemma_line(lines.last()@, help_line());
}

/// Between them stand the four settings, each with its name and key, whether it
/// is on, and its value; a separator stands between two. They stand in one line
/// where they fit, and in two where they do not.
pub proof fn law_the_header_shows_the_settings(
    in_addr: SocketAddr,
    out_addr: SocketAddr,
    refresh_ms: u128,
    settings: ProxySettings,
    selected: SettingKind,
    width: u16,
    header: Header,
)
    requires
        call_ensures(
            build_header,
            (in_addr, out_addr, refresh_ms, &settings, selected, width),
            header,
        ),
    ensures
        ({
            let on = |enabled: bool|
                if enabled {
                    "ON "@
                } else {
                    "OFF "@
                };
            let look = |enabled: bool, kind: SettingKind|
                TextStyle {
                    color: Some(
                        if enabled {
                            TextColor::Green
                        } else {
                            TextColor::DarkGray
                        },
                    ),
                    bold: false,
                    reversed: selected == kind,
                };
            let latency = "Latency [l] "@ + on(settings.latency_enabled) + text::decimal(
                settings.latency_ms as nat,
            ) + "ms"@;
            let jitter = "Jitter [j] "@ + on(settings.jitter_enabled) + text::decimal(
                settings.jitter_ms as nat,
            ) + "ms"@;
            let loss = "Loss [p] "@ + on(settings.loss_enabled) + settings.loss_percent.text()
                + "%"@;
            let rate = "Rate [r] "@ + on(settings.rate_enabled) + rate::rate_text(
                settings.rate_bytes_per_sec,
            );
            let total = latency.len() + jitter.len() + loss.len() + rate.len() + 15;
            let one_line = width <= 2 || total <= width - 2;
            let lines = header.lines@;
            let (a, b, shift) = if one_line {
                (lines[1]@, lines[1]@, 4int)
            } else {
                (lines[1]@, lines[2]@, 0int)
            };
            &&& lines.len() == if one_line {
                3int
            } else {
                4
            }
            &&& a.len() == if one_line {
                7int
            } else {
                3
            }
            &&& b.len() == shift + 3
            &&& a[0].text@ == latency && a[0].style == look(
                settings.latency_enabled,
                SettingKind::Latency,
            )
            &&& a[2].text@ == jitter && a[2].style == look(
                settings.jitter_enabled,
                SettingKind::Jitter,
            )
            &&& b[shift].text@ == loss && b[shift].style == look(
                settings.loss_enabled,
                SettingKind::Loss,
            )
            &&& b[shift + 2].text@ == rate && b[shift + 2].style == look(
                settings.rate_enabled,
                SettingKind::Rate,
            )
            &&& a[1].text@ == "  |  "@ && b[shift + 1].text@ == "  |  "@
            &&& one_line ==> a[3].text@ == "  |  "@
            &&& a[1].style == (TextStyle {
                color: Some(TextColor::DarkGray),
                bold: false,
                reversed: false,
            })
            &&& b[shift + 1].style == a[1].style
            &&& one_line ==> a[3].style == a[1].style
        }),
{
    let lines = header.lines@;
    let shown = header_lines(in_addr, out_addr, refresh_ms, settings, selected, width);
    let middle = setting_lines(settings, selected, width);
    let texts = setting_texts(settings);
    reveal_strlit("  |  ");
    reveal_strlit("ON");
    reveal_strlit("OFF");
    reveal_strlit(" ");
    reveal_strlit("ON ");
    reveal_strlit("OFF ");
    assert("ON"@ + " "@ =~= "ON "@);
    assert("OFF"@ + " "@ =~= "OFF "@);
    let on = |enabled: bool|
        if enabled {
            "ON "@
        } else {
            "OFF "@
        };
    assert(texts[0] =~= "Latency [l] "@ + on(settings.latency_enabled) + text::decimal(
        settings.latency_ms as nat,
    ) + "ms"@);
    assert(texts[1] =~= "Jitter [j] "@ + on(settings.jitter_enabled) + text::decimal(
        settings.jitter_ms as nat,
    ) + "ms"@);
    assert(texts[2] =~= "Loss [p] "@ + on(settings.loss_enabled) + settings.loss_percent.text()
        + "%"@);
    assert(texts[3] =~= "Rate [r] "@ + on(settings.rate_enabled) + rate::rate_text(
        settings.rate_bytes_per_sec,
    ));
    assert(lines_view(lines) == shown);
    assert(lines_view(lines).len() == lines.len());
    assert(lines_view(lines)[1] == line_view(lines[1]@));
    assert(shown[1] == middle[0]);
    lemma_line(lines[1]@, middle[0]);
    if is_split(settings, width) {
        assert(lines_view(lines)[2] == line_view(lines[2]@));
        assert(shown[2] == middle[1]);
        lemma_line(lines[2]@, middle[1]);
    }
}

/// The columns of the table have these names and widths.
pub proof fn law_columns_have_names_and_widths(names: Vec<String>, widths: Vec<ColumnWidth>)
    requires
        call_ensures(table_header, (), names),
        call_ensures(table_widths, (), widths),
    ensures
        names@.len() == 8,
        names@[0]@ == "#"@ && names@[1]@ == "dir"@ && names@[2]@ == "in(ms)"@,
        names@[3]@ == "lat(ms)"@ && names@[4]@ == "out(ms)"@ && names@[5]@ == "action"@,
        names@[6]@ == "bytes"@ && names@[7]@ == "src"@,
        widths@.len() == 8,
        widths@[0] == ColumnWidth::Exactly(6) && widths@[1] == ColumnWidth::Exactly(8),
        widths@[2] == ColumnWidth::Exactly(10) && widths@[3] == ColumnWidth::Exactly(8),
        widths@[4] == ColumnWidth::Exactly(10) && widths@[5] == ColumnWidth::Exactly(10),
        widths@[6] == ColumnWidth::Exactly(8) && widths@[7] == ColumnWidth::AtLeast(15),
        column_names() == cells_view(names@),
        column_widths() == widths@,
{
    lemma_cells(names@, column_names());
}

/// The table has a row for each event, in their order: its number, its way,
/// when it came in, how long it took, when it left or a dash, what became of
/// it, its bytes, and its sender.
pub proof fn law_the_table_shows_the_events(events: Vec<PacketEvent>, table: Table, i: int)
    requires
        call_ensures(build_table, (&events,), table),
    ensures
        table.title@ == "Packets"@,
        table.names_style == (TextStyle { color: None, bold: true, reversed: false }),
        cells_view(table.names@) == column_names(),
        table.widths@ == column_widths(),
        table.rows@.len() == events@.len(),
        0 <= i < events@.len() ==> ({
            let row = table.rows@[i]@;
            let event = events@[i];
            &&& row.len() == 8
            &&& row[0]@ == text::decimal(event.id as nat)
            &&& row[1]@ == match event.direction {
                PacketDirection::InToOut => "in->out"@,
                PacketDirection::OutToIn => "out->in"@,
            }
            &&& row[2]@ == text::decimal(event.time_in_ms as nat)
            &&& row[3]@ == text::decimal(event.latency_ms as nat)
            &&& event.time_out_ms is None ==> row[4]@ == "-"@
            &&& event.time_out_ms matches Some(ms) ==> row[4]@ == text::decimal(ms as nat)
            &&& row[5]@ == match event.action {
                PacketAction::Forwarded => "forward"@,
                PacketAction::Dropped => "drop"@,
                PacketAction::Error => "error"@,
            }
            &&& row[6]@ == text::decimal(event.size as nat)
            &&& row[7]@ == event.src.text()
        }),
{
    let rows = table.rows@;
    assert(rows_view(rows) == events@.map_values(|event: PacketEvent| row_of(event)));
    assert(rows_view(rows).len() == rows.len());
    if 0 <= i < events@.len() {
        assert(rows_view(rows)[i] == cells_view(rows[i]@));
        assert(rows_view(rows)[i] == row_of(events@[i]));
        lemma_cells(rows[i]@, row_of(events@[i]));
    }
}

} // verus!
