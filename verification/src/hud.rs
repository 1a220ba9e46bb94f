//! The status panel that the CPU frontend draws in the top-left corner: the
//! preset, the integrator, the speed, whether the simulation runs, the step
//! count and the energy, written with the bitmap font.

use vstd::prelude::*;
use vstd::utf8::encode_utf8;
use vstd::string::StringExecFns;
use crate::integrator::IntegratorKind;
use crate::preset::Preset;
use crate::raster::{
    draw_rect, draw_text, frame_ok, glyph_bit, glyph_cell, glyph_covers, painted, rect_shape, text_shape,
};

verus! {

/// Background of the panel.
pub const PANEL_BG: u32 = 0xE4DCC6;

/// Colour of the panel's text.
pub const TEXT_COLOR: u32 = 0x33291F;

/// Pixels per font cell.
pub const HUD_SCALE: i64 = 2;

/// Vertical distance between two lines of the panel.
pub const LINE_HEIGHT: i64 = 14;

/// Distance of the panel from the corner of the frame.
pub const MARGIN: i64 = 6;

/// The preset's name as the panel writes it: capitals and ASCII only, which
/// the bitmap font can draw (unlike `Preset::label`).
pub open spec fn hud_preset_label_spec(preset: Preset) -> Seq<char> {
    match preset {
        Preset::SolarSystem => "SOLAR SYSTEM"@,
        Preset::Binary => "BINARY + PLANET"@,
        Preset::FigureEight => "FIGURE EIGHT"@,
        Preset::RandomCluster => "RANDOM CLUSTER"@,
    }
}

pub fn hud_preset_label(preset: Preset) -> (s: &'static str)
    ensures
        s@ == hud_preset_label_spec(preset),
{
    match preset {
        Preset::SolarSystem => "SOLAR SYSTEM",
        Preset::Binary => "BINARY + PLANET",
        Preset::FigureEight => "FIGURE EIGHT",
        Preset::RandomCluster => "RANDOM CLUSTER",
    }
}

/// The integrator's name as the panel writes it (capitals, ASCII only).
pub open spec fn hud_integrator_label_spec(kind: IntegratorKind) -> Seq<char> {
    match kind {
        IntegratorKind::Euler => "EULER"@,
        IntegratorKind::Verlet => "VERLET"@,
        IntegratorKind::Leapfrog => "LEAPFROG"@,
    }
}

pub fn hud_integrator_label(kind: IntegratorKind) -> (s: &'static str)
    ensures
        s@ == hud_integrator_label_spec(kind),
{
    match kind {
        IntegratorKind::Euler => "EULER",
        IntegratorKind::Verlet => "VERLET",
        IntegratorKind::Leapfrog => "LEAPFROG",
    }
}

/// The character of the decimal digit `d`.
pub open spec fn digit(d: int) -> char {
    (d + 48) as char
}

/// The decimal writing of `n`, without leading zeros.
pub open spec fn decimal(n: nat) -> Seq<char>
    decreases n,
{
    if n < 10 {
        seq![digit(n as int)]
    } else {
        decimal(n / 10).push(digit((n % 10) as int))
    }
}

/// The number that a string of decimal digits stands for.
pub open spec fn digits_value(s: Seq<char>) -> int
    decreases s.len(),
{
    if s.len() == 0 {
        0
    } else {
        digits_value(s.drop_last()) * 10 + (s.last() as int - '0' as int)
    }
}

/// The decimal writing of `n` is made of digits, reads back as `n`, and has
/// no leading zero (it is `0` itself only for zero).
pub proof fn lemma_decimal_reads_back(n: nat)
    ensures
        decimal(n).len() >= 1,
        forall|i: int| 0 <= i < decimal(n).len() ==> '0' <= #[trigger] decimal(n)[i] <= '9',
        digits_value(decimal(n)) == n,
        decimal(n)[0] == '0' ==> n == 0,
    decreases n,
{
    assert(('0' as int) == 48);
    assert(digit((n % 10) as int) as int == (n % 10) + 48);
    if n < 10 {
        assert(decimal(n).drop_last() =~= Seq::<char>::empty());
        assert(digits_value(Seq::<char>::empty()) == 0);
        assert(digits_value(decimal(n)) == digits_value(decimal(n).drop_last()) * 10 + (decimal(n).last() as int
            - '0' as int));
    }
    if n >= 10 {
        let q = n / 10;
        let r = n % 10;
        lemma_decimal_reads_back(q);
        let d = decimal(n);
        assert(d == decimal(q).push(digit(r as int)));
        assert(d.drop_last() =~= decimal(q));
        assert(d.last() == digit(r as int));
        assert(digits_value(d) == digits_value(d.drop_last()) * 10 + (d.last() as int - '0' as int));
        assert(d[0] == decimal(q)[0]);
        assert(q >= 1);
        assert(forall|i: int| 0 <= i < decimal(q).len() ==> d[i] == decimal(q)[i]);
        assert(n == q * 10 + r) by (nonlinear_arith)
            requires
                q == n / 10,
                r == n % 10,
        ;
    }
}

/// The one-character string of a decimal digit.
fn digit_str(d: u64) -> (s: &'static str)
    requires
        d < 10,
    ensures
        s@ == seq![digit(d as int)],
{
    match d {
        0 => {
            proof {
                reveal_strlit("0");
            }
            "0"
        },
        1 => {
            proof {
                reveal_strlit("1");
            }
            "1"
        },
        2 => {
            proof {
                reveal_strlit("2");
            }
            "2"
        },
        3 => {
            proof {
                reveal_strlit("3");
            }
            "3"
        },
        4 => {
            proof {
                reveal_strlit("4");
            }
            "4"
        },
        5 => {
            proof {
                reveal_strlit("5");
            }
            "5"
        },
        6 => {
            proof {
                reveal_strlit("6");
            }
            "6"
        },
        7 => {
            proof {
                reveal_strlit("7");
            }
            "7"
        },
        8 => {
            proof {
                reveal_strlit("8");
            }
            "8"
        },
        _ => {
            proof {
                reveal_strlit("9");
            }
            "9"
        },
    }
}

/// Appends the decimal writing of `n` to `s`.
pub fn push_decimal(s: &mut String, n: u64)
    ensures
        final(s)@ == old(s)@ + decimal(n as nat),
    decreases n,
{
    if n >= 10 {
        push_decimal(s, n / 10);
    }
    s.append(digit_str(n % 10));
    proof {
        if n >= 10 {
            assert(decimal(n as nat) == decimal((n / 10) as nat).push(digit((n % 10) as int)));
        }
    }
    assert(s@ =~= old(s)@ + decimal(n as nat));
}

/// The four lines of the status panel: the preset; the integrator and the
/// speed; whether the simulation runs and the step count; the energy, as
/// already written in `energy`.
pub open spec fn hud_text(
    preset: Preset,
    integrator: IntegratorKind,
    speed: nat,
    paused: bool,
    step_count: nat,
    energy: Seq<char>,
) -> Seq<Seq<char>> {
    seq![
        "PRESET: "@ + hud_preset_label_spec(preset),
        "INTEGRATOR: "@ + hud_integrator_label_spec(integrator) + "  SPEED: "@ + decimal(speed) + "X"@,
        (if paused { "PAUSED"@ } else { "RUNNING"@ }) + "  STEP: "@ + decimal(step_count),
        "ENERGY: "@ + energy,
    ]
}

/// The text of each line.
pub open spec fn line_texts(lines: Seq<String>) -> Seq<Seq<char>> {
    lines.map_values(|l: String| l@)
}

/// Writes the four lines of the status panel.
pub fn hud_lines(
    preset: Preset,
    integrator: IntegratorKind,
    speed: usize,
    paused: bool,
    step_count: u64,
    energy: &str,
) -> (lines: Vec<String>)
    ensures
        line_texts(lines@) == hud_text(preset, integrator, speed as nat, paused, step_count as nat, energy@),
{
    let mut first = String::new();
    first.append("PRESET: ");
    first.append(hud_preset_label(preset));
    let mut second = String::new();
    second.append("INTEGRATOR: ");
    second.append(hud_integrator_label(integrator));
    second.append("  SPEED: ");
    push_decimal(&mut second, speed as u64);
    second.append("X");
    let mut third = String::new();
    third.append(if paused { "PAUSED" } else { "RUNNING" });
    third.append("  STEP: ");
    push_decimal(&mut third, step_count);
    let mut fourth = String::new();
    fourth.append("ENERGY: ");
    fourth.append(energy);
    let mut lines: Vec<String> = Vec::new();
    lines.push(first);
    lines.push(second);
    lines.push(third);
    lines.push(fourth);
    assert(line_texts(lines@) =~= hud_text(preset, integrator, speed as nat, paused, step_count as nat, energy@));
    lines
}

/// The longest line, in bytes, among the first `k` lines.
pub open spec fn max_bytes(lines: Seq<Seq<char>>, k: int) -> int
    decreases k,
{
    if k <= 0 {
        0
    } else {
        let rest = max_bytes(lines, k - 1);
        let here = encode_utf8(lines[k - 1]).len() as int;
        if here > rest { here } else { rest }
    }
}

/// Width of the panel: four cells per byte of the longest line, plus a
/// border.
pub open spec fn panel_width(lines: Seq<Seq<char>>) -> int {
    max_bytes(lines, lines.len() as int) * 4 * HUD_SCALE + 8
}

/// Height of the panel: one line height per line, plus a border.
pub open spec fn panel_height(lines: Seq<Seq<char>>) -> int {
    lines.len() * LINE_HEIGHT + 8
}

/// The panel's rectangle, at `MARGIN` from the corner of the frame.
pub open spec fn panel_rect(lines: Seq<Seq<char>>) -> spec_fn(int, int) -> bool {
    rect_shape(MARGIN as int, MARGIN as int, panel_width(lines), panel_height(lines))
}

/// `b` with the first `k` lines written on it, line `i` from
/// `(MARGIN + 4, MARGIN + 4 + i * LINE_HEIGHT)`.
pub open spec fn write_lines(b: Seq<u32>, ww: usize, wh: usize, lines: Seq<Seq<char>>, k: int) -> Seq<u32>
    decreases k,
{
    if k <= 0 {
        b
    } else {
        painted(
            write_lines(b, ww, wh, lines, k - 1),
            ww,
            wh,
            text_shape(lines[k - 1], MARGIN + 4, MARGIN + 4 + (k - 1) * LINE_HEIGHT, HUD_SCALE as int),
            TEXT_COLOR,
        )
    }
}

/// `old` with the panel holding `lines` drawn on it.
pub open spec fn panel_drawn(old: Seq<u32>, ww: usize, wh: usize, lines: Seq<Seq<char>>) -> Seq<u32> {
    write_lines(painted(old, ww, wh, panel_rect(lines), PANEL_BG), ww, wh, lines, lines.len() as int)
}

/// The panel's geometry fits an `i64` (and each line's length in bytes
/// is a `usize`, as that of any string is).
pub open spec fn hud_fits(lines: Seq<Seq<char>>) -> bool {
    &&& lines.len() * LINE_HEIGHT + 32 <= i64::MAX
    &&& forall|i: int|
        0 <= i < lines.len() ==> {
            &&& encode_utf8(#[trigger] lines[i]).len() <= usize::MAX
            &&& 8 * (encode_utf8(lines[i]).len() + 1) + 16 <= i64::MAX
        }
}

/// A UTF-8 encoding has at least one byte per character.
proof fn lemma_bytes_at_least_chars(chars: Seq<char>)
    ensures
        encode_utf8(chars).len() >= chars.len(),
    decreases chars.len(),
{
    if chars.len() > 0 {
        lemma_bytes_at_least_chars(chars.drop_first());
    }
}

/// No line is longer, in bytes, than the longest.
proof fn lemma_max_bytes(lines: Seq<Seq<char>>, k: int, i: int)
    requires
        0 <= i < k <= lines.len(),
    ensures
        encode_utf8(lines[i]).len() <= max_bytes(lines, k),
        max_bytes(lines, k) >= 0,
    decreases k,
{
    if i < k - 1 {
        lemma_max_bytes(lines, k - 1, i);
    }
    if k - 1 > 0 {
        lemma_max_bytes(lines, k - 1, 0);
    }
}

/// Each line's text lies inside the panel.
proof fn lemma_line_in_panel(lines: Seq<Seq<char>>, i: int, x: int, y: int)
    requires
        0 <= i < lines.len(),
        text_shape(lines[i], MARGIN + 4, MARGIN + 4 + i * LINE_HEIGHT, HUD_SCALE as int)(x, y),
    ensures
        panel_rect(lines)(x, y),
{
    let t = lines[i];
    let (k, ry, cx) = choose|k: int, ry: int, cx: int|
        0 <= k < t.len() && 0 <= ry < 5 && 0 <= cx < 3 && 15 * k + 3 * ry + cx < 15 * (t.len() as int)
            && #[trigger] glyph_bit(t[k], ry, cx) && #[trigger] glyph_cell(
            MARGIN + 4,
            MARGIN + 4 + i * LINE_HEIGHT,
            HUD_SCALE as int,
            k,
            ry,
            cx,
        )(x, y);
    lemma_bytes_at_least_chars(t);
    lemma_max_bytes(lines, lines.len() as int, i);
    let m = max_bytes(lines, lines.len() as int);
    assert(k < m);
    assert(i * 14 + 14 <= lines.len() * 14) by (nonlinear_arith)
        requires
            0 <= i < lines.len(),
    ;
}

/// Writing lines that lie inside the panel changes nothing outside it.
proof fn lemma_write_lines_outside(b: Seq<u32>, ww: usize, wh: usize, lines: Seq<Seq<char>>, k: int, p: int)
    requires
        0 <= k <= lines.len(),
        0 <= p < b.len(),
        !(p < ww * wh && panel_rect(lines)(p % (ww as int), p / (ww as int))),
    ensures
        write_lines(b, ww, wh, lines, k)[p] == b[p],
        write_lines(b, ww, wh, lines, k).len() == b.len(),
    decreases k,
{
    if k > 0 {
        lemma_write_lines_outside(b, ww, wh, lines, k - 1, p);
        if p < ww * wh && text_shape(
            lines[k - 1],
            MARGIN + 4,
            MARGIN + 4 + (k - 1) * LINE_HEIGHT,
            HUD_SCALE as int,
        )(p % (ww as int), p / (ww as int)) {
            lemma_line_in_panel(lines, k - 1, p % (ww as int), p / (ww as int));
        }
    }
}

/// Draws a status panel holding `lines`: a rectangle of the panel colour
/// sized to the lines, then each line in the text colour. Pixels outside
/// the panel's rectangle are left as they were.
pub fn draw_panel(buf: &mut [u32], ww: usize, wh: usize, lines: &Vec<String>)
    requires
        frame_ok(old(buf)@.len(), ww, wh),
        hud_fits(line_texts(lines@)),
    ensures
        final(buf)@ == panel_drawn(old(buf)@, ww, wh, line_texts(lines@)),
        forall|p: int|
            0 <= p < old(buf)@.len() && !(p < ww * wh && panel_rect(line_texts(lines@))(
                p % (ww as int),
                p / (ww as int),
            )) ==> #[trigger] final(buf)@[p] == old(buf)@[p],
{
    let ghost texts = line_texts(lines@);
    let ghost start = buf@;
    let n = lines.len();
    let mut widest: usize = 0;
    let mut k: usize = 0;
    while k < n
        invariant
            n == lines@.len(),
            texts == line_texts(lines@),
            k <= n,
            hud_fits(texts),
            widest == max_bytes(texts, k as int),
            8 * (widest + 1) + 16 <= i64::MAX,
        decreases n - k,
    {
        let line = lines[k].as_str();
        let len = line.len();
        assert(line@ == texts[k as int]);
        assert(len == encode_utf8(texts[k as int]).len());
        assert(8 * (encode_utf8(texts[k as int]).len() + 1) + 16 <= i64::MAX);
        if len > widest {
            widest = len;
        }
        k = k + 1;
    }
    let panel_w = widest as i64 * 4 * HUD_SCALE + 8;
    let panel_h = n as i64 * LINE_HEIGHT + 8;
    draw_rect(buf, ww, wh, MARGIN, MARGIN, panel_w, panel_h, PANEL_BG);
    let ghost base = buf@;
    let mut i: usize = 0;
    while i < n
        invariant
            n == lines@.len(),
            texts == line_texts(lines@),
            i <= n,
            hud_fits(texts),
            frame_ok(base.len(), ww, wh),
            buf@.len() == base.len(),
            buf@ == write_lines(base, ww, wh, texts, i as int),
        decreases n - i,
    {
        assert(texts[i as int] == lines@[i as int]@);
        proof {
            lemma_bytes_at_least_chars(texts[i as int]);
        }
        let y = MARGIN + 4 + i as i64 * LINE_HEIGHT;
        draw_text(buf, ww, wh, MARGIN + 4, y, lines[i].as_str(), HUD_SCALE, TEXT_COLOR);
        i = i + 1;
    }
    proof {
        assert forall|p: int|
            0 <= p < start.len() && !(p < ww * wh && panel_rect(texts)(p % (ww as int), p / (ww as int))) implies
            #[trigger] buf@[p] == start[p] by {
            lemma_write_lines_outside(base, ww, wh, texts, n as int, p);
        }
    }
}

/// Draws the status panel of a simulation: the preset, the integrator and
/// the speed (steps per frame), whether it runs and how many steps it has
/// taken, and its energy (given already written). Pixels outside the
/// panel's rectangle are left as they were.
pub fn draw_hud(
    buf: &mut [u32],
    ww: usize,
    wh: usize,
    preset: Preset,
    integrator: IntegratorKind,
    speed: usize,
    paused: bool,
    step_count: u64,
    energy: &str,
)
    requires
        frame_ok(old(buf)@.len(), ww, wh),
        hud_fits(hud_text(preset, integrator, speed as nat, paused, step_count as nat, energy@)),
    ensures
        final(buf)@ == panel_drawn(
            old(buf)@,
            ww,
            wh,
            hud_text(preset, integrator, speed as nat, paused, step_count as nat, energy@),
        ),
        forall|p: int|
            0 <= p < old(buf)@.len() && !(p < ww * wh && panel_rect(
                hud_text(preset, integrator, speed as nat, paused, step_count as nat, energy@),
            )(p % (ww as int), p / (ww as int))) ==> #[trigger] final(buf)@[p] == old(buf)@[p],
{
    let lines = hud_lines(preset, integrator, speed, paused, step_count, energy);
    draw_panel(buf, ww, wh, &lines);
}

/// Every character of `s` is a space or has a glyph in the bitmap font.
pub open spec fn drawable(s: Seq<char>) -> bool {
    forall|i: int| 0 <= i < s.len() ==> #[trigger] s[i] == ' ' || glyph_covers(s[i])
}

/// The panel's labels are ASCII and the bitmap font draws every character
/// of them: none of them renders as a blank.
pub proof fn lemma_hud_labels_drawable(preset: Preset, kind: IntegratorKind)
    ensures
        drawable(hud_preset_label_spec(preset)),
        drawable(hud_integrator_label_spec(kind)),
        vstd::utf8::is_ascii_chars(hud_preset_label_spec(preset)),
        vstd::utf8::is_ascii_chars(hud_integrator_label_spec(kind)),
{
    reveal_strlit("SOLAR SYSTEM");
    reveal_strlit("BINARY + PLANET");
    reveal_strlit("FIGURE EIGHT");
    reveal_strlit("RANDOM CLUSTER");
    reveal_strlit("EULER");
    reveal_strlit("VERLET");
    reveal_strlit("LEAPFROG");
}

/// The panel names different presets and different integrators
/// differently.
pub proof fn lemma_hud_labels_distinct(p1: Preset, p2: Preset, k1: IntegratorKind, k2: IntegratorKind)
    ensures
        p1 != p2 ==> hud_preset_label_spec(p1) != hud_preset_label_spec(p2),
        k1 != k2 ==> hud_integrator_label_spec(k1) != hud_integrator_label_spec(k2),
{
    reveal_strlit("SOLAR SYSTEM");
    reveal_strlit("BINARY + PLANET");
    reveal_strlit("FIGURE EIGHT");
    reveal_strlit("RANDOM CLUSTER");
    reveal_strlit("EULER");
    reveal_strlit("VERLET");
    reveal_strlit("LEAPFROG");
    assert("SOLAR SYSTEM"@[0] != "BINARY + PLANET"@[0]);
    assert("SOLAR SYSTEM"@[0] != "FIGURE EIGHT"@[0]);
    assert("SOLAR SYSTEM"@[0] != "RANDOM CLUSTER"@[0]);
    assert("BINARY + PLANET"@[0] != "FIGURE EIGHT"@[0]);
    assert("BINARY + PLANET"@[0] != "RANDOM CLUSTER"@[0]);
    assert("FIGURE EIGHT"@[0] != "RANDOM CLUSTER"@[0]);
    assert("EULER"@[0] != "VERLET"@[0]);
    assert("EULER"@[0] != "LEAPFROG"@[0]);
    assert("VERLET"@[0] != "LEAPFROG"@[0]);
}

} // verus!
