use gravity::hud::{
    draw_hud, draw_panel, hud_integrator_label, hud_lines, hud_preset_label, push_decimal, PANEL_BG, TEXT_COLOR,
};
use gravity::integrator::IntegratorKind;
use gravity::preset::Preset;
use gravity::raster::{draw_disc, draw_line, draw_rect, draw_text, glyph, put_pixel};
use gravity::scene::{draw_trails, fill, trail_slot, BACKGROUND, TRAIL_LEN};

fn painted_points(buf: &[u32], ww: usize, color: u32) -> Vec<(usize, usize)> {
    let mut pts = Vec::new();
    for (k, &p) in buf.iter().enumerate() {
        if p == color {
            pts.push((k % ww, k / ww));
        }
    }
    pts
}

#[test]
fn glyph_is_defined_for_every_character_the_hud_actually_prints() {
    let sample = format!(
        "PRESET: {} INTEGRATOR: {} SPEED: 12X RUNNING PAUSED STEP: 999999 ENERGY: -3.821",
        hud_preset_label(Preset::Binary),
        hud_integrator_label(IntegratorKind::Leapfrog),
    );
    for ch in sample.chars() {
        if ch == ' ' {
            continue;
        }
        assert_ne!(
            glyph(ch),
            [0, 0, 0, 0, 0],
            "caractère '{ch}' rendu en blanc (non couvert par glyph())"
        );
    }
}

#[test]
fn draw_text_stays_within_bounds_and_does_not_panic() {
    let ww = 20usize;
    let wh = 20usize;
    let mut buf = vec![0u32; ww * wh];
    draw_text(&mut buf, ww, wh, 0, 0, "HUD TEST 123", 2, 0xFF0000);
    draw_text(&mut buf, ww, wh, -50, -50, "OFFSCREEN", 3, 0x00FF00);
    assert!(buf.contains(&0xFF0000));
}

#[test]
fn hud_labels_are_ascii_so_they_render_with_the_bitmap_font() {
    for preset in Preset::ALL {
        assert!(hud_preset_label(preset).is_ascii());
    }
    for kind in IntegratorKind::ALL {
        assert!(hud_integrator_label(kind).is_ascii());
    }
}

#[test]
fn every_hud_label_character_has_a_glyph() {
    for preset in Preset::ALL {
        for ch in hud_preset_label(preset).chars() {
            assert!(ch == ' ' || glyph(ch) != [0, 0, 0, 0, 0], "{ch}");
        }
    }
    for kind in IntegratorKind::ALL {
        for ch in hud_integrator_label(kind).chars() {
            assert!(glyph(ch) != [0, 0, 0, 0, 0], "{ch}");
        }
    }
}

#[test]
fn hud_labels_values() {
    assert_eq!(hud_preset_label(Preset::SolarSystem), "SOLAR SYSTEM");
    assert_eq!(hud_preset_label(Preset::Binary), "BINARY + PLANET");
    assert_eq!(hud_preset_label(Preset::FigureEight), "FIGURE EIGHT");
    assert_eq!(hud_preset_label(Preset::RandomCluster), "RANDOM CLUSTER");
    assert_eq!(hud_integrator_label(IntegratorKind::Euler), "EULER");
    assert_eq!(hud_integrator_label(IntegratorKind::Verlet), "VERLET");
    assert_eq!(hud_integrator_label(IntegratorKind::Leapfrog), "LEAPFROG");
}

#[test]
fn glyph_rows_and_case() {
    assert_eq!(glyph('A'), [0b010, 0b101, 0b111, 0b101, 0b101]);
    assert_eq!(glyph('a'), glyph('A'));
    assert_eq!(glyph('z'), glyph('Z'));
    assert_eq!(glyph('7'), [0b111, 0b001, 0b001, 0b001, 0b001]);
    assert_eq!(glyph('%'), [0b101, 0b001, 0b010, 0b100, 0b101]);
    assert_eq!(glyph('é'), [0, 0, 0, 0, 0]);
    assert_eq!(glyph(' '), [0, 0, 0, 0, 0]);
    assert_eq!(glyph('('), [0, 0, 0, 0, 0]);
    for c in ('A'..='Z').chain('0'..='9') {
        assert!(glyph(c).iter().all(|r| *r < 8));
        assert_ne!(glyph(c), [0, 0, 0, 0, 0]);
    }
}

#[test]
fn put_pixel_sets_only_in_frame_pixels() {
    let mut buf = vec![0u32; 4 * 3 + 2];
    put_pixel(&mut buf, 4, 3, 1, 2, 7);
    assert_eq!(buf[2 * 4 + 1], 7);
    put_pixel(&mut buf, 4, 3, 4, 0, 9);
    put_pixel(&mut buf, 4, 3, -1, 0, 9);
    put_pixel(&mut buf, 4, 3, 0, 3, 9);
    assert!(!buf.contains(&9));
    assert_eq!(buf.iter().filter(|&&p| p != 0).count(), 1);
}

#[test]
fn draw_rect_fills_exactly_the_clipped_rectangle() {
    let mut buf = vec![0u32; 5 * 4];
    draw_rect(&mut buf, 5, 4, 3, 2, 4, 5, 1);
    assert_eq!(painted_points(&buf, 5, 1), vec![(3, 2), (4, 2), (3, 3), (4, 3)]);
    let mut empty = vec![0u32; 5 * 4];
    draw_rect(&mut empty, 5, 4, 1, 1, 0, 3, 1);
    draw_rect(&mut empty, 5, 4, 1, 1, 3, -2, 1);
    assert!(empty.iter().all(|p| *p == 0));
}

#[test]
fn draw_disc_of_radius_one_is_a_plus() {
    let mut buf = vec![0u32; 5 * 5];
    draw_disc(&mut buf, 5, 5, 2, 2, 1, 3);
    assert_eq!(painted_points(&buf, 5, 3), vec![(2, 1), (1, 2), (2, 2), (3, 2), (2, 3)]);
    let mut none = vec![0u32; 5 * 5];
    draw_disc(&mut none, 5, 5, 2, 2, -1, 3);
    assert!(none.iter().all(|p| *p == 0));
    let mut dot = vec![0u32; 5 * 5];
    draw_disc(&mut dot, 5, 5, 0, 0, 0, 3);
    assert_eq!(painted_points(&dot, 5, 3), vec![(0, 0)]);
}

#[test]
fn draw_line_follows_bresenham() {
    let mut buf = vec![0u32; 4 * 2];
    draw_line(&mut buf, 4, 2, 0, 0, 3, 1, 5);
    assert_eq!(painted_points(&buf, 4, 5), vec![(0, 0), (1, 0), (2, 1), (3, 1)]);
    let mut back = vec![0u32; 4 * 2];
    draw_line(&mut back, 4, 2, 3, 1, 0, 0, 5);
    assert_eq!(painted_points(&back, 4, 5).len(), 4);
    let mut point = vec![0u32; 4 * 2];
    draw_line(&mut point, 4, 2, 2, 1, 2, 1, 5);
    assert_eq!(painted_points(&point, 4, 5), vec![(2, 1)]);
    let mut vertical = vec![0u32; 3 * 4];
    draw_line(&mut vertical, 3, 4, 1, 3, 1, 0, 5);
    assert_eq!(painted_points(&vertical, 3, 5), vec![(1, 0), (1, 1), (1, 2), (1, 3)]);
}

#[test]
fn draw_line_clips_to_the_frame() {
    let mut buf = vec![0u32; 3 * 3];
    draw_line(&mut buf, 3, 3, -5, 1, 10, 1, 2);
    assert_eq!(painted_points(&buf, 3, 2), vec![(0, 1), (1, 1), (2, 1)]);
}

#[test]
fn draw_text_advances_four_cells_per_character() {
    let mut buf = vec![0u32; 8 * 5];
    draw_text(&mut buf, 8, 5, 0, 0, "I-", 1, 1);
    // 'I': 111 / 010 / 010 / 010 / 111, then '-' from column 4: row 2 only.
    let expected: Vec<(usize, usize)> = vec![
        (0, 0), (1, 0), (2, 0),
        (1, 1),
        (1, 2), (4, 2), (5, 2), (6, 2),
        (1, 3),
        (0, 4), (1, 4), (2, 4),
    ];
    assert_eq!(painted_points(&buf, 8, 1), expected);
}

#[test]
fn draw_hud_paints_panel_then_text() {
    let ww = 200usize;
    let wh = 80usize;
    let mut buf = vec![0u32; ww * wh];
    let lines = vec!["AB".to_string(), "C".to_string()];
    draw_panel(&mut buf, ww, wh, &lines);
    // panel: from (6, 6), 2 * 4 * 2 + 8 = 24 wide and 2 * 14 + 8 = 36 high.
    assert_eq!(buf[6 * ww + 6], PANEL_BG);
    assert_eq!(buf[6 * ww + 29], PANEL_BG);
    assert_eq!(buf[6 * ww + 30], 0);
    assert_eq!(buf[41 * ww + 6], PANEL_BG);
    assert_eq!(buf[42 * ww + 6], 0);
    // top-left cell of 'A' (row 010) is blank, the middle one is ink.
    assert_eq!(buf[10 * ww + 10], PANEL_BG);
    assert_eq!(buf[10 * ww + 12], TEXT_COLOR);
    // second line starts 14 rows lower: 'C' row 0 is 011.
    assert_eq!(buf[24 * ww + 12], TEXT_COLOR);
    assert_eq!(buf[24 * ww + 10], PANEL_BG);
}

#[test]
fn fill_sets_every_pixel() {
    let mut buf = vec![1u32; 7];
    fill(&mut buf, BACKGROUND);
    assert!(buf.iter().all(|p| *p == BACKGROUND));
    assert_eq!(BACKGROUND, (245u32 << 16) | (241u32 << 8) | 231);
}

#[test]
fn draw_trails_joins_successive_positions() {
    let ww = 6usize;
    let wh = 3usize;
    let mut buf = vec![0u32; ww * wh];
    let hist = vec![vec![(0, 0), (5, 2)], vec![(2, 0), (5, 0)], vec![(3, 0)]];
    draw_trails(&mut buf, ww, wh, &hist, 2, 4);
    assert_eq!(
        painted_points(&buf, ww, 4),
        vec![(0, 0), (1, 0), (2, 0), (3, 0), (5, 0), (5, 1), (5, 2)]
    );
    let mut single = vec![0u32; ww * wh];
    draw_trails(&mut single, ww, wh, &vec![vec![(1, 1)]], 1, 4);
    assert!(single.iter().all(|p| *p == 0));
}

#[test]
fn decimal_writing() {
    let mut s = String::from("N=");
    push_decimal(&mut s, 0);
    assert_eq!(s, "N=0");
    let mut t = String::new();
    push_decimal(&mut t, 305);
    assert_eq!(t, "305");
    let mut u = String::new();
    push_decimal(&mut u, u64::MAX);
    assert_eq!(u, u64::MAX.to_string());
}

#[test]
fn hud_lines_describe_the_state() {
    let lines = hud_lines(Preset::Binary, IntegratorKind::Leapfrog, 12, true, 999999, "-3.821");
    assert_eq!(
        lines,
        vec![
            "PRESET: BINARY + PLANET".to_string(),
            "INTEGRATOR: LEAPFROG  SPEED: 12X".to_string(),
            "PAUSED  STEP: 999999".to_string(),
            "ENERGY: -3.821".to_string(),
        ]
    );
    let running = hud_lines(Preset::SolarSystem, IntegratorKind::Verlet, 2, false, 0, "1.000");
    assert_eq!(running[2], "RUNNING  STEP: 0");
    for line in &lines {
        for ch in line.chars() {
            assert!(ch == ' ' || glyph(ch) != [0, 0, 0, 0, 0], "{ch}");
        }
    }
}

#[test]
fn draw_hud_keeps_pixels_outside_the_panel() {
    let ww = 400usize;
    let wh = 100usize;
    let mut buf = vec![7u32; ww * wh + 5];
    draw_hud(&mut buf, ww, wh, Preset::SolarSystem, IntegratorKind::Euler, 2, false, 41, "-1.500");
    let lines = hud_lines(Preset::SolarSystem, IntegratorKind::Euler, 2, false, 41, "-1.500");
    let m = lines.iter().map(|l| l.len()).max().unwrap();
    let (right, bottom) = (6 + 8 * m + 8, 6 + 4 * 14 + 8);
    for (k, &p) in buf.iter().enumerate() {
        let (x, y) = (k % ww, k / ww);
        let inside = k < ww * wh && (6..right).contains(&x) && (6..bottom).contains(&y);
        if inside {
            assert!(p == PANEL_BG || p == TEXT_COLOR);
        } else {
            assert_eq!(p, 7);
        }
    }
    let mut same = vec![7u32; ww * wh + 5];
    draw_panel(&mut same, ww, wh, &lines);
    assert_eq!(buf, same);
}

#[test]
fn draw_text_from_the_far_left() {
    let mut buf = vec![0u32; 4 * 5];
    draw_text(&mut buf, 4, 5, i64::MIN, 0, "A", 1, 9);
    assert!(buf.iter().all(|p| *p == 0));
    draw_text(&mut buf, 4, 5, 0, 0, "", i64::MAX, 9);
    assert!(buf.iter().all(|p| *p == 0));
}

#[test]
fn long_lines_are_clipped() {
    let mut buf = vec![0u32; 3 * 3];
    draw_line(&mut buf, 3, 3, -100_000, 1, 100_000, 1, 2);
    assert_eq!(painted_points(&buf, 3, 2), vec![(0, 1), (1, 1), (2, 1)]);
}

#[test]
fn trail_slots() {
    assert_eq!(TRAIL_LEN, 160);
    assert_eq!(trail_slot(0, 10), (0, 9));
    assert_eq!(trail_slot(1, 10), (0, 5));
    assert_eq!(trail_slot(2, 10), (0, 1));
    assert_eq!(trail_slot(3, 10), (0, 0));
    assert_eq!(trail_slot(161, 1024), (1, 1019));
    assert_eq!(trail_slot(5, 0), (0, 0));
}

#[test]
fn draw_trails_after_a_merge() {
    // the first snapshot still has a body that later merged away.
    let ww = 4usize;
    let wh = 2usize;
    let mut buf = vec![0u32; ww * wh];
    let hist = vec![vec![(0, 0), (3, 1)], vec![(1, 0)]];
    draw_trails(&mut buf, ww, wh, &hist, 2, 6);
    assert_eq!(painted_points(&buf, ww, 6), vec![(0, 0), (1, 0)]);
}
