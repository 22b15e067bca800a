use fantasyconsole::console::{ConsoleMode, EngineConfig};
use fantasyconsole::vm::api::BackendState;

fn lit(s: &BackendState) -> Vec<(i32, i32)> {
    let w = s.target_width as usize;
    let mut out = Vec::new();
    for (i, v) in s.screen_buffer.iter().enumerate() {
        if *v != 0 {
            out.push(((i % w) as i32, (i / w) as i32));
        }
    }
    out.sort();
    out
}

fn px(s: &BackendState, x: i32, y: i32) -> u8 {
    s.screen_buffer[(y * s.target_width + x) as usize]
}

#[test]
fn engine_config_for_each_mode() {
    let p = EngineConfig::for_mode(ConsoleMode::Pico8);
    assert_eq!((p.screen_width, p.screen_height, p.palette_size), (128, 128, 16));
    assert_eq!(p.mode, ConsoleMode::Pico8);
    let t = EngineConfig::for_mode(ConsoleMode::Tic80);
    assert_eq!((t.screen_width, t.screen_height, t.palette_size), (240, 136, 16));
    assert_eq!(t.mode, ConsoleMode::Tic80);
}

#[test]
fn new_state_matches_mode() {
    let s = BackendState::new(ConsoleMode::Tic80);
    assert_eq!(s.target_width, 240);
    assert_eq!(s.target_height, 136);
    assert_eq!(s.screen_buffer.len(), 240 * 136);
    assert_eq!(s.sprite_sheet.len(), 65536);
    assert_eq!(s.map_buffer.len(), 240 * 136);
    assert_eq!((s.clip_x0, s.clip_y0, s.clip_x1, s.clip_y1), (0, 0, 239, 135));
    assert_eq!(s.current_color, 6);
    for i in 0..16 {
        assert_eq!(s.palette_map[i], i as u8);
    }
    let p = BackendState::new(ConsoleMode::Pico8);
    assert_eq!(p.screen_buffer.len(), 128 * 128);
    assert!(p.screen_buffer.iter().all(|v| *v == 0));
}

#[test]
fn pset_uses_camera_clip_and_palette() {
    let mut s = BackendState::new(ConsoleMode::Pico8);
    s.pset(3, 4, 7);
    assert_eq!(px(&s, 3, 4), 7);
    // only the low nibble of a colour counts
    s.pset(5, 5, 0x1b);
    assert_eq!(px(&s, 5, 5), 11);
    s.camera(10, 20);
    s.pset(12, 21, 9);
    assert_eq!(px(&s, 2, 1), 9);
    s.camera(0, 0);
    s.palette(8, 12);
    s.pset(0, 0, 8);
    assert_eq!(px(&s, 0, 0), 12);
    s.pal_reset();
    s.pset(1, 0, 8);
    assert_eq!(px(&s, 1, 0), 8);
    // out of the screen: nothing is written
    let before = s.screen_buffer.clone();
    s.pset(-1, 0, 7);
    s.pset(128, 0, 7);
    s.pset(0, 128, 7);
    assert_eq!(s.screen_buffer, before);
}

#[test]
fn clip_discards_outside_pixels() {
    let mut s = BackendState::new(ConsoleMode::Pico8);
    s.clip(10, 10, 5, 5);
    assert_eq!((s.clip_x0, s.clip_y0, s.clip_x1, s.clip_y1), (10, 10, 14, 14));
    s.cls(3);
    let on = lit(&s);
    assert_eq!(on.len(), 25);
    assert!(on.iter().all(|&(x, y)| (10..15).contains(&x) && (10..15).contains(&y)));
    // a clip partly off the screen is clamped to it
    s.clip(-5, 120, 10, 100);
    assert_eq!((s.clip_x0, s.clip_y0, s.clip_x1, s.clip_y1), (0, 120, 4, 127));
    // an empty clip resets to the whole screen
    s.clip(3, 3, 0, 7);
    assert_eq!((s.clip_x0, s.clip_y0, s.clip_x1, s.clip_y1), (0, 0, 127, 127));
}

#[test]
fn cls_fills_whole_screen_through_palette() {
    let mut s = BackendState::new(ConsoleMode::Pico8);
    s.palette(5, 1);
    s.cls(5);
    assert!(s.screen_buffer.iter().all(|v| *v == 1));
    s.cls(0x25);
    assert!(s.screen_buffer.iter().all(|v| *v == 1));
}

#[test]
fn palette_ignores_out_of_range_colours() {
    let mut s = BackendState::new(ConsoleMode::Pico8);
    s.palette(16, 3);
    s.palette(3, 16);
    for i in 0..16 {
        assert_eq!(s.palette_map[i], i as u8);
    }
    s.palette(15, 0);
    assert_eq!(s.palette_map[15], 0);
}

#[test]
fn camera_sets_offset() {
    let mut s = BackendState::new(ConsoleMode::Pico8);
    s.camera(-7, 9);
    assert_eq!((s.camera_x, s.camera_y), (-7, 9));
}

#[test]
fn mget_reads_back_mset() {
    let mut s = BackendState::new(ConsoleMode::Tic80);
    s.mset(239, 135, 42);
    s.mset(0, 0, 7);
    assert_eq!(s.mget(239, 135), 42);
    assert_eq!(s.mget(0, 0), 7);
    assert_eq!(s.mget(1, 0), 0);
    assert_eq!(s.map_buffer[135 * 240 + 239], 42);
    // writes outside the map are ignored and reads there give 0
    s.mset(240, 0, 9);
    s.mset(-1, 5, 9);
    assert!(s.map_buffer.iter().filter(|v| **v == 9).count() == 0);
    assert_eq!(s.mget(240, 0), 0);
    assert_eq!(s.mget(0, -1), 0);
}

#[test]
fn pico8_map_is_128_by_64() {
    let mut s = BackendState::new(ConsoleMode::Pico8);
    assert_eq!((s.map_width, s.map_height), (128, 64));
    let t = BackendState::new(ConsoleMode::Tic80);
    assert_eq!((t.map_width, t.map_height), (240, 136));
    s.mset(200, 0, 5);
    assert_eq!(s.mget(200, 0), 0);
    s.mset(0, 64, 5);
    assert_eq!(s.mget(0, 64), 0);
    assert!(s.map_buffer.iter().all(|v| *v == 0));
    s.mset(127, 63, 5);
    assert_eq!(s.mget(127, 63), 5);
    assert_eq!(s.map_buffer[63 * 240 + 127], 5);
}

#[test]
fn frame_registers_untouched_by_camera_clip_palette() {
    let mut s = BackendState::new(ConsoleMode::Pico8);
    s.buttons[2][3] = true;
    s.mouse_x = 9;
    s.current_color = 3;
    s.camera(1, 2);
    s.clip(1, 1, 4, 4);
    s.palette(1, 2);
    s.pal_reset();
    s.mset(1000, 0, 1);
    assert!(s.buttons[2][3]);
    assert_eq!((s.mouse_x, s.current_color, s.camera_x, s.camera_y), (9, 3, 1, 2));
    assert_eq!((s.clip_x0, s.clip_y0, s.clip_x1, s.clip_y1), (1, 1, 4, 4));
}

#[test]
fn line_bresenham_steps() {
    let mut s = BackendState::new(ConsoleMode::Pico8);
    s.line(0, 0, 5, 2, 7);
    assert_eq!(lit(&s), vec![(0, 0), (1, 0), (2, 1), (3, 1), (4, 2), (5, 2)]);
    let mut s = BackendState::new(ConsoleMode::Pico8);
    s.line(3, 9, 3, 6, 4);
    assert_eq!(lit(&s), vec![(3, 6), (3, 7), (3, 8), (3, 9)]);
    assert_eq!(px(&s, 3, 7), 4);
    let mut s = BackendState::new(ConsoleMode::Pico8);
    s.line(2, 2, 2, 2, 1);
    assert_eq!(lit(&s), vec![(2, 2)]);
}

#[test]
fn rect_draws_border_only() {
    let mut s = BackendState::new(ConsoleMode::Pico8);
    s.rect(4, 3, 1, 1, 2);
    let mut expected = Vec::new();
    for x in 1..=4 {
        for y in 1..=3 {
            if x == 1 || x == 4 || y == 1 || y == 3 {
                expected.push((x, y));
            }
        }
    }
    expected.sort();
    assert_eq!(lit(&s), expected);
    let mut s = BackendState::new(ConsoleMode::Pico8);
    s.rect(6, 6, 6, 6, 2);
    assert_eq!(lit(&s), vec![(6, 6)]);
}

#[test]
fn rectfill_fills_clipped_box() {
    let mut s = BackendState::new(ConsoleMode::Pico8);
    s.rectfill(130, 2, 125, 0, 9);
    let on = lit(&s);
    assert_eq!(on.len(), 3 * 3);
    assert!(on.iter().all(|&(x, y)| (125..128).contains(&x) && (0..3).contains(&y)));
    assert_eq!(px(&s, 127, 2), 9);
}

#[test]
fn circ_midpoint_outline() {
    let mut s = BackendState::new(ConsoleMode::Pico8);
    s.circ(10, 10, 2, 7);
    assert_eq!(
        lit(&s),
        vec![
            (8, 9), (8, 10), (8, 11), (9, 8), (9, 12), (10, 8),
            (10, 12), (11, 8), (11, 12), (12, 9), (12, 10), (12, 11)
        ]
    );
    let mut s = BackendState::new(ConsoleMode::Pico8);
    s.circ(10, 10, 0, 7);
    assert_eq!(lit(&s), vec![(9, 9), (9, 11), (10, 10), (11, 9), (11, 11)]);
    let mut s = BackendState::new(ConsoleMode::Pico8);
    s.circ(10, 10, -1, 7);
    assert!(lit(&s).is_empty());
}

#[test]
fn circfill_spans() {
    let mut s = BackendState::new(ConsoleMode::Pico8);
    s.circfill(10, 10, 2, 7);
    let on = lit(&s);
    assert_eq!(on.len(), 21);
    assert!(on.contains(&(10, 10)) && on.contains(&(8, 10)) && on.contains(&(10, 12)));
    assert!(!on.contains(&(8, 8)));
}

#[test]
fn spr_ext_blits_and_flips() {
    let mut s = BackendState::new(ConsoleMode::Pico8);
    // sprite 1 lives at sheet (8, 0); give it a single pixel at local (1, 2)
    s.sprite_sheet[2 * 256 + 8 + 1] = 5;
    s.spr_ext(1, 20, 30, false, false);
    assert_eq!(lit(&s), vec![(21, 32)]);
    assert_eq!(px(&s, 21, 32), 5);
    let mut t = BackendState::new(ConsoleMode::Pico8);
    t.sprite_sheet[2 * 256 + 8 + 1] = 5;
    t.spr_ext(1, 20, 30, true, true);
    assert_eq!(lit(&t), vec![(26, 35)]);
    // colour 0 is transparent
    let mut u = BackendState::new(ConsoleMode::Pico8);
    u.cls(4);
    u.spr_ext(0, 0, 0, false, false);
    assert!(u.screen_buffer.iter().all(|v| *v == 4));
}

#[test]
fn sspr_ext_scales_nearest_neighbour() {
    let mut s = BackendState::new(ConsoleMode::Pico8);
    s.sprite_sheet[0] = 1;
    s.sprite_sheet[1] = 2;
    s.sprite_sheet[256] = 3;
    s.sprite_sheet[257] = 4;
    s.sspr_ext(0, 0, 2, 2, 10, 10, 4, 4, false, false);
    assert_eq!(px(&s, 10, 10), 1);
    assert_eq!(px(&s, 11, 11), 1);
    assert_eq!(px(&s, 12, 10), 2);
    assert_eq!(px(&s, 13, 11), 2);
    assert_eq!(px(&s, 10, 12), 3);
    assert_eq!(px(&s, 13, 13), 4);
    assert_eq!(lit(&s).len(), 16);
    let mut f = BackendState::new(ConsoleMode::Pico8);
    f.sprite_sheet[0] = 1;
    f.sspr_ext(0, 0, 2, 2, 0, 0, 2, 2, true, false);
    assert_eq!(lit(&f), vec![(1, 0)]);
    let mut e = BackendState::new(ConsoleMode::Pico8);
    e.sprite_sheet[0] = 1;
    e.sspr_ext(0, 0, 2, 2, 0, 0, 0, 2, false, false);
    assert!(lit(&e).is_empty());
}

#[test]
fn map_draws_nonzero_tiles() {
    let mut s = BackendState::new(ConsoleMode::Pico8);
    s.sprite_sheet[8] = 6; // sprite 1, local (0, 0)
    s.mset(3, 4, 1);
    s.map(2, 4, 0, 0, 3, 1);
    // cell (3, 4) is the second cell drawn: screen x = 8
    assert_eq!(lit(&s), vec![(8, 0)]);
    assert_eq!(px(&s, 8, 0), 6);
}

#[test]
fn get_ascii_glyph_font() {
    let s = BackendState::new(ConsoleMode::Pico8);
    assert_eq!(s.get_ascii_glyph('A'), [0b111, 0b101, 0b111, 0b101, 0b101]);
    assert_eq!(s.get_ascii_glyph('0'), [0b111, 0b101, 0b101, 0b101, 0b111]);
    assert_eq!(s.get_ascii_glyph(' '), [0, 0, 0, 0, 0]);
    assert_eq!(s.get_ascii_glyph('|'), [0b010; 5]);
    assert_eq!(s.get_ascii_glyph('~'), [0b010, 0b101, 0, 0, 0]);
    // characters outside printable ASCII show a full block
    assert_eq!(s.get_ascii_glyph('\u{1}'), [0b111; 5]);
    assert_eq!(s.get_ascii_glyph('é'), [0b111; 5]);
}

#[test]
fn draw_text_advances_four_pixels() {
    let mut s = BackendState::new(ConsoleMode::Pico8);
    s.draw_text("HI", 3, 4, 9);
    assert_eq!(
        lit(&s),
        vec![
            (3, 4), (3, 5), (3, 6), (3, 7), (3, 8), (4, 6), (5, 4), (5, 5), (5, 6), (5, 7),
            (5, 8), (7, 4), (7, 8), (8, 4), (8, 5), (8, 6), (8, 7), (8, 8), (9, 4), (9, 8)
        ]
    );
    assert_eq!(px(&s, 4, 6), 9);
}

#[test]
fn btn_reads_players_modulo_four() {
    let mut s = BackendState::new(ConsoleMode::Pico8);
    s.buttons[1][4] = true;
    assert!(s.btn(4, Some(1)));
    assert!(s.btn(4, Some(5)));
    assert!(!s.btn(4, None));
    assert!(!s.btn(6, Some(1)));
    s.buttons[0][2] = true;
    assert!(s.btn(2, None));
}

#[test]
fn restore_state_copies_saved_fields() {
    let mut s = BackendState::new(ConsoleMode::Pico8);
    s.palette(1, 2);
    s.buttons[0][0] = true;
    let mut saved = BackendState::new(ConsoleMode::Pico8);
    saved.cls(7);
    saved.mset(1, 1, 3);
    saved.sprite_sheet[0] = 9;
    saved.current_color = 12;
    saved.camera(4, 5);
    saved.clip(1, 2, 3, 4);
    saved.palette(3, 4);
    s.restore_state(saved);
    assert!(s.screen_buffer.iter().all(|v| *v == 7));
    assert_eq!(s.mget(1, 1), 3);
    assert_eq!(s.sprite_sheet[0], 9);
    assert_eq!(s.current_color, 12);
    assert_eq!((s.camera_x, s.camera_y), (4, 5));
    assert_eq!((s.clip_x0, s.clip_y0, s.clip_x1, s.clip_y1), (1, 2, 3, 5));
    // the palette and the inputs are not part of a restore
    assert_eq!(s.palette_map[1], 2);
    assert_eq!(s.palette_map[3], 3);
    assert!(s.buttons[0][0]);
}

#[test]
fn polyfill_scanlines_diamond() {
    let mut s = BackendState::new(ConsoleMode::Pico8);
    let vs = vec![(10, 0), (20, 10), (10, 20), (0, 10)];
    s.polyfill(10, 4, &vs, 3);
    let on = lit(&s);
    assert_eq!(on.len(), 220);
    assert!(on.contains(&(0, 10)) && on.contains(&(10, 10)) && on.contains(&(1, 9)));
    assert!(!on.contains(&(10, 20)));
    // fewer than 3 sides or no radius draws nothing
    let mut e = BackendState::new(ConsoleMode::Pico8);
    e.polyfill(10, 2, &vs, 3);
    e.polyfill(0, 4, &vs, 3);
    assert!(lit(&e).is_empty());
}

#[test]
fn polygon_outline_closes() {
    let mut s = BackendState::new(ConsoleMode::Pico8);
    let vs = vec![(0, 0), (4, 0), (4, 4), (0, 0)];
    s.polygon(4, 3, &vs, 8);
    let on = lit(&s);
    assert!(on.contains(&(2, 0)) && on.contains(&(4, 2)) && on.contains(&(2, 2)));
    assert!(!on.contains(&(0, 4)));
    let mut e = BackendState::new(ConsoleMode::Pico8);
    e.polygon(4, 2, &vs, 8);
    assert!(lit(&e).is_empty());
}

fn copy_of(s: &BackendState) -> BackendState {
    BackendState {
        screen_buffer: s.screen_buffer.clone(),
        sprite_sheet: s.sprite_sheet.clone(),
        map_buffer: s.map_buffer.clone(),
        palette_map: s.palette_map,
        current_color: s.current_color,
        buttons: s.buttons,
        camera_x: s.camera_x,
        camera_y: s.camera_y,
        clip_x0: s.clip_x0,
        clip_y0: s.clip_y0,
        clip_x1: s.clip_x1,
        clip_y1: s.clip_y1,
        debug_mode: s.debug_mode,
        target_width: s.target_width,
        target_height: s.target_height,
        map_width: s.map_width,
        map_height: s.map_height,
        mouse_x: s.mouse_x,
        mouse_y: s.mouse_y,
        mouse_left_clicked: s.mouse_left_clicked,
    }
}

#[test]
fn restore_own_save_changes_nothing() {
    let mut s = BackendState::new(ConsoleMode::Tic80);
    s.circfill(50, 50, 10, 9);
    s.mset(5, 6, 7);
    s.camera(3, -2);
    s.clip(0, 0, 100, 50);
    s.current_color = 11;
    let saved = copy_of(&s);
    let before = copy_of(&s);
    s.restore_state(saved);
    assert_eq!(s.screen_buffer, before.screen_buffer);
    assert_eq!(s.map_buffer, before.map_buffer);
    assert_eq!(s.sprite_sheet, before.sprite_sheet);
    assert_eq!((s.camera_x, s.camera_y, s.current_color), (3, -2, 11));
    assert_eq!((s.clip_x0, s.clip_y0, s.clip_x1, s.clip_y1), (before.clip_x0, before.clip_y0, before.clip_x1, before.clip_y1));
}

#[test]
fn circfill_covers_circ_and_rectfill_covers_rect() {
    for r in 0..6 {
        let mut o = BackendState::new(ConsoleMode::Pico8);
        let mut f = BackendState::new(ConsoleMode::Pico8);
        o.circ(20, 20, r, 7);
        f.circfill(20, 20, r, 7);
        let filled = lit(&f);
        assert!(lit(&o).iter().all(|p| filled.contains(p)));
    }
    let mut o = BackendState::new(ConsoleMode::Pico8);
    let mut f = BackendState::new(ConsoleMode::Pico8);
    o.rect(3, 4, 9, 12, 7);
    f.rectfill(3, 4, 9, 12, 7);
    let filled = lit(&f);
    assert!(lit(&o).iter().all(|p| filled.contains(p)));
    let mut o = BackendState::new(ConsoleMode::Pico8);
    let mut f = BackendState::new(ConsoleMode::Pico8);
    o.rect(3, 4, 9, 4, 7);
    f.rectfill(3, 4, 9, 4, 7);
    assert_eq!(lit(&o), lit(&f));
}

#[test]
fn sspr_at_scale_one_is_spr() {
    let mut a = BackendState::new(ConsoleMode::Pico8);
    for i in 0..8 {
        a.sprite_sheet[(8 + i) * 256 + 24 + (i * 3) % 8] = (i + 1) as u8;
    }
    let mut b = copy_of(&a);
    // sprite 19 sits at sheet (24, 8)
    a.spr_ext(19, 5, 6, true, false);
    b.sspr_ext(24, 8, 8, 8, 5, 6, 8, 8, true, false);
    assert_eq!(a.screen_buffer, b.screen_buffer);
    assert!(!lit(&a).is_empty());
}

#[test]
fn draw_text_of_joined_strings() {
    let mut a = BackendState::new(ConsoleMode::Pico8);
    let mut b = BackendState::new(ConsoleMode::Pico8);
    a.draw_text("AB1", 3, 5, 8);
    b.draw_text("AB", 3, 5, 8);
    b.draw_text("1", 11, 5, 8);
    assert_eq!(a.screen_buffer, b.screen_buffer);
}

#[test]
fn glyph_rows_are_three_bits_and_only_unprintables_are_blocks() {
    let s = BackendState::new(ConsoleMode::Pico8);
    for code in 32u8..=126 {
        let g = s.get_ascii_glyph(code as char);
        assert!(g.iter().all(|r| *r < 8));
        assert_ne!(g, [7u8; 5]);
    }
}

#[test]
fn screen_stays_in_hardware_colours() {
    let mut s = BackendState::new(ConsoleMode::Pico8);
    s.palette(3, 15);
    s.circfill(30, 30, 9, 0xf3);
    s.draw_text("X", 0, 0, 0xaa);
    assert!(s.screen_buffer.iter().all(|v| *v < 16));
    assert!(s.palette_map.iter().all(|v| *v < 16));
}
