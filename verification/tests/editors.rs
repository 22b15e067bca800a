use fantasyconsole::console::ConsoleMode;
use fantasyconsole::renderer::editor::{MapEditor, SpriteEditor};
use fantasyconsole::vm::api::BackendState;

fn px(s: &BackendState, x: i32, y: i32) -> u8 {
    s.screen_buffer[(y * s.target_width + x) as usize]
}

fn recoloured(sheet: &[u8], c: u8) -> Vec<(usize, usize)> {
    let mut v: Vec<(usize, usize)> =
        sheet.iter().enumerate().filter(|(_, v)| **v == c).map(|(i, _)| (i % 256, i / 256)).collect();
    v.sort();
    v
}

#[test]
fn sprite_editor_starts_on_sprite_zero_with_pen() {
    let e = SpriteEditor::new();
    assert_eq!(e.selected_sprite_id, 0);
    assert_eq!(e.current_tool, 0);
}

#[test]
fn flood_fill_whole_sprite() {
    let e = SpriteEditor::new();
    let mut sheet = vec![0u8; 65536];
    e.flood_fill(&mut sheet, 0, 0, 0, 3);
    let got = recoloured(&sheet, 3);
    let mut expected = Vec::new();
    for x in 0..8 {
        for y in 0..8 {
            expected.push((x, y));
        }
    }
    assert_eq!(got, expected);
}

#[test]
fn flood_fill_from_middle_fills_whole_block() {
    let e = SpriteEditor::new();
    let mut sheet = vec![0u8; 65536];
    e.flood_fill(&mut sheet, 3, 3, 0, 3);
    let got = recoloured(&sheet, 3);
    assert_eq!(got.len(), 64);
    assert!(got.iter().all(|&(x, y)| x < 8 && y < 8));
}

#[test]
fn flood_fill_stays_in_sprite_block() {
    let e = SpriteEditor { selected_sprite_id: 1, current_tool: 1 };
    let mut sheet = vec![0u8; 65536];
    e.flood_fill(&mut sheet, 8, 0, 0, 5);
    let got = recoloured(&sheet, 5);
    assert_eq!(got.len(), 64);
    assert!(got.iter().all(|&(x, y)| (8..16).contains(&x) && y < 8));
    // a sprite further down the sheet
    let e = SpriteEditor { selected_sprite_id: 17, current_tool: 1 };
    let mut sheet = vec![0u8; 65536];
    e.flood_fill(&mut sheet, 12, 13, 0, 5);
    let got = recoloured(&sheet, 5);
    assert_eq!(got.len(), 64);
    assert!(got.iter().all(|&(x, y)| (8..16).contains(&x) && (8..16).contains(&y)));
}

#[test]
fn flood_fill_reaches_vertical_neighbours() {
    let e = SpriteEditor::new();
    let mut sheet = vec![1u8; 65536];
    sheet[2 * 256 + 3] = 0;
    sheet[3 * 256 + 3] = 0;
    e.flood_fill(&mut sheet, 3, 2, 0, 5);
    assert_eq!(sheet[2 * 256 + 3], 5);
    assert_eq!(sheet[3 * 256 + 3], 5);
    assert_eq!(recoloured(&sheet, 5).len(), 2);
    assert_eq!(recoloured(&sheet, 0).len(), 0);
}

#[test]
fn flood_fill_stops_at_other_colours_and_same_colour_is_noop() {
    let e = SpriteEditor::new();
    let mut sheet = vec![0u8; 65536];
    for y in 0..8 {
        sheet[y * 256 + 4] = 9;
    }
    e.flood_fill(&mut sheet, 0, 0, 0, 2);
    // the wall at column 4 stops the fill
    let got = recoloured(&sheet, 2);
    assert_eq!(got.len(), 32);
    assert!(got.iter().all(|&(x, y)| x < 4 && y < 8));
    let before = sheet.clone();
    e.flood_fill(&mut sheet, 0, 0, 2, 2);
    assert_eq!(sheet, before);
    // a start pixel of another colour changes nothing
    e.flood_fill(&mut sheet, 4, 0, 0, 5);
    assert_eq!(sheet, before);
}

#[test]
fn sprite_editor_frame_and_pen_click() {
    let mut e = SpriteEditor::new();
    let mut s = BackendState::new(ConsoleMode::Pico8);
    s.mouse_x = 24;
    s.mouse_y = 40;
    s.mouse_left_clicked = true;
    e.update_and_render(&mut s);
    // pen: sprite pixel (2, 3) takes the current colour (6)
    assert_eq!(s.sprite_sheet[3 * 256 + 2], 6);
    // the canvas was drawn before the click: that cell still shows colour 0
    assert_eq!(px(&s, 25, 41), 0);
    assert_eq!(px(&s, 31, 41), 1);
    // background, header bar, canvas frame
    assert_eq!(px(&s, 2, 100), 5);
    assert_eq!(px(&s, 0, 0), 0);
    assert_eq!(px(&s, 7, 15), 7);
    // palette swatch of colour 9 and the white frame round the active colour 6
    assert_eq!(px(&s, 92, 40), 9);
    assert_eq!(px(&s, 99, 25), 7);
    // crosshair cursor
    assert_eq!(px(&s, 24, 40), 7);
    assert_eq!(px(&s, 23, 40), 7);
    // next frame shows the new pixel
    s.mouse_left_clicked = false;
    e.update_and_render(&mut s);
    assert_eq!(px(&s, 25, 41), 6);
}

#[test]
fn sprite_editor_palette_tool_and_bucket_clicks() {
    let mut e = SpriteEditor::new();
    let mut s = BackendState::new(ConsoleMode::Pico8);
    s.mouse_left_clicked = true;
    s.mouse_x = 92;
    s.mouse_y = 38;
    e.update_and_render(&mut s);
    assert_eq!(s.current_color, 9);
    s.mouse_x = 110;
    s.mouse_y = 65;
    e.update_and_render(&mut s);
    assert_eq!(e.current_tool, 1);
    s.mouse_x = 8;
    s.mouse_y = 16;
    e.update_and_render(&mut s);
    assert_eq!(recoloured(&s.sprite_sheet, 9).len(), 64);
    assert_eq!(s.sprite_sheet[7 * 256 + 7], 9);
    assert_eq!(s.sprite_sheet[8], 0);
}

#[test]
fn map_editor_starts_at_origin() {
    let m = MapEditor::new();
    assert_eq!((m.current_tile_id, m.camera_x, m.camera_y, m.input_cooldown), (1, 0, 0, 0));
}

#[test]
fn map_editor_moves_with_cooldown() {
    let mut m = MapEditor::new();
    let mut s = BackendState::new(ConsoleMode::Pico8);
    s.camera(30, 40);
    s.clip(1, 1, 2, 2);
    s.buttons[0][1] = true;
    m.update_and_render(&mut s);
    assert_eq!((m.camera_x, m.camera_y, m.input_cooldown), (1, 0, 8));
    assert_eq!((s.camera_x, s.camera_y), (0, 0));
    assert_eq!((s.clip_x0, s.clip_y0, s.clip_x1, s.clip_y1), (0, 0, 127, 127));
    for k in 0..7 {
        m.update_and_render(&mut s);
        assert_eq!(m.camera_x, 1);
        assert_eq!(m.input_cooldown, 7 - k);
    }
    m.update_and_render(&mut s);
    assert_eq!((m.camera_x, m.input_cooldown), (2, 8));
    // left at the edge stays at 0
    let mut m = MapEditor::new();
    let mut s = BackendState::new(ConsoleMode::Pico8);
    s.buttons[0][0] = true;
    s.buttons[0][2] = true;
    m.update_and_render(&mut s);
    assert_eq!((m.camera_x, m.camera_y, m.input_cooldown), (0, 0, 8));
}

#[test]
fn map_editor_draws_view_and_status_bar() {
    let mut m = MapEditor::new();
    let mut s = BackendState::new(ConsoleMode::Pico8);
    s.buttons[0][1] = true;
    m.update_and_render(&mut s);
    // empty cells show a guide dot, the focus cell (1, 0) a yellow frame
    assert_eq!(px(&s, 0, 0), 1);
    assert_eq!(px(&s, 3, 3), 5);
    assert_eq!(px(&s, 8, 0), 10);
    assert_eq!(px(&s, 15, 7), 10);
    // status bar: rule at y = 108, black panel below it
    assert_eq!(px(&s, 0, 108), 7);
    assert_eq!(px(&s, 0, 127), 0);
    // "C" of "CELL" at (4, 114) in colour 11
    assert_eq!(px(&s, 4, 114), 11);
    assert_eq!(px(&s, 5, 114), 11);
}

#[test]
fn map_editor_shows_tiles_and_scrolls_view() {
    let mut m = MapEditor { current_tile_id: 2, camera_x: 100, camera_y: 135, input_cooldown: 3 };
    let mut s = BackendState::new(ConsoleMode::Tic80);
    s.sprite_sheet[2 * 8] = 4; // sprite 2, local (0, 0)
    s.mset(85, 124, 2);
    m.update_and_render(&mut s);
    assert_eq!((m.camera_x, m.camera_y, m.input_cooldown), (100, 135, 2));
    // 30 x 14 view cells; origin x 100 - 15 = 85, y clamped to 136 - 14 = 122
    assert_eq!(px(&s, 0, 16), 4);
    // focus cell (100, 135) is view cell (15, 13)
    assert_eq!(px(&s, 120, 104), 10);
}

#[test]
fn map_editor_z_stamps_current_tile() {
    let mut m = MapEditor { current_tile_id: 7, camera_x: 4, camera_y: 5, input_cooldown: 0 };
    let mut s = BackendState::new(ConsoleMode::Tic80);
    s.buttons[0][4] = true;
    s.buttons[0][1] = true;
    m.update_and_render(&mut s);
    // the cursor moved right first, then the tile went into its cell
    assert_eq!((m.camera_x, m.camera_y), (5, 5));
    assert_eq!(s.mget(5, 5), 7);
    assert_eq!(s.map_buffer.iter().filter(|v| **v != 0).count(), 1);
    // without Z nothing is written
    let mut m = MapEditor::new();
    let mut s = BackendState::new(ConsoleMode::Tic80);
    m.update_and_render(&mut s);
    assert!(s.map_buffer.iter().all(|v| *v == 0));
    // in PICO-8 mode a cell beyond the 128 x 64 map is not written
    let mut m = MapEditor { current_tile_id: 7, camera_x: 200, camera_y: 5, input_cooldown: 3 };
    let mut s = BackendState::new(ConsoleMode::Pico8);
    s.buttons[0][4] = true;
    m.update_and_render(&mut s);
    assert!(s.map_buffer.iter().all(|v| *v == 0));
}
