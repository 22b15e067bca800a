use vstd::prelude::*;
use vstd::arithmetic::div_mod::lemma_fundamental_div_mod;
use vstd::arithmetic::div_mod::lemma_fundamental_div_mod_converse;
use vstd::std_specs::iter::IteratorSpec;
use crate::console::{ConsoleMode, EngineConfig, mode_width, mode_height, mode_map_width, mode_map_height};

verus! {

/// Width and height of the sprite sheet, in pixels.
pub const SHEET_SIDE: usize = 256;
/// Width of the tile map, in cells.
pub const MAP_W: i32 = 240;
/// Height of the tile map, in cells.
pub const MAP_H: i32 = 136;

/// The virtual hardware: framebuffer, assets and drawing registers.
pub struct BackendState {
    pub screen_buffer: Vec<u8>,
    pub sprite_sheet: Vec<u8>,
    pub map_buffer: Vec<u8>,
    pub palette_map: [u8; 16],
    pub current_color: u8,
    pub buttons: [[bool; 6]; 4],
    pub camera_x: i32,
    pub camera_y: i32,
    pub clip_x0: i32,
    pub clip_y0: i32,
    pub clip_x1: i32,
    pub clip_y1: i32,
    pub debug_mode: bool,
    pub target_width: i32,
    pub target_height: i32,
    /// Size of the tile map of the console mode, in cells. The map buffer
    /// always holds 240 x 136 cells, row by row; only the top-left
    /// `map_width x map_height` of them belong to the map.
    pub map_width: i32,
    pub map_height: i32,
    pub mouse_x: i32,
    pub mouse_y: i32,
    pub mouse_left_clicked: bool,
}

/// Coordinates that the drawing routines handle internally: far beyond
/// any `i32` sum they form, so no intermediate step overflows.
pub open spec fn wide(v: int) -> bool {
    -0x10_0000_0000 <= v <= 0x10_0000_0000
}

/// A set of world points, each with the colour to draw there.
pub type Brush = Map<(int, int), u8>;

/// The brush that draws every point of `pts` in `color`.
pub open spec fn solid(pts: Set<(int, int)>, color: u8) -> Brush {
    Map::new(|p: (int, int)| pts.contains(p), |p: (int, int)| color)
}

pub proof fn lemma_raster(w: int, h: int, cx: int, cy: int)
    requires
        0 <= cx < w,
        0 <= cy < h,
    ensures
        0 <= cy * w + cx < w * h,
        (cy * w + cx) % w == cx,
        (cy * w + cx) / w == cy,
{
    lemma_fundamental_div_mod_converse(cy * w + cx, w, cy, cx);
    assert(0 <= cy * w) by (nonlinear_arith)
        requires
            0 <= cy,
            0 <= w,
    ;
    assert(cy * w + cx < w * h) by (nonlinear_arith)
        requires
            0 <= cx < w,
            0 <= cy < h,
    ;
}

pub proof fn lemma_unraster(w: int, h: int, i: int)
    requires
        0 < w,
        0 <= h,
        0 <= i < w * h,
    ensures
        0 <= i % w < w,
        0 <= i / w < h,
        i == (i / w) * w + i % w,
{
    lemma_fundamental_div_mod(i, w);
    assert(0 <= i / w < h) by (nonlinear_arith)
        requires
            0 < w,
            0 <= i < w * h,
            i == w * (i / w) + i % w,
            0 <= i % w < w,
    ;
    assert(w * (i / w) == (i / w) * w) by (nonlinear_arith);
}

impl BackendState {
    /// The state's buffers have the sizes its dimensions call for.
    pub open spec fn wf(&self) -> bool {
        &&& 1 <= self.target_width
        &&& 1 <= self.target_height
        &&& self.screen_buffer@.len() == self.target_width * self.target_height
        &&& self.sprite_sheet@.len() == 65536
        &&& self.map_buffer@.len() == 240 * 136
        &&& 1 <= self.map_width <= 240
        &&& 1 <= self.map_height <= 136
    }

    /// The hardware colour that drawing with `color` produces: the palette
    /// entry of its low nibble, kept to four bits.
    pub open spec fn ink(&self, color: u8) -> u8 {
        (self.palette_map@[(color % 16) as int] % 16) as u8
    }

    /// A camera-space point lies inside the clip rectangle and the screen.
    pub open spec fn visible(&self, cx: int, cy: int) -> bool {
        &&& self.clip_x0 <= cx <= self.clip_x1
        &&& self.clip_y0 <= cy <= self.clip_y1
        &&& 0 <= cx < self.target_width
        &&& 0 <= cy < self.target_height
    }

    /// `base` after drawing `brush`: every visible pixel whose world point
    /// (its screen position plus the camera) the brush covers takes the ink
    /// of the brush's colour there; every other pixel keeps its value.
    pub open spec fn draw_over(&self, base: Seq<u8>, brush: Brush) -> Seq<u8> {
        Seq::new(
            base.len(),
            |i: int|
                {
                    let cx = i % (self.target_width as int);
                    let cy = i / (self.target_width as int);
                    let p = (cx + self.camera_x, cy + self.camera_y);
                    if self.visible(cx, cy) && brush.dom().contains(p) {
                        self.ink(brush[p])
                    } else {
                        base[i]
                    }
                },
        )
    }

    /// The screen after drawing `brush` on the current screen.
    pub open spec fn draw(&self, brush: Brush) -> Seq<u8> {
        self.draw_over(self.screen_buffer@, brush)
    }

    /// The drawing registers (camera, clip, dimensions, palette) agree.
    pub open spec fn same_view(&self, other: &Self) -> bool {
        &&& self.camera_x == other.camera_x
        &&& self.camera_y == other.camera_y
        &&& self.clip_x0 == other.clip_x0
        &&& self.clip_y0 == other.clip_y0
        &&& self.clip_x1 == other.clip_x1
        &&& self.clip_y1 == other.clip_y1
        &&& self.target_width == other.target_width
        &&& self.target_height == other.target_height
        &&& self.palette_map == other.palette_map
    }

    /// The input registers (buttons, mouse), the debug flag and the screen
    /// and map sizes agree.
    pub open spec fn same_inputs(&self, other: &Self) -> bool {
        &&& self.buttons == other.buttons
        &&& self.debug_mode == other.debug_mode
        &&& self.mouse_x == other.mouse_x
        &&& self.mouse_y == other.mouse_y
        &&& self.mouse_left_clicked == other.mouse_left_clicked
        &&& self.target_width == other.target_width
        &&& self.target_height == other.target_height
        &&& self.map_width == other.map_width
        &&& self.map_height == other.map_height
    }

    /// Every field but the screen buffer agrees.
    pub open spec fn same_except_screen(&self, other: &Self) -> bool {
        &&& self.same_view(other)
        &&& self.sprite_sheet@ == other.sprite_sheet@
        &&& self.map_buffer@ == other.map_buffer@
        &&& self.current_color == other.current_color
        &&& self.buttons == other.buttons
        &&& self.debug_mode == other.debug_mode
        &&& self.mouse_x == other.mouse_x
        &&& self.mouse_y == other.mouse_y
        &&& self.mouse_left_clicked == other.mouse_left_clicked
        &&& self.map_width == other.map_width
        &&& self.map_height == other.map_height
    }

    /// Drawing a brush and then a second one is drawing their union, the
    /// second winning where both cover a point.
    pub proof fn lemma_draw_compose(&self, base: Seq<u8>, a: Brush, b: Brush)
        ensures
            self.draw_over(self.draw_over(base, a), b) == self.draw_over(
                base,
                a.union_prefer_right(b),
            ),
    {
        assert(self.draw_over(self.draw_over(base, a), b) =~= self.draw_over(
            base,
            a.union_prefer_right(b),
        ));
    }

    /// Two states with the same drawing registers draw alike.
    pub proof fn lemma_same_view_draw(&self, other: &Self, base: Seq<u8>, brush: Brush)
        requires
            self.same_view(other),
        ensures
            self.draw_over(base, brush) == other.draw_over(base, brush),
    {
        assert(self.draw_over(base, brush) =~= other.draw_over(base, brush));
    }

    /// An empty brush leaves the screen as it is.
    pub proof fn lemma_draw_empty(&self, base: Seq<u8>)
        ensures
            self.draw_over(base, Map::empty()) == base,
    {
        assert(self.draw_over(base, Map::empty()) =~= base);
    }

    /// Plots one pixel at a world point given in wide coordinates.
    pub(crate) fn pset_wide(&mut self, x: i64, y: i64, color: u8)
        requires
            old(self).wf(),
            wide(x as int),
            wide(y as int),
        ensures
            final(self).wf(),
            final(self).same_except_screen(old(self)),
            final(self).screen_buffer@ == old(self).draw(map![(x as int, y as int) => color]),
    {
        let ghost brush = map![(x as int, y as int) => color];
        let cam_x = x - self.camera_x as i64;
        let cam_y = y - self.camera_y as i64;
        let w = self.target_width;
        let h = self.target_height;
        if cam_x >= self.clip_x0 as i64 && cam_x <= self.clip_x1 as i64 && cam_y
            >= self.clip_y0 as i64 && cam_y <= self.clip_y1 as i64 {
            if cam_x >= 0 && cam_x < w as i64 && cam_y >= 0 && cam_y < h as i64 {
                proof {
                    lemma_raster(w as int, h as int, cam_x as int, cam_y as int);
                }
                let len = self.screen_buffer.len();
                let idx = (cam_y as usize) * (w as usize) + cam_x as usize;
                let mapped_color = self.palette_map[(color % 16) as usize];
                let ghost old_screen = self.screen_buffer@;
                self.screen_buffer.set(idx, mapped_color % 16);
                proof {
                    assert forall|i: int| 0 <= i < old_screen.len() implies #[trigger] self.screen_buffer@[i]
                        == old(self).draw(brush)[i] by {
                        lemma_unraster(w as int, h as int, i);
                        if i != idx {
                            let cx = i % (w as int);
                            let cy = i / (w as int);
                            if cx == cam_x && cy == cam_y {
                                assert(i == cy * w + cx);
                            }
                        }
                    }
                    assert(self.screen_buffer@ =~= old(self).draw(brush));
                }
                return ;
            }
        }
        proof {
            assert forall|i: int| 0 <= i < self.screen_buffer@.len() implies #[trigger] self.screen_buffer@[i]
                == old(self).draw(brush)[i] by {
                lemma_unraster(w as int, h as int, i);
            }
            assert(self.screen_buffer@ =~= old(self).draw(brush));
        }
    }

    /// Plots one pixel: the point is moved by the camera, kept only inside
    /// the clip rectangle and the screen, and coloured through the palette.
    pub fn pset(&mut self, x: i32, y: i32, color: u8)
        requires
            old(self).wf(),
        ensures
            final(self).wf(),
            final(self).same_except_screen(old(self)),
            final(self).screen_buffer@ == old(self).draw(map![(x as int, y as int) => color]),
    {
        self.pset_wide(x as i64, y as i64, color);
    }
}

/// Whether raster index `i` of a `w`-wide screen lies in the box
/// `[x0, x1] x [y0, y1]` of screen coordinates.
pub open spec fn in_box(i: int, w: int, x0: int, y0: int, x1: int, y1: int) -> bool {
    let cx = i % w;
    let cy = i / w;
    x0 <= cx <= x1 && y0 <= cy <= y1
}

/// The identity palette: every colour maps to itself.
pub open spec fn identity_palette() -> Seq<u8> {
    Seq::new(16, |i: int| i as u8)
}

/// The value `v` kept within `[lo, hi]`.
pub open spec fn clamp(v: int, lo: int, hi: int) -> int {
    if v < lo {
        lo
    } else if v > hi {
        hi
    } else {
        v
    }
}

/// The tile stored in map cell `(x, y)` of a 240 x 136 map buffer, or 0
/// outside it.
pub open spec fn map_cell(map: Seq<u8>, x: int, y: int) -> u8 {
    if 0 <= x < 240 && 0 <= y < 136 {
        map[y * 240 + x]
    } else {
        0
    }
}

/// The map buffer as a `w x h` map sees it: the cells outside the map read
/// as 0.
pub open spec fn map_view(map: Seq<u8>, w: int, h: int) -> Seq<u8> {
    Seq::new(map.len(), |i: int| if i % 240 < w && i / 240 < h { map[i] } else { 0u8 })
}

/// The map after writing `tile` to cell `(x, y)` of a `w x h` map: cells
/// outside the map are not written.
pub open spec fn map_after_set(map: Seq<u8>, w: int, h: int, x: int, y: int, tile: u8) -> Seq<u8> {
    if 0 <= x < w && 0 <= y < h {
        map.update(y * 240 + x, tile)
    } else {
        map
    }
}

impl BackendState {
    /// The map as the console mode sees it.
    pub open spec fn tile_map(&self) -> Seq<u8> {
        map_view(self.map_buffer@, self.map_width as int, self.map_height as int)
    }
}

/// What map cell `(x, y)` holds: the stored tile inside the `w x h` map, 0
/// outside it.
pub proof fn lemma_map_view_cell(map: Seq<u8>, w: int, h: int, x: int, y: int)
    requires
        map.len() == 240 * 136,
        1 <= w <= 240,
        1 <= h <= 136,
    ensures
        map_cell(map_view(map, w, h), x, y) == if 0 <= x < w && 0 <= y < h { map[y * 240 + x] } else { 0u8 },
{
    if 0 <= x < 240 && 0 <= y < 136 {
        lemma_raster(240, 136, x, y);
    }
}

fn clamp_i64(v: i64, lo: i64, hi: i64) -> (r: i64)
    requires
        lo <= hi,
    ensures
        r == clamp(v as int, lo as int, hi as int),
{
    if v < lo {
        lo
    } else if v > hi {
        hi
    } else {
        v
    }
}

impl BackendState {
    /// A fresh machine for `mode`: blank screen, sheet and map, identity
    /// palette, colour 6, no camera offset and the clip covering the screen.
    pub fn new(mode: ConsoleMode) -> (s: Self)
        ensures
            s.wf(),
            s.target_width == mode_width(mode),
            s.target_height == mode_height(mode),
            s.screen_buffer@ == Seq::new((mode_width(mode) * mode_height(mode)) as nat, |i: int| 0u8),
            s.sprite_sheet@ == Seq::new(65536, |i: int| 0u8),
            s.map_buffer@ == Seq::new(240 * 136, |i: int| 0u8),
            s.map_width == mode_map_width(mode),
            s.map_height == mode_map_height(mode),
            s.palette_map@ == identity_palette(),
            s.current_color == 6,
            forall|p: int, b: int| 0 <= p < 4 && 0 <= b < 6 ==> !#[trigger] s.buttons[p][b],
            s.camera_x == 0 && s.camera_y == 0,
            s.clip_x0 == 0 && s.clip_y0 == 0,
            s.clip_x1 == mode_width(mode) - 1,
            s.clip_y1 == mode_height(mode) - 1,
            !s.debug_mode,
            s.mouse_x == 0 && s.mouse_y == 0 && !s.mouse_left_clicked,
    {
        let config = EngineConfig::for_mode(mode);
        let mut initial_palette = [0u8; 16];
        let mut i: usize = 0;
        while i < 16
            invariant
                0 <= i <= 16,
                forall|j: int| 0 <= j < i ==> initial_palette@[j] == j as u8,
            decreases 16 - i,
        {
            initial_palette[i] = i as u8;
            i = i + 1;
        }
        assert(initial_palette@ =~= identity_palette());
        let n = (config.screen_width as usize) * (config.screen_height as usize);
        let s = Self {
            screen_buffer: vec![0u8; n],
            sprite_sheet: vec![0u8; 65536],
            map_buffer: vec![0u8; 240 * 136],
            palette_map: initial_palette,
            current_color: 6,
            buttons: [[false; 6]; 4],
            camera_x: 0,
            camera_y: 0,
            clip_x0: 0,
            clip_y0: 0,
            clip_x1: config.screen_width - 1,
            clip_y1: config.screen_height - 1,
            debug_mode: false,
            target_width: config.screen_width,
            target_height: config.screen_height,
            map_width: match mode {
                ConsoleMode::Pico8 => 128,
                ConsoleMode::Tic80 => 240,
            },
            map_height: match mode {
                ConsoleMode::Pico8 => 64,
                ConsoleMode::Tic80 => 136,
            },
            mouse_x: 0,
            mouse_y: 0,
            mouse_left_clicked: false,
        };
        assert(s.screen_buffer@ =~= Seq::new((mode_width(mode) * mode_height(mode)) as nat, |i: int| 0u8));
        assert(s.sprite_sheet@ =~= Seq::new(65536, |i: int| 0u8));
        assert(s.map_buffer@ =~= Seq::new(240 * 136, |i: int| 0u8));
        s
    }

    /// Reads a map cell; cells outside the mode's map read as 0.
    pub fn mget(&self, cel_x: i32, cel_y: i32) -> (t: u8)
        requires
            self.wf(),
        ensures
            t == map_cell(self.tile_map(), cel_x as int, cel_y as int),
    {
        self.mget_wide(cel_x as i64, cel_y as i64)
    }

    /// Writes a map cell; writes outside the mode's map are ignored.
    pub fn mset(&mut self, cel_x: i32, cel_y: i32, tile_id: u8)
        requires
            old(self).wf(),
        ensures
            final(self).wf(),
            final(self).same_view(old(self)),
            final(self).screen_buffer@ == old(self).screen_buffer@,
            final(self).sprite_sheet@ == old(self).sprite_sheet@,
            final(self).current_color == old(self).current_color,
            final(self).same_inputs(old(self)),
            final(self).map_buffer@ == map_after_set(
                old(self).map_buffer@,
                old(self).map_width as int,
                old(self).map_height as int,
                cel_x as int,
                cel_y as int,
                tile_id,
            ),
    {
        if cel_x >= 0 && cel_x < self.map_width && cel_y >= 0 && cel_y < self.map_height {
            self.map_buffer.set((cel_y * 240 + cel_x) as usize, tile_id);
        }
    }

    /// Writes `v` into every screen pixel of the box `[x0, x1] x [y0, y1]`.
    fn fill_box(&mut self, x0: i32, y0: i32, x1: i32, y1: i32, v: u8)
        requires
            old(self).wf(),
            0 <= x0,
            x1 < old(self).target_width,
            0 <= y0,
            y1 < old(self).target_height,
        ensures
            final(self).wf(),
            final(self).same_except_screen(old(self)),
            final(self).screen_buffer@ == Seq::new(
                old(self).screen_buffer@.len(),
                |i: int|
                    if in_box(i, old(self).target_width as int, x0 as int, y0 as int, x1 as int, y1 as int) {
                        v
                    } else {
                        old(self).screen_buffer@[i]
                    },
            ),
    {
        let ghost old_screen = self.screen_buffer@;
        let ghost wi = self.target_width as int;
        let ghost hi = self.target_height as int;
        let w = self.target_width;
        if x0 > x1 || y0 > y1 {
            assert(self.screen_buffer@ =~= Seq::new(
                old_screen.len(),
                |i: int| if in_box(i, wi, x0 as int, y0 as int, x1 as int, y1 as int) { v } else { old_screen[i] },
            ));
            return ;
        }
        let mut y = y0;
        while y <= y1
            invariant
                self.wf(),
                self.same_except_screen(old(self)),
                w == self.target_width,
                wi == w,
                hi == self.target_height,
                old_screen == old(self).screen_buffer@,
                0 <= x0 <= x1 < w,
                0 <= y0 <= y <= y1 + 1,
                y1 < hi,
                self.screen_buffer@ == Seq::new(
                    old_screen.len(),
                    |i: int| if in_box(i, wi, x0 as int, y0 as int, x1 as int, y - 1) { v } else { old_screen[i] },
                ),
            decreases y1 + 1 - y,
        {
            let mut x = x0;
            while x <= x1
                invariant
                    self.wf(),
                    self.same_except_screen(old(self)),
                    w == self.target_width,
                    wi == w,
                    hi == self.target_height,
                    old_screen == old(self).screen_buffer@,
                    0 <= x0 <= x <= x1 + 1,
                    x1 < w,
                    0 <= y0 <= y <= y1,
                    y1 < hi,
                    self.screen_buffer@ == Seq::new(
                        old_screen.len(),
                        |i: int|
                            if in_box(i, wi, x0 as int, y0 as int, x1 as int, y - 1) || in_box(
                                i,
                                wi,
                                x0 as int,
                                y as int,
                                x - 1,
                                y as int,
                            ) {
                                v
                            } else {
                                old_screen[i]
                            },
                    ),
                decreases x1 + 1 - x,
            {
                proof {
                    lemma_raster(wi, hi, x as int, y as int);
                }
                let len = self.screen_buffer.len();
                let idx = (y as usize) * (w as usize) + (x as usize);
                self.screen_buffer.set(idx, v);
                proof {
                    let target = Seq::new(
                        old_screen.len(),
                        |i: int|
                            if in_box(i, wi, x0 as int, y0 as int, x1 as int, y - 1) || in_box(
                                i,
                                wi,
                                x0 as int,
                                y as int,
                                x as int,
                                y as int,
                            ) {
                                v
                            } else {
                                old_screen[i]
                            },
                    );
                    assert forall|i: int| 0 <= i < old_screen.len() implies #[trigger] self.screen_buffer@[i]
                        == target[i] by {
                        lemma_unraster(wi, hi, i);
                        if i != idx {
                            if i % wi == x && i / wi == y {
                                assert(i == y * wi + x);
                            }
                        }
                    }
                    assert(self.screen_buffer@ =~= target);
                }
                x = x + 1;
            }
            proof {
                let target = Seq::new(
                    old_screen.len(),
                    |i: int| if in_box(i, wi, x0 as int, y0 as int, x1 as int, y as int) { v } else { old_screen[i] },
                );
                assert(self.screen_buffer@ =~= target);
            }
            y = y + 1;
        }
    }

    /// Fills the clip rectangle (within the screen) with `color` through the
    /// palette; the camera does not move it.
    pub fn cls(&mut self, color: u8)
        requires
            old(self).wf(),
        ensures
            final(self).wf(),
            final(self).same_except_screen(old(self)),
            final(self).screen_buffer@ == old(self).draw(solid(Set::full(), color)),
    {
        let ghost wi = self.target_width as int;
        let ghost hi = self.target_height as int;
        let c = color % 16;
        let mapped = self.palette_map[c as usize] % 16;
        let x0 = if self.clip_x0 < 0 { 0 } else { self.clip_x0 };
        let y0 = if self.clip_y0 < 0 { 0 } else { self.clip_y0 };
        let x1 = if self.clip_x1 > self.target_width - 1 { self.target_width - 1 } else { self.clip_x1 };
        let y1 = if self.clip_y1 > self.target_height - 1 { self.target_height - 1 } else { self.clip_y1 };
        self.fill_box(x0, y0, x1, y1, mapped);
        proof {
            let target = old(self).draw(solid(Set::full(), color));
            assert forall|i: int| 0 <= i < self.screen_buffer@.len() implies #[trigger] self.screen_buffer@[i]
                == target[i] by {
                lemma_unraster(wi, hi, i);
            }
            assert(self.screen_buffer@ =~= target);
        }
    }

    /// Moves the camera: later drawing is offset by `(-x, -y)`.
    pub fn camera(&mut self, x: i32, y: i32)
        requires
            old(self).wf(),
        ensures
            final(self).wf(),
            final(self).camera_x == x,
            final(self).camera_y == y,
            final(self).screen_buffer@ == old(self).screen_buffer@,
            final(self).sprite_sheet@ == old(self).sprite_sheet@,
            final(self).map_buffer@ == old(self).map_buffer@,
            final(self).clip_x0 == old(self).clip_x0 && final(self).clip_y0 == old(self).clip_y0,
            final(self).clip_x1 == old(self).clip_x1 && final(self).clip_y1 == old(self).clip_y1,
            final(self).target_width == old(self).target_width,
            final(self).target_height == old(self).target_height,
            final(self).palette_map == old(self).palette_map,
            final(self).current_color == old(self).current_color,
            final(self).same_inputs(old(self)),
    {
        self.camera_x = x;
        self.camera_y = y;
    }

    /// Sets the clip rectangle to `w x h` pixels at `(x, y)`, kept on the
    /// screen; a non-positive width or height resets it to the whole screen.
    pub fn clip(&mut self, x: i32, y: i32, w: i32, h: i32)
        requires
            old(self).wf(),
        ensures
            final(self).wf(),
            final(self).screen_buffer@ == old(self).screen_buffer@,
            final(self).sprite_sheet@ == old(self).sprite_sheet@,
            final(self).map_buffer@ == old(self).map_buffer@,
            final(self).camera_x == old(self).camera_x && final(self).camera_y == old(self).camera_y,
            final(self).target_width == old(self).target_width,
            final(self).target_height == old(self).target_height,
            final(self).palette_map == old(self).palette_map,
            final(self).current_color == old(self).current_color,
            final(self).same_inputs(old(self)),
            ({
                let tw = old(self).target_width as int;
                let th = old(self).target_height as int;
                if w <= 0 || h <= 0 {
                    &&& final(self).clip_x0 == 0 && final(self).clip_y0 == 0
                    &&& final(self).clip_x1 == tw - 1 && final(self).clip_y1 == th - 1
                } else {
                    &&& final(self).clip_x0 == clamp(x as int, 0, tw - 1)
                    &&& final(self).clip_y0 == clamp(y as int, 0, th - 1)
                    &&& final(self).clip_x1 == clamp(x + w - 1, 0, tw - 1)
                    &&& final(self).clip_y1 == clamp(y + h - 1, 0, th - 1)
                }
            }),
    {
        if w <= 0 || h <= 0 {
            self.clip_x0 = 0;
            self.clip_y0 = 0;
            self.clip_x1 = self.target_width - 1;
            self.clip_y1 = self.target_height - 1;
        } else {
            let tw = self.target_width as i64 - 1;
            let th = self.target_height as i64 - 1;
            self.clip_x0 = clamp_i64(x as i64, 0, tw) as i32;
            self.clip_y0 = clamp_i64(y as i64, 0, th) as i32;
            self.clip_x1 = clamp_i64(x as i64 + w as i64 - 1, 0, tw) as i32;
            self.clip_y1 = clamp_i64(y as i64 + h as i64 - 1, 0, th) as i32;
        }
    }

    /// Re-routes colour `c0` to `c1`; ignored unless both are below 16.
    pub fn palette(&mut self, c0: u8, c1: u8)
        requires
            old(self).wf(),
        ensures
            final(self).wf(),
            final(self).screen_buffer@ == old(self).screen_buffer@,
            final(self).sprite_sheet@ == old(self).sprite_sheet@,
            final(self).map_buffer@ == old(self).map_buffer@,
            final(self).current_color == old(self).current_color,
            final(self).camera_x == old(self).camera_x && final(self).camera_y == old(self).camera_y,
            final(self).clip_x0 == old(self).clip_x0 && final(self).clip_y0 == old(self).clip_y0,
            final(self).clip_x1 == old(self).clip_x1 && final(self).clip_y1 == old(self).clip_y1,
            final(self).same_inputs(old(self)),
            final(self).palette_map@ == if c0 < 16 && c1 < 16 {
                old(self).palette_map@.update(c0 as int, c1)
            } else {
                old(self).palette_map@
            },
    {
        if c0 < 16 && c1 < 16 {
            self.palette_map[c0 as usize] = c1;
        }
    }

    /// Restores the identity palette.
    pub fn pal_reset(&mut self)
        requires
            old(self).wf(),
        ensures
            final(self).wf(),
            final(self).screen_buffer@ == old(self).screen_buffer@,
            final(self).sprite_sheet@ == old(self).sprite_sheet@,
            final(self).map_buffer@ == old(self).map_buffer@,
            final(self).current_color == old(self).current_color,
            final(self).camera_x == old(self).camera_x && final(self).camera_y == old(self).camera_y,
            final(self).clip_x0 == old(self).clip_x0 && final(self).clip_y0 == old(self).clip_y0,
            final(self).clip_x1 == old(self).clip_x1 && final(self).clip_y1 == old(self).clip_y1,
            final(self).same_inputs(old(self)),
            final(self).palette_map@ == identity_palette(),
    {
        let mut i: usize = 0;
        while i < 16
            invariant
                self.wf(),
                self.screen_buffer@ == old(self).screen_buffer@,
                self.sprite_sheet@ == old(self).sprite_sheet@,
                self.map_buffer@ == old(self).map_buffer@,
                self.current_color == old(self).current_color,
                self.camera_x == old(self).camera_x && self.camera_y == old(self).camera_y,
                self.clip_x0 == old(self).clip_x0 && self.clip_y0 == old(self).clip_y0,
                self.clip_x1 == old(self).clip_x1 && self.clip_y1 == old(self).clip_y1,
                self.same_inputs(old(self)),
                0 <= i <= 16,
                forall|j: int| 0 <= j < i ==> self.palette_map@[j] == j as u8,
            decreases 16 - i,
        {
            self.palette_map[i] = i as u8;
            i = i + 1;
        }
        assert(self.palette_map@ =~= identity_palette());
    }

    /// Reads button `button_idx` of player `player_idx` (player 0 when
    /// omitted, taken modulo 4); buttons from 6 on read as released.
    pub fn btn(&self, button_idx: usize, player_idx: Option<usize>) -> (b: bool)
        ensures
            b == (button_idx < 6 && self.buttons[(match player_idx {
                Some(p) => p,
                None => 0,
            } % 4) as int][button_idx as int]),
    {
        let raw = match player_idx {
            Some(p) => p,
            None => 0,
        };
        let p = raw & 3;
        assert(raw & 3 == raw % 4) by (bit_vector);
        if button_idx < 6 {
            self.buttons[p][button_idx]
        } else {
            false
        }
    }
}

/// `v` moved `n` steps in the direction of `s` (forwards when `s` is
/// positive, backwards otherwise).
pub open spec fn advance(v: int, s: int, n: int) -> int {
    if s > 0 {
        v + n
    } else {
        v - n
    }
}

/// The error term of the Bresenham walk after `nx` horizontal and `ny`
/// vertical steps on a line spanning `a` columns and `b` rows.
pub open spec fn line_err(a: int, b: int, nx: int, ny: int) -> int {
    a * (1 + ny) - b * (1 + nx)
}

/// Whether the Bresenham walk steps horizontally from `(nx, ny)`.
pub open spec fn line_steps_x(a: int, b: int, nx: int, ny: int) -> bool {
    2 * line_err(a, b, nx, ny) >= -b
}

/// Whether the Bresenham walk steps vertically from `(nx, ny)`.
pub open spec fn line_steps_y(a: int, b: int, nx: int, ny: int) -> bool {
    2 * line_err(a, b, nx, ny) <= a
}

/// The points the Bresenham walk plots from step `(nx, ny)` on: it starts
/// at `(x0, y0)`, moves by `sx`/`sy`, and ends after `a` horizontal and
/// `b` vertical steps.
pub open spec fn line_walk(x0: int, y0: int, a: int, b: int, sx: int, sy: int, nx: int, ny: int) -> Set<(int, int)>
    decreases (a - nx) + (b - ny),
    when 0 <= nx <= a && 0 <= ny <= b
    via line_walk_decreases
{
    let p = (advance(x0, sx, nx), advance(y0, sy, ny));
    if nx == a && ny == b {
        Set::empty().insert(p)
    } else {
        let nx2 = if line_steps_x(a, b, nx, ny) { nx + 1 } else { nx };
        let ny2 = if line_steps_y(a, b, nx, ny) { ny + 1 } else { ny };
        line_walk(x0, y0, a, b, sx, sy, nx2, ny2).insert(p)
    }
}

/// A step of the walk never passes the end point and always moves.
pub proof fn lemma_line_step(a: int, b: int, nx: int, ny: int)
    requires
        0 <= nx <= a,
        0 <= ny <= b,
        !(nx == a && ny == b),
    ensures
        line_steps_x(a, b, nx, ny) ==> nx < a,
        line_steps_y(a, b, nx, ny) ==> ny < b,
        line_steps_x(a, b, nx, ny) || line_steps_y(a, b, nx, ny),
{
    if nx == a {
        assert(a * (1 + ny) <= a * b) by (nonlinear_arith)
            requires
                0 <= a,
                1 + ny <= b,
        ;
        assert(b * (1 + nx) == b + a * b) by (nonlinear_arith)
            requires
                nx == a,
        ;
    }
    if ny == b {
        assert(b * (1 + nx) <= b * a) by (nonlinear_arith)
            requires
                0 <= b,
                1 + nx <= a,
        ;
        assert(a * (1 + ny) == a + a * b) by (nonlinear_arith)
            requires
                ny == b,
        ;
    }
}

#[via_fn]
proof fn line_walk_decreases(x0: int, y0: int, a: int, b: int, sx: int, sy: int, nx: int, ny: int) {
    if 0 <= nx <= a && 0 <= ny <= b && !(nx == a && ny == b) {
        lemma_line_step(a, b, nx, ny);
    }
}

/// The pixels `line(x0, y0, x1, y1)` plots: the Bresenham walk from the
/// first end point to the second.
pub open spec fn line_points(x0: int, y0: int, x1: int, y1: int) -> Set<(int, int)> {
    let a = if x1 >= x0 { x1 - x0 } else { x0 - x1 };
    let b = if y1 >= y0 { y1 - y0 } else { y0 - y1 };
    let sx: int = if x0 < x1 { 1 } else { -1 };
    let sy: int = if y0 < y1 { 1 } else { -1 };
    line_walk(x0, y0, a, b, sx, sy, 0, 0)
}

fn abs_i64(v: i64) -> (r: i64)
    requires
        v > i64::MIN,
    ensures
        r == if v >= 0 { v as int } else { -v },
{
    if v >= 0 {
        v
    } else {
        -v
    }
}

impl BackendState {
    /// Drawing one point over the current screen, then a solid brush over
    /// the result, is drawing the brush extended by that point.
    proof fn lemma_plot_then_rest(&self, base: Seq<u8>, p: (int, int), rest: Set<(int, int)>, color: u8)
        ensures
            self.draw_over(self.draw_over(base, map![p => color]), solid(rest, color))
                == self.draw_over(base, solid(rest.insert(p), color)),
    {
        self.lemma_draw_compose(base, map![p => color], solid(rest, color));
        assert(map![p => color].union_prefer_right(solid(rest, color)) =~= solid(rest.insert(p), color));
    }

    /// Draws a line between two wide end points with Bresenham's algorithm.
    pub(crate) fn line_wide(&mut self, x0: i64, y0: i64, x1: i64, y1: i64, color: u8)
        requires
            old(self).wf(),
            wide(x0 as int),
            wide(y0 as int),
            wide(x1 as int),
            wide(y1 as int),
        ensures
            final(self).wf(),
            final(self).same_except_screen(old(self)),
            final(self).screen_buffer@ == old(self).draw(
                solid(line_points(x0 as int, y0 as int, x1 as int, y1 as int), color),
            ),
    {
        let dx = abs_i64(x1 - x0);
        let dy = -abs_i64(y1 - y0);
        let sx: i64 = if x0 < x1 { 1 } else { -1 };
        let sy: i64 = if y0 < y1 { 1 } else { -1 };
        let mut err = dx + dy;
        let mut x = x0;
        let mut y = y0;
        let ghost a = dx as int;
        let ghost b = -dy;
        let ghost mut nx: int = 0;
        let ghost mut ny: int = 0;
        let ghost goal = old(self).draw(solid(line_points(x0 as int, y0 as int, x1 as int, y1 as int), color));
        assert(err == line_err(a, b, 0, 0)) by (nonlinear_arith)
            requires
                err == a - b,
        ;
        loop
            invariant_except_break
                self.wf(),
                self.same_except_screen(old(self)),
                wide(x0 as int),
                wide(y0 as int),
                wide(x1 as int),
                wide(y1 as int),
                a == dx,
                b == -dy,
                dx == if x1 >= x0 { x1 - x0 } else { x0 - x1 },
                -dy == if y1 >= y0 { y1 - y0 } else { y0 - y1 },
                sx == if x0 < x1 { 1int } else { -1int },
                sy == if y0 < y1 { 1int } else { -1int },
                goal == old(self).draw(solid(line_points(x0 as int, y0 as int, x1 as int, y1 as int), color)),
                0 <= nx <= a,
                0 <= ny <= b,
                x == advance(x0 as int, sx as int, nx),
                y == advance(y0 as int, sy as int, ny),
                err == line_err(a, b, nx, ny),
                -2 * b <= err <= 2 * a,
                old(self).draw_over(
                    self.screen_buffer@,
                    solid(line_walk(x0 as int, y0 as int, a, b, sx as int, sy as int, nx, ny), color),
                ) == goal,
            ensures
                self.wf(),
                self.same_except_screen(old(self)),
                self.screen_buffer@ == goal,
            decreases (a - nx) + (b - ny),
        {
            let ghost before = self.screen_buffer@;
            let ghost pre = *self;
            self.pset_wide(x, y, color);
            proof {
                pre.lemma_same_view_draw(old(self), before, map![(x as int, y as int) => color]);
            }
            if x == x1 && y == y1 {
                proof {
                    old(self).lemma_plot_then_rest(before, (x as int, y as int), Set::empty(), color);
                    old(self).lemma_draw_empty(self.screen_buffer@);
                    assert(Set::<(int, int)>::empty().insert((x as int, y as int)) =~= line_walk(
                        x0 as int,
                        y0 as int,
                        a,
                        b,
                        sx as int,
                        sy as int,
                        nx,
                        ny,
                    ));
                    assert(old(self).draw_over(self.screen_buffer@, solid(Set::empty(), color))
                        =~= self.screen_buffer@);
                }
                break ;
            }
            proof {
                lemma_line_step(a, b, nx, ny);
            }
            let ghost stx = line_steps_x(a, b, nx, ny);
            let ghost sty = line_steps_y(a, b, nx, ny);
            let ghost nx2 = if stx { nx + 1 } else { nx };
            let ghost ny2 = if sty { ny + 1 } else { ny };
            proof {
                old(self).lemma_plot_then_rest(
                    before,
                    (x as int, y as int),
                    line_walk(x0 as int, y0 as int, a, b, sx as int, sy as int, nx2, ny2),
                    color,
                );
            }
            let e2 = 2 * err;
            if e2 >= dy {
                err = err + dy;
                x = x + sx;
            }
            if e2 <= dx {
                err = err + dx;
                y = y + sy;
            }
            proof {
                assert(line_err(a, b, nx2, ny2) == line_err(a, b, nx, ny) - (if stx { b } else { 0 }) + (if sty {
                    a
                } else {
                    0
                })) by (nonlinear_arith)
                    requires
                        nx2 == (if stx { nx + 1 } else { nx }),
                        ny2 == (if sty { ny + 1 } else { ny }),
                ;
                nx = nx2;
                ny = ny2;
            }
        }
    }

    /// Draws a line from `(x0, y0)` to `(x1, y1)`, both end points included,
    /// plotting the pixels of Bresenham's walk.
    pub fn line(&mut self, x0: i32, y0: i32, x1: i32, y1: i32, color: u8)
        requires
            old(self).wf(),
        ensures
            final(self).wf(),
            final(self).same_except_screen(old(self)),
            final(self).screen_buffer@ == old(self).draw(
                solid(line_points(x0 as int, y0 as int, x1 as int, y1 as int), color),
            ),
    {
        self.line_wide(x0 as i64, y0 as i64, x1 as i64, y1 as i64, color);
    }
}

/// The smaller of two integers.
pub open spec fn min_int(a: int, b: int) -> int {
    if a <= b {
        a
    } else {
        b
    }
}

/// The larger of two integers.
pub open spec fn max_int(a: int, b: int) -> int {
    if a >= b {
        a
    } else {
        b
    }
}

/// Every point of the box spanned by two corners, edges included.
pub open spec fn box_points(x0: int, y0: int, x1: int, y1: int) -> Set<(int, int)> {
    Set::new(
        |p: (int, int)|
            min_int(x0, x1) <= p.0 <= max_int(x0, x1) && min_int(y0, y1) <= p.1 <= max_int(y0, y1),
    )
}

/// The points on the edges of the box spanned by two corners.
pub open spec fn box_border(x0: int, y0: int, x1: int, y1: int) -> Set<(int, int)> {
    Set::new(
        |p: (int, int)|
            box_points(x0, y0, x1, y1).contains(p) && (p.0 == min_int(x0, x1) || p.0 == max_int(x0, x1)
                || p.1 == min_int(y0, y1) || p.1 == max_int(y0, y1)),
    )
}

/// The horizontal run of points from `x0` to `x1` (`x0 <= x1`) on row `y`.
pub open spec fn hrun(x0: int, x1: int, y: int) -> Set<(int, int)> {
    Set::new(|p: (int, int)| p.1 == y && x0 <= p.0 <= x1)
}

/// The vertical run of points from `y0` to `y1` (`y0 <= y1`) on column `x`.
pub open spec fn vrun(x: int, y0: int, y1: int) -> Set<(int, int)> {
    Set::new(|p: (int, int)| p.0 == x && y0 <= p.1 <= y1)
}

/// A Bresenham walk with no vertical extent only steps sideways.
proof fn lemma_walk_horizontal(x0: int, y0: int, a: int, sy: int, nx: int)
    requires
        0 <= nx <= a,
    ensures
        line_walk(x0, y0, a, 0, 1, sy, nx, 0) == hrun(x0 + nx, x0 + a, y0),
    decreases a - nx,
{
    if nx < a {
        assert(line_steps_x(a, 0, nx, 0)) by (nonlinear_arith)
            requires
                0 <= nx < a,
        ;
        assert(!line_steps_y(a, 0, nx, 0)) by (nonlinear_arith)
            requires
                0 <= nx < a,
        ;
        lemma_walk_horizontal(x0, y0, a, sy, nx + 1);
    }
    assert(line_walk(x0, y0, a, 0, 1, sy, nx, 0) =~= hrun(x0 + nx, x0 + a, y0));
}

/// A Bresenham walk with no horizontal extent only steps along its column.
proof fn lemma_walk_vertical(x0: int, y0: int, b: int, sx: int, ny: int)
    requires
        0 <= ny <= b,
    ensures
        line_walk(x0, y0, 0, b, sx, 1, 0, ny) == vrun(x0, y0 + ny, y0 + b),
    decreases b - ny,
{
    if ny < b {
        assert(!line_steps_x(0, b, 0, ny)) by (nonlinear_arith)
            requires
                0 <= ny < b,
        ;
        assert(line_steps_y(0, b, 0, ny)) by (nonlinear_arith)
            requires
                0 <= ny < b,
        ;
        lemma_walk_vertical(x0, y0, b, sx, ny + 1);
    }
    assert(line_walk(x0, y0, 0, b, sx, 1, 0, ny) =~= vrun(x0, y0 + ny, y0 + b));
}

/// A line along a row plots exactly the run between its end points.
pub proof fn lemma_line_horizontal(x0: int, x1: int, y: int)
    requires
        x0 <= x1,
    ensures
        line_points(x0, y, x1, y) == hrun(x0, x1, y),
{
    if x0 < x1 {
        lemma_walk_horizontal(x0, y, x1 - x0, -1, 0);
    } else {
        assert(line_points(x0, y, x1, y) =~= hrun(x0, x1, y));
    }
}

/// A line along a column plots exactly the run between its end points.
pub proof fn lemma_line_vertical(x: int, y0: int, y1: int)
    requires
        y0 <= y1,
    ensures
        line_points(x, y0, x, y1) == vrun(x, y0, y1),
{
    if y0 < y1 {
        lemma_walk_vertical(x, y0, y1 - y0, -1, 0);
    } else {
        assert(line_points(x, y0, x, y1) =~= vrun(x, y0, y1));
    }
}

/// The eight points the midpoint circle plots for one step `(x, y)`.
pub open spec fn circle_ring(xc: int, yc: int, x: int, y: int) -> Set<(int, int)> {
    Set::empty().insert((xc + x, yc + y)).insert((xc - x, yc + y)).insert((xc + x, yc - y)).insert(
        (xc - x, yc - y),
    ).insert((xc + y, yc + x)).insert((xc - y, yc + x)).insert((xc + y, yc - x)).insert((xc - y, yc - x))
}

/// The four horizontal lines the filled circle draws for one step `(x, y)`.
pub open spec fn circle_spans(xc: int, yc: int, x: int, y: int) -> Set<(int, int)> {
    line_points(xc - x, yc + y, xc + x, yc + y).union(line_points(xc - x, yc - y, xc + x, yc - y)).union(
        line_points(xc - y, yc + x, xc + y, yc + x),
    ).union(line_points(xc - y, yc - x, xc + y, yc - x))
}

/// The decision variable of the midpoint circle after stepping from `(x, y)`.
pub open spec fn circle_next_d(x: int, y: int, d: int) -> int {
    if d > 0 {
        d + 4 * ((x + 1) - (y - 1)) + 10
    } else {
        d + 4 * (x + 1) + 6
    }
}

/// The row of the midpoint circle after stepping from `(x, y)`.
pub open spec fn circle_next_y(y: int, d: int) -> int {
    if d > 0 {
        y - 1
    } else {
        y
    }
}

/// The points the midpoint circle draws from step `(x, y, d)` on: the
/// ring (or spans, when `filled`) of each step while `y >= x`, and of the
/// step that ends the walk.
pub open spec fn circle_walk(xc: int, yc: int, x: int, y: int, d: int, filled: bool) -> Set<(int, int)>
    decreases (if y >= x { y - x + 1 } else { 0 }),
{
    let here = if filled {
        circle_spans(xc, yc, x, y)
    } else {
        circle_ring(xc, yc, x, y)
    };
    if y >= x {
        here.union(circle_walk(xc, yc, x + 1, circle_next_y(y, d), circle_next_d(x, y, d), filled))
    } else {
        here
    }
}

/// The points `circ` (or `circfill`, when `filled`) draws for a circle of
/// radius `r` around `(xc, yc)`; nothing for a negative radius.
pub open spec fn circle_points(xc: int, yc: int, r: int, filled: bool) -> Set<(int, int)> {
    if r < 0 {
        Set::empty()
    } else {
        circle_walk(xc, yc, 0, r, 3 - 2 * r, filled)
    }
}

impl BackendState {
    /// Drawing more points in the same colour over a screen that already
    /// shows some is drawing their union.
    pub proof fn lemma_solid_chain(&self, base: Seq<u8>, a: Set<(int, int)>, b: Set<(int, int)>, color: u8)
        ensures
            self.draw_over(self.draw_over(base, solid(a, color)), solid(b, color)) == self.draw_over(
                base,
                solid(a.union(b), color),
            ),
    {
        self.lemma_draw_compose(base, solid(a, color), solid(b, color));
        assert(solid(a, color).union_prefer_right(solid(b, color)) =~= solid(a.union(b), color));
    }

    /// Plots one point on top of what has been drawn so far.
    pub(crate) fn plot_into(
        &mut self,
        x: i64,
        y: i64,
        color: u8,
        Ghost(base): Ghost<Seq<u8>>,
        Ghost(done): Ghost<Set<(int, int)>>,
    )
        requires
            old(self).wf(),
            wide(x as int),
            wide(y as int),
            old(self).screen_buffer@ == old(self).draw_over(base, solid(done, color)),
        ensures
            final(self).wf(),
            final(self).same_except_screen(old(self)),
            final(self).screen_buffer@ == final(self).draw_over(base, solid(done.insert((x as int, y as int)), color)),
    {
        let ghost pre = *self;
        self.pset_wide(x, y, color);
        proof {
            pre.lemma_plot_then_rest(pre.screen_buffer@, (x as int, y as int), Set::empty(), color);
            pre.lemma_draw_empty(self.screen_buffer@);
            assert(solid(Set::<(int, int)>::empty(), color) =~= Map::empty());
            assert(Set::<(int, int)>::empty().insert((x as int, y as int)) =~= set![(x as int, y as int)]);
            pre.lemma_solid_chain(base, done, set![(x as int, y as int)], color);
            assert(done.union(set![(x as int, y as int)]) =~= done.insert((x as int, y as int)));
            self.lemma_same_view_draw(&pre, base, solid(done.insert((x as int, y as int)), color));
        }
    }

    /// Draws a line on top of what has been drawn so far.
    pub(crate) fn line_into(
        &mut self,
        x0: i64,
        y0: i64,
        x1: i64,
        y1: i64,
        color: u8,
        Ghost(base): Ghost<Seq<u8>>,
        Ghost(done): Ghost<Set<(int, int)>>,
    )
        requires
            old(self).wf(),
            wide(x0 as int),
            wide(y0 as int),
            wide(x1 as int),
            wide(y1 as int),
            old(self).screen_buffer@ == old(self).draw_over(base, solid(done, color)),
        ensures
            final(self).wf(),
            final(self).same_except_screen(old(self)),
            final(self).screen_buffer@ == final(self).draw_over(
                base,
                solid(done.union(line_points(x0 as int, y0 as int, x1 as int, y1 as int)), color),
            ),
    {
        self.line_wide(x0, y0, x1, y1, color);
        proof {
            old(self).lemma_solid_chain(base, done, line_points(x0 as int, y0 as int, x1 as int, y1 as int), color);
            self.lemma_same_view_draw(
                old(self),
                base,
                solid(done.union(line_points(x0 as int, y0 as int, x1 as int, y1 as int)), color),
            );
        }
    }

    /// Fills the box spanned by two corners, clipped and moved by the camera.
    pub fn rectfill(&mut self, x0: i32, y0: i32, x1: i32, y1: i32, color: u8)
        requires
            old(self).wf(),
        ensures
            final(self).wf(),
            final(self).same_except_screen(old(self)),
            final(self).screen_buffer@ == old(self).draw(
                solid(box_points(x0 as int, y0 as int, x1 as int, y1 as int), color),
            ),
    {
        let ghost wi = self.target_width as int;
        let ghost hi = self.target_height as int;
        let start_x = if x0 <= x1 { x0 } else { x1 };
        let end_x = if x0 >= x1 { x0 } else { x1 };
        let start_y = if y0 <= y1 { y0 } else { y1 };
        let end_y = if y0 >= y1 { y0 } else { y1 };
        let cam_start_x = start_x as i64 - self.camera_x as i64;
        let cam_end_x = end_x as i64 - self.camera_x as i64;
        let cam_start_y = start_y as i64 - self.camera_y as i64;
        let cam_end_y = end_y as i64 - self.camera_y as i64;
        let mut clip_min_x = if cam_start_x > self.clip_x0 as i64 { cam_start_x } else { self.clip_x0 as i64 };
        if clip_min_x < 0 {
            clip_min_x = 0;
        }
        let mut clip_max_x = if cam_end_x < self.clip_x1 as i64 { cam_end_x } else { self.clip_x1 as i64 };
        if clip_max_x > self.target_width as i64 - 1 {
            clip_max_x = self.target_width as i64 - 1;
        }
        let mut clip_min_y = if cam_start_y > self.clip_y0 as i64 { cam_start_y } else { self.clip_y0 as i64 };
        if clip_min_y < 0 {
            clip_min_y = 0;
        }
        let mut clip_max_y = if cam_end_y < self.clip_y1 as i64 { cam_end_y } else { self.clip_y1 as i64 };
        if clip_max_y > self.target_height as i64 - 1 {
            clip_max_y = self.target_height as i64 - 1;
        }
        let ghost target = old(self).draw(solid(box_points(x0 as int, y0 as int, x1 as int, y1 as int), color));
        if clip_min_x > clip_max_x || clip_min_y > clip_max_y {
            proof {
                assert forall|i: int| 0 <= i < self.screen_buffer@.len() implies #[trigger] self.screen_buffer@[i]
                    == target[i] by {
                    lemma_unraster(wi, hi, i);
                }
                assert(self.screen_buffer@ =~= target);
            }
            return ;
        }
        let mapped_color = self.palette_map[(color % 16) as usize] % 16;
        self.fill_box(
            clip_min_x as i32,
            clip_min_y as i32,
            clip_max_x as i32,
            clip_max_y as i32,
            mapped_color,
        );
        proof {
            assert forall|i: int| 0 <= i < self.screen_buffer@.len() implies #[trigger] self.screen_buffer@[i]
                == target[i] by {
                lemma_unraster(wi, hi, i);
            }
            assert(self.screen_buffer@ =~= target);
        }
    }

    /// Draws the outline of the box spanned by two corners.
    pub fn rect(&mut self, x0: i32, y0: i32, x1: i32, y1: i32, color: u8)
        requires
            old(self).wf(),
        ensures
            final(self).wf(),
            final(self).same_except_screen(old(self)),
            final(self).screen_buffer@ == old(self).draw(
                solid(box_border(x0 as int, y0 as int, x1 as int, y1 as int), color),
            ),
    {
        let start_x = if x0 <= x1 { x0 } else { x1 };
        let end_x = if x0 >= x1 { x0 } else { x1 };
        let start_y = if y0 <= y1 { y0 } else { y1 };
        let end_y = if y0 >= y1 { y0 } else { y1 };
        let ghost base = self.screen_buffer@;
        let ghost border = box_border(x0 as int, y0 as int, x1 as int, y1 as int);
        proof {
            old(self).lemma_draw_empty(base);
            assert(solid(Set::<(int, int)>::empty(), color) =~= Map::empty());
        }
        if start_x == end_x && start_y == end_y {
            self.plot_into(start_x as i64, start_y as i64, color, Ghost(base), Ghost(Set::empty()));
            proof {
                assert(Set::<(int, int)>::empty().insert((start_x as int, start_y as int)) =~= border);
                self.lemma_same_view_draw(old(self), base, solid(border, color));
            }
            return ;
        }
        let ghost top = hrun(start_x as int, end_x as int, start_y as int);
        let ghost bottom = hrun(start_x as int, end_x as int, end_y as int);
        proof {
            lemma_line_horizontal(start_x as int, end_x as int, start_y as int);
            lemma_line_horizontal(start_x as int, end_x as int, end_y as int);
        }
        self.line_into(
            start_x as i64,
            start_y as i64,
            end_x as i64,
            start_y as i64,
            color,
            Ghost(base),
            Ghost(Set::empty()),
        );
        self.line_into(
            start_x as i64,
            end_y as i64,
            end_x as i64,
            end_y as i64,
            color,
            Ghost(base),
            Ghost(Set::empty().union(top)),
        );
        let ghost drawn = Set::<(int, int)>::empty().union(top).union(bottom);
        if end_y as i64 - start_y as i64 > 1 {
            let ghost left = vrun(start_x as int, start_y + 1, end_y - 1);
            let ghost right = vrun(end_x as int, start_y + 1, end_y - 1);
            proof {
                lemma_line_vertical(start_x as int, start_y + 1, end_y - 1);
                lemma_line_vertical(end_x as int, start_y + 1, end_y - 1);
            }
            self.line_into(
                start_x as i64,
                start_y as i64 + 1,
                start_x as i64,
                end_y as i64 - 1,
                color,
                Ghost(base),
                Ghost(drawn),
            );
            self.line_into(
                end_x as i64,
                start_y as i64 + 1,
                end_x as i64,
                end_y as i64 - 1,
                color,
                Ghost(base),
                Ghost(drawn.union(left)),
            );
            proof {
                assert(drawn.union(left).union(right) =~= border);
                self.lemma_same_view_draw(old(self), base, solid(border, color));
            }
        } else {
            proof {
                assert(drawn =~= border);
                self.lemma_same_view_draw(old(self), base, solid(border, color));
            }
        }
    }

    /// Plots the eight symmetric points of one midpoint-circle step.
    fn draw_circle_pts(&mut self, xc: i64, yc: i64, x: i64, y: i64, c: u8)
        requires
            old(self).wf(),
            -0x1_0000_0000 <= xc <= 0x1_0000_0000,
            -0x1_0000_0000 <= yc <= 0x1_0000_0000,
            -0x1_0000_0000 <= x <= 0x1_0000_0000,
            -0x1_0000_0000 <= y <= 0x1_0000_0000,
        ensures
            final(self).wf(),
            final(self).same_except_screen(old(self)),
            final(self).screen_buffer@ == old(self).draw(solid(circle_ring(xc as int, yc as int, x as int, y as int), c)),
    {
        let ghost base = self.screen_buffer@;
        proof {
            old(self).lemma_draw_empty(base);
            assert(solid(Set::<(int, int)>::empty(), c) =~= Map::empty());
        }
        let ghost s0 = Set::<(int, int)>::empty();
        self.plot_into(xc + x, yc + y, c, Ghost(base), Ghost(s0));
        let ghost s1 = s0.insert(((xc + x) as int, (yc + y) as int));
        self.plot_into(xc - x, yc + y, c, Ghost(base), Ghost(s1));
        let ghost s2 = s1.insert(((xc - x) as int, (yc + y) as int));
        self.plot_into(xc + x, yc - y, c, Ghost(base), Ghost(s2));
        let ghost s3 = s2.insert(((xc + x) as int, (yc - y) as int));
        self.plot_into(xc - x, yc - y, c, Ghost(base), Ghost(s3));
        let ghost s4 = s3.insert(((xc - x) as int, (yc - y) as int));
        self.plot_into(xc + y, yc + x, c, Ghost(base), Ghost(s4));
        let ghost s5 = s4.insert(((xc + y) as int, (yc + x) as int));
        self.plot_into(xc - y, yc + x, c, Ghost(base), Ghost(s5));
        let ghost s6 = s5.insert(((xc - y) as int, (yc + x) as int));
        self.plot_into(xc + y, yc - x, c, Ghost(base), Ghost(s6));
        let ghost s7 = s6.insert(((xc + y) as int, (yc - x) as int));
        self.plot_into(xc - y, yc - x, c, Ghost(base), Ghost(s7));
        proof {
            assert(s7.insert(((xc - y) as int, (yc - x) as int)) =~= circle_ring(xc as int, yc as int, x as int, y as int));
            self.lemma_same_view_draw(old(self), base, solid(circle_ring(xc as int, yc as int, x as int, y as int), c));
        }
    }

    /// Draws the four horizontal spans of one filled-circle step.
    fn draw_circle_lines(&mut self, xc: i64, yc: i64, x: i64, y: i64, c: u8)
        requires
            old(self).wf(),
            -0x1_0000_0000 <= xc <= 0x1_0000_0000,
            -0x1_0000_0000 <= yc <= 0x1_0000_0000,
            -0x1_0000_0000 <= x <= 0x1_0000_0000,
            -0x1_0000_0000 <= y <= 0x1_0000_0000,
        ensures
            final(self).wf(),
            final(self).same_except_screen(old(self)),
            final(self).screen_buffer@ == old(self).draw(solid(circle_spans(xc as int, yc as int, x as int, y as int), c)),
    {
        let ghost base = self.screen_buffer@;
        proof {
            old(self).lemma_draw_empty(base);
            assert(solid(Set::<(int, int)>::empty(), c) =~= Map::empty());
        }
        let ghost s0 = Set::<(int, int)>::empty();
        self.line_into(xc - x, yc + y, xc + x, yc + y, c, Ghost(base), Ghost(s0));
        let ghost s1 = s0.union(line_points((xc - x) as int, (yc + y) as int, (xc + x) as int, (yc + y) as int));
        self.line_into(xc - x, yc - y, xc + x, yc - y, c, Ghost(base), Ghost(s1));
        let ghost s2 = s1.union(line_points((xc - x) as int, (yc - y) as int, (xc + x) as int, (yc - y) as int));
        self.line_into(xc - y, yc + x, xc + y, yc + x, c, Ghost(base), Ghost(s2));
        let ghost s3 = s2.union(line_points((xc - y) as int, (yc + x) as int, (xc + y) as int, (yc + x) as int));
        self.line_into(xc - y, yc - x, xc + y, yc - x, c, Ghost(base), Ghost(s3));
        proof {
            assert(s3.union(line_points((xc - y) as int, (yc - x) as int, (xc + y) as int, (yc - x) as int))
                =~= circle_spans(xc as int, yc as int, x as int, y as int));
            self.lemma_same_view_draw(old(self), base, solid(circle_spans(xc as int, yc as int, x as int, y as int), c));
        }
    }

    /// Runs the midpoint circle, drawing rings or spans.
    fn circle_impl(&mut self, xc: i32, yc: i32, r: i32, color: u8, filled: bool)
        requires
            old(self).wf(),
        ensures
            final(self).wf(),
            final(self).same_except_screen(old(self)),
            final(self).screen_buffer@ == old(self).draw(solid(circle_points(xc as int, yc as int, r as int, filled), color)),
    {
        let ghost goal = old(self).draw(solid(circle_points(xc as int, yc as int, r as int, filled), color));
        if r < 0 {
            proof {
                old(self).lemma_draw_empty(self.screen_buffer@);
                assert(solid(Set::<(int, int)>::empty(), color) =~= Map::empty());
            }
            return ;
        }
        let mut x: i64 = 0;
        let mut y: i64 = r as i64;
        let mut d: i128 = 3 - 2 * (r as i128);
        let ghost ri = r as int;
        loop
            invariant_except_break
                self.wf(),
                self.same_except_screen(old(self)),
                0 <= ri == r,
                goal == old(self).draw(solid(circle_points(xc as int, yc as int, r as int, filled), color)),
                0 <= x <= ri + 1,
                x - 2 <= y <= ri,
                -(3 + 2 * ri + x * (8 * ri + 26)) <= d <= 3 + 2 * ri + x * (8 * ri + 26),
                old(self).draw_over(
                    self.screen_buffer@,
                    solid(circle_walk(xc as int, yc as int, x as int, y as int, d as int, filled), color),
                ) == goal,
            ensures
                self.wf(),
                self.same_except_screen(old(self)),
                self.screen_buffer@ == goal,
            decreases (if y >= x { y - x + 1 } else { 0 }),
        {
            let ghost before = self.screen_buffer@;
            let ghost pre = *self;
            let ghost here = if filled {
                circle_spans(xc as int, yc as int, x as int, y as int)
            } else {
                circle_ring(xc as int, yc as int, x as int, y as int)
            };
            if filled {
                self.draw_circle_lines(xc as i64, yc as i64, x, y, color);
            } else {
                self.draw_circle_pts(xc as i64, yc as i64, x, y, color);
            }
            proof {
                pre.lemma_same_view_draw(old(self), before, solid(here, color));
            }
            if !(y >= x) {
                proof {
                    old(self).lemma_solid_chain(before, here, Set::empty(), color);
                    assert(here.union(Set::empty()) =~= here);
                    old(self).lemma_draw_empty(self.screen_buffer@);
                    assert(solid(Set::<(int, int)>::empty(), color) =~= Map::empty());
                }
                break ;
            }
            let ghost rest = circle_walk(
                xc as int,
                yc as int,
                x + 1,
                circle_next_y(y as int, d as int),
                circle_next_d(x as int, y as int, d as int),
                filled,
            );
            proof {
                old(self).lemma_solid_chain(before, here, rest, color);
                assert((x + 1) * (8 * ri + 26) == x * (8 * ri + 26) + 8 * ri + 26) by (nonlinear_arith);
                assert(x * (8 * ri + 26) <= (ri + 1) * (8 * ri + 26)) by (nonlinear_arith)
                    requires
                        0 <= x <= ri + 1,
                        0 <= ri,
                ;
                assert((ri + 1) * (8 * ri + 26) <= 0x1_0000_0000 * 0x10_0000_0000) by (nonlinear_arith)
                    requires
                        0 <= ri < 0x8000_0000,
                ;
            }
            x = x + 1;
            if d > 0 {
                y = y - 1;
                d = d + 4 * ((x - y) as i128) + 10;
            } else {
                d = d + 4 * (x as i128) + 6;
            }
        }
    }

    /// Draws the outline of a circle with the midpoint algorithm.
    pub fn circ(&mut self, xc: i32, yc: i32, r: i32, color: u8)
        requires
            old(self).wf(),
        ensures
            final(self).wf(),
            final(self).same_except_screen(old(self)),
            final(self).screen_buffer@ == old(self).draw(solid(circle_points(xc as int, yc as int, r as int, false), color)),
    {
        self.circle_impl(xc, yc, r, color, false);
    }

    /// Draws a filled circle as horizontal spans of the midpoint algorithm.
    pub fn circfill(&mut self, xc: i32, yc: i32, r: i32, color: u8)
        requires
            old(self).wf(),
        ensures
            final(self).wf(),
            final(self).same_except_screen(old(self)),
            final(self).screen_buffer@ == old(self).draw(solid(circle_points(xc as int, yc as int, r as int, true), color)),
    {
        self.circle_impl(xc, yc, r, color, true);
    }
}

/// The sprite-sheet pixel at `(x, y)`, or 0 (transparent) off the sheet.
pub open spec fn sheet_at(sheet: Seq<u8>, x: int, y: int) -> u8 {
    if 0 <= x < 256 && 0 <= y < 256 {
        sheet[y * 256 + x]
    } else {
        0
    }
}

/// The source coordinate that destination offset `x` samples when a run of
/// `sw` source pixels starting at `s` is stretched over `dw` destination
/// pixels (nearest neighbour), mirrored when `flip`.
pub open spec fn stretch_src(s: int, sw: int, dw: int, x: int, flip: bool) -> int {
    let sample = (x * sw) / dw;
    if flip {
        s + (sw - 1 - sample)
    } else {
        s + sample
    }
}

/// What `sspr_ext` draws: the `sw x sh` sheet region at `(sx, sy)`
/// stretched over the `dw x dh` destination at `(dx, dy)`, with colour 0
/// (and off-sheet source pixels) transparent.
pub open spec fn stretch_brush(
    sheet: Seq<u8>,
    sx: int,
    sy: int,
    sw: int,
    sh: int,
    dx: int,
    dy: int,
    dw: int,
    dh: int,
    fx: bool,
    fy: bool,
) -> Brush {
    Map::new(
        |p: (int, int)|
            sw > 0 && sh > 0 && dw > 0 && dh > 0 && 0 <= p.0 - dx < dw && 0 <= p.1 - dy < dh && sheet_at(
                sheet,
                stretch_src(sx, sw, dw, p.0 - dx, fx),
                stretch_src(sy, sh, dh, p.1 - dy, fy),
            ) != 0,
        |p: (int, int)|
            sheet_at(sheet, stretch_src(sx, sw, dw, p.0 - dx, fx), stretch_src(sy, sh, dh, p.1 - dy, fy)),
    )
}

/// What `spr_ext` draws: the 8 x 8 tile `n` of the sheet (16 tiles to a
/// row) at `(x, y)`, mirrored as asked, colour 0 transparent.
pub open spec fn sprite_brush(sheet: Seq<u8>, n: int, x: int, y: int, fx: bool, fy: bool) -> Brush {
    Map::new(
        |p: (int, int)|
            0 <= p.0 - x < 8 && 0 <= p.1 - y < 8 && sheet_at(
                sheet,
                (n % 16) * 8 + (if fx { 7 - (p.0 - x) } else { p.0 - x }),
                (n / 16) * 8 + (if fy { 7 - (p.1 - y) } else { p.1 - y }),
            ) != 0,
        |p: (int, int)|
            sheet_at(
                sheet,
                (n % 16) * 8 + (if fx { 7 - (p.0 - x) } else { p.0 - x }),
                (n / 16) * 8 + (if fy { 7 - (p.1 - y) } else { p.1 - y }),
            ),
    )
}

/// The part of `brush` whose destination offset from `(ox, oy)` comes
/// before `(x, y)` in row-major order.
pub open spec fn brush_before(brush: Brush, ox: int, oy: int, x: int, y: int) -> Brush {
    brush.restrict(
        Set::new(|p: (int, int)| p.1 - oy < y || (p.1 - oy == y && p.0 - ox < x)),
    )
}

/// The brush of one map cell: the sprite of its tile, unless the tile is 0.
pub open spec fn cell_brush(
    sheet: Seq<u8>,
    map: Seq<u8>,
    cel_x: int,
    cel_y: int,
    scr_x: int,
    scr_y: int,
    cx: int,
    cy: int,
) -> Brush {
    let t = map_cell(map, cel_x + cx, cel_y + cy);
    if t != 0 {
        sprite_brush(sheet, t as int, scr_x + cx * 8, scr_y + cy * 8, false, false)
    } else {
        Map::empty()
    }
}

/// The cells `0 .. n` of map row `cy`, drawn left to right.
pub open spec fn map_row_brush(
    sheet: Seq<u8>,
    map: Seq<u8>,
    cel_x: int,
    cel_y: int,
    scr_x: int,
    scr_y: int,
    cy: int,
    n: int,
) -> Brush
    decreases n,
{
    if n <= 0 {
        Map::empty()
    } else {
        map_row_brush(sheet, map, cel_x, cel_y, scr_x, scr_y, cy, n - 1).union_prefer_right(
            cell_brush(sheet, map, cel_x, cel_y, scr_x, scr_y, n - 1, cy),
        )
    }
}

/// What `map` draws: rows `0 .. m` of `w` cells each, top to bottom.
pub open spec fn map_brush(
    sheet: Seq<u8>,
    map: Seq<u8>,
    cel_x: int,
    cel_y: int,
    scr_x: int,
    scr_y: int,
    w: int,
    m: int,
) -> Brush
    decreases m,
{
    if m <= 0 {
        Map::empty()
    } else {
        map_brush(sheet, map, cel_x, cel_y, scr_x, scr_y, w, m - 1).union_prefer_right(
            map_row_brush(sheet, map, cel_x, cel_y, scr_x, scr_y, m - 1, w),
        )
    }
}

impl BackendState {
    /// Plots one point of a multi-coloured brush on top of what has been
    /// drawn so far.
    pub(crate) fn plot_brush(
        &mut self,
        x: i64,
        y: i64,
        color: u8,
        Ghost(base): Ghost<Seq<u8>>,
        Ghost(done): Ghost<Brush>,
    )
        requires
            old(self).wf(),
            wide(x as int),
            wide(y as int),
            old(self).screen_buffer@ == old(self).draw_over(base, done),
        ensures
            final(self).wf(),
            final(self).same_except_screen(old(self)),
            final(self).screen_buffer@ == final(self).draw_over(base, done.insert((x as int, y as int), color)),
    {
        let ghost pre = *self;
        self.pset_wide(x, y, color);
        proof {
            pre.lemma_draw_compose(base, done, map![(x as int, y as int) => color]);
            assert(done.union_prefer_right(map![(x as int, y as int) => color]) =~= done.insert(
                (x as int, y as int),
                color,
            ));
            self.lemma_same_view_draw(&pre, base, done.insert((x as int, y as int), color));
        }
    }

    pub(crate) fn mget_wide(&self, cel_x: i64, cel_y: i64) -> (t: u8)
        requires
            self.wf(),
        ensures
            t == map_cell(self.tile_map(), cel_x as int, cel_y as int),
    {
        proof {
            lemma_map_view_cell(self.map_buffer@, self.map_width as int, self.map_height as int, cel_x as int, cel_y as int);
        }
        if cel_x >= 0 && cel_x < self.map_width as i64 && cel_y >= 0 && cel_y < self.map_height as i64 {
            return self.map_buffer[(cel_y * 240 + cel_x) as usize];
        }
        0
    }

    #[verifier::rlimit(30)]
    pub(crate) fn spr_wide(&mut self, n: u32, sx: i64, sy: i64, flip_x: bool, flip_y: bool)
        requires
            old(self).wf(),
            -0x8_0000_0000 <= sx <= 0x8_0000_0000,
            -0x8_0000_0000 <= sy <= 0x8_0000_0000,
        ensures
            final(self).wf(),
            final(self).same_except_screen(old(self)),
            final(self).screen_buffer@ == old(self).draw(
                sprite_brush(old(self).sprite_sheet@, n as int, sx as int, sy as int, flip_x, flip_y),
            ),
    {
        let ghost base = self.screen_buffer@;
        let ghost brush = sprite_brush(old(self).sprite_sheet@, n as int, sx as int, sy as int, flip_x, flip_y);
        let s_x: u32 = (n % 16) * 8;
        let s_y: u32 = (n / 16) * 8;
        proof {
            assert(brush_before(brush, sx as int, sy as int, 0, 0) =~= Map::empty());
            old(self).lemma_draw_empty(base);
        }
        let mut y: u32 = 0;
        while y < 8
            invariant
                self.wf(),
                self.same_except_screen(old(self)),
                -0x8_0000_0000 <= sx <= 0x8_0000_0000,
                -0x8_0000_0000 <= sy <= 0x8_0000_0000,
                s_x == (n % 16) * 8,
                s_y == (n / 16) * 8,
                base == old(self).screen_buffer@,
                brush == sprite_brush(old(self).sprite_sheet@, n as int, sx as int, sy as int, flip_x, flip_y),
                0 <= y <= 8,
                self.screen_buffer@ == self.draw_over(base, brush_before(brush, sx as int, sy as int, 0, y as int)),
            decreases 8 - y,
        {
            let mut x: u32 = 0;
            while x < 8
                invariant
                    self.wf(),
                    self.same_except_screen(old(self)),
                    -0x8_0000_0000 <= sx <= 0x8_0000_0000,
                    -0x8_0000_0000 <= sy <= 0x8_0000_0000,
                    s_x == (n % 16) * 8,
                    s_y == (n / 16) * 8,
                    base == old(self).screen_buffer@,
                    brush == sprite_brush(old(self).sprite_sheet@, n as int, sx as int, sy as int, flip_x, flip_y),
                    0 <= y < 8,
                    0 <= x <= 8,
                    self.screen_buffer@ == self.draw_over(base, brush_before(brush, sx as int, sy as int, x as int, y as int)),
                decreases 8 - x,
            {
                let read_x = if flip_x { s_x + (7 - x) } else { s_x + x };
                let read_y = if flip_y { s_y + (7 - y) } else { s_y + y };
                let ghost p = (sx + x, sy + y);
                let ghost part = brush_before(brush, sx as int, sy as int, x as int, y as int);
                if read_x < 256 && read_y < 256 {
                    let color = self.sprite_sheet[(read_y * 256 + read_x) as usize];
                    if color != 0 {
                        self.plot_brush(sx + x as i64, sy + y as i64, color, Ghost(base), Ghost(part));
                        proof {
                            assert(part.insert(p, color) =~= brush_before(brush, sx as int, sy as int, x + 1, y as int));
                        }
                    } else {
                        proof {
                            assert(part =~= brush_before(brush, sx as int, sy as int, x + 1, y as int));
                        }
                    }
                } else {
                    proof {
                        assert(part =~= brush_before(brush, sx as int, sy as int, x + 1, y as int));
                    }
                }
                x = x + 1;
            }
            proof {
                assert(brush_before(brush, sx as int, sy as int, 8, y as int) =~= brush_before(
                    brush,
                    sx as int,
                    sy as int,
                    0,
                    y + 1,
                ));
            }
            y = y + 1;
        }
        proof {
            assert(brush_before(brush, sx as int, sy as int, 0, 8) =~= brush);
            self.lemma_same_view_draw(old(self), base, brush);
        }
    }

    /// Draws 8 x 8 sprite `n` with its top-left corner at `(sx, sy)`,
    /// mirrored as asked; colour 0 is transparent.
    pub fn spr_ext(&mut self, n: u32, sx: i32, sy: i32, flip_x: bool, flip_y: bool)
        requires
            old(self).wf(),
        ensures
            final(self).wf(),
            final(self).same_except_screen(old(self)),
            final(self).screen_buffer@ == old(self).draw(
                sprite_brush(old(self).sprite_sheet@, n as int, sx as int, sy as int, flip_x, flip_y),
            ),
    {
        self.spr_wide(n, sx as i64, sy as i64, flip_x, flip_y);
    }

    /// Stretches the `sw x sh` sheet region at `(sx, sy)` over the `dw x dh`
    /// destination at `(dx, dy)` by nearest-neighbour sampling; nothing is
    /// drawn when a size is not positive.
    pub fn sspr_ext(
        &mut self,
        sx: i32,
        sy: i32,
        sw: i32,
        sh: i32,
        dx: i32,
        dy: i32,
        dw: i32,
        dh: i32,
        flip_x: bool,
        flip_y: bool,
    )
        requires
            old(self).wf(),
        ensures
            final(self).wf(),
            final(self).same_except_screen(old(self)),
            final(self).screen_buffer@ == old(self).draw(
                stretch_brush(
                    old(self).sprite_sheet@,
                    sx as int,
                    sy as int,
                    sw as int,
                    sh as int,
                    dx as int,
                    dy as int,
                    dw as int,
                    dh as int,
                    flip_x,
                    flip_y,
                ),
            ),
    {
        let ghost base = self.screen_buffer@;
        let ghost brush = stretch_brush(
            old(self).sprite_sheet@,
            sx as int,
            sy as int,
            sw as int,
            sh as int,
            dx as int,
            dy as int,
            dw as int,
            dh as int,
            flip_x,
            flip_y,
        );
        if sw <= 0 || sh <= 0 || dw <= 0 || dh <= 0 {
            proof {
                assert(brush =~= Map::empty());
                old(self).lemma_draw_empty(base);
            }
            return ;
        }
        proof {
            assert(brush_before(brush, dx as int, dy as int, 0, 0) =~= Map::empty());
            old(self).lemma_draw_empty(base);
        }
        let mut y: i64 = 0;
        while y < dh as i64
            invariant
                self.wf(),
                self.same_except_screen(old(self)),
                0 < sw && 0 < sh && 0 < dw && 0 < dh,
                base == old(self).screen_buffer@,
                brush == stretch_brush(
                    old(self).sprite_sheet@,
                    sx as int,
                    sy as int,
                    sw as int,
                    sh as int,
                    dx as int,
                    dy as int,
                    dw as int,
                    dh as int,
                    flip_x,
                    flip_y,
                ),
                0 <= y <= dh,
                self.screen_buffer@ == self.draw_over(base, brush_before(brush, dx as int, dy as int, 0, y as int)),
            decreases dh - y,
        {
            let mut x: i64 = 0;
            while x < dw as i64
                invariant
                    self.wf(),
                    self.same_except_screen(old(self)),
                    0 < sw && 0 < sh && 0 < dw && 0 < dh,
                    base == old(self).screen_buffer@,
                    brush == stretch_brush(
                        old(self).sprite_sheet@,
                        sx as int,
                        sy as int,
                        sw as int,
                        sh as int,
                        dx as int,
                        dy as int,
                        dw as int,
                        dh as int,
                        flip_x,
                        flip_y,
                    ),
                    0 <= y < dh,
                    0 <= x <= dw,
                    self.screen_buffer@ == self.draw_over(base, brush_before(brush, dx as int, dy as int, x as int, y as int)),
                decreases dw - x,
            {
                proof {
                    assert(0 <= x * sw <= dw * sw) by (nonlinear_arith)
                        requires
                            0 <= x <= dw,
                            0 < sw,
                    ;
                    assert(dw * sw <= 0x8000_0000 * 0x8000_0000) by (nonlinear_arith)
                        requires
                            0 < dw < 0x8000_0000,
                            0 < sw < 0x8000_0000,
                    ;
                    assert(0 <= y * sh <= dh * sh) by (nonlinear_arith)
                        requires
                            0 <= y <= dh,
                            0 < sh,
                    ;
                    assert(dh * sh <= 0x8000_0000 * 0x8000_0000) by (nonlinear_arith)
                        requires
                            0 < dh < 0x8000_0000,
                            0 < sh < 0x8000_0000,
                    ;
                    assert((x * sw) / (dw as int) <= x * sw) by (nonlinear_arith)
                        requires
                            0 <= x * sw,
                            0 < dw,
                    ;
                    assert((y * sh) / (dh as int) <= y * sh) by (nonlinear_arith)
                        requires
                            0 <= y * sh,
                            0 < dh,
                    ;
                    assert(0 <= (x * sw) / (dw as int) < sw) by (nonlinear_arith)
                        requires
                            0 <= x < dw,
                            0 < sw,
                            0 < dw,
                    ;
                    assert(0 <= (y * sh) / (dh as int) < sh) by (nonlinear_arith)
                        requires
                            0 <= y < dh,
                            0 < sh,
                            0 < dh,
                    ;
                }
                let sample_x = (x * sw as i64) / (dw as i64);
                let sample_y = (y * sh as i64) / (dh as i64);
                let src_x = if flip_x { sx as i64 + (sw as i64 - 1 - sample_x) } else { sx as i64 + sample_x };
                let src_y = if flip_y { sy as i64 + (sh as i64 - 1 - sample_y) } else { sy as i64 + sample_y };
                let ghost p = ((dx + x) as int, (dy + y) as int);
                let ghost part = brush_before(brush, dx as int, dy as int, x as int, y as int);
                if src_x >= 0 && src_x < 256 && src_y >= 0 && src_y < 256 {
                    let color = self.sprite_sheet[(src_y * 256 + src_x) as usize];
                    if color != 0 {
                        self.plot_brush(dx as i64 + x, dy as i64 + y, color, Ghost(base), Ghost(part));
                        proof {
                            assert(part.insert(p, color) =~= brush_before(brush, dx as int, dy as int, x + 1, y as int));
                        }
                    } else {
                        proof {
                            assert(part =~= brush_before(brush, dx as int, dy as int, x + 1, y as int));
                        }
                    }
                } else {
                    proof {
                        assert(part =~= brush_before(brush, dx as int, dy as int, x + 1, y as int));
                    }
                }
                x = x + 1;
            }
            proof {
                assert(brush_before(brush, dx as int, dy as int, dw as int, y as int) =~= brush_before(
                    brush,
                    dx as int,
                    dy as int,
                    0,
                    y + 1,
                ));
            }
            y = y + 1;
        }
        proof {
            assert(brush_before(brush, dx as int, dy as int, 0, dh as int) =~= brush);
            self.lemma_same_view_draw(old(self), base, brush);
        }
    }

    /// Draws the `cel_w x cel_h` block of map cells at `(cel_x, cel_y)` with
    /// its top-left corner at `(scr_x, scr_y)`, one 8 x 8 sprite per cell,
    /// row by row; tile 0 draws nothing.
    pub fn map(&mut self, cel_x: i32, cel_y: i32, scr_x: i32, scr_y: i32, cel_w: i32, cel_h: i32)
        requires
            old(self).wf(),
        ensures
            final(self).wf(),
            final(self).same_except_screen(old(self)),
            final(self).screen_buffer@ == old(self).draw(
                map_brush(
                    old(self).sprite_sheet@,
                    old(self).tile_map(),
                    cel_x as int,
                    cel_y as int,
                    scr_x as int,
                    scr_y as int,
                    cel_w as int,
                    cel_h as int,
                ),
            ),
    {
        let ghost base = self.screen_buffer@;
        let ghost sheet = old(self).sprite_sheet@;
        let ghost mapb = old(self).tile_map();
        proof {
            old(self).lemma_draw_empty(base);
        }
        let mut cy: i64 = 0;
        while cy < cel_h as i64
            invariant
                self.wf(),
                self.same_except_screen(old(self)),
                sheet == old(self).sprite_sheet@,
                mapb == old(self).tile_map(),
                base == old(self).screen_buffer@,
                0 <= cy,
                cy <= cel_h || cy == 0,
                self.screen_buffer@ == self.draw_over(
                    base,
                    map_brush(sheet, mapb, cel_x as int, cel_y as int, scr_x as int, scr_y as int, cel_w as int, cy as int),
                ),
            decreases cel_h - cy,
        {
            let ghost above = map_brush(
                sheet,
                mapb,
                cel_x as int,
                cel_y as int,
                scr_x as int,
                scr_y as int,
                cel_w as int,
                cy as int,
            );
            proof {
                assert(above.union_prefer_right(Map::empty()) =~= above);
            }
            let mut cx: i64 = 0;
            while cx < cel_w as i64
                invariant
                    self.wf(),
                    self.same_except_screen(old(self)),
                    sheet == old(self).sprite_sheet@,
                    mapb == old(self).tile_map(),
                    base == old(self).screen_buffer@,
                    0 <= cy < cel_h,
                    0 <= cx,
                    cx <= cel_w || cx == 0,
                    above == map_brush(
                        sheet,
                        mapb,
                        cel_x as int,
                        cel_y as int,
                        scr_x as int,
                        scr_y as int,
                        cel_w as int,
                        cy as int,
                    ),
                    self.screen_buffer@ == self.draw_over(
                        base,
                        above.union_prefer_right(
                            map_row_brush(sheet, mapb, cel_x as int, cel_y as int, scr_x as int, scr_y as int, cy as int, cx as int),
                        ),
                    ),
                decreases cel_w - cx,
            {
                let ghost done = above.union_prefer_right(
                    map_row_brush(sheet, mapb, cel_x as int, cel_y as int, scr_x as int, scr_y as int, cy as int, cx as int),
                );
                let ghost cell = cell_brush(
                    sheet,
                    mapb,
                    cel_x as int,
                    cel_y as int,
                    scr_x as int,
                    scr_y as int,
                    cx as int,
                    cy as int,
                );
                let tile_id = self.mget_wide(cel_x as i64 + cx, cel_y as i64 + cy);
                let ghost before = self.screen_buffer@;
                let ghost pre = *self;
                if tile_id != 0 {
                    self.spr_wide(tile_id as u32, scr_x as i64 + cx * 8, scr_y as i64 + cy * 8, false, false);
                    proof {
                        pre.lemma_draw_compose(base, done, cell);
                        self.lemma_same_view_draw(&pre, base, done.union_prefer_right(cell));
                    }
                } else {
                    proof {
                        assert(cell =~= Map::empty());
                        assert(done.union_prefer_right(cell) =~= done);
                    }
                }
                proof {
                    assert(done.union_prefer_right(cell) =~= above.union_prefer_right(
                        map_row_brush(
                            sheet,
                            mapb,
                            cel_x as int,
                            cel_y as int,
                            scr_x as int,
                            scr_y as int,
                            cy as int,
                            cx + 1,
                        ),
                    ));
                }
                cx = cx + 1;
            }
            proof {
                if cel_w <= 0 {
                    assert(map_row_brush(sheet, mapb, cel_x as int, cel_y as int, scr_x as int, scr_y as int, cy as int, cel_w as int)
                        =~= map_row_brush(sheet, mapb, cel_x as int, cel_y as int, scr_x as int, scr_y as int, cy as int, 0));
                }
            }
            cy = cy + 1;
        }
        proof {
            if cel_h <= 0 {
                assert(map_brush(sheet, mapb, cel_x as int, cel_y as int, scr_x as int, scr_y as int, cel_w as int, cel_h as int)
                    =~= Map::empty());
            }
            self.lemma_same_view_draw(
                old(self),
                base,
                map_brush(sheet, mapb, cel_x as int, cel_y as int, scr_x as int, scr_y as int, cel_w as int, cel_h as int),
            );
        }
    }
}

/// The 3 x 5 font for the printable ASCII characters `' '` to `'~'`: one
/// entry per character, one byte per row, bit 2 the leftmost column.
pub const GLYPHS: [[u8; 5]; 95] = [
    [0b000, 0b000, 0b000, 0b000, 0b000], // ' '
    [0b010, 0b010, 0b010, 0b000, 0b010], // '!'
    [0b101, 0b101, 0b000, 0b000, 0b000], // '"'
    [0b101, 0b111, 0b101, 0b111, 0b101], // '#'
    [0b010, 0b111, 0b100, 0b111, 0b010], // '$'
    [0b101, 0b001, 0b010, 0b100, 0b101], // '%'
    [0b010, 0b101, 0b010, 0b101, 0b111], // '&'
    [0b010, 0b010, 0b000, 0b000, 0b000], // "'"
    [0b001, 0b010, 0b010, 0b010, 0b001], // '('
    [0b100, 0b010, 0b010, 0b010, 0b100], // ')'
    [0b010, 0b101, 0b010, 0b101, 0b010], // '*'
    [0b000, 0b010, 0b111, 0b010, 0b000], // '+'
    [0b000, 0b000, 0b000, 0b010, 0b100], // ','
    [0b000, 0b000, 0b111, 0b000, 0b000], // '-'
    [0b000, 0b000, 0b000, 0b000, 0b010], // '.'
    [0b001, 0b001, 0b010, 0b100, 0b100], // '/'
    [0b111, 0b101, 0b101, 0b101, 0b111], // '0'
    [0b010, 0b110, 0b010, 0b010, 0b111], // '1'
    [0b111, 0b001, 0b111, 0b100, 0b111], // '2'
    [0b111, 0b001, 0b111, 0b001, 0b111], // '3'
    [0b101, 0b101, 0b111, 0b001, 0b001], // '4'
    [0b111, 0b100, 0b111, 0b001, 0b111], // '5'
    [0b111, 0b100, 0b111, 0b101, 0b111], // '6'
    [0b111, 0b001, 0b010, 0b100, 0b100], // '7'
    [0b111, 0b101, 0b111, 0b101, 0b111], // '8'
    [0b111, 0b101, 0b111, 0b001, 0b111], // '9'
    [0b000, 0b010, 0b000, 0b010, 0b000], // ':'
    [0b000, 0b010, 0b000, 0b010, 0b100], // ';'
    [0b001, 0b010, 0b100, 0b010, 0b001], // '<'
    [0b000, 0b111, 0b000, 0b111, 0b000], // '='
    [0b100, 0b010, 0b001, 0b010, 0b100], // '>'
    [0b111, 0b001, 0b010, 0b000, 0b010], // '?'
    [0b111, 0b101, 0b111, 0b100, 0b111], // '@'
    [0b111, 0b101, 0b111, 0b101, 0b101], // 'A'
    [0b110, 0b101, 0b110, 0b101, 0b110], // 'B'
    [0b111, 0b100, 0b100, 0b100, 0b111], // 'C'
    [0b110, 0b101, 0b101, 0b101, 0b110], // 'D'
    [0b111, 0b100, 0b111, 0b100, 0b111], // 'E'
    [0b111, 0b100, 0b111, 0b100, 0b100], // 'F'
    [0b111, 0b100, 0b101, 0b101, 0b111], // 'G'
    [0b101, 0b101, 0b111, 0b101, 0b101], // 'H'
    [0b111, 0b010, 0b010, 0b010, 0b111], // 'I'
    [0b001, 0b001, 0b001, 0b101, 0b111], // 'J'
    [0b101, 0b110, 0b100, 0b110, 0b101], // 'K'
    [0b100, 0b100, 0b100, 0b100, 0b111], // 'L'
    [0b101, 0b111, 0b101, 0b101, 0b101], // 'M'
    [0b111, 0b101, 0b101, 0b101, 0b101], // 'N'
    [0b111, 0b101, 0b101, 0b101, 0b111], // 'O'
    [0b111, 0b101, 0b111, 0b100, 0b100], // 'P'
    [0b111, 0b101, 0b101, 0b111, 0b001], // 'Q'
    [0b111, 0b101, 0b110, 0b101, 0b101], // 'R'
    [0b111, 0b100, 0b111, 0b001, 0b111], // 'S'
    [0b111, 0b010, 0b010, 0b010, 0b010], // 'T'
    [0b101, 0b101, 0b101, 0b101, 0b111], // 'U'
    [0b101, 0b101, 0b101, 0b010, 0b010], // 'V'
    [0b101, 0b101, 0b101, 0b111, 0b101], // 'W'
    [0b101, 0b101, 0b010, 0b101, 0b101], // 'X'
    [0b101, 0b101, 0b010, 0b010, 0b010], // 'Y'
    [0b111, 0b001, 0b010, 0b100, 0b111], // 'Z'
    [0b111, 0b100, 0b100, 0b100, 0b111], // '['
    [0b100, 0b100, 0b010, 0b001, 0b001], // '\\'
    [0b111, 0b001, 0b001, 0b001, 0b111], // ']'
    [0b010, 0b101, 0b000, 0b000, 0b000], // '^'
    [0b000, 0b000, 0b000, 0b000, 0b111], // '_'
    [0b100, 0b010, 0b000, 0b000, 0b000], // '`'
    [0b000, 0b111, 0b001, 0b111, 0b111], // 'a'
    [0b100, 0b110, 0b101, 0b101, 0b110], // 'b'
    [0b000, 0b111, 0b100, 0b100, 0b111], // 'c'
    [0b001, 0b011, 0b101, 0b101, 0b011], // 'd'
    [0b000, 0b111, 0b111, 0b100, 0b111], // 'e'
    [0b011, 0b010, 0b110, 0b010, 0b010], // 'f'
    [0b000, 0b111, 0b101, 0b111, 0b001], // 'g'
    [0b100, 0b110, 0b101, 0b101, 0b101], // 'h'
    [0b010, 0b000, 0b010, 0b010, 0b010], // 'i'
    [0b001, 0b000, 0b001, 0b001, 0b110], // 'j'
    [0b100, 0b101, 0b110, 0b101, 0b101], // 'k'
    [0b110, 0b010, 0b010, 0b010, 0b111], // 'l'
    [0b000, 0b111, 0b111, 0b101, 0b101], // 'm'
    [0b000, 0b110, 0b101, 0b101, 0b101], // 'n'
    [0b000, 0b111, 0b101, 0b101, 0b111], // 'o'
    [0b000, 0b110, 0b101, 0b110, 0b100], // 'p'
    [0b000, 0b011, 0b101, 0b011, 0b001], // 'q'
    [0b000, 0b110, 0b101, 0b100, 0b100], // 'r'
    [0b000, 0b011, 0b100, 0b001, 0b110], // 's'
    [0b010, 0b111, 0b010, 0b010, 0b001], // 't'
    [0b000, 0b101, 0b101, 0b101, 0b111], // 'u'
    [0b000, 0b101, 0b101, 0b010, 0b010], // 'v'
    [0b000, 0b101, 0b101, 0b111, 0b101], // 'w'
    [0b000, 0b101, 0b010, 0b101, 0b101], // 'x'
    [0b000, 0b101, 0b101, 0b111, 0b001], // 'y'
    [0b000, 0b111, 0b010, 0b100, 0b111], // 'z'
    [0b001, 0b010, 0b110, 0b010, 0b001], // '{'
    [0b010, 0b010, 0b010, 0b010, 0b010], // '|'
    [0b100, 0b010, 0b011, 0b010, 0b100], // '}'
    [0b010, 0b101, 0b000, 0b000, 0b000], // '~'
];

/// The five rows of the glyph drawn for `c`; characters outside printable
/// ASCII are drawn as a solid block.
pub open spec fn glyph_rows(c: char) -> Seq<u8> {
    if 32 <= (c as int) <= 126 {
        GLYPHS@[(c as int) - 32]@
    } else {
        seq![7u8, 7u8, 7u8, 7u8, 7u8]
    }
}

/// Every glyph row is three bits wide (below 8), and the solid block is
/// the glyph of exactly the characters outside printable ASCII: no
/// printable character shows as a solid block.
pub proof fn lemma_glyph_table(c: char)
    ensures
        forall|r: int| 0 <= r < 5 ==> #[trigger] glyph_rows(c)[r] < 8,
        (glyph_rows(c) == seq![7u8, 7u8, 7u8, 7u8, 7u8]) <==> !(32 <= (c as int) <= 126),
{
    if 32 <= (c as int) <= 126 {
        let k = (c as int) - 32;
        if k == 0 {
            assert(GLYPHS@[0]@ == seq![0u8, 0u8, 0u8, 0u8, 0u8]);
        } else if k == 1 {
            assert(GLYPHS@[1]@ == seq![2u8, 2u8, 2u8, 0u8, 2u8]);
        } else if k == 2 {
            assert(GLYPHS@[2]@ == seq![5u8, 5u8, 0u8, 0u8, 0u8]);
        } else if k == 3 {
            assert(GLYPHS@[3]@ == seq![5u8, 7u8, 5u8, 7u8, 5u8]);
        } else if k == 4 {
            assert(GLYPHS@[4]@ == seq![2u8, 7u8, 4u8, 7u8, 2u8]);
        } else if k == 5 {
            assert(GLYPHS@[5]@ == seq![5u8, 1u8, 2u8, 4u8, 5u8]);
        } else if k == 6 {
            assert(GLYPHS@[6]@ == seq![2u8, 5u8, 2u8, 5u8, 7u8]);
        } else if k == 7 {
            assert(GLYPHS@[7]@ == seq![2u8, 2u8, 0u8, 0u8, 0u8]);
        } else if k == 8 {
            assert(GLYPHS@[8]@ == seq![1u8, 2u8, 2u8, 2u8, 1u8]);
        } else if k == 9 {
            assert(GLYPHS@[9]@ == seq![4u8, 2u8, 2u8, 2u8, 4u8]);
        } else if k == 10 {
            assert(GLYPHS@[10]@ == seq![2u8, 5u8, 2u8, 5u8, 2u8]);
        } else if k == 11 {
            assert(GLYPHS@[11]@ == seq![0u8, 2u8, 7u8, 2u8, 0u8]);
        } else if k == 12 {
            assert(GLYPHS@[12]@ == seq![0u8, 0u8, 0u8, 2u8, 4u8]);
        } else if k == 13 {
            assert(GLYPHS@[13]@ == seq![0u8, 0u8, 7u8, 0u8, 0u8]);
        } else if k == 14 {
            assert(GLYPHS@[14]@ == seq![0u8, 0u8, 0u8, 0u8, 2u8]);
        } else if k == 15 {
            assert(GLYPHS@[15]@ == seq![1u8, 1u8, 2u8, 4u8, 4u8]);
        } else if k == 16 {
            assert(GLYPHS@[16]@ == seq![7u8, 5u8, 5u8, 5u8, 7u8]);
        } else if k == 17 {
            assert(GLYPHS@[17]@ == seq![2u8, 6u8, 2u8, 2u8, 7u8]);
        } else if k == 18 {
            assert(GLYPHS@[18]@ == seq![7u8, 1u8, 7u8, 4u8, 7u8]);
        } else if k == 19 {
            assert(GLYPHS@[19]@ == seq![7u8, 1u8, 7u8, 1u8, 7u8]);
        } else if k == 20 {
            assert(GLYPHS@[20]@ == seq![5u8, 5u8, 7u8, 1u8, 1u8]);
        } else if k == 21 {
            assert(GLYPHS@[21]@ == seq![7u8, 4u8, 7u8, 1u8, 7u8]);
        } else if k == 22 {
            assert(GLYPHS@[22]@ == seq![7u8, 4u8, 7u8, 5u8, 7u8]);
        } else if k == 23 {
            assert(GLYPHS@[23]@ == seq![7u8, 1u8, 2u8, 4u8, 4u8]);
        } else if k == 24 {
            assert(GLYPHS@[24]@ == seq![7u8, 5u8, 7u8, 5u8, 7u8]);
        } else if k == 25 {
            assert(GLYPHS@[25]@ == seq![7u8, 5u8, 7u8, 1u8, 7u8]);
        } else if k == 26 {
            assert(GLYPHS@[26]@ == seq![0u8, 2u8, 0u8, 2u8, 0u8]);
        } else if k == 27 {
            assert(GLYPHS@[27]@ == seq![0u8, 2u8, 0u8, 2u8, 4u8]);
        } else if k == 28 {
            assert(GLYPHS@[28]@ == seq![1u8, 2u8, 4u8, 2u8, 1u8]);
        } else if k == 29 {
            assert(GLYPHS@[29]@ == seq![0u8, 7u8, 0u8, 7u8, 0u8]);
        } else if k == 30 {
            assert(GLYPHS@[30]@ == seq![4u8, 2u8, 1u8, 2u8, 4u8]);
        } else if k == 31 {
            assert(GLYPHS@[31]@ == seq![7u8, 1u8, 2u8, 0u8, 2u8]);
        } else if k == 32 {
            assert(GLYPHS@[32]@ == seq![7u8, 5u8, 7u8, 4u8, 7u8]);
        } else if k == 33 {
            assert(GLYPHS@[33]@ == seq![7u8, 5u8, 7u8, 5u8, 5u8]);
        } else if k == 34 {
            assert(GLYPHS@[34]@ == seq![6u8, 5u8, 6u8, 5u8, 6u8]);
        } else if k == 35 {
            assert(GLYPHS@[35]@ == seq![7u8, 4u8, 4u8, 4u8, 7u8]);
        } else if k == 36 {
            assert(GLYPHS@[36]@ == seq![6u8, 5u8, 5u8, 5u8, 6u8]);
        } else if k == 37 {
            assert(GLYPHS@[37]@ == seq![7u8, 4u8, 7u8, 4u8, 7u8]);
        } else if k == 38 {
            assert(GLYPHS@[38]@ == seq![7u8, 4u8, 7u8, 4u8, 4u8]);
        } else if k == 39 {
            assert(GLYPHS@[39]@ == seq![7u8, 4u8, 5u8, 5u8, 7u8]);
        } else if k == 40 {
            assert(GLYPHS@[40]@ == seq![5u8, 5u8, 7u8, 5u8, 5u8]);
        } else if k == 41 {
            assert(GLYPHS@[41]@ == seq![7u8, 2u8, 2u8, 2u8, 7u8]);
        } else if k == 42 {
            assert(GLYPHS@[42]@ == seq![1u8, 1u8, 1u8, 5u8, 7u8]);
        } else if k == 43 {
            assert(GLYPHS@[43]@ == seq![5u8, 6u8, 4u8, 6u8, 5u8]);
        } else if k == 44 {
            assert(GLYPHS@[44]@ == seq![4u8, 4u8, 4u8, 4u8, 7u8]);
        } else if k == 45 {
            assert(GLYPHS@[45]@ == seq![5u8, 7u8, 5u8, 5u8, 5u8]);
        } else if k == 46 {
            assert(GLYPHS@[46]@ == seq![7u8, 5u8, 5u8, 5u8, 5u8]);
        } else if k == 47 {
            assert(GLYPHS@[47]@ == seq![7u8, 5u8, 5u8, 5u8, 7u8]);
        } else if k == 48 {
            assert(GLYPHS@[48]@ == seq![7u8, 5u8, 7u8, 4u8, 4u8]);
        } else if k == 49 {
            assert(GLYPHS@[49]@ == seq![7u8, 5u8, 5u8, 7u8, 1u8]);
        } else if k == 50 {
            assert(GLYPHS@[50]@ == seq![7u8, 5u8, 6u8, 5u8, 5u8]);
        } else if k == 51 {
            assert(GLYPHS@[51]@ == seq![7u8, 4u8, 7u8, 1u8, 7u8]);
        } else if k == 52 {
            assert(GLYPHS@[52]@ == seq![7u8, 2u8, 2u8, 2u8, 2u8]);
        } else if k == 53 {
            assert(GLYPHS@[53]@ == seq![5u8, 5u8, 5u8, 5u8, 7u8]);
        } else if k == 54 {
            assert(GLYPHS@[54]@ == seq![5u8, 5u8, 5u8, 2u8, 2u8]);
        } else if k == 55 {
            assert(GLYPHS@[55]@ == seq![5u8, 5u8, 5u8, 7u8, 5u8]);
        } else if k == 56 {
            assert(GLYPHS@[56]@ == seq![5u8, 5u8, 2u8, 5u8, 5u8]);
        } else if k == 57 {
            assert(GLYPHS@[57]@ == seq![5u8, 5u8, 2u8, 2u8, 2u8]);
        } else if k == 58 {
            assert(GLYPHS@[58]@ == seq![7u8, 1u8, 2u8, 4u8, 7u8]);
        } else if k == 59 {
            assert(GLYPHS@[59]@ == seq![7u8, 4u8, 4u8, 4u8, 7u8]);
        } else if k == 60 {
            assert(GLYPHS@[60]@ == seq![4u8, 4u8, 2u8, 1u8, 1u8]);
        } else if k == 61 {
            assert(GLYPHS@[61]@ == seq![7u8, 1u8, 1u8, 1u8, 7u8]);
        } else if k == 62 {
            assert(GLYPHS@[62]@ == seq![2u8, 5u8, 0u8, 0u8, 0u8]);
        } else if k == 63 {
            assert(GLYPHS@[63]@ == seq![0u8, 0u8, 0u8, 0u8, 7u8]);
        } else if k == 64 {
            assert(GLYPHS@[64]@ == seq![4u8, 2u8, 0u8, 0u8, 0u8]);
        } else if k == 65 {
            assert(GLYPHS@[65]@ == seq![0u8, 7u8, 1u8, 7u8, 7u8]);
        } else if k == 66 {
            assert(GLYPHS@[66]@ == seq![4u8, 6u8, 5u8, 5u8, 6u8]);
        } else if k == 67 {
            assert(GLYPHS@[67]@ == seq![0u8, 7u8, 4u8, 4u8, 7u8]);
        } else if k == 68 {
            assert(GLYPHS@[68]@ == seq![1u8, 3u8, 5u8, 5u8, 3u8]);
        } else if k == 69 {
            assert(GLYPHS@[69]@ == seq![0u8, 7u8, 7u8, 4u8, 7u8]);
        } else if k == 70 {
            assert(GLYPHS@[70]@ == seq![3u8, 2u8, 6u8, 2u8, 2u8]);
        } else if k == 71 {
            assert(GLYPHS@[71]@ == seq![0u8, 7u8, 5u8, 7u8, 1u8]);
        } else if k == 72 {
            assert(GLYPHS@[72]@ == seq![4u8, 6u8, 5u8, 5u8, 5u8]);
        } else if k == 73 {
            assert(GLYPHS@[73]@ == seq![2u8, 0u8, 2u8, 2u8, 2u8]);
        } else if k == 74 {
            assert(GLYPHS@[74]@ == seq![1u8, 0u8, 1u8, 1u8, 6u8]);
        } else if k == 75 {
            assert(GLYPHS@[75]@ == seq![4u8, 5u8, 6u8, 5u8, 5u8]);
        } else if k == 76 {
            assert(GLYPHS@[76]@ == seq![6u8, 2u8, 2u8, 2u8, 7u8]);
        } else if k == 77 {
            assert(GLYPHS@[77]@ == seq![0u8, 7u8, 7u8, 5u8, 5u8]);
        } else if k == 78 {
            assert(GLYPHS@[78]@ == seq![0u8, 6u8, 5u8, 5u8, 5u8]);
        } else if k == 79 {
            assert(GLYPHS@[79]@ == seq![0u8, 7u8, 5u8, 5u8, 7u8]);
        } else if k == 80 {
            assert(GLYPHS@[80]@ == seq![0u8, 6u8, 5u8, 6u8, 4u8]);
        } else if k == 81 {
            assert(GLYPHS@[81]@ == seq![0u8, 3u8, 5u8, 3u8, 1u8]);
        } else if k == 82 {
            assert(GLYPHS@[82]@ == seq![0u8, 6u8, 5u8, 4u8, 4u8]);
        } else if k == 83 {
            assert(GLYPHS@[83]@ == seq![0u8, 3u8, 4u8, 1u8, 6u8]);
        } else if k == 84 {
            assert(GLYPHS@[84]@ == seq![2u8, 7u8, 2u8, 2u8, 1u8]);
        } else if k == 85 {
            assert(GLYPHS@[85]@ == seq![0u8, 5u8, 5u8, 5u8, 7u8]);
        } else if k == 86 {
            assert(GLYPHS@[86]@ == seq![0u8, 5u8, 5u8, 2u8, 2u8]);
        } else if k == 87 {
            assert(GLYPHS@[87]@ == seq![0u8, 5u8, 5u8, 7u8, 5u8]);
        } else if k == 88 {
            assert(GLYPHS@[88]@ == seq![0u8, 5u8, 2u8, 5u8, 5u8]);
        } else if k == 89 {
            assert(GLYPHS@[89]@ == seq![0u8, 5u8, 5u8, 7u8, 1u8]);
        } else if k == 90 {
            assert(GLYPHS@[90]@ == seq![0u8, 7u8, 2u8, 4u8, 7u8]);
        } else if k == 91 {
            assert(GLYPHS@[91]@ == seq![1u8, 2u8, 6u8, 2u8, 1u8]);
        } else if k == 92 {
            assert(GLYPHS@[92]@ == seq![2u8, 2u8, 2u8, 2u8, 2u8]);
        } else if k == 93 {
            assert(GLYPHS@[93]@ == seq![4u8, 2u8, 3u8, 2u8, 4u8]);
        } else if k == 94 {
            assert(GLYPHS@[94]@ == seq![2u8, 5u8, 0u8, 0u8, 0u8]);
        }
    }
}

/// Whether column `col` (0 to 2, left to right) of a glyph row is set.
pub open spec fn glyph_bit(bits: u8, col: int) -> bool {
    if col == 0 {
        (bits / 4) % 2 == 1
    } else if col == 1 {
        (bits / 2) % 2 == 1
    } else {
        bits % 2 == 1
    }
}

/// The points of glyph `c` drawn with its top-left corner at `(x, y)`.
pub open spec fn glyph_points(c: char, x: int, y: int) -> Set<(int, int)> {
    Set::new(
        |p: (int, int)|
            0 <= p.0 - x < 3 && 0 <= p.1 - y < 5 && glyph_bit(glyph_rows(c)[p.1 - y], p.0 - x),
    )
}

/// The points of the text `chars` drawn from `(x, y)`, glyphs 4 pixels apart.
pub open spec fn text_points(chars: Seq<char>, x: int, y: int) -> Set<(int, int)>
    decreases chars.len(),
{
    if chars.len() == 0 {
        Set::empty()
    } else {
        glyph_points(chars[0], x, y).union(text_points(chars.drop_first(), x + 4, y))
    }
}

/// The points of the glyph rows `0 .. row` plus the columns `0 .. col` of
/// row `row`.
pub open spec fn glyph_points_before(c: char, x: int, y: int, row: int, col: int) -> Set<(int, int)> {
    glyph_points(c, x, y).filter(|p: (int, int)| p.1 - y < row || (p.1 - y == row && p.0 - x < col))
}

impl BackendState {
    /// The glyph rows for `c` in the built-in 3 x 5 font.
    pub fn get_ascii_glyph(&self, c: char) -> (g: [u8; 5])
        ensures
            g@ == glyph_rows(c),
    {
        if c >= ' ' && c <= '~' {
            GLYPHS[(c as u32 - 32) as usize]
        } else {
            let g = [0b111u8; 5];
            assert(g@ =~= seq![7u8, 7u8, 7u8, 7u8, 7u8]);
            g
        }
    }

    fn draw_glyph(&mut self, c: char, x: i64, y: i64, color: u8)
        requires
            old(self).wf(),
            -0x8_0000_0000 <= x <= 0x8_0000_0000,
            -0x8_0000_0000 <= y <= 0x8_0000_0000,
        ensures
            final(self).wf(),
            final(self).same_except_screen(old(self)),
            final(self).screen_buffer@ == old(self).draw(solid(glyph_points(c, x as int, y as int), color)),
    {
        let glyph = self.get_ascii_glyph(c);
        let ghost base = self.screen_buffer@;
        let ghost gp = glyph_points(c, x as int, y as int);
        proof {
            old(self).lemma_draw_empty(base);
            assert(solid(Set::<(int, int)>::empty(), color) =~= Map::empty());
            assert(glyph_points_before(c, x as int, y as int, 0, 0) =~= Set::empty());
        }
        let mut row: usize = 0;
        while row < 5
            invariant
                self.wf(),
                self.same_except_screen(old(self)),
                -0x8_0000_0000 <= x <= 0x8_0000_0000,
                -0x8_0000_0000 <= y <= 0x8_0000_0000,
                glyph@ == glyph_rows(c),
                base == old(self).screen_buffer@,
                0 <= row <= 5,
                self.screen_buffer@ == self.draw_over(
                    base,
                    solid(glyph_points_before(c, x as int, y as int, row as int, 0), color),
                ),
            decreases 5 - row,
        {
            let bits = glyph[row];
            let mut col: i64 = 0;
            while col < 3
                invariant
                    self.wf(),
                    self.same_except_screen(old(self)),
                    -0x8_0000_0000 <= x <= 0x8_0000_0000,
                    -0x8_0000_0000 <= y <= 0x8_0000_0000,
                    glyph@ == glyph_rows(c),
                    bits == glyph@[row as int],
                    base == old(self).screen_buffer@,
                    0 <= row < 5,
                    0 <= col <= 3,
                    self.screen_buffer@ == self.draw_over(
                        base,
                        solid(glyph_points_before(c, x as int, y as int, row as int, col as int), color),
                    ),
                decreases 3 - col,
            {
                let mask: u8 = if col == 0 { 4 } else if col == 1 { 2 } else { 1 };
                let ghost done = glyph_points_before(c, x as int, y as int, row as int, col as int);
                let ghost p = ((x + col) as int, (y + row) as int);
                proof {
                    assert(mask == 4 ==> ((bits & mask) != 0 <==> (bits / 4) % 2 == 1)) by (bit_vector);
                    assert(mask == 2 ==> ((bits & mask) != 0 <==> (bits / 2) % 2 == 1)) by (bit_vector);
                    assert(mask == 1 ==> ((bits & mask) != 0 <==> bits % 2 == 1)) by (bit_vector);
                }
                if (bits & mask) != 0 {
                    self.plot_into(x + col, y + row as i64, color, Ghost(base), Ghost(done));
                    proof {
                        assert(done.insert(p) =~= glyph_points_before(c, x as int, y as int, row as int, col + 1));
                    }
                } else {
                    proof {
                        assert(done =~= glyph_points_before(c, x as int, y as int, row as int, col + 1));
                    }
                }
                col = col + 1;
            }
            proof {
                assert(glyph_points_before(c, x as int, y as int, row as int, 3) =~= glyph_points_before(
                    c,
                    x as int,
                    y as int,
                    row + 1,
                    0,
                ));
            }
            row = row + 1;
        }
        proof {
            assert(glyph_points_before(c, x as int, y as int, 5, 0) =~= gp);
            self.lemma_same_view_draw(old(self), base, solid(gp, color));
        }
    }

    /// Prints `text` with the built-in 3 x 5 font, glyph `k` at
    /// `(start_x + 4 * k, start_y)`.
    pub fn draw_text(&mut self, text: &str, start_x: i32, start_y: i32, color: u8)
        requires
            old(self).wf(),
            start_x + 4 * text@.len() <= i32::MAX,
        ensures
            final(self).wf(),
            final(self).same_except_screen(old(self)),
            final(self).screen_buffer@ == old(self).draw(
                solid(text_points(text@, start_x as int, start_y as int), color),
            ),
    {
        let ghost all = text@;
        let ghost goal = old(self).draw(solid(text_points(all, start_x as int, start_y as int), color));
        let mut chars = text.chars();
        let mut x: i64 = start_x as i64;
        let ghost mut k: int = 0;
        proof {
            broadcast use vstd::string::axiom_spec_iter;
            assert(all.skip(0) =~= all);
        }
        loop
            invariant_except_break
                self.wf(),
                self.same_except_screen(old(self)),
                0 <= k <= all.len(),
                x == start_x + 4 * k,
                start_x + 4 * all.len() <= i32::MAX,
                chars.remaining() == all.skip(k),
                goal == old(self).draw(solid(text_points(all, start_x as int, start_y as int), color)),
                old(self).draw_over(self.screen_buffer@, solid(text_points(all.skip(k), x as int, start_y as int), color))
                    == goal,
            ensures
                self.wf(),
                self.same_except_screen(old(self)),
                self.screen_buffer@ == goal,
            decreases all.len() - k,
        {
            let next = chars.next();
            match next {
                Some(c) => {
                    let ghost before = self.screen_buffer@;
                    let ghost pre = *self;
                    let ghost rest = all.skip(k + 1);
                    proof {
                        assert(all.skip(k).drop_first() =~= rest);
                        old(self).lemma_solid_chain(
                            before,
                            glyph_points(c, x as int, start_y as int),
                            text_points(rest, x + 4, start_y as int),
                            color,
                        );
                    }
                    self.draw_glyph(c, x, start_y as i64, color);
                    proof {
                        pre.lemma_same_view_draw(old(self), before, solid(glyph_points(c, x as int, start_y as int), color));
                        k = k + 1;
                    }
                    x = x + 4;
                },
                None => {
                    proof {
                        assert(all.skip(k).len() == 0);
                        old(self).lemma_draw_empty(self.screen_buffer@);
                        assert(solid(Set::<(int, int)>::empty(), color) =~= Map::empty());
                    }
                    break ;
                },
            }
        }
    }
}

/// `cur` after restoring `loaded`: framebuffer, sprite sheet, map, drawing
/// colour, camera and clip come from `loaded`; everything else stays.
pub open spec fn restored(cur: BackendState, loaded: BackendState) -> BackendState {
    BackendState {
        screen_buffer: loaded.screen_buffer,
        sprite_sheet: loaded.sprite_sheet,
        map_buffer: loaded.map_buffer,
        current_color: loaded.current_color,
        camera_x: loaded.camera_x,
        camera_y: loaded.camera_y,
        clip_x0: loaded.clip_x0,
        clip_y0: loaded.clip_y0,
        clip_x1: loaded.clip_x1,
        clip_y1: loaded.clip_y1,
        ..cur
    }
}

impl BackendState {
    /// Takes over the parts of a saved state that a save slot restores:
    /// framebuffer, sprite sheet, map, drawing colour, camera and clip.
    /// Palette, buttons, debug flag, screen size and mouse stay as they are.
    pub fn restore_state(&mut self, loaded: BackendState)
        ensures
            *final(self) == restored(*old(self), loaded),
    {
        self.screen_buffer = loaded.screen_buffer;
        self.sprite_sheet = loaded.sprite_sheet;
        self.map_buffer = loaded.map_buffer;
        self.current_color = loaded.current_color;
        self.camera_x = loaded.camera_x;
        self.camera_y = loaded.camera_y;
        self.clip_x0 = loaded.clip_x0;
        self.clip_y0 = loaded.clip_y0;
        self.clip_x1 = loaded.clip_x1;
        self.clip_y1 = loaded.clip_y1;
    }
}

} // verus!
