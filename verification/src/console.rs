use vstd::prelude::*;

verus! {

/// The two virtual hardware profiles the engine can boot into.
#[derive(Debug, Clone, Copy, PartialEq, Eq, Structural)]
pub enum ConsoleMode {
    Pico8,
    Tic80,
}

/// Hardware dimensions that depend on the console mode.
pub struct EngineConfig {
    pub mode: ConsoleMode,
    pub screen_width: i32,
    pub screen_height: i32,
    pub palette_size: usize,
}

/// Screen width of a mode: 128 for PICO-8, 240 for TIC-80.
pub open spec fn mode_width(mode: ConsoleMode) -> int {
    match mode {
        ConsoleMode::Pico8 => 128,
        ConsoleMode::Tic80 => 240,
    }
}

/// Screen height of a mode: 128 for PICO-8, 136 for TIC-80.
pub open spec fn mode_height(mode: ConsoleMode) -> int {
    match mode {
        ConsoleMode::Pico8 => 128,
        ConsoleMode::Tic80 => 136,
    }
}

/// Tile-map width of a mode, in cells: 128 for PICO-8, 240 for TIC-80.
pub open spec fn mode_map_width(mode: ConsoleMode) -> int {
    match mode {
        ConsoleMode::Pico8 => 128,
        ConsoleMode::Tic80 => 240,
    }
}

/// Tile-map height of a mode, in cells: 64 for PICO-8, 136 for TIC-80.
pub open spec fn mode_map_height(mode: ConsoleMode) -> int {
    match mode {
        ConsoleMode::Pico8 => 64,
        ConsoleMode::Tic80 => 136,
    }
}

impl EngineConfig {
    /// The hardware profile of `mode`.
    pub fn for_mode(mode: ConsoleMode) -> (cfg: Self)
        ensures
            cfg.mode == mode,
            cfg.screen_width == mode_width(mode),
            cfg.screen_height == mode_height(mode),
            cfg.palette_size == 16,
    {
        match mode {
            ConsoleMode::Pico8 => Self { mode, screen_width: 128, screen_height: 128, palette_size: 16 },
            ConsoleMode::Tic80 => Self { mode, screen_width: 240, screen_height: 136, palette_size: 16 },
        }
    }
}

} // verus!
