pub mod text;
pub mod loader;
pub mod png_loader;

use vstd::prelude::*;
use vstd::utf8::{valid_utf8, decode_utf8};
use crate::console::ConsoleMode;
use crate::cart::loader::{Cartridge, CartError, parse_p8, p8_code, p8_sheet, deserialize_fc, fc_decode};
use crate::cart::png_loader::{load_p8_png, png_frame, png_code, png_sheet, hidden_data};

verus! {

/// A cartridge together with the console mode it runs in.
pub struct LoadedCartridge {
    pub cartridge: Cartridge,
    pub mode: ConsoleMode,
}

/// The extension (as UTF-8 bytes) that `std::path::Path::extension` finds
/// in a path's file name, with the path syntax of the platform the crate is
/// built for.
pub uninterp spec fn path_extension(path: Seq<char>) -> Option<Seq<u8>>;

/// `std::path::Path::extension` of the path, as bytes. Claimed: the result
/// is a function of the path alone (a `&str` path always has a UTF-8
/// extension, so the conversion never drops one); how the file name is
/// split is not stated.
#[verifier::external_body]
fn file_extension(path: &str) -> (r: Option<Vec<u8>>)
    ensures
        match r {
            Some(v) => path_extension(path@) == Some(v@),
            None => path_extension(path@) is None,
        },
{
    match std::path::Path::new(path).extension() {
        Some(e) => match e.to_str() {
            Some(s) => Some(s.as_bytes().to_vec()),
            None => None,
        },
        None => None,
    }
}

pub open spec fn ext_tic() -> Seq<u8> {
    seq![0x74u8, 0x69u8, 0x63u8]
}

pub open spec fn ext_fc() -> Seq<u8> {
    seq![0x66u8, 0x63u8]
}

/// What loading a native `.fc` file gives: its code, sheet and the mode
/// its header names, or the error `deserialize_fc` reports.
pub open spec fn fc_loaded(data: Seq<u8>, r: Result<LoadedCartridge, CartError>) -> bool {
    match (r, fc_decode(data)) {
        (Ok(l), Ok((code, sheet, mode))) => l.cartridge.lua_code@ == code && l.cartridge.sprite_sheet@ == sheet
            && l.mode == mode,
        (Err(e), Err(f)) => e == f,
        _ => false,
    }
}

pub open spec fn ext_png() -> Seq<u8> {
    seq![0x70u8, 0x6Eu8, 0x67u8]
}

/// The console mode an extension selects: TIC-80 for `tic`, else PICO-8.
pub open spec fn ext_mode(ext: Option<Seq<u8>>) -> ConsoleMode {
    if ext == Some(ext_tic()) {
        ConsoleMode::Tic80
    } else {
        ConsoleMode::Pico8
    }
}

fn ext_is_fc(ext: &Option<Vec<u8>>) -> (r: bool)
    ensures
        r == (match ext {
            Some(v) => v@ == ext_fc(),
            None => false,
        }),
{
    match ext {
        Some(v) => {
            let r = v.len() == 2 && v[0] == 0x66 && v[1] == 0x63;
            proof {
                if r {
                    assert(v@ =~= ext_fc());
                }
            }
            r
        },
        None => false,
    }
}

fn ext_equals(ext: &Option<Vec<u8>>, a: u8, b: u8, c: u8) -> (r: bool)
    ensures
        r == (match ext {
            Some(v) => v@ == seq![a, b, c],
            None => false,
        }),
{
    match ext {
        Some(v) => {
            let r = v.len() == 3 && v[0] == a && v[1] == b && v[2] == c;
            proof {
                if r {
                    assert(v@ =~= seq![a, b, c]);
                }
            }
            r
        },
        None => false,
    }
}

/// Loads a cartridge given its file extension and contents: an `fc`
/// extension reads a native `.fc` cartridge in the mode its header names; a
/// `png` extension reads a `.p8.png` image, anything else a `.p8` text, and
/// then the `tic` extension selects TIC-80 mode, anything else PICO-8.
pub fn load_cartridge_from(ext: Option<Vec<u8>>, data: &[u8]) -> (r: Result<LoadedCartridge, CartError>)
    ensures
        ({
            let e = match ext {
                Some(v) => Some(v@),
                None => None,
            };
            if e == Some(ext_fc()) {
                fc_loaded(data@, r)
            } else if e == Some(ext_png()) {
                &&& r is Ok <==> png_frame(data@) is Some
                &&& r matches Ok(l) ==> {
                    &&& l.mode == ext_mode(e)
                    &&& l.cartridge.lua_code@ == png_code(png_frame(data@).unwrap())
                    &&& l.cartridge.sprite_sheet@ == png_sheet(hidden_data(png_frame(data@).unwrap()))
                }
                &&& r matches Err(err) ==> err == CartError::BadImage
            } else {
                &&& r is Ok <==> valid_utf8(data@)
                &&& r matches Ok(l) ==> {
                    &&& l.mode == ext_mode(e)
                    &&& l.cartridge.lua_code@ == p8_code(decode_utf8(data@))
                    &&& l.cartridge.sprite_sheet@ == p8_sheet(decode_utf8(data@))
                }
                &&& r matches Err(err) ==> err == CartError::InvalidUtf8
            }
        }),
{
    if ext_is_fc(&ext) {
        return match deserialize_fc(data) {
            Ok((cartridge, mode)) => Ok(LoadedCartridge { cartridge, mode }),
            Err(e) => Err(e),
        };
    }
    let mode = if ext_equals(&ext, 0x74, 0x69, 0x63) {
        ConsoleMode::Tic80
    } else {
        ConsoleMode::Pico8
    };
    let cartridge = if ext_equals(&ext, 0x70, 0x6E, 0x67) {
        match load_p8_png(data) {
            Ok((lua_code, sprite_sheet)) => Cartridge { lua_code, sprite_sheet },
            Err(e) => return Err(e),
        }
    } else {
        match parse_p8(data) {
            Ok(c) => c,
            Err(e) => return Err(e),
        }
    };
    Ok(LoadedCartridge { cartridge, mode })
}

/// Loads the cartridge stored at `path` with contents `data`, choosing the
/// format and console mode from the path's extension (see
/// `load_cartridge_from`).
pub fn load_cartridge(path: &str, data: &[u8]) -> (r: Result<LoadedCartridge, CartError>)
    ensures
        ({
            let e = path_extension(path@);
            if e == Some(ext_fc()) {
                fc_loaded(data@, r)
            } else if e == Some(ext_png()) {
                &&& r is Ok <==> png_frame(data@) is Some
                &&& r matches Ok(l) ==> {
                    &&& l.mode == ext_mode(e)
                    &&& l.cartridge.lua_code@ == png_code(png_frame(data@).unwrap())
                    &&& l.cartridge.sprite_sheet@ == png_sheet(hidden_data(png_frame(data@).unwrap()))
                }
                &&& r matches Err(err) ==> err == CartError::BadImage
            } else {
                &&& r is Ok <==> valid_utf8(data@)
                &&& r matches Ok(l) ==> {
                    &&& l.mode == ext_mode(e)
                    &&& l.cartridge.lua_code@ == p8_code(decode_utf8(data@))
                    &&& l.cartridge.sprite_sheet@ == p8_sheet(decode_utf8(data@))
                }
                &&& r matches Err(err) ==> err == CartError::InvalidUtf8
            }
        }),
{
    let ext = file_extension(path);
    load_cartridge_from(ext, data)
}

} // verus!
