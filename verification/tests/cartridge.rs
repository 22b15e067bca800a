use fantasyconsole::cart::loader::{deserialize_fc, parse_p8, serialize_fc, CartError, Cartridge};
use fantasyconsole::cart::png_loader::{decode_p8_png_pixels, load_p8_png};
use fantasyconsole::cart::{load_cartridge, load_cartridge_from};
use fantasyconsole::console::ConsoleMode;

const SAMPLE_P8: &str = "pico-8 cartridge // http://www.pico-8.com\nversion 41\n__lua__\nfunction _draw()\n cls(1)\nend\n__gfx__\n0123\n  fa  \n\n__map__\n0102\n";

#[test]
fn parse_p8_sections() {
    let c = parse_p8(SAMPLE_P8.as_bytes()).unwrap();
    assert_eq!(c.lua_code, "function _draw()\n cls(1)\nend\n");
    assert_eq!(c.sprite_sheet.len(), 256 * 256);
    assert_eq!(&c.sprite_sheet[0..5], &[0, 1, 2, 3, 0]);
    assert_eq!(&c.sprite_sheet[256..259], &[15, 10, 0]);
    // the blank line in `__gfx__` does not take a row
    assert!(c.sprite_sheet[512..].iter().all(|v| *v == 0));
}

#[test]
fn parse_p8_gfx_row_limit_and_bad_digits() {
    let mut text = String::from("__gfx__\n");
    text.push_str("g1z2\n");
    let c = parse_p8(text.as_bytes()).unwrap();
    // non-hex characters leave their pixel as it was, but still take a column
    assert_eq!(&c.sprite_sheet[0..4], &[0, 1, 0, 2]);
    assert_eq!(c.lua_code, "");
}

#[test]
fn parse_p8_without_sections_is_all_code() {
    let c = parse_p8(b"print(1)\r\nprint(2)").unwrap();
    assert_eq!(c.lua_code, "print(1)\nprint(2)\n");
    assert!(c.sprite_sheet.iter().all(|v| *v == 0));
    let e = parse_p8(b"").unwrap();
    assert_eq!(e.lua_code, "");
}

#[test]
fn parse_p8_rejects_invalid_utf8() {
    assert_eq!(parse_p8(&[0x5f, 0x5f, 0xff, 0x0a]).err(), Some(CartError::InvalidUtf8));
}

fn cart(code: &str, sheet: Vec<u8>) -> Cartridge {
    Cartridge { lua_code: code.to_string(), sprite_sheet: sheet }
}

#[test]
fn serialize_fc_layout() {
    let mut sheet = vec![0u8; 256 * 256];
    sheet[0] = 7;
    let out = serialize_fc(&cart("x=1", sheet), ConsoleMode::Tic80);
    assert_eq!(&out[0..8], b"FCST\x01\x01\x00\x00");
    assert_eq!(&out[8..16], &[0x01, 0, 0, 0, 3, b'x', b'=', b'1']);
    assert_eq!(&out[16..21], &[0x02, 0, 1, 0, 0]);
    assert_eq!(out[21], 7);
    assert_eq!(out.len(), 21 + 65536);
    // empty code and sheet write no chunk at all
    let bare = serialize_fc(&cart("", Vec::new()), ConsoleMode::Pico8);
    assert_eq!(bare, b"FCST\x01\x00\x00\x00".to_vec());
}

#[test]
fn fc_roundtrip() {
    let mut sheet = vec![0u8; 256 * 256];
    for (i, v) in sheet.iter_mut().enumerate() {
        *v = (i % 16) as u8;
    }
    let written = cart("function _init()\n  x = \"é\"\nend\n", sheet.clone());
    for mode in [ConsoleMode::Pico8, ConsoleMode::Tic80] {
        let bytes = serialize_fc(&written, mode);
        let (back, m) = deserialize_fc(&bytes).unwrap();
        assert_eq!(m, mode);
        assert_eq!(back.lua_code, written.lua_code);
        assert_eq!(back.sprite_sheet, sheet);
    }
}

#[test]
fn deserialize_fc_errors() {
    assert_eq!(deserialize_fc(b"FCS").err(), Some(CartError::UnexpectedEof));
    assert_eq!(deserialize_fc(b"FCSX\x01\x00\x00\x00").err(), Some(CartError::BadSignature));
    assert_eq!(deserialize_fc(b"FCST\x01\x00").err(), Some(CartError::UnexpectedEof));
    assert_eq!(deserialize_fc(b"FCST\x01\x02\x00\x00").err(), Some(CartError::UnknownMode));
    // a chunk header cut short, and a payload cut short
    assert_eq!(deserialize_fc(b"FCST\x01\x00\x00\x00\x01\x00\x00").err(), Some(CartError::UnexpectedEof));
    assert_eq!(deserialize_fc(b"FCST\x01\x00\x00\x00\x01\x00\x00\x00\x05ab").err(), Some(CartError::UnexpectedEof));
    assert_eq!(
        deserialize_fc(b"FCST\x01\x00\x00\x00\x01\x00\x00\x00\x02\xff\xfe").err(),
        Some(CartError::CorruptCode)
    );
}

#[test]
fn deserialize_fc_chunks() {
    // header only: empty code, blank sheet
    let (c, m) = deserialize_fc(b"FCST\x01\x00\x00\x00").unwrap();
    assert_eq!(m, ConsoleMode::Pico8);
    assert_eq!(c.lua_code, "");
    assert_eq!(c.sprite_sheet, vec![0u8; 65536]);
    // unknown chunks are skipped, a short sprite chunk fills the start of the sheet
    let data = b"FCST\x01\x01\x00\x00\x09\x00\x00\x00\x01z\x02\x00\x00\x00\x02\x05\x06\x01\x00\x00\x00\x02hi";
    let (c, m) = deserialize_fc(data).unwrap();
    assert_eq!(m, ConsoleMode::Tic80);
    assert_eq!(c.lua_code, "hi");
    assert_eq!(&c.sprite_sheet[0..3], &[5, 6, 0]);
    assert_eq!(c.sprite_sheet.len(), 65536);
}

fn conceal(data: &[u8]) -> Vec<u8> {
    // 160 x 205 RGBA pixels; byte k of the data goes, two bits at a time,
    // into the low bits of pixel bytes 4k .. 4k + 4.
    let mut px = vec![0xF0u8; 160 * 205 * 4];
    for (k, b) in data.iter().enumerate() {
        for j in 0..4 {
            px[4 * k + j] = (px[4 * k + j] & 0xFC) | ((b >> (2 * j)) & 3);
        }
    }
    px
}

fn hidden_cart(code: &[u8]) -> Vec<u8> {
    let mut data = vec![0u8; 32768];
    data[0] = 0x21;
    data[1] = 0x0f;
    data[0x4300..0x4300 + code.len()].copy_from_slice(code);
    data
}

fn encode_png(px: &[u8]) -> Vec<u8> {
    let mut out = Vec::new();
    {
        let mut enc = png::Encoder::new(&mut out, 160, 205);
        enc.set_color(png::ColorType::Rgba);
        enc.set_depth(png::BitDepth::Eight);
        let mut w = enc.write_header().unwrap();
        w.write_image_data(px).unwrap();
    }
    out
}

#[test]
fn decode_p8_png_pixels_plain_code() {
    let px = conceal(&hidden_cart(b"print(\"hi\")\0junk"));
    let (code, sheet) = decode_p8_png_pixels(&px);
    assert_eq!(code, "print(\"hi\")");
    assert_eq!(sheet.len(), 128 * 128);
    assert_eq!(&sheet[0..4], &[1, 2, 15, 0]);
}

#[test]
fn decode_p8_png_pixels_pxa_code() {
    // marker, size (2 bytes), two more header bytes, then one block whose
    // header bit 3 is a back reference (offset 3, length 3)
    let mut stream = b"pxa:\x00\x0a\x00\x00".to_vec();
    stream.extend_from_slice(&[0b0000_1000, b'a', b'b', b'c', 0x00, 0x31, b'd', b'e', b'f', b'g', 0x00]);
    let (code, _) = decode_p8_png_pixels(&conceal(&hidden_cart(&stream)));
    assert_eq!(code, "abcabcdefg");
    let mut nl = b"\npxa:\x00\x02\x00\x00".to_vec();
    nl.extend_from_slice(&[0b0000_0000]);
    let (code, _) = decode_p8_png_pixels(&conceal(&hidden_cart(&nl)));
    assert_eq!(code, "");
}

#[test]
fn decode_p8_png_pixels_invalid_utf8_code_is_empty() {
    let (code, _) = decode_p8_png_pixels(&conceal(&hidden_cart(&[0xff, 0xfe])));
    assert_eq!(code, "");
}

#[test]
fn load_p8_png_decodes_image() {
    let file = encode_png(&conceal(&hidden_cart(b"x=42")));
    let (code, sheet) = load_p8_png(&file).unwrap();
    assert_eq!(code, "x=42");
    assert_eq!(&sheet[0..3], &[1, 2, 15]);
    assert_eq!(load_p8_png(b"not a png").err(), Some(CartError::BadImage));
}

#[test]
fn load_cartridge_by_extension() {
    let p8 = load_cartridge("games/demo.p8", SAMPLE_P8.as_bytes()).unwrap();
    assert_eq!(p8.mode, ConsoleMode::Pico8);
    assert_eq!(p8.cartridge.lua_code, "function _draw()\n cls(1)\nend\n");
    let tic = load_cartridge("demo.tic", b"__lua__\nx=1").unwrap();
    assert_eq!(tic.mode, ConsoleMode::Tic80);
    assert_eq!(tic.cartridge.lua_code, "x=1\n");
    let none = load_cartridge("README", b"y=2").unwrap();
    assert_eq!(none.mode, ConsoleMode::Pico8);
    assert_eq!(none.cartridge.lua_code, "y=2\n");
    let png_file = encode_png(&conceal(&hidden_cart(b"z=3")));
    let img = load_cartridge("cart.p8.png", &png_file).unwrap();
    assert_eq!(img.mode, ConsoleMode::Pico8);
    assert_eq!(img.cartridge.lua_code, "z=3");
    assert_eq!(img.cartridge.sprite_sheet.len(), 128 * 128);
    assert_eq!(load_cartridge("cart.png", b"plain text").err(), Some(CartError::BadImage));
    assert_eq!(load_cartridge("cart.p8", &[0xc3]).err(), Some(CartError::InvalidUtf8));
}

#[test]
fn load_cartridge_from_extension_bytes() {
    let t = load_cartridge_from(Some(b"tic".to_vec()), b"a").unwrap();
    assert_eq!(t.mode, ConsoleMode::Tic80);
    let p = load_cartridge_from(None, b"a").unwrap();
    assert_eq!(p.mode, ConsoleMode::Pico8);
    assert_eq!(load_cartridge_from(Some(b"png".to_vec()), b"a").err(), Some(CartError::BadImage));
}

#[test]
fn load_cartridge_reads_fc_natively() {
    let mut sheet = vec![0u8; 65536];
    sheet[3] = 4;
    let bytes = serialize_fc(&cart("x=1", sheet), ConsoleMode::Tic80);
    let l = load_cartridge("game.fc", &bytes).unwrap();
    assert_eq!(l.mode, ConsoleMode::Tic80);
    assert_eq!(l.cartridge.lua_code, "x=1");
    assert_eq!(l.cartridge.sprite_sheet[3], 4);
    assert_eq!(load_cartridge("game.fc", b"FCSX\x01\x00\x00\x00").err(), Some(CartError::BadSignature));
    let f = load_cartridge_from(Some(b"fc".to_vec()), &bytes).unwrap();
    assert_eq!(f.mode, ConsoleMode::Tic80);
}
