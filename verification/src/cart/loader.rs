use vstd::prelude::*;
use vstd::utf8::{valid_utf8, decode_utf8, encode_utf8};
use vstd::slice::{slice_to_vec, slice_subrange};
use crate::console::ConsoleMode;
use crate::cart::text::{string_from_utf8, string_push, chars_of, push_chars, trim, trim_range, hex_value, hex_digit};

verus! {

/// The contents of a cartridge: its Lua program and its sprite sheet.
pub struct Cartridge {
    pub lua_code: String,
    pub sprite_sheet: Vec<u8>,
}

/// Why a cartridge could not be read.
#[derive(Debug, Clone, Copy, PartialEq, Eq, Structural)]
pub enum CartError {
    /// The data ended in the middle of a field.
    UnexpectedEof,
    /// A `.fc` file does not start with the `FCST` signature.
    BadSignature,
    /// A `.fc` header names a console mode other than PICO-8 or TIC-80.
    UnknownMode,
    /// The code chunk of a `.fc` file is not valid UTF-8.
    CorruptCode,
    /// A text cartridge is not valid UTF-8.
    InvalidUtf8,
    /// A `.p8.png` image could not be decoded.
    BadImage,
}

/// A blank sprite sheet.
pub open spec fn blank_sheet() -> Seq<u8> {
    Seq::new(65536, |i: int| 0u8)
}

// ---------------------------------------------------------------------------
// Plain-text `.p8` cartridges
// ---------------------------------------------------------------------------

/// What the `.p8` reader has gathered after some lines.
pub ghost struct P8Scan {
    /// The last section marker seen (a trimmed line such as `__lua__`).
    pub section: Seq<char>,
    /// The next sprite-sheet row the `__gfx__` section fills.
    pub gfx_row: int,
    /// The lines of the `__lua__` section, each followed by a newline.
    pub lua: Seq<char>,
    pub sheet: Seq<u8>,
    /// Whether any section marker was seen.
    pub found: bool,
    /// Every line, each followed by a newline.
    pub fallback: Seq<char>,
}

/// The number of characters before the first newline of `s` (all of them
/// when there is none).
pub open spec fn line_end(s: Seq<char>) -> int
    decreases s.len(),
{
    if s.len() == 0 || s[0] == '\n' {
        0
    } else {
        1 + line_end(s.drop_first())
    }
}

pub proof fn lemma_line_end_bound(s: Seq<char>)
    ensures
        0 <= line_end(s) <= s.len(),
    decreases s.len(),
{
    if s.len() > 0 && s[0] != '\n' {
        lemma_line_end_bound(s.drop_first());
    }
}

/// A section marker: a trimmed line that starts and ends with `__`.
pub open spec fn is_marker(t: Seq<char>) -> bool {
    t.len() >= 2 && t[0] == '_' && t[1] == '_' && t[t.len() - 1] == '_' && t[t.len() - 2] == '_'
}

pub open spec fn lua_marker() -> Seq<char> {
    seq!['_', '_', 'l', 'u', 'a', '_', '_']
}

pub open spec fn gfx_marker() -> Seq<char> {
    seq!['_', '_', 'g', 'f', 'x', '_', '_']
}

/// `sheet` with row `row` set from the hexadecimal digits of `t` (at most
/// 256 of them); other characters leave their pixel as it was.
pub open spec fn gfx_row_update(sheet: Seq<u8>, row: int, t: Seq<char>) -> Seq<u8> {
    Seq::new(
        sheet.len(),
        |i: int|
            {
                let col = i - row * 256;
                if 0 <= col < 256 && col < t.len() && hex_value(t[col]) is Some {
                    hex_value(t[col]).unwrap()
                } else {
                    sheet[i]
                }
            },
    )
}

/// The reader's state after one more line.
pub open spec fn p8_step(st: P8Scan, line: Seq<char>) -> P8Scan {
    let t = trim(line);
    let st = P8Scan { fallback: st.fallback + line.push('\n'), ..st };
    if is_marker(t) {
        P8Scan { section: t, found: true, ..st }
    } else if st.section == lua_marker() {
        P8Scan { lua: st.lua + line.push('\n'), ..st }
    } else if st.section == gfx_marker() && st.gfx_row < 256 && t.len() > 0 {
        P8Scan { sheet: gfx_row_update(st.sheet, st.gfx_row, t), gfx_row: st.gfx_row + 1, ..st }
    } else {
        st
    }
}

/// The reader's state after the lines of `s`: lines end at a newline,
/// which is dropped together with a carriage return just before it; a
/// last line without newline is taken as it is.
pub open spec fn p8_scan(s: Seq<char>, st: P8Scan) -> P8Scan
    decreases s.len(),
{
    if s.len() == 0 {
        st
    } else {
        proof {
            lemma_line_end_bound(s);
        }
        let i = line_end(s);
        let raw = s.take(i);
        let line = if i < s.len() && raw.len() > 0 && raw.last() == '\r' {
            raw.drop_last()
        } else {
            raw
        };
        let next = p8_step(st, line);
        if i < s.len() {
            p8_scan(s.skip(i + 1), next)
        } else {
            next
        }
    }
}

pub open spec fn p8_start() -> P8Scan {
    P8Scan { section: Seq::empty(), gfx_row: 0, lua: Seq::empty(), sheet: blank_sheet(), found: false, fallback: Seq::empty() }
}

/// The Lua code a `.p8` text holds: its `__lua__` section, or the whole
/// text (line by line) when it has no section markers at all.
pub open spec fn p8_code(text: Seq<char>) -> Seq<char> {
    let st = p8_scan(text, p8_start());
    if st.found {
        st.lua
    } else {
        st.fallback
    }
}

/// The sprite sheet a `.p8` text holds: one row per non-blank line of its
/// `__gfx__` section, one hexadecimal digit per pixel.
pub open spec fn p8_sheet(text: Seq<char>) -> Seq<u8> {
    p8_scan(text, p8_start()).sheet
}

proof fn lemma_line_end(s: Seq<char>, i: int)
    requires
        0 <= i <= s.len(),
        forall|k: int| 0 <= k < i ==> #[trigger] s[k] != '\n',
        i == s.len() || s[i] == '\n',
    ensures
        line_end(s) == i,
    decreases i,
{
    if i > 0 {
        lemma_line_end(s.drop_first(), i - 1);
    }
}

fn is_lua_section(t: &Vec<char>) -> (b: bool)
    ensures
        b == (t@ == lua_marker()),
{
    let r = t.len() == 7 && t[0] == '_' && t[1] == '_' && t[2] == 'l' && t[3] == 'u' && t[4] == 'a' && t[5] == '_'
        && t[6] == '_';
    proof {
        if r {
            assert(t@ =~= lua_marker());
        }
    }
    r
}

fn is_gfx_section(t: &Vec<char>) -> (b: bool)
    ensures
        b == (t@ == gfx_marker()),
{
    let r = t.len() == 7 && t[0] == '_' && t[1] == '_' && t[2] == 'g' && t[3] == 'f' && t[4] == 'x' && t[5] == '_'
        && t[6] == '_';
    proof {
        if r {
            assert(t@ =~= gfx_marker());
        }
    }
    r
}

/// Appends `v[from .. to]` and a newline to `s`.
fn push_line(s: &mut String, v: &Vec<char>, from: usize, to: usize)
    requires
        from <= to <= v@.len(),
    ensures
        final(s)@ == old(s)@ + v@.subrange(from as int, to as int).push('\n'),
{
    let mut k = from;
    while k < to
        invariant
            from <= k <= to,
            to <= v@.len(),
            s@ == old(s)@ + v@.subrange(from as int, k as int),
        decreases to - k,
    {
        string_push(s, v[k]);
        proof {
            assert(v@.subrange(from as int, k + 1) =~= v@.subrange(from as int, k as int).push(v@[k as int]));
        }
        k = k + 1;
    }
    string_push(s, '\n');
    assert(old(s)@ + v@.subrange(from as int, to as int).push('\n') =~= old(s)@ + v@.subrange(
        from as int,
        to as int,
    ) + seq!['\n']);
}

/// Reads a plain-text `.p8` cartridge: the `__lua__` section is the code
/// (or the whole text when there are no section markers) and the
/// `__gfx__` section fills the sprite sheet row by row.
pub fn parse_p8(data: &[u8]) -> (r: Result<Cartridge, CartError>)
    ensures
        r is Ok <==> valid_utf8(data@),
        r matches Ok(c) ==> c.lua_code@ == p8_code(decode_utf8(data@)) && c.sprite_sheet@ == p8_sheet(
            decode_utf8(data@),
        ),
        r matches Err(e) ==> e == CartError::InvalidUtf8,
{
    let text = match string_from_utf8(slice_to_vec(data)) {
        Some(t) => t,
        None => return Err(CartError::InvalidUtf8),
    };
    let chars = chars_of(text.as_str());
    let ghost s = chars@;
    let n = chars.len();
    let mut section: Vec<char> = Vec::new();
    let mut gfx_row: usize = 0;
    let mut lua = String::new();
    let mut sheet: Vec<u8> = vec![0u8; 65536];
    let mut found = false;
    let mut fallback = String::new();
    proof {
        assert(sheet@ =~= blank_sheet());
        assert(s.skip(0) =~= s);
    }
    let mut pos: usize = 0;
    while pos < n
        invariant
            n == s.len(),
            s == chars@,
            0 <= pos <= n,
            sheet@.len() == 65536,
            0 <= gfx_row <= 256,
            p8_scan(
                s.skip(pos as int),
                P8Scan {
                    section: section@,
                    gfx_row: gfx_row as int,
                    lua: lua@,
                    sheet: sheet@,
                    found,
                    fallback: fallback@,
                },
            ) == p8_scan(s, p8_start()),
        decreases n - pos,
    {
        let ghost rest = s.skip(pos as int);
        let ghost st = P8Scan { section: section@, gfx_row: gfx_row as int, lua: lua@, sheet: sheet@, found, fallback: fallback@ };
        let mut j = pos;
        while j < n && chars[j] != '\n'
            invariant
                pos <= j <= n,
                n == chars@.len(),
                forall|k: int| pos <= k < j ==> chars@[k] != '\n',
            decreases n - j,
        {
            j = j + 1;
        }
        proof {
            assert forall|k: int| 0 <= k < j - pos implies #[trigger] rest[k] != '\n' by {
                assert(rest[k] == s[pos + k]);
            }
            lemma_line_end(rest, j - pos);
        }
        let line_to = if j < n && j > pos && chars[j - 1] == '\r' { j - 1 } else { j };
        let ghost line = s.subrange(pos as int, line_to as int);
        proof {
            assert(rest.take(j - pos) =~= s.subrange(pos as int, j as int));
            if j < n && j > pos && chars[j - 1] == '\r' {
                assert(s.subrange(pos as int, j as int).drop_last() =~= line);
            }
        }
        let t = trim_range(&chars, pos, line_to);
        push_line(&mut fallback, &chars, pos, line_to);
        if t.len() >= 2 && t[0] == '_' && t[1] == '_' && t[t.len() - 1] == '_' && t[t.len() - 2] == '_' {
            section = t;
            found = true;
        } else if is_lua_section(&section) {
            push_line(&mut lua, &chars, pos, line_to);
        } else if is_gfx_section(&section) && gfx_row < 256 && t.len() > 0 {
            let ghost old_sheet = sheet@;
            let limit = if t.len() < 256 { t.len() } else { 256 };
            let mut col: usize = 0;
            while col < limit
                invariant
                    0 <= col <= limit,
                    limit <= 256,
                    limit <= t@.len(),
                    gfx_row < 256,
                    sheet@.len() == 65536,
                    old_sheet.len() == 65536,
                    sheet@ == Seq::new(
                        65536,
                        |i: int|
                            {
                                let c = i - gfx_row * 256;
                                if 0 <= c < col && hex_value(t@[c]) is Some {
                                    hex_value(t@[c]).unwrap()
                                } else {
                                    old_sheet[i]
                                }
                            },
                    ),
                decreases limit - col,
            {
                match hex_digit(t[col]) {
                    Some(d) => {
                        sheet.set(gfx_row * 256 + col, d);
                    },
                    None => {},
                }
                proof {
                    assert(sheet@ =~= Seq::new(
                        65536,
                        |i: int|
                            {
                                let c = i - gfx_row * 256;
                                if 0 <= c < col + 1 && hex_value(t@[c]) is Some {
                                    hex_value(t@[c]).unwrap()
                                } else {
                                    old_sheet[i]
                                }
                            },
                    ));
                }
                col = col + 1;
            }
            proof {
                assert(sheet@ =~= gfx_row_update(old_sheet, gfx_row as int, t@));
            }
            gfx_row = gfx_row + 1;
        }
        proof {
            let next = P8Scan { section: section@, gfx_row: gfx_row as int, lua: lua@, sheet: sheet@, found, fallback: fallback@ };
            assert(p8_step(st, line) == next);
        }
        if j < n {
            proof {
                assert(rest.skip(j - pos + 1) =~= s.skip(j + 1));
            }
            pos = j + 1;
        } else {
            proof {
                assert(s.skip(n as int) =~= Seq::<char>::empty());
            }
            pos = n;
        }
    }
    proof {
        assert(s.skip(n as int) =~= Seq::<char>::empty());
    }
    let lua_code = if found { lua } else { fallback };
    Ok(Cartridge { lua_code, sprite_sheet: sheet })
}

// ---------------------------------------------------------------------------
// Native `.fc` chunk cartridges
// ---------------------------------------------------------------------------

/// The `FCST` signature every `.fc` file starts with.
pub open spec fn fc_magic() -> Seq<u8> {
    seq![0x46u8, 0x43u8, 0x53u8, 0x54u8]
}

/// The header byte for a console mode.
pub open spec fn mode_byte(mode: ConsoleMode) -> u8 {
    match mode {
        ConsoleMode::Pico8 => 0,
        ConsoleMode::Tic80 => 1,
    }
}

/// The four big-endian bytes of `v`.
pub open spec fn be32(v: u32) -> Seq<u8> {
    seq![(v / 0x100_0000) as u8, ((v / 0x1_0000) % 256) as u8, ((v / 256) % 256) as u8, (v % 256) as u8]
}

/// The number the four big-endian bytes at `pos` spell.
pub open spec fn read_be32(data: Seq<u8>, pos: int) -> int {
    data[pos] * 0x100_0000 + data[pos + 1] * 0x1_0000 + data[pos + 2] * 256 + data[pos + 3]
}

/// One chunk: type byte, big-endian size, payload (the size is truncated
/// to 32 bits, as the writer stores it).
pub open spec fn fc_chunk(kind: u8, payload: Seq<u8>) -> Seq<u8> {
    seq![kind] + be32(payload.len() as u32) + payload
}

/// The `.fc` file for a cartridge whose code encodes to `code` and whose
/// sheet is `sheet`: signature, header (version 1, mode, two reserved
/// zeros), then a code chunk and a sprite chunk, each only when non-empty.
pub open spec fn fc_encode(code: Seq<u8>, sheet: Seq<u8>, mode: ConsoleMode) -> Seq<u8> {
    fc_magic() + seq![1u8, mode_byte(mode), 0u8, 0u8] + (if code.len() > 0 {
        fc_chunk(1, code)
    } else {
        Seq::empty()
    }) + (if sheet.len() > 0 {
        fc_chunk(2, sheet)
    } else {
        Seq::empty()
    })
}

/// Reads the chunks of a `.fc` file from `pos` on: a code chunk (type 1)
/// replaces the code, a sprite chunk (type 2) overwrites the start of the
/// sheet, other chunks are skipped; a chunk cut short is an error.
#[verifier::opaque]
pub open spec fn fc_chunks(data: Seq<u8>, pos: int, code: Seq<char>, sheet: Seq<u8>) -> Result<
    (Seq<char>, Seq<u8>),
    CartError,
>
    decreases data.len() - pos,
{
    if pos >= data.len() {
        Ok((code, sheet))
    } else if pos + 5 > data.len() {
        Err(CartError::UnexpectedEof)
    } else {
        let size = read_be32(data, pos + 1);
        let start = pos + 5;
        if start + size > data.len() {
            Err(CartError::UnexpectedEof)
        } else {
            let payload = data.subrange(start, start + size);
            if data[pos] == 1 {
                if valid_utf8(payload) {
                    fc_chunks(data, start + size, decode_utf8(payload), sheet)
                } else {
                    Err(CartError::CorruptCode)
                }
            } else if data[pos] == 2 {
                fc_chunks(
                    data,
                    start + size,
                    code,
                    Seq::new(sheet.len(), |i: int| if i < size { payload[i] } else { sheet[i] }),
                )
            } else {
                fc_chunks(data, start + size, code, sheet)
            }
        }
    }
}

/// What reading a whole `.fc` file gives: code, sheet and mode, or why it
/// failed.
pub open spec fn fc_decode(data: Seq<u8>) -> Result<(Seq<char>, Seq<u8>, ConsoleMode), CartError> {
    if data.len() < 4 {
        Err(CartError::UnexpectedEof)
    } else if data.take(4) != fc_magic() {
        Err(CartError::BadSignature)
    } else if data.len() < 8 {
        Err(CartError::UnexpectedEof)
    } else if data[5] != 0 && data[5] != 1 {
        Err(CartError::UnknownMode)
    } else {
        let mode = if data[5] == 0 {
            ConsoleMode::Pico8
        } else {
            ConsoleMode::Tic80
        };
        match fc_chunks(data, 8, Seq::empty(), blank_sheet()) {
            Ok((code, sheet)) => Ok((code, sheet, mode)),
            Err(e) => Err(e),
        }
    }
}

fn push_be32(buf: &mut Vec<u8>, v: u32)
    ensures
        final(buf)@ == old(buf)@ + be32(v),
{
    buf.push((v / 0x100_0000) as u8);
    buf.push(((v / 0x1_0000) % 256) as u8);
    buf.push(((v / 256) % 256) as u8);
    buf.push((v % 256) as u8);
    assert(buf@ =~= old(buf)@ + be32(v));
}

fn push_all(buf: &mut Vec<u8>, bytes: &[u8])
    ensures
        final(buf)@ == old(buf)@ + bytes@,
{
    let mut i: usize = 0;
    while i < bytes.len()
        invariant
            0 <= i <= bytes@.len(),
            buf@ == old(buf)@ + bytes@.take(i as int),
        decreases bytes@.len() - i,
    {
        buf.push(bytes[i]);
        proof {
            assert(bytes@.take(i + 1) =~= bytes@.take(i as int).push(bytes@[i as int]));
        }
        i = i + 1;
    }
    assert(bytes@.take(bytes@.len() as int) =~= bytes@);
}

/// Writes a cartridge in the native `.fc` chunk format.
pub fn serialize_fc(cart: &Cartridge, mode: ConsoleMode) -> (out: Vec<u8>)
    ensures
        out@ == fc_encode(encode_utf8(cart.lua_code@), cart.sprite_sheet@, mode),
{
    let mut buffer: Vec<u8> = Vec::new();
    buffer.push(0x46);
    buffer.push(0x43);
    buffer.push(0x53);
    buffer.push(0x54);
    let mb: u8 = match mode {
        ConsoleMode::Pico8 => 0x00,
        ConsoleMode::Tic80 => 0x01,
    };
    buffer.push(0x01);
    buffer.push(mb);
    buffer.push(0x00);
    buffer.push(0x00);
    let ghost head = buffer@;
    let code_bytes = cart.lua_code.as_str().as_bytes();
    if code_bytes.len() > 0 {
        buffer.push(0x01);
        push_be32(&mut buffer, code_bytes.len() as u32);
        push_all(&mut buffer, code_bytes);
    }
    let ghost mid = buffer@;
    if cart.sprite_sheet.len() > 0 {
        buffer.push(0x02);
        push_be32(&mut buffer, cart.sprite_sheet.len() as u32);
        push_all(&mut buffer, cart.sprite_sheet.as_slice());
    }
    proof {
        let code = encode_utf8(cart.lua_code@);
        assert(head =~= fc_magic() + seq![1u8, mode_byte(mode), 0u8, 0u8]);
        if code.len() > 0 {
            assert(mid =~= head + fc_chunk(1, code));
        } else {
            assert(mid =~= head + Seq::<u8>::empty());
        }
        if cart.sprite_sheet@.len() > 0 {
            assert(buffer@ =~= mid + fc_chunk(2, cart.sprite_sheet@));
        } else {
            assert(buffer@ =~= mid + Seq::<u8>::empty());
        }
        assert(buffer@ =~= fc_encode(code, cart.sprite_sheet@, mode));
    }
    buffer
}

/// Reads a cartridge in the native `.fc` chunk format, with the console
/// mode its header names.
pub fn deserialize_fc(data: &[u8]) -> (r: Result<(Cartridge, ConsoleMode), CartError>)
    ensures
        match (r, fc_decode(data@)) {
            (Ok((c, m)), Ok((code, sheet, mode))) => c.lua_code@ == code && c.sprite_sheet@ == sheet && m == mode,
            (Err(e), Err(f)) => e == f,
            _ => false,
        },
{
    let len = data.len();
    if len < 4 {
        return Err(CartError::UnexpectedEof);
    }
    if !(data[0] == 0x46 && data[1] == 0x43 && data[2] == 0x53 && data[3] == 0x54) {
        proof {
            if data@.take(4) == fc_magic() {
                assert(data@.take(4)[0] == data@[0]);
                assert(data@.take(4)[1] == data@[1]);
                assert(data@.take(4)[2] == data@[2]);
                assert(data@.take(4)[3] == data@[3]);
            }
        }
        return Err(CartError::BadSignature);
    }
    assert(data@.take(4) =~= fc_magic());
    if len < 8 {
        return Err(CartError::UnexpectedEof);
    }
    let mode = match data[5] {
        0x00 => ConsoleMode::Pico8,
        0x01 => ConsoleMode::Tic80,
        _ => return Err(CartError::UnknownMode),
    };
    let mut lua_code = String::new();
    let mut sheet: Vec<u8> = vec![0u8; 65536];
    proof {
        assert(sheet@ =~= blank_sheet());
    }
    let mut pos: usize = 8;
    while pos < len
        invariant
            len == data@.len(),
            8 <= pos <= len,
            data@.take(4) == fc_magic(),
            data@[5] == mode_byte(mode),
            sheet@.len() == 65536,
            fc_chunks(data@, pos as int, lua_code@, sheet@) == fc_chunks(data@, 8, Seq::empty(), blank_sheet()),
        decreases len - pos,
    {
        proof {
            reveal(fc_chunks);
        }
        if len - pos < 5 {
            return Err(CartError::UnexpectedEof);
        }
        let kind = data[pos];
        let size: u32 = (data[pos + 1] as u32) * 0x100_0000 + (data[pos + 2] as u32) * 0x1_0000 + (data[pos + 3] as u32)
            * 256 + (data[pos + 4] as u32);
        let start = pos + 5;
        if size as usize > len - start {
            return Err(CartError::UnexpectedEof);
        }
        let end = start + size as usize;
        let payload = slice_subrange(data, start, end);
        if kind == 0x01 {
            match string_from_utf8(slice_to_vec(payload)) {
                Some(s) => {
                    lua_code = s;
                },
                None => {
                    return Err(CartError::CorruptCode);
                },
            }
        } else if kind == 0x02 {
            let ghost old_sheet = sheet@;
            let n = if payload.len() < 65536 { payload.len() } else { 65536 };
            let mut i: usize = 0;
            while i < n
                invariant
                    0 <= i <= n,
                    n <= 65536,
                    n <= payload@.len(),
                    n == (if payload@.len() < 65536 { payload@.len() } else { 65536 }),
                    old_sheet.len() == 65536,
                    sheet@ == Seq::new(65536, |k: int| if k < i { payload@[k] } else { old_sheet[k] }),
                decreases n - i,
            {
                sheet.set(i, payload[i]);
                proof {
                    assert(sheet@ =~= Seq::new(65536, |k: int| if k < i + 1 { payload@[k] } else { old_sheet[k] }));
                }
                i = i + 1;
            }
            proof {
                assert(sheet@ =~= Seq::new(
                    old_sheet.len(),
                    |k: int| if k < size { payload@[k] } else { old_sheet[k] },
                ));
            }
        }
        pos = end;
    }
    proof {
        reveal(fc_chunks);
    }
    Ok((Cartridge { lua_code, sprite_sheet: sheet }, mode))
}

proof fn lemma_be32(v: u32)
    ensures
        be32(v).len() == 4,
        be32(v)[0] * 0x100_0000 + be32(v)[1] * 0x1_0000 + be32(v)[2] * 256 + be32(v)[3] == v,
{
    let a = v / 0x100_0000;
    let b = (v / 0x1_0000) % 256;
    let c = (v / 256) % 256;
    let d = v % 256;
    assert(a * 0x100_0000 + b * 0x1_0000 + c * 256 + d == v) by (nonlinear_arith)
        requires
            a == v / 0x100_0000,
            b == (v / 0x1_0000) % 256,
            c == (v / 256) % 256,
            d == v % 256,
            0 <= v < 0x1_0000_0000,
    ;
    assert(a < 256) by (nonlinear_arith)
        requires
            a == v / 0x100_0000,
            0 <= v < 0x1_0000_0000,
    ;
}

proof fn lemma_encode_empty(code: Seq<char>)
    ensures
        encode_utf8(code).len() == 0 <==> code.len() == 0,
{
    if code.len() > 0 {
        vstd::utf8::encode_utf8_first_scalar(code);
    }
}

/// Reading a chunk written by the writer gives back its type, size and
/// payload.
/// A chunk of type `kind` with payload `payload` starts at `pos` in `data`.
#[verifier::opaque]
pub open spec fn chunk_at(data: Seq<u8>, pos: int, kind: u8, payload: Seq<u8>) -> bool {
    &&& 0 <= pos < data.len()
    &&& data[pos] == kind
    &&& read_be32(data, pos + 1) == payload.len()
    &&& pos + 5 + payload.len() <= data.len()
    &&& data.subrange(pos + 5, pos + 5 + payload.len()) == payload
}

proof fn lemma_read_chunk(pre: Seq<u8>, kind: u8, payload: Seq<u8>, post: Seq<u8>)
    requires
        payload.len() < 0x1_0000_0000,
    ensures
        chunk_at(pre + fc_chunk(kind, payload) + post, pre.len() as int, kind, payload),
{
    reveal(chunk_at);
    let data = pre + fc_chunk(kind, payload) + post;
    let pos = pre.len() as int;
    lemma_be32(payload.len() as u32);
    assert(data[pos] == kind);
    assert(data[pos + 1] == be32(payload.len() as u32)[0]);
    assert(data[pos + 2] == be32(payload.len() as u32)[1]);
    assert(data[pos + 3] == be32(payload.len() as u32)[2]);
    assert(data[pos + 4] == be32(payload.len() as u32)[3]);
    assert(data.subrange(pos + 5, pos + 5 + payload.len()) =~= payload);
}

proof fn lemma_chunks_end(data: Seq<u8>, pos: int, code: Seq<char>, sheet: Seq<u8>)
    requires
        pos == data.len(),
    ensures
        fc_chunks(data, pos, code, sheet) == Ok::<_, CartError>((code, sheet)),
{
    reveal(fc_chunks);
}

proof fn lemma_chunks_sprite(pre: Seq<u8>, code: Seq<char>, sheet: Seq<u8>)
    requires
        sheet.len() == 65536,
    ensures
        fc_chunks(pre + fc_chunk(2, sheet), pre.len() as int, code, blank_sheet()) == Ok::<_, CartError>(
            (code, sheet),
        ),
{
    reveal(fc_chunks);
    let data = pre + fc_chunk(2, sheet);
    let pos = pre.len() as int;
    lemma_read_chunk(pre, 2, sheet, Seq::empty());
    reveal(chunk_at);
    assert(pre + fc_chunk(2, sheet) + Seq::<u8>::empty() =~= data);
    let after = Seq::new(65536, |i: int| if i < 65536 { data.subrange(pos + 5, pos + 5 + 65536)[i] } else { blank_sheet()[i] });
    assert(after =~= sheet);
    lemma_chunks_end(data, pos + 5 + 65536, code, sheet);
}

proof fn lemma_chunks_code(head: Seq<u8>, code: Seq<char>, sheet: Seq<u8>)
    requires
        sheet.len() == 65536,
        0 < encode_utf8(code).len() < 0x1_0000_0000,
    ensures
        fc_chunks(
            head + fc_chunk(1, encode_utf8(code)) + fc_chunk(2, sheet),
            head.len() as int,
            Seq::empty(),
            blank_sheet(),
        ) == Ok::<_, CartError>((code, sheet)),
{
    vstd::utf8::encode_utf8_valid_utf8(code);
    vstd::utf8::encode_utf8_decode_utf8(code);
    lemma_code_then_sprite(head, encode_utf8(code), code, sheet);
}

/// A code chunk holding valid UTF-8 for `code`, then a full sprite chunk,
/// read as that code and that sheet.
proof fn lemma_code_then_sprite(head: Seq<u8>, bytes: Seq<u8>, code: Seq<char>, sheet: Seq<u8>)
    requires
        sheet.len() == 65536,
        0 < bytes.len() < 0x1_0000_0000,
        valid_utf8(bytes),
        decode_utf8(bytes) == code,
    ensures
        fc_chunks(head + fc_chunk(1, bytes) + fc_chunk(2, sheet), head.len() as int, Seq::empty(), blank_sheet())
            == Ok::<_, CartError>((code, sheet)),
{
    let c2 = fc_chunk(2, sheet);
    let pre1 = head + fc_chunk(1, bytes);
    let data = pre1 + c2;
    let pos = head.len() as int;
    lemma_read_chunk(head, 1, bytes, c2);
    assert(pre1.len() == pos + 5 + bytes.len());
    lemma_code_chunk_step(data, pos, bytes, code, blank_sheet(), pre1.len() as int);
    lemma_chunks_sprite(pre1, code, sheet);
}

/// A code chunk at `pos` holding the UTF-8 encoding of `code` makes `code`
/// the code read so far.
proof fn lemma_code_chunk_step(data: Seq<u8>, pos: int, bytes: Seq<u8>, code: Seq<char>, sheet: Seq<u8>, next: int)
    requires
        next == pos + 5 + bytes.len(),
        chunk_at(data, pos, 1, bytes),
        valid_utf8(bytes),
        decode_utf8(bytes) == code,
    ensures
        fc_chunks(data, pos, Seq::empty(), sheet) == fc_chunks(data, next, code, sheet),
{
    reveal(fc_chunks);
    reveal(chunk_at);
}

/// The `.fc` layout `serialize_fc` writes: the bytes `F C S T`, version 1,
/// the mode (0 for PICO-8, 1 for TIC-80) and two zero bytes; then, when
/// there is code, chunk type 1 with its length in 4 big-endian bytes and
/// the code; then, when there is a sheet, chunk type 2 likewise.
pub proof fn lemma_fc_layout(code: Seq<u8>, sheet: Seq<u8>, mode: ConsoleMode)
    requires
        code.len() < 0x1_0000_0000,
        sheet.len() < 0x1_0000_0000,
    ensures
        ({
            let out = fc_encode(code, sheet, mode);
            let c: int = if code.len() > 0 { 5 + code.len() as int } else { 0 };
            let n: int = code.len() as int;
            let m: int = sheet.len() as int;
            &&& out.len() == 8 + c + (if sheet.len() > 0 { 5 + sheet.len() } else { 0 })
            &&& out[0] == 0x46 && out[1] == 0x43 && out[2] == 0x53 && out[3] == 0x54
            &&& out[4] == 1 && out[6] == 0 && out[7] == 0
            &&& out[5] == (if mode == ConsoleMode::Pico8 { 0u8 } else { 1u8 })
            &&& code.len() > 0 ==> {
                &&& out[8] == 1
                &&& out[9] * 0x100_0000 + out[10] * 0x1_0000 + out[11] * 0x100 + out[12] == code.len()
                &&& out.subrange(13, 13 + n) == code
            }
            &&& sheet.len() > 0 ==> {
                &&& out[8 + c] == 2
                &&& out[9 + c] * 0x100_0000 + out[10 + c] * 0x1_0000 + out[11 + c] * 0x100 + out[12 + c] == sheet.len()
                &&& out.subrange(13 + c, 13 + c + m) == sheet
            }
        }),
{
    let head = fc_magic() + seq![1u8, mode_byte(mode), 0u8, 0u8];
    let cc = if code.len() > 0 { fc_chunk(1, code) } else { Seq::empty() };
    let sc = if sheet.len() > 0 { fc_chunk(2, sheet) } else { Seq::empty() };
    let out = fc_encode(code, sheet, mode);
    assert(out == head + cc + sc);
    if code.len() > 0 {
        lemma_read_chunk(head, 1, code, sc);
        reveal(chunk_at);
    }
    if sheet.len() > 0 {
        lemma_read_chunk(head + cc, 2, sheet, Seq::empty());
        reveal(chunk_at);
        assert(head + cc + sc + Seq::<u8>::empty() =~= out);
    }
}

/// Chunks of a type other than code (1) and sprites (2) are skipped:
/// reading goes on after them with code and sheet as they were.
pub proof fn lemma_unknown_chunk_skipped(
    data: Seq<u8>,
    pos: int,
    kind: u8,
    payload: Seq<u8>,
    code: Seq<char>,
    sheet: Seq<u8>,
)
    requires
        chunk_at(data, pos, kind, payload),
        kind != 1,
        kind != 2,
    ensures
        fc_chunks(data, pos, code, sheet) == fc_chunks(data, pos + 5 + payload.len(), code, sheet),
{
    reveal(fc_chunks);
    reveal(chunk_at);
}

/// Round trip of the `.fc` format: reading back what `serialize_fc` wrote
/// for a cartridge with a full 256 x 256 sheet gives its code, its sheet
/// and the mode, unchanged.
pub proof fn lemma_fc_roundtrip(code: Seq<char>, sheet: Seq<u8>, mode: ConsoleMode)
    requires
        sheet.len() == 65536,
        encode_utf8(code).len() < 0x1_0000_0000,
    ensures
        fc_decode(fc_encode(encode_utf8(code), sheet, mode)) == Ok::<_, CartError>((code, sheet, mode)),
{
    let bytes = encode_utf8(code);
    let head = fc_magic() + seq![1u8, mode_byte(mode), 0u8, 0u8];
    let data = fc_encode(bytes, sheet, mode);
    lemma_encode_empty(code);
    if bytes.len() > 0 {
        assert(data =~= head + fc_chunk(1, bytes) + fc_chunk(2, sheet));
        lemma_chunks_code(head, code, sheet);
    } else {
        assert(data =~= head + fc_chunk(2, sheet));
        assert(code =~= Seq::<char>::empty());
        lemma_chunks_sprite(head, code, sheet);
    }
    assert(data.take(4) =~= fc_magic());
    assert(data[5] == mode_byte(mode));
}

} // verus!
