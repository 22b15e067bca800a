use vstd::prelude::*;
use vstd::utf8::{valid_utf8, decode_utf8};
use vstd::slice::slice_to_vec;
use crate::cart::loader::CartError;
use crate::cart::text::string_from_utf8;

verus! {

/// The pixel bytes of the first frame that the `png` crate decodes from an
/// image file, or `None` when it cannot decode one.
pub uninterp spec fn png_frame(data: Seq<u8>) -> Option<Seq<u8>>;

/// Decodes the first frame of a PNG image with the `png` crate
/// (`Decoder::new`, `read_info`, `next_frame`), keeping the bytes of that
/// frame. The claim is only that the result is a function of the file's
/// bytes; what the decoder computes is not stated.
#[verifier::external_body]
fn decode_png_frame(data: &[u8]) -> (r: Option<Vec<u8>>)
    ensures
        match r {
            Some(v) => png_frame(data@) == Some(v@),
            None => png_frame(data@) is None,
        },
{
    let mut reader = match png::Decoder::new(data).read_info() {
        Ok(reader) => reader,
        Err(_) => return None,
    };
    let mut buf = vec![0u8; reader.output_buffer_size()];
    match reader.next_frame(&mut buf) {
        Ok(info) => {
            buf.truncate(info.buffer_size());
            Some(buf)
        },
        Err(_) => None,
    }
}

/// The two low bits of pixel byte `i`, or 0 past the end.
pub open spec fn low_bits(px: Seq<u8>, i: int) -> int {
    if i < px.len() {
        (px[i] % 4) as int
    } else {
        0
    }
}

/// Byte `k` of the hidden data: the low two bits of pixel bytes
/// `4k .. 4k + 4`, least significant first.
pub open spec fn hidden_byte(px: Seq<u8>, k: int) -> u8 {
    (low_bits(px, 4 * k) + low_bits(px, 4 * k + 1) * 4 + low_bits(px, 4 * k + 2) * 16 + low_bits(px, 4 * k + 3)
        * 64) as u8
}

/// The 32 KiB the cartridge hides in the low bits of its image.
pub open spec fn hidden_data(px: Seq<u8>) -> Seq<u8> {
    Seq::new(32768, |k: int| hidden_byte(px, k))
}

/// The 128 x 128 sprite sheet from the first 8 KiB of hidden data, two
/// pixels per byte, low nibble first.
pub open spec fn png_sheet(d: Seq<u8>) -> Seq<u8> {
    Seq::new(16384, |i: int| if i % 2 == 0 { d[i / 2] % 16 } else { d[i / 2] / 16 })
}

/// Where the hidden bytes sit: bits `2j` and `2j + 1` of hidden byte `k`
/// are the two low bits of pixel byte `4k + j`.
pub proof fn lemma_hidden_bits(px: Seq<u8>, k: int, j: int)
    requires
        0 <= k < 32768,
        0 <= j < 4,
        4 * k + j < px.len(),
    ensures
        (hidden_data(px)[k] >> ((2 * j) as u8)) & 3u8 == px[4 * k + j] & 3u8,
{
    let a = (low_bits(px, 4 * k)) as u8;
    let b = (low_bits(px, 4 * k + 1)) as u8;
    let c = (low_bits(px, 4 * k + 2)) as u8;
    let d = (low_bits(px, 4 * k + 3)) as u8;
    let h = hidden_data(px)[k];
    assert(h == (a as int + b as int * 4 + c as int * 16 + d as int * 64) as u8);
    assert(a < 4 && b < 4 && c < 4 && d < 4);
    assert(h == a | (b << 2u8) | (c << 4u8) | (d << 6u8)) by (bit_vector)
        requires
            h == (a as int + b as int * 4 + c as int * 16 + d as int * 64) as u8,
            a < 4,
            b < 4,
            c < 4,
            d < 4,
    ;
    let p = px[4 * k + j];
    assert(p & 3u8 == p % 4) by (bit_vector);
    assert((h >> 0u8) & 3u8 == a && (h >> 2u8) & 3u8 == b && (h >> 4u8) & 3u8 == c && (h >> 6u8) & 3u8 == d) by (bit_vector)
        requires
            h == a | (b << 2u8) | (c << 4u8) | (d << 6u8),
            a < 4,
            b < 4,
            c < 4,
            d < 4,
    ;
    if j == 0 {
        assert(((2 * j) as u8) == 0u8);
    } else if j == 1 {
        assert(((2 * j) as u8) == 2u8);
    } else if j == 2 {
        assert(((2 * j) as u8) == 4u8);
    } else {
        assert(((2 * j) as u8) == 6u8);
    }
}

/// The sprite sheet of a `.p8.png` cartridge: pixel `2i` is the low nibble
/// of hidden byte `i`, pixel `2i + 1` its high nibble.
pub proof fn lemma_png_sheet_nibbles(d: Seq<u8>, i: int)
    requires
        0 <= i < 8192,
        d.len() == 32768,
    ensures
        png_sheet(d)[2 * i] == d[i] & 15u8,
        png_sheet(d)[2 * i + 1] == d[i] >> 4u8,
{
    let b = d[i];
    assert(b & 15u8 == b % 16 && b >> 4u8 == b / 16) by (bit_vector);
    assert((2 * i) % 2 == 0 && (2 * i) / 2 == i);
    assert((2 * i + 1) % 2 == 1 && (2 * i + 1) / 2 == i);
}

/// The code region of the hidden data.
pub open spec fn code_region(d: Seq<u8>) -> Seq<u8> {
    d.subrange(0x4300, 0x7FFF)
}

/// Whether bit `bit` of a block header is set.
pub open spec fn header_bit(h: u8, bit: u32) -> bool {
    (h >> bit) & 1u8 == 1u8
}

/// Appends `n` bytes copied from `start` on, each copy able to read bytes
/// the copy itself appended.
pub open spec fn lz_copy(out: Seq<u8>, start: int, n: int) -> Seq<u8>
    decreases n,
{
    if n <= 0 {
        out
    } else {
        lz_copy(out.push(out[start]), start + 1, n - 1)
    }
}

/// One block of the `pxa` stream from bit `bit` of its header on: a clear
/// bit copies one literal byte, a set bit reads a 12-bit back offset and a
/// 4-bit length (plus 2) and repeats earlier output; the block stops at the
/// end of the data. Gives the position after the block and the output.
pub open spec fn pxa_block(code: Seq<u8>, h: u8, pos: int, out: Seq<u8>, bit: u32) -> (int, Seq<u8>)
    decreases 8 - bit,
{
    if bit >= 8 || pos >= code.len() {
        (pos, out)
    } else if !header_bit(h, bit) {
        pxa_block(code, h, pos + 1, out.push(code[pos]), (bit + 1) as u32)
    } else if pos + 1 >= code.len() {
        (pos, out)
    } else {
        let b1 = code[pos] as int;
        let b2 = code[pos + 1] as int;
        let offset = b1 * 16 + b2 / 16;
        let length = b2 % 16 + 2;
        let out2 = if offset > 0 && offset <= out.len() {
            lz_copy(out, out.len() - offset, length)
        } else {
            out
        };
        pxa_block(code, h, pos + 2, out2, (bit + 1) as u32)
    }
}

pub proof fn lemma_pxa_block_pos(code: Seq<u8>, h: u8, pos: int, out: Seq<u8>, bit: u32)
    requires
        0 <= pos,
        bit <= 8,
    ensures
        pxa_block(code, h, pos, out, bit).0 >= pos,
        pos <= code.len() ==> pxa_block(code, h, pos, out, bit).0 <= code.len(),
    decreases 8 - bit,
{
    if bit >= 8 || pos >= code.len() {
    } else if !header_bit(h, bit) {
        lemma_pxa_block_pos(code, h, pos + 1, out.push(code[pos]), (bit + 1) as u32);
    } else if pos + 1 >= code.len() {
    } else {
        let b1 = code[pos] as int;
        let b2 = code[pos + 1] as int;
        let offset = b1 * 16 + b2 / 16;
        let length = b2 % 16 + 2;
        let out2 = if offset > 0 && offset <= out.len() {
            lz_copy(out, out.len() - offset, length)
        } else {
            out
        };
        lemma_pxa_block_pos(code, h, pos + 2, out2, (bit + 1) as u32);
    }
}

/// Byte `i` of the cyclic repetition of the last `d` bytes of `out`.
pub open spec fn repeat_tail(out: Seq<u8>, d: int, i: int) -> u8 {
    out[out.len() - d + i % d]
}

/// Copying `n` bytes from `d` bytes back repeats the last `d` bytes of
/// the output cyclically, even where the copy reads bytes it wrote itself.
proof fn lemma_lz_copy_repeats(out: Seq<u8>, d: int, n: int)
    requires
        0 < d <= out.len(),
        n >= 0,
    ensures
        lz_copy(out, out.len() - d, n) == out + Seq::new(n as nat, |i: int| repeat_tail(out, d, i)),
    decreases n,
{
    if n > 0 {
        let out2 = out.push(out[out.len() - d]);
        lemma_lz_copy_repeats(out2, d, n - 1);
        assert forall|i: int| 0 <= i < n - 1 implies #[trigger] repeat_tail(out2, d, i) == repeat_tail(out, d, i + 1) by {
            assert((i + 1) % d == if i % d < d - 1 { i % d + 1 } else { 0 }) by (nonlinear_arith)
                requires
                    0 < d,
                    0 <= i,
            {
                vstd::arithmetic::div_mod::lemma_fundamental_div_mod(i, d);
                vstd::arithmetic::div_mod::lemma_fundamental_div_mod(i + 1, d);
            }
        }
        assert(0int % d == 0) by (nonlinear_arith)
            requires
                0 < d,
        ;
        let lhs = out2 + Seq::new((n - 1) as nat, |i: int| repeat_tail(out2, d, i));
        let rhs = out + Seq::new(n as nat, |i: int| repeat_tail(out, d, i));
        assert forall|k: int| 0 <= k < rhs.len() implies lhs[k] == rhs[k] by {
            if k > out.len() {
                assert(repeat_tail(out2, d, k - out.len() - 1) == repeat_tail(out, d, k - out.len()));
            }
        }
        assert(out2 + Seq::new((n - 1) as nat, |i: int| repeat_tail(out2, d, i)) =~= out + Seq::new(
            n as nat,
            |i: int| repeat_tail(out, d, i),
        ));
    }
}

/// A `pxa` back reference: when bit `bit` of the block header is set, the
/// two bytes `b1 b2` at `pos` name the 12-bit offset `(b1 << 4) | (b2 >> 4)`
/// and the length `(b2 & 15) + 2`; that many bytes are appended, copied
/// from `offset` bytes back in the output (repeating the last `offset`
/// bytes when the length exceeds it), and reading goes on after the two
/// bytes. An offset of 0 or beyond the output appends nothing. A clear
/// header bit copies the one literal byte at `pos`.
pub proof fn lemma_pxa_step(code: Seq<u8>, h: u8, pos: int, out: Seq<u8>, bit: u32)
    requires
        bit < 8,
        0 <= pos < code.len(),
    ensures
        ((h >> bit) & 1u8 == 0u8) ==> pxa_block(code, h, pos, out, bit) == pxa_block(
            code,
            h,
            pos + 1,
            out.push(code[pos]),
            (bit + 1) as u32,
        ),
        ((h >> bit) & 1u8 == 1u8 && pos + 1 < code.len()) ==> ({
            let b1 = code[pos];
            let b2 = code[pos + 1];
            let offset = (((b1 as u16) << 4u16) | ((b2 as u16) >> 4u16)) as int;
            let n = ((b2 & 15u8) + 2) as int;
            pxa_block(code, h, pos, out, bit) == pxa_block(
                code,
                h,
                pos + 2,
                if 0 < offset <= out.len() {
                    out + Seq::new(n as nat, |i: int| repeat_tail(out, offset, i))
                } else {
                    out
                },
                (bit + 1) as u32,
            )
        }),
{
    if (h >> bit) & 1u8 == 1u8 && pos + 1 < code.len() {
        let b1 = code[pos];
        let b2 = code[pos + 1];
        assert((((b1 as u16) << 4u16) | ((b2 as u16) >> 4u16)) as int == b1 as int * 16 + b2 as int / 16) by (bit_vector);
        assert(((b2 & 15u8) + 2) as int == b2 as int % 16 + 2) by (bit_vector);
        let offset = b1 as int * 16 + b2 as int / 16;
        if 0 < offset <= out.len() {
            lemma_lz_copy_repeats(out, offset, b2 as int % 16 + 2);
        }
    }
}

/// The `pxa` stream from `pos` on: blocks, each led by a header byte, until
/// a zero header or the end of the data.
pub open spec fn pxa_stream(code: Seq<u8>, pos: int, out: Seq<u8>) -> Seq<u8>
    decreases code.len() - pos,
{
    if pos < 0 || pos >= code.len() {
        out
    } else if code[pos] == 0 {
        out
    } else {
        proof {
            lemma_pxa_block_pos(code, code[pos], pos + 1, out, 0);
        }
        let r = pxa_block(code, code[pos], pos + 1, out, 0);
        pxa_stream(code, r.0, r.1)
    }
}

/// Whether the code region starts with `prefix`.
pub open spec fn starts_with(s: Seq<u8>, prefix: Seq<u8>) -> bool {
    prefix.len() <= s.len() && s.take(prefix.len() as int) == prefix
}

/// `"\npxa:"`, the marker of compressed code (also recognised without the
/// newline).
pub open spec fn pxa_marker_nl() -> Seq<u8> {
    seq![0x0Au8, 0x70u8, 0x78u8, 0x61u8, 0x3Au8]
}

pub open spec fn pxa_marker() -> Seq<u8> {
    seq![0x70u8, 0x78u8, 0x61u8, 0x3Au8]
}

/// The bytes of `s` before its first zero byte.
pub open spec fn until_zero(s: Seq<u8>) -> Seq<u8>
    decreases s.len(),
{
    if s.len() == 0 || s[0] == 0 {
        Seq::empty()
    } else {
        seq![s[0]] + until_zero(s.drop_first())
    }
}

/// The code bytes of the region: the decompressed stream after a `pxa`
/// marker (whose data starts 4 bytes after the marker), else the plain
/// text up to the first zero byte.
pub open spec fn code_bytes(region: Seq<u8>) -> Seq<u8> {
    if starts_with(region, pxa_marker_nl()) {
        pxa_stream(region, 9, Seq::empty())
    } else if starts_with(region, pxa_marker()) {
        pxa_stream(region, 8, Seq::empty())
    } else {
        until_zero(region)
    }
}

/// The code text: the code bytes decoded as UTF-8, or empty when they are
/// not valid UTF-8.
pub open spec fn png_code(px: Seq<u8>) -> Seq<char> {
    let b = code_bytes(code_region(hidden_data(px)));
    if valid_utf8(b) {
        decode_utf8(b)
    } else {
        Seq::empty()
    }
}

fn extract_hidden(px: &[u8]) -> (d: Vec<u8>)
    ensures
        d@ == hidden_data(px@),
{
    let mut d: Vec<u8> = Vec::new();
    let len = px.len();
    let mut k: usize = 0;
    while k < 32768
        invariant
            0 <= k <= 32768,
            len == px@.len(),
            d@.len() == k,
            forall|i: int| 0 <= i < k ==> #[trigger] d@[i] == hidden_byte(px@, i),
        decreases 32768 - k,
    {
        let mut byte: u32 = 0;
        let mut j: usize = 0;
        let mut weight: u32 = 1;
        while j < 4
            invariant
                0 <= j <= 4,
                k < 32768,
                len == px@.len(),
                weight == (if j == 0 { 1u32 } else if j == 1 { 4u32 } else if j == 2 { 16u32 } else if j == 3 { 64u32 } else { 256u32 }),
                byte == (if j > 0 { low_bits(px@, 4 * k) } else { 0 }) + (if j > 1 { low_bits(px@, 4 * k + 1) * 4 } else { 0 })
                    + (if j > 2 { low_bits(px@, 4 * k + 2) * 16 } else { 0 }) + (if j > 3 { low_bits(px@, 4 * k + 3) * 64 } else { 0 }),
            decreases 4 - j,
        {
            let idx = 4 * k + j;
            if idx < len {
                byte = byte + ((px[idx] % 4) as u32) * weight;
            }
            weight = weight * 4;
            j = j + 1;
        }
        d.push(byte as u8);
        k = k + 1;
    }
    assert(d@ =~= hidden_data(px@));
    d
}

fn starts_with_marker(region: &[u8], nl: bool) -> (b: bool)
    requires
        region@.len() >= 5,
    ensures
        b == starts_with(region@, if nl { pxa_marker_nl() } else { pxa_marker() }),
{
    let r = if nl {
        region[0] == 0x0A && region[1] == 0x70 && region[2] == 0x78 && region[3] == 0x61 && region[4] == 0x3A
    } else {
        region[0] == 0x70 && region[1] == 0x78 && region[2] == 0x61 && region[3] == 0x3A
    };
    proof {
        let m = if nl { pxa_marker_nl() } else { pxa_marker() };
        if r {
            assert(region@.take(m.len() as int) =~= m);
        } else {
            if region@.take(m.len() as int) == m {
                assert(region@.take(m.len() as int)[0] == region@[0]);
                assert(region@.take(m.len() as int)[1] == region@[1]);
                assert(region@.take(m.len() as int)[2] == region@[2]);
                assert(region@.take(m.len() as int)[3] == region@[3]);
                if nl {
                    assert(region@.take(m.len() as int)[4] == region@[4]);
                }
            }
        }
    }
    r
}

proof fn lemma_lz_copy_len(out: Seq<u8>, start: int, n: int)
    requires
        0 <= n,
    ensures
        lz_copy(out, start, n).len() == out.len() + n,
    decreases n,
{
    if n > 0 {
        lemma_lz_copy_len(out.push(out[start]), start + 1, n - 1);
    }
}

fn lz_copy_exec(out: &mut Vec<u8>, start: usize, n: usize)
    requires
        start < old(out)@.len(),
        old(out)@.len() + n <= usize::MAX,
    ensures
        final(out)@ == lz_copy(old(out)@, start as int, n as int),
        final(out)@.len() == old(out)@.len() + n,
{
    proof {
        lemma_lz_copy_len(old(out)@, start as int, n as int);
    }
    let mut i: usize = 0;
    while i < n
        invariant
            0 <= i <= n,
            start + i < out@.len(),
            out@.len() == old(out)@.len() + i,
            old(out)@.len() + n <= usize::MAX,
            lz_copy(out@, (start + i) as int, (n - i) as int) == lz_copy(old(out)@, start as int, n as int),
        decreases n - i,
    {
        let b = out[start + i];
        out.push(b);
        i = i + 1;
    }
}

fn pxa_decompress(code: &[u8], start: usize) -> (out: Vec<u8>)
    requires
        start <= code@.len(),
        code@.len() < 0x1_0000,
    ensures
        out@ == pxa_stream(code@, start as int, Seq::empty()),
{
    let len = code.len();
    let mut out: Vec<u8> = Vec::new();
    let mut pos = start;
    while pos < len
        invariant
            len == code@.len(),
            len < 0x1_0000,
            start <= pos <= len,
            out@.len() <= 18 * pos,
            pxa_stream(code@, pos as int, out@) == pxa_stream(code@, start as int, Seq::empty()),
        ensures
            out@ == pxa_stream(code@, start as int, Seq::empty()),
        decreases len - pos,
    {
        let header = code[pos];
        if header == 0 {
            break ;
        }
        let ghost out_before = out@;
        let ghost pos_before = pos as int;
        pos = pos + 1;
        let mut bit: u32 = 0;
        assert(pxa_stream(code@, pos_before, out_before) == pxa_stream(
            code@,
            pxa_block(code@, header, pos_before + 1, out_before, 0).0,
            pxa_block(code@, header, pos_before + 1, out_before, 0).1,
        ));
        while bit < 8
            invariant
                len == code@.len(),
                len < 0x1_0000,
                pos_before < pos <= len,
                bit <= 8,
                out@.len() <= 18 * pos,
                pxa_block(code@, header, pos as int, out@, bit) == pxa_block(code@, header, pos_before + 1, out_before, 0),
            ensures
                pos_before < pos <= len,
                out@.len() <= 18 * pos,
                pxa_block(code@, header, pos_before + 1, out_before, 0) == (pos as int, out@),
            decreases 8 - bit,
        {
            assert(((header >> bit) & 1u8 == 0u8) == !((header >> bit) & 1u8 == 1u8)) by (bit_vector);
            if pos >= len {
                break ;
            }
            if (header >> bit) & 1u8 == 0 {
                out.push(code[pos]);
                pos = pos + 1;
            } else {
                if pos + 1 >= len {
                    break ;
                }
                let b1 = code[pos] as usize;
                let b2 = code[pos + 1] as usize;
                pos = pos + 2;
                let offset = b1 * 16 + b2 / 16;
                let length = b2 % 16 + 2;
                if offset > 0 && offset <= out.len() {
                    let s = out.len() - offset;
                    lz_copy_exec(&mut out, s, length);
                }
            }
            bit = bit + 1;
        }
    }
    out
}

fn take_until_zero(region: &[u8]) -> (out: Vec<u8>)
    ensures
        out@ == until_zero(region@),
{
    let mut out: Vec<u8> = Vec::new();
    let mut i: usize = 0;
    assert(region@.skip(0) =~= region@);
    assert(out@ =~= region@.take(0));
    assert(until_zero(region@) =~= out@ + until_zero(region@.skip(0)));
    while i < region.len() && region[i] != 0
        invariant
            0 <= i <= region@.len(),
            forall|k: int| 0 <= k < i ==> region@[k] != 0,
            out@ == region@.take(i as int),
            until_zero(region@) == out@ + until_zero(region@.skip(i as int)),
        decreases region@.len() - i,
    {
        out.push(region[i]);
        proof {
            assert(region@.skip(i as int).drop_first() =~= region@.skip(i + 1));
            assert(region@.take(i + 1) =~= region@.take(i as int).push(region@[i as int]));
            assert(out@ + until_zero(region@.skip(i + 1)) =~= region@.take(i as int) + (seq![region@[i as int]]
                + until_zero(region@.skip(i + 1))));
        }
        i = i + 1;
    }
    proof {
        assert(until_zero(region@.skip(i as int)) =~= Seq::<u8>::empty());
    }
    out
}

/// Recovers the code and the sprite sheet from the decoded pixel bytes of a
/// `.p8.png` cartridge.
pub fn decode_p8_png_pixels(px: &[u8]) -> (r: (String, Vec<u8>))
    ensures
        r.0@ == png_code(px@),
        r.1@ == png_sheet(hidden_data(px@)),
{
    let data = extract_hidden(px);
    let mut sheet: Vec<u8> = Vec::new();
    let mut i: usize = 0;
    while i < 0x2000
        invariant
            0 <= i <= 0x2000,
            data@ == hidden_data(px@),
            sheet@.len() == 2 * i,
            forall|k: int| 0 <= k < 2 * i ==> #[trigger] sheet@[k] == png_sheet(data@)[k],
        decreases 0x2000 - i,
    {
        let byte = data[i];
        sheet.push(byte % 16);
        sheet.push(byte / 16);
        i = i + 1;
    }
    assert(sheet@ =~= png_sheet(data@));
    let region = vstd::slice::slice_subrange(data.as_slice(), 0x4300, 0x7FFF);
    assert(region@ == code_region(data@));
    let bytes = if starts_with_marker(region, true) {
        pxa_decompress(region, 9)
    } else if starts_with_marker(region, false) {
        pxa_decompress(region, 8)
    } else {
        take_until_zero(region)
    };
    let code = match string_from_utf8(bytes) {
        Some(s) => s,
        None => String::new(),
    };
    (code, sheet)
}

/// Reads a `.p8.png` cartridge: decodes the image, then recovers the code
/// and sprite sheet hidden in it.
pub fn load_p8_png(data: &[u8]) -> (r: Result<(String, Vec<u8>), CartError>)
    ensures
        r is Ok <==> png_frame(data@) is Some,
        r matches Ok((code, sheet)) ==> code@ == png_code(png_frame(data@).unwrap()) && sheet@ == png_sheet(
            hidden_data(png_frame(data@).unwrap()),
        ),
        r matches Err(e) ==> e == CartError::BadImage,
{
    match decode_png_frame(data) {
        Some(px) => Ok(decode_p8_png_pixels(px.as_slice())),
        None => Err(CartError::BadImage),
    }
}

} // verus!
