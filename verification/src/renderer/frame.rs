use vstd::prelude::*;

verus! {

/// The colour that screen value `v` shows: the palette entry of its low
/// nibble.
pub open spec fn shown(colors: [[u8; 3]; 16], v: u8) -> [u8; 3] {
    colors@[(v % 16) as int]
}

/// Expands an indexed framebuffer into packed 24-bit RGB, three bytes per
/// pixel in screen order, each pixel taking the palette entry of its low
/// nibble.
pub fn rgb_frame(screen: &[u8], colors: &[[u8; 3]; 16]) -> (rgb: Vec<u8>)
    requires
        screen@.len() * 3 <= usize::MAX,
    ensures
        rgb@.len() == screen@.len() * 3,
        forall|i: int, k: int|
            0 <= i < screen@.len() && 0 <= k < 3 ==> #[trigger] rgb@[i * 3 + k] == shown(*colors, screen@[i])@[k],
{
    let mut rgb: Vec<u8> = Vec::new();
    let mut i: usize = 0;
    while i < screen.len()
        invariant
            0 <= i <= screen@.len(),
            screen@.len() * 3 <= usize::MAX,
            rgb@.len() == i * 3,
            forall|j: int, k: int|
                0 <= j < i && 0 <= k < 3 ==> #[trigger] rgb@[j * 3 + k] == shown(*colors, screen@[j])@[k],
        decreases screen@.len() - i,
    {
        let v = screen[i];
        let n = v & 0x0f;
        assert(n == v % 16) by (bit_vector)
            requires
                n == v & 0x0f,
        ;
        let c = colors[n as usize];
        rgb.push(c[0]);
        rgb.push(c[1]);
        rgb.push(c[2]);
        proof {
            assert forall|j: int, k: int| 0 <= j <= i && 0 <= k < 3 implies #[trigger] rgb@[j * 3 + k] == shown(*colors, screen@[j])@[k] by {
                if j < i {
                    assert(j * 3 + k < i * 3) by (nonlinear_arith)
                        requires
                            j < i,
                            k < 3,
                    ;
                } else {
                    assert(j * 3 + k == i * 3 + k);
                }
            }
        }
        i = i + 1;
    }
    rgb
}

} // verus!
