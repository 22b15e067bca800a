use vstd::prelude::*;

verus! {

/// Whether bit `i` of `payload` is set.
pub open spec fn bit_set(payload: u8, i: int) -> bool {
    (payload >> (i as u8)) & 1u8 == 1u8
}

/// The six buttons that a byte holds, button `i` in bit `i`.
pub open spec fn unpacked(payload: u8) -> Seq<bool> {
    Seq::new(6, |i: int| bit_set(payload, i))
}

/// Packs the six buttons of one player into a byte, button `i` in bit `i`.
pub fn pack_buttons(buttons: &[bool; 6]) -> (payload: u8)
    ensures
        payload < 64,
        unpacked(payload) == buttons@,
{
    let mut payload: u8 = 0;
    let mut i: usize = 0;
    assert forall|j: u8| j < 8 implies (0u8 >> j) & 1u8 != 1u8 by {
        assert((0u8 >> j) & 1u8 != 1u8) by (bit_vector);
    }
    while i < 6
        invariant
            0 <= i <= 6,
            payload < 64,
            forall|j: int| 0 <= j < i ==> bit_set(payload, j) == buttons@[j],
            forall|j: int| i <= j < 6 ==> !bit_set(payload, j),
        decreases 6 - i,
    {
        let ghost before = payload;
        let k = i as u8;
        if buttons[i] {
            payload = payload | (1u8 << k);
            proof {
                assert(forall|j: u8| j < 8 && j != k ==> ((before | (1u8 << k)) >> j) & 1u8 == (before >> j) & 1u8)
                    by (bit_vector)
                    requires
                        k < 6,
                ;
                assert(((before | (1u8 << k)) >> k) & 1u8 == 1u8) by (bit_vector)
                    requires
                        k < 6,
                ;
                assert((before | (1u8 << k)) < 64) by (bit_vector)
                    requires
                        k < 6,
                        before < 64,
                ;
                assert forall|j: int| 0 <= j < 6 && j != i implies bit_set(payload, j) == bit_set(before, j) by {
                    let jj = j as u8;
                    assert(jj < 8 && jj != k);
                }
            }
        }
        i = i + 1;
    }
    assert(unpacked(payload) =~= buttons@);
    payload
}

/// Unpacks a byte into six buttons, button `i` from bit `i`; the two high
/// bits are ignored.
pub fn unpack_buttons(payload: u8) -> (buttons: [bool; 6])
    ensures
        buttons@ == unpacked(payload),
{
    let mut buttons = [false; 6];
    let mut i: usize = 0;
    while i < 6
        invariant
            0 <= i <= 6,
            forall|j: int| 0 <= j < i ==> buttons@[j] == bit_set(payload, j),
        decreases 6 - i,
    {
        buttons[i] = (payload & (1u8 << (i as u8))) != 0;
        proof {
            let k = i as u8;
            assert(((payload & (1u8 << k)) != 0u8) == ((payload >> k) & 1u8 == 1u8)) by (bit_vector)
                requires k < 6;
        }
        i = i + 1;
    }
    assert(buttons@ =~= unpacked(payload));
    buttons
}

/// A byte below 64 is determined by the six buttons it holds: packing the
/// buttons unpacked from any byte gives that byte without its two high bits.
pub proof fn lemma_pack_unpack(payload: u8, repacked: u8)
    requires
        repacked < 64,
        unpacked(repacked) == unpacked(payload),
    ensures
        repacked == payload % 64,
{
    assert forall|i: int| 0 <= i < 6 implies bit_set(repacked, i) == bit_set(payload, i) by {
        assert(unpacked(repacked)[i] == bit_set(repacked, i));
        assert(unpacked(payload)[i] == bit_set(payload, i));
    }
    let r = repacked;
    let p = payload;
    assert(bit_set(r, 0) == bit_set(p, 0));
    assert(bit_set(r, 1) == bit_set(p, 1));
    assert(bit_set(r, 2) == bit_set(p, 2));
    assert(bit_set(r, 3) == bit_set(p, 3));
    assert(bit_set(r, 4) == bit_set(p, 4));
    assert(bit_set(r, 5) == bit_set(p, 5));
    assert(r == p % 64) by (bit_vector)
        requires
            r < 64,
            ((r >> 0u8) & 1u8 == 1u8) == ((p >> 0u8) & 1u8 == 1u8),
            ((r >> 1u8) & 1u8 == 1u8) == ((p >> 1u8) & 1u8 == 1u8),
            ((r >> 2u8) & 1u8 == 1u8) == ((p >> 2u8) & 1u8 == 1u8),
            ((r >> 3u8) & 1u8 == 1u8) == ((p >> 3u8) & 1u8 == 1u8),
            ((r >> 4u8) & 1u8 == 1u8) == ((p >> 4u8) & 1u8 == 1u8),
            ((r >> 5u8) & 1u8 == 1u8) == ((p >> 5u8) & 1u8 == 1u8),
    ;
}

} // verus!
