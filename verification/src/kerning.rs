//! Pair kerning of the number font (筑紫明朝), hand-tuned at size 125.

use vstd::prelude::*;

verus! {

/// The kerning of a tight pair at the reference size, in pixels.
pub const TIGHT_KERN: i32 = -12;
/// The size the kerning was tuned at.
pub const KERN_REF_SIZE: i32 = 125;

/// The digit pairs that sit tighter than the font's default: `01`, `10`,
/// `11`, `14`, `15`, `18`, `19`, and every digit followed by `1`.
pub open spec fn tight_pair(prev: char, cur: char) -> bool {
    ||| (prev == '0' && cur == '1')
    ||| (prev == '1' && (cur == '0' || cur == '1' || cur == '4' || cur == '5' || cur == '8' || cur
        == '9'))
    ||| (cur == '1' && '2' <= prev && prev <= '9')
}

/// The kerning of a digit pair at the reference size: `TIGHT_KERN` for a
/// tight pair, 0 for every other pair. It scales with the rendered size.
pub fn number_pair_kern_at_ref(prev: char, cur: char) -> (k: i32)
    ensures
        k == (if tight_pair(prev, cur) {
            TIGHT_KERN
        } else {
            0i32
        }),
{
    let tight = (prev == '0' && cur == '1') || (prev == '1' && (cur == '0' || cur == '1' || cur
        == '4' || cur == '5' || cur == '8' || cur == '9')) || (cur == '1' && '2' <= prev && prev
        <= '9');
    if tight {
        TIGHT_KERN
    } else {
        0
    }
}


/// The digit pairs set tighter, as listed when the kerning was tuned.
pub open spec fn tight_pairs() -> Seq<(char, char)> {
    seq![('0', '1'), ('1', '0'), ('1', '1'), ('1', '4'), ('1', '5'), ('1', '8'), ('1', '9'), ('2', '1'), ('3', '1'), ('4', '1'), ('5', '1'), ('6', '1'), ('7', '1'), ('8', '1'), ('9', '1')]
}

/// A pair of characters is kerned exactly when it is one of the fifteen
/// listed digit pairs, and then by `TIGHT_KERN` (-12) at the reference size;
/// every other pair, digits or not, gets 0.
pub proof fn law_kerned_pairs_are_listed(prev: char, cur: char)
    ensures
        tight_pair(prev, cur) <==> tight_pairs().contains((prev, cur)),
        TIGHT_KERN == -12,
{
    assert(tight_pairs()[0] == ('0', '1'));
    assert(tight_pairs()[1] == ('1', '0'));
    assert(tight_pairs()[2] == ('1', '1'));
    assert(tight_pairs()[3] == ('1', '4'));
    assert(tight_pairs()[4] == ('1', '5'));
    assert(tight_pairs()[5] == ('1', '8'));
    assert(tight_pairs()[6] == ('1', '9'));
    assert(tight_pairs()[7] == ('2', '1'));
    assert(tight_pairs()[8] == ('3', '1'));
    assert(tight_pairs()[9] == ('4', '1'));
    assert(tight_pairs()[10] == ('5', '1'));
    assert(tight_pairs()[11] == ('6', '1'));
    assert(tight_pairs()[12] == ('7', '1'));
    assert(tight_pairs()[13] == ('8', '1'));
    assert(tight_pairs()[14] == ('9', '1'));
    if tight_pairs().contains((prev, cur)) {
        let i = choose|i: int| 0 <= i < tight_pairs().len() && tight_pairs()[i] == (prev, cur);
        assert(0 <= i < 15);
    }
    if tight_pair(prev, cur) {
        if prev == '0' {
            assert(tight_pairs()[0] == (prev, cur));
        } else if prev == '1' {
            if cur == '0' { assert(tight_pairs()[1] == (prev, cur)); }
            else if cur == '1' { assert(tight_pairs()[2] == (prev, cur)); }
            else if cur == '4' { assert(tight_pairs()[3] == (prev, cur)); }
            else if cur == '5' { assert(tight_pairs()[4] == (prev, cur)); }
            else if cur == '8' { assert(tight_pairs()[5] == (prev, cur)); }
            else { assert(tight_pairs()[6] == (prev, cur)); }
        } else if prev == '2' { assert(tight_pairs()[7] == (prev, cur)); }
        else if prev == '3' { assert(tight_pairs()[8] == (prev, cur)); }
        else if prev == '4' { assert(tight_pairs()[9] == (prev, cur)); }
        else if prev == '5' { assert(tight_pairs()[10] == (prev, cur)); }
        else if prev == '6' { assert(tight_pairs()[11] == (prev, cur)); }
        else if prev == '7' { assert(tight_pairs()[12] == (prev, cur)); }
        else if prev == '8' { assert(tight_pairs()[13] == (prev, cur)); }
        else { assert(tight_pairs()[14] == (prev, cur)); }
    }
}

} // verus!
