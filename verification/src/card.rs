//! Card kinds and which numbers an official card shows.

use vstd::prelude::*;

verus! {

/// Render style: the official WB card.
pub const STYLE_WB: &'static str = "wb";
/// Render style: the BYD-DIY product image.
pub const STYLE_DIY: &'static str = "diy";

/// Card types (matches WBArts `card.type`).
pub const KIND_FOLLOWER: u8 = 1;
pub const KIND_AMULET: u8 = 2;
pub const KIND_SPELL: u8 = 3;

/// DIY rarity 5 = peculiar (异画), only in the DIY style.
pub const RARITY_PECULIAR: u8 = 5;

/// A number printed on the card.
#[derive(Clone, Copy, Debug, PartialEq, Eq, Structural)]
pub enum NumberSlot {
    Cost,
    Attack,
    Life,
}

pub open spec fn number_slots_of(kind: u8, has_cost: bool, has_atk: bool, has_life: bool) -> Seq<
    NumberSlot,
> {
    (if has_cost {
        seq![NumberSlot::Cost]
    } else {
        seq![]
    }) + (if kind == KIND_FOLLOWER && has_atk {
        seq![NumberSlot::Attack]
    } else {
        seq![]
    }) + (if kind == KIND_FOLLOWER && has_life {
        seq![NumberSlot::Life]
    } else {
        seq![]
    })
}

/// The numbers drawn, in order: the cost when set, and attack and life when
/// set on a follower.
pub fn number_slots(kind: u8, cost: &str, atk: &str, life: &str) -> (slots: Vec<NumberSlot>)
    ensures
        slots@ == number_slots_of(kind, cost@.len() > 0, atk@.len() > 0, life@.len() > 0),
{
    let mut slots: Vec<NumberSlot> = Vec::new();
    if !cost.is_empty() {
        slots.push(NumberSlot::Cost);
    }
    if kind == KIND_FOLLOWER {
        if !atk.is_empty() {
            slots.push(NumberSlot::Attack);
        }
        if !life.is_empty() {
            slots.push(NumberSlot::Life);
        }
    }
    assert(slots@ =~= number_slots_of(kind, cost@.len() > 0, atk@.len() > 0, life@.len() > 0));
    slots
}


/// Which numbers a card shows, in order: the cost when it is set, then attack
/// and life when they are set and the card is a follower; an amulet or a
/// spell shows at most its cost.
pub proof fn law_number_slots(kind: u8, has_cost: bool, has_atk: bool, has_life: bool)
    ensures
        ({
            let s = number_slots_of(kind, has_cost, has_atk, has_life);
            &&& s.contains(NumberSlot::Cost) <==> has_cost
            &&& s.contains(NumberSlot::Attack) <==> (kind == 1 && has_atk)
            &&& s.contains(NumberSlot::Life) <==> (kind == 1 && has_life)
            &&& has_cost ==> s[0] == NumberSlot::Cost
            &&& (kind == 1 && has_life) ==> s.last() == NumberSlot::Life
            &&& s.len() == (if has_cost { 1int } else { 0int }) + (if kind == 1 && has_atk {
                1int
            } else {
                0int
            }) + (if kind == 1 && has_life {
                1int
            } else {
                0int
            })
        }),
{
    let s = number_slots_of(kind, has_cost, has_atk, has_life);
    let a: Seq<NumberSlot> = if has_cost { seq![NumberSlot::Cost] } else { seq![] };
    let b: Seq<NumberSlot> = if kind == KIND_FOLLOWER && has_atk { seq![NumberSlot::Attack] } else { seq![] };
    let c: Seq<NumberSlot> = if kind == KIND_FOLLOWER && has_life { seq![NumberSlot::Life] } else { seq![] };
    assert(s == a + b + c);
    assert forall|k: int| 0 <= k < s.len() implies #[trigger] s[k] == if k < a.len() {
        a[k]
    } else if k < a.len() + b.len() {
        b[k - a.len()]
    } else {
        c[k - a.len() - b.len()]
    } by {}
    if has_cost {
        assert(s[0] == NumberSlot::Cost);
    }
    if s.contains(NumberSlot::Cost) {
        let k = choose|k: int| 0 <= k < s.len() && s[k] == NumberSlot::Cost;
        assert(s[k] == NumberSlot::Cost);
    }
    if kind == KIND_FOLLOWER && has_atk {
        assert(s[a.len() as int] == NumberSlot::Attack);
    }
    if s.contains(NumberSlot::Attack) {
        let k = choose|k: int| 0 <= k < s.len() && s[k] == NumberSlot::Attack;
        assert(s[k] == NumberSlot::Attack);
    }
    if kind == KIND_FOLLOWER && has_life {
        assert(s[s.len() - 1] == NumberSlot::Life);
    }
    if s.contains(NumberSlot::Life) {
        let k = choose|k: int| 0 <= k < s.len() && s[k] == NumberSlot::Life;
        assert(s[k] == NumberSlot::Life);
    }
}

} // verus!
