use wbmaker::card::{number_slots, NumberSlot, KIND_AMULET, KIND_FOLLOWER, KIND_SPELL};

#[test]
fn follower_shows_all_numbers() {
    assert_eq!(
        number_slots(KIND_FOLLOWER, "7", "5", "6"),
        vec![NumberSlot::Cost, NumberSlot::Attack, NumberSlot::Life]
    );
    assert_eq!(number_slots(KIND_FOLLOWER, "", "5", ""), vec![NumberSlot::Attack]);
}

#[test]
fn spells_and_amulets_show_only_the_cost() {
    assert_eq!(number_slots(KIND_SPELL, "3", "5", "6"), vec![NumberSlot::Cost]);
    assert_eq!(number_slots(KIND_AMULET, "10+", "", ""), vec![NumberSlot::Cost]);
    assert_eq!(number_slots(KIND_AMULET, "", "1", "1"), Vec::<NumberSlot>::new());
}
