use wbmaker::kerning::{number_pair_kern_at_ref, KERN_REF_SIZE, TIGHT_KERN};

/// The kerning at `size`: the tuned value scales with the rendered size.
fn number_pair_kern(prev: char, cur: char, size: f32) -> f32 {
    number_pair_kern_at_ref(prev, cur) as f32 * (size / KERN_REF_SIZE as f32)
}

#[test]
fn number_pair_kerning_table() {
    let tight = ["01", "10", "11", "14", "15", "18", "19", "21", "31", "41", "51", "61", "71", "81", "91"];
    for pair in tight {
        let mut c = pair.chars();
        let (a, b) = (c.next().unwrap(), c.next().unwrap());
        assert_eq!(number_pair_kern(a, b, 125.0), -12.0, "pair {pair}");
    }
    // A pair that is not in the table stays at zero.
    assert_eq!(number_pair_kern('1', '2', 125.0), 0.0);
    assert_eq!(number_pair_kern('2', '2', 125.0), 0.0);
    // The tuned value is relative to size 125 and scales proportionally.
    assert_eq!(number_pair_kern('0', '1', 250.0), -24.0);
}

#[test]
fn number_pair_kerning_at_reference_size() {
    assert_eq!(number_pair_kern_at_ref('0', '1'), -12);
    assert_eq!(number_pair_kern_at_ref('1', 'a'), 0);
    assert_eq!(TIGHT_KERN, -12);
    assert_eq!(KERN_REF_SIZE, 125);
}

#[test]
fn every_tight_pair_counted() {
    let digits = "0123456789";
    let mut n = 0;
    for a in digits.chars() {
        for b in digits.chars() {
            if number_pair_kern_at_ref(a, b) != 0 {
                n += 1;
            }
        }
    }
    assert_eq!(n, 15);
}
