use advent2023::lens_hash::{hash_bytes, hash_string, sum_of_hashes};

#[test]
fn hash_of_hash_is_52() {
    assert_eq!(hash_string("HASH"), 52);
    assert_eq!(hash_bytes(b"HASH"), 52);
}

#[test]
fn hashes_of_the_steps_add_up_to_1320() {
    let steps: Vec<Vec<u8>> = "rn=1,cm-,qp=3,cm=2,qp-,pc=4,ot=9,ab=5,pc-,pc=6,ot=7"
        .split(',')
        .map(|s| s.as_bytes().to_vec())
        .collect();
    assert_eq!(sum_of_hashes(&steps), 1320);
}

#[test]
fn single_hashes() {
    assert_eq!(hash_string(""), 0);
    assert_eq!(hash_string("rn=1"), 30);
    assert_eq!(hash_string("cm-"), 253);
    assert_eq!(hash_string("rn"), 0);
    assert_eq!(hash_string("qp"), 1);
    assert_eq!(hash_string("ot"), 3);
    assert_eq!(sum_of_hashes(&Vec::new()), 0);
}
