use bwtzip::bitvec::Bitvec;

#[test]
fn new_bits_are_zero() {
    let v = Bitvec::new(130);
    for i in 0..130 {
        assert!(!v.at(i));
    }
}

#[test]
fn set_and_read_back() {
    let mut v = Bitvec::new(70);
    v.set(0, true);
    v.set(63, true);
    v.set(64, true);
    v.set(69, true);
    for i in 0..70 {
        let expected = i == 0 || i == 63 || i == 64 || i == 69;
        assert_eq!(v.at(i), expected);
    }
    v.set(63, false);
    assert!(!v.at(63));
    assert!(v.at(64));
}

#[test]
fn flip_toggles_one_bit() {
    let mut v = Bitvec::new(128);
    v.flip(100);
    assert!(v.at(100));
    assert!(!v.at(99));
    assert!(!v.at(101));
    v.flip(100);
    assert!(!v.at(100));
}

#[test]
fn push_appends_across_word_boundary() {
    let mut v = Bitvec::new(0);
    for i in 0..130 {
        v.push(i % 3 == 0);
    }
    for i in 0..130 {
        assert_eq!(v.at(i), i % 3 == 0);
    }
}

#[test]
fn push_after_new_keeps_old_bits() {
    let mut v = Bitvec::new(65);
    v.set(64, true);
    v.push(true);
    v.push(false);
    assert!(v.at(64));
    assert!(v.at(65));
    assert!(!v.at(66));
}
