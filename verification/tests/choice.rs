use ct_montgomery::ct_choice::CtChoice;

#[test]
fn truth_and_falsity() {
    assert!(CtChoice::truth().to_bool_vartime());
    assert!(!CtChoice::falsity().to_bool_vartime());
    assert_eq!(CtChoice::truth().to_bit(), 1);
    assert_eq!(CtChoice::falsity().to_bit(), 0);
}

#[test]
fn from_lsb_reads_the_lowest_bit() {
    assert!(CtChoice::from_lsb(1).to_bool_vartime());
    assert!(!CtChoice::from_lsb(0).to_bool_vartime());
    assert!(CtChoice::from_lsb(0xffff_ffff).to_bool_vartime());
    assert!(!CtChoice::from_lsb(0xffff_fffe).to_bool_vartime());
}

#[test]
fn from_word_nonzero_tells_zero_apart() {
    assert!(!CtChoice::from_word_nonzero(0).to_bool_vartime());
    assert!(CtChoice::from_word_nonzero(1).to_bool_vartime());
    assert!(CtChoice::from_word_nonzero(0x8000_0000).to_bool_vartime());
    assert!(CtChoice::from_word_nonzero(0xffff_ffff).to_bool_vartime());
}

#[test]
fn connectives() {
    let t = CtChoice::truth();
    let f = CtChoice::falsity();
    assert!(!t.not().to_bool_vartime());
    assert!(f.not().to_bool_vartime());
    assert!(t.and(t).to_bool_vartime());
    assert!(!t.and(f).to_bool_vartime());
    assert!(!f.and(t).to_bool_vartime());
    assert!(!f.and(f).to_bool_vartime());
    assert!(t.or(t).to_bool_vartime());
    assert!(t.or(f).to_bool_vartime());
    assert!(f.or(t).to_bool_vartime());
    assert!(!f.or(f).to_bool_vartime());
}

#[test]
fn select_takes_the_second_when_true() {
    assert_eq!(CtChoice::truth().select(0x1111_1111, 0x2222_2222), 0x2222_2222);
    assert_eq!(CtChoice::falsity().select(0x1111_1111, 0x2222_2222), 0x1111_1111);
    assert_eq!(CtChoice::truth().select(0, 0xffff_ffff), 0xffff_ffff);
    assert_eq!(CtChoice::falsity().select(0, 0xffff_ffff), 0);
}
