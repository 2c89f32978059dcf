use tcw3::bitsetgen::{usize_to_dec_string, BitsetTy};

#[test]
fn new_picks_the_narrowest_type() {
    assert!(matches!(BitsetTy::new(0), Ok(BitsetTy::Empty)));
    assert_eq!(BitsetTy::new(1).unwrap().gen_ty(), "u8");
    assert_eq!(BitsetTy::new(8).unwrap().gen_ty(), "u8");
    assert_eq!(BitsetTy::new(9).unwrap().gen_ty(), "u32");
    assert_eq!(BitsetTy::new(32).unwrap().gen_ty(), "u32");
    assert_eq!(BitsetTy::new(33).unwrap().gen_ty(), "u64");
    assert_eq!(BitsetTy::new(64).unwrap().gen_ty(), "u64");
    assert_eq!(BitsetTy::new(65).unwrap().gen_ty(), "u128");
    assert_eq!(BitsetTy::new(128).unwrap().gen_ty(), "u128");
    assert!(BitsetTy::new(129).is_err());
    assert!(BitsetTy::new(4000).is_err());
}

#[test]
fn empty_set_rendering() {
    let unit = BitsetTy::new(0).unwrap();
    assert_eq!(unit.gen_ty(), "()");
    assert_eq!(unit.gen_empty(), "()");
    assert_eq!(unit.gen_is_empty("x"), "true");
    assert_eq!(unit.gen_union("a", "b"), "()");
    assert_eq!(unit.gen_multi(&vec![]), "()");

    let small = BitsetTy::new(5).unwrap();
    assert_eq!(small.gen_empty(), "0u8");
    assert_eq!(small.gen_is_empty("set"), "set == 0");
    assert_eq!(small.gen_multi(&vec![]), "0u8");
}

#[test]
fn member_expression_rendering() {
    let small = BitsetTy::new(5).unwrap();
    assert_eq!(small.gen_multi(&vec![0]), "1u8");
    assert_eq!(small.gen_multi(&vec![3]), "1u8 << 3");
    assert_eq!(small.gen_multi(&vec![3, 5]), "(1u8 << 3) | (1u8 << 5)");
    assert_eq!(small.gen_multi(&vec![0, 2, 4]), "(1u8) | (1u8 << 2) | (1u8 << 4)");
    assert_eq!(small.gen_has("flags", 2), "(flags & 1u8 << 2) != 0");
    assert_eq!(
        small.gen_intersects("flags", &vec![1, 2]),
        "(flags & (1u8 << 1) | (1u8 << 2)) != 0"
    );
    assert_eq!(small.gen_insert("set", &vec![1]), "set |= 1u8 << 1");
    assert_eq!(small.gen_union("a", "b"), "a | b");

    let wide = BitsetTy::new(40).unwrap();
    assert_eq!(wide.gen_multi(&vec![39]), "1u64 << 39");
}

#[test]
fn decimal_rendering() {
    assert_eq!(usize_to_dec_string(0), "0");
    assert_eq!(usize_to_dec_string(7), "7");
    assert_eq!(usize_to_dec_string(10), "10");
    assert_eq!(usize_to_dec_string(12345), "12345");
    assert_eq!(usize_to_dec_string(1000001), "1000001");
}

#[test]
fn empty_set_membership_is_false() {
    let unit = BitsetTy::new(0).unwrap();
    assert_eq!(unit.gen_has("x", 3), "false");
    assert_eq!(unit.gen_intersects("x", &vec![1, 2]), "false");
}
