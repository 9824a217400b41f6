use x0001e::solver::bv::BV;
use x0001e::solver::model::Model;
use x0001e::solver::term::{BinOp, Term};

fn value(bv: &BV) -> u64 {
    bv.get_solution(&Model::new()).expect("a constant of at most 64 bits has a value")
}

fn byte(v: u64) -> BV {
    BV::from_u64(v, 8)
}

fn nibble(v: u64) -> BV {
    BV::from_u64(v, 4)
}

#[test]
fn from_u64_drops_the_bits_above_the_width() {
    let bv = BV::from_u64(0x1ff, 8);
    assert_eq!(bv.len(), 8);
    assert_eq!(value(&bv), 0xff);
    assert_eq!(bv.as_const(), Some(0xff));
    assert_eq!(value(&BV::from_u64(u64::MAX, 64)), u64::MAX);
}

#[test]
fn constants_of_the_signed_range() {
    assert_eq!(value(&BV::zero(8)), 0);
    assert_eq!(value(&BV::one(8)), 1);
    assert_eq!(value(&BV::ones(8)), 0xff);
    assert_eq!(value(&BV::min_signed(8)), 0x80);
    assert_eq!(value(&BV::max_signed(8)), 0x7f);
    assert_eq!(value(&BV::min_signed(1)), 1);
    assert_eq!(value(&BV::max_signed(1)), 0);
    assert_eq!(BV::min_signed(8).len(), 8);
    assert_eq!(BV::max_signed(8).len(), 8);
    assert_eq!(BV::ones(64).len(), 64);
    assert_eq!(value(&BV::ones(64)), u64::MAX);
}

#[test]
fn symbol_takes_its_value_from_the_model() {
    let x = BV::symbol(1, 8);
    assert_eq!(x.as_const(), None);
    let mut model = Model::new();
    assert_eq!(x.get_solution(&model), Some(0));
    model.set_symbol(1, 0x1a5);
    assert_eq!(x.get_solution(&model), Some(0xa5));
    model.set_symbol(1, 7);
    assert_eq!(x.get_solution(&model), Some(7));
    assert_eq!(model.symbol(1), 7);
    assert_eq!(model.symbol(2), 0);
}

#[test]
fn resize_unsigned_to_own_width_is_identity() {
    let x = BV::symbol(3, 16);
    let same = x.clone().resize_unsigned(16);
    assert_eq!(same, x);
    assert_eq!(same.len(), 16);
}

#[test]
fn resize_unsigned_extends_and_truncates() {
    let x = BV::from_u64(0xabcd, 16);
    let wide = x.clone().resize_unsigned(32);
    assert_eq!(wide.len(), 32);
    assert_eq!(value(&wide), 0xabcd);
    let narrow = x.resize_unsigned(8);
    assert_eq!(narrow.len(), 8);
    assert_eq!(value(&narrow), 0xcd);
}

#[test]
fn zero_ext_has_the_target_width() {
    let x = byte(0x80);
    let wide = x.zero_ext(16);
    assert_eq!(wide.len(), 16);
    assert_eq!(value(&wide), 0x0080);
    assert_eq!(x.zero_ext(8), x);
}

#[test]
fn sign_ext_copies_the_sign_bit() {
    let x = byte(0x80);
    let wide = x.sign_ext(16);
    assert_eq!(wide.len(), 16);
    assert_eq!(value(&wide), 0xff80);
    assert_eq!(value(&byte(0x7f).sign_ext(16)), 0x007f);
    assert_eq!(x.sign_ext(8), x);
}

#[test]
fn slice_has_high_minus_low_plus_one_bits() {
    let x = BV::from_u64(0xabcd, 16);
    let mid = x.slice(4, 11);
    assert_eq!(mid.len(), 8);
    assert_eq!(value(&mid), 0xbc);
    let bit = x.slice(15, 15);
    assert_eq!(bit.len(), 1);
    assert_eq!(value(&bit), 1);
    assert_eq!(value(&x.slice(0, 15)), 0xabcd);
}

#[test]
fn concat_puts_self_above_other() {
    let r = byte(0xab).concat(&byte(0xcd));
    assert_eq!(r.len(), 16);
    assert_eq!(value(&r), 0xabcd);
}

#[test]
fn add_sub_mul_wrap() {
    assert_eq!(value(&byte(0xf0).add(&byte(0x20))), 0x10);
    assert_eq!(value(&byte(0x10).sub(&byte(0x20))), 0xf0);
    assert_eq!(value(&byte(0x10).mul(&byte(0x11))), 0x10);
    assert_eq!(value(&byte(3).add(&byte(4))), 7);
    assert_eq!(
        value(&BV::from_u64(u64::MAX, 64).mul(&BV::from_u64(u64::MAX, 64))),
        1
    );
    assert_eq!(
        value(&BV::from_u64(u64::MAX, 64).add(&BV::from_u64(2, 64))),
        1
    );
}

#[test]
fn udiv_and_urem_by_zero() {
    assert_eq!(value(&byte(7).udiv(&byte(2))), 3);
    assert_eq!(value(&byte(7).udiv(&byte(0))), 0xff);
    assert_eq!(value(&byte(7).urem(&byte(2))), 1);
    assert_eq!(value(&byte(7).urem(&byte(0))), 7);
}

#[test]
fn sdiv_follows_the_signs() {
    // -7 is 0xf9, -2 is 0xfe, -3 is 0xfd.
    assert_eq!(value(&byte(7).sdiv(&byte(2))), 3);
    assert_eq!(value(&byte(0xf9).sdiv(&byte(2))), 0xfd);
    assert_eq!(value(&byte(7).sdiv(&byte(0xfe))), 0xfd);
    assert_eq!(value(&byte(0xf9).sdiv(&byte(0xfe))), 3);
    assert_eq!(value(&byte(7).sdiv(&byte(0))), 0xff);
    assert_eq!(value(&byte(0xf9).sdiv(&byte(0))), 1);
    assert_eq!(value(&byte(0x80).sdiv(&byte(0xff))), 0x80);
}

#[test]
fn srem_takes_the_sign_of_the_dividend() {
    assert_eq!(value(&byte(7).srem(&byte(2))), 1);
    assert_eq!(value(&byte(0xf9).srem(&byte(2))), 0xff);
    assert_eq!(value(&byte(7).srem(&byte(0xfe))), 1);
    assert_eq!(value(&byte(0xf9).srem(&byte(0xfe))), 0xff);
    assert_eq!(value(&byte(0xf9).srem(&byte(0))), 0xf9);
}

#[test]
fn bitwise_operations() {
    assert_eq!(value(&byte(0xcc).and(&byte(0xaa))), 0x88);
    assert_eq!(value(&byte(0xcc).or(&byte(0xaa))), 0xee);
    assert_eq!(value(&byte(0xcc).xor(&byte(0xaa))), 0x66);
    assert_eq!(value(&byte(0xcc).not()), 0x33);
    assert_eq!(
        value(&BV::from_u64(0xffff_0000_ffff_0000, 64).and(&BV::from_u64(0x0ff0_0ff0_0ff0_0ff0, 64))),
        0x0ff0_0000_0ff0_0000
    );
}

#[test]
fn shifts() {
    assert_eq!(value(&byte(0x81).sll(&byte(1))), 0x02);
    assert_eq!(value(&byte(0x81).sll(&byte(8))), 0);
    assert_eq!(value(&byte(0x81).sll(&byte(200))), 0);
    assert_eq!(value(&byte(0x81).srl(&byte(1))), 0x40);
    assert_eq!(value(&byte(0x81).srl(&byte(8))), 0);
    assert_eq!(value(&byte(0x81).sra(&byte(1))), 0xc0);
    assert_eq!(value(&byte(0x81).sra(&byte(9))), 0xff);
    assert_eq!(value(&byte(0x41).sra(&byte(1))), 0x20);
    assert_eq!(value(&byte(0x41).sra(&byte(9))), 0);
    assert_eq!(
        value(&BV::from_u64(1, 64).sll(&BV::from_u64(63, 64))),
        0x8000_0000_0000_0000
    );
}

#[test]
fn comparisons_give_one_bit() {
    let a = byte(0x80);
    let b = byte(0x7f);
    assert_eq!(a.eq(&b).len(), 1);
    assert_eq!(value(&a.eq(&b)), 0);
    assert_eq!(value(&a.eq(&a)), 1);
    assert_eq!(value(&a.ne(&b)), 1);
    assert_eq!(value(&a.ugt(&b)), 1);
    assert_eq!(value(&a.ugte(&a)), 1);
    assert_eq!(value(&a.ult(&b)), 0);
    assert_eq!(value(&a.ulte(&b)), 0);
    assert_eq!(value(&a.sgt(&b)), 0);
    assert_eq!(value(&a.sgte(&b)), 0);
    assert_eq!(value(&a.slt(&b)), 1);
    assert_eq!(value(&a.slte(&b)), 1);
    assert_eq!(value(&a.slte(&a)), 1);
}

#[test]
fn overflow_flags() {
    assert_eq!(value(&byte(0xff).uaddo(&byte(1))), 1);
    assert_eq!(value(&byte(0x7f).uaddo(&byte(1))), 0);
    assert_eq!(value(&byte(0x7f).saddo(&byte(1))), 1);
    assert_eq!(value(&byte(0x80).saddo(&byte(0xff))), 1);
    assert_eq!(value(&byte(0x80).saddo(&byte(0x7f))), 0);
    assert_eq!(value(&byte(0).usubo(&byte(1))), 1);
    assert_eq!(value(&byte(1).usubo(&byte(1))), 0);
    assert_eq!(value(&byte(0x80).ssubo(&byte(1))), 1);
    assert_eq!(value(&byte(0x7f).ssubo(&byte(0xff))), 1);
    assert_eq!(value(&byte(0x7f).ssubo(&byte(1))), 0);
    assert_eq!(value(&byte(0x10).umulo(&byte(0x10))), 1);
    assert_eq!(value(&byte(0x0f).umulo(&byte(0x11))), 0);
    assert_eq!(value(&byte(0x40).smulo(&byte(2))), 1);
    assert_eq!(value(&byte(0xc0).smulo(&byte(2))), 0);
    assert_eq!(byte(1).smulo(&byte(2)).len(), 1);
}

#[test]
fn ite_picks_by_the_selector() {
    let a = byte(0x11);
    let b = byte(0x22);
    assert_eq!(value(&BV::one(1).ite(&a, &b)), 0x11);
    assert_eq!(value(&BV::zero(1).ite(&a, &b)), 0x22);
    assert_eq!(BV::one(1).ite(&a, &b).len(), 8);
}

#[test]
fn uadds_saturates_at_all_ones() {
    assert_eq!(value(&byte(0xf0).uadds(&byte(0x20))), 0xff);
    assert_eq!(value(&byte(0xff).uadds(&byte(0xff))), 0xff);
    assert_eq!(value(&BV::one(1).uadds(&BV::one(1))), 1);
}

#[test]
fn uadds_adds_where_the_sum_fits() {
    assert_eq!(value(&byte(0x10).uadds(&byte(0x20))), 0x30);
    assert_eq!(value(&byte(0xfe).uadds(&byte(0x01))), 0xff);
    assert_eq!(byte(1).uadds(&byte(2)).len(), 8);
}

#[test]
fn sadds_clamps_to_the_signed_range() {
    // -8 + -1 in four bits stays at -8.
    assert_eq!(value(&nibble(0x8).sadds(&nibble(0xf))), 0x8);
    // 7 + 1 stays at 7.
    assert_eq!(value(&nibble(0x7).sadds(&nibble(0x1))), 0x7);
    // 3 + 2 = 5 and -3 + 2 = -1.
    assert_eq!(value(&nibble(0x3).sadds(&nibble(0x2))), 0x5);
    assert_eq!(value(&nibble(0xd).sadds(&nibble(0x2))), 0xf);
    // 127 + 127 and -128 + -128 in eight bits.
    assert_eq!(value(&byte(0x7f).sadds(&byte(0x7f))), 0x7f);
    assert_eq!(value(&byte(0x80).sadds(&byte(0x80))), 0x80);
    // One bit: -1 + -1 stays at -1, 0 + -1 is -1.
    assert_eq!(value(&BV::one(1).sadds(&BV::one(1))), 1);
    assert_eq!(value(&BV::zero(1).sadds(&BV::one(1))), 1);
}

#[test]
fn sadds_agrees_with_clamped_addition_on_every_nibble() {
    for a in 0..16u64 {
        for b in 0..16u64 {
            let sa = if a >= 8 { a as i64 - 16 } else { a as i64 };
            let sb = if b >= 8 { b as i64 - 16 } else { b as i64 };
            let want = (sa + sb).clamp(-8, 7);
            let got = value(&nibble(a).sadds(&nibble(b)));
            let got = if got >= 8 { got as i64 - 16 } else { got as i64 };
            assert_eq!(got, want);
            let unsigned = value(&nibble(a).uadds(&nibble(b)));
            assert_eq!(unsigned, (a + b).min(15));
        }
    }
}

#[test]
fn operations_build_the_expression_they_name() {
    let a = BV::symbol(1, 8);
    let b = BV::symbol(2, 8);
    let sum = a.add(&b);
    assert_eq!(sum, a.binary_op(BinOp::Add, &b));
    assert_ne!(sum, b.add(&a));
    assert!(matches!(sum.term(), Term::Binary(BinOp::Add, _, _)));
    assert!(matches!(a.slice(0, 3).term(), Term::Slice { low: 0, high: 3, .. }));
    assert!(matches!(a.term(), Term::Symbol { width: 8, id: 1 }));
}

#[test]
fn values_wider_than_64_bits_are_not_handed_out_as_numbers() {
    assert_eq!(BV::zero(65).get_solution(&Model::new()), None);
    let wide = BV::from_u64(1, 40).concat(&BV::from_u64(2, 40));
    assert_eq!(wide.len(), 80);
    assert_eq!(wide.get_solution(&Model::new()), None);
    assert_eq!(wide.constant_value(), None);
    assert_eq!(BV::from_u64(5, 100).as_const(), Some(5));
    // What is cut out of them is.
    assert_eq!(wide.slice(0, 7).get_solution(&Model::new()), Some(2));
    assert_eq!(wide.slice(40, 47).get_solution(&Model::new()), Some(1));
    assert_eq!(wide.slice(16, 79).constant_value(), Some(1 << 24));
    assert_eq!(wide.eq(&wide).constant_value(), Some(1));
    let bits = wide.get_bits(&Model::new());
    assert_eq!(bits.len(), 80);
    for (i, bit) in bits.iter().enumerate() {
        assert_eq!(*bit, i == 1 || i == 40);
    }
}
