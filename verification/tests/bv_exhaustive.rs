use x0001e::solver::bv::BV;
use x0001e::solver::model::Model;

fn value(bv: &BV) -> u64 {
    bv.get_solution(&Model::new()).expect("a constant of eight bits has a value")
}

fn for_all_bytes(check: impl Fn(u8, u8, &BV, &BV)) {
    for a in 0..=255u8 {
        let x = BV::from_u64(a as u64, 8);
        for b in 0..=255u8 {
            let y = BV::from_u64(b as u64, 8);
            check(a, b, &x, &y);
        }
    }
}

#[test]
fn arithmetic_agrees_with_machine_bytes() {
    for_all_bytes(|a, b, x, y| {
        assert_eq!(value(&x.add(y)), a.wrapping_add(b) as u64);
        assert_eq!(value(&x.sub(y)), a.wrapping_sub(b) as u64);
        assert_eq!(value(&x.mul(y)), a.wrapping_mul(b) as u64);
    });
}

#[test]
fn division_agrees_with_machine_bytes() {
    for_all_bytes(|a, b, x, y| {
        let (sa, sb) = (a as i8, b as i8);
        if b != 0 {
            assert_eq!(value(&x.udiv(y)), (a / b) as u64);
            assert_eq!(value(&x.urem(y)), (a % b) as u64);
            assert_eq!(value(&x.sdiv(y)), sa.wrapping_div(sb) as u8 as u64);
            assert_eq!(value(&x.srem(y)), sa.wrapping_rem(sb) as u8 as u64);
        } else {
            assert_eq!(value(&x.udiv(y)), 0xff);
            assert_eq!(value(&x.urem(y)), a as u64);
            assert_eq!(value(&x.sdiv(y)), if sa >= 0 { 0xff } else { 0x01 });
            assert_eq!(value(&x.srem(y)), a as u64);
        }
    });
}

#[test]
fn bitwise_operations_agree_with_machine_bytes() {
    for_all_bytes(|a, b, x, y| {
        assert_eq!(value(&x.and(y)), (a & b) as u64);
        assert_eq!(value(&x.or(y)), (a | b) as u64);
        assert_eq!(value(&x.xor(y)), (a ^ b) as u64);
        assert_eq!(value(&x.not()), !a as u64);
    });
}

#[test]
fn shifts_agree_with_machine_bytes() {
    for_all_bytes(|a, b, x, y| {
        let (left, right, arithmetic) = if b < 8 {
            (a << b, a >> b, ((a as i8) >> b) as u8)
        } else {
            (0, 0, if a >= 0x80 { 0xff } else { 0 })
        };
        assert_eq!(value(&x.sll(y)), left as u64);
        assert_eq!(value(&x.srl(y)), right as u64);
        assert_eq!(value(&x.sra(y)), arithmetic as u64);
    });
}

#[test]
fn comparisons_agree_with_machine_bytes() {
    for_all_bytes(|a, b, x, y| {
        let (sa, sb) = (a as i8, b as i8);
        assert_eq!(value(&x.eq(y)), (a == b) as u64);
        assert_eq!(value(&x.ne(y)), (a != b) as u64);
        assert_eq!(value(&x.ugt(y)), (a > b) as u64);
        assert_eq!(value(&x.ugte(y)), (a >= b) as u64);
        assert_eq!(value(&x.ult(y)), (a < b) as u64);
        assert_eq!(value(&x.ulte(y)), (a <= b) as u64);
        assert_eq!(value(&x.sgt(y)), (sa > sb) as u64);
        assert_eq!(value(&x.sgte(y)), (sa >= sb) as u64);
        assert_eq!(value(&x.slt(y)), (sa < sb) as u64);
        assert_eq!(value(&x.slte(y)), (sa <= sb) as u64);
    });
}

#[test]
fn overflow_flags_agree_with_machine_bytes() {
    for_all_bytes(|a, b, x, y| {
        let (sa, sb) = (a as i8, b as i8);
        assert_eq!(value(&x.uaddo(y)), a.overflowing_add(b).1 as u64);
        assert_eq!(value(&x.saddo(y)), sa.overflowing_add(sb).1 as u64);
        assert_eq!(value(&x.usubo(y)), a.overflowing_sub(b).1 as u64);
        assert_eq!(value(&x.ssubo(y)), sa.overflowing_sub(sb).1 as u64);
        assert_eq!(value(&x.umulo(y)), a.overflowing_mul(b).1 as u64);
        assert_eq!(value(&x.smulo(y)), sa.overflowing_mul(sb).1 as u64);
    });
}

#[test]
fn saturating_addition_agrees_with_machine_bytes() {
    for_all_bytes(|a, b, x, y| {
        let (sa, sb) = (a as i8, b as i8);
        assert_eq!(value(&x.uadds(y)), a.saturating_add(b) as u64);
        assert_eq!(value(&x.sadds(y)), sa.saturating_add(sb) as u8 as u64);
    });
}

#[test]
fn resizing_agrees_with_machine_integers() {
    for a in 0..=255u8 {
        let x = BV::from_u64(a as u64, 8);
        assert_eq!(value(&x.zero_ext(16)), a as u16 as u64);
        assert_eq!(value(&x.sign_ext(16)), a as i8 as i16 as u16 as u64);
        assert_eq!(value(&x.clone().resize_unsigned(3)), (a & 0b111) as u64);
        assert_eq!(value(&x.clone().resize_unsigned(13)), a as u64);
        for low in 0..8u32 {
            for high in low..8u32 {
                let n = high - low + 1;
                let want = ((a as u64) >> low) & ((1u64 << n) - 1);
                assert_eq!(value(&x.slice(low, high)), want);
            }
        }
        for b in [0u8, 1, 0x7f, 0x80, 0xff] {
            let y = BV::from_u64(b as u64, 8);
            assert_eq!(value(&x.concat(&y)), ((a as u64) << 8) | b as u64);
        }
    }
}

#[test]
fn operations_on_64_bits_agree_with_machine_words() {
    let samples = [
        0u64,
        1,
        2,
        0x7fff_ffff_ffff_ffff,
        0x8000_0000_0000_0000,
        0xffff_ffff_ffff_ffff,
        0x0123_4567_89ab_cdef,
        0xfedc_ba98_7654_3210,
        63,
        64,
    ];
    for &a in &samples {
        for &b in &samples {
            let x = BV::from_u64(a, 64);
            let y = BV::from_u64(b, 64);
            let (sa, sb) = (a as i64, b as i64);
            assert_eq!(value(&x.add(&y)), a.wrapping_add(b));
            assert_eq!(value(&x.sub(&y)), a.wrapping_sub(b));
            assert_eq!(value(&x.mul(&y)), a.wrapping_mul(b));
            assert_eq!(value(&x.and(&y)), a & b);
            assert_eq!(value(&x.or(&y)), a | b);
            assert_eq!(value(&x.xor(&y)), a ^ b);
            assert_eq!(value(&x.not()), !a);
            if b != 0 {
                assert_eq!(value(&x.udiv(&y)), a / b);
                assert_eq!(value(&x.urem(&y)), a % b);
                assert_eq!(value(&x.sdiv(&y)), sa.wrapping_div(sb) as u64);
                assert_eq!(value(&x.srem(&y)), sa.wrapping_rem(sb) as u64);
            }
            assert_eq!(value(&x.sll(&y)), if b < 64 { a << b } else { 0 });
            assert_eq!(value(&x.srl(&y)), if b < 64 { a >> b } else { 0 });
            assert_eq!(
                value(&x.sra(&y)),
                if b < 64 { (sa >> b) as u64 } else { (sa >> 63) as u64 }
            );
            assert_eq!(value(&x.slt(&y)), (sa < sb) as u64);
            assert_eq!(value(&x.ult(&y)), (a < b) as u64);
            assert_eq!(value(&x.uaddo(&y)), a.overflowing_add(b).1 as u64);
            assert_eq!(value(&x.saddo(&y)), sa.overflowing_add(sb).1 as u64);
            assert_eq!(value(&x.usubo(&y)), a.overflowing_sub(b).1 as u64);
            assert_eq!(value(&x.ssubo(&y)), sa.overflowing_sub(sb).1 as u64);
            assert_eq!(value(&x.umulo(&y)), a.overflowing_mul(b).1 as u64);
            assert_eq!(value(&x.smulo(&y)), sa.overflowing_mul(sb).1 as u64);
            assert_eq!(value(&x.uadds(&y)), a.saturating_add(b));
            assert_eq!(value(&x.sadds(&y)), sa.saturating_add(sb) as u64);
        }
    }
}
