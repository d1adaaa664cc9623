use shape_mesh::single::Single;

fn numbers() -> Vec<f32> {
    vec![
        0.0,
        -0.0,
        1.0,
        -1.0,
        0.5,
        -3.25,
        f32::MIN_POSITIVE,
        -f32::MIN_POSITIVE,
        f32::from_bits(1),
        f32::from_bits(0x8000_0001),
        f32::from_bits(0x007f_ffff),
        f32::MAX,
        f32::MIN,
        f32::INFINITY,
        f32::NEG_INFINITY,
        f32::NAN,
        -f32::NAN,
    ]
}

fn single(f: f32) -> Single {
    Single { bits: f.to_bits() }
}

#[test]
fn comparisons_are_those_of_the_numbers() {
    for a in numbers() {
        for b in numbers() {
            assert_eq!(single(a).less_than(single(b)), a < b, "{} < {}", a, b);
            assert_eq!(single(a).equals(single(b)), a == b, "{} == {}", a, b);
            let differs = a.signum() != b.signum();
            assert_eq!(single(a).signum_differs(single(b)), differs, "{} and {}", a, b);
        }
    }
}

#[test]
fn zero_separates_the_signs() {
    for a in numbers() {
        assert_eq!(single(a).is_below_zero(), a < 0.0, "{}", a);
        assert_eq!(single(a).is_above_zero(), a > 0.0, "{}", a);
        assert_eq!(single(a).is_zero(), a == 0.0, "{}", a);
    }
}

#[test]
fn negation_changes_the_sign() {
    for a in numbers() {
        assert_eq!(single(a).negated().bits, (-a).to_bits());
        assert_eq!(single(a).negated().negated(), single(a));
    }
    assert_eq!(Single { bits: 0x3f80_0000 }.negated(), Single { bits: 0xbf80_0000 });
}

#[test]
fn zeros_are_the_same_number() {
    assert!(Single { bits: 0 }.equals(Single { bits: 0x8000_0000 }));
    assert!(Single { bits: 0 }.signum_differs(Single { bits: 0x8000_0000 }));
}
