use mortality::measure::Measurement;

fn measured(x: f64) -> Measurement {
    Measurement::from_bits(x.to_bits())
}

fn samples() -> Vec<f64> {
    vec![
        f64::NEG_INFINITY,
        f64::MIN,
        -1.0e300,
        -80.0,
        -50.5,
        -1.0,
        -f64::MIN_POSITIVE,
        -5e-324,
        -0.0,
        0.0,
        5e-324,
        f64::MIN_POSITIVE,
        0.1,
        1.0,
        10.0,
        50.0,
        50.000000000000007,
        80.0,
        1.0e300,
        f64::MAX,
        f64::INFINITY,
    ]
}

#[test]
fn bits_round_trip() {
    let m = Measurement::from_bits(0x4049_0000_0000_0000);
    assert_eq!(m.to_bits(), 0x4049_0000_0000_0000);
    assert_eq!(m.bits, 50.0f64.to_bits());
}

#[test]
fn rank_of_chosen_values() {
    assert_eq!(measured(0.0).rank_of(), 0);
    assert_eq!(measured(-0.0).rank_of(), 0);
    assert_eq!(measured(1.0).rank_of(), 0x3ff0_0000_0000_0000);
    assert_eq!(measured(-1.0).rank_of(), -0x3ff0_0000_0000_0000);
    assert_eq!(measured(f64::INFINITY).rank_of(), 0x7ff0_0000_0000_0000);
    assert_eq!(measured(f64::NEG_INFINITY).rank_of(), -0x7ff0_0000_0000_0000);
    assert_eq!(measured(f64::NAN).rank_of(), -0x7ff0_0000_0000_0001);
    assert_eq!(Measurement::from_bits(u64::MAX).rank_of(), -0x7ff0_0000_0000_0001);
    assert_eq!(Measurement::from_bits(0x7ff0_0000_0000_0001).rank_of(), -0x7ff0_0000_0000_0001);
}

#[test]
fn rank_orders_as_the_numbers_do() {
    let xs = samples();
    for &a in &xs {
        for &b in &xs {
            let (ma, mb) = (measured(a), measured(b));
            assert_eq!(ma.outranks(&mb), a > b, "{} over {}", a, b);
            assert_eq!(ma.rank_of() == mb.rank_of(), a == b, "{} beside {}", a, b);
        }
    }
}

#[test]
fn not_a_number_ranks_last() {
    let nans = [f64::NAN, -f64::NAN, f64::from_bits(0x7ff0_0000_0000_0001), f64::from_bits(0xffff_ffff_ffff_ffff)];
    for &n in &nans {
        assert!(n.is_nan());
        assert!(measured(n).is_nan());
        for &x in &samples() {
            assert!(!measured(x).is_nan());
            assert!(measured(x).outranks(&measured(n)));
            assert!(!measured(n).outranks(&measured(x)));
        }
        for &m in &nans {
            assert!(!measured(n).outranks(&measured(m)));
        }
    }
}
