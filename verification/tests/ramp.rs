use pots::ramp::{Ramp, BASE_UNITS};

#[test]
fn ramp_from_str_reads_any_case_and_trims() {
    assert_eq!(Ramp::from_str("flat"), Ramp::Flat);
    assert_eq!(Ramp::from_str(" FLAT\n"), Ramp::Flat);
    assert_eq!(Ramp::from_str("Golden"), Ramp::Golden);
}

#[test]
fn ramp_from_str_defaults_to_golden() {
    assert_eq!(Ramp::from_str(""), Ramp::Golden);
    assert_eq!(Ramp::from_str("steep"), Ramp::Golden);
    assert_eq!(Ramp::from_str("fl at"), Ramp::Golden);
}

#[test]
fn ramp_of_name_takes_the_name_as_it_is() {
    assert_eq!(Ramp::of_name("flat"), Ramp::Flat);
    assert_eq!(Ramp::of_name("FLAT"), Ramp::Golden);
    assert_eq!(Ramp::of_name(" flat"), Ramp::Golden);
}

#[test]
fn ramp_names_round_trip() {
    assert_eq!(Ramp::Golden.as_str(), "golden");
    assert_eq!(Ramp::Flat.as_str(), "flat");
    assert_eq!(Ramp::from_str(Ramp::Golden.as_str()), Ramp::Golden);
    assert_eq!(Ramp::from_str(Ramp::Flat.as_str()), Ramp::Flat);
}

#[test]
fn ramp_bases() {
    assert_eq!(Ramp::Golden.base_units(), 1_618_033_988_749_895);
    assert_eq!(Ramp::Flat.base_units(), BASE_UNITS);
    assert_eq!(Ramp::Golden.base_units() as f64 / BASE_UNITS as f64, 1.618033988749895);
    assert_eq!(Ramp::Flat.base_units() as f64 / BASE_UNITS as f64, 1.0);
}

#[test]
fn flat_weights_are_all_one_and_golden_weights_grow_by_the_base() {
    let flat = Ramp::Flat.base_units() as f64 / BASE_UNITS as f64;
    let golden = Ramp::Golden.base_units() as f64 / BASE_UNITS as f64;
    for position in 0..12 {
        assert_eq!(flat.powf(position as f64), 1.0);
        let ratio = golden.powf((position + 1) as f64) / golden.powf(position as f64);
        assert!((ratio - 1.618033988749895).abs() < 1e-12);
    }
    for count in 1..12usize {
        for base in [flat, golden] {
            let weights: Vec<f64> = (0..count).map(|p| base.powf(p as f64)).collect();
            let full: f64 = weights.iter().sum();
            let portions: f64 = weights.iter().map(|w| w / full).sum();
            assert!((portions - 1.0).abs() < 1e-12);
        }
    }
}
