use ddr_chart_tools::model::{
    AudioBuffer, AudioFormatKind, PreviewSlice, Rational, RationalError, TickScale, TickScaleError,
    Beat, Bpm, Style, PanelSet,
};

#[test]
fn beat_from_measure_ticks_round_trips_4096() {
    // 4096 ticks = 4 beats = whole note
    let b = Beat::from_measure_ticks(4096).unwrap();
    assert_eq!(b.as_rational(), Rational::from_integer(4));
}

#[test]
fn beat_zero_is_ordered_first() {
    assert!(Beat::zero() < Beat::from_measure_ticks(1).unwrap());
}

#[test]
fn beat_ordering_matches_rational() {
    let a = Beat::from_measure_ticks(1024).unwrap();
    let b = Beat::from_measure_ticks(2048).unwrap();
    assert!(a < b);
}

#[test]
fn style_panel_counts() {
    assert_eq!(Style::Single.panel_count(), 4);
    assert_eq!(Style::Double.panel_count(), 8);
}

#[test]
fn panelset_masks_out_bits_above_style_width() {
    // Single has 4 panels — upper nibble should be masked.
    let ps = PanelSet::from_bits(Style::Single, 0xFF);
    assert_eq!(ps.bits(), 0x0F);
}

#[test]
fn panelset_double_keeps_all_8_bits() {
    let ps = PanelSet::from_bits(Style::Double, 0xFF);
    assert_eq!(ps.bits(), 0xFF);
    assert_eq!(ps.count(), 8);
}

#[test]
fn panelset_contains_and_with() {
    let ps = PanelSet::empty().with(0).with(3);
    assert!(ps.contains(0));
    assert!(ps.contains(3));
    assert!(!ps.contains(1));
    assert_eq!(ps.count(), 2);
}

#[test]
fn panelset_with_out_of_range_is_noop() {
    let ps = PanelSet::empty().with(9);
    assert!(ps.is_empty());
}

#[test]
fn bpm_ordering() {
    let slow = Bpm::from_rational(Rational::from_integer(120));
    let fast = Bpm::from_rational(Rational::from_integer(240));
    assert!(slow < fast);
}

#[test]
fn default_window_is_30s_10s() {
    let p = PreviewSlice::default_window();
    assert_eq!(p.start_seconds, Rational::from_integer(30));
    assert_eq!(p.length_seconds, Rational::from_integer(10));
}

fn r(num: i64, den: i64) -> Rational {
    Rational::new(num, den).unwrap()
}

#[test]
fn reduces_to_lowest_terms() {
    let x = r(4, 8);
    assert_eq!(x.num(), 1);
    assert_eq!(x.den(), 2);
}

#[test]
fn negative_denominator_flips_to_numerator() {
    let x = r(3, -4);
    assert_eq!(x.num(), -3);
    assert_eq!(x.den(), 4);
}

#[test]
fn zero_denominator_is_rejected() {
    assert_eq!(Rational::new(1, 0), Err(RationalError::ZeroDenominator));
}

#[test]
fn equal_after_reduction() {
    assert_eq!(r(2, 4), r(3, 6));
}

#[test]
fn ordering_across_denominators() {
    // 1/3 < 1/2 < 2/3
    assert!(r(1, 3) < r(1, 2));
    assert!(r(1, 2) < r(2, 3));
}

#[test]
fn add_common_denominator() {
    assert_eq!(r(1, 4).add(&r(1, 4)).unwrap(), r(1, 2));
}

#[test]
fn add_different_denominators() {
    assert_eq!(r(1, 2).add(&r(1, 3)).unwrap(), r(5, 6));
}

#[test]
fn sub_produces_negative() {
    assert_eq!(r(1, 3).sub(&r(1, 2)).unwrap(), r(-1, 6));
}

#[test]
fn mul_reduces() {
    assert_eq!(r(2, 3).mul(&r(3, 4)).unwrap(), r(1, 2));
}

#[test]
fn div_by_zero_rational_is_error() {
    assert_eq!(
        r(1, 2).div(&Rational::zero()),
        Err(RationalError::ZeroDenominator)
    );
}

#[test]
fn div_is_inverse_of_mul() {
    let a = r(5, 7);
    let b = r(3, 11);
    assert_eq!(a.mul(&b).unwrap().div(&b).unwrap(), a);
}

#[test]
fn from_integer() {
    let x = Rational::from_integer(42);
    assert_eq!(x.num(), 42);
    assert_eq!(x.den(), 1);
}

#[test]
fn zero_is_zero() {
    assert!(Rational::zero().is_zero());
    assert!(!Rational::from_integer(1).is_zero());
}

#[test]
fn identity_scale() {
    let s = TickScale::new(1000, 1000).unwrap();
    assert!(s.is_identity());
    assert_eq!(s.scale_exact(12345), Some(12345));
}

#[test]
fn zero_tps_rejected() {
    assert_eq!(TickScale::new(0, 1000), Err(TickScaleError::ZeroTps));
    assert_eq!(TickScale::new(150, 0), Err(TickScaleError::ZeroTps));
}

#[test]
fn scale_150_to_1000_exact_on_multiples_of_3() {
    // 1000/150 = 20/3, so exact iff input divisible by 3.
    let s = TickScale::new(150, 1000).unwrap();
    assert_eq!(s.scale_exact(3), Some(20));
    assert_eq!(s.scale_exact(150), Some(1000));
    assert_eq!(s.scale_exact(300), Some(2000));
}

#[test]
fn scale_150_to_1000_inexact_returns_none() {
    let s = TickScale::new(150, 1000).unwrap();
    assert_eq!(s.scale_exact(1), None);
    assert_eq!(s.scale_exact(2), None);
}

#[test]
fn round_trip_150_to_1000_to_150_on_divisible_values() {
    let up = TickScale::new(150, 1000).unwrap();
    let down = TickScale::new(1000, 150).unwrap();
    for t in [0, 3, 150, 1500, 300_000] {
        let at_1000 = up.scale_exact(t).unwrap();
        let back = down.scale_exact(at_1000).unwrap();
        assert_eq!(back, t, "round-trip failed for {t}");
    }
}

#[test]
fn scale_rounded_rounds_half_away_from_zero() {
    let s = TickScale::new(150, 1000).unwrap();
    // 1 * 20 / 3 = 6.67 → 7
    assert_eq!(s.scale_rounded(1), Some(7));
    // 2 * 20 / 3 = 13.33 → 13
    assert_eq!(s.scale_rounded(2), Some(13));
    // negative: -1 * 20 / 3 = -6.67 → -7
    assert_eq!(s.scale_rounded(-1), Some(-7));
}

#[test]
fn ratio_is_reduced_on_construction() {
    let s = TickScale::new(150, 1000).unwrap();
    assert_eq!((s.num(), s.den()), (20, 3));
}

#[test]
fn frame_count_handles_stereo() {
    let buf = AudioBuffer {
        samples: vec![0; 88_200], // 1 second of stereo 44.1 kHz
        sample_rate: 44_100,
        channels: 2,
    };
    assert_eq!(buf.frame_count(), 44_100);
    assert!(((buf.frame_count() as f64 / f64::from(buf.sample_rate)) - 1.0).abs() < 1e-9);
}

#[test]
fn frame_count_on_empty_buffer() {
    let buf = AudioBuffer {
        samples: vec![],
        sample_rate: 44_100,
        channels: 2,
    };
    assert_eq!(buf.frame_count(), 0);
    assert_eq!((buf.frame_count() as f64 / f64::from(buf.sample_rate)), 0.0);
}

#[test]
fn wavm_is_decode_only() {
    assert!(!AudioFormatKind::Wavm.is_writable());
    assert!(AudioFormatKind::Xwb.is_writable());
    assert!(AudioFormatKind::Ogg.is_writable());
}
