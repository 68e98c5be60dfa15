use tuner_dsp::extrema::argmax;
use tuner_dsp::extrema::key_less;
use tuner_dsp::fft_order::bit_reverse_permute;
use tuner_dsp::fft_order::reverse_index;
use tuner_dsp::fft_order::FFT_SIZE;
use tuner_dsp::yin_search::YinCurve;

fn curve(values: &[Option<i32>], thres: i32) -> YinCurve {
    YinCurve::new(values.to_vec(), Some(thres))
}

#[test]
fn key_less_orders_only_ordered_keys() {
    assert!(key_less(Some(-3), Some(2)));
    assert!(!key_less(Some(2), Some(2)));
    assert!(!key_less(None, Some(2)));
    assert!(!key_less(Some(2), None));
}

#[test]
fn threshold_tau_follows_the_dip_down() {
    let c = curve(&[Some(100), Some(90), Some(50), Some(30), Some(10), Some(20), Some(5)], 60);
    // lag 2 is the first below 60; the curve falls to lag 4 and rises at 5
    assert_eq!(c.get_absolute_threshold_tau(), Some(4));
    assert_eq!(c.select_tau(), Some(4));
}

#[test]
fn threshold_tau_ignores_lag_zero() {
    let c = curve(&[Some(0), Some(90), Some(80)], 60);
    assert_eq!(c.get_absolute_threshold_tau(), None);
}

#[test]
fn threshold_tau_stops_at_the_last_lag() {
    let c = curve(&[Some(100), Some(50), Some(40), Some(30)], 60);
    assert_eq!(c.get_absolute_threshold_tau(), Some(3));
}

#[test]
fn threshold_tau_stops_on_equal_or_unordered_neighbour() {
    let c = curve(&[Some(100), Some(50), Some(50), Some(10)], 60);
    assert_eq!(c.get_absolute_threshold_tau(), Some(1));
    let d = curve(&[Some(100), Some(50), None, Some(10)], 60);
    assert_eq!(d.get_absolute_threshold_tau(), Some(1));
}

#[test]
fn unordered_values_are_never_below_the_threshold() {
    let c = curve(&[Some(1), None, None, Some(70)], 60);
    assert_eq!(c.get_absolute_threshold_tau(), None);
    let d = YinCurve::new(vec![Some(1), Some(2), Some(3)], None);
    assert_eq!(d.get_absolute_threshold_tau(), None);
}

#[test]
fn global_min_takes_the_first_smallest_from_lag_one() {
    let c = curve(&[Some(-100), Some(70), Some(65), Some(80), Some(65)], 60);
    assert_eq!(c.get_absolute_threshold_tau(), None);
    assert_eq!(c.get_global_min(), Some(2));
    assert_eq!(c.select_tau(), Some(2));
}

#[test]
fn global_min_skips_unordered_values() {
    let c = curve(&[Some(0), None, Some(90), Some(80)], 60);
    // the scan starts at lag 1, which is unordered, so nothing replaces it
    assert_eq!(c.get_global_min(), Some(1));
    let d = curve(&[Some(0), Some(90), None, Some(80)], 60);
    assert_eq!(d.get_global_min(), Some(3));
}

#[test]
fn too_short_curves_give_no_lag() {
    assert_eq!(curve(&[], 60).select_tau(), None);
    assert_eq!(curve(&[Some(0)], 60).select_tau(), None);
    assert_eq!(curve(&[Some(0)], 60).get_global_min(), None);
    assert_eq!(curve(&[Some(0), Some(99)], 60).select_tau(), Some(1));
}

#[test]
fn interpolation_points_clamp_at_the_last_lag() {
    let c = curve(&[Some(0), Some(1), Some(2), Some(3)], 60);
    assert_eq!(c.max_tau(), 4);
    assert_eq!(c.interpolation_points(1), (0, 1, 2));
    assert_eq!(c.interpolation_points(3), (2, 3, 3));
}

#[test]
fn cosine_points_only_inside_the_curve() {
    let c = curve(&[Some(0), Some(1), Some(2), Some(3)], 60);
    assert_eq!(c.cosine_interpolation_points(0), None);
    assert_eq!(c.cosine_interpolation_points(1), Some((0, 1, 2)));
    assert_eq!(c.cosine_interpolation_points(2), Some((1, 2, 3)));
    assert_eq!(c.cosine_interpolation_points(3), None);
}

#[test]
fn argmax_takes_the_last_largest() {
    assert_eq!(argmax(&[]), None);
    assert_eq!(argmax(&[Some(1), Some(7), Some(3), Some(7), Some(2)]), Some(3));
    assert_eq!(argmax(&[Some(9)]), Some(0));
    // an unordered value never counts as smaller, so the scan moves onto it
    assert_eq!(argmax(&[Some(1), Some(3), None]), Some(2));
}

#[test]
fn reverse_index_reverses_thirteen_bits() {
    assert_eq!(FFT_SIZE, 8192);
    assert_eq!(reverse_index(0), 0);
    assert_eq!(reverse_index(1), 4096);
    assert_eq!(reverse_index(2), 2048);
    assert_eq!(reverse_index(3), 6144);
    assert_eq!(reverse_index(4096), 1);
    assert_eq!(reverse_index(8191), 8191);
    for i in 0..FFT_SIZE {
        assert_eq!(reverse_index(i).reverse_bits() >> (usize::BITS - 13), i);
        assert_eq!(i.reverse_bits() >> (usize::BITS - 13), reverse_index(i));
    }
}

#[test]
fn bit_reverse_permute_moves_points_and_undoes_itself() {
    let original: Vec<u32> = (0..FFT_SIZE as u32).collect();
    let mut data = original.clone();
    bit_reverse_permute(&mut data);
    for p in 0..FFT_SIZE {
        assert_eq!(data[p] as usize, reverse_index(p));
    }
    bit_reverse_permute(&mut data);
    assert_eq!(data, original);
}
