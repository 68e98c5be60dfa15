// The tuner's float arithmetic relies on these properties of std's f32.
use tuner_dsp::BLOCK_SIZE;

#[test]
fn test_sin_cos() {
    let pi = std::f32::consts::PI;
    let angle = pi / 2.0;
    let sine_value = angle.sin();
    let cosine_value = angle.cos();
    assert_eq!(sine_value, 1.0);
    assert!(cosine_value <= std::f32::EPSILON);
}

#[test]
fn test_log() {
    let x: f32 = 4.0;
    assert_eq!(x.log2(), 2.0);
}

#[test]
fn block_size_is_a_power_of_two() {
    assert!(BLOCK_SIZE.is_power_of_two());
    assert_eq!(BLOCK_SIZE, 4096);
}
