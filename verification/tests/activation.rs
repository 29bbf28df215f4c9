use microflow::activation::{activate, relu, relu6, FusedActivation};
use microflow::quantize::{max, min, Quantized};

#[test]
fn relu_raises_to_zero_point() {
    assert_eq!(relu(-3i8, 2), 2);
    assert_eq!(relu(5i8, 2), 5);
    assert_eq!(relu(10u8, 128), 128);
}

#[test]
fn relu6_clamps() {
    assert_eq!(relu6(-3i8, 50, 2), 2);
    assert_eq!(relu6(30i8, 50, 2), 30);
    assert_eq!(relu6(90i8, 50, 2), 50);
}

#[test]
fn activations() {
    assert_eq!(activate(FusedActivation::Linear, -7i8, 0, 6), -7);
    assert_eq!(activate(FusedActivation::Relu, -7i8, 0, 6), 0);
    assert_eq!(activate(FusedActivation::Relu6, 9i8, 0, 6), 6);
}

#[test]
fn quantized_values() {
    assert_eq!((-128i8).to_i32(), -128);
    assert_eq!(255u8.to_i32(), 255);
    assert_eq!(max(3i8, -4), 3);
    assert_eq!(min(3u8, 4), 3);
}
