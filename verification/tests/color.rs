use ray_tracer_challenge::Color;

#[test]
fn color_creation() {
    let c = Color {
        red: (-0.5f64).to_bits(),
        green: 0.4f64.to_bits(),
        blue: 1.7f64.to_bits(),
    };

    assert_eq!(f64::from_bits(c.red), -0.5);
    assert_eq!(f64::from_bits(c.green), 0.4);
    assert_eq!(f64::from_bits(c.blue), 1.7);
}

#[test]
fn color_is_a_plain_copy() {
    let c = Color { red: 1.0f64.to_bits(), green: 0, blue: 0 };
    let d = c;
    assert_eq!(c.red, d.red);
    assert_eq!(format!("{:?}", d), format!("{:?}", c.clone()));
}
