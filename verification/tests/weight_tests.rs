use polyphase::weight::bits_from_ordinal;
use polyphase::weight::ordinal_from_bits;
use polyphase::weight::CEILING;
use polyphase::weight::NO_EDGE;

fn ordinal(x: f64) -> i64 {
    ordinal_from_bits(x.to_bits())
}

#[test]
fn zeros_have_ordinal_zero() {
    assert_eq!(ordinal(0.0), 0);
    assert_eq!(ordinal(-0.0), 0);
}

#[test]
fn named_ordinals_are_those_of_their_scores() {
    assert_eq!(ordinal(-1.0), NO_EDGE);
    assert_eq!(ordinal(f64::MAX), CEILING);
    assert_eq!(NO_EDGE, -4607182418800017408);
    assert_eq!(CEILING, 9218868437227405311);
}

#[test]
fn ordinal_of_one() {
    assert_eq!(ordinal(1.0), 0x3ff0_0000_0000_0000);
    assert_eq!(ordinal(-2.0), -0x4000_0000_0000_0000);
}

#[test]
fn ordinals_keep_the_order_of_scores() {
    let scores = [
        f64::NEG_INFINITY,
        -1.0e300,
        -35.5,
        -1.0,
        -0.003,
        -1.0e-300,
        0.0,
        1.0e-300,
        0.0706,
        1.0,
        2.5,
        1.0e300,
        f64::MAX,
        f64::INFINITY,
    ];
    for i in 0..scores.len() {
        for j in 0..scores.len() {
            assert_eq!(scores[i] < scores[j], ordinal(scores[i]) < ordinal(scores[j]));
        }
    }
}

#[test]
fn bits_round_trip() {
    for x in [0.0f64, 1.0, -1.0, 0.0706, -35.5, f64::MAX, f64::MIN, f64::INFINITY] {
        let w = ordinal(x);
        assert_eq!(f64::from_bits(bits_from_ordinal(w)), x);
    }
    assert_eq!(bits_from_ordinal(0), 0);
    assert_eq!(bits_from_ordinal(-1), 0x8000_0000_0000_0001);
}
