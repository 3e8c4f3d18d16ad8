use light_mixer::binary32::Binary32;
use light_mixer::text::{
    push_decimal, push_left_aligned, push_repeated, push_right_aligned, push_two_places,
    push_whole, w,
};

fn two_places(x: f32) -> String {
    let mut s = String::new();
    push_two_places(&mut s, Binary32::from_bits(x.to_bits()));
    s
}

fn whole(x: f32) -> String {
    let mut s = String::new();
    push_whole(&mut s, Binary32::from_bits(x.to_bits()));
    s
}

#[test]
fn texts_are_appended() {
    let mut s = String::from("a");
    w(&mut s, "bc");
    assert_eq!(s, "abc");
    push_repeated(&mut s, '\u{2588}', 3);
    assert_eq!(s, "abc\u{2588}\u{2588}\u{2588}");
    push_repeated(&mut s, 'x', 0);
    assert_eq!(s, "abc\u{2588}\u{2588}\u{2588}");
}

#[test]
fn columns_are_padded_by_characters() {
    let mut s = String::new();
    push_left_aligned(&mut s, "\u{2588}b", 4);
    push_right_aligned(&mut s, "cd", 3);
    push_left_aligned(&mut s, "longer", 3);
    push_right_aligned(&mut s, "longer", 3);
    assert_eq!(s, "\u{2588}b   cdlongerlonger");
}

#[test]
fn integers_in_decimal() {
    for n in [0u128, 7, 9, 10, 99, 100, 1234567890, u64::MAX as u128, u128::MAX] {
        let mut s = String::new();
        push_decimal(&mut s, n);
        assert_eq!(s, format!("{}", n));
    }
}

#[test]
fn numbers_with_two_places() {
    assert_eq!(two_places(0.0), "0.00");
    assert_eq!(two_places(1.0), "1.00");
    assert_eq!(two_places(0.05), "0.05");
    // Exactly in the middle: to the even digit.
    assert_eq!(two_places(0.125), "0.12");
    assert_eq!(two_places(0.375), "0.38");
    assert_eq!(two_places(f32::NAN), "NaN");
    assert_eq!(two_places(f32::NEG_INFINITY), "-inf");
    let mut seed: u64 = 99;
    for i in 0..3000u32 {
        seed = seed.wrapping_mul(6364136223846793005).wrapping_add(1442695040888963407);
        for x in [
            i as f32 / 1000.0,
            -(i as f32) / 64.0,
            f32::from_bits((seed >> 32) as u32),
        ] {
            assert_eq!(two_places(x), format!("{:.2}", x), "{:?}", x);
        }
    }
}

#[test]
fn numbers_without_fraction() {
    assert_eq!(whole(450.4), "450");
    assert_eq!(whole(0.5), "0");
    assert_eq!(whole(1.5), "2");
    assert_eq!(whole(2.5), "2");
    assert_eq!(whole(f32::INFINITY), "inf");
    let mut seed: u64 = 7;
    for i in 0..3000u32 {
        seed = seed.wrapping_mul(6364136223846793005).wrapping_add(1442695040888963407);
        for x in [
            i as f32 / 8.0,
            -(i as f32) / 3.0,
            f32::from_bits((seed >> 32) as u32),
            f32::MAX,
            f32::MIN_POSITIVE,
        ] {
            assert_eq!(whole(x), format!("{:.0}", x), "{:?}", x);
        }
    }
}
