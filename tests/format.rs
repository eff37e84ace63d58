use string_helper::{fan_duty, fixed_to_str, i16_to_str, num_length, num_length_hex, u32_to_str};

fn text(buf: &[u8]) -> String {
    String::from_utf8(buf.to_vec()).unwrap()
}

#[test]
fn digit_count_of_zero_is_one() {
    assert_eq!(num_length(0), 1);
}

#[test]
fn digit_count_at_decade_edges() {
    assert_eq!(num_length(9), 1);
    assert_eq!(num_length(10), 2);
    assert_eq!(num_length(99), 2);
    assert_eq!(num_length(100), 3);
}

#[test]
fn digit_count_of_largest_u32() {
    assert_eq!(num_length(4294967295), 10);
}

#[test]
fn hex_digit_count() {
    assert_eq!(num_length_hex(0), 1);
    assert_eq!(num_length_hex(15), 1);
    assert_eq!(num_length_hex(16), 2);
    assert_eq!(num_length_hex(255), 2);
    assert_eq!(num_length_hex(256), 3);
    assert_eq!(num_length_hex(0xffff_ffff), 8);
}

#[test]
fn unsigned_zero() {
    let (len, buf) = u32_to_str(0);
    assert_eq!(len, 1);
    assert_eq!(buf[1], b'0');
    assert_eq!(text(&buf), " 0          ");
}

#[test]
fn unsigned_largest() {
    let (len, buf) = u32_to_str(4294967295);
    assert_eq!(len, 10);
    assert_eq!(text(&buf[1..=10]), "4294967295");
    assert_eq!(text(&buf), " 4294967295 ");
}

#[test]
fn unsigned_is_anchored_at_index_one() {
    let (len, buf) = u32_to_str(1234);
    assert_eq!(len, 4);
    assert_eq!(text(&buf), " 1234       ");
}

#[test]
fn signed_minimum() {
    let (len, buf) = i16_to_str(-32768);
    assert_eq!(len, 6);
    assert_eq!(text(&buf[6..]), "-32768");
    assert_eq!(text(&buf), "      -32768");
}

#[test]
fn signed_maximum() {
    let (len, buf) = i16_to_str(32767);
    assert_eq!(len, 5);
    assert_eq!(text(&buf), "       32767");
}

#[test]
fn signed_zero_and_small_negative() {
    let (len, buf) = i16_to_str(0);
    assert_eq!(len, 1);
    assert_eq!(text(&buf), "           0");
    let (len, buf) = i16_to_str(-5);
    assert_eq!(len, 2);
    assert_eq!(text(&buf), "          -5");
}

#[test]
fn fixed_three_point_one_four() {
    // 3.14 scaled by 10^2 and truncated
    let (len, buf) = fixed_to_str(314, 2);
    assert_eq!(len, 4);
    assert_eq!(text(&buf[8..]), "3.14");
    assert_eq!(text(&buf), "        3.14");
}

#[test]
fn fixed_one_half_undercounts_padding() {
    // 0.5 scaled by 10^2: the text is "0.50", the length leaves out the padding zero
    let (len, buf) = fixed_to_str(50, 2);
    assert_eq!(len, 3);
    assert_eq!(text(&buf[8..]), "0.50");
    assert_eq!(text(&buf), "        0.50");
}

#[test]
fn fixed_two_padding_zeros() {
    let (len, buf) = fixed_to_str(5, 2);
    assert_eq!(len, 2);
    assert_eq!(text(&buf), "        0.05");
}

#[test]
fn fixed_negative_padding_follows_sign() {
    let (len, buf) = fixed_to_str(-5, 2);
    assert_eq!(len, 3);
    assert_eq!(text(&buf), "        -.05");
    let (len, buf) = fixed_to_str(-5, 3);
    assert_eq!(len, 3);
    assert_eq!(text(&buf), "       -.005");
}

#[test]
fn fixed_without_fraction() {
    let (len, buf) = fixed_to_str(-1234, 0);
    assert_eq!(len, 5);
    assert_eq!(text(&buf), "       -1234");
}

#[test]
fn fixed_negative() {
    let (len, buf) = fixed_to_str(-314, 2);
    assert_eq!(len, 5);
    assert_eq!(text(&buf), "       -3.14");
}

#[test]
fn fixed_saturated_maximum_four_digits() {
    let (len, buf) = fixed_to_str(32767, 4);
    assert_eq!(len, 6);
    assert_eq!(text(&buf), "      3.2767");
}

#[test]
fn fixed_temperature_three_digits() {
    // 21.5625 degrees scaled by 10^3
    let (len, buf) = fixed_to_str(21562, 3);
    assert_eq!(len, 6);
    assert_eq!(text(&buf), "      21.562");
}

#[test]
fn fixed_digits_match_scaled_value() {
    for dig in 0u8..5 {
        for scaled in [-32768i16, -12345, -100, 0, 7, 999, 10000, 32767] {
            let (_, buf) = fixed_to_str(scaled, dig);
            let shown: String = buf.iter().filter(|c| c.is_ascii_digit()).map(|&c| c as char).collect();
            let plain = scaled.unsigned_abs().to_string();
            let plain_len = plain.len() + if scaled < 0 { 1 } else { 0 };
            if dig == 0 || plain_len > dig as usize {
                assert_eq!(shown, plain);
            } else {
                let zeros = "0".repeat(dig as usize + 1 - plain_len);
                assert_eq!(shown, zeros + &plain);
            }
        }
    }
}

#[test]
fn fan_duty_mapping() {
    assert_eq!(fan_duty(100, 1200, 0), 0);
    assert_eq!(fan_duty(100, 1200, 100), 1200);
    assert_eq!(fan_duty(100, 1200, 50), 650);
    assert_eq!(fan_duty(100, 1200, 1), 111);
}
