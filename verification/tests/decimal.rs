use nautilus_accounting::decimal::{round_dp, Dec};

#[test]
fn test_round_dp_half_to_even() {
    assert_eq!(round_dp(Dec { mantissa: 2345, scale: 3 }, 2), Dec { mantissa: 234, scale: 2 });
    assert_eq!(round_dp(Dec { mantissa: 2355, scale: 3 }, 2), Dec { mantissa: 236, scale: 2 });
    assert_eq!(round_dp(Dec { mantissa: 2346, scale: 3 }, 2), Dec { mantissa: 235, scale: 2 });
    assert_eq!(round_dp(Dec { mantissa: -2355, scale: 3 }, 2), Dec { mantissa: -236, scale: 2 });
}

#[test]
fn test_round_dp_keeps_short_values() {
    assert_eq!(round_dp(Dec { mantissa: 25, scale: 1 }, 2), Dec { mantissa: 25, scale: 1 });
    assert_eq!(round_dp(Dec { mantissa: 0, scale: 5 }, 2), Dec { mantissa: 0, scale: 2 });
}

#[test]
fn test_round_dp_large_scale() {
    // 1e-28 rounds to zero at 27 places; 5e-28 is a tie rounding to the even 0.
    assert_eq!(round_dp(Dec { mantissa: 1, scale: 28 }, 0), Dec { mantissa: 0, scale: 0 });
    assert_eq!(round_dp(Dec { mantissa: 5, scale: 28 }, 27), Dec { mantissa: 0, scale: 27 });
    assert_eq!(round_dp(Dec { mantissa: 15, scale: 28 }, 27), Dec { mantissa: 2, scale: 27 });
}
