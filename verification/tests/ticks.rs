use limitbook::{BookError, Num, Tick};

fn num(whole: i64) -> Num {
    Num::from_int(whole)
}

#[test]
fn test_tick_normalization() {
    let tick_size = Num::from_scaled(1, 2); // 0.01

    // Should round to nearest tick
    assert_eq!(
        Tick::new(Num::from_scaled(10012, 3), tick_size)
            .expect("invalid tick")
            .level(),
        Num::from_scaled(1001, 2)
    );
    assert_eq!(
        Tick::new(Num::from_scaled(10017, 3), tick_size)
            .expect("invalid tick")
            .level(),
        Num::from_scaled(1002, 2)
    );

    // Exact ticks should remain unchanged
    assert_eq!(
        Tick::new(Num::from_scaled(1002, 2), tick_size)
            .expect("invalid tick")
            .level(),
        Num::from_scaled(1002, 2)
    );
}

#[test]
fn test_tick_rejects_bad_inputs() {
    let tick_size = Num::from_scaled(1, 2);
    assert_eq!(
        Tick::new(num(0), tick_size).unwrap_err(),
        BookError::InvalidPrice
    );
    assert_eq!(
        Tick::new(num(-5), tick_size).unwrap_err(),
        BookError::InvalidPrice
    );
    assert_eq!(
        Tick::new(num(10), num(0)).unwrap_err(),
        BookError::InvalidTickSize
    );
    assert_eq!(
        Tick::new(num(10), num(-1)).unwrap_err(),
        BookError::InvalidTickSize
    );
}

#[test]
fn test_tick_half_rounds_to_even() {
    // banker's rounding at the midpoint: 10.015 / 0.01 = 1001.5 -> 1002,
    // while 10.025 / 0.01 = 1002.5 -> 1002 as well (ties go to even)
    let tick_size = Num::from_scaled(1, 2);
    assert_eq!(
        Tick::new(Num::from_scaled(10015, 3), tick_size)
            .expect("invalid tick")
            .level(),
        Num::from_scaled(1002, 2)
    );
    assert_eq!(
        Tick::new(Num::from_scaled(10025, 3), tick_size)
            .expect("invalid tick")
            .level(),
        Num::from_scaled(1002, 2)
    );
}

#[test]
fn test_num_scaled_values() {
    assert_eq!(Num::from_scaled(100012, 3), Num::from_units(100_012_000_000));
    assert_eq!(Num::from_int(100), Num::from_units(100_000_000_000));
    assert_eq!(Num::from_scaled(1, 2).units(), 10_000_000);
}
