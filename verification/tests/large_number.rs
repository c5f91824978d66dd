use large_num::decimal::add_string_num_to_string_num;
use large_num::decimal::divide_string_num_by_256;
use large_num::decimal::multiply_256_to_string_num;
use large_num::large_number::LargeNumber;
use large_num::large_number::LargeNumberError;

#[test]
fn test_add_string_num_to_string_num() {
    assert_eq!(
        add_string_num_to_string_num("1".to_string(), "1".to_string()),
        "2"
    );
    assert_eq!(
        add_string_num_to_string_num("1".to_string(), "9".to_string()),
        "10"
    );
    assert_eq!(
        add_string_num_to_string_num("9".to_string(), "1".to_string()),
        "10"
    );
    assert_eq!(
        add_string_num_to_string_num("9".to_string(), "9".to_string()),
        "18"
    );
    assert_eq!(
        add_string_num_to_string_num("99".to_string(), "1".to_string()),
        "100"
    );
    assert_eq!(
        add_string_num_to_string_num("1".to_string(), "99".to_string()),
        "100"
    );
    assert_eq!(
        add_string_num_to_string_num("99".to_string(), "99".to_string()),
        "198"
    );
    assert_eq!(
        add_string_num_to_string_num("999".to_string(), "1".to_string()),
        "1000"
    );
    assert_eq!(
        add_string_num_to_string_num("1".to_string(), "999".to_string()),
        "1000"
    );
    assert_eq!(
        add_string_num_to_string_num("999".to_string(), "999".to_string()),
        "1998"
    );
}

#[test]
fn test_multiply_256_to_string_num() {
    assert_eq!(multiply_256_to_string_num("1".to_string()), "256");
    assert_eq!(multiply_256_to_string_num("9".to_string()), "2304");
    assert_eq!(multiply_256_to_string_num("99".to_string()), "25344");
    assert_eq!(multiply_256_to_string_num("999".to_string()), "255744");
}

#[test]
fn test_divide_string_num_by_256() {
    assert_eq!(
        divide_string_num_by_256("0".to_string()),
        ("0".to_string(), 0)
    );
    assert_eq!(
        divide_string_num_by_256("1".to_string()),
        ("0".to_string(), 1)
    );
    assert_eq!(
        divide_string_num_by_256("9".to_string()),
        ("0".to_string(), 9)
    );
    assert_eq!(
        divide_string_num_by_256("99".to_string()),
        ("0".to_string(), 99)
    );
    assert_eq!(
        divide_string_num_by_256("999".to_string()),
        ("3".to_string(), 231)
    );
    assert_eq!(
        divide_string_num_by_256("6593511689".to_string()),
        ("25755905".to_string(), 9)
    );
}

#[test]
fn test_display() {
    let mut large_number = LargeNumber::new();
    large_number.set_digit(0, 1);
    assert_eq!(large_number.to_decimal_text(), "1");
    large_number.set_digit(0, 9);
    assert_eq!(large_number.to_decimal_text(), "9");
    large_number.set_digit(1, 1);
    assert_eq!(large_number.to_decimal_text(), "265");
    large_number.set_digit(2, 1);
    assert_eq!(large_number.to_decimal_text(), "65801");
    large_number.set_digit(3, 1);
    assert_eq!(large_number.to_decimal_text(), "16843017");
    large_number.set_digit(4, 1);
    assert_eq!(large_number.to_decimal_text(), "4311810313");
    large_number.set_digit(3, 137);
    assert_eq!(large_number.to_decimal_text(), "6593511689");

    let mut large_number = LargeNumber::new();
    large_number.set_digit(255, 1);
    assert_eq!(large_number.to_decimal_text(), "126238304966058622268417487065116999845484776053576109500509161826268184136202698801551568013761380717534054534851164138648904527931605160527688095259563605939964364716019515983399209962459578542172100149937763938581219604072733422507180056009672540900709554109516816573779593326332288314873251559077853068444977864803391962580800682760017849589281937637993445539366428356761821065267423102149447628375691862210717202025241630303118559188678304314076943801692528246980959705901641444238894928620825482303431806955690226308773426829503900930529395181208739591967195841536053143145775307050594328881077553168201547776");
    large_number.set_digit(0, 9);
    large_number.set_digit(1, 1);
    large_number.set_digit(2, 1);
    large_number.set_digit(4, 1);
    large_number.set_digit(3, 137);
    assert_eq!(large_number.to_decimal_text(), "126238304966058622268417487065116999845484776053576109500509161826268184136202698801551568013761380717534054534851164138648904527931605160527688095259563605939964364716019515983399209962459578542172100149937763938581219604072733422507180056009672540900709554109516816573779593326332288314873251559077853068444977864803391962580800682760017849589281937637993445539366428356761821065267423102149447628375691862210717202025241630303118559188678304314076943801692528246980959705901641444238894928620825482303431806955690226308773426829503900930529395181208739591967195841536053143145775307050594328881077553174795059465");
}

#[test]
fn test_from_native128_conversion() {
    let v = LargeNumber::from_native128(256);
    assert_eq!(v.to_decimal_text(), "256");
    assert_eq!(v.get_digit(0), 0);
    assert_eq!(v.get_digit(1), 1);
    assert_eq!(v.get_digit(2), 0);
    let w = LargeNumber::from_native128(u128::MAX);
    assert_eq!(
        w.to_decimal_text(),
        "340282366920938463463374607431768211455"
    );
    for i in 0..16 {
        assert_eq!(w.get_digit(i), 255);
    }
    assert_eq!(w.get_digit(16), 0);
}

#[test]
fn test_render_zero() {
    assert_eq!(LargeNumber::new().to_decimal_text(), "0");
    assert_eq!(LargeNumber::from_native128(0).to_decimal_text(), "0");
}

#[test]
fn test_multi_digit_rendering() {
    let mut v = LargeNumber::new();
    v.set_digit(0, 9);
    v.set_digit(1, 1);
    assert_eq!(v.to_decimal_text(), "265");
}

#[test]
fn test_from_decimal_text_round_trip() {
    for s in [
        "0",
        "1",
        "256",
        "65536",
        "123456789012345678901234567890",
        "340282366920938463463374607431768211456",
    ] {
        let v = LargeNumber::from_decimal_text(s).unwrap();
        assert_eq!(v.to_decimal_text(), s);
    }
}

#[test]
fn test_value_round_trip() {
    let mut v = LargeNumber::new();
    v.set_digit(0, 9);
    v.set_digit(1, 1);
    v.set_digit(100, 42);
    v.set_digit(255, 7);
    let text = v.to_decimal_text();
    let w = LargeNumber::from_decimal_text(&text).unwrap();
    assert!(w == v);
    for i in 0..256 {
        assert_eq!(w.get_digit(i), v.get_digit(i));
    }
}

#[test]
fn test_from_decimal_text_rejects_bad_input() {
    assert!(matches!(
        LargeNumber::from_decimal_text(""),
        Err(LargeNumberError::InvalidInput)
    ));
    assert!(matches!(
        LargeNumber::from_decimal_text("12a4"),
        Err(LargeNumberError::InvalidInput)
    ));
    assert!(matches!(
        LargeNumber::from_decimal_text("-5"),
        Err(LargeNumberError::InvalidInput)
    ));
    let too_big = "9".repeat(617);
    assert!(matches!(
        LargeNumber::from_decimal_text(&too_big),
        Err(LargeNumberError::InvalidInput)
    ));
    let with_leading_zeros = LargeNumber::from_decimal_text("007").unwrap();
    assert_eq!(with_leading_zeros.to_decimal_text(), "7");
}

#[test]
fn test_add_zero_identity_and_commutativity() {
    let a = LargeNumber::from_decimal_text("123456789012345678901234567890").unwrap();
    let b = LargeNumber::from_native128(987654321);
    let zero = LargeNumber::new();
    assert!(a.checked_add(&zero).unwrap() == a);
    let ab = a.checked_add(&b).unwrap();
    let ba = b.checked_add(&a).unwrap();
    assert!(ab == ba);
    assert_eq!(ab.to_decimal_text(), "123456789012345678902222222211");
}

#[test]
fn test_subtract_inverse() {
    let a = LargeNumber::from_decimal_text("99999999999999999999999999").unwrap();
    let b = LargeNumber::from_native128(123456789012345);
    let sum = a.checked_add(&b).unwrap();
    let diff = sum.checked_sub(&b).unwrap();
    assert!(diff == a);
}

#[test]
fn test_checked_add_overflow_boundary() {
    let mut a = LargeNumber::new();
    a.set_digit(255, 255);
    let mut b = LargeNumber::new();
    b.set_digit(255, 1);
    assert!(matches!(
        a.checked_add(&b),
        Err(LargeNumberError::Overflow)
    ));
    let small = LargeNumber::from_native128(1);
    assert!(a.checked_add(&small).is_ok());
}

#[test]
fn test_checked_sub_underflow_boundary() {
    let one = LargeNumber::from_native128(1);
    let two = LargeNumber::from_native128(2);
    assert!(matches!(
        one.checked_sub(&two),
        Err(LargeNumberError::Underflow)
    ));
    let diff = two.checked_sub(&one).unwrap();
    assert_eq!(diff.to_decimal_text(), "1");
}

#[test]
fn test_less_than_ordering() {
    let five = LargeNumber::from_native128(5);
    let seven = LargeNumber::from_native128(7);
    assert!(five.less_than(&seven));
    assert!(!seven.less_than(&five));
    assert!(!five.less_than(&five));
    let mut high = LargeNumber::new();
    high.set_digit(255, 1);
    let big_low = LargeNumber::from_native128(u128::MAX);
    assert!(big_low.less_than(&high));
    assert!(!high.less_than(&big_low));
}
