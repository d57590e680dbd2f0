use remuir::memory::{Memory, Register, RegisterNumber};

#[test]
fn inc_then_dec_restores_value() {
    for digits in [&[][..], &[5][..], &[u128::MAX][..], &[u128::MAX, u128::MAX, 4][..], &[0, 1][..]] {
        let mut r = Register::new(digits);
        r.inc();
        r.dec();
        assert_eq!(r, Register::new(digits));
    }
    let mut z = Register::new(&[0]);
    z.inc();
    z.dec();
    assert!(z.is_zero());
    assert_eq!(z, Register::new(&[]));
}

#[test]
fn dec_then_inc_restores_value() {
    for digits in [&[1][..], &[0, 1][..], &[u128::MAX][..], &[0, 0, 7][..]] {
        let mut r = Register::new(digits);
        r.dec();
        r.inc();
        assert_eq!(r, Register::new(digits));
    }
}

#[test]
fn dec_to_zero_drops_the_digit() {
    let mut r = Register::new(&[1]);
    r.dec();
    assert_eq!(r, Register::new(&[]));
    assert!(r.is_zero());
}

#[test]
fn zero_by_shape() {
    assert!(Register::new(&[]).is_zero());
    assert!(Register::new(&[0]).is_zero());
    assert!(!Register::new(&[1]).is_zero());
    assert!(!Register::new(&[0, 1]).is_zero());
    assert_eq!(Register::new(&[0, 1]).get_u128(), None);
    assert_eq!(Register::new(&[42]).get_u128(), Some(42));
    assert_eq!(Register::new(&[]).get_u128(), Some(0));
}

#[test]
fn read_makes_a_zero_register() {
    let mut probed = Memory::new_from_slice(&[Register::from(2)]);
    assert!(probed.is_zero(RegisterNumber::Natural(3)));
    let mut made = Memory::new_from_slice(&[Register::from(2)]);
    made.create_new_registers(RegisterNumber::Natural(4));
    assert_eq!(probed, made);
    probed.inc(RegisterNumber::Natural(3));
    made.inc(RegisterNumber::Natural(3));
    assert_eq!(probed, made);
    assert_eq!(probed.get_nat_registers_as_u128(), Some(vec![2, 0, 0, 1]));
    assert!(probed.is_zero(RegisterNumber::Negative(0)));
    assert_eq!(probed.get_register(RegisterNumber::Negative(0)), Some(0));
    assert_eq!(probed.get_register(RegisterNumber::Negative(5)), Some(0));
}

#[test]
fn inc_makes_registers_below() {
    let mut m = Memory::default();
    m.inc(RegisterNumber::Negative(2));
    assert_eq!(m.get_register(RegisterNumber::Negative(2)), Some(1));
    assert_eq!(m.get_register(RegisterNumber::Negative(1)), Some(0));
    assert_eq!(m.to_text(), "registers");
    m.inc(RegisterNumber::Natural(1));
    m.inc(RegisterNumber::Natural(1));
    m.dec(RegisterNumber::Natural(1));
    assert_eq!(m.to_text(), "registers 0 1");
}

#[test]
fn carry_into_a_second_digit() {
    let mut m = Memory::new_from_slice(&[Register::from(u128::MAX)]);
    assert_eq!(m.to_text(), "registers 340282366920938463463374607431768211455");
    m.inc(RegisterNumber::Natural(0));
    assert_eq!(m.get_nat_registers_as_u128(), None);
    assert_eq!(m.get_register(RegisterNumber::Natural(0)), None);
    assert!(!m.is_zero(RegisterNumber::Natural(0)));
    m.dec(RegisterNumber::Natural(0));
    assert_eq!(m.get_nat_registers_as_u128(), Some(vec![u128::MAX]));
}

#[test]
fn register_numbers_from_signed() {
    assert_eq!(RegisterNumber::from(-3isize), RegisterNumber::Negative(3));
    assert_eq!(RegisterNumber::from(4isize), RegisterNumber::Natural(4));
    assert_eq!(RegisterNumber::from(isize::MIN), RegisterNumber::Negative(isize::MIN.unsigned_abs()));
}

#[test]
fn large_values_show_in_decimal() {
    let mut m = Memory::new_from_slice(&[Register::from(u128::MAX), Register::new(&[5, 7])]);
    m.inc(RegisterNumber::Natural(0));
    assert_eq!(
        m.to_text(),
        "registers 340282366920938463463374607431768211456 2381976568446569244243622252022377480197"
    );
    assert_eq!(m.value_text(RegisterNumber::Natural(1)), "2381976568446569244243622252022377480197");
    assert_eq!(m.value_text(RegisterNumber::Negative(9)), "0");
}
