use vstd::prelude::*;
use vstd::arithmetic::div_mod::lemma_fundamental_div_mod_converse;

use crate::text::{decimal, push_decimal};

verus! {

/// The base of a register digit: `2^128`.
pub open spec fn digit_base() -> nat {
    0x1_0000_0000_0000_0000_0000_0000_0000_0000nat
}

/// The number written by little-endian digits of base `2^128`.
pub open spec fn digits_value(d: Seq<u128>) -> nat
    decreases d.len(),
{
    if d.len() == 0 {
        0
    } else {
        d[0] as nat + digit_base() * digits_value(d.drop_first())
    }
}

/// No most significant zero digit.
pub open spec fn is_strict(d: Seq<u128>) -> bool {
    d.len() == 0 || d.last() != 0
}

/// The shapes a register may have: no most significant zero digit, except that the
/// single digit zero is a second way of writing zero.
pub open spec fn is_canonical(d: Seq<u128>) -> bool {
    is_strict(d) || d == seq![0u128]
}

/// Zero is told by the shape of the digits alone.
pub open spec fn shows_zero(d: Seq<u128>) -> bool {
    d.len() == 0 || (d.len() == 1 && d[0] == 0)
}

/// The digits of `v`, with no most significant zero digit.
pub open spec fn digits_of(v: nat) -> Seq<u128>
    decreases v,
{
    if v == 0 {
        seq![]
    } else {
        seq![(v % digit_base()) as u128] + digits_of(v / digit_base())
    }
}

/// The digits of a register after an increment.
pub open spec fn incremented(d: Seq<u128>) -> Seq<u128> {
    digits_of(digits_value(d) + 1)
}

/// The digits of a register after a decrement.
pub open spec fn decremented(d: Seq<u128>) -> Seq<u128> {
    digits_of((digits_value(d) - 1) as nat)
}

/// The value of no digits and of one digit.
pub proof fn lemma_value_small(d: Seq<u128>)
    ensures
        d.len() == 0 ==> digits_value(d) == 0,
        d.len() == 1 ==> digits_value(d) == d[0],
{
    reveal_with_fuel(digits_value, 2);
    if d.len() == 1 {
        assert(d.drop_first().len() == 0);
    }
}

proof fn lemma_strict_positive(d: Seq<u128>)
    requires
        d.len() > 0,
        d.last() != 0,
    ensures
        digits_value(d) > 0,
    decreases d.len(),
{
    lemma_value_small(d);
    if d.len() > 1 {
        let t = d.drop_first();
        assert(t.last() == d.last());
        lemma_strict_positive(t);
        assert(digit_base() * digits_value(t) > 0) by (nonlinear_arith)
            requires
                digits_value(t) > 0,
                digit_base() > 0,
        ;
    }
}

/// Strict digits are the digits of their value: a number has one strict spelling.
pub proof fn lemma_strict_unique(d: Seq<u128>)
    requires
        is_strict(d),
    ensures
        d == digits_of(digits_value(d)),
    decreases d.len(),
{
    if d.len() > 0 {
        let t = d.drop_first();
        let v = digits_value(d);
        lemma_strict_positive(d);
        assert(is_strict(t));
        lemma_strict_unique(t);
        lemma_fundamental_div_mod_converse(
            v as int,
            digit_base() as int,
            digits_value(t) as int,
            d[0] as int,
        );
        assert(d =~= seq![(v % digit_base()) as u128] + digits_of(v / digit_base()));
    }
}

/// The digits of a value are strict.
pub proof fn lemma_digits_of_strict(v: nat)
    ensures
        is_strict(digits_of(v)),
        digits_value(digits_of(v)) == v,
    decreases v,
{
    if v > 0 {
        let b = digit_base();
        assert(v / b < v) by (nonlinear_arith)
            requires
                v > 0,
                b > 1,
        ;
        lemma_digits_of_strict(v / b);
        let t = digits_of(v / b);
        let d = digits_of(v);
        assert(d.drop_first() =~= t);
        lemma_fundamental_div_mod_converse(v as int, b as int, (v / b) as int, (v % b) as int);
        assert(v == b * (v / b) + v % b) by (nonlinear_arith)
            requires
                b > 0,
        ;
        if t.len() == 0 {
            assert(v / b == 0);
            assert(v % b == v);
        }
    }
}

/// A zero shape and a zero value are the same thing on canonical digits.
pub proof fn lemma_zero_shape(d: Seq<u128>)
    requires
        is_canonical(d),
    ensures
        shows_zero(d) <==> digits_value(d) == 0,
{
    if d.len() > 0 && d.last() != 0 {
        lemma_strict_positive(d);
    }
    lemma_value_small(d);
}

/// Carry: digits `a` with maximal digits below `i` and `b` with zeros there, one more at `i`.
proof fn lemma_carry(a: Seq<u128>, b: Seq<u128>, i: int)
    requires
        a.len() == b.len(),
        0 <= i < a.len(),
        forall|j: int| 0 <= j < i ==> a[j] == u128::MAX && b[j] == 0,
        b[i] == a[i] + 1,
        forall|j: int| i < j < a.len() ==> b[j] == a[j],
    ensures
        digits_value(b) == digits_value(a) + 1,
    decreases i,
{
    if i == 0 {
        assert(b.drop_first() =~= a.drop_first());
    } else {
        lemma_carry(a.drop_first(), b.drop_first(), i - 1);
    }
}

/// Carry through every digit: a new most significant digit one.
proof fn lemma_carry_out(a: Seq<u128>, b: Seq<u128>)
    requires
        b.len() == a.len() + 1,
        forall|j: int| 0 <= j < a.len() ==> a[j] == u128::MAX && b[j] == 0,
        b[a.len() as int] == 1,
    ensures
        digits_value(b) == digits_value(a) + 1,
    decreases a.len(),
{
    if a.len() == 0 {
        lemma_value_small(a);
        lemma_value_small(b);
    } else {
        lemma_carry_out(a.drop_first(), b.drop_first());
    }
}

/// Borrow: digits `a` with zeros below `i` and `b` with maximal digits there, one less at `i`.
proof fn lemma_borrow(a: Seq<u128>, b: Seq<u128>, i: int)
    requires
        a.len() == b.len(),
        0 <= i < a.len(),
        forall|j: int| 0 <= j < i ==> a[j] == 0 && b[j] == u128::MAX,
        a[i] > 0,
        b[i] == a[i] - 1,
        forall|j: int| i < j < a.len() ==> b[j] == a[j],
    ensures
        digits_value(b) + 1 == digits_value(a),
    decreases i,
{
    if i == 0 {
        assert(b.drop_first() =~= a.drop_first());
    } else {
        lemma_borrow(a.drop_first(), b.drop_first(), i - 1);
    }
}

/// A most significant zero digit adds nothing.
proof fn lemma_drop_top_zero(b: Seq<u128>)
    requires
        b.len() > 0,
        b.last() == 0,
    ensures
        digits_value(b.drop_last()) == digits_value(b),
    decreases b.len(),
{
    if b.len() > 1 {
        let t = b.drop_first();
        assert(t.last() == b.last());
        lemma_drop_top_zero(t);
        assert(b.drop_last().drop_first() =~= t.drop_last());
    } else {
        lemma_value_small(b);
        lemma_value_small(b.drop_last());
    }
}

/// Incrementing and then decrementing a register gives its value back, and its very
/// digits unless they were the single digit zero (which comes back as no digits, the
/// other spelling of zero). Decrementing and then incrementing a nonzero register gives
/// its digits back.
pub proof fn lemma_inc_dec_inverse(d: Seq<u128>)
    requires
        is_canonical(d),
    ensures
        digits_value(decremented(incremented(d))) == digits_value(d),
        d != seq![0u128] ==> decremented(incremented(d)) == d,
        digits_value(d) > 0 ==> incremented(decremented(d)) == d,
{
    let v = digits_value(d);
    lemma_value_small(d);
    lemma_digits_of_strict(v + 1);
    lemma_digits_of_strict(v);
    if d != seq![0u128] {
        lemma_strict_unique(d);
    }
    if v > 0 {
        lemma_digits_of_strict((v - 1) as nat);
        lemma_strict_unique(d);
    }
}

/// The value of the digits from index `i` on.
proof fn lemma_suffix_value(d: Seq<u128>, i: int)
    requires
        0 <= i < d.len(),
    ensures
        digits_value(d.subrange(i, d.len() as int)) == d[i] as nat + digit_base() * digits_value(
            d.subrange(i + 1, d.len() as int),
        ),
{
    assert(d.subrange(i, d.len() as int).drop_first() =~= d.subrange(i + 1, d.len() as int));
}

/// One step of a long division by ten: `rem * 2^128 + x` is ten times the quotient digit
/// plus the new remainder.
fn div_digit(rem: u8, x: u128) -> (r: (u128, u8))
    requires
        rem < 10,
    ensures
        r.1 < 10,
        10 * (r.0 as nat) + r.1 as nat == rem as nat * digit_base() + x as nat,
{
    let half: u128 = 0x1_0000_0000_0000_0000;
    let hi = x / half;
    let lo = x % half;
    let t1 = (rem as u128) * half + hi;
    let q_hi = t1 / 10;
    let r1 = t1 % 10;
    let t2 = r1 * half + lo;
    let q_lo = t2 / 10;
    let r2 = t2 % 10;
    proof {
        assert(x as int == half as int * hi as int + lo as int) by (nonlinear_arith)
            requires
                hi == x / half,
                lo == x % half,
                half > 0,
        ;
        assert(t1 as int == 10 * q_hi as int + r1 as int) by (nonlinear_arith)
            requires
                q_hi == t1 / 10,
                r1 == t1 % 10,
        ;
        assert(t2 as int == 10 * q_lo as int + r2 as int) by (nonlinear_arith)
            requires
                q_lo == t2 / 10,
                r2 == t2 % 10,
        ;
        assert(q_hi < half) by (nonlinear_arith)
            requires
                q_hi == t1 / 10,
                t1 < 10 * half,
        ;
        assert((q_hi * half + q_lo) as int * 10 + r2 as int == rem as int * digit_base() + x as int)
            by (nonlinear_arith)
            requires
                x as int == half as int * hi as int + lo as int,
                t1 as int == rem as int * half as int + hi as int,
                t1 as int == 10 * q_hi as int + r1 as int,
                t2 as int == r1 as int * half as int + lo as int,
                t2 as int == 10 * q_lo as int + r2 as int,
                digit_base() == half as int * half as int,
        ;
    }
    (q_hi * half + q_lo, r2 as u8)
}

/// The digits divided by ten: the quotient, with no most significant zero digit, and the
/// remainder.
fn div_ten(d: &Vec<u128>) -> (r: (Vec<u128>, u8))
    ensures
        r.1 < 10,
        is_strict(r.0@),
        10 * digits_value(r.0@) + r.1 as nat == digits_value(d@),
{
    let n = d.len();
    let mut q: Vec<u128> = Vec::new();
    let mut k: usize = 0;
    while k < n
        invariant
            k <= n == d@.len(),
            q@.len() == k,
        decreases n - k,
    {
        q.push(0);
        k = k + 1;
    }
    let mut rem: u8 = 0;
    let mut i: usize = n;
    proof {
        lemma_value_small(d@.subrange(n as int, n as int));
        lemma_value_small(q@.subrange(n as int, n as int));
    }
    while i > 0
        invariant
            i <= n == d@.len(),
            q@.len() == n,
            rem < 10,
            digits_value(d@.subrange(i as int, n as int)) == 10 * digits_value(
                q@.subrange(i as int, n as int),
            ) + rem as nat,
        decreases i,
    {
        i = i - 1;
        let (qd, r) = div_digit(rem, d[i]);
        let ghost before = q@;
        q.set(i, qd);
        proof {
            lemma_suffix_value(d@, i as int);
            lemma_suffix_value(q@, i as int);
            assert(q@.subrange(i + 1, n as int) =~= before.subrange(i + 1, n as int));
            let vd = digits_value(d@.subrange(i + 1, n as int));
            let vq = digits_value(q@.subrange(i + 1, n as int));
            assert(digit_base() * vd == 10 * (digit_base() * vq) + digit_base() * rem as nat) by (nonlinear_arith)
                requires
                    vd == 10 * vq + rem as nat,
            ;
        }
        rem = r;
    }
    proof {
        assert(d@.subrange(0, n as int) =~= d@);
        assert(q@.subrange(0, n as int) =~= q@);
    }
    while q.len() > 0 && q[q.len() - 1] == 0
        invariant
            10 * digits_value(q@) + rem as nat == digits_value(d@),
        decreases q@.len(),
    {
        let ghost before = q@;
        q.pop();
        proof {
            lemma_drop_top_zero(before);
            assert(q@ =~= before.drop_last());
        }
    }
    (q, rem)
}

/// Strict digits of two or more hold at least the base.
proof fn lemma_strict_large(d: Seq<u128>)
    requires
        is_strict(d),
        d.len() >= 2,
    ensures
        digits_value(d) >= digit_base(),
{
    let t = d.drop_first();
    assert(t.last() == d.last());
    lemma_strict_positive(t);
    assert(digit_base() * digits_value(t) >= digit_base()) by (nonlinear_arith)
        requires
            digits_value(t) >= 1,
    ;
}

/// Appends the decimal notation of the value of the digits `d` to `s`.
fn push_digits_decimal(s: &mut String, d: &Vec<u128>)
    requires
        is_canonical(d@),
    ensures
        final(s)@ == old(s)@ + decimal(digits_value(d@)),
    decreases digits_value(d@),
{
    proof {
        lemma_value_small(d@);
    }
    if d.len() == 0 {
        push_decimal(s, 0);
        return;
    }
    if d.len() == 1 && d[0] < 10 {
        push_decimal(s, d[0]);
        return;
    }
    proof {
        if d.len() >= 2 {
            lemma_strict_large(d@);
        }
    }
    let (q, r) = div_ten(d);
    proof {
        let v = digits_value(d@);
        assert(v >= 10);
        assert(digits_value(q@) == v / 10 && r as nat == v % 10) by (nonlinear_arith)
            requires
                10 * digits_value(q@) + r as nat == v,
                r < 10,
        ;
    }
    push_digits_decimal(s, &q);
    push_decimal(s, r as u128);
    proof {
        let v = digits_value(d@);
        assert(decimal(v) == decimal(v / 10).push(crate::text::digit_char(v % 10)));
        assert(decimal((v % 10) as nat) == seq![crate::text::digit_char(v % 10)]);
    }
}

/// A counter: a natural number of any size, held as little-endian digits of base
/// `2^128` with no most significant zero digit (the single digit zero aside).
#[derive(Debug, PartialEq)]
pub struct Register {
    digits: Vec<u128>,
}

impl View for Register {
    type V = Seq<u128>;

    closed spec fn view(&self) -> Seq<u128> {
        self.digits@
    }
}

impl Clone for Register {
    fn clone(&self) -> (r: Self)
        ensures
            r@ == self@,
    {
        Register { digits: self.digits.clone() }
    }
}

impl Register {
    pub open spec fn wf(&self) -> bool {
        is_canonical(self@)
    }

    /// The value held.
    pub open spec fn value(&self) -> nat {
        digits_value(self@)
    }

    /// A register from little-endian digits of base `2^128`: `2^128 + 73` is `[73, 1]`.
    pub fn new(registers: &[u128]) -> (r: Register)
        requires
            is_canonical(registers@),
        ensures
            r@ == registers@,
            r.wf(),
    {
        let mut digits: Vec<u128> = Vec::new();
        let mut i: usize = 0;
        while i < registers.len()
            invariant
                i <= registers@.len(),
                digits@ == registers@.subrange(0, i as int),
            decreases registers@.len() - i,
        {
            digits.push(registers[i]);
            i = i + 1;
        }
        assert(digits@ =~= registers@);
        Register { digits }
    }

    /// A register holding `value`, as one digit.
    pub fn new_from_u128(value: u128) -> (r: Register)
        ensures
            r@ == seq![value],
            r.wf(),
            r.value() == value,
    {
        let mut digits: Vec<u128> = Vec::new();
        digits.push(value);
        let r = Register { digits };
        proof {
            lemma_value_small(r@);
        }
        r
    }

    /// Increments the register by one.
    pub fn inc(&mut self)
        requires
            old(self).wf(),
        ensures
            final(self)@ == incremented(old(self)@),
            final(self).wf(),
            final(self).value() == old(self).value() + 1,
    {
        let ghost a = self.digits@;
        let mut i: usize = 0;
        while i < self.digits.len() && self.digits[i] == u128::MAX
            invariant
                i <= a.len(),
                self.digits@.len() == a.len(),
                forall|j: int| 0 <= j < i ==> a[j] == u128::MAX && self.digits@[j] == 0,
                forall|j: int| i <= j < a.len() ==> self.digits@[j] == a[j],
            decreases a.len() - i,
        {
            self.digits.set(i, 0);
            i = i + 1;
        }
        let ghost z = self.digits@;
        if i < self.digits.len() {
            let d = self.digits[i];
            self.digits.set(i, d + 1);
            proof {
                assert(self.digits@ == z.update(i as int, (d + 1) as u128));
                assert forall|j: int| 0 <= j < i implies a[j] == u128::MAX && self.digits@[j] == 0 by {
                    assert(a[j] == u128::MAX);
                    assert(z[j] == 0);
                }
                lemma_carry(a, self.digits@, i as int);
            }
        } else {
            self.digits.push(1);
            proof {
                assert(self.digits@ == z.push(1));
                assert forall|j: int| 0 <= j < a.len() implies a[j] == u128::MAX && self.digits@[j] == 0 by {
                    assert(a[j] == u128::MAX);
                    assert(z[j] == 0);
                }
                lemma_carry_out(a, self.digits@);
            }
        }
        proof {
            lemma_strict_unique(self.digits@);
        }
    }

    /// Decrements the register by one; it must not be zero.
    pub fn dec(&mut self)
        requires
            old(self).wf(),
            old(self).value() > 0,
        ensures
            final(self)@ == decremented(old(self)@),
            final(self).wf(),
            final(self).value() + 1 == old(self).value(),
    {
        let ghost a = self.digits@;
        proof {
            lemma_value_small(a);
        }
        let mut i: usize = 0;
        while self.digits[i] == 0
            invariant
                i < a.len(),
                a.len() == self.digits.len(),
                a.last() != 0,
                self.digits@.len() == a.len(),
                forall|j: int| 0 <= j < i ==> a[j] == 0 && self.digits@[j] == u128::MAX,
                forall|j: int| i <= j < a.len() ==> self.digits@[j] == a[j],
            decreases a.len() - i,
        {
            proof {
                assert(a[i as int] == 0);
                if i + 1 == a.len() {
                    assert(a.last() == a[i as int]);
                }
            }
            self.digits.set(i, u128::MAX);
            i = i + 1;
        }
        let ghost z = self.digits@;
        let d = self.digits[i];
        self.digits.set(i, d - 1);
        proof {
            assert(self.digits@ == z.update(i as int, (d - 1) as u128));
            assert forall|j: int| 0 <= j < i implies a[j] == 0 && self.digits@[j] == u128::MAX by {
                assert(a[j] == 0);
                assert(z[j] == u128::MAX);
            }
            lemma_borrow(a, self.digits@, i as int);
        }
        let n = self.digits.len();
        if self.digits[n - 1] == 0 {
            let ghost b = self.digits@;
            proof {
                if i + 1 < n {
                    assert(b[n - 1] == a[n - 1]);
                }
                assert(i + 1 == n);
                if n >= 2 {
                    assert(a[n - 2] == 0);
                    assert(b[n - 2] == u128::MAX);
                }
            }
            self.digits.pop();
            proof {
                lemma_drop_top_zero(b);
                assert(self.digits@ =~= b.drop_last());
            }
        }
        proof {
            lemma_strict_unique(self.digits@);
        }
    }

    /// Whether the register holds zero, told by its shape alone.
    pub fn is_zero(&self) -> (r: bool)
        requires
            self.wf(),
        ensures
            r == shows_zero(self@),
            r == (self.value() == 0),
    {
        proof {
            lemma_zero_shape(self@);
        }
        self.digits.len() == 0 || (self.digits.len() == 1 && self.digits[0] == 0)
    }

    /// The value as one `u128`, where it has at most one digit.
    pub fn get_u128(&self) -> (r: Option<u128>)
        ensures
            self@.len() <= 1 ==> r == Some(digits_value(self@) as u128),
            self@.len() > 1 ==> r is None,
            r matches Some(x) ==> x == digits_value(self@),
    {
        proof {
            lemma_value_small(self@);
        }
        if self.digits.len() == 0 {
            Some(0)
        } else if self.digits.len() == 1 {
            proof {
                lemma_value_small(self@);
            }
            Some(self.digits[0])
        } else {
            None
        }
    }
}

impl From<u128> for Register {
    fn from(value: u128) -> (r: Register)
        ensures
            r@ == seq![value],
    {
        Register::new_from_u128(value)
    }
}

/// No spec value of a register is built from a number: what `from` gives is stated on it.
impl vstd::std_specs::convert::FromSpecImpl<u128> for Register {
    open spec fn obeys_from_spec() -> bool {
        false
    }

    open spec fn from_spec(v: u128) -> Register {
        arbitrary()
    }
}

/// A register's address: the natural namespace (`rN`) or the negative-named one (`r-N`),
/// each indexed from zero.
#[derive(Debug, PartialEq, Eq, Clone, Copy)]
pub enum RegisterNumber {
    Negative(usize),
    Natural(usize),
}

impl RegisterNumber {
    /// The index within the namespace.
    pub open spec fn index(self) -> nat {
        match self {
            RegisterNumber::Negative(n) => n as nat,
            RegisterNumber::Natural(n) => n as nat,
        }
    }
}

/// How a register is written: `rN`, or `r-N` in the negative namespace.
pub open spec fn register_text(rn: RegisterNumber) -> Seq<char> {
    match rn {
        RegisterNumber::Natural(n) => seq!['r'] + decimal(n as nat),
        RegisterNumber::Negative(n) => seq!['r', '-'] + decimal(n as nat),
    }
}

impl RegisterNumber {
    /// How the register is written: `rN`, or `r-N` in the negative namespace.
    pub fn to_text(&self) -> (r: String)
        ensures
            r@ == register_text(*self),
    {
        let mut out = String::new();
        match self {
            RegisterNumber::Natural(n) => {
                proof {
                    reveal_strlit("r");
                }
                out.append("r");
                push_decimal(&mut out, *n as u128);
            },
            RegisterNumber::Negative(n) => {
                proof {
                    reveal_strlit("r-");
                }
                out.append("r-");
                push_decimal(&mut out, *n as u128);
            },
        }
        out
    }
}

impl From<isize> for RegisterNumber {
    /// A negative number names the negative namespace at its absolute value.
    fn from(value: isize) -> (r: RegisterNumber)
        ensures
            value < 0 ==> r == RegisterNumber::Negative((-(value as int)) as usize),
            value >= 0 ==> r == RegisterNumber::Natural(value as usize),
    {
        if value < 0 {
            let m: usize = if value == isize::MIN {
                (isize::MAX as usize) + 1
            } else {
                (-value) as usize
            };
            RegisterNumber::Negative(m)
        } else {
            RegisterNumber::Natural(value as usize)
        }
    }
}

impl vstd::std_specs::convert::FromSpecImpl<isize> for RegisterNumber {
    open spec fn obeys_from_spec() -> bool {
        true
    }

    open spec fn from_spec(v: isize) -> RegisterNumber {
        if v < 0 {
            RegisterNumber::Negative((-(v as int)) as usize)
        } else {
            RegisterNumber::Natural(v as usize)
        }
    }
}

/// The digits of each register of a namespace.
pub open spec fn bank_view(b: Seq<Register>) -> Seq<Seq<u128>> {
    b.map_values(|r: Register| r@)
}

/// Every register of a namespace is canonical.
pub open spec fn bank_wf(b: Seq<Seq<u128>>) -> bool {
    forall|i: int| 0 <= i < b.len() ==> is_canonical(#[trigger] b[i])
}

/// A namespace grown with zero registers (one zero digit each) to at least `n` registers.
pub open spec fn zero_filled(b: Seq<Seq<u128>>, n: nat) -> Seq<Seq<u128>> {
    if b.len() >= n {
        b
    } else {
        b + Seq::new((n - b.len()) as nat, |i: int| seq![0u128])
    }
}

/// A namespace after register `n` is incremented.
pub open spec fn bank_after_inc(b: Seq<Seq<u128>>, n: nat) -> Seq<Seq<u128>> {
    if n < b.len() {
        b.update(n as int, incremented(b[n as int]))
    } else {
        zero_filled(b, n).push(seq![1u128])
    }
}

/// A namespace after register `n` is decremented.
pub open spec fn bank_after_dec(b: Seq<Seq<u128>>, n: nat) -> Seq<Seq<u128>> {
    b.update(n as int, decremented(b[n as int]))
}

/// A namespace after register `n` is read: a register not there yet is made, with the
/// ones below it.
pub open spec fn bank_after_read(b: Seq<Seq<u128>>, n: nat) -> Seq<Seq<u128>> {
    zero_filled(b, n + 1)
}

/// What a read of register `n` answers: whether it holds zero.
pub open spec fn bank_reads_zero(b: Seq<Seq<u128>>, n: nat) -> bool {
    n >= b.len() || digits_value(b[n as int]) == 0
}

/// The registers of both namespaces.
#[verifier::ext_equal]
pub struct MemoryModel {
    pub natural: Seq<Seq<u128>>,
    pub negative: Seq<Seq<u128>>,
}

impl MemoryModel {
    pub open spec fn wf(self) -> bool {
        bank_wf(self.natural) && bank_wf(self.negative)
    }

    /// The namespace that `rn` addresses.
    pub open spec fn bank(self, rn: RegisterNumber) -> Seq<Seq<u128>> {
        match rn {
            RegisterNumber::Natural(_) => self.natural,
            RegisterNumber::Negative(_) => self.negative,
        }
    }

    /// The same registers, with the namespace that `rn` addresses replaced by `b`.
    pub open spec fn with_bank(self, rn: RegisterNumber, b: Seq<Seq<u128>>) -> MemoryModel {
        match rn {
            RegisterNumber::Natural(_) => MemoryModel { natural: b, negative: self.negative },
            RegisterNumber::Negative(_) => MemoryModel { natural: self.natural, negative: b },
        }
    }

    /// The value of register `rn`; a register not made yet holds zero.
    pub open spec fn value_of(self, rn: RegisterNumber) -> nat {
        if rn.index() < self.bank(rn).len() {
            digits_value(self.bank(rn)[rn.index() as int])
        } else {
            0
        }
    }

    /// After an increment of `rn`.
    pub open spec fn after_inc(self, rn: RegisterNumber) -> MemoryModel {
        self.with_bank(rn, bank_after_inc(self.bank(rn), rn.index()))
    }

    /// After a decrement of `rn`.
    pub open spec fn after_dec(self, rn: RegisterNumber) -> MemoryModel {
        self.with_bank(rn, bank_after_dec(self.bank(rn), rn.index()))
    }

    /// After a read of `rn`.
    pub open spec fn after_read(self, rn: RegisterNumber) -> MemoryModel {
        self.with_bank(rn, bank_after_read(self.bank(rn), rn.index()))
    }

    /// What a read of `rn` answers.
    pub open spec fn reads_zero(self, rn: RegisterNumber) -> bool {
        bank_reads_zero(self.bank(rn), rn.index())
    }

    /// Every natural register has at most one digit.
    pub open spec fn natural_fits(self) -> bool {
        forall|i: int| 0 <= i < self.natural.len() ==> (#[trigger] self.natural[i]).len() <= 1
    }
}

/// A read answers whether the register holds zero and keeps every value; a decrement of a
/// register that is there and holds more than zero takes one from its value.
pub proof fn lemma_read_dec_values(m: MemoryModel, rn: RegisterNumber)
    requires
        m.wf(),
    ensures
        m.reads_zero(rn) == (m.value_of(rn) == 0),
        m.after_read(rn).value_of(rn) == m.value_of(rn),
        m.after_read(rn).wf(),
        !m.reads_zero(rn) ==> m.after_read(rn) == m,
        !m.reads_zero(rn) ==> m.after_dec(rn).value_of(rn) + 1 == m.value_of(rn),
        !m.reads_zero(rn) ==> m.after_dec(rn).wf(),
{
    let b = m.bank(rn);
    let i = rn.index();
    if i < b.len() {
        assert(zero_filled(b, i + 1) == b);
        match rn {
            RegisterNumber::Natural(_) => assert(m.with_bank(rn, b) =~= m),
            RegisterNumber::Negative(_) => assert(m.with_bank(rn, b) =~= m),
        }
        if !m.reads_zero(rn) {
            assert(is_canonical(b[i as int]));
            lemma_digits_of_strict((digits_value(b[i as int]) - 1) as nat);
            let nb = bank_after_dec(b, i);
            assert forall|k: int| 0 <= k < nb.len() implies is_canonical(#[trigger] nb[k]) by {
                if k != i {
                    assert(nb[k] == b[k]);
                }
            }
        }
    } else {
        lemma_read_makes_zero(m, rn);
    }
}

/// Reading a register that was never made answers zero, and leaves the registers just
/// as if it had been made explicitly as a zero register (with the ones below it): every
/// later operation then behaves alike.
pub proof fn lemma_read_makes_zero(m: MemoryModel, rn: RegisterNumber)
    requires
        m.wf(),
        rn.index() >= m.bank(rn).len(),
    ensures
        m.reads_zero(rn),
        m.after_read(rn) == m.with_bank(
            rn,
            zero_filled(m.bank(rn), rn.index()).push(seq![0u128]),
        ),
        m.after_read(rn).bank(rn)[rn.index() as int] == seq![0u128],
        m.after_read(rn).value_of(rn) == 0,
        m.after_read(rn).wf(),
        m.after_read(rn).reads_zero(rn),
        m.after_read(rn).after_read(rn) == m.after_read(rn),
{
    let b = m.bank(rn);
    let n = rn.index();
    assert(zero_filled(b, n + 1) =~= zero_filled(b, n).push(seq![0u128]));
    lemma_value_small(seq![0u128]);
    let m2 = m.after_read(rn);
    assert(bank_wf(zero_filled(b, n + 1))) by {
        assert forall|i: int| 0 <= i < zero_filled(b, n + 1).len() implies is_canonical(
            #[trigger] zero_filled(b, n + 1)[i],
        ) by {
            if i < b.len() {
                assert(is_canonical(b[i]));
            }
        }
    }
    match rn {
        RegisterNumber::Natural(_) => {
            assert(m2 =~= MemoryModel { natural: zero_filled(b, n + 1), negative: m.negative });
        },
        RegisterNumber::Negative(_) => {
            assert(m2 =~= MemoryModel { natural: m.natural, negative: zero_filled(b, n + 1) });
        },
    }
}

/// The word that starts the registers line.
pub open spec fn registers_word() -> Seq<char> {
    seq!['r', 'e', 'g', 'i', 's', 't', 'e', 'r', 's']
}

/// Each value after a space, in decimal.
pub open spec fn values_text(vals: Seq<nat>) -> Seq<char>
    decreases vals.len(),
{
    if vals.len() == 0 {
        seq![]
    } else {
        values_text(vals.drop_last()) + seq![' '] + decimal(vals.last())
    }
}

/// The values of the registers of a namespace.
pub open spec fn bank_values(b: Seq<Seq<u128>>) -> Seq<nat> {
    b.map_values(|d: Seq<u128>| digits_value(d))
}

/// The line that shows the natural registers: `registers 5 0 0`.
pub open spec fn registers_line(m: MemoryModel) -> Seq<char> {
    registers_word() + values_text(bank_values(m.natural))
}

/// Grows `bank` with zero registers to at least `n` registers.
fn bank_fill(bank: &mut Vec<Register>, n: usize)
    ensures
        bank_view(final(bank)@) == zero_filled(bank_view(old(bank)@), n as nat),
{
    let ghost b0 = bank_view(bank@);
    while bank.len() < n
        invariant
            bank_view(bank@) == zero_filled(b0, bank@.len() as nat),
            b0.len() <= bank@.len(),
            b0.len() < n ==> bank@.len() <= n,
            b0.len() >= n ==> bank@.len() == b0.len(),
        decreases n - bank@.len(),
    {
        let ghost before = bank@;
        bank.push(Register::new_from_u128(0));
        proof {
            assert(bank_view(bank@) =~= bank_view(before).push(seq![0u128]));
            assert(zero_filled(b0, bank@.len() as nat) =~= zero_filled(b0, before.len() as nat).push(
                seq![0u128],
            ));
        }
    }
}

proof fn lemma_zero_filled_wf(b: Seq<Seq<u128>>, n: nat)
    requires
        bank_wf(b),
    ensures
        bank_wf(zero_filled(b, n)),
        zero_filled(b, n).len() >= n,
        zero_filled(b, n).len() >= b.len(),
        forall|i: int| 0 <= i < b.len() ==> zero_filled(b, n)[i] == b[i],
        forall|i: int|
            b.len() <= i < zero_filled(b, n).len() ==> zero_filled(b, n)[i] == seq![0u128],
{
    let z = zero_filled(b, n);
    assert forall|i: int| 0 <= i < z.len() implies is_canonical(#[trigger] z[i]) by {
        if i < b.len() {
            assert(is_canonical(b[i]));
        }
    }
}

proof fn lemma_update_view(b: Seq<Register>, i: int, r: Register)
    requires
        0 <= i < b.len(),
    ensures
        bank_view(b.update(i, r)) == bank_view(b).update(i, r@),
{
    assert(bank_view(b.update(i, r)) =~= bank_view(b).update(i, r@));
}

/// Increments register `n` of `bank`, making it (and the ones below it) first if needed.
fn bank_inc(bank: &mut Vec<Register>, n: usize)
    requires
        bank_wf(bank_view(old(bank)@)),
    ensures
        bank_view(final(bank)@) == bank_after_inc(bank_view(old(bank)@), n as nat),
        bank_wf(bank_view(final(bank)@)),
{
    let ghost b0 = bank_view(bank@);
    if bank.len() <= n {
        bank_fill(bank, n);
        let ghost b1 = bank@;
        bank.push(Register::new_from_u128(1));
        proof {
            lemma_zero_filled_wf(b0, n as nat);
            assert(bank_view(bank@) =~= bank_view(b1).push(seq![1u128]));
            lemma_value_small(seq![1u128]);
            let v = bank_view(bank@);
            assert forall|i: int| 0 <= i < v.len() implies is_canonical(#[trigger] v[i]) by {
                if i < v.len() - 1 {
                    assert(v[i] == zero_filled(b0, n as nat)[i]);
                }
            }
        }
    } else {
        let mut r = bank[n].clone();
        proof {
            assert(bank_view(bank@)[n as int] == bank@[n as int]@);
            assert(is_canonical(b0[n as int]));
        }
        r.inc();
        let ghost b1 = bank@;
        bank.set(n, r);
        proof {
            lemma_update_view(b1, n as int, r);
            let v = bank_view(bank@);
            assert forall|i: int| 0 <= i < v.len() implies is_canonical(#[trigger] v[i]) by {
                if i != n {
                    assert(v[i] == b0[i]);
                }
            }
        }
    }
}

/// Decrements register `n` of `bank`, which must be there and hold more than zero.
fn bank_dec(bank: &mut Vec<Register>, n: usize)
    requires
        bank_wf(bank_view(old(bank)@)),
        n < old(bank)@.len(),
        digits_value(bank_view(old(bank)@)[n as int]) > 0,
    ensures
        bank_view(final(bank)@) == bank_after_dec(bank_view(old(bank)@), n as nat),
        bank_wf(bank_view(final(bank)@)),
{
    let ghost b0 = bank_view(bank@);
    let mut r = bank[n].clone();
    proof {
        assert(b0[n as int] == bank@[n as int]@);
        assert(is_canonical(b0[n as int]));
    }
    r.dec();
    let ghost b1 = bank@;
    bank.set(n, r);
    proof {
        lemma_update_view(b1, n as int, r);
        let v = bank_view(bank@);
        assert forall|i: int| 0 <= i < v.len() implies is_canonical(#[trigger] v[i]) by {
            if i != n {
                assert(v[i] == b0[i]);
            }
        }
    }
}

/// Reads whether register `n` of `bank` holds zero, making it (and the ones below it)
/// first if needed.
fn bank_read(bank: &mut Vec<Register>, n: usize) -> (r: bool)
    requires
        bank_wf(bank_view(old(bank)@)),
    ensures
        r == bank_reads_zero(bank_view(old(bank)@), n as nat),
        bank_view(final(bank)@) == bank_after_read(bank_view(old(bank)@), n as nat),
        bank_wf(bank_view(final(bank)@)),
{
    let ghost b0 = bank_view(bank@);
    if n < bank.len() {
        proof {
            assert(b0[n as int] == bank@[n as int]@);
            assert(is_canonical(b0[n as int]));
            lemma_zero_shape(b0[n as int]);
            assert(zero_filled(b0, (n + 1) as nat) == b0);
        }
        if bank[n].digits.len() <= 1 {
            bank[n].is_zero()
        } else {
            false
        }
    } else {
        bank_fill(bank, n);
        let ghost b1 = bank@;
        bank.push(Register::new_from_u128(0));
        proof {
            assert(bank_view(bank@) =~= bank_view(b1).push(seq![0u128]));
            assert(zero_filled(b0, (n + 1) as nat) =~= zero_filled(b0, n as nat).push(seq![0u128]));
            lemma_zero_filled_wf(b0, (n + 1) as nat);
        }
        true
    }
}

/// The registers of a machine: two namespaces of counters, each growing on demand.
#[derive(Debug, PartialEq)]
pub struct Memory {
    nat_registers: Vec<Register>,
    neg_registers: Vec<Register>,
}

impl View for Memory {
    type V = MemoryModel;

    closed spec fn view(&self) -> MemoryModel {
        MemoryModel {
            natural: bank_view(self.nat_registers@),
            negative: bank_view(self.neg_registers@),
        }
    }
}

fn copy_bank(bank: &Vec<Register>) -> (r: Vec<Register>)
    ensures
        bank_view(r@) == bank_view(bank@),
{
    let mut r: Vec<Register> = Vec::new();
    let mut i: usize = 0;
    while i < bank.len()
        invariant
            i <= bank@.len(),
            bank_view(r@) == bank_view(bank@.subrange(0, i as int)),
        decreases bank@.len() - i,
    {
        let ghost before = r@;
        r.push(bank[i].clone());
        proof {
            assert(bank_view(r@) =~= bank_view(before).push(bank@[i as int]@));
            assert(bank@.subrange(0, i + 1) =~= bank@.subrange(0, i as int).push(bank@[i as int]));
            assert(bank_view(bank@.subrange(0, i + 1)) =~= bank_view(bank@.subrange(0, i as int)).push(
                bank@[i as int]@,
            ));
        }
        i = i + 1;
    }
    assert(bank@.subrange(0, i as int) =~= bank@);
    r
}

impl Clone for Memory {
    fn clone(&self) -> (r: Self)
        ensures
            r@ == self@,
    {
        Memory {
            nat_registers: copy_bank(&self.nat_registers),
            neg_registers: copy_bank(&self.neg_registers),
        }
    }
}

impl Default for Memory {
    fn default() -> (r: Self)
        ensures
            r@.natural.len() == 0,
            r@.negative.len() == 0,
            r.wf(),
    {
        Memory { nat_registers: Vec::new(), neg_registers: Vec::new() }
    }
}

impl Memory {
    pub open spec fn wf(&self) -> bool {
        self@.wf()
    }

    /// Memory whose natural registers are `registers`, in order, and no negative ones.
    pub fn new_from_slice(registers: &[Register]) -> (r: Memory)
        requires
            forall|i: int| 0 <= i < registers@.len() ==> (#[trigger] registers@[i]).wf(),
        ensures
            r@.natural == bank_view(registers@),
            r@.negative.len() == 0,
            r.wf(),
    {
        let mut naturals: Vec<Register> = Vec::new();
        let mut i: usize = 0;
        while i < registers.len()
            invariant
                i <= registers@.len(),
                bank_view(naturals@) == bank_view(registers@.subrange(0, i as int)),
            decreases registers@.len() - i,
        {
            let ghost before = naturals@;
            naturals.push(registers[i].clone());
            proof {
                assert(bank_view(naturals@) =~= bank_view(before).push(registers@[i as int]@));
                assert(registers@.subrange(0, i + 1) =~= registers@.subrange(0, i as int).push(
                    registers@[i as int],
                ));
                assert(bank_view(registers@.subrange(0, i + 1)) =~= bank_view(
                    registers@.subrange(0, i as int),
                ).push(registers@[i as int]@));
            }
            i = i + 1;
        }
        assert(registers@.subrange(0, i as int) =~= registers@);
        let r = Memory { nat_registers: naturals, neg_registers: Vec::new() };
        proof {
            assert forall|k: int| 0 <= k < r@.natural.len() implies is_canonical(
                #[trigger] r@.natural[k],
            ) by {
                assert(registers@[k].wf());
            }
            assert(bank_view(Seq::<Register>::empty()) =~= Seq::<Seq<u128>>::empty());
        }
        r
    }

    /// Makes zero registers so that the namespace of `to` has at least `to.index()` of them.
    pub fn create_new_registers(&mut self, to: RegisterNumber)
        requires
            old(self).wf(),
        ensures
            final(self)@ == old(self)@.with_bank(to, zero_filled(old(self)@.bank(to), to.index())),
            final(self).wf(),
    {
        let ghost m = self@;
        match to {
            RegisterNumber::Natural(n) => {
                bank_fill(&mut self.nat_registers, n);
                proof {
                    lemma_zero_filled_wf(m.natural, n as nat);
                }
            },
            RegisterNumber::Negative(n) => {
                bank_fill(&mut self.neg_registers, n);
                proof {
                    lemma_zero_filled_wf(m.negative, n as nat);
                }
            },
        }
    }

    /// Increments register `register_number`, making it first (with the ones below it) if
    /// needed.
    pub fn inc(&mut self, register_number: RegisterNumber)
        requires
            old(self).wf(),
        ensures
            final(self)@ == old(self)@.after_inc(register_number),
            final(self).wf(),
            final(self)@.value_of(register_number) == old(self)@.value_of(register_number) + 1,
    {
        let ghost m = self@;
        match register_number {
            RegisterNumber::Natural(n) => bank_inc(&mut self.nat_registers, n),
            RegisterNumber::Negative(n) => bank_inc(&mut self.neg_registers, n),
        }
        proof {
            let b = m.bank(register_number);
            let i = register_number.index();
            if i < b.len() {
                assert(is_canonical(b[i as int]));
                lemma_digits_of_strict(digits_value(b[i as int]) + 1);
            } else {
                lemma_zero_filled_wf(b, i);
                lemma_value_small(seq![1u128]);
            }
        }
    }

    /// Decrements register `register_number`, which must be there and hold more than zero.
    pub fn dec(&mut self, register_number: RegisterNumber)
        requires
            old(self).wf(),
            register_number.index() < old(self)@.bank(register_number).len(),
            old(self)@.value_of(register_number) > 0,
        ensures
            final(self)@ == old(self)@.after_dec(register_number),
            final(self).wf(),
            final(self)@.value_of(register_number) + 1 == old(self)@.value_of(register_number),
    {
        let ghost m = self@;
        match register_number {
            RegisterNumber::Natural(n) => bank_dec(&mut self.nat_registers, n),
            RegisterNumber::Negative(n) => bank_dec(&mut self.neg_registers, n),
        }
        proof {
            let b = m.bank(register_number);
            let i = register_number.index();
            lemma_digits_of_strict((digits_value(b[i as int]) - 1) as nat);
        }
    }

    /// Whether register `register_number` holds zero. A register not made yet holds zero,
    /// and is made by the read (with the ones below it).
    pub fn is_zero(&mut self, register_number: RegisterNumber) -> (r: bool)
        requires
            old(self).wf(),
        ensures
            r == old(self)@.reads_zero(register_number),
            r == (old(self)@.value_of(register_number) == 0),
            final(self)@ == old(self)@.after_read(register_number),
            final(self).wf(),
            final(self)@.value_of(register_number) == old(self)@.value_of(register_number),
    {
        let ghost m = self@;
        let r = match register_number {
            RegisterNumber::Natural(n) => bank_read(&mut self.nat_registers, n),
            RegisterNumber::Negative(n) => bank_read(&mut self.neg_registers, n),
        };
        proof {
            let b = m.bank(register_number);
            let i = register_number.index();
            lemma_zero_filled_wf(b, i + 1);
            if i >= b.len() {
                lemma_value_small(seq![0u128]);
            }
        }
        r
    }

    /// The values of the natural registers, where each has at most one digit.
    pub fn get_nat_registers_as_u128(&self) -> (r: Option<Vec<u128>>)
        ensures
            r is Some <==> self@.natural_fits(),
            r matches Some(v) ==> v@.len() == self@.natural.len() && forall|i: int|
                0 <= i < v@.len() ==> v@[i] as nat == digits_value(#[trigger] self@.natural[i]),
    {
        let mut out: Vec<u128> = Vec::new();
        let mut i: usize = 0;
        while i < self.nat_registers.len()
            invariant
                i <= self@.natural.len(),
                self@.natural.len() == self.nat_registers@.len(),
                out@.len() == i,
                forall|k: int| 0 <= k < i ==> (#[trigger] self@.natural[k]).len() <= 1,
                forall|k: int|
                    0 <= k < i ==> out@[k] as nat == digits_value(#[trigger] self@.natural[k]),
            decreases self@.natural.len() - i,
        {
            proof {
                assert(self@.natural[i as int] == self.nat_registers@[i as int]@);
            }
            match self.nat_registers[i].get_u128() {
                Some(x) => out.push(x),
                None => {
                    proof {
                        assert(!(self@.natural[i as int].len() <= 1));
                    }
                    return None;
                },
            }
            i = i + 1;
        }
        Some(out)
    }

    /// The value of register `register_number` as one `u128`, where it has at most one
    /// digit; a register not made yet holds zero.
    pub fn get_register(&self, register_number: RegisterNumber) -> (r: Option<u128>)
        ensures
            r matches Some(x) ==> x == self@.value_of(register_number),
            r is None <==> (register_number.index() < self@.bank(register_number).len()
                && self@.bank(register_number)[register_number.index() as int].len() > 1),
    {
        let bank = match register_number {
            RegisterNumber::Natural(_) => &self.nat_registers,
            RegisterNumber::Negative(_) => &self.neg_registers,
        };
        let n = match register_number {
            RegisterNumber::Natural(n) => n,
            RegisterNumber::Negative(n) => n,
        };
        if n < bank.len() {
            proof {
                assert(self@.bank(register_number)[n as int] == bank@[n as int]@);
            }
            bank[n].get_u128()
        } else {
            Some(0)
        }
    }

    /// The line that shows the natural registers: `registers` and each value after a space.
    pub fn to_text(&self) -> (r: String)
        requires
            self.wf(),
        ensures
            r@ == registers_line(self@),
    {
        let mut out = String::new();
        proof {
            reveal_strlit("registers");
            reveal_strlit(" ");
            assert(" "@ =~= seq![' ']);
        }
        out.append("registers");
        let ghost all = bank_values(self@.natural);
        let mut i: usize = 0;
        while i < self.nat_registers.len()
            invariant
                self.wf(),
                i <= self@.natural.len(),
                all == bank_values(self@.natural),
                out@ == registers_word() + values_text(all.subrange(0, i as int)),
            decreases self@.natural.len() - i,
        {
            let ghost before = out@;
            out.append(" ");
            proof {
                reveal_strlit(" ");
                assert(" "@ =~= seq![' ']);
                assert(self@.natural[i as int] == self.nat_registers@[i as int]@);
                assert(is_canonical(self@.natural[i as int]));
            }
            push_digits_decimal(&mut out, &self.nat_registers[i].digits);
            proof {
                let pre = all.subrange(0, i as int);
                let post = all.subrange(0, i + 1);
                assert(post.drop_last() =~= pre);
                assert(post.last() == digits_value(self@.natural[i as int]));
                assert(values_text(post) == values_text(pre) + seq![' '] + decimal(post.last()));
                assert(out@ =~= before + seq![' '] + decimal(post.last()));
            }
            i = i + 1;
        }
        proof {
            assert(all.subrange(0, i as int) =~= all);
        }
        out
    }

    /// The value of register `register_number` in decimal; a register not made yet holds
    /// zero.
    pub fn value_text(&self, register_number: RegisterNumber) -> (r: String)
        requires
            self.wf(),
        ensures
            r@ == decimal(self@.value_of(register_number)),
    {
        let bank = match register_number {
            RegisterNumber::Natural(_) => &self.nat_registers,
            RegisterNumber::Negative(_) => &self.neg_registers,
        };
        let n = match register_number {
            RegisterNumber::Natural(n) => n,
            RegisterNumber::Negative(n) => n,
        };
        let mut out = String::new();
        if n < bank.len() {
            proof {
                assert(self@.bank(register_number)[n as int] == bank@[n as int]@);
                assert(is_canonical(self@.bank(register_number)[n as int]));
            }
            push_digits_decimal(&mut out, &bank[n].digits);
        } else {
            push_decimal(&mut out, 0);
        }
        out
    }
}


} // verus!
