//! Natural numbers of any size, as far as comparing products needs them.
use crate::order::Order;
use vstd::prelude::*;

verus! {

/// The base of the digits.
pub open spec fn base() -> nat {
    0x1_0000_0000
}

/// The base to the power `n`.
pub open spec fn base_to(n: nat) -> nat
    decreases n,
{
    if n == 0 {
        1
    } else {
        base() * base_to((n - 1) as nat)
    }
}

/// The number that `digits` stands for, the least significant digit first.
pub open spec fn value(digits: Seq<u32>) -> nat
    decreases digits.len(),
{
    if digits.len() == 0 {
        0
    } else {
        digits[0] as nat + base() * value(digits.drop_first())
    }
}

/// A power of the base is not zero.
pub proof fn lemma_base_to_positive(n: nat)
    ensures
        base_to(n) > 0,
    decreases n,
{
    if n > 0 {
        lemma_base_to_positive((n - 1) as nat);
        assert(base() * base_to((n - 1) as nat) > 0) by (nonlinear_arith)
            requires
                base() > 0,
                base_to((n - 1) as nat) > 0,
        ;
    }
}

/// The value of a number is that of its low digits plus that of its high
/// digits, moved up by the number of the low ones.
pub proof fn lemma_value_split(digits: Seq<u32>, i: int)
    requires
        0 <= i <= digits.len(),
    ensures
        value(digits) == value(digits.take(i)) + base_to(i as nat) * value(digits.skip(i)),
    decreases i,
{
    if i == 0 {
        assert(digits.take(0) =~= Seq::<u32>::empty());
        assert(digits.skip(0) =~= digits);
        assert(1 * value(digits) == value(digits));
    } else {
        let rest = digits.drop_first();
        lemma_value_split(rest, i - 1);
        assert(rest.take(i - 1) =~= digits.take(i).drop_first());
        assert(rest.skip(i - 1) =~= digits.skip(i));
        assert(digits.take(i)[0] == digits[0]);
        let low = value(rest.take(i - 1));
        let high = value(digits.skip(i));
        let p = base_to((i - 1) as nat);
        assert(base() * (low + p * high) == base() * low + (base() * p) * high)
            by (nonlinear_arith);
    }
}

/// One more digit at the high end adds it, moved up by the number of digits
/// below.
pub proof fn lemma_value_push(digits: Seq<u32>, digit: u32)
    ensures
        value(digits.push(digit)) == value(digits) + digit * base_to(digits.len()),
{
    let all = digits.push(digit);
    lemma_value_split(all, digits.len() as int);
    assert(all.take(digits.len() as int) =~= digits);
    assert(all.skip(digits.len() as int) =~= seq![digit]);
    assert(seq![digit].drop_first() =~= Seq::<u32>::empty());
    assert(value(seq![digit]) == digit) by {
        reveal_with_fuel(value, 2);
        assert(base() * 0 == 0);
    }
    assert(base_to(digits.len()) * (digit as nat) == digit * base_to(digits.len()))
        by (nonlinear_arith);
}

/// A number is less than the base to the power of its number of digits.
pub proof fn lemma_value_bound(digits: Seq<u32>)
    ensures
        value(digits) < base_to(digits.len()),
    decreases digits.len(),
{
    if digits.len() > 0 {
        let rest = digits.drop_first();
        lemma_value_bound(rest);
        let v = value(rest);
        let p = base_to(rest.len());
        assert(digits[0] as nat + base() * v < base() * p) by (nonlinear_arith)
            requires
                digits[0] < base(),
                v < p,
        ;
    }
}

/// The digit of `digits` at the place `i`: zero beyond the highest digit.
pub open spec fn digit_at(digits: Seq<u32>, i: int) -> u32 {
    if 0 <= i < digits.len() {
        digits[i]
    } else {
        0
    }
}

/// The value of the lowest `i` digits of `digits`.
pub open spec fn low_value(digits: Seq<u32>, i: int) -> nat {
    if 0 <= i <= digits.len() {
        value(digits.take(i))
    } else {
        value(digits)
    }
}

/// One more digit adds it, moved up by the number of digits below.
pub proof fn lemma_low_value_step(digits: Seq<u32>, i: int)
    requires
        0 <= i,
    ensures
        low_value(digits, i + 1) == low_value(digits, i) + digit_at(digits, i) * base_to(i as nat),
{
    if i < digits.len() {
        assert(digits.take(i + 1) =~= digits.take(i).push(digits[i]));
        lemma_value_push(digits.take(i), digits[i]);
    } else {
        assert(digits.take(digits.len() as int) =~= digits);
        assert(0 * base_to(i as nat) == 0);
    }
}

/// A natural number.
#[derive(Debug)]
pub struct Natural {
    digits: Vec<u32>,
}

impl View for Natural {
    type V = nat;

    closed spec fn view(&self) -> nat {
        value(self.digits@)
    }
}

impl Natural {
    /// The number one.
    pub fn one() -> (n: Natural)
        ensures
            n@ == 1,
    {
        let mut digits: Vec<u32> = Vec::new();
        digits.push(1);
        proof {
            assert(digits@.drop_first() =~= Seq::<u32>::empty());
            reveal_with_fuel(value, 2);
            assert(base() * 0 == 0);
        }
        Natural { digits }
    }

    /// The product of this number and a factor that fits sixty-four bits.
    fn times_word(&self, factor: u64) -> (product: Natural)
        ensures
            product@ == self@ * factor,
    {
        let mut digits: Vec<u32> = Vec::new();
        let mut carry: u128 = 0;
        let mut i: usize = 0;
        proof {
            assert(self.digits@.take(0) =~= Seq::<u32>::empty());
            assert(0 * (factor as nat) == 0);
            assert(carry * base_to(0) == 0);
        }
        while i < self.digits.len()
            invariant
                0 <= i <= self.digits.len(),
                digits.len() == i,
                carry < 0x1_0000_0000_0000_0000,
                value(digits@) + carry * base_to(i as nat) == value(self.digits@.take(i as int))
                    * factor,
            decreases self.digits.len() - i,
        {
            let digit = self.digits[i];
            assert(digit as u128 * factor as u128 <= 0xffff_ffff * 0xffff_ffff_ffff_ffff)
                by (nonlinear_arith)
                requires
                    digit <= 0xffff_ffff,
                    factor <= 0xffff_ffff_ffff_ffff,
            ;
            let sum: u128 = digit as u128 * factor as u128 + carry;
            let low: u32 = (sum % 0x1_0000_0000) as u32;
            let high: u128 = sum / 0x1_0000_0000;
            proof {
                let done = value(digits@);
                let p = base_to(i as nat);
                let before = value(self.digits@.take(i as int));
                lemma_value_push(digits@, low);
                lemma_value_push(self.digits@.take(i as int), digit);
                assert(self.digits@.take(i + 1) =~= self.digits@.take(i as int).push(digit));
                assert(sum == high * base() + low);
                assert(base_to((i + 1) as nat) == base() * p);
                assert(done + low * p + high * (base() * p) == (before + digit * p) * factor)
                    by (nonlinear_arith)
                    requires
                        done + carry * p == before * factor,
                        digit * factor + carry == high * base() + low,
                ;
            }
            digits.push(low);
            carry = high;
            i = i + 1;
        }
        let low: u32 = (carry % 0x1_0000_0000) as u32;
        let high: u32 = (carry / 0x1_0000_0000) as u32;
        proof {
            let n = self.digits.len() as nat;
            assert(self.digits@.take(n as int) =~= self.digits@);
            lemma_value_push(digits@, low);
            lemma_value_push(digits@.push(low), high);
            assert(base_to(n + 1) == base() * base_to(n));
            assert(carry == high * base() + low);
            assert(value(digits@) + low * base_to(n) + high * (base() * base_to(n)) == value(
                digits@,
            ) + carry * base_to(n)) by (nonlinear_arith)
                requires
                    carry == high * base() + low,
            ;
        }
        digits.push(low);
        digits.push(high);
        Natural { digits }
    }

    /// This number moved up by two digits.
    fn moved_up(&self) -> (moved: Natural)
        ensures
            moved@ == self@ * base() * base(),
    {
        let mut digits: Vec<u32> = Vec::new();
        digits.push(0);
        digits.push(0);
        let mut i: usize = 0;
        while i < self.digits.len()
            invariant
                0 <= i <= self.digits.len(),
                digits@ == seq![0u32, 0u32] + self.digits@.take(i as int),
            decreases self.digits.len() - i,
        {
            digits.push(self.digits[i]);
            proof {
                assert(self.digits@.take(i + 1) =~= self.digits@.take(i as int).push(
                    self.digits@[i as int],
                ));
            }
            i = i + 1;
        }
        proof {
            assert(self.digits@.take(self.digits.len() as int) =~= self.digits@);
            let all = seq![0u32, 0u32] + self.digits@;
            assert(all.drop_first() =~= seq![0u32] + self.digits@);
            assert(all.drop_first().drop_first() =~= self.digits@);
            reveal_with_fuel(value, 3);
            let v = value(self.digits@);
            assert(base() * (base() * v) == v * base() * base()) by (nonlinear_arith);
        }
        Natural { digits }
    }

    /// The sum of this number and `other`.
    fn plus(&self, other: &Natural) -> (sum: Natural)
        ensures
            sum@ == self@ + other@,
    {
        let n = if self.digits.len() > other.digits.len() {
            self.digits.len()
        } else {
            other.digits.len()
        };
        let mut digits: Vec<u32> = Vec::new();
        let mut carry: u64 = 0;
        let mut i: usize = 0;
        proof {
            assert(self.digits@.take(0) =~= Seq::<u32>::empty());
            assert(other.digits@.take(0) =~= Seq::<u32>::empty());
            assert(carry * base_to(0) == 0);
        }
        while i < n
            invariant
                0 <= i <= n,
                n >= self.digits.len(),
                n >= other.digits.len(),
                digits.len() == i,
                carry <= 1,
                value(digits@) + carry * base_to(i as nat) == low_value(self.digits@, i as int)
                    + low_value(other.digits@, i as int),
            decreases n - i,
        {
            let x: u64 = if i < self.digits.len() {
                self.digits[i] as u64
            } else {
                0
            };
            let y: u64 = if i < other.digits.len() {
                other.digits[i] as u64
            } else {
                0
            };
            let total: u64 = x + y + carry;
            let low: u32 = (total % 0x1_0000_0000) as u32;
            let high: u64 = total / 0x1_0000_0000;
            proof {
                lemma_low_value_step(self.digits@, i as int);
                lemma_low_value_step(other.digits@, i as int);
                lemma_value_push(digits@, low);
                let p = base_to(i as nat);
                assert(base_to((i + 1) as nat) == base() * p);
                assert(total == high * base() + low);
                assert(value(digits@) + low * p + high * (base() * p) == value(digits@) + carry
                    * p + x * p + y * p) by (nonlinear_arith)
                    requires
                        x + y + carry == high * base() + low,
                ;
            }
            digits.push(low);
            carry = high;
            i = i + 1;
        }
        proof {
            lemma_value_push(digits@, carry as u32);
            assert(self.digits@.take(self.digits.len() as int) =~= self.digits@);
            assert(other.digits@.take(other.digits.len() as int) =~= other.digits@);
        }
        digits.push(carry as u32);
        Natural { digits }
    }

    /// The product of this number and `factor`.
    pub fn times(&self, factor: u128) -> (product: Natural)
        ensures
            product@ == self@ * factor,
    {
        let low: u64 = (factor % 0x1_0000_0000_0000_0000) as u64;
        let high: u64 = (factor / 0x1_0000_0000_0000_0000) as u64;
        let by_low = self.times_word(low);
        if high == 0 {
            return by_low;
        }
        let by_high = self.times_word(high).moved_up();
        proof {
            let v = self@;
            assert(factor == high * 0x1_0000_0000_0000_0000 + low);
            assert(base() * base() == 0x1_0000_0000_0000_0000nat);
            assert(v * high * base() * base() + v * low == v * factor) by (nonlinear_arith)
                requires
                    factor == high * (base() * base()) + low,
            ;
        }
        by_high.plus(&by_low)
    }

    /// How this number stands to `other`.
    pub fn compare(&self, other: &Natural) -> (order: Order)
        ensures
            order == if self@ < other@ {
                Order::Less
            } else if self@ == other@ {
                Order::Equal
            } else {
                Order::Greater
            },
    {
        let a = &self.digits;
        let b = &other.digits;
        // The digits that only the longer number has decide, unless all are zero.
        let mut i: usize = a.len();
        proof {
            assert(a@.skip(a.len() as int) =~= Seq::<u32>::empty());
            assert(base_to(a.len() as nat) * 0 == 0);
            lemma_value_split(a@, a.len() as int);
        }
        while i > b.len()
            invariant
                i <= a.len(),
                self@ == value(a@),
                other@ == value(b@),
                value(a@) == value(a@.take(i as int)),
            decreases i,
        {
            if a[i - 1] != 0 {
                proof {
                    assert(a@.take(i as int).last() == a@[i - 1]);
                    lemma_high_digit_decides(a@.take(i as int), b@);
                }
                return Order::Greater;
            }
            proof {
                lemma_value_push(a@.take(i - 1), 0);
                assert(a@.take(i as int) =~= a@.take(i - 1).push(0));
                assert(0 * base_to((i - 1) as nat) == 0);
            }
            i = i - 1;
        }
        let mut j: usize = b.len();
        proof {
            assert(b@.skip(b.len() as int) =~= Seq::<u32>::empty());
            assert(base_to(b.len() as nat) * 0 == 0);
            lemma_value_split(b@, b.len() as int);
        }
        while j > i
            invariant
                i <= j <= b.len(),
                i <= a.len(),
                self@ == value(a@),
                other@ == value(b@),
                value(a@) == value(a@.take(i as int)),
                value(b@) == value(b@.take(j as int)),
            decreases j,
        {
            if b[j - 1] != 0 {
                proof {
                    assert(b@.take(j as int).last() == b@[j - 1]);
                    lemma_high_digit_decides(b@.take(j as int), a@.take(i as int));
                }
                return Order::Less;
            }
            proof {
                lemma_value_push(b@.take(j - 1), 0);
                assert(b@.take(j as int) =~= b@.take(j - 1).push(0));
                assert(0 * base_to((j - 1) as nat) == 0);
            }
            j = j - 1;
        }
        // Both have `i` digits left: the highest digit in which they differ decides.
        while i > 0
            invariant
                i <= a.len(),
                i <= b.len(),
                self@ == value(a@),
                other@ == value(b@),
                value(a@) < value(b@) <==> value(a@.take(i as int)) < value(b@.take(i as int)),
                value(a@) == value(b@) <==> value(a@.take(i as int)) == value(b@.take(i as int)),
            decreases i,
        {
            let x = a[i - 1];
            let y = b[i - 1];
            proof {
                let low_a = a@.take(i - 1);
                let low_b = b@.take(i - 1);
                assert(a@.take(i as int) =~= low_a.push(x));
                assert(b@.take(i as int) =~= low_b.push(y));
                lemma_value_push(low_a, x);
                lemma_value_push(low_b, y);
                lemma_value_bound(low_a);
                lemma_value_bound(low_b);
                let p = base_to((i - 1) as nat);
                if x < y {
                    assert(value(low_a) + x * p < value(low_b) + y * p) by (nonlinear_arith)
                        requires
                            value(low_a) < p,
                            x < y,
                    ;
                } else if x > y {
                    assert(value(low_a) + x * p > value(low_b) + y * p) by (nonlinear_arith)
                        requires
                            value(low_b) < p,
                            x > y,
                    ;
                }
            }
            if x < y {
                return Order::Less;
            }
            if x > y {
                return Order::Greater;
            }
            i = i - 1;
        }
        proof {
            assert(a@.take(0) =~= b@.take(0));
        }
        Order::Equal
    }
}

/// A number whose highest digit is not zero is greater than any number of
/// fewer digits.
proof fn lemma_high_digit_decides(longer: Seq<u32>, shorter: Seq<u32>)
    requires
        longer.len() > shorter.len(),
        longer.last() != 0,
    ensures
        value(longer) > value(shorter),
{
    let low = longer.drop_last();
    assert(longer =~= low.push(longer.last()));
    lemma_value_push(low, longer.last());
    lemma_value_bound(shorter);
    lemma_base_to_grows(shorter.len(), low.len());
    let p = base_to(low.len());
    assert(longer.last() * p >= p) by (nonlinear_arith)
        requires
            longer.last() >= 1,
            p >= 0,
    ;
}

/// The powers of the base grow.
proof fn lemma_base_to_grows(m: nat, n: nat)
    requires
        m <= n,
    ensures
        base_to(m) <= base_to(n),
    decreases n,
{
    if m < n {
        lemma_base_to_grows(m, (n - 1) as nat);
        lemma_base_to_positive((n - 1) as nat);
        assert(base() * base_to((n - 1) as nat) >= base_to((n - 1) as nat)) by (nonlinear_arith)
            requires
                base() >= 1,
                base_to((n - 1) as nat) >= 0,
        ;
    }
}

} // verus!
