//! Natural numbers without an upper bound.
//!
//! The likelihood of a record is a product of one count per attribute and an
//! average of accuracies is a ratio of such products; neither fits a machine
//! word. A [`Natural`] keeps them exact: a little-endian sequence of 64-bit
//! digits, with just the operations the classifier needs.

use vstd::prelude::*;

verus! {

/// What one digit counts up to: 2^64.
pub open spec fn radix() -> nat {
    0x1_0000_0000_0000_0000
}

/// The worth of one unit of the digit at position `i`: `radix()` to the `i`.
pub open spec fn place(i: nat) -> nat
    decreases i,
{
    if i == 0 {
        1
    } else {
        radix() * place((i - 1) as nat)
    }
}

/// The digit of `limbs` at position `i`; zero beyond the last limb.
pub open spec fn digit(limbs: Seq<u64>, i: int) -> nat {
    if 0 <= i < limbs.len() {
        limbs[i] as nat
    } else {
        0
    }
}

/// The number that the lowest `count` digits of `limbs` spell.
pub open spec fn low_part(limbs: Seq<u64>, count: nat) -> nat
    decreases count,
{
    if count == 0 {
        0
    } else {
        low_part(limbs, (count - 1) as nat) + digit(limbs, count - 1) * place((count - 1) as nat)
    }
}

/// The number that `limbs` spells, lowest digit first.
pub open spec fn number(limbs: Seq<u64>) -> nat {
    low_part(limbs, limbs.len())
}

/// Every place is worth at least one.
pub proof fn lemma_place_positive(i: nat)
    ensures
        place(i) >= 1,
    decreases i,
{
    if i > 0 {
        lemma_place_positive((i - 1) as nat);
        assert(radix() * place((i - 1) as nat) >= 1) by (nonlinear_arith)
            requires
                radix() >= 1,
                place((i - 1) as nat) >= 1,
        ;
    }
}

/// Higher places are worth more.
pub proof fn lemma_place_monotonic(i: nat, j: nat)
    requires
        i <= j,
    ensures
        place(i) <= place(j),
    decreases j,
{
    if i < j {
        lemma_place_monotonic(i, (j - 1) as nat);
        lemma_place_positive((j - 1) as nat);
        assert(place((j - 1) as nat) <= radix() * place((j - 1) as nat)) by (nonlinear_arith)
            requires
                radix() >= 1,
                place((j - 1) as nat) >= 1,
        ;
    }
}

/// The lowest `count` digits spell a number below the worth of the next place.
pub proof fn lemma_low_part_bound(limbs: Seq<u64>, count: nat)
    ensures
        low_part(limbs, count) < place(count),
    decreases count,
{
    if count > 0 {
        let below = (count - 1) as nat;
        lemma_low_part_bound(limbs, below);
        let d = digit(limbs, count - 1);
        assert(d * place(below) + place(below) <= radix() * place(below)) by (nonlinear_arith)
            requires
                d + 1 <= radix(),
        ;
    }
}

/// Digits beyond the last limb add nothing.
pub proof fn lemma_low_part_beyond(limbs: Seq<u64>, count: nat)
    requires
        count >= limbs.len(),
    ensures
        low_part(limbs, count) == number(limbs),
    decreases count,
{
    if count > limbs.len() {
        lemma_low_part_beyond(limbs, (count - 1) as nat);
        assert(digit(limbs, count - 1) * place((count - 1) as nat) == 0) by (nonlinear_arith)
            requires
                digit(limbs, count - 1) == 0,
        ;
    }
}

/// Two sequences that agree on their lowest `count` digits spell the same
/// number there.
pub proof fn lemma_low_part_agrees(a: Seq<u64>, b: Seq<u64>, count: nat)
    requires
        forall|i: int| 0 <= i < count ==> digit(a, i) == digit(b, i),
    ensures
        low_part(a, count) == low_part(b, count),
    decreases count,
{
    if count > 0 {
        lemma_low_part_agrees(a, b, (count - 1) as nat);
    }
}

/// A number is at least what any single one of its digits is worth.
pub proof fn lemma_low_part_at_least_digit(limbs: Seq<u64>, count: nat, i: nat)
    requires
        i < count,
    ensures
        low_part(limbs, count) >= digit(limbs, i as int) * place(i),
    decreases count,
{
    if i + 1 < count {
        lemma_low_part_at_least_digit(limbs, (count - 1) as nat, i);
    }
}

proof fn lemma_times_step(
    done: nat,
    carry: nat,
    source: nat,
    limb: nat,
    factor: nat,
    low: nat,
    high: nat,
    worth: nat,
)
    by (nonlinear_arith)
    requires
        done + carry * worth == source * factor,
        limb * factor + carry == low + high * radix(),
    ensures
        (done + low * worth) + high * (radix() * worth) == (source + limb * worth) * factor,
{
}

proof fn lemma_plus_step(
    done: nat,
    carry: nat,
    left: nat,
    right: nat,
    a: nat,
    b: nat,
    low: nat,
    high: nat,
    worth: nat,
)
    by (nonlinear_arith)
    requires
        done + carry * worth == left + right,
        a + b + carry == low + high * radix(),
    ensures
        (done + low * worth) + high * (radix() * worth) == (left + a * worth) + (right + b * worth),
{
}

proof fn lemma_smaller_digit_decides(below_a: nat, below_b: nat, a: nat, b: nat, worth: nat)
    by (nonlinear_arith)
    requires
        below_a < worth,
        a < b,
    ensures
        below_a + a * worth < below_b + b * worth,
{
}

const RADIX: u128 = 0x1_0000_0000_0000_0000;

/// A natural number of any size.
#[derive(Debug)]
pub struct Natural {
    limbs: Vec<u64>,
}

impl View for Natural {
    type V = nat;

    closed spec fn view(&self) -> nat {
        number(self.limbs@)
    }
}

impl Natural {
    /// The number `value`.
    pub fn from_u64(value: u64) -> (natural: Natural)
        ensures
            natural@ == value,
    {
        let mut limbs: Vec<u64> = Vec::new();
        limbs.push(value);
        proof {
            assert(limbs@.len() == 1);
            assert(place(0) == 1);
            assert(digit(limbs@, 0) == value);
            assert(low_part(limbs@, 0) == 0);
            assert(low_part(limbs@, 1) == low_part(limbs@, 0) + digit(limbs@, 0) * place(0));
        }
        Natural { limbs }
    }

    /// The digits of this number in radix 2^64, lowest first.
    pub fn limbs(&self) -> (limbs: &Vec<u64>)
        ensures
            number(limbs@) == self@,
    {
        &self.limbs
    }

    /// This number as a machine integer, if it fits.
    pub fn to_u128(&self) -> (value: Option<u128>)
        ensures
            match value {
                Some(v) => v == self@,
                None => self@ > u128::MAX,
            },
    {
        let n = self.limbs.len();
        let mut i: usize = 2;
        while i < n
            invariant
                2 <= i,
                n == self.limbs.len(),
                forall|j: int| 2 <= j < i && j < n ==> self.limbs@[j] == 0,
            decreases n - i,
        {
            if self.limbs[i] != 0 {
                proof {
                    lemma_low_part_at_least_digit(self.limbs@, n as nat, i as nat);
                    lemma_place_monotonic(2, i as nat);
                    reveal_with_fuel(place, 3);
                    assert(place(2) == radix() * radix());
                    assert(radix() * radix() > u128::MAX) by (nonlinear_arith)
                        requires
                            radix() == 0x1_0000_0000_0000_0000,
                    ;
                    let d = digit(self.limbs@, i as int);
                    assert(d * place(i as nat) >= place(2)) by (nonlinear_arith)
                        requires
                            d >= 1,
                            place(i as nat) >= place(2),
                    ;
                }
                return None;
            }
            i += 1;
        }
        let low: u128 = if n > 0 {
            self.limbs[0] as u128
        } else {
            0
        };
        let high: u128 = if n > 1 {
            self.limbs[1] as u128
        } else {
            0
        };
        proof {
            let two = self.limbs@.take(if n < 2 { n as int } else { 2 });
            assert forall|j: int| 0 <= j < n implies digit(self.limbs@, j) == digit(two, j) by {}
            lemma_low_part_agrees(self.limbs@, two, n as nat);
            lemma_low_part_beyond(two, n as nat);
            lemma_low_part_beyond(two, 2);
            reveal_with_fuel(low_part, 3);
            reveal_with_fuel(place, 2);
            assert(low_part(two, 2) == digit(two, 0) * 1 + digit(two, 1) * (radix() * 1));
            assert(digit(two, 0) == low);
            assert(digit(two, 1) == high);
            assert(high * RADIX <= 0xffff_ffff_ffff_ffff * 0x1_0000_0000_0000_0000)
                by (nonlinear_arith)
                requires
                    high <= 0xffff_ffff_ffff_ffff,
                    RADIX == 0x1_0000_0000_0000_0000,
            ;
        }
        Some(low + high * RADIX)
    }

    /// The product of this number and `factor`.
    pub fn times(&self, factor: u64) -> (product: Natural)
        ensures
            product@ == self@ * factor,
    {
        let n = self.limbs.len();
        let mut out: Vec<u64> = Vec::new();
        let mut carry: u64 = 0;
        let mut i: usize = 0;
        proof {
            let nothing = low_part(self.limbs@, 0);
            assert(carry * place(0) == 0 && nothing * factor == 0) by (nonlinear_arith)
                requires
                    carry == 0,
                    nothing == 0,
            ;
        }
        while i < n
            invariant
                n == self.limbs.len(),
                i <= n,
                out.len() == i,
                low_part(out@, i as nat) + carry * place(i as nat) == low_part(
                    self.limbs@,
                    i as nat,
                ) * factor,
            decreases n - i,
        {
            let limb = self.limbs[i];
            assert(limb * factor <= 0xffff_ffff_ffff_ffff * 0xffff_ffff_ffff_ffff)
                by (nonlinear_arith)
                requires
                    limb <= 0xffff_ffff_ffff_ffff,
                    factor <= 0xffff_ffff_ffff_ffff,
            ;
            let whole: u128 = (limb as u128) * (factor as u128) + (carry as u128);
            let low: u64 = (whole % RADIX) as u64;
            let high: u64 = (whole / RADIX) as u64;
            proof {
                let before = out@;
                let after = out@.push(low);
                assert forall|j: int| 0 <= j < i implies digit(before, j) == digit(after, j) by {}
                lemma_low_part_agrees(before, after, i as nat);
                assert(digit(after, i as int) == low);
                lemma_times_step(
                    low_part(before, i as nat),
                    carry as nat,
                    low_part(self.limbs@, i as nat),
                    limb as nat,
                    factor as nat,
                    low as nat,
                    high as nat,
                    place(i as nat),
                );
            }
            out.push(low);
            carry = high;
            i += 1;
        }
        if carry != 0 {
            proof {
                let before = out@;
                let after = out@.push(carry);
                assert forall|j: int| 0 <= j < n implies digit(before, j) == digit(after, j) by {}
                lemma_low_part_agrees(before, after, n as nat);
                assert(digit(after, n as int) == carry);
            }
            out.push(carry);
        } else {
            assert(carry * place(n as nat) == 0) by (nonlinear_arith)
                requires
                    carry == 0,
            ;
        }
        Natural { limbs: out }
    }

    /// The sum of this number and `other`.
    pub fn plus(&self, other: &Natural) -> (sum: Natural)
        ensures
            sum@ == self@ + other@,
    {
        let n = if self.limbs.len() >= other.limbs.len() {
            self.limbs.len()
        } else {
            other.limbs.len()
        };
        let mut out: Vec<u64> = Vec::new();
        let mut carry: u64 = 0;
        let mut i: usize = 0;
        assert(carry * place(0) == 0) by (nonlinear_arith)
            requires
                carry == 0,
        ;
        while i < n
            invariant
                n >= self.limbs.len(),
                n >= other.limbs.len(),
                i <= n,
                out.len() == i,
                carry <= 1,
                low_part(out@, i as nat) + carry * place(i as nat) == low_part(
                    self.limbs@,
                    i as nat,
                ) + low_part(other.limbs@, i as nat),
            decreases n - i,
        {
            let a: u64 = if i < self.limbs.len() {
                self.limbs[i]
            } else {
                0
            };
            let b: u64 = if i < other.limbs.len() {
                other.limbs[i]
            } else {
                0
            };
            let whole: u128 = (a as u128) + (b as u128) + (carry as u128);
            let low: u64 = (whole % RADIX) as u64;
            let high: u64 = (whole / RADIX) as u64;
            proof {
                let before = out@;
                let after = out@.push(low);
                assert forall|j: int| 0 <= j < i implies digit(before, j) == digit(after, j) by {}
                lemma_low_part_agrees(before, after, i as nat);
                assert(digit(after, i as int) == low);
                assert(digit(self.limbs@, i as int) == a);
                assert(digit(other.limbs@, i as int) == b);
                lemma_plus_step(
                    low_part(before, i as nat),
                    carry as nat,
                    low_part(self.limbs@, i as nat),
                    low_part(other.limbs@, i as nat),
                    a as nat,
                    b as nat,
                    low as nat,
                    high as nat,
                    place(i as nat),
                );
            }
            out.push(low);
            carry = high;
            i += 1;
        }
        proof {
            lemma_low_part_beyond(self.limbs@, n as nat);
            lemma_low_part_beyond(other.limbs@, n as nat);
        }
        if carry != 0 {
            proof {
                let before = out@;
                let after = out@.push(carry);
                assert forall|j: int| 0 <= j < n implies digit(before, j) == digit(after, j) by {}
                lemma_low_part_agrees(before, after, n as nat);
                assert(digit(after, n as int) == carry);
            }
            out.push(carry);
        } else {
            assert(carry * place(n as nat) == 0) by (nonlinear_arith)
                requires
                    carry == 0,
            ;
        }
        Natural { limbs: out }
    }

    /// Whether this number is greater than or equal to `other`.
    pub fn at_least(&self, other: &Natural) -> (yes: bool)
        ensures
            yes == (self@ >= other@),
    {
        let n = if self.limbs.len() >= other.limbs.len() {
            self.limbs.len()
        } else {
            other.limbs.len()
        };
        proof {
            lemma_low_part_beyond(self.limbs@, n as nat);
            lemma_low_part_beyond(other.limbs@, n as nat);
        }
        let mut i: usize = n;
        while i > 0
            invariant
                i <= n,
                low_part(self.limbs@, n as nat) - low_part(self.limbs@, i as nat) == low_part(
                    other.limbs@,
                    n as nat,
                ) - low_part(other.limbs@, i as nat),
                low_part(self.limbs@, n as nat) == self@,
                low_part(other.limbs@, n as nat) == other@,
            decreases i,
        {
            i -= 1;
            let a: u64 = if i < self.limbs.len() {
                self.limbs[i]
            } else {
                0
            };
            let b: u64 = if i < other.limbs.len() {
                other.limbs[i]
            } else {
                0
            };
            proof {
                assert(digit(self.limbs@, i as int) == a);
                assert(digit(other.limbs@, i as int) == b);
                lemma_low_part_bound(self.limbs@, i as nat);
                lemma_low_part_bound(other.limbs@, i as nat);
                if a < b {
                    lemma_smaller_digit_decides(
                        low_part(self.limbs@, i as nat),
                        low_part(other.limbs@, i as nat),
                        a as nat,
                        b as nat,
                        place(i as nat),
                    );
                }
                if b < a {
                    lemma_smaller_digit_decides(
                        low_part(other.limbs@, i as nat),
                        low_part(self.limbs@, i as nat),
                        b as nat,
                        a as nat,
                        place(i as nat),
                    );
                }
            }
            if a < b {
                return false;
            }
            if a > b {
                return true;
            }
        }
        true
    }
}

} // verus!
