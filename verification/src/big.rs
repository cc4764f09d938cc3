//! Natural numbers of any size.

use vstd::arithmetic::div_mod::lemma_fundamental_div_mod_converse;
use vstd::arithmetic::power2::{
    lemma2_to64, lemma_pow2_adds, lemma_pow2_pos, lemma_pow2_strictly_increases, lemma_pow2_unfold,
    pow2,
};
use vstd::prelude::*;

use crate::binary64::nearest_even;
use crate::single::{Single, held, infinite, much_is_infinite, nearest_is, rounded};

verus! {

/// The weight of place `i`.
pub open spec fn weight(i: nat) -> nat
    decreases i,
{
    if i == 0 {
        1
    } else {
        0x1_0000_0000 * weight((i - 1) as nat)
    }
}

/// Place `i`, the lowest first. Zeros follow the last one.
pub open spec fn place(v: Seq<u32>, i: int) -> nat {
    if 0 <= i < v.len() {
        v[i] as nat
    } else {
        0
    }
}

/// The number in the `n` lowest places.
pub open spec fn low_part(v: Seq<u32>, n: nat) -> nat
    decreases n,
{
    if n == 0 {
        0
    } else {
        low_part(v, (n - 1) as nat) + place(v, n - 1) * weight((n - 1) as nat)
    }
}

/// A natural number, in places of 32 binary digits.
pub struct Big {
    places: Vec<u32>,
}

impl View for Big {
    type V = nat;

    closed spec fn view(&self) -> nat {
        low_part(self.places@, self.places@.len())
    }
}

proof fn same_low_part(a: Seq<u32>, b: Seq<u32>, n: nat)
    requires
        forall|i: int| 0 <= i < n ==> #[trigger] place(a, i) == place(b, i),
    ensures
        low_part(a, n) == low_part(b, n),
    decreases n,
{
    if n > 0 {
        same_low_part(a, b, (n - 1) as nat);
        assert(place(a, n - 1) == place(b, n - 1));
    }
}

proof fn no_more_places(v: Seq<u32>, n: nat)
    requires
        v.len() <= n,
    ensures
        low_part(v, n) == low_part(v, v.len()),
    decreases n,
{
    if v.len() < n {
        no_more_places(v, (n - 1) as nat);
        assert(0 * weight((n - 1) as nat) == 0);
    }
}

proof fn pushed(v: Seq<u32>, x: u32)
    ensures
        low_part(v.push(x), v.len() + 1) == low_part(v, v.len()) + x * weight(v.len()),
{
    let w = v.push(x);
    assert forall|i: int| 0 <= i < v.len() implies #[trigger] place(w, i) == place(v, i) by {}
    same_low_part(w, v, v.len());
    assert(place(w, v.len() as int) == x);
}

proof fn below_the_next_weight(v: Seq<u32>, n: nat)
    ensures
        low_part(v, n) < weight(n),
    decreases n,
{
    if n > 0 {
        below_the_next_weight(v, (n - 1) as nat);
        let w = weight((n - 1) as nat);
        let x = place(v, n - 1);
        assert(x * w <= 0xffff_ffff * w) by (nonlinear_arith)
            requires
                x <= 0xffff_ffff,
                w >= 0,
        ;
    }
}

impl Big {
    /// Zero.
    pub fn zero() -> (r: Big)
        ensures
            r@ == 0,
    {
        Big { places: Vec::new() }
    }

    /// The number times `m` plus `c`.
    pub fn times_plus(&self, m: u32, c: u32) -> (r: Big)
        ensures
            r@ == self@ * m + c,
    {
        let mut out: Vec<u32> = Vec::new();
        let mut carry: u64 = c as u64;
        let mut i: usize = 0;
        let ghost v = self.places@;
        proof {
            let (p, w) = (low_part(v, 0), weight(0));
            assert(p * m == 0) by (nonlinear_arith)
                requires
                    p == 0,
            ;
            assert(carry * w == carry) by (nonlinear_arith)
                requires
                    w == 1,
            ;
        }
        while i < self.places.len()
            invariant
                v == self.places@,
                i <= v.len(),
                out@.len() == i,
                carry <= 0xffff_ffff,
                low_part(out@, i as nat) + carry * weight(i as nat) == low_part(v, i as nat) * m
                    + c,
            decreases self.places.len() - i,
        {
            let x: u64 = self.places[i] as u64;
            let ghost before = out@;
            let ghost old_carry = carry as int;
            let ghost w = weight(i as nat) as int;
            proof {
                assert(x * m <= 0xffff_ffff * 0xffff_ffff) by (nonlinear_arith)
                    requires
                        0 <= x <= 0xffff_ffff,
                        0 <= m <= 0xffff_ffff,
                ;
                assert(0 <= x * m) by (nonlinear_arith)
                    requires
                        0 <= x,
                        0 <= m,
                ;
            }
            let t: u64 = x * m as u64 + carry;
            let low: u64 = t % 0x1_0000_0000;
            carry = t / 0x1_0000_0000;
            out.push(low as u32);
            proof {
                pushed(before, low as u32);
                assert(place(v, i as int) == x);
                let p = low_part(v, i as nat) as int;
                assert(low * w + carry * (0x1_0000_0000 * w) == t * w) by (nonlinear_arith)
                    requires
                        t == low + carry * 0x1_0000_0000,
                ;
                assert(t * w == (x * m) * w + old_carry * w) by (nonlinear_arith)
                    requires
                        t == x * m + old_carry,
                ;
                assert((p + x * w) * m == p * m + (x * m) * w) by (nonlinear_arith);
            }
            i = i + 1;
        }
        let ghost before = out@;
        out.push(carry as u32);
        proof {
            pushed(before, carry as u32);
        }
        Big { places: out }
    }

    /// What is left after `other` is taken away, if it is not larger.
    pub fn minus(&self, other: &Big) -> (r: Option<Big>)
        ensures
            match r {
                Some(d) => d@ == self@ - other@,
                None => self@ < other@,
            },
    {
        let n: usize = if self.places.len() > other.places.len() {
            self.places.len()
        } else {
            other.places.len()
        };
        let ghost a = self.places@;
        let ghost b = other.places@;
        let mut out: Vec<u32> = Vec::new();
        let mut borrow: i64 = 0;
        let mut i: usize = 0;
        while i < n
            invariant
                a == self.places@,
                b == other.places@,
                i <= n,
                out@.len() == i,
                borrow == 0 || borrow == 1,
                low_part(out@, i as nat) + low_part(b, i as nat) == low_part(a, i as nat) + borrow
                    * weight(i as nat),
            decreases n - i,
        {
            let x: i64 = if i < self.places.len() {
                self.places[i] as i64
            } else {
                0
            };
            let y: i64 = if i < other.places.len() {
                other.places[i] as i64
            } else {
                0
            };
            let ghost before = out@;
            let ghost old_borrow = borrow as int;
            let ghost w = weight(i as nat) as int;
            let t: i64 = x - y - borrow;
            borrow = if t < 0 {
                1
            } else {
                0
            };
            let z: i64 = t + borrow * 0x1_0000_0000;
            out.push(z as u32);
            proof {
                pushed(before, z as u32);
                assert(place(a, i as int) == x && place(b, i as int) == y);
                assert(z * w + y * w == x * w - old_borrow * w + borrow * (0x1_0000_0000 * w))
                    by (nonlinear_arith)
                    requires
                        z == x - y - old_borrow + borrow * 0x1_0000_0000,
                ;
            }
            i = i + 1;
        }
        proof {
            no_more_places(a, n as nat);
            no_more_places(b, n as nat);
            below_the_next_weight(out@, n as nat);
        }
        if borrow == 0 {
            Some(Big { places: out })
        } else {
            None
        }
    }

    /// Whether the number is smaller.
    pub fn less(&self, other: &Big) -> (r: bool)
        ensures
            r == (self@ < other@),
    {
        self.minus(other).is_none()
    }

    /// The number times a power of two.
    pub fn doubled(&self, times: u32) -> (r: Big)
        ensures
            r@ == self@ * pow2(times as nat),
    {
        let mut r = self.times_plus(1, 0);
        let mut i: u32 = 0;
        proof {
            lemma2_to64();
            assert(self@ * 1 == self@);
        }
        while i < times
            invariant
                i <= times,
                r@ == self@ * pow2(i as nat),
            decreases times - i,
        {
            proof {
                lemma_pow2_unfold((i + 1) as nat);
                let p = pow2(i as nat);
                assert((self@ * p) * 2 == self@ * (2 * p)) by (nonlinear_arith);
            }
            r = r.times_plus(2, 0);
            i = i + 1;
        }
        r
    }
}

/// The single-precision number nearest to `n / d`.
pub fn single_of(n: &Big, d: &Big) -> (r: Single)
    requires
        d@ > 0,
    ensures
        r@ == rounded(n@, d@),
{
    let mut top = d.doubled(24);
    let mut k: u32 = 0;
    proof {
        lemma2_to64();
        assert(d@ * 1 == d@);
    }
    while k < 300 && !n.less(&top)
        invariant
            d@ > 0,
            k <= 300,
            top@ == d@ * pow2(k as nat) * 0x100_0000,
            k > 0 ==> 2 * n@ >= top@,
        decreases 300 - k,
    {
        proof {
            lemma_pow2_unfold((k + 1) as nat);
            let p = pow2(k as nat);
            assert(d@ * p * 0x100_0000 * 2 == d@ * (2 * p) * 0x100_0000) by (nonlinear_arith);
        }
        top = top.times_plus(2, 0);
        k = k + 1;
    }
    if !n.less(&top) {
        proof {
            lemma_pow2_strictly_increases(277, 300);
            assert(k == 300);
            assert(d@ * pow2(300) * 0x100_0000 >= d@ * pow2(277)) by (nonlinear_arith)
                requires
                    pow2(300) > pow2(277),
                    d@ > 0,
            ;
            much_is_infinite(n@, d@);
            assert(1 * infinite() == infinite());
            lemma2_to64();
            lemma_pow2_adds(23, 277);
            assert(0x80_0000 * pow2(300) >= infinite()) by (nonlinear_arith)
                requires
                    pow2(300) > infinite(),
            ;
        }
        return held(0x80_0000, 300);
    }
    let ghost dd = (d@ * pow2(k as nat)) as int;
    let mut rest = n.times_plus(1, 0);
    let mut q: u32 = 0;
    let mut j: u32 = 0;
    proof {
        assert(0 * top@ == 0);
    }
    while j < 24
        invariant
            j <= 24,
            rest@ < top@,
            n@ * pow2(j as nat) == q * top@ + rest@,
            q < pow2(j as nat),
            pow2(j as nat) <= 0x100_0000,
        decreases 24 - j,
    {
        proof {
            lemma2_to64();
            lemma_pow2_unfold((j + 1) as nat);
            if j + 1 < 24 {
                lemma_pow2_strictly_increases((j + 1) as nat, 24);
            }
            let p = pow2(j as nat);
            assert(n@ * (2 * p) == 2 * (n@ * p)) by (nonlinear_arith);
            assert(2 * (q * top@) == (2 * q) * top@) by (nonlinear_arith);
            assert((2 * q + 1) * top@ == (2 * q) * top@ + top@) by (nonlinear_arith);
        }
        let twice = rest.times_plus(2, 0);
        match twice.minus(&top) {
            Some(less) => {
                rest = less;
                q = q * 2 + 1;
            },
            None => {
                rest = twice;
                q = q * 2;
            },
        }
        j = j + 1;
    }
    let twice = rest.times_plus(2, 0);
    let under: bool = twice.less(&top);
    let over: bool = top.less(&twice);
    let up: bool = over || (!under && q % 2 == 1);
    let m: u32 = if up {
        q + 1
    } else {
        q
    };
    proof {
        lemma2_to64();
        lemma_pow2_pos(k as nat);
        assert(dd > 0) by (nonlinear_arith)
            requires
                dd == d@ * pow2(k as nat),
                d@ > 0,
                pow2(k as nat) > 0,
        ;
        let r = n@ - q * dd;
        assert(q * top@ == (q * dd) * 0x100_0000) by (nonlinear_arith)
            requires
                top@ == dd * 0x100_0000,
        ;
        assert(n@ * pow2(24) == n@ * 0x100_0000) by (nonlinear_arith)
            requires
                pow2(24) == 0x100_0000,
        ;
        assert(rest@ == r * 0x100_0000);
        lemma_fundamental_div_mod_converse(n@ as int, dd, q as int, r);
        nearest_is(n@, d@, k as nat, 0, m as nat);
        assert(n@ * 1 == n@);
        if k > 0 {
            assert(q >= 0x80_0000) by (nonlinear_arith)
                requires
                    n@ == q * dd + r,
                    r < dd,
                    2 * n@ >= dd * 0x100_0000,
                    dd > 0,
            ;
        }
    }
    held(m, k)
}

} // verus!
