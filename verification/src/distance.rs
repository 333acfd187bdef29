//! Distances as ordered integers.
//!
//! A distance is a single-precision number. Its bit pattern is read as sign and magnitude, which
//! gives an integer that orders exactly as the number does; both zeros have rank 0. A pattern that
//! stands for no number is ordered behind every number and lies within no threshold.

use vstd::arithmetic::power2::*;
use vstd::prelude::*;

verus! {

/// Magnitude of one binade: the width of the fraction field.
pub const BINADE: i32 = 0x80_0000;

/// Magnitude of infinity.
pub const INFINITE: i32 = 0x7f80_0000;

/// A distance, held as the sign-magnitude integer of its single-precision bit pattern.
#[derive(Clone, Copy, Debug, PartialEq, Eq, Structural)]
pub struct Distance {
    pub rank: i32,
}

/// The sign-magnitude reading of a bit pattern.
pub open spec fn rank_of_bits(bits: u32) -> int {
    if bits < 0x8000_0000 {
        bits as int
    } else {
        0x8000_0000 - bits
    }
}

/// The value of a finite magnitude in units of the smallest positive number.
pub open spec fn units(magnitude: int) -> int {
    let exponent = magnitude / 0x80_0000;
    let fraction = magnitude % 0x80_0000;
    if exponent == 0 {
        fraction
    } else {
        (0x80_0000 + fraction) * pow2((exponent - 1) as nat)
    }
}

/// The value of a distance in units of the smallest positive number.
pub open spec fn value(d: Distance) -> int {
    if d.rank >= 0 {
        units(d.rank as int)
    } else {
        -units(-d.rank)
    }
}

/// Half of a magnitude, rounded to the nearest representable one and to even between two.
pub open spec fn half_magnitude(m: int) -> int {
    if m >= 0x100_0000 {
        m - 0x80_0000
    } else if m % 4 == 3 {
        m / 2 + 1
    } else {
        m / 2
    }
}

impl Distance {
    /// A distance that stands for a number.
    pub open spec fn is_number(self) -> bool {
        -0x7f80_0000 <= self.rank <= 0x7f80_0000
    }

    /// A distance that stands for a finite number.
    pub open spec fn is_finite(self) -> bool {
        -0x7f80_0000 < self.rank < 0x7f80_0000
    }

    /// Where the distance stands in order: numbers as they compare, and behind all of them what is
    /// no number.
    pub open spec fn place(self) -> int {
        if self.is_number() {
            self.rank as int
        } else {
            0x7fff_ffff
        }
    }

    /// The distance lies within a threshold; only numbers do, and only within numbers.
    pub open spec fn within(self, threshold: Distance) -> bool {
        self.is_number() && threshold.is_number() && self.rank <= threshold.rank
    }

    /// Where the distance stands in order.
    pub fn order_place(self) -> (r: i32)
        ensures
            r == self.place(),
    {
        if -INFINITE <= self.rank && self.rank <= INFINITE {
            self.rank
        } else {
            0x7fff_ffff
        }
    }

    /// Whether the distance lies within a threshold.
    pub fn is_within(self, threshold: Distance) -> (r: bool)
        ensures
            r == self.within(threshold),
    {
        -INFINITE <= self.rank && threshold.rank <= INFINITE && self.rank <= threshold.rank
    }

    /// The distance with the given single-precision bit pattern.
    pub fn from_bits(bits: u32) -> (r: Self)
        ensures
            r.rank == rank_of_bits(bits),
    {
        if bits < 0x8000_0000 {
            Distance { rank: bits as i32 }
        } else {
            Distance { rank: -((bits - 0x8000_0000) as i32) }
        }
    }

    /// The bit pattern of the distance (of positive zero, for rank 0).
    pub fn to_bits(self) -> (r: u32)
        requires
            self.rank != i32::MIN,
        ensures
            rank_of_bits(r) == self.rank,
            self.rank == 0 ==> r == 0,
    {
        if self.rank >= 0 {
            self.rank as u32
        } else {
            0x8000_0000 + (-self.rank) as u32
        }
    }

    /// The distance zero.
    pub fn zero() -> (r: Self)
        ensures
            r.rank == 0,
    {
        Distance { rank: 0 }
    }

    /// Half of the distance: maps the cosine distances `[0, 2]` onto `[0, 1]`.
    pub fn halved(self) -> (r: Self)
        ensures
            r == half(self),
    {
        if self.rank >= INFINITE || self.rank <= -INFINITE {
            return self;
        }
        let m: i32 = if self.rank >= 0 {
            self.rank
        } else {
            -self.rank
        };
        let h: i32 = if m >= 2 * BINADE {
            m - BINADE
        } else if m % 4 == 3 {
            m / 2 + 1
        } else {
            m / 2
        };
        if self.rank >= 0 {
            Distance { rank: h }
        } else {
            Distance { rank: -h }
        }
    }
}

/// Half of a distance; a number too large to be finite stays as it is.
pub open spec fn half(d: Distance) -> Distance {
    if !d.is_finite() {
        d
    } else if d.rank >= 0 {
        Distance { rank: half_magnitude(d.rank as int) as i32 }
    } else {
        Distance { rank: (-half_magnitude(-d.rank)) as i32 }
    }
}

proof fn lemma_units_step(a: int, b: int)
    requires
        0 <= a < b,
    ensures
        0 <= units(a) < units(b),
{
    let ea = a / 0x80_0000;
    let eb = b / 0x80_0000;
    let fa = a % 0x80_0000;
    let fb = b % 0x80_0000;
    assert(ea <= eb);
    if ea > 0 {
        lemma_pow2_pos((ea - 1) as nat);
    }
    if eb > 0 {
        lemma_pow2_pos((eb - 1) as nat);
    }
    if ea == eb {
        if ea > 0 {
            let p = pow2((ea - 1) as nat);
            assert((0x80_0000 + fa) * p < (0x80_0000 + fb) * p) by (nonlinear_arith)
                requires
                    fa < fb,
                    p > 0,
            ;
            assert((0x80_0000 + fa) * p >= 0) by (nonlinear_arith)
                requires
                    fa >= 0,
                    p > 0,
            ;
        }
    } else if ea == 0 {
        let p = pow2((eb - 1) as nat);
        assert((0x80_0000 + fb) * p >= 0x80_0000) by (nonlinear_arith)
            requires
                fb >= 0,
                p >= 1,
        ;
    } else {
        let p = pow2((ea - 1) as nat);
        let q = pow2((eb - 1) as nat);
        lemma_pow2_adds((ea - 1) as nat, (eb - ea) as nat);
        lemma_pow2_unfold((eb - ea) as nat);
        lemma_pow2_pos((eb - ea - 1) as nat);
        let r = pow2((eb - ea) as nat);
        assert(q == p * r);
        assert(r >= 2);
        assert(q >= 2 * p) by (nonlinear_arith)
            requires
                q == p * r,
                r >= 2,
                p > 0,
        ;
        assert((0x80_0000 + fa) * p < 0x100_0000 * p) by (nonlinear_arith)
            requires
                fa < 0x80_0000,
                p > 0,
        ;
        assert((0x80_0000 + fb) * q >= 0x80_0000 * q) by (nonlinear_arith)
            requires
                fb >= 0,
                q > 0,
        ;
        assert((0x80_0000 + fa) * p >= 0) by (nonlinear_arith)
            requires
                fa >= 0,
                p > 0,
        ;
    }
}

proof fn lemma_units_small(m: int)
    requires
        0 <= m < 0x100_0000,
    ensures
        units(m) == m,
{
    lemma2_to64();
    if m >= 0x80_0000 {
        assert(m / 0x80_0000 == 1);
        assert(pow2(0) == 1);
        assert((0x80_0000 + m % 0x80_0000) * 1 == m);
    }
}

/// Ranks order distances as their values do.
pub proof fn ranks_order_as_values(a: Distance, b: Distance)
    ensures
        a.rank < b.rank <==> value(a) < value(b),
{
    let x = if a.rank >= 0 {
        a.rank as int
    } else {
        -a.rank
    };
    let y = if b.rank >= 0 {
        b.rank as int
    } else {
        -b.rank
    };
    if x < y {
        lemma_units_step(x, y);
    } else if y < x {
        lemma_units_step(y, x);
    }
    if x > 0 {
        lemma_units_step(0, x);
    }
    if y > 0 {
        lemma_units_step(0, y);
    }
}

proof fn lemma_half_units(m: int)
    requires
        0 <= m,
    ensures
        m >= 0x100_0000 ==> 2 * units(half_magnitude(m)) == units(m),
        -1 <= units(m) - 2 * units(half_magnitude(m)) <= 1,
{
    if m >= 0x100_0000 {
        let e = m / 0x80_0000;
        let f = m % 0x80_0000;
        let p = pow2((e - 2) as nat);
        assert(e >= 2);
        assert(pow2((e - 1) as nat) == 2 * p) by {
            lemma_pow2_unfold((e - 1) as nat);
        }
        assert((m - 0x80_0000) / 0x80_0000 == e - 1);
        assert((m - 0x80_0000) % 0x80_0000 == f);
        assert(units(m) == (0x80_0000 + f) * (2 * p));
        assert(units(m - 0x80_0000) == (0x80_0000 + f) * p);
        assert((0x80_0000 + f) * (2 * p) == 2 * ((0x80_0000 + f) * p)) by (nonlinear_arith);
    } else {
        lemma_units_small(m);
        lemma_units_small(half_magnitude(m));
    }
}

/// Halving a finite distance gives exactly half its value, but for the last unit of the smallest
/// numbers.
pub proof fn halving_halves_the_value(d: Distance)
    requires
        d.is_finite(),
    ensures
        d.rank >= 0x100_0000 || d.rank <= -0x100_0000 ==> 2 * value(half(d)) == value(d),
        -1 <= value(d) - 2 * value(half(d)) <= 1,
{
    let m = if d.rank >= 0 {
        d.rank as int
    } else {
        -d.rank
    };
    lemma_half_units(m);
    lemma_half_magnitude_monotone(m, m);
}

proof fn lemma_half_magnitude_monotone(a: int, b: int)
    requires
        0 <= a <= b <= 0x7f80_0000,
    ensures
        0 <= half_magnitude(a) <= half_magnitude(b) <= 0x7f00_0000,
{
    if a >= 0x100_0000 {
    } else if b >= 0x100_0000 {
        assert(half_magnitude(a) <= 0x80_0000);
    } else {
        assert(a % 4 == 3 && b % 4 != 3 ==> a < b);
    }
}

/// Halving keeps the order of distances.
pub proof fn halving_is_monotone(a: Distance, b: Distance)
    requires
        a.is_number(),
        b.is_number(),
        a.rank <= b.rank,
    ensures
        half(a).rank <= half(b).rank,
{
    if !a.is_finite() || !b.is_finite() {
        if a.is_finite() {
            if a.rank >= 0 {
                lemma_half_magnitude_monotone(0, a.rank as int);
            } else {
                lemma_half_magnitude_monotone(0, -a.rank);
            }
        } else if b.is_finite() {
            if b.rank >= 0 {
                lemma_half_magnitude_monotone(0, b.rank as int);
            } else {
                lemma_half_magnitude_monotone(0, -b.rank);
            }
        }
    } else if a.rank >= 0 {
        lemma_half_magnitude_monotone(a.rank as int, b.rank as int);
    } else if b.rank < 0 {
        lemma_half_magnitude_monotone(-b.rank, -a.rank);
    } else {
        lemma_half_magnitude_monotone(0, -a.rank);
        lemma_half_magnitude_monotone(0, b.rank as int);
    }
}

/// Halving maps raw cosine distances onto the reported scale: distances between 0 and 2 land
/// between 0 and 1, and 0, 1 and 2 become 0, one half and 1.
pub proof fn halving_maps_cosine_distances_onto_the_unit_scale(d: Distance)
    requires
        0 <= d.rank <= 0x4000_0000,
    ensures
        0 <= half(d).rank <= 0x3f80_0000,
        half(Distance { rank: 0 }).rank == 0,
        half(Distance { rank: 0x3f80_0000 }).rank == 0x3f00_0000,
        half(Distance { rank: 0x4000_0000 }).rank == 0x3f80_0000,
{
    halving_is_monotone(Distance { rank: 0 }, d);
    halving_is_monotone(d, Distance { rank: 0x4000_0000 });
}

/// A number lies within a threshold that is one exactly when its value is no larger; what is no
/// number lies within none and admits none.
pub proof fn within_means_no_larger(d: Distance, threshold: Distance)
    ensures
        d.is_number() && threshold.is_number() ==> (d.within(threshold) <==> value(d) <= value(
            threshold,
        )),
        d.rank > 0x7f80_0000 || d.rank < -0x7f80_0000 ==> !d.within(threshold),
        threshold.rank > 0x7f80_0000 || threshold.rank < -0x7f80_0000 ==> !d.within(threshold),
{
    ranks_order_as_values(threshold, d);
}

/// Places order numbers as their values do, with what is no number behind all of them.
pub proof fn places_order_as_values(a: Distance, b: Distance)
    ensures
        -0x7f80_0000 <= a.rank <= 0x7f80_0000 && -0x7f80_0000 <= b.rank <= 0x7f80_0000 ==> (
        a.place() < b.place() <==> value(a) < value(b)),
        -0x7f80_0000 <= a.rank <= 0x7f80_0000 && (b.rank > 0x7f80_0000 || b.rank < -0x7f80_0000)
            ==> a.place() < b.place(),
        (a.rank > 0x7f80_0000 || a.rank < -0x7f80_0000) && (b.rank > 0x7f80_0000 || b.rank
            < -0x7f80_0000) ==> a.place() == b.place(),
{
    ranks_order_as_values(a, b);
}

/// Setting the sign bit of a pattern negates the value, and the bits without it are the magnitude.
pub proof fn the_sign_bit_negates(bits: u32, d: Distance, e: Distance)
    requires
        bits < 0x8000_0000,
        d.rank == rank_of_bits(bits),
        e.rank == rank_of_bits((bits + 0x8000_0000) as u32),
    ensures
        d.rank == bits,
        value(d) >= 0,
        value(e) == -value(d),
{
    if bits > 0 {
        lemma_units_step(0, bits as int);
    }
}


/// Where a half cannot be exact, it is the even neighbour; zero is its own half, and halves are
/// exact for even values.
pub proof fn inexact_halves_are_even(d: Distance)
    requires
        d.is_finite(),
    ensures
        value(d) % 2 == 0 ==> 2 * value(half(d)) == value(d),
        value(d) % 2 != 0 ==> value(half(d)) % 2 == 0,
{
    halving_halves_the_value(d);
    let m = if d.rank >= 0 {
        d.rank as int
    } else {
        -d.rank
    };
    if m < 0x100_0000 {
        lemma_small_units(m);
        lemma_small_units(half_magnitude(m));
    }
}

proof fn lemma_small_units(m: int)
    requires
        0 <= m < 0x100_0000,
    ensures
        units(m) == m,
{
    lemma2_to64();
    if m >= 0x80_0000 {
        assert(m / 0x80_0000 == 1);
        assert(m % 0x80_0000 == m - 0x80_0000);
        assert((0x80_0000 + (m - 0x80_0000)) * 1 == m);
    }
}

} // verus!
