//! Colour palettes: strictly sorted stop lists over `[0, SCALE]` with
//! linear channel interpolation between neighbouring stops, and the
//! repeat transform that compresses the stop sequence into cyclic bands.

use crate::fixed::SCALE;
use vstd::arithmetic::div_mod::{
    lemma_basic_div, lemma_div_by_multiple, lemma_div_is_ordered, lemma_div_plus_one,
    lemma_div_pos_is_pos, lemma_fundamental_div_mod, lemma_fundamental_div_mod_converse,
    lemma_hoist_over_denominator, lemma_mod_bound, lemma_multiply_divide_lt, lemma_small_mod,
};
use vstd::arithmetic::mul::{
    lemma_mul_basics, lemma_mul_inequality, lemma_mul_is_commutative,
    lemma_mul_is_distributive_add_other_way, lemma_mul_is_distributive_sub_other_way,
    lemma_mul_nonnegative, lemma_mul_unary_negation,
};
use vstd::prelude::*;

verus! {

/// An 8-bit RGB triple.
#[derive(Clone, Copy, Debug, PartialEq, Eq, Structural)]
pub struct Rgb(pub u8, pub u8, pub u8);

/// One palette stop: a fixed-point position in `[0, SCALE]` and a colour.
#[derive(Clone, Copy, Debug, PartialEq, Eq, Structural)]
pub struct ConfigRGB {
    pub value: u64,
    pub red: u8,
    pub green: u8,
    pub blue: u8,
}

/// Why a stop list cannot form a palette.
#[derive(Clone, Copy, Debug, PartialEq, Eq, Structural)]
pub enum PaletteError {
    /// Fewer than two stops were given.
    TooFewStops,
    /// After sorting, the stops do not span exactly `[0, SCALE]`.
    BadEndpoints,
    /// Two stops sit at the same position.
    DuplicateStops,
}

/// Non-decreasing stop positions.
pub open spec fn sorted(s: Seq<ConfigRGB>) -> bool {
    forall|i: int, j: int| 0 <= i <= j < s.len() ==> #[trigger] s[i].value <= #[trigger] s[j].value
}

/// Strictly increasing stop positions: no two stops share a value.
pub open spec fn strictly_sorted(s: Seq<ConfigRGB>) -> bool {
    forall|i: int, j: int| 0 <= i < j < s.len() ==> #[trigger] s[i].value < #[trigger] s[j].value
}

/// No two stops share a position, in any order.
pub open spec fn distinct_values(s: Seq<ConfigRGB>) -> bool {
    forall|i: int, j: int| 0 <= i < j < s.len() ==> #[trigger] s[i].value != #[trigger] s[j].value
}

/// The stop positions reach 0 and `SCALE` and never exceed `SCALE`.
pub open spec fn spans_unit(s: Seq<ConfigRGB>) -> bool {
    &&& (exists|i: int| 0 <= i < s.len() && s[i].value == 0)
    &&& (exists|i: int| 0 <= i < s.len() && #[trigger] s[i].value == SCALE)
    &&& (forall|i: int| 0 <= i < s.len() ==> #[trigger] s[i].value <= SCALE)
}

/// Consecutive stop positions at least `n` apart.  Compressing such a
/// palette into bands of width `1/n` keeps distinct stops distinct.
pub open spec fn gaps_at_least(s: Seq<ConfigRGB>, n: int) -> bool {
    forall|j: int| 0 <= j < s.len() - 1 ==> #[trigger] s[j + 1].value >= s[j].value + n
}

/// Interpolation of one colour channel from `lo` toward `hi` by a
/// fixed-point blend factor: the floor of the interpolated value, exactly
/// as 8-bit truncation of the real interpolation rounds it.
pub open spec fn chan_lerp(lo: int, hi: int, frac: int) -> int {
    (lo * SCALE + (hi - lo) * frac) / (SCALE as int)
}

/// The blend factor of `v` between stop positions `v1 < v2`.
pub open spec fn stop_frac(v1: int, v2: int, v: int) -> int {
    (v - v1) * (SCALE as int) / (v2 - v1)
}

/// Channel-wise interpolation between two stops.
pub open spec fn lerp_spec(a: ConfigRGB, b: ConfigRGB, v: int) -> Rgb {
    let f = stop_frac(a.value as int, b.value as int, v);
    Rgb(
        chan_lerp(a.red as int, b.red as int, f) as u8,
        chan_lerp(a.green as int, b.green as int, f) as u8,
        chan_lerp(a.blue as int, b.blue as int, f) as u8,
    )
}

/// The first index whose stop position is at least `v` (the length if
/// there is none).
pub open spec fn find_ge(s: Seq<ConfigRGB>, v: int) -> int
    decreases s.len(),
{
    if s.len() == 0 {
        0
    } else if s[0].value >= v {
        0
    } else {
        1 + find_ge(s.drop_first(), v)
    }
}

/// The colour a palette with stop list `s` assigns to `v`: values above
/// `SCALE` clamp to the last stop, an exact stop position returns its own
/// colour, and anything else interpolates between the bracketing stops.
pub open spec fn lookup_spec(s: Seq<ConfigRGB>, v: u64) -> Rgb {
    if v > SCALE {
        s.last().color()
    } else {
        let i = find_ge(s, v as int);
        if s[i].value == v {
            s[i].color()
        } else {
            lerp_spec(s[i - 1], s[i], v as int)
        }
    }
}

/// The scaled position of stop `idx` of a repeated palette, before the
/// final division by the repeat count: each band contributes a full
/// `SCALE`, and the stop keeps its original offset within the band.
pub open spec fn band_value(s: Seq<ConfigRGB>, idx: int) -> int {
    (idx / (s.len() - 1)) * (SCALE as int) + s[idx % (s.len() - 1)].value
}

/// The stop sequence that `repeat(n)` produces from `s`: `n` consecutive
/// bands of width `1/n`, each holding a copy of the stops short of the
/// last at their original relative positions, with the original last
/// stop re-appended.  With `n = 1` this is `s` itself.
pub open spec fn repeat_stops(s: Seq<ConfigRGB>, n: int) -> Seq<ConfigRGB> {
    let m = (s.len() - 1) * n;
    Seq::new(
        (m + 1) as nat,
        |idx: int|
            if idx < m {
                ConfigRGB {
                    value: (band_value(s, idx) / n) as u64,
                    red: s[idx % (s.len() - 1)].red,
                    green: s[idx % (s.len() - 1)].green,
                    blue: s[idx % (s.len() - 1)].blue,
                }
            } else {
                s[s.len() - 1]
            },
    )
}

impl ConfigRGB {
    /// The stop's colour.
    pub open spec fn color(self) -> Rgb {
        Rgb(self.red, self.green, self.blue)
    }

    pub fn to_rgb(&self) -> (r: Rgb)
        ensures
            r == self.color(),
    {
        Rgb(self.red, self.green, self.blue)
    }

    /// Channel-wise interpolation toward `o` at position `value`.  Each
    /// resulting channel lies between the two stops' channels.
    pub fn lerp(&self, o: &Self, value: u64) -> (r: Rgb)
        requires
            self.value <= value <= o.value,
            self.value < o.value,
            o.value <= SCALE,
        ensures
            r == lerp_spec(*self, *o, value as int),
            chan_between(self.red as int, o.red as int, r.0 as int),
            chan_between(self.green as int, o.green as int, r.1 as int),
            chan_between(self.blue as int, o.blue as int, r.2 as int),
    {
        let span: u64 = o.value - self.value;
        proof {
            lemma_mul_inequality((value - self.value) as int, span as int, SCALE as int);
            lemma_div_is_ordered(
                ((value - self.value) as int) * (SCALE as int),
                (span as int) * (SCALE as int),
                span as int,
            );
            lemma_div_by_multiple(SCALE as int, span as int);
            lemma_mul_is_commutative(SCALE as int, span as int);
            lemma_div_pos_is_pos(((value - self.value) as int) * (SCALE as int), span as int);
        }
        let frac: u64 = (value - self.value) * SCALE / span;
        let red = lerp_channel(self.red, o.red, frac);
        let green = lerp_channel(self.green, o.green, frac);
        let blue = lerp_channel(self.blue, o.blue, frac);
        Rgb(red, green, blue)
    }
}

/// `c` lies between `lo` and `hi`, whichever order they are in.
pub open spec fn chan_between(lo: int, hi: int, c: int) -> bool {
    if hi >= lo {
        lo <= c <= hi
    } else {
        hi <= c <= lo
    }
}

/// One channel of the interpolation, in executable form: a rising
/// channel adds the floored scaled offset, a falling channel subtracts
/// its ceiling, so both directions floor the interpolated value.
fn lerp_channel(lo: u8, hi: u8, frac: u64) -> (r: u8)
    requires
        frac <= SCALE,
    ensures
        r == chan_lerp(lo as int, hi as int, frac as int),
        chan_between(lo as int, hi as int, r as int),
{
    if hi >= lo {
        let span: u64 = (hi - lo) as u64;
        proof {
            lemma_chan_step_bounds(span as int, frac as int);
            lemma_hoist_over_denominator(
                (span as int) * (frac as int),
                lo as int,
                SCALE as nat,
            );
            assert((lo as int) * (SCALE as int) == (SCALE as int) * (lo as int));
        }
        lo + ((span * frac / SCALE) as u8)
    } else {
        let span: u64 = (lo - hi) as u64;
        proof {
            lemma_mul_nonnegative(span as int, frac as int);
            lemma_chan_step_bounds(span as int, frac as int);
            lemma_falling_channel(lo as int, span as int, (span as int) * (frac as int));
            lemma_mul_unary_negation(span as int, frac as int);
            assert((hi as int - lo as int) * (frac as int) == -((span as int) * (frac as int)))
                by (nonlinear_arith)
                requires
                    span as int == lo as int - hi as int,
            ;
        }
        let off: u64 = (span * frac + (SCALE - 1)) / SCALE;
        lo - (off as u8)
    }
}

/// The scaled channel offset stays within the span.
proof fn lemma_chan_step_bounds(span: int, frac: int)
    requires
        0 <= span <= 255,
        0 <= frac <= SCALE,
    ensures
        0 <= span * frac / (SCALE as int) <= span,
        span * frac <= span * SCALE,
{
    lemma_mul_inequality(frac, SCALE as int, span);
    lemma_mul_is_commutative(span, frac);
    lemma_mul_is_commutative(span, SCALE as int);
    lemma_div_is_ordered(span * frac, span * (SCALE as int), SCALE as int);
    lemma_div_by_multiple(span, SCALE as int);
    lemma_div_pos_is_pos(span * frac, SCALE as int);
}

/// Truncating a falling channel rounds the offset up: subtracting the
/// ceiling of the scaled offset is the floor of the interpolated value.
proof fn lemma_falling_channel(lo: int, span: int, x: int)
    requires
        0 <= span <= lo,
        0 <= x <= span * SCALE,
    ensures
        0 <= (x + (SCALE - 1)) / (SCALE as int) <= span,
        lo - (x + (SCALE - 1)) / (SCALE as int) == (lo * SCALE - x) / (SCALE as int),
{
    lemma_fundamental_div_mod(x, SCALE as int);
    lemma_mod_bound(x, SCALE as int);
    let q = x / (SCALE as int);
    let r = x % (SCALE as int);
    assert(x == q * (SCALE as int) + r) by {
        assert((SCALE as int) * q == q * (SCALE as int));
    }
    assert(q <= span) by {
        lemma_div_is_ordered(x, span * (SCALE as int), SCALE as int);
        lemma_div_by_multiple(span, SCALE as int);
    }
    lemma_div_pos_is_pos(x, SCALE as int);
    lemma_mul_is_distributive_sub_other_way(SCALE as int, lo, q);
    if r == 0 {
        lemma_fundamental_div_mod_converse(x + (SCALE - 1), SCALE as int, q, SCALE - 1);
        lemma_fundamental_div_mod_converse(lo * SCALE - x, SCALE as int, lo - q, 0);
    } else {
        assert(q + 1 <= span) by {
            if q >= span {
                assert(x >= span * (SCALE as int) + r) by {
                    lemma_mul_inequality(span, q, SCALE as int);
                }
            }
        }
        lemma_mul_is_distributive_add_other_way(SCALE as int, q, 1);
        lemma_mul_basics(SCALE as int);
        lemma_fundamental_div_mod_converse(x + (SCALE - 1), SCALE as int, q + 1, r - 1);
        lemma_mul_is_distributive_sub_other_way(SCALE as int, lo - q, 1);
        lemma_fundamental_div_mod_converse(
            lo * SCALE - x,
            SCALE as int,
            lo - q - 1,
            SCALE as int - r,
        );
    }
}

/// A strictly sorted list of colour stops spanning exactly `[0, SCALE]`.
#[derive(Clone, Debug)]
pub struct ColorPalette {
    pub color_vals: Vec<ConfigRGB>,
}

impl ColorPalette {
    /// The stop sequence.
    pub open spec fn stops(self) -> Seq<ConfigRGB> {
        self.color_vals@
    }

    /// Palette invariant: at least two stops, strictly sorted by
    /// position, with the first at 0 and the last at `SCALE`.
    pub open spec fn wf(self) -> bool {
        &&& self.stops().len() >= 2
        &&& strictly_sorted(self.stops())
        &&& self.stops()[0].value == 0
        &&& self.stops().last().value == SCALE
    }

    /// Build a palette: sort the stops by position and demand at least
    /// two of them, at pairwise distinct positions spanning exactly
    /// `[0, SCALE]`.  Succeeds if and only if the input has two or more
    /// stops, one at 0, one at `SCALE`, none above `SCALE`, and no two
    /// at the same place.
    pub fn new(color_vals: Vec<ConfigRGB>) -> (r: Result<ColorPalette, PaletteError>)
        ensures
            match r {
                Ok(p) => {
                    &&& p.wf()
                    &&& p.stops().len() == color_vals@.len()
                    &&& p.stops().to_multiset() == color_vals@.to_multiset()
                },
                Err(e) => e == if color_vals@.len() < 2 {
                    PaletteError::TooFewStops
                } else if !spans_unit(color_vals@) {
                    PaletteError::BadEndpoints
                } else {
                    PaletteError::DuplicateStops
                },
            },
            r is Ok <==> {
                &&& color_vals@.len() >= 2
                &&& spans_unit(color_vals@)
                &&& distinct_values(color_vals@)
            },
    {
        broadcast use vstd::seq_lib::group_to_multiset_ensures;

        let ghost ov = color_vals@;
        if color_vals.len() < 2 {
            return Err(PaletteError::TooFewStops);
        }
        let sorted_colors = sort_stops(color_vals);
        let ghost sv = sorted_colors@;
        let first = sorted_colors[0].value;
        let last = sorted_colors[sorted_colors.len() - 1].value;
        proof {
            assert forall|i: int| 0 <= i < ov.len() implies sv.contains(ov[i]) by {
                assert(ov.contains(ov[i]));
                assert(ov.to_multiset().count(ov[i]) > 0);
                assert(sv.to_multiset().count(ov[i]) > 0);
            }
            assert forall|i: int| 0 <= i < sv.len() implies ov.contains(sv[i]) by {
                assert(sv.contains(sv[i]));
                assert(sv.to_multiset().count(sv[i]) > 0);
                assert(ov.to_multiset().count(sv[i]) > 0);
            }
        }
        if first != 0 || last != SCALE {
            proof {
                if first != 0 {
                    assert forall|i: int|
                        0 <= i < ov.len() implies #[trigger] ov[i].value != 0 by {
                        if ov[i].value == 0 {
                            let j = choose|j: int| 0 <= j < sv.len() && sv[j] == ov[i];
                            assert(sv[0].value <= sv[j].value);
                        }
                    }
                } else {
                    if (forall|i: int|
                        0 <= i < ov.len() ==> #[trigger] ov[i].value <= SCALE) && (exists|i: int|
                        0 <= i < ov.len() && #[trigger] ov[i].value == SCALE) {
                        let w = choose|i: int| 0 <= i < ov.len() && #[trigger] ov[i].value == SCALE;
                        let j = choose|j: int| 0 <= j < sv.len() && sv[j] == ov[w];
                        assert(sv[j].value <= sv[sv.len() - 1].value);
                        assert forall|i: int|
                            0 <= i < sv.len() implies #[trigger] sv[i].value <= SCALE by {
                            let q = choose|q: int| 0 <= q < ov.len() && ov[q] == sv[i];
                        }
                        assert(false);
                    }
                }
            }
            return Err(PaletteError::BadEndpoints);
        }
        proof {
            assert(ov.contains(sv[0]));
            assert(ov.contains(sv[sv.len() - 1]));
            assert forall|i: int| 0 <= i < ov.len() implies #[trigger] ov[i].value <= SCALE by {
                let j = choose|j: int| 0 <= j < sv.len() && sv[j] == ov[i];
                assert(sv[j].value <= sv[sv.len() - 1].value);
            }
            assert(spans_unit(ov));
        }
        // Reject stops that share a position: the palette must ascend
        // strictly.
        let mut has_dup = false;
        let mut idx: usize = 1;
        while idx < sorted_colors.len()
            invariant
                1 <= idx <= sv.len(),
                sv == sorted_colors@,
                sv.len() >= 2,
                has_dup <==> exists|k: int|
                    1 <= k < idx && #[trigger] sv[k].value == sv[k - 1].value,
            decreases sv.len() - idx,
        {
            if sorted_colors[idx - 1].value == sorted_colors[idx].value {
                has_dup = true;
                proof {
                    assert(sv[idx as int].value == sv[idx as int - 1].value);
                }
            }
            idx = idx + 1;
        }
        if has_dup {
            proof {
                let k = choose|k: int| 1 <= k < sv.len() && #[trigger] sv[k].value == sv[k - 1].value;
                if sv[k] == sv[k - 1] {
                    lemma_dup_gives_count_two(sv, k - 1, k);
                    assert(ov.to_multiset().count(sv[k]) >= 2);
                    lemma_count_two_gives_dup(ov, sv[k]);
                    let (a, b) = choose|a: int, b: int|
                        0 <= a < b < ov.len() && ov[a] == sv[k] && ov[b] == sv[k];
                    assert(ov[a].value == ov[b].value);
                } else {
                    assert(ov.contains(sv[k - 1]));
                    assert(ov.contains(sv[k]));
                    let a = choose|a: int| 0 <= a < ov.len() && ov[a] == sv[k - 1];
                    let b = choose|b: int| 0 <= b < ov.len() && ov[b] == sv[k];
                    assert(a != b);
                    if a < b {
                        assert(ov[a].value == ov[b].value);
                    } else {
                        assert(ov[b].value == ov[a].value);
                    }
                }
                assert(!distinct_values(ov));
            }
            return Err(PaletteError::DuplicateStops);
        }
        proof {
            // No adjacent duplicates in a sorted list means strict ascent.
            assert forall|i: int, j: int|
                0 <= i < j < sv.len() implies #[trigger] sv[i].value < #[trigger] sv[j].value by {
                assert(sv[i].value <= sv[i + 1].value);
                assert(sv[i + 1].value <= sv[j].value);
                if sv[i].value == sv[j].value {
                    assert(sv[i + 1].value == sv[i].value);
                    assert(false);
                }
            }
            // Strict ascent of the permutation means the input positions
            // were pairwise distinct.
            assert forall|i: int, j: int|
                0 <= i < j < ov.len() implies #[trigger] ov[i].value != #[trigger] ov[j].value by {
                if ov[i].value == ov[j].value {
                    if ov[i] == ov[j] {
                        lemma_dup_gives_count_two(ov, i, j);
                        assert(sv.to_multiset().count(ov[i]) >= 2);
                        lemma_count_two_gives_dup(sv, ov[i]);
                        let (a, b) = choose|a: int, b: int|
                            0 <= a < b < sv.len() && sv[a] == ov[i] && sv[b] == ov[i];
                        assert(sv[a].value < sv[b].value);
                        assert(false);
                    } else {
                        let a = choose|a: int| 0 <= a < sv.len() && sv[a] == ov[i];
                        let b = choose|b: int| 0 <= b < sv.len() && sv[b] == ov[j];
                        assert(a != b);
                        if a < b {
                            assert(sv[a].value < sv[b].value);
                        } else {
                            assert(sv[b].value < sv[a].value);
                        }
                        assert(false);
                    }
                }
            }
        }
        Ok(ColorPalette { color_vals: sorted_colors })
    }

    /// The colour at a fixed-point position.  Values above `SCALE` clamp
    /// to the last stop; an exact stop position returns its colour; any
    /// other position interpolates between the bracketing stops, found by
    /// binary search.
    pub fn value(&self, value: u64) -> (r: Rgb)
        requires
            self.wf(),
        ensures
            r == lookup_spec(self.stops(), value),
    {
        let s = &self.color_vals;
        if value > SCALE {
            return s[s.len() - 1].to_rgb();
        }
        proof {
            lemma_strict_implies_sorted(s@);
        }
        let mut lo: usize = 0;
        let mut hi: usize = s.len();
        while lo < hi
            invariant
                0 <= lo <= hi <= s@.len(),
                sorted(s@),
                s@.len() >= 2,
                s@[0].value == 0,
                s@.last().value == SCALE,
                value <= SCALE,
                forall|j: int| 0 <= j < lo ==> #[trigger] s@[j].value < value,
                forall|j: int| hi <= j < s@.len() ==> #[trigger] s@[j].value >= value,
            decreases hi - lo,
        {
            let mid = lo + (hi - lo) / 2;
            if s[mid].value < value {
                proof {
                    assert forall|j: int| 0 <= j < mid + 1 implies #[trigger] s@[j].value
                        < value by {
                        assert(s@[j].value <= s@[mid as int].value);
                    }
                }
                lo = mid + 1;
            } else {
                proof {
                    assert forall|j: int| mid <= j < s@.len() implies #[trigger] s@[j].value
                        >= value by {
                        assert(s@[mid as int].value <= s@[j].value);
                    }
                }
                hi = mid;
            }
        }
        proof {
            assert(lo < s@.len()) by {
                assert(s@[s@.len() - 1].value >= value || lo <= s@.len() - 1);
                if lo == s@.len() {
                    assert(s@[s@.len() - 1].value < value);
                }
            }
            lemma_find_ge_characterises(s@, value as int, lo as int);
        }
        if s[lo].value == value {
            s[lo].to_rgb()
        } else {
            proof {
                if lo == 0 {
                    assert(s@[0].value == 0);
                }
            }
            let a = s[lo - 1];
            let b = s[lo];
            a.lerp(&b, value)
        }
    }

    /// Repeat the palette `n` times: the stops short of the last are
    /// compressed into `n` consecutive bands of width `1/n` spanning
    /// `[0, SCALE]`, each band keeping the original stops' relative
    /// positions and colours, and the original last stop is re-appended,
    /// so repeating once changes nothing.  A palette of at most two stops
    /// is returned unchanged.  Consecutive stops must sit at least `n`
    /// apart, so that the compressed stops remain distinct.
    pub fn repeat(self, n: usize) -> (r: ColorPalette)
        requires
            self.wf(),
            1 <= n,
            self.stops().len() > 2 ==> (self.stops().len() - 1) * n <= SCALE,
            self.stops().len() > 2 ==> gaps_at_least(self.stops(), n as int),
        ensures
            r.wf(),
            self.stops().len() <= 2 ==> r == self,
            self.stops().len() > 2 ==> r.stops() == repeat_stops(self.stops(), n as int),
    {
        let len = self.color_vals.len();
        if len <= 2 {
            return self;
        }
        let m: usize = (len - 1) * n;
        proof {
            lemma_mul_inequality(1, len as int - 1, n as int);
            assert(n <= m);
        }
        let mut new_vals: Vec<ConfigRGB> = Vec::new();
        let mut i: usize = 0;
        while i < n
            invariant
                i <= n,
                1 <= n <= m,
                len == self.stops().len(),
                3 <= len,
                m == (len - 1) * n,
                m <= SCALE,
                self.wf(),
                new_vals@.len() == i * (len - 1),
                forall|idx: int|
                    0 <= idx < i * (len - 1) ==> #[trigger] new_vals@[idx] == repeat_stops(
                        self.stops(),
                        n as int,
                    )[idx],
            decreases n - i,
        {
            let mut j: usize = 0;
            proof {
                lemma_mul_inequality(i as int, n as int - 1, len as int - 1);
                lemma_mul_is_commutative(i as int, len as int - 1);
                lemma_mul_is_commutative(n as int - 1, len as int - 1);
                lemma_mul_is_distributive_sub_other_way(len as int - 1, n as int, 1);
            }
            while j < len - 1
                invariant
                    j <= len - 1,
                    i < n,
                    1 <= n <= m,
                    len == self.stops().len(),
                    3 <= len,
                    m == (len - 1) * n,
                    m <= SCALE,
                    self.wf(),
                    i * (len - 1) + (len - 1) <= m,
                    new_vals@.len() == i * (len - 1) + j,
                    forall|idx: int|
                        0 <= idx < i * (len - 1) + j ==> #[trigger] new_vals@[idx] == repeat_stops(
                            self.stops(),
                            n as int,
                        )[idx],
                decreases len - 1 - j,
            {
                let idx: usize = i * (len - 1) + j;
                let stop = self.color_vals[j];
                proof {
                    lemma_fundamental_div_mod_converse(
                        idx as int,
                        len as int - 1,
                        i as int,
                        j as int,
                    );
                    assert(stop.value < SCALE) by {
                        assert(self.stops()[j as int].value < self.stops()[len as int - 1].value);
                    }
                    assert(band_value(self.stops(), idx as int) == (i as int) * (SCALE as int)
                        + stop.value);
                    lemma_mul_inequality(i as int, n as int, SCALE as int);
                }
                let scaled: u64 = (i as u64) * SCALE + stop.value;
                let value: u64 = scaled / (n as u64);
                new_vals.push(
                    ConfigRGB { value, red: stop.red, green: stop.green, blue: stop.blue },
                );
                j = j + 1;
            }
            proof {
                assert((i as int + 1) * (len as int - 1) == i as int * (len as int - 1) + (
                len as int - 1)) by (nonlinear_arith);
            }
            i = i + 1;
        }
        proof {
            lemma_mul_is_commutative(n as int, len as int - 1);
        }
        new_vals.push(self.color_vals[len - 1]);
        let r = ColorPalette { color_vals: new_vals };
        proof {
            assert(r.stops() =~= repeat_stops(self.stops(), n as int));
            lemma_repeat_stops_wf(self.stops(), n as int);
        }
        r
    }
}

/// Insertion sort on stop positions.
fn sort_stops(stops: Vec<ConfigRGB>) -> (r: Vec<ConfigRGB>)
    ensures
        sorted(r@),
        r@.to_multiset() == stops@.to_multiset(),
        r@.len() == stops@.len(),
{
    broadcast use vstd::seq_lib::group_to_multiset_ensures;

    let mut out: Vec<ConfigRGB> = Vec::new();
    let mut i: usize = 0;
    while i < stops.len()
        invariant
            i <= stops@.len(),
            out@.len() == i,
            sorted(out@),
            out@.to_multiset() == stops@.take(i as int).to_multiset(),
        decreases stops@.len() - i,
    {
        let item = stops[i];
        let mut pos: usize = 0;
        while pos < out.len() && out[pos].value <= item.value
            invariant
                pos <= out@.len(),
                forall|j: int| 0 <= j < pos ==> #[trigger] out@[j].value <= item.value,
                sorted(out@),
            decreases out@.len() - pos,
        {
            pos = pos + 1;
        }
        proof {
            assert forall|j: int| pos <= j < out@.len() implies #[trigger] out@[j].value
                > item.value by {
                assert(out@[pos as int].value <= out@[j].value);
            }
        }
        let ghost prev = out@;
        out.insert(pos, item);
        proof {
            vstd::seq_lib::to_multiset_insert(prev, pos as int, item);
            vstd::seq_lib::to_multiset_build(stops@.take(i as int), item);
            assert(out@.to_multiset() =~= prev.to_multiset().insert(item));
            assert(stops@.take(i as int + 1) =~= stops@.take(i as int).push(item));
            assert(stops@.take(i as int).push(item).to_multiset() =~= stops@.take(
                i as int,
            ).to_multiset().insert(item));
            assert(out@.to_multiset() =~= stops@.take(i as int + 1).to_multiset());
        }
        i = i + 1;
    }
    proof {
        assert(stops@.take(stops@.len() as int) =~= stops@);
    }
    out
}

/// Strict ascent is in particular non-strict ascent.
proof fn lemma_strict_implies_sorted(s: Seq<ConfigRGB>)
    requires
        strictly_sorted(s),
    ensures
        sorted(s),
{
    assert forall|i: int, j: int|
        0 <= i <= j < s.len() implies #[trigger] s[i].value <= #[trigger] s[j].value by {
        if i < j {
            assert(s[i].value < s[j].value);
        }
    }
}

/// Two equal elements at distinct indices give the multiset a count of
/// at least two.
proof fn lemma_dup_gives_count_two(s: Seq<ConfigRGB>, i: int, j: int)
    requires
        0 <= i < j < s.len(),
        s[i] == s[j],
    ensures
        s.to_multiset().count(s[i]) >= 2,
{
    broadcast use vstd::multiset::group_multiset_axioms;

    let x = s[i];
    let t = s.remove(i);
    vstd::seq_lib::to_multiset_remove(s, i);
    assert(t[j - 1] == x);
    assert(t.contains(x));
    vstd::seq_lib::to_multiset_contains(t, x);
    assert(t.to_multiset().count(x) > 0);
}

/// A multiset count of at least two yields two distinct indices holding
/// the element.
proof fn lemma_count_two_gives_dup(s: Seq<ConfigRGB>, x: ConfigRGB)
    requires
        s.to_multiset().count(x) >= 2,
    ensures
        exists|i: int, j: int| 0 <= i < j < s.len() && s[i] == x && s[j] == x,
{
    broadcast use vstd::multiset::group_multiset_axioms;

    vstd::seq_lib::to_multiset_contains(s, x);
    assert(s.contains(x));
    let i = choose|i: int| 0 <= i < s.len() && s[i] == x;
    let t = s.remove(i);
    vstd::seq_lib::to_multiset_remove(s, i);
    assert(t.to_multiset().count(x) > 0);
    vstd::seq_lib::to_multiset_contains(t, x);
    assert(t.contains(x));
    let k = choose|k: int| 0 <= k < t.len() && t[k] == x;
    if k < i {
        assert(s[k] == x);
        assert(0 <= k < i < s.len() && s[k] == x && s[i] == x);
    } else {
        assert(s[k + 1] == x);
        assert(0 <= i < k + 1 < s.len() && s[i] == x && s[k + 1] == x);
    }
}

/// Binary search agrees with [`find_ge`]: an index below which all stops
/// sit strictly below `v`, and whose own stop reaches `v`, is the first
/// index at or above `v`.
proof fn lemma_find_ge_characterises(s: Seq<ConfigRGB>, v: int, i: int)
    requires
        0 <= i < s.len(),
        forall|j: int| 0 <= j < i ==> #[trigger] s[j].value < v,
        s[i].value >= v,
    ensures
        find_ge(s, v) == i,
    decreases i,
{
    if s[0].value >= v {
        assert(i == 0);
    } else {
        assert(i >= 1);
        lemma_find_ge_characterises(s.drop_first(), v, i - 1);
    }
}

/// The scaled position of a repeated stop advances by at least `n` from
/// one stop to the next: within a band by the gap hypothesis, across a
/// band boundary because the last gap reaches `SCALE`.
proof fn lemma_band_value_step(s: Seq<ConfigRGB>, n: int, idx: int)
    requires
        s.len() >= 2,
        n >= 1,
        strictly_sorted(s),
        gaps_at_least(s, n),
        s[0].value == 0,
        s.last().value == SCALE,
        0 <= idx,
        idx + 1 < (s.len() - 1) * n,
    ensures
        band_value(s, idx) + n <= band_value(s, idx + 1),
{
    let w = s.len() - 1;
    lemma_fundamental_div_mod(idx, w as int);
    lemma_mod_bound(idx, w as int);
    lemma_div_pos_is_pos(idx, w as int);
    let b = idx / (w as int);
    let j = idx % (w as int);
    if j + 1 < w {
        lemma_fundamental_div_mod_converse(idx + 1, w as int, b, j + 1);
        assert(s[j + 1].value >= s[j].value + n);
    } else {
        assert(idx + 1 == (b + 1) * (w as int)) by {
            lemma_mul_is_distributive_add_other_way(w as int, b, 1);
            lemma_mul_basics(w as int);
        }
        lemma_fundamental_div_mod_converse(idx + 1, w as int, b + 1, 0);
        assert(s[(w as int - 1) + 1].value >= s[w as int - 1].value + n);
        assert((b + 1) * (SCALE as int) == b * (SCALE as int) + SCALE) by {
            lemma_mul_is_distributive_add_other_way(SCALE as int, b, 1);
            lemma_mul_basics(SCALE as int);
        }
    }
}

/// Compressed positions are strictly increasing across the repeated
/// sequence.
proof fn lemma_repeat_value_strict(s: Seq<ConfigRGB>, n: int, i: int, j: int)
    requires
        s.len() >= 2,
        n >= 1,
        strictly_sorted(s),
        gaps_at_least(s, n),
        s[0].value == 0,
        s.last().value == SCALE,
        0 <= i < j < (s.len() - 1) * n,
    ensures
        band_value(s, i) / n < band_value(s, j) / n,
    decreases j - i,
{
    if j == i + 1 {
        lemma_band_value_step(s, n, i);
        lemma_div_is_ordered(band_value(s, i) + n, band_value(s, j), n);
        lemma_div_plus_one(band_value(s, i), n);
    } else {
        lemma_repeat_value_strict(s, n, i, j - 1);
        lemma_repeat_value_strict(s, n, j - 1, j);
    }
}

/// Every compressed position lies in `[0, SCALE - 1]`.
proof fn lemma_repeat_value_bounds(s: Seq<ConfigRGB>, n: int, idx: int)
    requires
        s.len() >= 2,
        n >= 1,
        strictly_sorted(s),
        gaps_at_least(s, n),
        s[0].value == 0,
        s.last().value == SCALE,
        0 <= idx < (s.len() - 1) * n,
    ensures
        0 <= band_value(s, idx) / n <= SCALE - 1,
{
    let w = s.len() - 1;
    lemma_fundamental_div_mod(idx, w as int);
    lemma_mod_bound(idx, w as int);
    lemma_div_pos_is_pos(idx, w as int);
    let b = idx / (w as int);
    let j = idx % (w as int);
    lemma_mul_is_commutative(w as int, n);
    lemma_multiply_divide_lt(idx, w as int, n);
    assert(b <= n - 1);
    assert(s[j].value <= SCALE - n) by {
        assert(s[(w as int - 1) + 1].value >= s[w as int - 1].value + n);
        if j < w - 1 {
            assert(s[j].value < s[w as int - 1].value);
        }
    }
    lemma_mul_inequality(b, n - 1, SCALE as int);
    assert((n - 1) * (SCALE as int) + (SCALE as int) == n * (SCALE as int)) by {
        lemma_mul_is_distributive_sub_other_way(SCALE as int, n, 1);
        lemma_mul_basics(SCALE as int);
    }
    assert(band_value(s, idx) <= n * (SCALE as int) - n);
    assert((SCALE as int - 1) * n == n * (SCALE as int) - n) by {
        lemma_mul_is_distributive_sub_other_way(n, SCALE as int, 1);
        lemma_mul_basics(n);
        lemma_mul_is_commutative(SCALE as int, n);
    }
    lemma_div_is_ordered(band_value(s, idx), (SCALE as int - 1) * n, n);
    lemma_div_by_multiple(SCALE as int - 1, n);
    lemma_mul_nonnegative(b, SCALE as int);
    lemma_div_pos_is_pos(band_value(s, idx), n);
}

/// The repeated stop sequence is itself a well-formed palette's stop
/// list: strictly sorted, starting at 0 and ending at `SCALE`.
proof fn lemma_repeat_stops_wf(s: Seq<ConfigRGB>, n: int)
    requires
        s.len() >= 2,
        n >= 1,
        (s.len() - 1) * n <= SCALE,
        strictly_sorted(s),
        gaps_at_least(s, n),
        s[0].value == 0,
        s.last().value == SCALE,
    ensures
        ({
            let r = repeat_stops(s, n);
            &&& r.len() == (s.len() - 1) * n + 1
            &&& strictly_sorted(r)
            &&& r[0].value == 0
            &&& r.last().value == SCALE
        }),
{
    let w = s.len() - 1;
    let m = (w as int) * n;
    let r = repeat_stops(s, n);
    assert(m >= 1) by {
        lemma_mul_inequality(1, n, w as int);
        lemma_mul_is_commutative(w as int, n);
    }
    assert(r[0].value == 0) by {
        lemma_basic_div(0, w as int);
        lemma_small_mod(0nat, w as nat);
        assert(0int * (SCALE as int) == 0) by (nonlinear_arith);
        assert(band_value(s, 0) == 0);
        lemma_basic_div(0, n);
    }
    assert forall|i: int, j: int|
        0 <= i < j < r.len() implies #[trigger] r[i].value < #[trigger] r[j].value by {
        lemma_repeat_value_bounds(s, n, i);
        if j < m {
            lemma_repeat_value_bounds(s, n, j);
            lemma_repeat_value_strict(s, n, i, j);
        }
    }
}

/// Repeating once is the identity: with `n = 1` every compressed stop
/// keeps its original position and colour, and the last stop is the
/// original last stop.
pub proof fn lemma_repeat_once_identity(p: ColorPalette)
    requires
        p.wf(),
    ensures
        repeat_stops(p.stops(), 1) == p.stops(),
{
    let s = p.stops();
    let w = s.len() - 1;
    lemma_mul_basics(w as int);
    let r = repeat_stops(s, 1);
    assert forall|idx: int| 0 <= idx < r.len() implies r[idx] == s[idx] by {
        if idx < w {
            lemma_small_mod(idx as nat, w as nat);
            lemma_basic_div(idx, w as int);
            assert(0int * (SCALE as int) == 0) by (nonlinear_arith);
            assert(band_value(s, idx) == s[idx].value);
            vstd::arithmetic::div_mod::lemma_div_basics(band_value(s, idx));
            assert(r[idx].value == s[idx].value);
            assert(r[idx].red == s[idx].red);
            assert(r[idx].green == s[idx].green);
            assert(r[idx].blue == s[idx].blue);
        } else {
            assert(idx == w);
            assert(r[idx] == s[s.len() - 1]);
        }
    }
    assert(r =~= s);
}

/// The blend factor of a position inside its bracket stays in `[0, SCALE]`.
proof fn lemma_stop_frac_bounds(v1: int, v2: int, v: int)
    requires
        v1 <= v <= v2,
        v1 < v2,
    ensures
        0 <= stop_frac(v1, v2, v) <= SCALE,
{
    lemma_mul_inequality(v - v1, v2 - v1, SCALE as int);
    lemma_div_is_ordered((v - v1) * (SCALE as int), (v2 - v1) * (SCALE as int), v2 - v1);
    lemma_div_by_multiple(SCALE as int, v2 - v1);
    lemma_mul_is_commutative(SCALE as int, v2 - v1);
    lemma_div_pos_is_pos((v - v1) * (SCALE as int), v2 - v1);
}

/// An interpolated channel lies between its two endpoints.
proof fn lemma_chan_lerp_between(lo: int, hi: int, f: int)
    requires
        0 <= lo <= 255,
        0 <= hi <= 255,
        0 <= f <= SCALE,
    ensures
        chan_between(lo, hi, chan_lerp(lo, hi, f)),
{
    lemma_div_by_multiple(lo, SCALE as int);
    lemma_div_by_multiple(hi, SCALE as int);
    lemma_mul_is_distributive_sub_other_way(SCALE as int, hi, lo);
    if hi >= lo {
        lemma_chan_step_bounds(hi - lo, f);
        lemma_mul_nonnegative(hi - lo, f);
        lemma_div_is_ordered(lo * SCALE, lo * SCALE + (hi - lo) * f, SCALE as int);
        lemma_div_is_ordered(lo * SCALE + (hi - lo) * f, hi * SCALE, SCALE as int);
    } else {
        lemma_chan_step_bounds(lo - hi, f);
        lemma_mul_nonnegative(lo - hi, f);
        lemma_mul_unary_negation(lo - hi, f);
        assert((hi - lo) * f == -((lo - hi) * f)) by (nonlinear_arith);
        lemma_div_is_ordered(hi * SCALE, lo * SCALE + (hi - lo) * f, SCALE as int);
        lemma_div_is_ordered(lo * SCALE + (hi - lo) * f, lo * SCALE, SCALE as int);
    }
}

/// Lookup is exact at the ends: position 0 returns the first stop's
/// colour and position `SCALE` the last stop's, for any valid palette.
pub proof fn lemma_lookup_endpoints(p: ColorPalette)
    requires
        p.wf(),
    ensures
        lookup_spec(p.stops(), 0) == p.stops()[0].color(),
        lookup_spec(p.stops(), SCALE) == p.stops().last().color(),
{
    let s = p.stops();
    assert(find_ge(s, 0) == 0);
    assert forall|j: int| 0 <= j < s.len() - 1 implies #[trigger] s[j].value < SCALE by {
        assert(s[j].value < s[s.len() - 1].value);
    }
    lemma_find_ge_characterises(s, SCALE as int, s.len() - 1);
}

/// Lookup is continuous across one bracket: it is exact at two
/// neighbouring stops, and at their midpoint every channel lies between
/// the two stops' channels.
pub proof fn lemma_lookup_between_stops(p: ColorPalette, i: int)
    requires
        p.wf(),
        0 <= i < p.stops().len() - 1,
    ensures
        lookup_spec(p.stops(), p.stops()[i].value) == p.stops()[i].color(),
        lookup_spec(p.stops(), p.stops()[i + 1].value) == p.stops()[i + 1].color(),
        ({
            let a = p.stops()[i];
            let b = p.stops()[i + 1];
            let mid = (((a.value + b.value) as int / 2) as u64);
            let c = lookup_spec(p.stops(), mid);
            &&& chan_between(a.red as int, b.red as int, c.0 as int)
            &&& chan_between(a.green as int, b.green as int, c.1 as int)
            &&& chan_between(a.blue as int, b.blue as int, c.2 as int)
        }),
{
    let s = p.stops();
    let a = s[i];
    let b = s[i + 1];
    assert(b.value <= SCALE) by {
        if i + 1 < s.len() - 1 {
            assert(s[i + 1].value < s[s.len() - 1].value);
        }
    }
    assert(a.value < b.value);
    assert forall|j: int| 0 <= j < i implies #[trigger] s[j].value < a.value by {
        assert(s[j].value < s[i].value);
    }
    lemma_find_ge_characterises(s, a.value as int, i);
    assert forall|j: int| 0 <= j < i + 1 implies #[trigger] s[j].value < b.value by {
        assert(s[j].value < s[i + 1].value);
    }
    lemma_find_ge_characterises(s, b.value as int, i + 1);
    let mid = (((a.value + b.value) as int / 2) as u64);
    assert(a.value <= mid < b.value);
    if mid == a.value {
        lemma_find_ge_characterises(s, mid as int, i);
    } else {
        assert forall|j: int| 0 <= j < i + 1 implies #[trigger] s[j].value < mid by {
            assert(s[j].value <= s[i].value);
        }
        lemma_find_ge_characterises(s, mid as int, i + 1);
        assert(s[i + 1].value != mid);
        lemma_stop_frac_bounds(a.value as int, b.value as int, mid as int);
        let f = stop_frac(a.value as int, b.value as int, mid as int);
        lemma_chan_lerp_between(a.red as int, b.red as int, f);
        lemma_chan_lerp_between(a.green as int, b.green as int, f);
        lemma_chan_lerp_between(a.blue as int, b.blue as int, f);
    }
}

} // verus!
