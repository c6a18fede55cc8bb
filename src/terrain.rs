//! Assembly of the terrain surface: one sample per vertex, its displacement
//! and its tint.
use vstd::prelude::*;

use crate::colorize::{get_height_color, height_color, ColorSpectrum, Srgba};
use crate::decimal::{lemma_order, lemma_pow10_limits, Decimal};
use crate::grid::{import, loaded};
use crate::numeral::zero_sample;

verus! {

/// Displacements are samples divided by `10^SCALE_DIGITS`, that is by 100.
pub const SCALE_DIGITS: u32 = 2;

/// `r` is the integer square root of `n`.
pub open spec fn is_floor_sqrt(n: nat, r: nat) -> bool {
    r * r <= n < (r + 1) * (r + 1)
}

/// The number of vertices along one side of a square grid of `n` vertices.
pub open spec fn grid_width(n: nat) -> nat {
    choose|r: nat| is_floor_sqrt(n, r)
}

/// The integer square root is unique.
proof fn lemma_floor_sqrt_unique(n: nat, a: nat, b: nat)
    requires
        is_floor_sqrt(n, a),
        is_floor_sqrt(n, b),
    ensures
        a == b,
{
    if a < b {
        assert((a + 1) * (a + 1) <= b * b) by (nonlinear_arith)
            requires
                a + 1 <= b,
        ;
    } else if b < a {
        assert((b + 1) * (b + 1) <= a * a) by (nonlinear_arith)
            requires
                b + 1 <= a,
        ;
    }
}

/// The integer square root of `n`.
pub fn isqrt(n: usize) -> (r: usize)
    ensures
        is_floor_sqrt(n as nat, r as nat),
        r == grid_width(n as nat),
{
    let mut lo: u128 = 0;
    let mut hi: u128 = n as u128 + 1;
    assert(n < hi * hi) by (nonlinear_arith)
        requires
            hi == n + 1,
    ;
    while hi - lo > 1
        invariant
            lo < hi <= n as u128 + 1,
            lo * lo <= n,
            n < hi * hi,
        decreases hi - lo,
    {
        let mid = lo + (hi - lo) / 2;
        assert(mid * mid < 0x1_0000_0000_0000_0000_0000_0000_0000_0000) by (nonlinear_arith)
            requires
                mid < 0x1_0000_0000_0000_0000,
        ;
        if mid * mid <= n as u128 {
            lo = mid;
        } else {
            hi = mid;
        }
    }
    proof {
        assert(hi == lo + 1);
        let w = grid_width(n as nat);
        assert(is_floor_sqrt(n as nat, lo as nat));
        lemma_floor_sqrt_unique(n as nat, lo as nat, w);
    }
    lo as usize
}

/// The first of the largest values of a non-empty list.
pub fn largest_elevation(list: &Vec<Decimal>) -> (r: Decimal)
    requires
        list.len() > 0,
        forall|j: int| 0 <= j < list.len() ==> (#[trigger] list[j]).wf(),
    ensures
        exists|i: int|
            0 <= i < list.len() && r == list[i] && forall|j: int|
                0 <= j < i ==> (#[trigger] list[j]).less(r),
        forall|j: int| 0 <= j < list.len() ==> (#[trigger] list[j]).at_most(r),
{
    let mut best: usize = 0;
    let mut k: usize = 1;
    proof {
        lemma_order(list[0], list[0], list[0]);
    }
    while k < list.len()
        invariant
            best < k <= list.len(),
            forall|j: int| 0 <= j < list.len() ==> (#[trigger] list[j]).wf(),
            forall|j: int| 0 <= j < best ==> (#[trigger] list[j]).less(list[best as int]),
            forall|j: int| 0 <= j < k ==> (#[trigger] list[j]).at_most(list[best as int]),
        decreases list.len() - k,
    {
        if !list[k].is_at_most(&list[best]) {
            proof {
                let (o, n) = (list[best as int], list[k as int]);
                assert forall|j: int| 0 <= j < k implies (#[trigger] list[j]).less(n) by {
                    lemma_order(list[j], o, n);
                }
                assert forall|j: int| 0 <= j <= k implies (#[trigger] list[j]).at_most(n) by {
                    lemma_order(list[j], n, n);
                    if j < k {
                        lemma_order(list[j], o, n);
                        lemma_order(list[j], n, n);
                    }
                }
            }
            best = k;
        }
        k = k + 1;
    }
    list[best]
}

/// The displacement of a sample: the sample divided by `10^SCALE_DIGITS`.
pub open spec fn displacement_of(e: Decimal) -> Decimal {
    Decimal { mantissa: e.mantissa, frac_digits: (e.frac_digits + SCALE_DIGITS) as u32 }
}

/// The elevation that a displacement stands for: the displacement times
/// `10^SCALE_DIGITS`.
pub open spec fn restored(d: Decimal) -> Decimal {
    Decimal { mantissa: d.mantissa, frac_digits: (d.frac_digits - SCALE_DIGITS) as u32 }
}

/// The sample that vertex `i` receives when each vertex, in storage order,
/// takes the last sample still left: vertex `i` gets the `i`-th sample from
/// the end, or zero once the samples have run out.
pub open spec fn vertex_sample(samples: Seq<Decimal>, i: int) -> Decimal {
    if i < samples.len() {
        samples[samples.len() - 1 - i]
    } else {
        zero_sample()
    }
}

/// The displacement of a sample.
pub fn displacement(e: Decimal) -> (d: Decimal)
    requires
        e.is_sample(),
    ensures
        d == displacement_of(e),
        d.wf(),
{
    Decimal { mantissa: e.mantissa, frac_digits: e.frac_digits + SCALE_DIGITS }
}

/// The elevation that a displacement stands for.
pub fn restore(d: Decimal) -> (e: Decimal)
    requires
        d.wf(),
        d.frac_digits >= SCALE_DIGITS,
    ensures
        e == restored(d),
        e.is_sample(),
{
    Decimal { mantissa: d.mantissa, frac_digits: d.frac_digits - SCALE_DIGITS }
}

/// Restoring the displacement of a sample gives the sample back exactly.
pub proof fn lemma_restore_displacement(e: Decimal)
    requires
        e.is_sample(),
    ensures
        restored(displacement_of(e)) == e,
        displacement_of(e).wf(),
{
}

/// Gives each of `vertex_count` vertices, in storage order, the displacement
/// of the last sample left in `samples`, which it removes; once `samples` is
/// empty the remaining vertices get displacement zero.
pub fn displace(samples: &mut Vec<Decimal>, vertex_count: usize) -> (heights: Vec<Decimal>)
    requires
        forall|i: int| 0 <= i < old(samples).len() ==> (#[trigger] old(samples)[i]).is_sample(),
    ensures
        heights.len() == vertex_count,
        forall|i: int|
            0 <= i < vertex_count ==> #[trigger] heights[i] == displacement_of(
                vertex_sample(old(samples)@, i),
            ),
        forall|i: int| 0 <= i < vertex_count ==> (#[trigger] heights[i]).wf(),
        final(samples)@ == old(samples)@.take(
            if vertex_count < old(samples).len() {
                old(samples).len() - vertex_count
            } else {
                0
            },
        ),
{
    let ghost orig = samples@;
    let mut heights: Vec<Decimal> = Vec::new();
    let mut i: usize = 0;
    while i < vertex_count
        invariant
            i <= vertex_count,
            heights.len() == i,
            samples@ == orig.take(
                if i < orig.len() {
                    orig.len() - i
                } else {
                    0
                },
            ),
            forall|j: int| 0 <= j < orig.len() ==> (#[trigger] orig[j]).is_sample(),
            forall|j: int|
                0 <= j < i ==> #[trigger] heights[j] == displacement_of(vertex_sample(orig, j)),
            forall|j: int| 0 <= j < i ==> (#[trigger] heights[j]).wf(),
        decreases vertex_count - i,
    {
        let e = match samples.pop() {
            Some(e) => e,
            None => Decimal::zero(),
        };
        heights.push(displacement(e));
        proof {
            if i < orig.len() {
                assert(samples@ =~= orig.take(
                    if i + 1 < orig.len() {
                        orig.len() - (i + 1)
                    } else {
                        0
                    },
                ));
            } else {
                assert(samples@ =~= orig.take(0));
            }
        }
        i = i + 1;
    }
    heights
}

/// Why no terrain could be built.
#[derive(Clone, Copy, Debug, PartialEq, Eq, Structural)]
pub enum TerrainError {
    /// The grid text yielded no sample at all.
    NoElevationData,
}

/// A finished terrain surface, before normals are derived from it.
pub struct TerrainSurface {
    /// Samples kept from each row of the grid text.
    pub width: usize,
    /// The number of samples that the grid text yielded.
    pub sample_count: usize,
    /// The vertical displacement of each vertex, in storage order.
    pub heights: Vec<Decimal>,
    /// The tint of each vertex, in storage order.
    pub colors: Vec<Srgba>,
    /// The largest sample of the grid.
    pub peak: Decimal,
}

/// The surface for a square vertex grid of `vertex_count` vertices: the grid
/// text is read with rows of `width` samples, `width` being the integer
/// square root of `vertex_count`; every vertex is displaced by the sample it
/// takes from the tail, and tinted by the elevation its displacement stands
/// for.
pub fn build_terrain(
    data: &[u8],
    vertex_count: usize,
    spectrum: ColorSpectrum,
) -> (r: Result<TerrainSurface, TerrainError>)
    ensures
        ({
            let s = loaded(data@, grid_width(vertex_count as nat));
            match r {
                Ok(t) => {
                    &&& s.len() > 0
                    &&& t.width == grid_width(vertex_count as nat)
                    &&& t.sample_count == s.len()
                    &&& t.heights.len() == vertex_count
                    &&& t.colors.len() == vertex_count
                    &&& forall|i: int|
                        0 <= i < vertex_count ==> #[trigger] t.heights[i] == displacement_of(
                            vertex_sample(s, i),
                        )
                    &&& forall|i: int|
                        0 <= i < vertex_count ==> #[trigger] t.colors[i] == height_color(
                            restored(t.heights[i]),
                            spectrum,
                        )
                    &&& forall|i: int|
                        0 <= i < vertex_count ==> #[trigger] t.colors[i] == height_color(
                            vertex_sample(s, i),
                            spectrum,
                        )
                    &&& exists|i: int| 0 <= i < s.len() && t.peak == s[i]
                    &&& forall|j: int| 0 <= j < s.len() ==> (#[trigger] s[j]).at_most(t.peak)
                },
                Err(e) => s.len() == 0 && e == TerrainError::NoElevationData,
            }
        }),
{
    let width = isqrt(vertex_count);
    let mut samples = import(data, width);
    if samples.len() == 0 {
        return Err(TerrainError::NoElevationData);
    }
    let ghost s = samples@;
    let sample_count = samples.len();
    let peak = largest_elevation(&samples);
    let heights = displace(&mut samples, vertex_count);
    let mut colors: Vec<Srgba> = Vec::new();
    let mut i: usize = 0;
    while i < vertex_count
        invariant
            i <= vertex_count == heights.len(),
            colors.len() == i,
            forall|j: int| 0 <= j < s.len() ==> (#[trigger] s[j]).is_sample(),
            forall|j: int|
                0 <= j < vertex_count ==> #[trigger] heights[j] == displacement_of(
                    vertex_sample(s, j),
                ),
            forall|j: int|
                0 <= j < i ==> #[trigger] colors[j] == height_color(restored(heights[j]), spectrum),
            forall|j: int|
                0 <= j < i ==> #[trigger] colors[j] == height_color(vertex_sample(s, j), spectrum),
        decreases vertex_count - i,
    {
        let ghost v = vertex_sample(s, i as int);
        proof {
            lemma_pow10_limits();
            lemma_restore_displacement(v);
        }
        let h = restore(heights[i]);
        colors.push(get_height_color(h, spectrum));
        i = i + 1;
    }
    Ok(TerrainSurface { width, sample_count, heights, colors, peak })
}

} // verus!
