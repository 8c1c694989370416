//! One frame of the simulation: advance every source, clear the field, and
//! superpose every source's bump onto it.
use vstd::prelude::*;
use crate::field::{
    accumulate_wave_to_field, lemma_centred_support_in_reach, lemma_wave_height_at_most_three,
    valid_shape, wave_height_at, wave_inputs_ok, MAX_FIELD_LEN,
};
use crate::source::{advanced, update_wave, BOUNDARY_LEFT, BOUNDARY_RIGHT, lemma_step_stays_in_bounds};

verus! {

/// Largest wave length, in position units: four domain widths, so that a
/// quarter wave never reaches past one domain width.
pub const MAX_WAVE_LENGTH: i64 = 4_194_304;

/// Largest bump height, in height units.
pub const MAX_AMPLITUDE: u64 = 0x1_0000_0000;

/// Largest number of sources in one simulation.
pub const MAX_SOURCES: usize = 65_536;

/// One oscillating wave centre.
#[derive(Clone, Copy, Debug, PartialEq, Eq, Structural)]
pub struct Source {
    /// Position in the domain, in position units.
    pub position: i64,
    /// Signed velocity, in position units per tick.
    pub velocity: i64,
    /// Wave length, in position units; the bump spans half of it.
    pub wave_length: i64,
    /// Height of the bump at its centre, in height units.
    pub amplitude: u64,
}

impl Source {
    /// The source lies in the domain and its wave length and amplitude are
    /// positive and within the supported limits.
    pub open spec fn well_formed(self) -> bool {
        &&& BOUNDARY_LEFT <= self.position <= BOUNDARY_RIGHT
        &&& 0 < self.wave_length <= MAX_WAVE_LENGTH
        &&& 0 < self.amplitude <= MAX_AMPLITUDE
    }

    /// A step of `dt` ticks moves the source by at most one domain width,
    /// so that one reflection is all it can need.
    pub open spec fn single_reflection(self, dt: int) -> bool {
        -(BOUNDARY_RIGHT - BOUNDARY_LEFT) <= dt * self.velocity <= BOUNDARY_RIGHT - BOUNDARY_LEFT
    }

    /// The source after a step of `dt` ticks.
    pub open spec fn advanced_by(self, dt: int) -> Source {
        let (p, v) = advanced(dt, self.position as int, self.velocity as int);
        Source { position: p as i64, velocity: v as i64, ..self }
    }

    /// A source with the given state.
    pub fn new(position: i64, velocity: i64, wave_length: i64, amplitude: u64) -> (s: Source)
        ensures
            s.position == position,
            s.velocity == velocity,
            s.wave_length == wave_length,
            s.amplitude == amplitude,
    {
        Source { position, velocity, wave_length, amplitude }
    }

    /// Whether the source is well formed.
    pub fn is_well_formed(&self) -> (r: bool)
        ensures
            r == self.well_formed(),
    {
        BOUNDARY_LEFT <= self.position && self.position <= BOUNDARY_RIGHT && 0 < self.wave_length
            && self.wave_length <= MAX_WAVE_LENGTH && 0 < self.amplitude && self.amplitude
            <= MAX_AMPLITUDE
    }

    /// Whether a step of `time_interval` ticks moves the source by at most
    /// one domain width.
    pub fn has_single_reflection(&self, time_interval: i64) -> (r: bool)
        requires
            time_interval > 0,
        ensures
            r == self.single_reflection(time_interval as int),
    {
        let width: i128 = (BOUNDARY_RIGHT - BOUNDARY_LEFT) as i128;
        let dt = time_interval as i128;
        let v = self.velocity as i128;
        assert(-0x4000_0000_0000_0000_0000_0000_0000_0000 <= dt * v
            <= 0x4000_0000_0000_0000_0000_0000_0000_0000) by (nonlinear_arith)
            requires
                0 < dt <= i64::MAX,
                i64::MIN <= v <= i64::MAX,
        ;
        let d: i128 = dt * v;
        -width <= d && d <= width
    }

    /// Advances the source by `time_interval` ticks, reflecting it at the
    /// domain's bounds.
    pub fn advance(&mut self, time_interval: i64)
        requires
            time_interval > 0,
            old(self).well_formed(),
            old(self).single_reflection(time_interval as int),
        ensures
            *final(self) == old(self).advanced_by(time_interval as int),
            final(self).well_formed(),
    {
        let mut p: i64 = self.position;
        let mut v: i64 = self.velocity;
        update_wave(time_interval, &mut p, &mut v);
        proof {
            lemma_step_stays_in_bounds(time_interval as int, self.position as int, self.velocity as int);
        }
        self.position = p;
        self.velocity = v;
    }
}

/// Height at field index `j` of a field of `n` samples onto which the bumps
/// of all `sources` were accumulated, starting from zero.
pub open spec fn superposed(sources: Seq<Source>, n: int, shape: Seq<u64>, j: int) -> int
    decreases sources.len(),
{
    if sources.len() == 0 {
        0
    } else {
        let s = sources.last();
        superposed(sources.drop_last(), n, shape, j) + wave_height_at(
            s.position as int,
            s.wave_length as int,
            s.amplitude as int,
            n,
            shape,
            j,
        )
    }
}

proof fn lemma_superposed_bound(sources: Seq<Source>, n: int, shape: Seq<u64>, j: int)
    requires
        0 < n <= MAX_FIELD_LEN,
        valid_shape(shape),
        0 <= j < n,
        forall|i: int| 0 <= i < sources.len() ==> #[trigger] sources[i].well_formed(),
    ensures
        0 <= superposed(sources, n, shape, j) <= 3 * MAX_AMPLITUDE * sources.len(),
    decreases sources.len(),
{
    if sources.len() > 0 {
        let s = sources.last();
        assert(s.well_formed());
        lemma_superposed_bound(sources.drop_last(), n, shape, j);
        lemma_centred_support_in_reach(s.position as int, s.wave_length as int, n);
        lemma_wave_height_at_most_three(
            s.position as int,
            s.wave_length as int,
            s.amplitude as int,
            n,
            shape,
            j,
        );
    }
}

/// Accumulating one sequence of sources after another yields, at every
/// sample, the sum of what each sequence yields on its own.
pub proof fn lemma_superposed_concat(a: Seq<Source>, b: Seq<Source>, n: int, shape: Seq<u64>, j: int)
    ensures
        superposed(a + b, n, shape, j) == superposed(a, n, shape, j) + superposed(b, n, shape, j),
    decreases b.len(),
{
    if b.len() == 0 {
        assert(a + b =~= a);
    } else {
        assert((a + b).drop_last() =~= a + b.drop_last());
        assert((a + b).last() == b.last());
        lemma_superposed_concat(a, b.drop_last(), n, shape, j);
    }
}

/// Accumulation is free of order: accumulating the sources of `a` and then
/// those of `b` onto a cleared field gives the same field as `b` and then
/// `a`.
pub proof fn lemma_superposition_commutes(a: Seq<Source>, b: Seq<Source>, n: int, shape: Seq<u64>, j: int)
    ensures
        superposed(a + b, n, shape, j) == superposed(b + a, n, shape, j),
{
    lemma_superposed_concat(a, b, n, shape, j);
    lemma_superposed_concat(b, a, n, shape, j);
}

/// Accumulation is associative: grouping the sources of `a`, `b` and `c`
/// either way gives the same field.
pub proof fn lemma_superposition_associates(
    a: Seq<Source>,
    b: Seq<Source>,
    c: Seq<Source>,
    n: int,
    shape: Seq<u64>,
    j: int,
)
    ensures
        superposed(a + b, n, shape, j) + superposed(c, n, shape, j) == superposed(a, n, shape, j)
            + superposed(b + c, n, shape, j),
        superposed((a + b) + c, n, shape, j) == superposed(a + (b + c), n, shape, j),
{
    lemma_superposed_concat(a, b, n, shape, j);
    lemma_superposed_concat(b, c, n, shape, j);
    assert((a + b) + c =~= a + (b + c));
}

/// Two coincident sources with equal wave length and amplitude give exactly
/// twice the field that one of them gives alone.
pub proof fn lemma_coincident_sources_double(a: Source, b: Source, n: int, shape: Seq<u64>, j: int)
    requires
        a.position == b.position,
        a.wave_length == b.wave_length,
        a.amplitude == b.amplitude,
    ensures
        superposed(seq![a, b], n, shape, j) == 2 * superposed(seq![a], n, shape, j),
{
    let two = seq![a, b];
    let one = seq![a];
    assert(two.drop_last() =~= one);
    assert(two.last() == b);
    assert(one.last() == a);
    assert(one.drop_last() =~= Seq::<Source>::empty());
    assert(superposed(one.drop_last(), n, shape, j) == 0);
}

/// Computes one frame: advances every source by `time_interval` ticks, then
/// sets `height_field` to the superposition of all the sources' bumps.
pub fn simulate_frame(
    sources: &mut Vec<Source>,
    time_interval: i64,
    shape: &Vec<u64>,
    height_field: &mut Vec<u64>,
)
    requires
        time_interval > 0,
        old(sources).len() <= MAX_SOURCES,
        forall|i: int|
            0 <= i < old(sources).len() ==> #[trigger] old(sources)[i].well_formed()
                && old(sources)[i].single_reflection(time_interval as int),
        0 < old(height_field).len() <= MAX_FIELD_LEN,
        valid_shape(shape@),
    ensures
        final(sources).len() == old(sources).len(),
        forall|i: int|
            0 <= i < final(sources).len() ==> #[trigger] final(sources)[i] == old(
                sources,
            )[i].advanced_by(time_interval as int) && final(sources)[i].well_formed(),
        final(height_field).len() == old(height_field).len(),
        forall|j: int|
            0 <= j < final(height_field).len() ==> final(height_field)[j] == superposed(
                final(sources)@,
                final(height_field).len() as int,
                shape@,
                j,
            ),
{
    let ghost start_sources = sources@;
    let count: usize = sources.len();
    assert forall|m: int| 0 <= m < count implies #[trigger] start_sources[m].well_formed()
        && start_sources[m].single_reflection(time_interval as int) by {
        assert(start_sources[m] == old(sources)[m]);
        assert(old(sources)[m].well_formed());
    }
    let mut i: usize = 0;
    while i < count
        invariant
            time_interval > 0,
            count == sources.len(),
            count == start_sources.len(),
            i <= count,
            forall|m: int|
                i <= m < count ==> #[trigger] sources[m] == start_sources[m],
            forall|m: int|
                0 <= m < count ==> #[trigger] start_sources[m].well_formed()
                    && start_sources[m].single_reflection(time_interval as int),
            forall|m: int|
                0 <= m < i ==> #[trigger] sources[m] == start_sources[m].advanced_by(
                    time_interval as int,
                ) && sources[m].well_formed(),
        decreases count - i,
    {
        let mut s: Source = sources[i];
        s.advance(time_interval);
        sources.set(i, s);
        i = i + 1;
    }
    let n: usize = height_field.len();
    for j in 0..n
        invariant
            height_field.len() == n,
            forall|m: int| 0 <= m < j ==> height_field[m] == 0,
    {
        height_field.set(j, 0);
    }
    let mut i: usize = 0;
    while i < count
        invariant
            count == sources.len(),
            count <= MAX_SOURCES,
            i <= count,
            height_field.len() == n,
            0 < n <= MAX_FIELD_LEN,
            valid_shape(shape@),
            forall|m: int| 0 <= m < count ==> #[trigger] sources[m].well_formed(),
            forall|j: int|
                0 <= j < n ==> height_field[j] == superposed(
                    sources@.subrange(0, i as int),
                    n as int,
                    shape@,
                    j,
                ),
        decreases count - i,
    {
        let s: Source = sources[i];
        let ghost done = sources@.subrange(0, i as int);
        let ghost next = sources@.subrange(0, i + 1);
        assert(next.drop_last() =~= done);
        assert(next.last() == s);
        assert(s.well_formed());
        proof {
            lemma_centred_support_in_reach(s.position as int, s.wave_length as int, n as int);
            assert forall|j: int| 0 <= j < n implies height_field[j] + wave_height_at(
                s.position as int,
                s.wave_length as int,
                s.amplitude as int,
                n as int,
                shape@,
                j,
            ) <= u64::MAX by {
                assert forall|m: int| 0 <= m < next.len() implies #[trigger] next[m].well_formed() by {
                    assert(next[m] == sources[m]);
                }
                lemma_superposed_bound(next, n as int, shape@, j);
                assert(3 * MAX_AMPLITUDE * next.len() <= u64::MAX) by (nonlinear_arith)
                    requires
                        next.len() <= MAX_SOURCES,
                ;
            }
        }
        accumulate_wave_to_field(s.position, s.wave_length, s.amplitude, shape, height_field);
        i = i + 1;
    }
    assert(sources@.subrange(0, count as int) =~= sources@);
}

} // verus!
