use vstd::prelude::*;

verus! {

/// How the length of one track (a column or a row) is determined.
#[derive(Clone, Copy, Debug, PartialEq, Eq, Structural)]
pub enum CellSize {
    /// Shares the space left by the percentage tracks evenly with the other
    /// automatic tracks of its axis.
    Auto,
    /// A fixed share of the axis length, in whole percent. Values outside
    /// `0..=100` are accepted as they are.
    Percent(i32),
}

/// An exact rational length `num / den`.
#[derive(Clone, Copy, Debug, PartialEq, Eq, Structural)]
pub struct Fraction {
    pub num: i128,
    pub den: u64,
}

/// The largest number of tracks on one axis; it keeps every exact length
/// of a resolved axis within `i128`.
pub const MAX_TRACKS: usize = 0x100_0000;

/// Working state of one track while its axis is resolved, in units of
/// `1 / denominator` of the axis.
pub(crate) struct TrackSize {
    pub(crate) base_size: Option<i128>,
    pub(crate) max_growth: Option<i128>,
}

/// `f` is the rational `num / den`, written with exactly these two numbers.
pub open spec fn frac_is(f: Fraction, num: int, den: int) -> bool {
    f.num == num && f.den == den
}

pub open spec fn percent_of(c: CellSize) -> int {
    match c {
        CellSize::Auto => 0,
        CellSize::Percent(p) => p as int,
    }
}

/// The sum of the percentages of the percentage tracks.
pub open spec fn percent_total(t: Seq<CellSize>) -> int
    decreases t.len(),
{
    if t.len() == 0 {
        0
    } else {
        percent_total(t.drop_last()) + percent_of(t.last())
    }
}

/// The number of automatic tracks.
pub open spec fn auto_count(t: Seq<CellSize>) -> nat
    decreases t.len(),
{
    if t.len() == 0 {
        0
    } else {
        auto_count(t.drop_last()) + if t.last() is Auto { 1nat } else { 0nat }
    }
}

/// The number of automatic tracks, or one where there is none.
pub open spec fn auto_scale(t: Seq<CellSize>) -> int {
    if auto_count(t) == 0 {
        1
    } else {
        auto_count(t) as int
    }
}

/// The common denominator of all resolved lengths of an axis.
pub open spec fn axis_denominator(t: Seq<CellSize>) -> int {
    100 * auto_scale(t)
}

/// The free space of an axis of length `len`, over the denominator 100:
/// the length minus the percentage tracks.
pub open spec fn free_space_num(t: Seq<CellSize>, len: int) -> int {
    100 * len - len * percent_total(t)
}

/// The base size of track `i`, over `axis_denominator(t)`: a percentage
/// track takes `p / 100` of the length, an automatic one an even share of
/// the free space.
pub open spec fn base_size_num(t: Seq<CellSize>, len: int, i: int) -> int {
    match t[i] {
        CellSize::Percent(p) => p * len * auto_scale(t),
        CellSize::Auto => free_space_num(t, len),
    }
}

/// Where track `i` starts, over `axis_denominator(t)`: the sum of the base
/// sizes of the tracks before it.
pub open spec fn track_start(t: Seq<CellSize>, len: int, i: int) -> int
    decreases i,
{
    if i <= 0 {
        0
    } else {
        track_start(t, len, i - 1) + base_size_num(t, len, i - 1)
    }
}

/// The state of a track after initialization, over the denominator 100.
pub open spec fn initial_size(c: CellSize, len: int) -> Option<int> {
    match c {
        CellSize::Auto => None,
        CellSize::Percent(p) => Some(p * len),
    }
}

pub open spec fn opt_int(o: Option<i128>) -> Option<int> {
    match o {
        Some(v) => Some(v as int),
        None => None,
    }
}

/// Percentage tracks get their size at once; automatic ones stay unset.
fn initialize_track_sizes(track_layout: &[CellSize], max_size: u32) -> (r: Vec<TrackSize>)
    ensures
        r.len() == track_layout.len(),
        forall|i: int|
            0 <= i < r.len() ==> {
                &&& opt_int(#[trigger] r@[i].base_size) == initial_size(track_layout@[i], max_size as int)
                &&& opt_int(r@[i].max_growth) == initial_size(track_layout@[i], max_size as int)
            },
{
    let mut tracks: Vec<TrackSize> = Vec::new();
    let mut i: usize = 0;
    while i < track_layout.len()
        invariant
            i <= track_layout.len(),
            tracks.len() == i,
            forall|j: int|
                0 <= j < i ==> {
                    &&& opt_int(#[trigger] tracks@[j].base_size) == initial_size(track_layout@[j], max_size as int)
                    &&& opt_int(tracks@[j].max_growth) == initial_size(track_layout@[j], max_size as int)
                },
        decreases track_layout.len() - i,
    {
        let track = match track_layout[i] {
            CellSize::Auto => TrackSize { base_size: None, max_growth: None },
            CellSize::Percent(p) => {
                assert(-0x80_0000_0000_0000_0000 <= p * max_size <= 0x80_0000_0000_0000_0000)
                    by (nonlinear_arith)
                    requires
                        -0x8000_0000 <= p <= 0x7fff_ffff,
                        0 <= max_size <= 0xffff_ffff,
                ;
                let s: i128 = p as i128 * max_size as i128;
                TrackSize { base_size: Some(s), max_growth: Some(s) }
            },
        };
        tracks.push(track);
        i += 1;
    }
    tracks
}

proof fn lemma_take_step(t: Seq<CellSize>, i: int)
    requires
        0 <= i < t.len(),
    ensures
        percent_total(t.take(i + 1)) == percent_total(t.take(i)) + percent_of(t[i]),
        auto_count(t.take(i + 1)) == auto_count(t.take(i)) + if t[i] is Auto { 1nat } else { 0nat },
{
    assert(t.take(i + 1).drop_last() =~= t.take(i));
}

/// The percentages of `n` tracks add up to at most `n` times the largest one,
/// and there are at most `n` automatic tracks.
proof fn lemma_totals_bounded(t: Seq<CellSize>)
    ensures
        auto_count(t) <= t.len(),
        -(t.len() * 0x8000_0000) <= percent_total(t) <= t.len() * 0x8000_0000,
    decreases t.len(),
{
    if t.len() > 0 {
        lemma_totals_bounded(t.drop_last());
    }
}

proof fn lemma_free_space_bounded(t: Seq<CellSize>, len: int)
    requires
        0 <= len <= u32::MAX,
        t.len() <= MAX_TRACKS,
    ensures
        -0x1_0000_0000_0000_0000_0000_0000 <= free_space_num(t, len) <= 0x1_0000_0000_0000_0000_0000_0000,
{
    lemma_totals_bounded(t);
    let pt = percent_total(t);
    let n = t.len() as int;
    assert(-0x80_0000_0000_0000 <= pt <= 0x80_0000_0000_0000) by (nonlinear_arith)
        requires
            -(n * 0x8000_0000) <= pt <= n * 0x8000_0000,
            0 <= n <= 0x100_0000,
    ;
    assert(-0x1_0000_0000_0000_0000_0000_0000 <= 100 * len - len * pt <= 0x1_0000_0000_0000_0000_0000_0000)
        by (nonlinear_arith)
        requires
            -0x80_0000_0000_0000 <= pt <= 0x80_0000_0000_0000,
            0 <= len <= 0xffff_ffff,
    ;
}

/// Every base size of a resolved axis lies within `2^96` of zero.
pub proof fn lemma_base_size_bounded(t: Seq<CellSize>, len: int, i: int)
    requires
        0 <= len <= u32::MAX,
        t.len() <= MAX_TRACKS,
        0 <= i < t.len(),
    ensures
        -0x1_0000_0000_0000_0000_0000_0000 <= base_size_num(t, len, i) <= 0x1_0000_0000_0000_0000_0000_0000,
        1 <= auto_scale(t) <= MAX_TRACKS,
{
    lemma_totals_bounded(t);
    lemma_free_space_bounded(t, len);
    let k = auto_scale(t);
    if let CellSize::Percent(p) = t[i] {
        let p = p as int;
        assert(-0x1_0000_0000_0000_0000_0000_0000 <= p * len * k <= 0x1_0000_0000_0000_0000_0000_0000)
            by (nonlinear_arith)
            requires
                -0x8000_0000 <= p <= 0x7fff_ffff,
                0 <= len <= 0xffff_ffff,
                1 <= k <= 0x100_0000,
        ;
    }
}

/// Every track start of a resolved axis lies within `i * 2^96` of zero.
pub proof fn lemma_track_start_bounded(t: Seq<CellSize>, len: int, i: int)
    requires
        0 <= len <= u32::MAX,
        t.len() <= MAX_TRACKS,
        0 <= i <= t.len(),
    ensures
        -(i * 0x1_0000_0000_0000_0000_0000_0000) <= track_start(t, len, i) <= i * 0x1_0000_0000_0000_0000_0000_0000,
        -0x100_0000_0000_0000_0000_0000_0000_0000 <= track_start(t, len, i) <= 0x100_0000_0000_0000_0000_0000_0000_0000,
    decreases i,
{
    if i > 0 {
        lemma_track_start_bounded(t, len, i - 1);
        lemma_base_size_bounded(t, len, i - 1);
    }
    vstd::arithmetic::mul::lemma_mul_inequality(i, 0x100_0000, 0x1_0000_0000_0000_0000_0000_0000);
}

/// A track start is the percentage tracks before it, scaled to the axis
/// denominator, plus one share of free space for each automatic track before it.
proof fn lemma_track_start_sum(t: Seq<CellSize>, len: int, i: int)
    requires
        0 <= i <= t.len(),
    ensures
        track_start(t, len, i) == auto_scale(t) * len * percent_total(t.take(i)) + auto_count(t.take(i))
            * free_space_num(t, len),
    decreases i,
{
    let k = auto_scale(t);
    let f = free_space_num(t, len);
    if i > 0 {
        lemma_track_start_sum(t, len, i - 1);
        lemma_take_step(t, i - 1);
        let pt = percent_total(t.take(i - 1));
        let a = auto_count(t.take(i - 1)) as int;
        let q = percent_of(t[i - 1]);
        assert(k * len * (pt + q) == k * len * pt + q * len * k) by (nonlinear_arith);
        assert((a + 1) * f == a * f + f) by (nonlinear_arith);
        if t[i - 1] is Auto {
            assert(track_start(t, len, i) == k * len * (pt + q) + (a + 1) * f);
        } else {
            assert(track_start(t, len, i) == k * len * (pt + q) + a * f);
        }
    } else {
        assert(t.take(0) =~= Seq::<CellSize>::empty());
        assert(k * len * 0 == 0) by (nonlinear_arith);
        assert(percent_total(t.take(0)) == 0 && auto_count(t.take(0)) == 0);
        assert(track_start(t, len, i) == k * len * percent_total(t.take(i)) + auto_count(t.take(i)) * f);
    }
}

/// The base sizes of an axis add up to its whole length, whenever it has an
/// automatic track to take the free space, or its percentages add up to 100.
pub proof fn lemma_full_coverage(t: Seq<CellSize>, len: int)
    requires
        auto_count(t) > 0 || percent_total(t) == 100,
    ensures
        track_start(t, len, t.len() as int) == len * axis_denominator(t),
{
    lemma_track_start_sum(t, len, t.len() as int);
    assert(t.take(t.len() as int) =~= t);
    let k = auto_scale(t);
    let pt = percent_total(t);
    let a = auto_count(t) as int;
    assert(track_start(t, len, t.len() as int) == k * len * pt + a * free_space_num(t, len));
    if a > 0 {
        assert(k == a);
        assert(a * len * pt + a * (100 * len - len * pt) == len * (100 * a)) by (nonlinear_arith);
    } else {
        assert(k == 1);
        assert(1 * len * 100 == len * (100 * 1)) by (nonlinear_arith);
        assert(0 * free_space_num(t, len) == 0);
    }
}

/// A percentage track `p` on an axis of length `len` is `p / 100 * len` long,
/// whatever the other tracks are.
pub proof fn lemma_percent_track(t: Seq<CellSize>, len: int, i: int, p: i32)
    requires
        0 <= i < t.len(),
        t[i] == CellSize::Percent(p),
    ensures
        base_size_num(t, len, i) * 100 == p * len * axis_denominator(t),
{
    let k = auto_scale(t);
    assert(p * len * k * 100 == p * len * (100 * k)) by (nonlinear_arith);
}

proof fn lemma_all_auto(t: Seq<CellSize>)
    requires
        forall|j: int| 0 <= j < t.len() ==> t[j] is Auto,
    ensures
        auto_count(t) == t.len(),
        percent_total(t) == 0,
    decreases t.len(),
{
    if t.len() > 0 {
        lemma_all_auto(t.drop_last());
    }
}

/// On an axis of `k` automatic tracks and no other, each track is
/// `len / k` long.
pub proof fn lemma_auto_even_split(t: Seq<CellSize>, len: int, i: int)
    requires
        forall|j: int| 0 <= j < t.len() ==> t[j] is Auto,
        0 <= i < t.len(),
    ensures
        base_size_num(t, len, i) * t.len() == len * axis_denominator(t),
{
    lemma_all_auto(t);
    let k = t.len() as int;
    assert((100 * len - len * 0) * k == len * (100 * k)) by (nonlinear_arith);
}

/// No track of the axis has a negative base size.
pub open spec fn sizes_nonneg(t: Seq<CellSize>, len: int) -> bool {
    forall|i: int| 0 <= i < t.len() ==> base_size_num(t, len, i) >= 0
}

/// With no negative track, a later track never starts before an earlier one.
pub proof fn lemma_start_monotone(t: Seq<CellSize>, len: int, i: int, j: int)
    requires
        sizes_nonneg(t, len),
        0 <= i <= j <= t.len(),
    ensures
        track_start(t, len, i) <= track_start(t, len, j),
    decreases j,
{
    if i < j {
        lemma_start_monotone(t, len, i, j - 1);
    }
}

/// A point `v / m` (over the axis denominator) before the end of track `i`
/// lies in one of the tracks up to `i`.
pub proof fn lemma_locate(t: Seq<CellSize>, len: int, v: int, m: int, i: int)
    requires
        sizes_nonneg(t, len),
        m > 0,
        0 <= v,
        0 <= i <= t.len(),
        v < track_start(t, len, i) * m,
    ensures
        exists|c: int|
            0 <= c < i && track_start(t, len, c) * m <= v < #[trigger] track_start(t, len, c + 1) * m,
    decreases i,
{
    if i == 0 {
        assert(track_start(t, len, 0) * m == 0);
    } else if v < track_start(t, len, i - 1) * m {
        lemma_locate(t, len, v, m, i - 1);
        let c = choose|c: int|
            0 <= c < i - 1 && track_start(t, len, c) * m <= v < #[trigger] track_start(t, len, c + 1) * m;
        assert(track_start(t, len, c) * m <= v < track_start(t, len, c + 1) * m);
    } else {
        assert(track_start(t, len, i - 1) * m <= v < track_start(t, len, (i - 1) + 1) * m);
    }
}

/// With no negative track, a point lies in at most one track.
pub proof fn lemma_unique_slot(t: Seq<CellSize>, len: int, v: int, m: int, c1: int, c2: int)
    requires
        sizes_nonneg(t, len),
        m > 0,
        0 <= c1 < t.len(),
        0 <= c2 < t.len(),
        track_start(t, len, c1) * m <= v < track_start(t, len, c1 + 1) * m,
        track_start(t, len, c2) * m <= v < track_start(t, len, c2 + 1) * m,
    ensures
        c1 == c2,
{
    if c1 < c2 {
        lemma_start_monotone(t, len, c1 + 1, c2);
        let a = track_start(t, len, c1 + 1);
        let b = track_start(t, len, c2);
        assert(a * m <= b * m) by (nonlinear_arith)
            requires
                a <= b,
                m > 0,
        ;
    } else if c2 < c1 {
        lemma_start_monotone(t, len, c2 + 1, c1);
        let a = track_start(t, len, c2 + 1);
        let b = track_start(t, len, c1);
        assert(a * m <= b * m) by (nonlinear_arith)
            requires
                a <= b,
                m > 0,
        ;
    }
}

/// Sizes the automatic tracks with an even share of the free space, and
/// brings every track to the common denominator of the axis, which it returns.
fn resolve_intrinsic_track_sizes(
    tracks: &mut Vec<TrackSize>,
    max_size: u32,
    Ghost(layout): Ghost<Seq<CellSize>>,
) -> (den: u64)
    requires
        layout.len() == old(tracks).len(),
        layout.len() <= MAX_TRACKS,
        forall|i: int|
            0 <= i < layout.len() ==> {
                &&& opt_int(#[trigger] old(tracks)@[i].base_size) == initial_size(layout[i], max_size as int)
                &&& opt_int(old(tracks)@[i].max_growth) == initial_size(layout[i], max_size as int)
            },
    ensures
        den == axis_denominator(layout),
        final(tracks).len() == layout.len(),
        forall|i: int|
            0 <= i < layout.len() ==> {
                &&& opt_int(#[trigger] final(tracks)@[i].base_size) == Some(base_size_num(layout, max_size as int, i))
                &&& opt_int(final(tracks)@[i].max_growth) == Some(base_size_num(layout, max_size as int, i))
            },
{
    let ghost len = max_size as int;
    let n = tracks.len();
    let mut free_space: i128 = 100 * max_size as i128;
    let mut autos: u64 = 0;
    let mut i: usize = 0;
    while i < n
        invariant
            n == tracks.len() == layout.len() <= MAX_TRACKS,
            i <= n,
            len == max_size as int,
            free_space == free_space_num(layout.take(i as int), len),
            autos == auto_count(layout.take(i as int)),
            forall|j: int|
                0 <= j < layout.len() ==> {
                    &&& opt_int(#[trigger] tracks@[j].base_size) == initial_size(layout[j], len)
                    &&& opt_int(tracks@[j].max_growth) == initial_size(layout[j], len)
                },
        decreases n - i,
    {
        proof {
            lemma_take_step(layout, i as int);
            lemma_totals_bounded(layout.take(i as int + 1));
            lemma_free_space_bounded(layout.take(i as int + 1), len);
            assert(opt_int(tracks@[i as int].base_size) == initial_size(layout[i as int], len));
            let pt = percent_total(layout.take(i as int));
            let q = percent_of(layout[i as int]);
            assert(len * (pt + q) == len * pt + q * len) by (nonlinear_arith);
        }
        match tracks[i].base_size {
            None => {
                autos = autos + 1;
            },
            Some(s) => {
                free_space = free_space - s;
            },
        }
        i += 1;
    }
    proof {
        assert(layout.take(n as int) =~= layout);
        lemma_totals_bounded(layout);
    }
    let scale: u64 = if autos == 0 { 1 } else { autos };
    let ghost start = *tracks;
    let mut i: usize = 0;
    while i < n
        invariant
            n == tracks.len() == layout.len() == start.len() <= MAX_TRACKS,
            i <= n,
            free_space == free_space_num(layout, len),
            scale == auto_scale(layout),
            0 <= len <= u32::MAX,
            forall|j: int|
                0 <= j < layout.len() ==> {
                    &&& opt_int(#[trigger] start@[j].base_size) == initial_size(layout[j], len)
                    &&& opt_int(start@[j].max_growth) == initial_size(layout[j], len)
                },
            forall|j: int| i <= j < n ==> #[trigger] tracks@[j] == start@[j],
            forall|j: int|
                0 <= j < i ==> {
                    &&& opt_int(#[trigger] tracks@[j].base_size) == Some(base_size_num(layout, len, j))
                    &&& opt_int(tracks@[j].max_growth) == Some(base_size_num(layout, len, j))
                },
        decreases n - i,
    {
        proof {
            lemma_base_size_bounded(layout, len, i as int);
            assert(opt_int(start@[i as int].base_size) == initial_size(layout[i as int], len));
            if let CellSize::Percent(p) = layout[i as int] {
                assert(p * len * scale == (p * len) * scale) by (nonlinear_arith);
            }
        }
        let size: i128 = match tracks[i].base_size {
            None => free_space,
            Some(s) => s * scale as i128,
        };
        tracks.set(i, TrackSize { base_size: Some(size), max_growth: Some(size) });
        i += 1;
    }
    100 * scale
}

/// Resolves the tracks of one axis of length `length`: the base size of each
/// track, all over the common denominator of the axis.
pub fn resolve_tracks(tracks: &[CellSize], length: u32) -> (r: Vec<Fraction>)
    requires
        tracks.len() <= MAX_TRACKS,
    ensures
        r.len() == tracks.len(),
        forall|i: int|
            0 <= i < r.len() ==> frac_is(
                #[trigger] r@[i],
                base_size_num(tracks@, length as int, i),
                axis_denominator(tracks@),
            ),
{
    let mut sized = initialize_track_sizes(tracks, length);
    let den = resolve_intrinsic_track_sizes(&mut sized, length, Ghost(tracks@));
    let mut r: Vec<Fraction> = Vec::new();
    let mut i: usize = 0;
    while i < sized.len()
        invariant
            sized.len() == tracks.len(),
            i <= sized.len(),
            r.len() == i,
            den == axis_denominator(tracks@),
            forall|j: int|
                0 <= j < tracks.len() ==> opt_int(#[trigger] sized@[j].base_size) == Some(
                    base_size_num(tracks@, length as int, j),
                ),
            forall|j: int|
                0 <= j < i ==> frac_is(
                    #[trigger] r@[j],
                    base_size_num(tracks@, length as int, j),
                    axis_denominator(tracks@),
                ),
        decreases sized.len() - i,
    {
        proof {
            assert(opt_int(sized@[i as int].base_size) == Some(base_size_num(tracks@, length as int, i as int)));
        }
        let num: i128 = match sized[i].base_size {
            Some(s) => s,
            None => 0,
        };
        r.push(Fraction { num, den });
        i += 1;
    }
    r
}

} // verus!
