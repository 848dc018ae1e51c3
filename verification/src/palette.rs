//! The palette: a histogram of sampled delta pixels, and its sixteen most frequent.
use crate::blocks::{gray, Gray};
use crate::img::{forward, Pixel};
use vstd::prelude::*;
use vstd::slice::slice_subrange;

verus! {

/// Every hundredth pixel begins a sampled window.
pub const SAMPLE_FREQUENCY: usize = 100;

/// `i` is the first position of `delta` in `colors`.
pub open spec fn is_first(colors: Seq<Seq<i16>>, delta: Seq<i16>, i: int) -> bool {
    &&& 0 <= i < colors.len()
    &&& colors[i] == delta
    &&& forall|j: int| 0 <= j < i ==> #[trigger] colors[j] != delta
}

/// The first position of `delta` in `colors`, if it occurs there.
pub open spec fn index_of(colors: Seq<Seq<i16>>, delta: Seq<i16>) -> Option<int> {
    if exists|i: int| is_first(colors, delta, i) {
        Some(choose|i: int| is_first(colors, delta, i))
    } else {
        None
    }
}

/// The first position is the index.
pub proof fn lemma_index_of_found(colors: Seq<Seq<i16>>, delta: Seq<i16>, i: int)
    requires
        is_first(colors, delta, i),
    ensures
        index_of(colors, delta) == Some(i),
{
    let k = choose|k: int| is_first(colors, delta, k);
    assert(is_first(colors, delta, k));
    if k < i {
        assert(colors[k] != delta);
    }
    if i < k {
        assert(colors[i] != delta);
    }
}

/// What does not occur has no index.
pub proof fn lemma_index_of_none(colors: Seq<Seq<i16>>, delta: Seq<i16>)
    requires
        forall|j: int| 0 <= j < colors.len() ==> #[trigger] colors[j] != delta,
    ensures
        index_of(colors, delta).is_none(),
{
}

/// An index that is found is the first position.
pub proof fn lemma_index_of_some(colors: Seq<Seq<i16>>, delta: Seq<i16>)
    ensures
        index_of(colors, delta) matches Some(i) ==> is_first(colors, delta, i),
        index_of(colors, delta).is_none() ==> forall|j: int|
            0 <= j < colors.len() ==> #[trigger] colors[j] != delta,
{
    if index_of(colors, delta).is_none() {
        assert forall|j: int| 0 <= j < colors.len() implies #[trigger] colors[j] != delta by {
            if colors[j] == delta {
                lemma_first_exists(colors, delta, j);
            }
        }
    }
}

/// What occurs has a first position.
pub proof fn lemma_first_exists(colors: Seq<Seq<i16>>, delta: Seq<i16>, j: int)
    requires
        0 <= j < colors.len(),
        colors[j] == delta,
    ensures
        exists|i: int| is_first(colors, delta, i),
    decreases j,
{
    if exists|k: int| 0 <= k < j && colors[k] == delta {
        let k = choose|k: int| 0 <= k < j && colors[k] == delta;
        lemma_first_exists(colors, delta, k);
    } else {
        assert(is_first(colors, delta, j));
    }
}

/// The colours of a histogram, in the order in which they were first counted.
pub open spec fn colors_of(histogram: Seq<(Seq<i16>, nat)>) -> Seq<Seq<i16>> {
    Seq::new(histogram.len(), |i: int| histogram[i].0)
}

/// The histogram with one more occurrence of `delta`: its count goes up by one, or it
/// is added at the end with count one.
pub open spec fn counted(histogram: Seq<(Seq<i16>, nat)>, delta: Seq<i16>) -> Seq<
    (Seq<i16>, nat),
> {
    match index_of(colors_of(histogram), delta) {
        Some(i) => histogram.update(i, (delta, histogram[i].1 + 1)),
        None => histogram.push((delta, 1)),
    }
}

/// The histogram of the samples that are not gray.
pub open spec fn histogram_of(samples: Seq<Seq<i16>>) -> Seq<(Seq<i16>, nat)>
    decreases samples.len(),
{
    if samples.len() == 0 {
        Seq::empty()
    } else if gray(samples.last()) {
        histogram_of(samples.drop_last())
    } else {
        counted(histogram_of(samples.drop_last()), samples.last())
    }
}

/// The number of sampled windows: windows of two pixels, one every hundred pixels, as
/// far as whole windows go.
pub open spec fn sample_count(len: nat, c: nat) -> nat {
    if len < 2 * c || c == 0 {
        0
    } else {
        ((len - 2 * c) / (100 * c as int) + 1) as nat
    }
}

/// The delta pixel of sampled window `m`: its first pixel minus its second.
pub open spec fn sample(raw: Seq<u8>, c: nat, m: int) -> Seq<i16> {
    forward(
        raw.subrange(m * (100 * c), m * (100 * c) + c),
        raw.subrange(m * (100 * c) + c, m * (100 * c) + 2 * c),
        c,
    )
}

/// The sampled delta pixels of an image.
pub open spec fn samples_of(raw: Seq<u8>, c: nat) -> Seq<Seq<i16>> {
    Seq::new(sample_count(raw.len(), c), |m: int| sample(raw, c, m))
}

/// Entry `i` comes before entry `j` in the palette: it was counted more often, or as
/// often and first.
pub open spec fn precedes(histogram: Seq<(Seq<i16>, nat)>, i: int, j: int) -> bool {
    histogram[i].1 > histogram[j].1 || (histogram[i].1 == histogram[j].1 && i < j)
}

/// The entries that come before entry `i`.
pub open spec fn before(histogram: Seq<(Seq<i16>, nat)>, i: int) -> Set<int> {
    Set::new(|j: int| 0 <= j < histogram.len() && precedes(histogram, j, i))
}

/// The number of entries that come before entry `i`.
pub open spec fn rank(histogram: Seq<(Seq<i16>, nat)>, i: int) -> nat {
    before(histogram, i).len()
}

/// The entry of rank `k`; entry 0 where no entry has that rank.
pub open spec fn ranked(histogram: Seq<(Seq<i16>, nat)>, k: int) -> int {
    if exists|i: int| 0 <= i < histogram.len() && rank(histogram, i) == k {
        choose|i: int| 0 <= i < histogram.len() && rank(histogram, i) == k
    } else {
        0
    }
}

/// The palette of a histogram: its colours by descending count, the first counted
/// first among equals, sixteen at most.
pub open spec fn top_colors(histogram: Seq<(Seq<i16>, nat)>) -> Seq<Seq<i16>> {
    Seq::new(
        if histogram.len() < 16 {
            histogram.len()
        } else {
            16
        },
        |k: int| histogram[ranked(histogram, k)].0,
    )
}

/// The palette of an image.
pub open spec fn palette_of(raw: Seq<u8>, c: nat) -> Seq<Seq<i16>> {
    top_colors(histogram_of(samples_of(raw, c)))
}

/// The entries before an entry are finitely many.
pub proof fn lemma_before_finite(histogram: Seq<(Seq<i16>, nat)>, i: int)
    ensures
        before(histogram, i).finite(),
        before(histogram, i).len() <= histogram.len(),
{
    let all = Set::new(|j: int| 0 <= j < histogram.len());
    vstd::set_lib::lemma_int_range(0, histogram.len() as int);
    assert(all =~= vstd::set_lib::set_int_range(0, histogram.len() as int));
    assert(before(histogram, i).subset_of(all));
    vstd::set_lib::lemma_len_subset(before(histogram, i), all);
}

/// No two entries have the same rank.
pub proof fn lemma_rank_injective(histogram: Seq<(Seq<i16>, nat)>, i: int, j: int)
    requires
        0 <= i < histogram.len(),
        0 <= j < histogram.len(),
        rank(histogram, i) == rank(histogram, j),
    ensures
        i == j,
{
    if i != j {
        let (a, b) = if precedes(histogram, i, j) {
            (i, j)
        } else {
            (j, i)
        };
        assert(precedes(histogram, a, b));
        let wider = before(histogram, a).insert(a);
        lemma_before_finite(histogram, a);
        lemma_before_finite(histogram, b);
        assert(!before(histogram, a).contains(a));
        assert(wider.subset_of(before(histogram, b)));
        vstd::set_lib::lemma_len_subset(wider, before(histogram, b));
    }
}

/// A delta pixel of `c` channels that is the difference of two pixels.
pub open spec fn is_delta(delta: Seq<i16>, c: nat) -> bool {
    delta.len() == c && crate::blocks::fits(delta, -255, 255)
}

/// Every colour of a histogram is one of its samples.
pub proof fn lemma_histogram_colors(samples: Seq<Seq<i16>>, i: int)
    requires
        0 <= i < histogram_of(samples).len(),
    ensures
        exists|m: int| 0 <= m < samples.len() && #[trigger] samples[m] == histogram_of(samples)[i].0,
    decreases samples.len(),
{
    let before = histogram_of(samples.drop_last());
    let last = samples.last();
    if gray(last) {
        lemma_histogram_colors(samples.drop_last(), i);
        let m = choose|m: int|
            0 <= m < samples.drop_last().len() && #[trigger] samples.drop_last()[m] == before[i].0;
        assert(samples[m] == histogram_of(samples)[i].0);
    } else {
        lemma_index_of_some(colors_of(before), last);
        let after = counted(before, last);
        if after[i].0 == last {
            assert(samples[samples.len() - 1] == after[i].0);
        } else {
            assert(i < before.len() && before[i].0 == after[i].0);
            lemma_histogram_colors(samples.drop_last(), i);
            let m = choose|m: int|
                0 <= m < samples.drop_last().len() && #[trigger] samples.drop_last()[m]
                    == before[i].0;
            assert(samples[m] == histogram_of(samples)[i].0);
        }
    }
}

/// The palette of an image has at most sixteen entries, and each is the difference of
/// two pixels of the image.
pub proof fn lemma_palette_entries(raw: Seq<u8>, c: nat)
    ensures
        palette_of(raw, c).len() <= 16,
        forall|k: int| 0 <= k < palette_of(raw, c).len() ==> is_delta(#[trigger] palette_of(raw, c)[k], c),
{
    let samples = samples_of(raw, c);
    let histogram = histogram_of(samples);
    assert forall|k: int| 0 <= k < palette_of(raw, c).len() implies is_delta(
        #[trigger] palette_of(raw, c)[k],
        c,
    ) by {
        let i = ranked(histogram, k);
        assert(0 <= i < histogram.len());
        lemma_histogram_colors(samples, i);
        let m = choose|m: int| 0 <= m < samples.len() && #[trigger] samples[m] == histogram[i].0;
        assert(samples[m] == sample(raw, c, m));
    }
}

/// The histogram of an image: each sampled colour with the number of times it was
/// sampled, in the order of first occurrence.
pub struct ImagePalette<const CHANNELS: usize>(pub Vec<(Pixel<CHANNELS>, usize)>);

impl<const CHANNELS: usize> View for ImagePalette<CHANNELS> {
    type V = Seq<(Seq<i16>, nat)>;

    open spec fn view(&self) -> Seq<(Seq<i16>, nat)> {
        Seq::new(self.0@.len(), |i: int| (self.0@[i].0@, self.0@[i].1 as nat))
    }
}

impl<const CHANNELS: usize> ImagePalette<CHANNELS> {
    /// Every hundredth pixel begins a sampled window.
    pub const SAMPLE_FRENQUENCY: usize = 100;

    /// The empty histogram.
    pub fn new() -> (histogram: Self)
        ensures
            histogram@ == Seq::<(Seq<i16>, nat)>::empty(),
    {
        let histogram = Self(Vec::new());
        assert(histogram@ =~= Seq::<(Seq<i16>, nat)>::empty());
        histogram
    }

    /// Counts one more occurrence of a colour.
    #[inline]
    pub fn increment_color(&mut self, pixel: Pixel<CHANNELS>)
        requires
            forall|i: int| 0 <= i < old(self)@.len() ==> (#[trigger] old(self)@[i]).1 < usize::MAX,
        ensures
            final(self)@ == counted(old(self)@, pixel@),
    {
        let ghost before = self@;
        let ghost colors = colors_of(before);
        let n = self.0.len();
        let mut i: usize = 0;
        while i < n
            invariant
                i <= n,
                n == self.0@.len(),
                self@ == before,
                before == old(self)@,
                colors == colors_of(before),
                forall|j: int| 0 <= j < before.len() ==> (#[trigger] before[j]).1 < usize::MAX,
                forall|j: int| 0 <= j < i ==> #[trigger] colors[j] != pixel@,
            decreases n - i,
        {
            let entry = self.0[i];
            if entry.0 == pixel {
                proof {
                    assert(colors[i as int] == pixel@);
                    assert(is_first(colors, pixel@, i as int));
                    lemma_index_of_found(colors, pixel@, i as int);
                    assert(before[i as int].1 < usize::MAX);
                }
                self.0[i] = (entry.0, entry.1 + 1);
                assert(self@ =~= counted(before, pixel@));
                return ;
            }
            i += 1;
        }
        proof {
            lemma_index_of_none(colors, pixel@);
        }
        self.0.push((pixel, 1));
        assert(self@ =~= counted(before, pixel@));
    }

    /// The histogram of the sampled windows of an image: from every window, the delta
    /// between its two pixels, unless it is gray.
    pub fn from(raw: &[u8]) -> (histogram: Self)
        requires
            CHANNELS == 3 || CHANNELS == 4,
        ensures
            histogram@ == histogram_of(samples_of(raw@, CHANNELS as nat)),
    {
        let ghost c = CHANNELS as nat;
        let ghost all = samples_of(raw@, c);
        let mut image_palette = Self::new();
        let window = CHANNELS * 2;
        let stride = CHANNELS * 2 * (SAMPLE_FREQUENCY / 2);
        let len = raw.len();
        let mut start: usize = 0;
        let mut m: usize = 0;
        assert(all.take(0) =~= Seq::<Seq<i16>>::empty());
        while window <= len - start
            invariant
                CHANNELS == 3 || CHANNELS == 4,
                c == CHANNELS,
                window == 2 * c,
                stride == 100 * c,
                len == raw@.len(),
                all == samples_of(raw@, c),
                start == m * stride,
                start <= len,
                window <= len - start ==> m < (len - 2 * c) / (100 * c as int) + 1,
                window > len - start ==> m == sample_count(len as nat, c),
                m <= all.len(),
                image_palette@ == histogram_of(all.take(m as int)),
                forall|i: int|
                    0 <= i < image_palette@.len() ==> (#[trigger] image_palette@[i]).1 <= m,
            decreases len - start,
        {
            let first = slice_subrange(raw, start, start + CHANNELS);
            let second = slice_subrange(raw, start + CHANNELS, start + window);
            let pixel = Pixel::<CHANNELS>::compute_forward(first, second);
            proof {
                assert(m * (100 * c) == start) by (nonlinear_arith)
                    requires
                        start == m * stride,
                        stride == 100 * c,
                ;
                assert(pixel@ == sample(raw@, c, m as int));
                assert(all[m as int] == pixel@);
                assert(all.take(m + 1).drop_last() =~= all.take(m as int));
                assert(all.take(m + 1).last() == pixel@);
            }
            if !Gray::is_gray(&pixel) {
                let ghost before = image_palette@;
                image_palette.increment_color(pixel);
                proof {
                    lemma_index_of_some(colors_of(before), pixel@);
                }
            }
            if stride > len - start {
                proof {
                    lemma_last_sample(len as int, c as int, m as int);
                    assert(all.take(m + 1) =~= all);
                }
                return image_palette;
            }
            proof {
                assert((m + 1) * stride == m * stride + stride) by (nonlinear_arith);
                lemma_next_sample(len as int, c as int, m as int);
            }
            start = start + stride;
            m = m + 1;
        }
        proof {
            assert(all.take(m as int) =~= all);
        }
        image_palette
    }
}

/// After window `m` of an image that has no room for a further stride, there is no
/// further window.
proof fn lemma_last_sample(len: int, c: int, m: int)
    requires
        c > 0,
        m >= 0,
        m * (100 * c) + 2 * c <= len,
        100 * c > len - m * (100 * c),
    ensures
        (len - 2 * c) / (100 * c) + 1 == m + 1,
{
    let x = len - 2 * c;
    let d = 100 * c;
    let r = x - m * d;
    assert(m * (100 * c) == m * d);
    assert(x == m * d + r);
    assert(0 <= r < d);
    vstd::arithmetic::div_mod::lemma_fundamental_div_mod_converse(x, d, m, r);
}

/// Whether a window follows window `m`, by the room that is left after one stride.
proof fn lemma_next_sample(len: int, c: int, m: int)
    requires
        c > 0,
        m >= 0,
        m * (100 * c) + 2 * c <= len,
        100 * c <= len - m * (100 * c),
    ensures
        2 * c <= len - (m * (100 * c) + 100 * c) ==> m + 1 < (len - 2 * c) / (100 * c) + 1,
        2 * c > len - (m * (100 * c) + 100 * c) ==> m + 1 == (len - 2 * c) / (100 * c) + 1,
{
    let x = len - 2 * c;
    let d = 100 * c;
    let q = x / d;
    assert(m * (100 * c) == m * d);
    vstd::arithmetic::div_mod::lemma_fundamental_div_mod(x, d);
    vstd::arithmetic::div_mod::lemma_mod_bound(x, d);
    let r = x % d;
    assert(x == d * q + r);
    if 2 * c <= len - (m * d + d) {
        assert((m + 1) * d <= x) by (nonlinear_arith)
            requires
                2 * c <= len - (m * d + d),
                x == len - 2 * c,
        ;
        assert(q >= m + 1) by (nonlinear_arith)
            requires
                (m + 1) * d <= x,
                x == d * q + r,
                0 <= r < d,
                d > 0,
        ;
    } else {
        assert(x < (m + 1) * d) by (nonlinear_arith)
            requires
                2 * c > len - (m * d + d),
                x == len - 2 * c,
        ;
        assert(m * d <= x);
        vstd::arithmetic::div_mod::lemma_fundamental_div_mod_converse(x, d, m, x - m * d);
    }
}


/// The palette: at most sixteen delta pixels, the most frequent first. A pixel block
/// may refer to each by its index.
#[derive(Debug)]
pub struct Palette<const CHANNELS: usize>(pub Vec<Pixel<CHANNELS>>);

impl<const CHANNELS: usize> View for Palette<CHANNELS> {
    type V = Seq<Seq<i16>>;

    open spec fn view(&self) -> Seq<Seq<i16>> {
        Seq::new(self.0@.len(), |i: int| self.0@[i]@)
    }
}

impl<const CHANNELS: usize> Palette<CHANNELS> {
    /// The index of a colour in the palette: its first position, if it occurs.
    #[inline]
    pub fn get(&self, pixel: &Pixel<CHANNELS>) -> (index: Option<usize>)
        ensures
            match index {
                Some(i) => index_of(self@, pixel@) == Some(i as int) && i < self@.len(),
                None => index_of(self@, pixel@).is_none(),
            },
    {
        let n = self.0.len();
        let mut idx: usize = 0;
        while idx < n
            invariant
                idx <= n,
                n == self.0@.len(),
                forall|j: int| 0 <= j < idx ==> #[trigger] self@[j] != pixel@,
            decreases n - idx,
        {
            if self.0[idx] == *pixel {
                proof {
                    assert(self@[idx as int] == pixel@);
                    lemma_index_of_found(self@, pixel@, idx as int);
                }
                return Some(idx);
            }
            idx += 1;
        }
        proof {
            lemma_index_of_none(self@, pixel@);
        }
        None
    }

    /// The palette of a histogram: its colours by descending count, the first counted
    /// first among equals, sixteen at most.
    pub fn from(image_palette: ImagePalette<CHANNELS>) -> (palette: Self)
        ensures
            palette@ == top_colors(image_palette@),
            palette@.len() <= 16,
    {
        let ghost h = image_palette@;
        let entries = image_palette.0;
        let n = entries.len();
        let limit: usize = if n < 16 {
            n
        } else {
            16
        };
        let mut taken: Vec<bool> = Vec::new();
        let mut f: usize = 0;
        while f < n
            invariant
                f <= n,
                taken@.len() == f,
                forall|j: int| 0 <= j < f ==> !#[trigger] taken@[j],
            decreases n - f,
        {
            taken.push(false);
            f += 1;
        }
        let mut colors: Vec<Pixel<CHANNELS>> = Vec::new();
        let ghost mut chosen: Seq<int> = Seq::empty();
        let ghost mut taken_set: Set<int> = Set::empty();
        let mut k: usize = 0;
        while k < limit
            invariant
                k <= limit <= n,
                limit <= 16,
                n == entries@.len(),
                h.len() == n,
                forall|j: int| 0 <= j < n ==> (#[trigger] h[j]).1 == entries@[j].1 && h[j].0 == entries@[j].0@,
                taken@.len() == n,
                colors@.len() == k,
                chosen.len() == k,
                taken_set.finite(),
                taken_set.len() == k,
                forall|j: int| 0 <= j < n ==> (#[trigger] taken@[j] <==> taken_set.contains(j)),
                forall|j: int| taken_set.contains(j) ==> 0 <= j < n,
                forall|t: int|
                    0 <= t < k ==> 0 <= #[trigger] chosen[t] < n && rank(h, chosen[t]) == t
                        && colors@[t]@ == h[chosen[t]].0,
                forall|a: int, b: int|
                    0 <= a < n && 0 <= b < n && #[trigger] taken@[a] && !#[trigger] taken@[b]
                        ==> precedes(h, a, b),
            decreases limit - k,
        {
            let mut best: usize = n;
            let mut i: usize = 0;
            while i < n
                invariant
                    i <= n,
                    best <= n,
                    n == entries@.len(),
                    h.len() == n,
                    taken@.len() == n,
                    forall|j: int|
                        0 <= j < n ==> (#[trigger] h[j]).1 == entries@[j].1 && h[j].0
                            == entries@[j].0@,
                    best < n ==> best < i && !taken@[best as int],
                    best == n ==> forall|j: int| 0 <= j < i ==> #[trigger] taken@[j],
                    best < n ==> forall|j: int|
                        0 <= j < i && !#[trigger] taken@[j] && j != best ==> precedes(
                            h,
                            best as int,
                            j,
                        ),
                decreases n - i,
            {
                if !taken[i] && (best == n || entries[i].1 > entries[best].1) {
                    best = i;
                }
                i += 1;
            }
            proof {
                if best == n {
                    vstd::set_lib::lemma_int_range(0, n as int);
                    assert forall|j: int| 0 <= j < n implies taken_set.contains(j) by {
                        assert(taken@[j]);
                    }
                    assert(taken_set =~= vstd::set_lib::set_int_range(0, n as int));
                }
                assert(before(h, best as int) =~= taken_set) by {
                    assert forall|j: int| before(h, best as int).contains(j) implies taken_set.contains(
                        j,
                    ) by {
                        if !taken@[j] {
                            assert(precedes(h, best as int, j));
                        }
                    }
                    assert forall|j: int| taken_set.contains(j) implies before(
                        h,
                        best as int,
                    ).contains(j) by {
                        assert(taken@[j] && !taken@[best as int]);
                    }
                }
                chosen = chosen.push(best as int);
                taken_set = taken_set.insert(best as int);
            }
            taken[best] = true;
            colors.push(entries[best].0);
            k += 1;
        }
        let palette = Self(colors);
        proof {
            assert forall|t: int| 0 <= t < limit implies #[trigger] palette@[t] == top_colors(h)[t] by {
                assert(0 <= chosen[t] < n && rank(h, chosen[t]) == t);
                let i = ranked(h, t);
                lemma_rank_injective(h, i, chosen[t]);
            }
            assert(palette@ =~= top_colors(h));
        }
        palette
    }
}

} // verus!
