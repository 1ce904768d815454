//! Per-signal time series: points `(t, y)` in order of time, with range
//! queries by binary search and truncation of old points. Times are integer
//! ticks (the samplers' microseconds); the values are of any type.
use vstd::prelude::*;

verus! {

/// Times in `s` never decrease.
pub open spec fn sorted_by_time<V>(s: Seq<(i64, V)>) -> bool {
    forall|i: int, j: int| 0 <= i <= j < s.len() ==> s[i].0 <= s[j].0
}

/// The answer of `index_before_at`: `None` when `t` comes before the first
/// point, else the last index whose time is at most `t`.
pub open spec fn is_index_before_at<V>(s: Seq<(i64, V)>, t: i64, r: Option<usize>) -> bool {
    match r {
        None => t < s[0].0,
        Some(k) => k < s.len() && s[k as int].0 <= t && (k + 1 == s.len() || t < s[k + 1].0),
    }
}

/// Largest index whose time is at most `t`, or `None` when `t` is before the
/// first point; a binary search over the closed interval of candidates.
pub fn index_before_at<V>(samples: &[(i64, V)], t: i64) -> (r: Option<usize>)
    requires
        samples@.len() > 0,
        sorted_by_time(samples@),
    ensures
        is_index_before_at(samples@, t, r),
{
    let mut a: usize = 0;
    let mut b: usize = samples.len();
    while a + 1 < b
        invariant
            a < b <= samples@.len(),
            sorted_by_time(samples@),
            a > 0 ==> samples@[a as int].0 <= t,
            b < samples@.len() ==> t < samples@[b as int].0,
        decreases b - a,
    {
        let i = a + (b - a) / 2;
        if samples[i].0 > t {
            b = i;
        } else {
            a = i;
        }
    }
    if t < samples[a].0 {
        None
    } else {
        Some(a)
    }
}

/// A time series whose times never decrease.
pub struct SampleBuffer<V: Copy> {
    samples: Vec<(i64, V)>,
}

impl<V: Copy> SampleBuffer<V> {
    #[verifier::type_invariant]
    spec fn inv(self) -> bool {
        sorted_by_time(self.samples@)
    }

    /// The points, oldest first.
    pub closed spec fn points(&self) -> Seq<(i64, V)> {
        self.samples@
    }

    pub fn new() -> (r: SampleBuffer<V>)
        ensures
            r.points() == Seq::<(i64, V)>::empty(),
    {
        SampleBuffer { samples: Vec::new() }
    }

    /// Time of the newest point, if any.
    pub fn last_time(&self) -> (r: Option<i64>)
        ensures
            self.points().len() == 0 ==> r is None,
            self.points().len() > 0 ==> r == Some(self.points().last().0),
    {
        if self.samples.len() == 0 {
            None
        } else {
            Some(self.samples[self.samples.len() - 1].0)
        }
    }

    /// Appends a point no older than the newest one.
    pub fn push(&mut self, t: i64, value: V)
        requires
            old(self).points().len() > 0 ==> old(self).points().last().0 <= t,
        ensures
            final(self).points() == old(self).points().push((t, value)),
    {
        proof {
            use_type_invariant(&*self);
        }
        let mut samples: Vec<(i64, V)> = Vec::new();
        std::mem::swap(&mut self.samples, &mut samples);
        samples.push((t, value));
        self.samples = samples;
    }

    /// All points; their times never decrease.
    pub fn samples(&self) -> (r: &[(i64, V)])
        ensures
            r@ == self.points(),
            forall|i: int| 0 <= i < r@.len() - 1 ==> #[trigger] r@[i].0 <= r@[i + 1].0,
    {
        proof {
            use_type_invariant(self);
        }
        self.samples.as_slice()
    }

    /// Times of the oldest and of the newest point.
    pub fn time_bounds(&self) -> (r: Option<(i64, i64)>)
        ensures
            self.points().len() == 0 ==> r is None,
            self.points().len() > 0 ==> r == Some((self.points()[0].0, self.points().last().0)),
    {
        if self.samples.len() > 0 {
            Some((self.samples[0].0, self.samples[self.samples.len() - 1].0))
        } else {
            None
        }
    }

    /// `index_before_at` on this buffer's points.
    pub fn index_before_at(&self, t: i64) -> (r: Option<usize>)
        requires
            self.points().len() > 0,
        ensures
            is_index_before_at(self.points(), t, r),
    {
        proof {
            use_type_invariant(self);
        }
        index_before_at(self.samples.as_slice(), t)
    }

    /// Index of the first point whose time is above `t` (the length if none).
    fn first_after(&self, t: i64) -> (r: usize)
        ensures
            r <= self.points().len(),
            forall|i: int| 0 <= i < r ==> self.points()[i].0 <= t,
            forall|i: int| r <= i < self.points().len() ==> self.points()[i].0 > t,
    {
        proof {
            use_type_invariant(self);
        }
        if self.samples.len() == 0 {
            return 0;
        }
        match index_before_at(self.samples.as_slice(), t) {
            None => 0,
            Some(k) => k + 1,
        }
    }

    /// Copy of the points whose time lies in `[from_t, to_t]`, found by binary
    /// search; with the widest bounds, the whole buffer.
    pub fn plot_points(&self, from_t: i64, to_t: i64) -> (r: Vec<(i64, V)>)
        ensures
            exists|s: int, e: int|
                0 <= s <= e <= self.points().len() && r@ == self.points().subrange(s, e) && (
                forall|i: int|
                    0 <= i < self.points().len() ==> ((s <= i < e) <==> (from_t
                        <= #[trigger] self.points()[i].0 <= to_t))),
            from_t == i64::MIN && to_t == i64::MAX ==> r@ == self.points(),
    {
        proof {
            use_type_invariant(self);
        }
        let end = self.first_after(to_t);
        let start = if from_t == i64::MIN {
            0
        } else {
            self.first_after(from_t - 1)
        };
        let s = if start <= end {
            start
        } else {
            end
        };
        let mut r: Vec<(i64, V)> = Vec::new();
        let mut i = s;
        while i < end
            invariant
                s <= i <= end <= self.samples@.len(),
                r@ == self.samples@.subrange(s as int, i as int),
            decreases end - i,
        {
            r.push(self.samples[i]);
            i += 1;
            proof {
                assert(r@ =~= self.samples@.subrange(s as int, i as int));
            }
        }
        proof {
            if from_t == i64::MIN && to_t == i64::MAX {
                if end < self.samples@.len() {
                    assert(self.samples@[end as int].0 > to_t);
                }
                assert(r@ =~= self.samples@);
            }
        }
        r
    }

    /// Drops the points older than `keep` ticks before the newest one: when
    /// the oldest point is older than `last - keep`, every point at or before
    /// `last - keep` goes. A no-op on an empty buffer.
    pub fn truncate(&mut self, keep: u64)
        ensures
            old(self).points().len() == 0 || old(self).points()[0].0 >= old(self).points().last().0
                - keep ==> final(self).points() == old(self).points(),
            old(self).points().len() > 0 && old(self).points()[0].0 < old(self).points().last().0
                - keep ==> exists|s: int|
                0 <= s <= old(self).points().len() && final(self).points() == old(
                    self,
                ).points().skip(s) && (forall|i: int|
                    0 <= i < s ==> #[trigger] old(self).points()[i].0 <= old(
                        self,
                    ).points().last().0 - keep) && (forall|i: int|
                    s <= i < old(self).points().len() ==> #[trigger] old(self).points()[i].0
                        > old(self).points().last().0 - keep),
            forall|i: int|
                0 <= i < final(self).points().len() ==> #[trigger] final(self).points()[i].0
                    >= old(self).points().last().0 - keep,
    {
        proof {
            use_type_invariant(&*self);
        }
        if self.samples.len() == 0 {
            return;
        }
        let last = self.samples[self.samples.len() - 1].0;
        let cut: i128 = last as i128 - keep as i128;
        if (self.samples[0].0 as i128) < cut {
            let a = self.first_after(cut as i64);
            let rest = copy_tail(self.samples.as_slice(), a);
            proof {
                assert(rest@ =~= self.samples@.skip(a as int));
                assert forall|i: int, j: int| 0 <= i <= j < rest@.len() implies rest@[i].0
                    <= rest@[j].0 by {
                    assert(rest@[i] == self.samples@[i + a]);
                    assert(rest@[j] == self.samples@[j + a]);
                }
            }
            *self = SampleBuffer { samples: rest };
        } else {
            proof {
                assert forall|i: int| 0 <= i < self.samples@.len() implies #[trigger] self.samples@[i].0
                    >= last - keep by {
                    assert(self.samples@[0].0 <= self.samples@[i].0);
                }
            }
        }
    }
}

/// Copy of `s[from..]`.
fn copy_tail<V: Copy>(s: &[(i64, V)], from: usize) -> (r: Vec<(i64, V)>)
    requires
        from <= s@.len(),
    ensures
        r@ == s@.skip(from as int),
{
    let mut r: Vec<(i64, V)> = Vec::new();
    let mut i = from;
    while i < s.len()
        invariant
            from <= i <= s@.len(),
            r@ == s@.subrange(from as int, i as int),
        decreases s.len() - i,
    {
        r.push(s[i]);
        i += 1;
        proof {
            assert(r@ =~= s@.subrange(from as int, i as int));
        }
    }
    proof {
        assert(s@.subrange(from as int, s@.len() as int) =~= s@.skip(from as int));
    }
    r
}

} // verus!
