//! Per-metric timing samples, bucketed by whole-second windows.

use vstd::prelude::*;
use crate::conversions::str_eq;
use crate::statistics::ComputedMetric;
use crate::statistics::compute_metric;
use crate::statistics::is_metric_for;

verus! {

/// A sample's start time, in whole seconds.
pub type StartTime = u64;

/// One whole-second bucket.
pub type Second = u64;

/// One timing sample, in integer time units.
pub type Duration = u64;

/// The model of one metric's buckets: second and samples, in storage order.
pub open spec fn secs_model(v: Seq<(Second, Vec<Duration>)>) -> Seq<(Second, Seq<Duration>)> {
    v.map(|j: int, se: (Second, Vec<Duration>)| (se.0, se.1@))
}

/// The model of the whole store: name and buckets, in storage order.
pub open spec fn series_model(t: Seq<(String, Vec<(Second, Vec<Duration>)>)>) -> Seq<
    (Seq<char>, Seq<(Second, Seq<Duration>)>),
> {
    t.map(|i: int, e: (String, Vec<(Second, Vec<Duration>)>)| (e.0@, secs_model(e.1@)))
}

/// Index of the first entry with this name, or the length if none has it.
pub open spec fn name_idx(
    m: Seq<(Seq<char>, Seq<(Second, Seq<Duration>)>)>,
    name: Seq<char>,
) -> int
    decreases m.len(),
{
    if m.len() == 0 {
        0
    } else if m[0].0 == name {
        0
    } else {
        1 + name_idx(m.drop_first(), name)
    }
}

/// `name_idx` is pinned down by its first-match characterization.
pub proof fn lemma_name_idx_is(
    m: Seq<(Seq<char>, Seq<(Second, Seq<Duration>)>)>,
    name: Seq<char>,
    i: int,
)
    requires
        0 <= i <= m.len(),
        forall|k: int| 0 <= k < i ==> #[trigger] m[k].0 != name,
        i == m.len() || m[i].0 == name,
    ensures
        name_idx(m, name) == i,
    decreases i,
{
    if i == 0 {
    } else {
        assert(m[0].0 != name);
        assert(forall|k: int| 0 <= k < i - 1 ==> #[trigger] m.drop_first()[k].0 != name);
        lemma_name_idx_is(m.drop_first(), name, i - 1);
    }
}

/// Index of the first bucket with this second, or the length if none has it.
pub open spec fn sec_idx(ss: Seq<(Second, Seq<Duration>)>, sec: Second) -> int
    decreases ss.len(),
{
    if ss.len() == 0 {
        0
    } else if ss[0].0 == sec {
        0
    } else {
        1 + sec_idx(ss.drop_first(), sec)
    }
}

/// `sec_idx` is pinned down by its first-match characterization.
pub proof fn lemma_sec_idx_is(ss: Seq<(Second, Seq<Duration>)>, sec: Second, j: int)
    requires
        0 <= j <= ss.len(),
        forall|k: int| 0 <= k < j ==> #[trigger] ss[k].0 != sec,
        j == ss.len() || ss[j].0 == sec,
    ensures
        sec_idx(ss, sec) == j,
    decreases j,
{
    if j == 0 {
    } else {
        assert(ss[0].0 != sec);
        assert(forall|k: int| 0 <= k < j - 1 ==> #[trigger] ss.drop_first()[k].0 != sec);
        lemma_sec_idx_is(ss.drop_first(), sec, j - 1);
    }
}

/// `name_idx` never passes the end.
pub proof fn lemma_name_idx_le(m: Seq<(Seq<char>, Seq<(Second, Seq<Duration>)>)>, name: Seq<char>)
    ensures
        0 <= name_idx(m, name) <= m.len(),
    decreases m.len(),
{
    if m.len() > 0 && m[0].0 != name {
        lemma_name_idx_le(m.drop_first(), name);
    }
}

/// `sec_idx` never passes the end.
pub proof fn lemma_sec_idx_le(ss: Seq<(Second, Seq<Duration>)>, sec: Second)
    ensures
        0 <= sec_idx(ss, sec) <= ss.len(),
    decreases ss.len(),
{
    if ss.len() > 0 && ss[0].0 != sec {
        lemma_sec_idx_le(ss.drop_first(), sec);
    }
}

/// One sample added to one metric's buckets: a new bucket is appended for an
/// unseen second, otherwise the sample joins its bucket.
pub open spec fn add_to_secs(
    ss: Seq<(Second, Seq<Duration>)>,
    sec: Second,
    dur: Duration,
) -> Seq<(Second, Seq<Duration>)> {
    let j = sec_idx(ss, sec);
    if j == ss.len() {
        ss.push((sec, seq![dur]))
    } else {
        ss.update(j, (ss[j].0, ss[j].1.push(dur)))
    }
}

/// One sample added to the store: a new entry is appended for an unseen
/// name, otherwise the sample goes into that name's buckets.
pub open spec fn add_to_series(
    m: Seq<(Seq<char>, Seq<(Second, Seq<Duration>)>)>,
    name: Seq<char>,
    sec: Second,
    dur: Duration,
) -> Seq<(Seq<char>, Seq<(Second, Seq<Duration>)>)> {
    let i = name_idx(m, name);
    if i == m.len() {
        m.push((name, seq![(sec, seq![dur])]))
    } else {
        m.update(i, (m[i].0, add_to_secs(m[i].1, sec, dur)))
    }
}

/// One metric's buckets merged into another's: per second of `b`, an unseen
/// second is appended, a seen one has `b`'s samples appended to it.
pub open spec fn merge_secs(
    a: Seq<(Second, Seq<Duration>)>,
    b: Seq<(Second, Seq<Duration>)>,
) -> Seq<(Second, Seq<Duration>)>
    decreases b.len(),
{
    if b.len() == 0 {
        a
    } else {
        let j = sec_idx(a, b[0].0);
        let a2 = if j == a.len() {
            a.push(b[0])
        } else {
            a.update(j, (a[j].0, a[j].1 + b[0].1))
        };
        merge_secs(a2, b.drop_first())
    }
}

/// One store merged into another: per name of `b`, an unseen name is
/// appended whole, a seen one has its buckets merged by `merge_secs`.
pub open spec fn merge_series(
    a: Seq<(Seq<char>, Seq<(Second, Seq<Duration>)>)>,
    b: Seq<(Seq<char>, Seq<(Second, Seq<Duration>)>)>,
) -> Seq<(Seq<char>, Seq<(Second, Seq<Duration>)>)>
    decreases b.len(),
{
    if b.len() == 0 {
        a
    } else {
        let i = name_idx(a, b[0].0);
        let a2 = if i == a.len() {
            a.push(b[0])
        } else {
            a.update(i, (a[i].0, merge_secs(a[i].1, b[0].1)))
        };
        merge_series(a2, b.drop_first())
    }
}

/// All of one metric's samples, every bucket's in storage order: the
/// sample set the aggregates are computed over.
pub open spec fn all_samples(ss: Seq<(Second, Seq<Duration>)>) -> Seq<Duration>
    decreases ss.len(),
{
    if ss.len() == 0 {
        Seq::empty()
    } else {
        all_samples(ss.drop_last()) + ss.last().1
    }
}

/// Removing an element and inserting another at the same place is an
/// update.
proof fn lemma_remove_insert<A>(s: Seq<A>, i: int, x: A)
    requires
        0 <= i < s.len(),
    ensures
        s.remove(i).insert(i, x) == s.update(i, x),
{
    assert(s.remove(i).insert(i, x) =~= s.update(i, x));
}

/// The bucket model of an in-place update: only the samples at `j` change.
proof fn lemma_secs_update(
    v0: Seq<(Second, Vec<Duration>)>,
    v1: Seq<(Second, Vec<Duration>)>,
    j: int,
    samples: Seq<Duration>,
)
    requires
        0 <= j < v0.len(),
        v1.len() == v0.len(),
        forall|q: int| 0 <= q < v0.len() && q != j ==> v1[q] == v0[q],
        v1[j].0 == v0[j].0,
        v1[j].1@ == samples,
    ensures
        secs_model(v1) == secs_model(v0).update(j, (secs_model(v0)[j].0, samples)),
{
    let target = secs_model(v0).update(j, (secs_model(v0)[j].0, samples));
    assert forall|q: int| 0 <= q < v1.len() implies secs_model(v1)[q] == target[q] by {
        if q == j {
            assert(secs_model(v1)[q] == (v1[j].0, v1[j].1@));
        } else {
            assert(secs_model(v1)[q] == (v1[q].0, v1[q].1@));
            assert(secs_model(v0)[q] == (v0[q].0, v0[q].1@));
        }
    }
    assert(secs_model(v1) =~= target);
}

/// The bucket model of appending one bucket.
proof fn lemma_secs_push(
    v0: Seq<(Second, Vec<Duration>)>,
    v1: Seq<(Second, Vec<Duration>)>,
    sec: Second,
    samples: Seq<Duration>,
)
    requires
        v1.len() == v0.len() + 1,
        forall|q: int| 0 <= q < v0.len() ==> v1[q] == v0[q],
        v1[v0.len() as int].0 == sec,
        v1[v0.len() as int].1@ == samples,
    ensures
        secs_model(v1) == secs_model(v0).push((sec, samples)),
{
    let target = secs_model(v0).push((sec, samples));
    assert forall|q: int| 0 <= q < v1.len() implies secs_model(v1)[q] == target[q] by {
        assert(secs_model(v1)[q] == (v1[q].0, v1[q].1@));
        if q < v0.len() {
            assert(secs_model(v0)[q] == (v0[q].0, v0[q].1@));
        }
    }
    assert(secs_model(v1) =~= target);
}

/// The store model of an in-place update: only the buckets at `i` change.
proof fn lemma_series_update(
    t0: Seq<(String, Vec<(Second, Vec<Duration>)>)>,
    t1: Seq<(String, Vec<(Second, Vec<Duration>)>)>,
    i: int,
    secs: Seq<(Second, Seq<Duration>)>,
)
    requires
        0 <= i < t0.len(),
        t1.len() == t0.len(),
        forall|q: int| 0 <= q < t0.len() && q != i ==> t1[q] == t0[q],
        t1[i].0@ == t0[i].0@,
        secs_model(t1[i].1@) == secs,
    ensures
        series_model(t1) == series_model(t0).update(i, (series_model(t0)[i].0, secs)),
{
    let target = series_model(t0).update(i, (series_model(t0)[i].0, secs));
    assert forall|q: int| 0 <= q < t1.len() implies series_model(t1)[q] == target[q] by {
        assert(series_model(t1)[q] == (t1[q].0@, secs_model(t1[q].1@)));
        assert(series_model(t0)[q] == (t0[q].0@, secs_model(t0[q].1@)));
    }
    assert(series_model(t1) =~= target);
}

/// The store model of appending one entry.
proof fn lemma_series_push(
    t0: Seq<(String, Vec<(Second, Vec<Duration>)>)>,
    t1: Seq<(String, Vec<(Second, Vec<Duration>)>)>,
    name: Seq<char>,
    secs: Seq<(Second, Seq<Duration>)>,
)
    requires
        t1.len() == t0.len() + 1,
        forall|q: int| 0 <= q < t0.len() ==> t1[q] == t0[q],
        t1[t0.len() as int].0@ == name,
        secs_model(t1[t0.len() as int].1@) == secs,
    ensures
        series_model(t1) == series_model(t0).push((name, secs)),
{
    let target = series_model(t0).push((name, secs));
    assert forall|q: int| 0 <= q < t1.len() implies series_model(t1)[q] == target[q] by {
        assert(series_model(t1)[q] == (t1[q].0@, secs_model(t1[q].1@)));
        if q < t0.len() {
            assert(series_model(t0)[q] == (t0[q].0@, secs_model(t0[q].1@)));
        }
    }
    assert(series_model(t1) =~= target);
}

/// Timing samples per metric name, bucketed by whole second, in insertion
/// order.
#[derive(Clone, Debug)]
pub struct TimeSeries {
    timers: Vec<(String, Vec<(Second, Vec<Duration>)>)>,
}

impl TimeSeries {
    /// The mathematical content: names with their buckets, in order.
    pub closed spec fn model(&self) -> Seq<(Seq<char>, Seq<(Second, Seq<Duration>)>)> {
        series_model(self.timers@)
    }

    /// Every stored name has at least one bucket: what construction by
    /// `add_timer` and `merge` guarantees, and what `compute_metrics` needs.
    pub open spec fn wf(&self) -> bool {
        forall|i: int| 0 <= i < self.model().len() ==> #[trigger] self.model()[i].1.len() > 0
    }

    /// An empty store.
    pub fn new() -> (r: TimeSeries)
        ensures
            r.model() == Seq::<(Seq<char>, Seq<(Second, Seq<Duration>)>)>::empty(),
            r.wf(),
    {
        let r = TimeSeries { timers: Vec::new() };
        proof {
            assert(r.model() =~~= Seq::<(Seq<char>, Seq<(Second, Seq<Duration>)>)>::empty());
        }
        r
    }

    /// The stored series, for read-only inspection.
    pub fn get_timers(&self) -> (r: &Vec<(String, Vec<(Second, Vec<Duration>)>)>)
        ensures
            series_model(r@) == self.model(),
    {
        &self.timers
    }

    /// Drop everything.
    pub fn clear(&mut self)
        ensures
            final(self).model() == Seq::<(Seq<char>, Seq<(Second, Seq<Duration>)>)>::empty(),
            final(self).wf(),
    {
        self.timers = Vec::new();
        proof {
            assert(self.model() =~~= Seq::<(Seq<char>, Seq<(Second, Seq<Duration>)>)>::empty());
        }
    }

    /// Record one sample under its name and whole-second bucket.
    pub fn add_timer(&mut self, name: &str, start_time: StartTime, dur: Duration)
        requires
            old(self).wf(),
        ensures
            final(self).wf(),
            final(self).model() == add_to_series(old(self).model(), name@, start_time, dur),
    {
        let ghost m0 = self.model();
        let ghost t0 = self.timers@;
        let sec: Second = start_time;
        let (i, found) = self.find_name(name);
        if !found {
            let mut samples: Vec<Duration> = Vec::new();
            samples.push(dur);
            let mut secs: Vec<(Second, Vec<Duration>)> = Vec::new();
            secs.push((sec, samples));
            let ghost sv = secs;
            self.timers.push((name.to_owned(), secs));
            proof {
                assert(sv@[0].1@ =~= seq![dur]);
                lemma_secs_push(Seq::empty(), sv@, sec, seq![dur]);
                assert(secs_model(Seq::empty()) =~= Seq::<(Second, Seq<Duration>)>::empty());
                assert(secs_model(sv@) == Seq::<(Second, Seq<Duration>)>::empty().push(
                    (sec, seq![dur]),
                ));
                assert(secs_model(sv@) =~= seq![(sec, seq![dur])]);
                lemma_series_push(t0, self.timers@, name@, secs_model(sv@));
                assert((name@, secs_model(sv@)) == (name@, seq![(sec, seq![dur])]));
            }
        } else {
            let mut entry = self.timers.remove(i);
            let ghost ss0 = secs_model(entry.1@);
            proof {
                assert(ss0 == m0[i as int].1);
            }
            let (j, sfound) = find_sec(&entry.1, sec);
            let ghost v0 = entry.1@;
            proof {
                assert(secs_model(v0) == ss0);
                if sfound {
                    assert(sec_idx(ss0, sec) == j as int);
                } else {
                    assert(sec_idx(ss0, sec) == ss0.len());
                }
            }
            if !sfound {
                let mut samples: Vec<Duration> = Vec::new();
                samples.push(dur);
                entry.1.push((sec, samples));
                proof {
                    assert(entry.1@[v0.len() as int].1@ =~= seq![dur]);
                    lemma_secs_push(v0, entry.1@, sec, seq![dur]);
                    assert(secs_model(entry.1@) == ss0.push((sec, seq![dur])));
                }
            } else {
                let mut bucket = entry.1.remove(j);
                bucket.1.push(dur);
                let ghost bv = bucket;
                entry.1.insert(j, bucket);
                proof {
                    lemma_remove_insert(v0, j as int, bv);
                    lemma_secs_update(v0, entry.1@, j as int, bv.1@);
                    assert(bv.1@ == ss0[j as int].1.push(dur));
                    assert((secs_model(v0)[j as int].0, bv.1@) == (
                        ss0[j as int].0,
                        ss0[j as int].1.push(dur),
                    ));
                }
            }
            proof {
                assert(secs_model(entry.1@) == add_to_secs(ss0, sec, dur));
            }
            let ghost ev = entry;
            self.timers.insert(i, entry);
            proof {
                lemma_remove_insert(t0, i as int, ev);
                lemma_series_update(t0, self.timers@, i as int, secs_model(ev.1@));
                assert((series_model(t0)[i as int].0, secs_model(ev.1@)) == (
                    m0[i as int].0,
                    add_to_secs(m0[i as int].1, sec, dur),
                ));
            }
        }
    }

    /// Index of the entry holding this name, if any: the first-match index
    /// `name_idx` of the model.
    fn find_name(&self, name: &str) -> (r: (usize, bool))
        ensures
            r.1 == (name_idx(self.model(), name@) < self.model().len()),
            r.1 ==> r.0 == name_idx(self.model(), name@),
            !r.1 ==> r.0 == self.model().len() && name_idx(self.model(), name@)
                == self.model().len(),
    {
        let mut i: usize = 0;
        let mut found = false;
        while !found && i < self.timers.len()
            invariant
                i <= self.timers@.len(),
                forall|k: int| 0 <= k < i ==> #[trigger] self.model()[k].0 != name@,
                found ==> i < self.timers@.len() && self.model()[i as int].0 == name@,
            decreases self.timers@.len() - i, (if found { 0int } else { 1int }),
        {
            if str_eq(self.timers[i].0.as_str(), name) {
                found = true;
            } else {
                i = i + 1;
            }
        }
        proof {
            if found {
                lemma_name_idx_is(self.model(), name@, i as int);
            } else {
                lemma_name_idx_is(self.model(), name@, self.model().len() as int);
            }
        }
        (i, found)
    }

    /// Merge another store into this one: unseen names are appended whole,
    /// shared names have their buckets merged second by second, appending
    /// samples of shared seconds in order.
    pub fn merge(&mut self, other: &TimeSeries)
        requires
            old(self).wf(),
            other.wf(),
        ensures
            final(self).wf(),
            final(self).model() == merge_series(old(self).model(), other.model()),
    {
        let ghost a0 = self.model();
        let ghost b = other.model();
        proof {
            assert(b.skip(0) =~= b);
        }
        let mut k: usize = 0;
        while k < other.timers.len()
            invariant
                k <= other.timers@.len(),
                b == other.model(),
                other.wf(),
                self.wf(),
                merge_series(a0, b) == merge_series(self.model(), b.skip(k as int)),
            decreases other.timers@.len() - k,
        {
            let ghost cur = self.model();
            let ghost t0 = self.timers@;
            let ghost bk = b[k as int];
            proof {
                assert(b.skip(k as int)[0] == b[k as int]);
                assert(b.skip(k as int).drop_first() =~= b.skip(k as int + 1));
                assert(bk == (other.timers@[k as int].0@, secs_model(other.timers@[k as int].1@)));
            }
            let other_entry = &other.timers[k];
            let (i, found) = self.find_name(other_entry.0.as_str());
            if !found {
                let secs_copy = clone_secs(&other_entry.1);
                let ghost sv = secs_copy;
                self.timers.push((other_entry.0.clone(), secs_copy));
                proof {
                    lemma_series_push(t0, self.timers@, bk.0, secs_model(sv@));
                    assert((bk.0, secs_model(sv@)) == bk);
                }
            } else {
                let mut entry = self.timers.remove(i);
                let ghost e0 = secs_model(entry.1@);
                let ghost bs = secs_model(other_entry.1@);
                proof {
                    assert(e0 == cur[i as int].1);
                    assert(bs == bk.1);
                    assert(bs.skip(0) =~= bs);
                }
                let mut t: usize = 0;
                while t < other_entry.1.len()
                    invariant
                        t <= other_entry.1@.len(),
                        bs == secs_model(other_entry.1@),
                        entry.0 == t0[i as int].0,
                        entry.1@.len() >= 1,
                        merge_secs(e0, bs) == merge_secs(secs_model(entry.1@), bs.skip(t as int)),
                    decreases other_entry.1@.len() - t,
                {
                    let ghost scur = secs_model(entry.1@);
                    let ghost v0 = entry.1@;
                    let ghost bt = bs[t as int];
                    proof {
                        assert(bs.skip(t as int)[0] == bs[t as int]);
                        assert(bs.skip(t as int).drop_first() =~= bs.skip(t as int + 1));
                        assert(bt == (other_entry.1@[t as int].0, other_entry.1@[t as int].1@));
                    }
                    let sec = other_entry.1[t].0;
                    let (j, sfound) = find_sec(&entry.1, sec);
                    proof {
                        assert(secs_model(v0) == scur);
                        if sfound {
                            assert(sec_idx(scur, sec) == j as int);
                        } else {
                            assert(sec_idx(scur, sec) == scur.len());
                        }
                    }
                    if !sfound {
                        let copied = clone_samples(&other_entry.1[t].1);
                        let ghost cv = copied;
                        entry.1.push((sec, copied));
                        proof {
                            lemma_secs_push(v0, entry.1@, sec, cv@);
                            assert((sec, cv@) == bt);
                            assert(secs_model(entry.1@) == scur.push(bt));
                        }
                    } else {
                        let mut bucket = entry.1.remove(j);
                        bucket.1.extend_from_slice(other_entry.1[t].1.as_slice());
                        let ghost bv = bucket;
                        entry.1.insert(j, bucket);
                        proof {
                            lemma_remove_insert(v0, j as int, bv);
                            lemma_secs_update(v0, entry.1@, j as int, bv.1@);
                            assert(bv.1@ =~= scur[j as int].1 + bt.1);
                            assert((secs_model(v0)[j as int].0, bv.1@) == (
                                scur[j as int].0,
                                scur[j as int].1 + bt.1,
                            ));
                        }
                    }
                    t = t + 1;
                }
                proof {
                    assert(bs.skip(other_entry.1@.len() as int) =~= Seq::<
                        (Second, Seq<Duration>),
                    >::empty());
                    assert(merge_secs(secs_model(entry.1@), Seq::empty()) == secs_model(entry.1@));
                    assert(secs_model(entry.1@) == merge_secs(cur[i as int].1, bk.1));
                }
                let ghost ev = entry;
                self.timers.insert(i, entry);
                proof {
                    lemma_remove_insert(t0, i as int, ev);
                    lemma_series_update(t0, self.timers@, i as int, secs_model(ev.1@));
                    assert((series_model(t0)[i as int].0, secs_model(ev.1@)) == (
                        cur[i as int].0,
                        merge_secs(cur[i as int].1, bk.1),
                    ));
                }
            }
            proof {
                assert forall|q: int|
                    0 <= q < self.model().len() implies #[trigger] self.model()[q].1.len()
                    > 0 by {
                    if q < cur.len() && self.model()[q] == cur[q] {
                    }
                }
            }
            k = k + 1;
        }
        proof {
            assert(b.skip(other.timers@.len() as int) =~= Seq::<
                (Seq<char>, Seq<(Second, Seq<Duration>)>),
            >::empty());
        }
    }

    /// One metric per stored name, in storage order, aggregated over that
    /// name's full sample set: every bucket's samples together.
    pub fn compute_metrics(&self) -> (r: Vec<(String, ComputedMetric)>)
        ensures
            r@.len() == self.model().len(),
            forall|i: int|
                0 <= i < r@.len() ==> #[trigger] r@[i].0@ == self.model()[i].0 && is_metric_for(
                    r@[i].1,
                    self.model()[i].0,
                    all_samples(self.model()[i].1),
                ),
    {
        let mut out: Vec<(String, ComputedMetric)> = Vec::new();
        let mut i: usize = 0;
        while i < self.timers.len()
            invariant
                i <= self.timers@.len(),
                out@.len() == i,
                forall|q: int|
                    0 <= q < i ==> #[trigger] out@[q].0@ == self.model()[q].0 && is_metric_for(
                        out@[q].1,
                        self.model()[q].0,
                        all_samples(self.model()[q].1),
                    ),
            decreases self.timers@.len() - i,
        {
            let entry = &self.timers[i];
            let ghost secs = secs_model(entry.1@);
            proof {
                assert(self.model()[i as int].1 == secs);
            }
            let mut samples: Vec<Duration> = Vec::new();
            let mut j: usize = 0;
            proof {
                assert(secs.take(0) =~= Seq::<(Second, Seq<Duration>)>::empty());
                assert(samples@ =~= all_samples(secs.take(0)));
            }
            while j < entry.1.len()
                invariant
                    j <= entry.1@.len(),
                    secs == secs_model(entry.1@),
                    samples@ == all_samples(secs.take(j as int)),
                decreases entry.1@.len() - j,
            {
                samples.extend_from_slice(entry.1[j].1.as_slice());
                proof {
                    assert(secs.take(j as int + 1).drop_last() =~= secs.take(j as int));
                    assert(secs.take(j as int + 1).last() == secs[j as int]);
                    assert(secs[j as int].1 == entry.1@[j as int].1@);
                    assert(samples@ =~= all_samples(secs.take(j as int)) + secs[j as int].1);
                }
                j = j + 1;
            }
            let nlen = samples.len();
            proof {
                assert(secs.take(secs.len() as int) =~= secs);
                assert(samples@.len() == nlen);
                assert(samples@.len() <= u64::MAX);
            }
            let m = compute_metric(entry.0.as_str(), &samples);
            out.push((entry.0.clone(), m));
            i = i + 1;
        }
        out
    }
}

/// A value copy of one sample list.
fn clone_samples(v: &Vec<Duration>) -> (r: Vec<Duration>)
    ensures
        r@ == v@,
{
    let mut r: Vec<Duration> = Vec::new();
    let mut i: usize = 0;
    while i < v.len()
        invariant
            i <= v@.len(),
            r@ == v@.take(i as int),
        decreases v@.len() - i,
    {
        r.push(v[i]);
        proof {
            assert(r@ =~= v@.take(i as int + 1));
        }
        i = i + 1;
    }
    proof {
        assert(v@.take(v@.len() as int) =~= v@);
    }
    r
}

/// A value copy of one metric's buckets.
fn clone_secs(v: &Vec<(Second, Vec<Duration>)>) -> (r: Vec<(Second, Vec<Duration>)>)
    ensures
        secs_model(r@) == secs_model(v@),
{
    let mut r: Vec<(Second, Vec<Duration>)> = Vec::new();
    let mut i: usize = 0;
    while i < v.len()
        invariant
            i <= v@.len(),
            r@.len() == i,
            secs_model(r@) == secs_model(v@.take(i as int)),
        decreases v@.len() - i,
    {
        let ghost before = r@;
        let bucket = &v[i];
        let cloned = clone_samples(&bucket.1);
        let ghost cv = cloned;
        r.push((bucket.0, cloned));
        proof {
            assert(cv@ == v@[i as int].1@);
            assert(r@ == before.push((v@[i as int].0, cv)));
            assert forall|q: int|
                0 <= q < r@.len() implies secs_model(r@)[q] == secs_model(
                v@.take(i as int + 1),
            )[q] by {
                assert(v@.take(i as int + 1)[q] == v@[q]);
                if q < i {
                    assert(r@[q] == before[q]);
                    assert(secs_model(before)[q] == secs_model(v@.take(i as int))[q]);
                    assert(v@.take(i as int)[q] == v@[q]);
                    assert(secs_model(r@)[q] == secs_model(before)[q]);
                } else {
                    assert(r@[q] == (v@[i as int].0, cv));
                    assert(secs_model(r@)[q] == (v@[i as int].0, cv@));
                    assert(secs_model(v@.take(i as int + 1))[q] == (v@[q].0, v@[q].1@));
                }
            }
            assert(secs_model(r@) =~= secs_model(v@.take(i as int + 1)));
        }
        i = i + 1;
    }
    proof {
        assert(v@.take(v@.len() as int) =~= v@);
    }
    r
}

/// Index of the bucket holding this second, if any: the first-match index
/// `sec_idx` of the model.
fn find_sec(v: &Vec<(Second, Vec<Duration>)>, sec: Second) -> (r: (usize, bool))
    ensures
        r.1 == (sec_idx(secs_model(v@), sec) < v@.len()),
        r.1 ==> r.0 == sec_idx(secs_model(v@), sec),
        !r.1 ==> r.0 == v@.len() && sec_idx(secs_model(v@), sec) == v@.len(),
{
    let mut j: usize = 0;
    let mut found = false;
    while !found && j < v.len()
        invariant
            j <= v@.len(),
            forall|k: int| 0 <= k < j ==> #[trigger] secs_model(v@)[k].0 != sec,
            found ==> j < v@.len() && secs_model(v@)[j as int].0 == sec,
        decreases v@.len() - j, (if found { 0int } else { 1int }),
    {
        if v[j].0 == sec {
            found = true;
        } else {
            j = j + 1;
        }
    }
    proof {
        if found {
            lemma_sec_idx_is(secs_model(v@), sec, j as int);
        } else {
            lemma_sec_idx_is(secs_model(v@), sec, v@.len() as int);
        }
    }
    (j, found)
}

} // verus!
