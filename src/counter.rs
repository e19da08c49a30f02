//! A map from a day number to a positive event count, kept as a vector of
//! entries sorted by strictly ascending day.

use vstd::prelude::*;

verus! {

/// Number of events recorded for `day` in `s`.
pub open spec fn count_in(s: Seq<(i32, u64)>, day: int) -> nat
    decreases s.len(),
{
    if s.len() == 0 {
        0
    } else {
        count_in(s.drop_last(), day) + if s.last().0 as int == day {
            s.last().1 as nat
        } else {
            0
        }
    }
}

/// Sum of all counts in `s`.
pub open spec fn total(s: Seq<(i32, u64)>) -> nat
    decreases s.len(),
{
    if s.len() == 0 {
        0
    } else {
        total(s.drop_last()) + s.last().1 as nat
    }
}

/// Days strictly ascending and every count positive.
pub open spec fn sorted_positive(s: Seq<(i32, u64)>) -> bool {
    &&& forall|i: int, j: int| 0 <= i < j < s.len() ==> s[i].0 < s[j].0
    &&& forall|i: int| 0 <= i < s.len() ==> s[i].1 > 0
}

/// Largest count in `s`, zero when empty.
pub open spec fn max_count(s: Seq<(i32, u64)>) -> nat
    decreases s.len(),
{
    if s.len() == 0 {
        0
    } else {
        let m = max_count(s.drop_last());
        if s.last().1 as nat > m {
            s.last().1 as nat
        } else {
            m
        }
    }
}

/// The entries after one more event on `day`: that day's count goes up by
/// one, or the day comes in with count one at its sorted place.
pub open spec fn with_event(s: Seq<(i32, u64)>, day: i32) -> Seq<(i32, u64)>
    decreases s.len(),
{
    if s.len() == 0 {
        seq![(day, 1u64)]
    } else if s[0].0 == day {
        s.update(0, (day, (s[0].1 + 1) as u64))
    } else if s[0].0 > day {
        s.insert(0, (day, 1u64))
    } else {
        seq![s[0]] + with_event(s.drop_first(), day)
    }
}

proof fn lemma_with_event(s: Seq<(i32, u64)>, day: i32, i: int)
    requires
        0 <= i <= s.len(),
        forall|j: int| 0 <= j < i ==> s[j].0 < day,
        i == s.len() || s[i].0 >= day,
    ensures
        with_event(s, day) == if i < s.len() && s[i].0 == day {
            s.update(i, (day, (s[i].1 + 1) as u64))
        } else {
            s.insert(i, (day, 1u64))
        },
    decreases i,
{
    if i == 0 {
        if s.len() == 0 {
            assert(s.insert(0, (day, 1u64)) =~= seq![(day, 1u64)]);
        }
    } else {
        let t = s.drop_first();
        assert forall|j: int| 0 <= j < i - 1 implies t[j].0 < day by {
            assert(t[j] == s[j + 1]);
        }
        if i < s.len() {
            assert(t[i - 1] == s[i]);
        }
        lemma_with_event(t, day, i - 1);
        if i < s.len() && s[i].0 == day {
            assert(seq![s[0]] + t.update(i - 1, (day, (s[i].1 + 1) as u64)) =~= s.update(
                i,
                (day, (s[i].1 + 1) as u64),
            ));
        } else {
            assert(seq![s[0]] + t.insert(i - 1, (day, 1u64)) =~= s.insert(i, (day, 1u64)));
        }
    }
}

proof fn lemma_count_insert(s: Seq<(i32, u64)>, i: int, e: (i32, u64), day: int)
    requires
        0 <= i <= s.len(),
    ensures
        count_in(s.insert(i, e), day) == count_in(s, day) + if e.0 as int == day {
            e.1 as nat
        } else {
            0
        },
        total(s.insert(i, e)) == total(s) + e.1 as nat,
    decreases s.len(),
{
    let t = s.insert(i, e);
    if i == s.len() {
        assert(t.drop_last() =~= s);
    } else {
        assert(t.drop_last() =~= s.drop_last().insert(i, e));
        lemma_count_insert(s.drop_last(), i, e, day);
    }
}

proof fn lemma_count_update(s: Seq<(i32, u64)>, i: int, c: u64, day: int)
    requires
        0 <= i < s.len(),
    ensures
        count_in(s.update(i, (s[i].0, c)), day) + if s[i].0 as int == day {
            s[i].1 as nat
        } else {
            0
        } == count_in(s, day) + if s[i].0 as int == day {
            c as nat
        } else {
            0
        },
        total(s.update(i, (s[i].0, c))) + s[i].1 as nat == total(s) + c as nat,
    decreases s.len(),
{
    let t = s.update(i, (s[i].0, c));
    if i == s.len() - 1 {
        assert(t.drop_last() =~= s.drop_last());
    } else {
        assert(t.drop_last() =~= s.drop_last().update(i, (s[i].0, c)));
        lemma_count_update(s.drop_last(), i, c, day);
    }
}

/// In a sorted map, a day absent from every entry has no count, and the
/// count of a present day is that entry's count.
proof fn lemma_count_sorted(s: Seq<(i32, u64)>, day: int)
    requires
        sorted_positive(s),
    ensures
        (forall|i: int| 0 <= i < s.len() ==> s[i].0 as int != day) ==> count_in(s, day) == 0,
        forall|i: int| 0 <= i < s.len() && s[i].0 as int == day ==> count_in(s, day) == s[i].1,
    decreases s.len(),
{
    if s.len() > 0 {
        let p = s.drop_last();
        lemma_count_sorted(p, day);
        assert forall|i: int| 0 <= i < s.len() && s[i].0 as int == day implies count_in(s, day)
            == s[i].1 by {
            if i == s.len() - 1 {
                assert forall|j: int| 0 <= j < p.len() implies p[j].0 as int != day by {
                    assert(p[j] == s[j]);
                }
            } else {
                assert(p[i] == s[i]);
            }
        }
    }
}

/// Every count is at most the maximum, and the maximum is at most the total.
pub proof fn lemma_max_bounds(s: Seq<(i32, u64)>)
    ensures
        forall|i: int| 0 <= i < s.len() ==> s[i].1 <= max_count(s),
        max_count(s) <= total(s),
    decreases s.len(),
{
    if s.len() > 0 {
        lemma_max_bounds(s.drop_last());
        assert forall|i: int| 0 <= i < s.len() implies s[i].1 <= max_count(s) by {
            if i < s.len() - 1 {
                assert(s[i] == s.drop_last()[i]);
            }
        }
    }
}

/// Event counts per day, with the days kept in ascending order.
pub struct Counter {
    entries: Vec<(i32, u64)>,
}

impl View for Counter {
    type V = Seq<(i32, u64)>;

    closed spec fn view(&self) -> Seq<(i32, u64)> {
        self.entries@
    }
}

impl Counter {
    /// The entries are sorted, positive, and their total leaves room for a
    /// small headroom above any count.
    pub open spec fn wf(&self) -> bool {
        &&& sorted_positive(self@)
        &&& total(self@) + 2 <= u64::MAX
    }

    /// Count recorded for `day` (zero when absent).
    pub open spec fn count(&self, day: int) -> nat {
        count_in(self@, day)
    }

    pub fn new() -> (r: Counter)
        ensures
            r.wf(),
            r@.len() == 0,
            forall|d: int| r.count(d) == 0,
    {
        Counter { entries: Vec::new() }
    }

    /// Number of distinct days present.
    pub fn len(&self) -> (r: usize)
        ensures
            r == self@.len(),
    {
        self.entries.len()
    }

    pub fn is_empty(&self) -> (r: bool)
        ensures
            r == (self@.len() == 0),
    {
        self.entries.len() == 0
    }

    /// The entries, sorted by ascending day.
    pub fn entries(&self) -> (r: &Vec<(i32, u64)>)
        ensures
            r@ == self@,
    {
        &self.entries
    }

    /// Count recorded for `day`.
    pub fn get(&self, day: i32) -> (r: u64)
        requires
            self.wf(),
        ensures
            r == self.count(day as int),
    {
        proof {
            lemma_count_sorted(self@, day as int);
        }
        let mut i: usize = 0;
        while i < self.entries.len()
            invariant
                self.wf(),
                i <= self.entries@.len(),
                forall|j: int| 0 <= j < i ==> self.entries@[j].0 != day,
            decreases self.entries@.len() - i,
        {
            if self.entries[i].0 == day {
                proof {
                    lemma_count_sorted(self.entries@, day as int);
                    assert(self.entries@[i as int].0 as int == day as int);
                }
                return self.entries[i].1;
            }
            i = i + 1;
        }
        0
    }

    /// Records one more event on `day`.
    pub fn add(&mut self, day: i32)
        requires
            old(self).wf(),
            total(old(self)@) + 3 <= u64::MAX,
        ensures
            final(self).wf(),
            final(self)@ == with_event(old(self)@, day),
            total(final(self)@) == total(old(self)@) + 1,
            forall|d: int|
                final(self).count(d) == old(self).count(d) + if d == day as int {
                    1nat
                } else {
                    0nat
                },
    {
        let ghost s = self.entries@;
        let mut i: usize = 0;
        while i < self.entries.len() && self.entries[i].0 < day
            invariant
                self.entries@ == s,
                i <= s.len(),
                forall|j: int| 0 <= j < i ==> s[j].0 < day,
            decreases s.len() - i,
        {
            i = i + 1;
        }
        if i < self.entries.len() && self.entries[i].0 == day {
            let c = self.entries[i].1;
            proof {
                lemma_max_bounds(s);
            }
            self.entries.set(i, (day, c + 1));
            proof {
                lemma_with_event(s, day, i as int);
                assert forall|d: int|
                    #[trigger] count_in(self.entries@, d) == count_in(s, d) + if d == day as int {
                        1nat
                    } else {
                        0nat
                    } by {
                    lemma_count_update(s, i as int, (c + 1) as u64, d);
                }
                lemma_count_update(s, i as int, (c + 1) as u64, day as int);
            }
        } else {
            self.entries.insert(i, (day, 1));
            proof {
                lemma_with_event(s, day, i as int);
                assert forall|d: int|
                    #[trigger] count_in(self.entries@, d) == count_in(s, d) + if d == day as int {
                        1nat
                    } else {
                        0nat
                    } by {
                    lemma_count_insert(s, i as int, (day, 1u64), d);
                }
                lemma_count_insert(s, i as int, (day, 1u64), day as int);
            }
        }
    }
}

} // verus!
