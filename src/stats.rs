//! Median and mode of an integer sequence, over a frequency table.
use vstd::prelude::*;
use crate::sort::{is_sorted, is_sorting_of, vec_sort};

verus! {

broadcast use vstd::seq_lib::group_to_multiset_ensures;

/// How often `x` occurs in `s`.
pub open spec fn count_in(s: Seq<i32>, x: i32) -> nat {
    s.to_multiset().count(x)
}

/// Some entry of `e` is for the value `x`.
pub open spec fn has_value(e: Seq<(i32, usize)>, x: i32) -> bool {
    exists|k: int| 0 <= k < e.len() && #[trigger] e[k].0 == x
}

/// A value with how often it occurs.
#[derive(Debug, Clone, Copy, PartialEq, Eq, Structural)]
pub struct Mode {
    pub value: i32,
    pub count: usize,
}

/// Why a statistic could not be computed.
#[derive(Debug, Clone, Copy, PartialEq, Eq, Structural)]
pub enum StatsError {
    /// The sequence holds no element, so no value can be selected.
    EmptyInput,
}

/// `m` is a most frequent value of `s`, with its number of occurrences.
pub open spec fn is_mode_of(m: Mode, s: Seq<i32>) -> bool {
    &&& m.count >= 1
    &&& m.count == count_in(s, m.value)
    &&& forall|x: i32| #[trigger] count_in(s, x) <= m.count
}

/// Each distinct value of a sequence with its number of occurrences, in the
/// order in which the values first occur.
pub struct FrequencyTable {
    entries: Vec<(i32, usize)>,
}

impl View for FrequencyTable {
    type V = Seq<(i32, usize)>;

    closed spec fn view(&self) -> Seq<(i32, usize)> {
        self.entries@
    }
}

impl FrequencyTable {
    /// The table lists each value of `s` once, with its count, and nothing else.
    pub open spec fn describes(self, s: Seq<i32>) -> bool {
        &&& forall|k: int| 0 <= k < self@.len() ==> #[trigger] self@[k].1 == count_in(s, self@[k].0)
        &&& forall|k1: int, k2: int|
            0 <= k1 < k2 < self@.len() ==> #[trigger] self@[k1].0 != #[trigger] self@[k2].0
        &&& forall|x: i32| s.contains(x) <==> #[trigger] has_value(self@, x)
    }

    /// Scans the entries once, keeping the first one whose count strictly
    /// exceeds the best count seen so far (which starts at zero).
    pub fn most_frequent(&self) -> (r: Option<Mode>)
        ensures
            r is None <==> forall|k: int| 0 <= k < self@.len() ==> #[trigger] self@[k].1 == 0,
            r matches Some(m) ==> {
                &&& m.count > 0
                &&& forall|j: int| 0 <= j < self@.len() ==> #[trigger] self@[j].1 <= m.count
                &&& exists|k: int|
                    0 <= k < self@.len() && #[trigger] self@[k] == (m.value, m.count) && forall|j: int|
                        0 <= j < k ==> #[trigger] self@[j].1 < m.count
            },
    {
        let mut best: Option<Mode> = None;
        let mut best_count: usize = 0;
        let ghost mut best_index: int = 0;
        let mut i: usize = 0;
        while i < self.entries.len()
            invariant
                i <= self@.len(),
                self@ == self.entries@,
                best is None <==> best_count == 0,
                best is None ==> forall|k: int| 0 <= k < i ==> #[trigger] self@[k].1 == 0,
                forall|j: int| 0 <= j < i ==> #[trigger] self@[j].1 <= best_count,
                best matches Some(m) ==> {
                    &&& m.count == best_count
                    &&& 0 <= best_index < i
                    &&& self@[best_index] == (m.value, m.count)
                    &&& forall|j: int| 0 <= j < best_index ==> #[trigger] self@[j].1 < m.count
                },
            decreases self@.len() - i,
        {
            let (value, count) = self.entries[i];
            if count > best_count {
                best = Some(Mode { value, count });
                best_count = count;
                proof {
                    best_index = i as int;
                }
            }
            i = i + 1;
        }
        proof {
            if best is Some {
                assert(self@[best_index].1 > 0);
            }
        }
        best
    }

    /// The entries, as (value, count) pairs.
    pub fn entries(&self) -> (r: &Vec<(i32, usize)>)
        ensures
            r@ == self@,
    {
        &self.entries
    }
}

/// Counts the occurrences of each value of `v`.
pub fn frequency_table(v: &Vec<i32>) -> (t: FrequencyTable)
    ensures
        t.describes(v@),
{
    let mut entries: Vec<(i32, usize)> = Vec::new();
    let mut i: usize = 0;
    while i < v.len()
        invariant
            i <= v.len(),
            forall|k: int| 0 <= k < entries@.len() ==> #[trigger] entries@[k].1 == count_in(v@.subrange(0, i as int), entries@[k].0),
            forall|k: int| 0 <= k < entries@.len() ==> #[trigger] entries@[k].1 <= i,
            forall|k1: int, k2: int|
                0 <= k1 < k2 < entries@.len() ==> #[trigger] entries@[k1].0 != #[trigger] entries@[k2].0,
            forall|x: i32| v@.subrange(0, i as int).contains(x) <==> #[trigger] has_value(entries@, x),
        decreases v.len() - i,
    {
        let x = v[i];
        let ghost before = v@.subrange(0, i as int);
        let ghost old_entries = entries@;
        assert(v@.subrange(0, i + 1) =~= before.push(x));
        proof {
            assert forall|y: i32|
                #[trigger] count_in(before.push(x), y) == count_in(before, y) + (if y == x {
                    1nat
                } else {
                    0nat
                }) by {
                assert(before.push(x).to_multiset() =~= before.to_multiset().insert(x));
            }
            assert forall|y: i32| #[trigger] before.push(x).contains(y) <==> (before.contains(y) || y == x) by {
                if before.contains(y) {
                    let j = choose|j: int| 0 <= j < before.len() && before[j] == y;
                    assert(before.push(x)[j] == y);
                }
                if y == x {
                    assert(before.push(x)[before.len() as int] == y);
                }
                if before.push(x).contains(y) {
                    let j = choose|j: int| 0 <= j < before.len() + 1 && before.push(x)[j] == y;
                    if j < before.len() {
                        assert(before[j] == y);
                    }
                }
            }
        }
        let mut k: usize = 0;
        let mut found: bool = false;
        while k < entries.len() && !found
            invariant
                k <= entries@.len(),
                entries@ == old_entries,
                !found ==> forall|j: int| 0 <= j < k ==> #[trigger] entries@[j].0 != x,
                found ==> k < entries@.len() && entries@[k as int].0 == x,
            decreases entries@.len() - k + (if found { 0int } else { 1int }),
        {
            if entries[k].0 == x {
                found = true;
            } else {
                k = k + 1;
            }
        }
        if found {
            let c = entries[k].1;
            entries.set(k, (x, c + 1));
            assert forall|y: i32| #[trigger] has_value(old_entries, y) implies has_value(entries@, y) by {
                let j = choose|j: int| 0 <= j < old_entries.len() && #[trigger] old_entries[j].0 == y;
                assert(entries@[j].0 == y);
            }
        } else {
            entries.push((x, 1));
            assert(entries@[old_entries.len() as int].0 == x);
            assert forall|y: i32| #[trigger] has_value(old_entries, y) implies has_value(entries@, y) by {
                let j = choose|j: int| 0 <= j < old_entries.len() && #[trigger] old_entries[j].0 == y;
                assert(entries@[j].0 == y);
            }
        }
        proof {
            let after = before.push(x);
            assert(forall|j: int| 0 <= j < old_entries.len() ==> entries@[j].0 == old_entries[j].0);
            assert(!found ==> !has_value(old_entries, x));
            assert(!found ==> count_in(before, x) == 0);
            assert forall|j: int| 0 <= j < entries@.len() implies #[trigger] entries@[j].1 == count_in(
                after,
                entries@[j].0,
            ) by {
                assert(count_in(after, entries@[j].0) == count_in(before, entries@[j].0) + (if entries@[j].0
                    == x {
                    1nat
                } else {
                    0nat
                }));
                if j < old_entries.len() && entries@[j].0 == x {
                    assert(old_entries[j].0 == x);
                    assert(found);
                    if j != k {
                        assert(old_entries[k as int].0 == x);
                    }
                }
            }
            assert forall|y: i32| after.contains(y) <==> #[trigger] has_value(entries@, y) by {
                assert(after.contains(y) <==> (before.contains(y) || y == x));
                if has_value(entries@, y) {
                    let j = choose|j: int| 0 <= j < entries@.len() && #[trigger] entries@[j].0 == y;
                    if j < old_entries.len() {
                        assert(old_entries[j].0 == y);
                        assert(has_value(old_entries, y));
                    }
                }
                if before.contains(y) {
                    assert(has_value(old_entries, y));
                }
                if y == x && found {
                    assert(entries@[k as int].0 == x);
                }
                if y == x && !found {
                    assert(entries@[old_entries.len() as int].0 == x);
                }
            }
        }
        i = i + 1;
    }
    assert(v@.subrange(0, v@.len() as int) =~= v@);
    FrequencyTable { entries }
}

/// A most frequent value of `v` with its count. When several values share
/// the highest count, which of them is returned is not specified.
pub fn mode(v: &Vec<i32>) -> (r: Result<Mode, StatsError>)
    ensures
        r is Err <==> v@.len() == 0,
        r matches Err(e) ==> e == StatsError::EmptyInput,
        r matches Ok(m) ==> is_mode_of(m, v@),
{
    let t = frequency_table(v);
    let best = t.most_frequent();
    match best {
        None => {
            if v.len() > 0 {
                proof {
                    assert(v@.contains(v@[0]));
                    assert(has_value(t@, v@[0]));
                    let k = choose|k: int| 0 <= k < t@.len() && #[trigger] t@[k].0 == v@[0];
                    assert(count_in(v@, v@[0]) > 0);
                    assert(t.describes(v@));
                    assert(t@[k].1 == count_in(v@, t@[k].0));
                    assert(t@[k].1 > 0);
                }
            }
            Err(StatsError::EmptyInput)
        },
        Some(m) => {
            proof {
                let k = choose|k: int|
                    0 <= k < t@.len() && #[trigger] t@[k] == (m.value, m.count) && forall|j: int|
                        0 <= j < k ==> #[trigger] t@[j].1 < m.count;
                assert(t@[k].1 == count_in(v@, m.value));
                assert forall|x: i32| #[trigger] count_in(v@, x) <= m.count by {
                    if v@.contains(x) {
                        assert(has_value(t@, x));
                        let j = choose|j: int| 0 <= j < t@.len() && #[trigger] t@[j].0 == x;
                        assert(t@[j].1 <= m.count);
                    }
                }
                if v@.len() == 0 {
                    assert(v@.to_multiset().len() == 0);
                    assert(count_in(v@, m.value) <= v@.to_multiset().len());
                }
            }
            Ok(m)
        },
    }
}

/// The median of an ascending sequence: the middle element when the length
/// is odd. An even length, zero included, has no median here.
pub fn median(v: &Vec<i32>) -> (r: Option<i32>)
    requires
        is_sorted(v@),
    ensures
        r == median_of(v@),
{
    let n = v.len();
    if n % 2 == 1 {
        Some(v[n / 2])
    } else {
        None
    }
}

/// The middle element of `s` when its length is odd; none when it is even.
pub open spec fn median_of(s: Seq<i32>) -> Option<i32> {
    if s.len() % 2 == 1 {
        Some(s[(s.len() / 2) as int])
    } else {
        None
    }
}

/// The median and mode of a sequence.
#[derive(Debug, Clone, Copy, PartialEq, Eq, Structural)]
pub struct StatisticsResult {
    pub median: Option<i32>,
    pub mode: Mode,
}

/// Sorts `v` ascending in place, then takes the median and the mode of it.
pub fn compute_statistics(v: &mut Vec<i32>) -> (r: Result<StatisticsResult, StatsError>)
    ensures
        is_sorting_of(final(v)@, old(v)@),
        r is Err <==> old(v)@.len() == 0,
        r matches Err(e) ==> e == StatsError::EmptyInput,
        r matches Ok(st) ==> st.median == median_of(final(v)@) && is_mode_of(st.mode, old(v)@),
{
    let ghost given = v@;
    vec_sort(v);
    proof {
        assert(v@.to_multiset().len() == v@.len());
        assert(given.to_multiset().len() == given.len());
    }
    let md = median(v);
    match mode(v) {
        Ok(m) => {
            proof {
                assert(count_in(given, m.value) == count_in(v@, m.value));
                assert forall|x: i32| #[trigger] count_in(given, x) <= m.count by {
                    assert(count_in(v@, x) <= m.count);
                }
            }
            Ok(StatisticsResult { median: md, mode: m })
        },
        Err(e) => Err(e),
    }
}

} // verus!
