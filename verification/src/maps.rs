//! Small maps kept as logs of insertions, the latest insertion for a key
//! giving its value.

use vstd::prelude::*;

verus! {

/// The map that a log of (name, number) insertions describes.
pub open spec fn log_map(es: Seq<(String, usize)>) -> Map<Seq<char>, int>
    decreases es.len(),
{
    if es.len() == 0 {
        Map::empty()
    } else {
        log_map(es.drop_last()).insert(es.last().0@, es.last().1 as int)
    }
}

/// Every number in the log's map is one that was logged.
pub proof fn lemma_log_map_bounds(es: Seq<(String, usize)>)
    ensures
        forall|k: Seq<char>| #[trigger] log_map(es).dom().contains(k) ==> 0 <= log_map(es)[k] <= usize::MAX,
    decreases es.len(),
{
    if es.len() > 0 {
        lemma_log_map_bounds(es.drop_last());
        let m = log_map(es.drop_last());
        assert forall|k: Seq<char>| #[trigger] log_map(es).dom().contains(k) implies 0 <= log_map(es)[k] <= usize::MAX by {
            if k != es.last().0@ {
                assert(m.dom().contains(k));
            }
        }
    }
}

/// A map from names to numbers.
pub struct RankMap {
    pub entries: Vec<(String, usize)>,
}

impl View for RankMap {
    type V = Map<Seq<char>, int>;

    open spec fn view(&self) -> Map<Seq<char>, int> {
        log_map(self.entries@)
    }
}

impl RankMap {
    /// An empty map.
    pub fn new() -> (r: Self)
        ensures
            r@ == Map::<Seq<char>, int>::empty(),
    {
        RankMap { entries: Vec::new() }
    }

    /// The number of `k`, if any.
    pub fn get(&self, k: &String) -> (r: Option<usize>)
        ensures
            r matches Some(v) ==> self@.dom().contains(k@) && self@[k@] == v,
            r is None ==> !self@.dom().contains(k@),
    {
        let mut j = self.entries.len();
        assert(self.entries@.take(j as int) =~= self.entries@);
        while j > 0
            invariant
                j <= self.entries.len(),
                self@.dom().contains(k@) == log_map(self.entries@.take(j as int)).dom().contains(k@),
                self@.dom().contains(k@) ==> self@[k@] == log_map(self.entries@.take(j as int))[k@],
            decreases j,
        {
            assert(self.entries@.take(j as int).drop_last() =~= self.entries@.take(j - 1));
            if self.entries[j - 1].0 == *k {
                return Some(self.entries[j - 1].1);
            }
            j -= 1;
        }
        assert(log_map(self.entries@.take(0)) == Map::<Seq<char>, int>::empty());
        None
    }

    /// Sets the number of `k` to `v`.
    pub fn insert(&mut self, k: String, v: usize)
        ensures
            final(self)@ == old(self)@.insert(k@, v as int),
    {
        let ghost before = self.entries@;
        self.entries.push((k, v));
        assert(self.entries@.drop_last() =~= before);
    }
}

/// The map that a log of (number, number) insertions describes.
pub open spec fn count_log(es: Seq<(usize, usize)>) -> Map<int, int>
    decreases es.len(),
{
    if es.len() == 0 {
        Map::empty()
    } else {
        count_log(es.drop_last()).insert(es.last().0 as int, es.last().1 as int)
    }
}

/// The count of `k`, zero when absent.
pub open spec fn count_of(m: Map<int, int>, k: int) -> int {
    if m.dom().contains(k) {
        m[k]
    } else {
        0
    }
}

/// A map from numbers to counts.
pub struct CountMap {
    pub entries: Vec<(usize, usize)>,
}

impl View for CountMap {
    type V = Map<int, int>;

    open spec fn view(&self) -> Map<int, int> {
        count_log(self.entries@)
    }
}

impl CountMap {
    /// No counts yet.
    pub fn new() -> (r: Self)
        ensures
            r@ == Map::<int, int>::empty(),
    {
        CountMap { entries: Vec::new() }
    }

    /// The count of `k`.
    pub fn get(&self, k: usize) -> (r: usize)
        ensures
            r == count_of(self@, k as int),
    {
        let mut j = self.entries.len();
        assert(self.entries@.take(j as int) =~= self.entries@);
        while j > 0
            invariant
                j <= self.entries.len(),
                count_of(self@, k as int) == count_of(count_log(self.entries@.take(j as int)), k as int),
            decreases j,
        {
            assert(self.entries@.take(j as int).drop_last() =~= self.entries@.take(j - 1));
            if self.entries[j - 1].0 == k {
                return self.entries[j - 1].1;
            }
            j -= 1;
        }
        assert(count_log(self.entries@.take(0)) == Map::<int, int>::empty());
        0
    }

    /// Sets the count of `k` to `v`.
    pub fn set(&mut self, k: usize, v: usize)
        ensures
            final(self)@ == old(self)@.insert(k as int, v as int),
    {
        let ghost before = self.entries@;
        self.entries.push((k, v));
        assert(self.entries@.drop_last() =~= before);
    }
}

} // verus!
