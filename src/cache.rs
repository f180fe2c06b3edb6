//! The return-matrix cache: entries keyed by (period, group, month), where
//! the month only counts for daily matrices. Entries are only ever added.

use crate::matrix::{matrix_spec, parse_return_matrix, period_spec, selected_month, month_names, ReturnMatrixAPI, ReturnRowPure};
use crate::text::str_eq;
use vstd::prelude::*;
use vstd::string::StringExecFns;

verus! {

/// The month that a key keeps: the given one for "daily", none otherwise.
pub open spec fn key_month(period: Seq<char>, month: Seq<char>) -> Seq<char> {
    if period == "daily"@ {
        month
    } else {
        Seq::empty()
    }
}

/// The key of the cache slot for (period, group, month).
pub open spec fn key_spec(period: Seq<char>, group: Seq<char>, month: Seq<char>) -> (
    Seq<char>,
    Seq<char>,
    Seq<char>,
) {
    (period, group, key_month(period, month))
}

/// A cache key: period, instrument group and, for daily matrices, month.
#[derive(Debug, Eq, Hash)]
pub struct ReturnMatrixKey {
    pub period: String,
    pub group: String,
    pub month: String,
}

impl View for ReturnMatrixKey {
    type V = (Seq<char>, Seq<char>, Seq<char>);

    open spec fn view(&self) -> (Seq<char>, Seq<char>, Seq<char>) {
        (self.period@, self.group@, self.month@)
    }
}

impl PartialEq for ReturnMatrixKey {
    fn eq(&self, o: &ReturnMatrixKey) -> (r: bool) {
        str_eq(self.period.as_str(), o.period.as_str()) && str_eq(
            self.group.as_str(),
            o.group.as_str(),
        ) && str_eq(self.month.as_str(), o.month.as_str())
    }
}

impl vstd::std_specs::cmp::PartialEqSpecImpl for ReturnMatrixKey {
    open spec fn obeys_eq_spec() -> bool {
        true
    }

    open spec fn eq_spec(&self, o: &ReturnMatrixKey) -> bool {
        self@ == o@
    }
}

impl Clone for ReturnMatrixKey {
    fn clone(&self) -> (r: Self)
        ensures
            r@ == self@,
    {
        ReturnMatrixKey {
            period: self.period.clone(),
            group: self.group.clone(),
            month: self.month.clone(),
        }
    }
}

impl ReturnMatrixKey {
    /// The key for (period, group, month); the month is dropped unless the
    /// period is "daily", so all months of another period share one slot.
    pub fn new(period: &str, group: &str, month: &str) -> (r: Self)
        ensures
            r@ == key_spec(period@, group@, month@),
    {
        let m = if str_eq(period, "daily") {
            String::from_str(month)
        } else {
            String::new()
        };
        ReturnMatrixKey { period: String::from_str(period), group: String::from_str(group), month: m }
    }
}

/// A cached matrix: its rows and its column labels.
pub struct ReturnMatrixCache {
    pub rows: Vec<ReturnRowPure>,
    pub columns: Vec<String>,
}

/// The view of a cache's slots.
pub type CacheMap = Map<(Seq<char>, Seq<char>, Seq<char>), ReturnMatrixCache>;

/// The cache: a list of entries with distinct keys.
pub struct ReturnMatrixCacheMap {
    entries: Vec<(ReturnMatrixKey, ReturnMatrixCache)>,
}

/// The slots held by a list of entries with distinct keys.
pub open spec fn slots_of(s: Seq<(ReturnMatrixKey, ReturnMatrixCache)>) -> CacheMap {
    Map::new(
        |k: (Seq<char>, Seq<char>, Seq<char>)| exists|i: int| 0 <= i < s.len() && s[i].0@ == k,
        |k: (Seq<char>, Seq<char>, Seq<char>)|
            s[choose|i: int| 0 <= i < s.len() && s[i].0@ == k].1,
    )
}

/// No two entries share a key.
pub open spec fn keys_distinct(s: Seq<(ReturnMatrixKey, ReturnMatrixCache)>) -> bool {
    forall|i: int, j: int| 0 <= i < j < s.len() ==> s[i].0@ != s[j].0@
}

proof fn lemma_slot_at(s: Seq<(ReturnMatrixKey, ReturnMatrixCache)>, i: int)
    requires
        keys_distinct(s),
        0 <= i < s.len(),
    ensures
        slots_of(s).contains_key(s[i].0@),
        slots_of(s)[s[i].0@] == s[i].1,
{
    let k = s[i].0@;
    assert(exists|t: int| 0 <= t < s.len() && s[t].0@ == k);
    let j = choose|t: int| 0 <= t < s.len() && s[t].0@ == k;
    if j < i {
        assert(s[j].0@ != s[i].0@);
    } else if j > i {
        assert(s[i].0@ != s[j].0@);
    }
}

impl View for ReturnMatrixCacheMap {
    type V = CacheMap;

    closed spec fn view(&self) -> CacheMap {
        slots_of(self.entries@)
    }
}

impl ReturnMatrixCacheMap {
    /// Whether the entries' keys are distinct.
    pub closed spec fn wf(&self) -> bool {
        keys_distinct(self.entries@)
    }

    /// An empty cache.
    pub fn new() -> (r: Self)
        ensures
            r.wf(),
            r@ == CacheMap::empty(),
    {
        let r = ReturnMatrixCacheMap { entries: Vec::new() };
        assert(r@ =~= CacheMap::empty());
        r
    }

    /// The number of slots filled.
    pub fn len(&self) -> (r: usize)
        requires
            self.wf(),
        ensures
            r == self@.dom().len(),
    {
        proof {
            self.lemma_dom_len();
        }
        self.entries.len()
    }

    proof fn lemma_dom_len(&self)
        requires
            self.wf(),
        ensures
            self@.dom().len() == self.entries@.len(),
            self@.dom().finite(),
        decreases self.entries@.len(),
    {
        let s = self.entries@;
        let keys = s.map_values(|e: (ReturnMatrixKey, ReturnMatrixCache)| e.0@);
        assert forall|k: (Seq<char>, Seq<char>, Seq<char>)| self@.dom().contains(k) <==> #[trigger] keys.to_set().contains(k) by {
            if self@.dom().contains(k) {
                let i = choose|i: int| 0 <= i < s.len() && s[i].0@ == k;
                assert(keys[i] == k);
            }
            if keys.to_set().contains(k) {
                assert(keys.contains(k));
                let i = choose|i: int| 0 <= i < keys.len() && keys[i] == k;
                assert(s[i].0@ == k);
            }
        }
        assert(self@.dom() =~= keys.to_set());
        assert(keys.no_duplicates()) by {
            assert forall|i: int, j: int| 0 <= i < keys.len() && 0 <= j < keys.len() && i != j implies keys[i] != keys[j] by {
                if i < j {
                    assert(s[i].0@ != s[j].0@);
                } else {
                    assert(s[j].0@ != s[i].0@);
                }
            }
        }
        keys.unique_seq_to_set();
    }

    /// The index of the entry with key `k`, if any.
    fn find(&self, k: &ReturnMatrixKey) -> (r: Option<usize>)
        requires
            self.wf(),
        ensures
            r matches Some(i) ==> i < self.entries@.len() && self.entries@[i as int].0@ == k@,
            r is None ==> !self@.contains_key(k@),
    {
        let mut i: usize = 0;
        while i < self.entries.len()
            invariant
                i <= self.entries@.len(),
                forall|j: int| 0 <= j < i ==> self.entries@[j].0@ != k@,
            decreases self.entries@.len() - i,
        {
            if self.entries[i].0.eq(k) {
                return Some(i);
            }
            i = i + 1;
        }
        None
    }

    /// The entry in slot `k`, if filled.
    pub fn get_key(&self, k: &ReturnMatrixKey) -> (r: Option<&ReturnMatrixCache>)
        requires
            self.wf(),
        ensures
            r is None <==> !self@.contains_key(k@),
            r matches Some(v) ==> *v == self@[k@],
    {
        match self.find(k) {
            Some(i) => {
                proof {
                    lemma_slot_at(self.entries@, i as int);
                }
                Some(&self.entries[i].1)
            },
            None => None,
        }
    }

    /// The entry for (period, group, month), with the month dropped unless
    /// the period is "daily"; `None` when the slot is empty.
    pub fn get(&self, period: &str, group: &str, month: &str) -> (r: Option<&ReturnMatrixCache>)
        requires
            self.wf(),
        ensures
            r is None <==> !self@.contains_key(key_spec(period@, group@, month@)),
            r matches Some(v) ==> *v == self@[key_spec(period@, group@, month@)],
    {
        let k = ReturnMatrixKey::new(period, group, month);
        self.get_key(&k)
    }

    /// Fills slot `key` with `value`, replacing what it held.
    pub fn insert(&mut self, key: ReturnMatrixKey, value: ReturnMatrixCache)
        requires
            old(self).wf(),
        ensures
            final(self).wf(),
            final(self)@ == old(self)@.insert(key@, value),
    {
        let ghost kv = key@;
        let ghost s0 = self.entries@;
        match self.find(&key) {
            Some(i) => {
                self.entries.set(i, (key, value));
                proof {
                    let s1 = self.entries@;
                    assert(s1 =~= s0.update(i as int, s1[i as int]));
                    assert(keys_distinct(s1)) by {
                        assert forall|a: int, b: int| 0 <= a < b < s1.len() implies s1[a].0@ != s1[b].0@ by {
                            assert(a != i ==> s1[a] == s0[a]);
                            assert(b != i ==> s1[b] == s0[b]);
                        }
                    }
                    assert forall|k: (Seq<char>, Seq<char>, Seq<char>)| #[trigger] slots_of(s1).contains_key(k) <==> old(self)@.insert(kv, value).contains_key(k) by {
                        if slots_of(s1).contains_key(k) {
                            let j = choose|t: int| 0 <= t < s1.len() && s1[t].0@ == k;
                            if j != i {
                                assert(s0[j].0@ == k);
                            }
                        }
                        if slots_of(s0).contains_key(k) {
                            let j = choose|t: int| 0 <= t < s0.len() && s0[t].0@ == k;
                            if j != i {
                                assert(s1[j].0@ == k);
                            } else {
                                assert(s1[i as int].0@ == k);
                            }
                        }
                        if k == kv {
                            assert(s1[i as int].0@ == k);
                        }
                    }
                    assert forall|k: (Seq<char>, Seq<char>, Seq<char>)| slots_of(s1).contains_key(k) implies #[trigger] slots_of(s1)[k] == old(self)@.insert(kv, value)[k] by {
                        let j = choose|t: int| 0 <= t < s1.len() && s1[t].0@ == k;
                        lemma_slot_at(s1, j);
                        if j != i {
                            assert(s0[j] == s1[j]);
                            lemma_slot_at(s0, j);
                        }
                    }
                    assert(slots_of(s1) =~= old(self)@.insert(kv, value));
                }
            },
            None => {
                self.entries.push((key, value));
                proof {
                    let s1 = self.entries@;
                    let n = s0.len() as int;
                    assert forall|a: int, b: int| 0 <= a < b < s1.len() implies s1[a].0@ != s1[b].0@ by {
                        if b == n {
                            if s0[a].0@ == kv {
                                assert(slots_of(s0).contains_key(kv));
                            }
                        }
                    }
                    assert forall|k: (Seq<char>, Seq<char>, Seq<char>)| #[trigger] slots_of(s1).contains_key(k) <==> old(self)@.insert(kv, value).contains_key(k) by {
                        if slots_of(s1).contains_key(k) {
                            let j = choose|t: int| 0 <= t < s1.len() && s1[t].0@ == k;
                            if j < n {
                                assert(s0[j].0@ == k);
                            }
                        }
                        if slots_of(s0).contains_key(k) {
                            let j = choose|t: int| 0 <= t < s0.len() && s0[t].0@ == k;
                            assert(s1[j].0@ == k);
                        }
                        if k == kv {
                            assert(s1[n].0@ == k);
                        }
                    }
                    assert forall|k: (Seq<char>, Seq<char>, Seq<char>)| slots_of(s1).contains_key(k) implies #[trigger] slots_of(s1)[k] == old(self)@.insert(kv, value)[k] by {
                        let j = choose|t: int| 0 <= t < s1.len() && s1[t].0@ == k;
                        lemma_slot_at(s1, j);
                        if j < n {
                            assert(s0[j] == s1[j]);
                            lemma_slot_at(s0, j);
                        }
                    }
                    assert(slots_of(s1) =~= old(self)@.insert(kv, value));
                }
            },
        }
    }
}

impl ReturnMatrixCacheMap {
    /// Arranges the raw returns fetched for (period, group) as a matrix (see
    /// `parse_return_matrix`, with `month` for daily matrices) and fills the
    /// slot of (period, group, month) with it.
    pub fn store_fetched(
        &mut self,
        period: &str,
        group: &str,
        month: &str,
        raw: &Vec<ReturnMatrixAPI>,
    )
        requires
            old(self).wf(),
        ensures
            final(self).wf(),
            final(self)@ == old(self)@.insert(
                key_spec(period@, group@, month@),
                final(self)@[key_spec(period@, group@, month@)],
            ),
            matrix_spec(
                raw@,
                period_spec(period@),
                selected_month(period_spec(period@), month@),
                final(self)@[key_spec(period@, group@, month@)].rows@,
                final(self)@[key_spec(period@, group@, month@)].columns@,
            ),
    {
        let (rows, columns) = parse_return_matrix(raw, period, month);
        let key = ReturnMatrixKey::new(period, group, month);
        self.insert(key, ReturnMatrixCache { rows, columns });
    }
}

/// The entry for (period, group, month) in `cache`, the month counting only
/// for "daily"; `None` when the slot is empty.
pub fn get_cached_return_matrix<'a>(
    cache: &'a ReturnMatrixCacheMap,
    period: &str,
    group: &str,
    month: &str,
) -> (r: Option<&'a ReturnMatrixCache>)
    requires
        cache.wf(),
    ensures
        r is None <==> !cache@.contains_key(key_spec(period@, group@, month@)),
        r matches Some(v) ==> *v == cache@[key_spec(period@, group@, month@)],
{
    cache.get(period, group, month)
}

/// The instrument groups that the preload covers.
pub open spec fn group_names() -> Seq<Seq<char>> {
    seq!["VNINDEX"@, "HNXINDEX"@, "UPCOM"@, "VN30"@, "HNX30"@]
}

/// The periods other than "daily", in preload order.
pub open spec fn other_periods() -> Seq<Seq<char>> {
    seq!["weekly"@, "monthly"@, "quarterly"@]
}

/// The number of slots the preload fills: every group for every month of
/// "daily", then every group for each other period.
pub const PRELOAD_LEN: usize = 75;

/// Key `i` of the preload: first "daily" for each group and each month,
/// then each other period for each group, with no month.
pub open spec fn sweep_key(i: int) -> (Seq<char>, Seq<char>, Seq<char>) {
    if i < 60 {
        ("daily"@, group_names()[i / 12], month_names()[i % 12])
    } else {
        (other_periods()[(i - 60) / 5], group_names()[(i - 60) % 5], Seq::empty())
    }
}

/// The keys of the startup preload, in the order they are fetched.
pub fn preload_keys() -> (r: Vec<ReturnMatrixKey>)
    ensures
        r@.len() == PRELOAD_LEN,
        forall|i: int| 0 <= i < PRELOAD_LEN ==> #[trigger] r@[i]@ == sweep_key(i),
{
    let groups: Vec<&str> = vec!["VNINDEX", "HNXINDEX", "UPCOM", "VN30", "HNX30"];
    let months: Vec<&str> = vec![
        "January", "February", "March", "April", "May", "June", "July", "August", "September",
        "October", "November", "December",
    ];
    let others: Vec<&str> = vec!["weekly", "monthly", "quarterly"];
    assert(groups@.map_values(|s: &str| s@) =~= group_names());
    assert(months@.map_values(|s: &str| s@) =~= month_names());
    assert(others@.map_values(|s: &str| s@) =~= other_periods());
    let mut r: Vec<ReturnMatrixKey> = Vec::new();
    let mut g: usize = 0;
    while g < 5
        invariant
            g <= 5,
            groups@.len() == 5,
            months@.len() == 12,
            groups@.map_values(|s: &str| s@) == group_names(),
            months@.map_values(|s: &str| s@) == month_names(),
            r@.len() == g * 12,
            forall|i: int| 0 <= i < r@.len() ==> #[trigger] r@[i]@ == sweep_key(i),
        decreases 5 - g,
    {
        let mut m: usize = 0;
        while m < 12
            invariant
                g < 5,
                m <= 12,
                groups@.len() == 5,
                months@.len() == 12,
                groups@.map_values(|s: &str| s@) == group_names(),
                months@.map_values(|s: &str| s@) == month_names(),
                r@.len() == g * 12 + m,
                forall|i: int| 0 <= i < r@.len() ==> #[trigger] r@[i]@ == sweep_key(i),
            decreases 12 - m,
        {
            let k = ReturnMatrixKey::new("daily", groups[g], months[m]);
            proof {
                let i = (g * 12 + m) as int;
                assert(i / 12 == g && i % 12 == m) by (nonlinear_arith)
                    requires
                        i == g * 12 + m,
                        0 <= m < 12,
                        0 <= g,
                ;
                assert(groups@.map_values(|s: &str| s@)[g as int] == groups@[g as int]@);
                assert(months@.map_values(|s: &str| s@)[m as int] == months@[m as int]@);
            }
            r.push(k);
            m = m + 1;
        }
        g = g + 1;
    }
    let mut p: usize = 0;
    while p < 3
        invariant
            p <= 3,
            groups@.len() == 5,
            others@.len() == 3,
            groups@.map_values(|s: &str| s@) == group_names(),
            others@.map_values(|s: &str| s@) == other_periods(),
            r@.len() == 60 + p * 5,
            forall|i: int| 0 <= i < r@.len() ==> #[trigger] r@[i]@ == sweep_key(i),
        decreases 3 - p,
    {
        let mut g: usize = 0;
        while g < 5
            invariant
                p < 3,
                g <= 5,
                groups@.len() == 5,
                others@.len() == 3,
                groups@.map_values(|s: &str| s@) == group_names(),
                others@.map_values(|s: &str| s@) == other_periods(),
                r@.len() == 60 + p * 5 + g,
                forall|i: int| 0 <= i < r@.len() ==> #[trigger] r@[i]@ == sweep_key(i),
            decreases 5 - g,
        {
            let k = ReturnMatrixKey::new(others[p], groups[g], "");
            proof {
                let j = (p * 5 + g) as int;
                assert(j / 5 == p && j % 5 == g) by (nonlinear_arith)
                    requires
                        j == p * 5 + g,
                        0 <= g < 5,
                        0 <= p,
                ;
                assert(groups@.map_values(|s: &str| s@)[g as int] == groups@[g as int]@);
                assert(others@.map_values(|s: &str| s@)[p as int] == others@[p as int]@);
                reveal_strlit("daily");
                reveal_strlit("weekly");
                reveal_strlit("monthly");
                reveal_strlit("quarterly");
                assert("daily"@.len() == 5);
                assert(other_periods()[p as int].len() != 5);
                assert(others@[p as int]@ != "daily"@);
            }
            r.push(k);
            g = g + 1;
        }
        p = p + 1;
    }
    r
}

/// For a period other than "daily", the month does not change the key: all
/// months share one slot.
pub proof fn lemma_key_ignores_month(
    period: Seq<char>,
    group: Seq<char>,
    m1: Seq<char>,
    m2: Seq<char>,
)
    requires
        period != "daily"@,
    ensures
        key_spec(period, group, m1) == key_spec(period, group, m2),
{
}

} // verus!
