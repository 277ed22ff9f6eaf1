//! History: observation over time, bounded.
//!
//! A [`Snapshot`] is the present; a `History` is how a scope got there. It
//! keeps a bounded series per scope, a health timeline and a throughput series
//! per counted kind, so every operator surface can show the past. Each series
//! holds its last `capacity` points and drops the oldest, so memory is a
//! function of how many scopes there are, not of how long the node has run.
use std::collections::VecDeque;
use vstd::prelude::*;
use crate::keyed::{distinct_keys, keyed_map, lemma_keyed_all, lemma_keyed_empty, lemma_keyed_push, lemma_keyed_take_push, lemma_keyed_update, lemma_take_all, lemma_filter_exact};
use crate::scope::same_text;
use crate::snapshot::{by_count_key, by_scope, count_views, record_views, Count, CountView, Counted, HealthRecord, HealthRecordView, Snapshot, lemma_count_ordered_distinct, lemma_scope_ordered_distinct};

verus! {

broadcast use vstd::std_specs::vecdeque::group_vec_dequeue_axioms;

/// The default points kept per series: enough to watch a shift at one point a
/// second without unbounded growth.
pub const DEFAULT_CAPACITY: usize = 4096;

/// The last `capacity` points of `s`, or all of them when there are fewer.
pub open spec fn bounded<V>(s: Seq<V>, capacity: nat) -> Seq<V> {
    if s.len() > capacity {
        s.skip(s.len() - capacity)
    } else {
        s
    }
}

/// The series kept under `k`, empty when there is none.
pub open spec fn series_or_empty<K, V>(m: Map<K, Seq<V>>, k: K) -> Seq<V> {
    if m.dom().contains(k) {
        m[k]
    } else {
        Seq::empty()
    }
}

/// Each series that has a new point gets it at its end and keeps its last
/// `capacity` points; a key seen for the first time starts a series.
pub open spec fn extended<K, V>(m: Map<K, Seq<V>>, points: Map<K, V>, capacity: nat) -> Map<K, Seq<V>> {
    Map::new(
        |k: K| m.dom().contains(k) || points.dom().contains(k),
        |k: K|
            if points.dom().contains(k) {
                bounded(series_or_empty(m, k).push(points[k]), capacity)
            } else {
                m[k]
            },
    )
}

/// The key of a keyed pair.
pub open spec fn first_of<K, V>() -> spec_fn((K, V)) -> K {
    |p: (K, V)| p.0
}

/// A table of keyed pairs read as a map from key to the pair's second part.
pub open spec fn table_map<K, V>(t: Seq<(K, V)>) -> Map<K, V> {
    Map::new(
        |k: K| keyed_map(t, first_of()).dom().contains(k),
        |k: K| keyed_map(t, first_of())[k].1,
    )
}

/// Points observed at or after a time.
pub open spec fn health_since_bound(since: i64) -> spec_fn(HealthRecordView) -> bool {
    |r: HealthRecordView| r.observed_unix_nanos >= since
}

/// Counts observed at or after a time.
pub open spec fn count_since_bound(since: i64) -> spec_fn(CountView) -> bool {
    |c: CountView| c.observed_unix_nanos >= since
}

/// Append `point` to `series` and drop the oldest points beyond `capacity`.
fn push<T>(series: &mut VecDeque<T>, point: T, capacity: usize)
    ensures
        final(series)@ == bounded(old(series)@.push(point), capacity as nat),
{
    let ghost full = old(series)@.push(point);
    series.push_back(point);
    assert(full.skip(0) =~= full);
    while series.len() > capacity
        invariant
            series@.len() <= full.len(),
            series@ == full.skip(full.len() - series@.len()),
            series@.len() >= capacity || series@.len() == full.len(),
        decreases series@.len(),
    {
        series.pop_front();
        assert(series@ =~= full.skip(full.len() - series@.len()));
    }
}

struct HealthSeries {
    scope: String,
    points: VecDeque<HealthRecord>,
}

impl View for HealthSeries {
    type V = (Seq<char>, Seq<HealthRecordView>);

    closed spec fn view(&self) -> (Seq<char>, Seq<HealthRecordView>) {
        (self.scope@, record_views(self.points@))
    }
}

struct CountSeries {
    scope: String,
    counted: Counted,
    points: VecDeque<Count>,
}

impl View for CountSeries {
    type V = ((Seq<char>, Counted), Seq<CountView>);

    closed spec fn view(&self) -> ((Seq<char>, Counted), Seq<CountView>) {
        ((self.scope@, self.counted), count_views(self.points@))
    }
}

spec fn health_table(v: Seq<HealthSeries>) -> Seq<(Seq<char>, Seq<HealthRecordView>)> {
    v.map_values(|s: HealthSeries| s@)
}

spec fn count_table(v: Seq<CountSeries>) -> Seq<((Seq<char>, Counted), Seq<CountView>)> {
    v.map_values(|s: CountSeries| s@)
}

/// A keyed table whose keys are distinct and whose series hold at most
/// `capacity` points.
pub open spec fn table_ok<K, V>(t: Seq<(K, Seq<V>)>, capacity: nat) -> bool {
    &&& distinct_keys(t, first_of())
    &&& forall|i: int| 0 <= i < t.len() ==> (#[trigger] t[i]).1.len() <= capacity
}

proof fn lemma_table_map_index<K, V>(t: Seq<(K, V)>, i: int)
    requires
        distinct_keys(t, first_of()),
        0 <= i < t.len(),
    ensures
        table_map(t).dom().contains(t[i].0),
        table_map(t)[t[i].0] == t[i].1,
{
    lemma_keyed_all(t, first_of());
    assert(first_of()(t[i]) == t[i].0);
}

/// Append a point to the series of its key, starting the series if needed.
proof fn lemma_table_append<K, V>(t: Seq<(K, Seq<V>)>, k: K, series: Seq<V>, capacity: nat, i: int)
    requires
        table_ok(t, capacity),
        0 <= i < t.len(),
        t[i].0 == k,
        series.len() <= capacity,
    ensures
        table_ok(t.update(i, (k, series)), capacity),
        table_map(t.update(i, (k, series))) == table_map(t).insert(k, series),
{
    let t1 = t.update(i, (k, series));
    lemma_keyed_update(t, first_of(), i, (k, series));
    assert(table_map(t1) =~= table_map(t).insert(k, series));
}

proof fn lemma_table_add<K, V>(t: Seq<(K, Seq<V>)>, k: K, series: Seq<V>, capacity: nat)
    requires
        table_ok(t, capacity),
        !table_map(t).dom().contains(k),
        series.len() <= capacity,
    ensures
        table_ok(t.push((k, series)), capacity),
        table_map(t.push((k, series))) == table_map(t).insert(k, series),
{
    let t1 = t.push((k, series));
    lemma_keyed_push(t, first_of(), (k, series));
    assert(table_map(t1) =~= table_map(t).insert(k, series));
}

/// The position of the health series of `scope` in a table, if it has one.
fn find_health_series(v: &Vec<HealthSeries>, scope: &str) -> (at: Option<usize>)
    ensures
        at matches Some(i) ==> i < v@.len() && v@[i as int].scope@ == scope@,
        at is None ==> !table_map(health_table(v@)).dom().contains(scope@),
{
    let ghost t = health_table(v@);
    let mut i: usize = 0;
    while i < v.len()
        invariant
            i <= v@.len(),
            t == health_table(v@),
            forall|j: int| 0 <= j < i ==> (#[trigger] t[j]).0 != scope@,
        decreases v@.len() - i,
    {
        if same_text(v[i].scope.as_str(), scope) {
            return Some(i);
        }
        assert(t[i as int].0 == v@[i as int].scope@);
        i = i + 1;
    }
    proof {
        if table_map(t).dom().contains(scope@) {
            let j = choose|j: int| 0 <= j < t.len() && #[trigger] first_of()(t[j]) == scope@;
            assert(t[j].0 == scope@);
        }
    }
    None
}

/// The position of the count series of `scope` and `counted`, if it has one.
fn find_count_series(v: &Vec<CountSeries>, scope: &str, counted: Counted) -> (at: Option<usize>)
    ensures
        at matches Some(i) ==> i < v@.len() && v@[i as int]@.0 == (scope@, counted),
        at is None ==> !table_map(count_table(v@)).dom().contains((scope@, counted)),
{
    let ghost t = count_table(v@);
    let mut i: usize = 0;
    while i < v.len()
        invariant
            i <= v@.len(),
            t == count_table(v@),
            forall|j: int| 0 <= j < i ==> (#[trigger] t[j]).0 != (scope@, counted),
        decreases v@.len() - i,
    {
        if v[i].counted == counted && same_text(v[i].scope.as_str(), scope) {
            return Some(i);
        }
        assert(t[i as int].0 == v@[i as int]@.0);
        i = i + 1;
    }
    proof {
        if table_map(t).dom().contains((scope@, counted)) {
            let j = choose|j: int| 0 <= j < t.len() && #[trigger] first_of()(t[j]) == (scope@, counted);
            assert(t[j].0 == (scope@, counted));
        }
    }
    None
}

/// Append one health record to the series of its scope.
fn append_health(v: &mut Vec<HealthSeries>, point: HealthRecord, capacity: usize)
    requires
        capacity >= 1,
        table_ok(health_table(old(v)@), capacity as nat),
    ensures
        table_ok(health_table(final(v)@), capacity as nat),
        table_map(health_table(final(v)@)) == table_map(health_table(old(v)@)).insert(
            point@.scope,
            bounded(series_or_empty(table_map(health_table(old(v)@)), point@.scope).push(point@), capacity as nat),
        ),
{
    let ghost t = health_table(v@);
    let ghost p = point@;
    match find_health_series(v, point.scope.as_str()) {
        Some(i) => {
            proof {
                lemma_table_map_index(t, i as int);
                assert(t[i as int].0 == p.scope);
            }
            let mut series = HealthSeries { scope: String::new(), points: VecDeque::new() };
            v.set_and_swap(i, &mut series);
            let ghost old_points = series.points@;
            push(&mut series.points, point, capacity);
            proof {
                assert(record_views(series.points@) =~= bounded(record_views(old_points).push(p), capacity as nat));
                assert(series@ == (p.scope, bounded(t[i as int].1.push(p), capacity as nat)));
                lemma_table_append(t, p.scope, bounded(t[i as int].1.push(p), capacity as nat), capacity as nat, i as int);
            }
            v.set(i, series);
            proof {
                assert(health_table(v@) =~= t.update(i as int, (p.scope, bounded(t[i as int].1.push(p), capacity as nat))));
            }
        },
        None => {
            let scope = point.scope.clone();
            let mut points: VecDeque<HealthRecord> = VecDeque::new();
            push(&mut points, point, capacity);
            let series = HealthSeries { scope, points };
            proof {
                assert(record_views(points@) =~= seq![p]);
                assert(Seq::<HealthRecordView>::empty().push(p) =~= seq![p]);
                assert(series@ == (p.scope, bounded(Seq::<HealthRecordView>::empty().push(p), capacity as nat)));
                lemma_table_add(t, p.scope, seq![p], capacity as nat);
            }
            v.push(series);
            proof {
                assert(health_table(v@) =~= t.push((p.scope, seq![p])));
            }
        },
    }
}

/// Append one count to the series of its scope and kind.
fn append_count(v: &mut Vec<CountSeries>, point: Count, capacity: usize)
    requires
        capacity >= 1,
        table_ok(count_table(old(v)@), capacity as nat),
    ensures
        table_ok(count_table(final(v)@), capacity as nat),
        table_map(count_table(final(v)@)) == table_map(count_table(old(v)@)).insert(
            point@.key(),
            bounded(series_or_empty(table_map(count_table(old(v)@)), point@.key()).push(point@), capacity as nat),
        ),
{
    let ghost t = count_table(v@);
    let ghost p = point@;
    match find_count_series(v, point.scope.as_str(), point.counted) {
        Some(i) => {
            proof {
                lemma_table_map_index(t, i as int);
                assert(t[i as int].0 == p.key());
            }
            let mut series = CountSeries {
                scope: String::new(),
                counted: point.counted,
                points: VecDeque::new(),
            };
            v.set_and_swap(i, &mut series);
            let ghost old_points = series.points@;
            push(&mut series.points, point, capacity);
            proof {
                assert(count_views(series.points@) =~= bounded(count_views(old_points).push(p), capacity as nat));
                assert(series@ == (p.key(), bounded(t[i as int].1.push(p), capacity as nat)));
                lemma_table_append(t, p.key(), bounded(t[i as int].1.push(p), capacity as nat), capacity as nat, i as int);
            }
            v.set(i, series);
            proof {
                assert(count_table(v@) =~= t.update(i as int, (p.key(), bounded(t[i as int].1.push(p), capacity as nat))));
            }
        },
        None => {
            let scope = point.scope.clone();
            let counted = point.counted;
            let mut points: VecDeque<Count> = VecDeque::new();
            push(&mut points, point, capacity);
            let series = CountSeries { scope, counted, points };
            proof {
                assert(count_views(points@) =~= seq![p]);
                assert(Seq::<CountView>::empty().push(p) =~= seq![p]);
                assert(series@ == (p.key(), bounded(Seq::<CountView>::empty().push(p), capacity as nat)));
                lemma_table_add(t, p.key(), seq![p], capacity as nat);
            }
            v.push(series);
            proof {
                assert(count_table(v@) =~= t.push((p.key(), seq![p])));
            }
        },
    }
}

/// Copies of the points of a health series, oldest first.
fn copy_health_points(points: &VecDeque<HealthRecord>) -> (out: Vec<HealthRecord>)
    ensures
        record_views(out@) == record_views(points@),
{
    let mut out: Vec<HealthRecord> = Vec::new();
    let mut j: usize = 0;
    while j < points.len()
        invariant
            j <= points@.len(),
            record_views(out@) == record_views(points@).take(j as int),
        decreases points@.len() - j,
    {
        let copy = points[j].clone();
        let ghost prev = out@;
        out.push(copy);
        proof {
            assert(record_views(prev).len() == prev.len());
            assert(out@[j as int] == copy);
            assert forall|a: int| 0 <= a <= j implies #[trigger] record_views(out@)[a] == record_views(points@)[a] by {
                if a < j {
                    assert(record_views(prev)[a] == record_views(points@).take(j as int)[a]);
                }
            }
            assert(record_views(out@) =~= record_views(points@).take(j + 1));
        }
        j = j + 1;
    }
    assert(record_views(points@).take(j as int) =~= record_views(points@));
    out
}

/// Copies of the points of a count series, oldest first.
fn copy_count_points(points: &VecDeque<Count>) -> (out: Vec<Count>)
    ensures
        count_views(out@) == count_views(points@),
{
    let mut out: Vec<Count> = Vec::new();
    let mut j: usize = 0;
    while j < points.len()
        invariant
            j <= points@.len(),
            count_views(out@) == count_views(points@).take(j as int),
        decreases points@.len() - j,
    {
        let copy = points[j].clone();
        let ghost prev = out@;
        out.push(copy);
        proof {
            assert(count_views(prev).len() == prev.len());
            assert(out@[j as int] == copy);
            assert forall|a: int| 0 <= a <= j implies #[trigger] count_views(out@)[a] == count_views(points@)[a] by {
                if a < j {
                    assert(count_views(prev)[a] == count_views(points@).take(j as int)[a]);
                }
            }
            assert(count_views(out@) =~= count_views(points@).take(j + 1));
        }
        j = j + 1;
    }
    assert(count_views(points@).take(j as int) =~= count_views(points@));
    out
}

/// A bounded series of observation over time, per scope.
pub struct History {
    capacity: usize,
    health: Vec<HealthSeries>,
    counts: Vec<CountSeries>,
}

/// A history as a value: the points kept per series and per scope, oldest
/// first, and how many points a series keeps.
pub struct HistoryView {
    pub capacity: nat,
    pub health: Map<Seq<char>, Seq<HealthRecordView>>,
    pub counts: Map<(Seq<char>, Counted), Seq<CountView>>,
}

impl View for History {
    type V = HistoryView;

    closed spec fn view(&self) -> HistoryView {
        HistoryView {
            capacity: self.capacity as nat,
            health: table_map(health_table(self.health@)),
            counts: table_map(count_table(self.counts@)),
        }
    }
}

impl History {
    /// The history's tables are keyed uniquely, it keeps at least one point
    /// per series, and no series is over capacity.
    pub closed spec fn wf(&self) -> bool {
        &&& self.capacity >= 1
        &&& table_ok(health_table(self.health@), self.capacity as nat)
        &&& table_ok(count_table(self.counts@), self.capacity as nat)
    }

    /// A history keeping `capacity` points per series. Capacity is clamped to
    /// at least one: a series that keeps nothing is not a history.
    pub fn with_capacity(capacity: usize) -> (history: Self)
        ensures
            history.wf(),
            history@.capacity == if capacity == 0 { 1 } else { capacity as nat },
            history@.health == Map::<Seq<char>, Seq<HealthRecordView>>::empty(),
            history@.counts == Map::<(Seq<char>, Counted), Seq<CountView>>::empty(),
    {
        let capacity = if capacity < 1 { 1 } else { capacity };
        let history = History { capacity, health: Vec::new(), counts: Vec::new() };
        proof {
            assert(health_table(history.health@) =~= Seq::empty());
            assert(count_table(history.counts@) =~= Seq::empty());
            lemma_keyed_empty(health_table(history.health@), first_of());
            lemma_keyed_empty(count_table(history.counts@), first_of());
            assert(history@.health =~= Map::empty());
            assert(history@.counts =~= Map::empty());
        }
        history
    }

    /// Append everything a snapshot holds to its series, dropping the oldest
    /// point of any series that is now over capacity. Call it once per tick.
    pub fn record(&mut self, snapshot: &Snapshot)
        requires
            old(self).wf(),
            snapshot.wf(),
        ensures
            final(self).wf(),
            final(self)@.capacity == old(self)@.capacity,
            final(self)@.health == extended(old(self)@.health, snapshot@.health_map(), old(self)@.capacity),
            final(self)@.counts == extended(old(self)@.counts, snapshot@.count_map(), old(self)@.capacity),
    {
        let ghost cap = self.capacity as nat;
        let records = snapshot.health_records();
        let ghost rs = snapshot@.health;
        let ghost h0 = self@.health;
        let ghost c0 = self@.counts;
        proof {
            lemma_scope_ordered_distinct(rs);
            lemma_keyed_empty(Seq::<HealthRecordView>::empty(), by_scope());
            assert(rs.take(0) =~= Seq::<HealthRecordView>::empty());
            assert(extended(h0, Map::<Seq<char>, HealthRecordView>::empty(), cap) =~= h0);
        }
        let mut i: usize = 0;
        while i < records.len()
            invariant
                i <= rs.len(),
                rs == record_views(records@),
                distinct_keys(rs, by_scope()),
                cap == self.capacity,
                self.capacity >= 1,
                table_ok(health_table(self.health@), cap),
                table_ok(count_table(self.counts@), cap),
                self@.health == extended(h0, keyed_map(rs.take(i as int), by_scope()), cap),
                self@.counts == c0,
            decreases rs.len() - i,
        {
            proof {
                lemma_keyed_take_push(rs, by_scope(), i as int);
                assert(by_scope()(rs[i as int]) == rs[i as int].scope);
            }
            let ghost cur = self@.health;
            let point = records[i].clone();
            proof {
                assert(point@ == rs[i as int]);
                assert(series_or_empty(cur, point@.scope) == series_or_empty(h0, point@.scope));
            }
            append_health(&mut self.health, point, self.capacity);
            proof {
                assert(self@.health =~= extended(h0, keyed_map(rs.take(i + 1), by_scope()), cap));
            }
            i = i + 1;
        }
        proof {
            lemma_take_all(rs);
        }
        let counts = snapshot.all_counts();
        let ghost cs = snapshot@.counts;
        let ghost h1 = self@.health;
        proof {
            lemma_count_ordered_distinct(cs);
            lemma_keyed_empty(Seq::<CountView>::empty(), by_count_key());
            assert(cs.take(0) =~= Seq::<CountView>::empty());
            assert(extended(c0, Map::<(Seq<char>, Counted), CountView>::empty(), cap) =~= c0);
        }
        let mut i: usize = 0;
        while i < counts.len()
            invariant
                i <= cs.len(),
                cs == count_views(counts@),
                distinct_keys(cs, by_count_key()),
                cap == self.capacity,
                self.capacity >= 1,
                table_ok(health_table(self.health@), cap),
                table_ok(count_table(self.counts@), cap),
                self@.counts == extended(c0, keyed_map(cs.take(i as int), by_count_key()), cap),
                self@.health == h1,
            decreases cs.len() - i,
        {
            proof {
                lemma_keyed_take_push(cs, by_count_key(), i as int);
                assert(by_count_key()(cs[i as int]) == cs[i as int].key());
            }
            let ghost cur = self@.counts;
            let point = counts[i].clone();
            proof {
                assert(point@ == cs[i as int]);
                assert(series_or_empty(cur, point@.key()) == series_or_empty(c0, point@.key()));
            }
            append_count(&mut self.counts, point, self.capacity);
            proof {
                assert(self@.counts =~= extended(c0, keyed_map(cs.take(i + 1), by_count_key()), cap));
            }
            i = i + 1;
        }
        proof {
            lemma_take_all(cs);
        }
    }

    /// One scope's health over time, oldest first.
    pub fn health_series(&self, scope: &str) -> (series: Vec<HealthRecord>)
        requires
            self.wf(),
        ensures
            record_views(series@) == series_or_empty(self@.health, scope@),
    {
        match find_health_series(&self.health, scope) {
            Some(i) => {
                proof {
                    lemma_table_map_index(health_table(self.health@), i as int);
                }
                copy_health_points(&self.health[i].points)
            },
            None => {
                let out: Vec<HealthRecord> = Vec::new();
                assert(record_views(out@) =~= Seq::empty());
                out
            },
        }
    }

    /// One scope's throughput of one kind over time, oldest first.
    pub fn count_series(&self, scope: &str, counted: Counted) -> (series: Vec<Count>)
        requires
            self.wf(),
        ensures
            count_views(series@) == series_or_empty(self@.counts, (scope@, counted)),
    {
        match find_count_series(&self.counts, scope, counted) {
            Some(i) => {
                proof {
                    lemma_table_map_index(count_table(self.counts@), i as int);
                }
                copy_count_points(&self.counts[i].points)
            },
            None => {
                let out: Vec<Count> = Vec::new();
                assert(count_views(out@) =~= Seq::empty());
                out
            },
        }
    }

    /// One scope's health at or after `since_unix_nanos`, oldest first: the
    /// range a surface asks for when it shows a window rather than everything.
    pub fn health_since(&self, scope: &str, since_unix_nanos: i64) -> (series: Vec<HealthRecord>)
        requires
            self.wf(),
        ensures
            record_views(series@) == series_or_empty(self@.health, scope@).filter(
                health_since_bound(since_unix_nanos),
            ),
            forall|j: int|
                0 <= j < series@.len() ==> (#[trigger] record_views(series@)[j]).observed_unix_nanos
                    >= since_unix_nanos,
            forall|i: int|
                0 <= i < series_or_empty(self@.health, scope@).len() ==> (record_views(series@).contains(
                    #[trigger] series_or_empty(self@.health, scope@)[i],
                ) <==> series_or_empty(self@.health, scope@)[i].observed_unix_nanos >= since_unix_nanos),
    {
        let all = self.health_series(scope);
        let ghost s = record_views(all@);
        let ghost pred = health_since_bound(since_unix_nanos);
        let mut out: Vec<HealthRecord> = Vec::new();
        proof {
            assert(s.take(0) =~= Seq::<HealthRecordView>::empty());
            reveal_with_fuel(Seq::filter, 1);
            assert(record_views(out@) =~= Seq::empty());
        }
        let mut i: usize = 0;
        while i < all.len()
            invariant
                i <= s.len(),
                s == record_views(all@),
                pred == health_since_bound(since_unix_nanos),
                record_views(out@) == s.take(i as int).filter(pred),
            decreases s.len() - i,
        {
            proof {
                assert(s.take(i + 1) =~= s.take(i as int).push(s[i as int]));
                s.take(i as int).lemma_filter_push(s[i as int], pred);
            }
            if all[i].observed_unix_nanos >= since_unix_nanos {
                let copy = all[i].clone();
                let ghost prev = out@;
                out.push(copy);
                proof {
                    assert(copy@ == s[i as int]);
                    assert(record_views(out@) =~= record_views(prev).push(copy@));
                }
            }
            i = i + 1;
        }
        proof {
            lemma_take_all(s);
            lemma_filter_exact(s, pred);
            assert(s == series_or_empty(self@.health, scope@));
        }
        out
    }

    /// One scope's throughput of one kind at or after `since_unix_nanos`.
    pub fn count_since(&self, scope: &str, counted: Counted, since_unix_nanos: i64) -> (series: Vec<Count>)
        requires
            self.wf(),
        ensures
            count_views(series@) == series_or_empty(self@.counts, (scope@, counted)).filter(
                count_since_bound(since_unix_nanos),
            ),
            forall|j: int|
                0 <= j < series@.len() ==> (#[trigger] count_views(series@)[j]).observed_unix_nanos
                    >= since_unix_nanos,
            forall|i: int|
                0 <= i < series_or_empty(self@.counts, (scope@, counted)).len() ==> (count_views(series@).contains(
                    #[trigger] series_or_empty(self@.counts, (scope@, counted))[i],
                ) <==> series_or_empty(self@.counts, (scope@, counted))[i].observed_unix_nanos >= since_unix_nanos),
    {
        let all = self.count_series(scope, counted);
        let ghost s = count_views(all@);
        let ghost pred = count_since_bound(since_unix_nanos);
        let mut out: Vec<Count> = Vec::new();
        proof {
            assert(s.take(0) =~= Seq::<CountView>::empty());
            reveal_with_fuel(Seq::filter, 1);
            assert(count_views(out@) =~= Seq::empty());
        }
        let mut i: usize = 0;
        while i < all.len()
            invariant
                i <= s.len(),
                s == count_views(all@),
                pred == count_since_bound(since_unix_nanos),
                count_views(out@) == s.take(i as int).filter(pred),
            decreases s.len() - i,
        {
            proof {
                assert(s.take(i + 1) =~= s.take(i as int).push(s[i as int]));
                s.take(i as int).lemma_filter_push(s[i as int], pred);
            }
            if all[i].observed_unix_nanos >= since_unix_nanos {
                let copy = all[i].clone();
                let ghost prev = out@;
                out.push(copy);
                proof {
                    assert(copy@ == s[i as int]);
                    assert(count_views(out@) =~= count_views(prev).push(copy@));
                }
            }
            i = i + 1;
        }
        proof {
            lemma_take_all(s);
            lemma_filter_exact(s, pred);
            assert(s == series_or_empty(self@.counts, (scope@, counted)));
        }
        out
    }
}

impl Default for History {
    fn default() -> (history: Self)
        ensures
            history.wf(),
            history@.capacity == DEFAULT_CAPACITY as nat,
            history@.health == Map::<Seq<char>, Seq<HealthRecordView>>::empty(),
            history@.counts == Map::<(Seq<char>, Counted), Seq<CountView>>::empty(),
    {
        History::with_capacity(DEFAULT_CAPACITY)
    }
}

/// A history is bounded: every series holds at most `capacity` points, and
/// `capacity` is at least one.
pub proof fn law_series_bounded(history: &History)
    requires
        history.wf(),
    ensures
        history@.capacity >= 1,
        forall|k: Seq<char>| #[trigger] history@.health.dom().contains(k) ==> history@.health[k].len() <= history@.capacity,
        forall|k: (Seq<char>, Counted)| #[trigger] history@.counts.dom().contains(k) ==> history@.counts[k].len() <= history@.capacity,
{
    let ht = health_table(history.health@);
    let ct = count_table(history.counts@);
    assert forall|k: Seq<char>| #[trigger] history@.health.dom().contains(k) implies history@.health[k].len() <= history@.capacity by {
        let i = choose|i: int| 0 <= i < ht.len() && #[trigger] first_of()(ht[i]) == k;
        lemma_table_map_index(ht, i);
    }
    assert forall|k: (Seq<char>, Counted)| #[trigger] history@.counts.dom().contains(k) implies history@.counts[k].len() <= history@.capacity by {
        let i = choose|i: int| 0 <= i < ct.len() && #[trigger] first_of()(ct[i]) == k;
        lemma_table_map_index(ct, i);
    }
}

/// Recording appends the newest point last and drops only the oldest: the
/// series of a key with a new point ends with that point, keeps the most
/// recent earlier points in order, and grows by one until it is full.
pub proof fn law_record_keeps_newest<K, V>(m: Map<K, Seq<V>>, points: Map<K, V>, capacity: nat, k: K)
    requires
        capacity >= 1,
        points.dom().contains(k),
        m.dom().contains(k) ==> m[k].len() <= capacity,
    ensures
        extended(m, points, capacity)[k].last() == points[k],
        extended(m, points, capacity)[k].len() == if series_or_empty(m, k).len() < capacity {
            series_or_empty(m, k).len() + 1
        } else {
            capacity
        },
        extended(m, points, capacity)[k].drop_last() == series_or_empty(m, k).skip(
            series_or_empty(m, k).len() + 1 - extended(m, points, capacity)[k].len(),
        ),
{
    let old_series = series_or_empty(m, k);
    let full = old_series.push(points[k]);
    let e = extended(m, points, capacity)[k];
    assert(e == bounded(full, capacity));
    assert(e.drop_last() =~= old_series.skip(old_series.len() + 1 - e.len()));
}

/// A health range query keeps exactly the points observed at or after its
/// bound, whatever their mood: a point of the series is kept exactly when it
/// was observed at or after `since`, and every kept point was.
pub proof fn law_health_since_keeps_exactly(series: Seq<HealthRecordView>, since: i64)
    ensures
        forall|i: int|
            0 <= i < series.len() ==> (#[trigger] series.filter(health_since_bound(since)).contains(series[i])
                <==> series[i].observed_unix_nanos >= since),
        forall|j: int|
            0 <= j < series.filter(health_since_bound(since)).len() ==> (#[trigger] series.filter(
                health_since_bound(since),
            )[j]).observed_unix_nanos >= since,
{
    lemma_filter_exact(series, health_since_bound(since));
}

/// A count range query keeps exactly the points observed at or after its
/// bound, whatever their value.
pub proof fn law_count_since_keeps_exactly(series: Seq<CountView>, since: i64)
    ensures
        forall|i: int|
            0 <= i < series.len() ==> (#[trigger] series.filter(count_since_bound(since)).contains(series[i])
                <==> series[i].observed_unix_nanos >= since),
        forall|j: int|
            0 <= j < series.filter(count_since_bound(since)).len() ==> (#[trigger] series.filter(
                count_since_bound(since),
            )[j]).observed_unix_nanos >= since,
{
    lemma_filter_exact(series, count_since_bound(since));
}

} // verus!
