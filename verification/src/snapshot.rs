//! What the operator boundary reads: health and counts, published here.
//!
//! The runtime publishes, the boundary reads, and nothing across it asks the
//! hot path. Scope is a URI path over the execution tree: a record at
//! `xmip:///edge-01/transport/ftp` sits beneath `xmip:///edge-01/transport`
//! and beneath `xmip:///edge-01`, so asking for a node gets everything the
//! node holds. A parent is `Fine` or `Holding` by what lies beneath it; a count up
//! the tree is the sum beneath.
//!
//! Each table is kept as a vector ordered strictly by its key, so that a key
//! occurs once and the records come out in key order.
use vstd::prelude::*;
use crate::keyed::{
    distinct_keys, keyed_map, lemma_keyed_all, lemma_keyed_empty, lemma_keyed_finite, lemma_keyed_insert,
    lemma_keyed_push, lemma_keyed_take_push, lemma_keyed_update, lemma_take_all, lemma_filter_exact,
};
use crate::scope::{law_beneath_reflexive, trim_slashes, beneath, same_text, is_beneath, lemma_lex_asymmetric, lemma_lex_irreflexive, lemma_lex_total, lemma_lex_transitive, lex_lt, scope_less};

verus! {

/// The mood of a scope. Five leaf moods, in worsening order: `Fine` (results
/// flowing), `Working` (handling the load), `Stressed` (strained: change the
/// load), `Exhausted` (spent: replace the hardware), `Done` (blocked or
/// failed). `Holding` is the rollup mood a parent reports when anything
/// beneath it is not `Fine`.
#[derive(Clone, Copy, Debug, PartialEq, Eq, Structural, PartialOrd, Ord)]
pub enum Health {
    Fine,
    Working,
    Stressed,
    Exhausted,
    Done,
    /// Rollup only: a parent with something not-`Fine` beneath it.
    Holding,
}

/// What a count counts.
#[derive(Clone, Copy, Debug, PartialEq, Eq, Structural, PartialOrd, Ord)]
pub enum Counted {
    Streams,
    Messages,
    Journeys,
    Bytes,
}

/// The severity a paused scope publishes: a deliberate stop is a correctable
/// state, however long it lasts.
pub const PAUSED_SEVERITY: u8 = 30;

/// The position of a mood in the order of moods, `Fine` first.
pub open spec fn health_rank(h: Health) -> int {
    match h {
        Health::Fine => 0,
        Health::Working => 1,
        Health::Stressed => 2,
        Health::Exhausted => 3,
        Health::Done => 4,
        Health::Holding => 5,
    }
}

/// The position of a kind of count in the order of kinds, `Streams` first.
pub open spec fn counted_rank(c: Counted) -> int {
    match c {
        Counted::Streams => 0,
        Counted::Messages => 1,
        Counted::Journeys => 2,
        Counted::Bytes => 3,
    }
}

fn health_rank_of(h: Health) -> (r: u8)
    ensures
        r == health_rank(h),
{
    match h {
        Health::Fine => 0,
        Health::Working => 1,
        Health::Stressed => 2,
        Health::Exhausted => 3,
        Health::Done => 4,
        Health::Holding => 5,
    }
}

fn counted_rank_of(c: Counted) -> (r: u8)
    ensures
        r == counted_rank(c),
{
    match c {
        Counted::Streams => 0,
        Counted::Messages => 1,
        Counted::Journeys => 2,
        Counted::Bytes => 3,
    }
}

/// One scope's health, how far from healthy it is (0 to 100 within the mood),
/// the one line that explains it, and when it was seen.
#[derive(Debug, PartialEq, Eq)]
pub struct HealthRecord {
    pub scope: String,
    pub health: Health,
    pub severity: u8,
    pub evidence: String,
    pub observed_unix_nanos: i64,
}

/// A health record as a value.
pub struct HealthRecordView {
    pub scope: Seq<char>,
    pub health: Health,
    pub severity: u8,
    pub evidence: Seq<char>,
    pub observed_unix_nanos: i64,
}

impl View for HealthRecord {
    type V = HealthRecordView;

    open spec fn view(&self) -> HealthRecordView {
        HealthRecordView {
            scope: self.scope@,
            health: self.health,
            severity: self.severity,
            evidence: self.evidence@,
            observed_unix_nanos: self.observed_unix_nanos,
        }
    }
}

impl Clone for HealthRecord {
    fn clone(&self) -> (copy: Self)
        ensures
            copy == *self,
    {
        HealthRecord {
            scope: self.scope.clone(),
            health: self.health,
            severity: self.severity,
            evidence: self.evidence.clone(),
            observed_unix_nanos: self.observed_unix_nanos,
        }
    }
}

/// One count over a window, and when it was taken.
#[derive(Debug, PartialEq, Eq)]
pub struct Count {
    pub scope: String,
    pub counted: Counted,
    pub value: u64,
    pub window_start_unix_nanos: i64,
    pub window_end_unix_nanos: i64,
    pub observed_unix_nanos: i64,
}

/// A count as a value.
pub struct CountView {
    pub scope: Seq<char>,
    pub counted: Counted,
    pub value: u64,
    pub window_start_unix_nanos: i64,
    pub window_end_unix_nanos: i64,
    pub observed_unix_nanos: i64,
}

impl View for Count {
    type V = CountView;

    open spec fn view(&self) -> CountView {
        CountView {
            scope: self.scope@,
            counted: self.counted,
            value: self.value,
            window_start_unix_nanos: self.window_start_unix_nanos,
            window_end_unix_nanos: self.window_end_unix_nanos,
            observed_unix_nanos: self.observed_unix_nanos,
        }
    }
}

impl Clone for Count {
    fn clone(&self) -> (copy: Self)
        ensures
            copy == *self,
    {
        Count {
            scope: self.scope.clone(),
            counted: self.counted,
            value: self.value,
            window_start_unix_nanos: self.window_start_unix_nanos,
            window_end_unix_nanos: self.window_end_unix_nanos,
            observed_unix_nanos: self.observed_unix_nanos,
        }
    }
}

impl CountView {
    /// The key under which a count is kept: its scope and what it counts.
    pub open spec fn key(self) -> (Seq<char>, Counted) {
        (self.scope, self.counted)
    }
}

/// The key of a health record: its scope.
pub open spec fn by_scope() -> spec_fn(HealthRecordView) -> Seq<char> {
    |r: HealthRecordView| r.scope
}

/// The key of a count: its scope and what it counts.
pub open spec fn by_count_key() -> spec_fn(CountView) -> (Seq<char>, Counted) {
    |c: CountView| c.key()
}

/// The order of count keys: by scope, then by kind.
pub open spec fn count_key_lt(a: (Seq<char>, Counted), b: (Seq<char>, Counted)) -> bool {
    ||| lex_lt(a.0, b.0)
    ||| a.0 == b.0 && counted_rank(a.1) < counted_rank(b.1)
}

/// Health records in strictly increasing scope order.
pub open spec fn scope_ordered(s: Seq<HealthRecordView>) -> bool {
    forall|i: int, j: int| 0 <= i < j < s.len() ==> lex_lt(#[trigger] s[i].scope, #[trigger] s[j].scope)
}

/// Counts in strictly increasing key order.
pub open spec fn count_ordered(s: Seq<CountView>) -> bool {
    forall|i: int, j: int|
        0 <= i < j < s.len() ==> count_key_lt(
            (#[trigger] s[i]).key(),
            (#[trigger] s[j]).key(),
        )
}


/// The values of a vector of health records.
pub open spec fn record_views(v: Seq<HealthRecord>) -> Seq<HealthRecordView> {
    v.map_values(|r: HealthRecord| r@)
}

/// The values of a vector of counts.
pub open spec fn count_views(v: Seq<Count>) -> Seq<CountView> {
    v.map_values(|c: Count| c@)
}

pub proof fn lemma_scope_ordered_distinct(s: Seq<HealthRecordView>)
    requires
        scope_ordered(s),
    ensures
        distinct_keys(s, by_scope()),
{
    assert forall|i: int, j: int|
        0 <= i < s.len() && 0 <= j < s.len() && i != j implies #[trigger] by_scope()(s[i])
        != #[trigger] by_scope()(s[j]) by {
        if i < j {
            lemma_lex_irreflexive(s[i].scope);
        } else {
            lemma_lex_irreflexive(s[j].scope);
        }
    }
}

pub proof fn lemma_count_key_order(a: (Seq<char>, Counted), b: (Seq<char>, Counted), c: (Seq<char>, Counted))
    ensures
        !count_key_lt(a, a),
        count_key_lt(a, b) ==> !count_key_lt(b, a),
        count_key_lt(a, b) && count_key_lt(b, c) ==> count_key_lt(a, c),
        a != b ==> count_key_lt(a, b) || count_key_lt(b, a),
{
    lemma_lex_irreflexive(a.0);
    lemma_lex_asymmetric(a.0, b.0);
    lemma_lex_total(a.0, b.0);
    if lex_lt(a.0, b.0) && lex_lt(b.0, c.0) {
        lemma_lex_transitive(a.0, b.0, c.0);
    }
}

pub proof fn lemma_count_ordered_distinct(s: Seq<CountView>)
    requires
        count_ordered(s),
    ensures
        distinct_keys(s, by_count_key()),
{
    assert forall|i: int, j: int|
        0 <= i < s.len() && 0 <= j < s.len() && i != j implies #[trigger] by_count_key()(s[i])
        != #[trigger] by_count_key()(s[j]) by {
        if i < j {
            lemma_count_key_order(s[i].key(), s[j].key(), s[j].key());
        } else {
            lemma_count_key_order(s[j].key(), s[i].key(), s[i].key());
        }
    }
}

fn count_less(a: &Count, b: &Count) -> (less: bool)
    ensures
        less == count_key_lt(a@.key(), b@.key()),
{
    if scope_less(a.scope.as_str(), b.scope.as_str()) {
        true
    } else if a.scope == b.scope {
        counted_rank_of(a.counted) < counted_rank_of(b.counted)
    } else {
        false
    }
}

/// Put `record` into a scope-ordered table, replacing the record with the same
/// scope if there is one.
fn put_record(v: &mut Vec<HealthRecord>, record: HealthRecord)
    requires
        scope_ordered(record_views(old(v)@)),
    ensures
        scope_ordered(record_views(final(v)@)),
        keyed_map(record_views(final(v)@), by_scope()) == keyed_map(
            record_views(old(v)@),
            by_scope(),
        ).insert(record@.scope, record@),
{
    let ghost old_s = record_views(v@);
    let ghost r = record@;
    let mut i: usize = 0;
    while i < v.len() && scope_less(v[i].scope.as_str(), record.scope.as_str())
        invariant
            i <= v@.len(),
            record_views(v@) == old_s,
            r == record@,
            forall|j: int| 0 <= j < i ==> lex_lt(#[trigger] old_s[j].scope, r.scope),
        decreases v@.len() - i,
    {
        i = i + 1;
    }
    proof {
        lemma_scope_ordered_distinct(old_s);
        lemma_keyed_all(old_s, by_scope());
    }
    if i < v.len() && v[i].scope == record.scope {
        v.set(i, record);
        proof {
            let t = old_s.update(i as int, r);
            assert(record_views(v@) =~= t);
            assert forall|a: int, b: int| 0 <= a < b < t.len() implies lex_lt(
                #[trigger] t[a].scope,
                #[trigger] t[b].scope,
            ) by {
                assert(t[a].scope == old_s[a].scope);
                assert(t[b].scope == old_s[b].scope);
            }
            lemma_keyed_update(old_s, by_scope(), i as int, r);
        }
    } else {
        proof {
            assert forall|j: int| i <= j < old_s.len() implies lex_lt(r.scope, #[trigger] old_s[j].scope) by {
                lemma_lex_total(r.scope, old_s[i as int].scope);
                if j > i {
                    lemma_lex_transitive(r.scope, old_s[i as int].scope, old_s[j].scope);
                }
            }
            assert forall|j: int| 0 <= j < old_s.len() implies #[trigger] old_s[j].scope != r.scope by {
                lemma_lex_irreflexive(r.scope);
            }
        }
        v.insert(i, record);
        proof {
            let t = old_s.insert(i as int, r);
            assert(record_views(v@) =~= t);
            assert forall|a: int, b: int| 0 <= a < b < t.len() implies lex_lt(
                #[trigger] t[a].scope,
                #[trigger] t[b].scope,
            ) by {
                if b < i {
                    assert(t[a] == old_s[a] && t[b] == old_s[b]);
                } else if b == i {
                    assert(t[a] == old_s[a]);
                } else if a == i {
                    assert(t[b] == old_s[b - 1]);
                } else if a < i {
                    assert(t[a] == old_s[a] && t[b] == old_s[b - 1]);
                    lemma_lex_transitive(old_s[a].scope, r.scope, old_s[b - 1].scope);
                } else {
                    assert(t[a] == old_s[a - 1] && t[b] == old_s[b - 1]);
                }
            }
            lemma_keyed_insert(old_s, by_scope(), i as int, r);
        }
    }
}

/// Put `count` into a key-ordered table, replacing the count with the same key
/// if there is one.
fn put_count(v: &mut Vec<Count>, count: Count)
    requires
        count_ordered(count_views(old(v)@)),
    ensures
        count_ordered(count_views(final(v)@)),
        keyed_map(count_views(final(v)@), by_count_key()) == keyed_map(
            count_views(old(v)@),
            by_count_key(),
        ).insert(count@.key(), count@),
{
    let ghost old_s = count_views(v@);
    let ghost c = count@;
    let mut i: usize = 0;
    while i < v.len() && count_less(&v[i], &count)
        invariant
            i <= v@.len(),
            count_views(v@) == old_s,
            c == count@,
            forall|j: int| 0 <= j < i ==> count_key_lt(#[trigger] old_s[j].key(), c.key()),
        decreases v@.len() - i,
    {
        i = i + 1;
    }
    proof {
        lemma_count_ordered_distinct(old_s);
        lemma_keyed_all(old_s, by_count_key());
    }
    if i < v.len() && v[i].scope == count.scope && v[i].counted == count.counted {
        v.set(i, count);
        proof {
            let t = old_s.update(i as int, c);
            assert(count_views(v@) =~= t);
            assert forall|a: int, b: int| 0 <= a < b < t.len() implies count_key_lt(
                #[trigger] t[a].key(),
                #[trigger] t[b].key(),
            ) by {
                assert(t[a].key() == old_s[a].key());
                assert(t[b].key() == old_s[b].key());
            }
            lemma_keyed_update(old_s, by_count_key(), i as int, c);
        }
    } else {
        proof {
            assert forall|j: int| i <= j < old_s.len() implies count_key_lt(c.key(), #[trigger] old_s[j].key()) by {
                lemma_count_key_order(c.key(), old_s[i as int].key(), old_s[j].key());
                lemma_count_key_order(old_s[i as int].key(), c.key(), old_s[j].key());
            }
            assert forall|j: int| 0 <= j < old_s.len() implies #[trigger] old_s[j].key() != c.key() by {
                lemma_count_key_order(c.key(), c.key(), c.key());
            }
        }
        v.insert(i, count);
        proof {
            let t = old_s.insert(i as int, c);
            assert(count_views(v@) =~= t);
            assert forall|a: int, b: int| 0 <= a < b < t.len() implies count_key_lt(
                #[trigger] t[a].key(),
                #[trigger] t[b].key(),
            ) by {
                if b < i {
                    assert(t[a] == old_s[a] && t[b] == old_s[b]);
                } else if b == i {
                    assert(t[a] == old_s[a]);
                } else if a == i {
                    assert(t[b] == old_s[b - 1]);
                } else if a < i {
                    assert(t[a] == old_s[a] && t[b] == old_s[b - 1]);
                    lemma_count_key_order(old_s[a].key(), c.key(), old_s[b - 1].key());
                } else {
                    assert(t[a] == old_s[a - 1] && t[b] == old_s[b - 1]);
                }
            }
            lemma_keyed_insert(old_s, by_count_key(), i as int, c);
        }
    }
}

/// Whether some record in `v` has scope `scope`.
fn holds_scope(v: &Vec<HealthRecord>, scope: &String) -> (found: bool)
    ensures
        found == keyed_map(record_views(v@), by_scope()).dom().contains(scope@),
{
    let ghost s = record_views(v@);
    let mut i: usize = 0;
    while i < v.len()
        invariant
            i <= v@.len(),
            s == record_views(v@),
            forall|j: int| 0 <= j < i ==> (#[trigger] s[j]).scope != scope@,
        decreases v@.len() - i,
    {
        if v[i].scope == *scope {
            assert(by_scope()(s[i as int]) == scope@);
            return true;
        }
        i = i + 1;
    }
    proof {
        if keyed_map(s, by_scope()).dom().contains(scope@) {
            let j = choose|j: int| 0 <= j < s.len() && #[trigger] by_scope()(s[j]) == scope@;
            assert(s[j].scope == scope@);
        }
    }
    false
}

/// Copies of every record of a table, in table order.
fn copy_records(v: &Vec<HealthRecord>) -> (out: Vec<HealthRecord>)
    ensures
        record_views(out@) == record_views(v@),
{
    let mut out: Vec<HealthRecord> = Vec::new();
    let mut i: usize = 0;
    while i < v.len()
        invariant
            i <= v@.len(),
            record_views(out@) == record_views(v@).take(i as int),
        decreases v@.len() - i,
    {
        let copy = v[i].clone();
        let ghost prev = out@;
        out.push(copy);
        proof {
            assert(record_views(prev).len() == prev.len());
            assert(prev.len() == i);
            assert(out@[i as int] == copy);
            assert forall|j: int| 0 <= j <= i implies #[trigger] record_views(out@)[j] == record_views(v@)[j] by {
                if j < i {
                    assert(record_views(prev)[j] == record_views(v@).take(i as int)[j]);
                }
            }
            assert(record_views(out@) =~= record_views(v@).take(i + 1));
        }
        i = i + 1;
    }
    assert(record_views(v@).take(i as int) =~= record_views(v@));
    out
}

/// Copies of every count of a table, in table order.
fn copy_counts(v: &Vec<Count>) -> (out: Vec<Count>)
    ensures
        count_views(out@) == count_views(v@),
{
    let mut out: Vec<Count> = Vec::new();
    let mut i: usize = 0;
    while i < v.len()
        invariant
            i <= v@.len(),
            count_views(out@) == count_views(v@).take(i as int),
        decreases v@.len() - i,
    {
        let copy = v[i].clone();
        let ghost prev = out@;
        out.push(copy);
        proof {
            assert(count_views(prev).len() == prev.len());
            assert(prev.len() == i);
            assert(out@[i as int] == copy);
            assert forall|j: int| 0 <= j <= i implies #[trigger] count_views(out@)[j] == count_views(v@)[j] by {
                if j < i {
                    assert(count_views(prev)[j] == count_views(v@).take(i as int)[j]);
                }
            }
            assert(count_views(out@) =~= count_views(v@).take(i + 1));
        }
        i = i + 1;
    }
    assert(count_views(v@).take(i as int) =~= count_views(v@));
    out
}

/// Remove from a key-ordered table every count of one scope.
fn drop_counts_of(v: &mut Vec<Count>, scope: &String)
    requires
        count_ordered(count_views(old(v)@)),
    ensures
        count_ordered(count_views(final(v)@)),
        keyed_map(count_views(final(v)@), by_count_key()) == keyed_map(
            count_views(old(v)@),
            by_count_key(),
        ).remove_keys(Set::new(|ck: (Seq<char>, Counted)| ck.0 == scope@)),
{
    let ghost s = count_views(v@);
    let ghost gone = Set::new(|ck: (Seq<char>, Counted)| ck.0 == scope@);
    proof {
        lemma_count_ordered_distinct(s);
        lemma_keyed_empty(Seq::<CountView>::empty(), by_count_key());
        assert(s.take(0) =~= Seq::<CountView>::empty());
    }
    let mut kept: Vec<Count> = Vec::new();
    proof {
        assert(count_views(kept@) =~= Seq::<CountView>::empty());
        assert(keyed_map(Seq::<CountView>::empty(), by_count_key()).remove_keys(gone) =~= Map::empty());
    }
    let mut i: usize = 0;
    while i < v.len()
        invariant
            i <= s.len(),
            s == count_views(v@),
            count_ordered(s),
            distinct_keys(s, by_count_key()),
            gone == Set::new(|ck: (Seq<char>, Counted)| ck.0 == scope@),
            count_ordered(count_views(kept@)),
            distinct_keys(count_views(kept@), by_count_key()),
            forall|a: int|
                #![trigger count_views(kept@)[a]]
                0 <= a < kept@.len() ==> exists|b: int|
                    0 <= b < i && #[trigger] s[b] == count_views(kept@)[a],
            keyed_map(count_views(kept@), by_count_key()) == keyed_map(
                s.take(i as int),
                by_count_key(),
            ).remove_keys(gone),
        decreases s.len() - i,
    {
        proof {
            lemma_keyed_take_push(s, by_count_key(), i as int);
        }
        let ghost prev = count_views(kept@);
        if v[i].scope != *scope {
            let c = v[i].clone();
            proof {
                assert(c@ == s[i as int]);
                assert(!gone.contains(c@.key()));
                assert(!keyed_map(prev, by_count_key()).dom().contains(c@.key()));
                lemma_keyed_push(prev, by_count_key(), c@);
            }
            kept.push(c);
            proof {
                let t = count_views(kept@);
                assert(t =~= prev.push(c@));
                assert forall|a: int, b: int| 0 <= a < b < t.len() implies count_key_lt(
                    #[trigger] t[a].key(),
                    #[trigger] t[b].key(),
                ) by {
                    if b == prev.len() {
                        let w = choose|w: int| 0 <= w < i && #[trigger] s[w] == prev[a];
                        assert(t[a] == s[w]);
                    } else {
                        assert(t[a] == prev[a] && t[b] == prev[b]);
                    }
                }
                assert forall|a: int|
                    #![trigger count_views(kept@)[a]]
                    0 <= a < kept@.len() implies exists|b: int|
                    0 <= b < i + 1 && #[trigger] s[b] == count_views(kept@)[a] by {
                    if a == prev.len() {
                        assert(s[i as int] == t[a]);
                    } else {
                        let w = choose|w: int| 0 <= w < i && #[trigger] s[w] == prev[a];
                        assert(s[w] == t[a]);
                    }
                }
                assert(keyed_map(t, by_count_key()) =~= keyed_map(s.take(i + 1), by_count_key()).remove_keys(gone));
            }
        } else {
            proof {
                assert(gone.contains(s[i as int].key()));
                assert(keyed_map(prev, by_count_key()) =~= keyed_map(s.take(i + 1), by_count_key()).remove_keys(gone));
            }
        }
        i = i + 1;
    }
    proof {
        lemma_take_all(s);
    }
    *v = kept;
}

/// The record a paused scope publishes while it is held down.
pub open spec fn paused_record(scope: Seq<char>, who: Seq<char>, now: i64) -> HealthRecordView {
    HealthRecordView {
        scope: scope,
        health: Health::Stressed,
        severity: PAUSED_SEVERITY,
        evidence: "paused by "@ + who,
        observed_unix_nanos: now,
    }
}

/// Records at or beneath a scope.
pub open spec fn under(scope: Seq<char>) -> spec_fn(HealthRecordView) -> bool {
    |r: HealthRecordView| beneath(r.scope, scope)
}

/// The scopes at or beneath a scope.
pub open spec fn scopes_under(scope: Seq<char>) -> Set<Seq<char>> {
    Set::new(|k: Seq<char>| beneath(k, scope))
}

/// The order in which health is read out: worse mood first, then more severe
/// first, then by scope.
pub open spec fn ranks_before(a: HealthRecordView, b: HealthRecordView) -> bool {
    ||| health_rank(a.health) > health_rank(b.health)
    ||| health_rank(a.health) == health_rank(b.health) && a.severity > b.severity
    ||| health_rank(a.health) == health_rank(b.health) && a.severity == b.severity && lex_lt(a.scope, b.scope)
}

/// Records in read-out order: worst first.
pub open spec fn worst_first(s: Seq<HealthRecordView>) -> bool {
    forall|i: int, j: int| 0 <= i < j < s.len() ==> ranks_before(#[trigger] s[i], #[trigger] s[j])
}

pub proof fn lemma_ranks_before_order(a: HealthRecordView, b: HealthRecordView, c: HealthRecordView)
    ensures
        !ranks_before(a, a),
        ranks_before(a, b) ==> !ranks_before(b, a),
        ranks_before(a, b) && ranks_before(b, c) ==> ranks_before(a, c),
        a.scope != b.scope ==> ranks_before(a, b) || ranks_before(b, a),
{
    lemma_lex_irreflexive(a.scope);
    lemma_lex_asymmetric(a.scope, b.scope);
    lemma_lex_total(a.scope, b.scope);
    if lex_lt(a.scope, b.scope) && lex_lt(b.scope, c.scope) {
        lemma_lex_transitive(a.scope, b.scope, c.scope);
    }
}

fn ranks_before_exec(a: &HealthRecord, b: &HealthRecord) -> (before: bool)
    ensures
        before == ranks_before(a@, b@),
{
    let ra = health_rank_of(a.health);
    let rb = health_rank_of(b.health);
    if ra != rb {
        ra > rb
    } else if a.severity != b.severity {
        a.severity > b.severity
    } else {
        scope_less(a.scope.as_str(), b.scope.as_str())
    }
}


/// Counts of one kind at or beneath a scope.
pub open spec fn measured(scope: Seq<char>, counted: Counted) -> spec_fn(CountView) -> bool {
    |c: CountView| c.counted == counted && beneath(c.scope, scope)
}

/// The sum of the values of some counts.
pub open spec fn total_value(s: Seq<CountView>) -> int
    decreases s.len(),
{
    if s.len() == 0 {
        0
    } else {
        total_value(s.drop_last()) + s.last().value
    }
}

/// The earliest window start of some counts (of none: 0).
pub open spec fn earliest_start(s: Seq<CountView>) -> i64
    decreases s.len(),
{
    if s.len() == 0 {
        0
    } else if s.len() == 1 {
        s[0].window_start_unix_nanos
    } else if s.last().window_start_unix_nanos < earliest_start(s.drop_last()) {
        s.last().window_start_unix_nanos
    } else {
        earliest_start(s.drop_last())
    }
}

/// The latest window end of some counts (of none: 0).
pub open spec fn latest_end(s: Seq<CountView>) -> i64
    decreases s.len(),
{
    if s.len() == 0 {
        0
    } else if s.len() == 1 {
        s[0].window_end_unix_nanos
    } else if s.last().window_end_unix_nanos > latest_end(s.drop_last()) {
        s.last().window_end_unix_nanos
    } else {
        latest_end(s.drop_last())
    }
}

/// The oldest observation of some counts (of none: 0).
pub open spec fn earliest_observed(s: Seq<CountView>) -> i64
    decreases s.len(),
{
    if s.len() == 0 {
        0
    } else if s.len() == 1 {
        s[0].observed_unix_nanos
    } else if s.last().observed_unix_nanos < earliest_observed(s.drop_last()) {
        s.last().observed_unix_nanos
    } else {
        earliest_observed(s.drop_last())
    }
}

pub proof fn lemma_total_value_prefix(s: Seq<CountView>, p: spec_fn(CountView) -> bool, k: int)
    requires
        0 <= k <= s.len(),
    ensures
        0 <= total_value(s.take(k).filter(p)) <= total_value(s.filter(p)),
    decreases s.len() - k,
{
    if k == s.len() {
        assert(s.take(k) =~= s);
        lemma_total_value_nonnegative(s.filter(p));
    } else {
        lemma_total_value_prefix(s, p, k + 1);
        assert(s.take(k + 1) =~= s.take(k).push(s[k]));
        s.take(k).lemma_filter_push(s[k], p);
        lemma_total_value_nonnegative(s.take(k).filter(p));
        if p(s[k]) {
            assert(s.take(k).filter(p).push(s[k]).drop_last() =~= s.take(k).filter(p));
        }
    }
}

pub proof fn lemma_total_value_nonnegative(s: Seq<CountView>)
    ensures
        total_value(s) >= 0,
    decreases s.len(),
{
    if s.len() > 0 {
        lemma_total_value_nonnegative(s.drop_last());
    }
}

/// The published health after pausing `scope`: every record at or beneath it
/// is replaced by its paused record.
pub open spec fn pause_health(
    health: Map<Seq<char>, HealthRecordView>,
    scope: Seq<char>,
    who: Seq<char>,
    now: i64,
) -> Map<Seq<char>, HealthRecordView> {
    Map::new(
        |k: Seq<char>| health.dom().contains(k),
        |k: Seq<char>|
            if beneath(k, scope) {
                paused_record(k, who, now)
            } else {
                health[k]
            },
    )
}

/// What is kept for resume after pausing `scope`: the published record of
/// every scope at or beneath it that had nothing kept yet. A record already
/// kept stays, so a second pause does not lose the state from before the
/// first.
pub open spec fn pause_store(
    health: Map<Seq<char>, HealthRecordView>,
    paused: Map<Seq<char>, HealthRecordView>,
    scope: Seq<char>,
) -> Map<Seq<char>, HealthRecordView> {
    health.restrict(scopes_under(scope)).union_prefer_right(paused)
}

/// The counts after pausing `scope`: those of every published scope at or
/// beneath it are dropped.
pub open spec fn pause_counts(
    health: Map<Seq<char>, HealthRecordView>,
    counts: Map<(Seq<char>, Counted), CountView>,
    scope: Seq<char>,
) -> Map<(Seq<char>, Counted), CountView> {
    counts.remove_keys(
        Set::new(|ck: (Seq<char>, Counted)| health.dom().contains(ck.0) && beneath(ck.0, scope)),
    )
}

/// The published health after resuming `scope`: every kept record at or
/// beneath it is put back.
pub open spec fn resume_health(
    health: Map<Seq<char>, HealthRecordView>,
    paused: Map<Seq<char>, HealthRecordView>,
    scope: Seq<char>,
) -> Map<Seq<char>, HealthRecordView> {
    health.union_prefer_right(paused.restrict(scopes_under(scope)))
}

/// What is still kept for resume after resuming `scope`.
pub open spec fn resume_store(
    paused: Map<Seq<char>, HealthRecordView>,
    scope: Seq<char>,
) -> Map<Seq<char>, HealthRecordView> {
    paused.remove_keys(scopes_under(scope))
}

/// A scope is paused when it or an ancestor of it has a kept record.
pub open spec fn scope_paused(paused: Map<Seq<char>, HealthRecordView>, scope: Seq<char>) -> bool {
    exists|k: Seq<char>| #[trigger] paused.dom().contains(k) && beneath(scope, k)
}

/// The rolled-up health at or beneath a scope. `None` when nothing is
/// recorded there. A leaf's mood does not propagate: when anything recorded
/// beneath the scope (under another scope than the one asked for) is not
/// `Fine`, the scope reports `Holding`; otherwise it reports its own mood
/// when it has a record, and `Fine` when it has none. Severity plays no part.
pub open spec fn rolled_up(health: Map<Seq<char>, HealthRecordView>, scope: Seq<char>) -> Option<Health> {
    if !(exists|k: Seq<char>| #[trigger] health.dom().contains(k) && beneath(k, scope)) {
        None
    } else if exists|k: Seq<char>|
        #[trigger] health.dom().contains(k) && beneath(k, scope) && k != scope && health[k].health
            != Health::Fine {
        Some(Health::Holding)
    } else if health.dom().contains(scope) {
        Some(health[scope].health)
    } else {
        Some(Health::Fine)
    }
}

/// The published state of a node: its health records, its counts, and what
/// each paused scope looked like before it was paused.
#[derive(Debug)]
pub struct Snapshot {
    health: Vec<HealthRecord>,
    counts: Vec<Count>,
    paused: Vec<HealthRecord>,
}

/// A snapshot as a value: each table in key order.
pub struct SnapshotView {
    pub health: Seq<HealthRecordView>,
    pub counts: Seq<CountView>,
    pub paused: Seq<HealthRecordView>,
}

impl SnapshotView {
    /// The published health, by scope.
    pub open spec fn health_map(self) -> Map<Seq<char>, HealthRecordView> {
        keyed_map(self.health, by_scope())
    }

    /// The published counts, by scope and kind.
    pub open spec fn count_map(self) -> Map<(Seq<char>, Counted), CountView> {
        keyed_map(self.counts, by_count_key())
    }

    /// What each paused scope looked like before it was paused, by scope.
    pub open spec fn paused_map(self) -> Map<Seq<char>, HealthRecordView> {
        keyed_map(self.paused, by_scope())
    }

    /// A scope is paused when it or an ancestor of it is.
    pub open spec fn is_paused(self, scope: Seq<char>) -> bool {
        scope_paused(self.paused_map(), scope)
    }

    /// Every table is strictly ordered by its key.
    pub open spec fn well_ordered(self) -> bool {
        &&& scope_ordered(self.health)
        &&& count_ordered(self.counts)
        &&& scope_ordered(self.paused)
    }
}

impl View for Snapshot {
    type V = SnapshotView;

    closed spec fn view(&self) -> SnapshotView {
        SnapshotView {
            health: record_views(self.health@),
            counts: count_views(self.counts@),
            paused: record_views(self.paused@),
        }
    }
}

impl Snapshot {
    /// The snapshot's tables are in order.
    pub open spec fn wf(&self) -> bool {
        self@.well_ordered()
    }

    /// An empty snapshot.
    pub fn new() -> (snapshot: Self)
        ensures
            snapshot.wf(),
            snapshot@.health.len() == 0,
            snapshot@.counts.len() == 0,
            snapshot@.paused.len() == 0,
            snapshot@.health_map() == Map::<Seq<char>, HealthRecordView>::empty(),
            snapshot@.count_map() == Map::<(Seq<char>, Counted), CountView>::empty(),
            snapshot@.paused_map() == Map::<Seq<char>, HealthRecordView>::empty(),
    {
        let snapshot = Snapshot { health: Vec::new(), counts: Vec::new(), paused: Vec::new() };
        proof {
            assert(snapshot@.health =~= Seq::<HealthRecordView>::empty());
            assert(snapshot@.counts =~= Seq::<CountView>::empty());
            assert(snapshot@.paused =~= Seq::<HealthRecordView>::empty());
            lemma_keyed_empty(snapshot@.health, by_scope());
            lemma_keyed_empty(snapshot@.counts, by_count_key());
            lemma_keyed_empty(snapshot@.paused, by_scope());
        }
        snapshot
    }

    /// Record a scope's health, replacing what was there for that scope. A
    /// paused scope (itself or an ancestor of it) stays paused: the record is
    /// kept for resume and the published health does not change until then.
    pub fn record_health(&mut self, record: HealthRecord)
        requires
            old(self).wf(),
        ensures
            final(self).wf(),
            old(self)@.is_paused(record@.scope) ==> {
                &&& final(self)@.paused_map() == old(self)@.paused_map().insert(record@.scope, record@)
                &&& final(self)@.health == old(self)@.health
                &&& final(self)@.counts == old(self)@.counts
            },
            !old(self)@.is_paused(record@.scope) ==> {
                &&& final(self)@.health_map() == old(self)@.health_map().insert(record@.scope, record@)
                &&& final(self)@.paused == old(self)@.paused
                &&& final(self)@.counts == old(self)@.counts
            },
    {
        if self.is_paused(record.scope.as_str()) {
            put_record(&mut self.paused, record);
            return;
        }
        put_record(&mut self.health, record);
    }

    /// Record a count, replacing what was there for that scope and kind. A
    /// paused scope's counts are dropped: it is not doing anything.
    pub fn record_count(&mut self, count: Count)
        requires
            old(self).wf(),
        ensures
            final(self).wf(),
            old(self)@.is_paused(count@.scope) ==> final(self)@ == old(self)@,
            !old(self)@.is_paused(count@.scope) ==> {
                &&& final(self)@.count_map() == old(self)@.count_map().insert(count@.key(), count@)
                &&& final(self)@.health == old(self)@.health
                &&& final(self)@.paused == old(self)@.paused
            },
    {
        if self.is_paused(count.scope.as_str()) {
            return;
        }
        put_count(&mut self.counts, count);
    }

    /// Every health record in the snapshot, in scope order, for a caller that
    /// retains history rather than reading one scope.
    pub fn health_records(&self) -> (records: Vec<HealthRecord>)
        ensures
            record_views(records@) == self@.health,
    {
        copy_records(&self.health)
    }

    /// Every count in the snapshot, in key order.
    pub fn all_counts(&self) -> (counts: Vec<Count>)
        ensures
            count_views(counts@) == self@.counts,
    {
        copy_counts(&self.counts)
    }

    /// Pause everything at and beneath a scope. Each affected record is held at
    /// `Stressed` and [`PAUSED_SEVERITY`] with evidence naming `who`, its prior
    /// record kept for resume, and its counts dropped. Returns how many scopes
    /// it paused: zero when the scope names nothing.
    pub fn pause(&mut self, scope: &str, who: &str, now: i64) -> (paused: usize)
        requires
            old(self).wf(),
        ensures
            final(self).wf(),
            final(self)@.health_map() == pause_health(old(self)@.health_map(), scope@, who@, now),
            final(self)@.paused_map() == pause_store(old(self)@.health_map(), old(self)@.paused_map(), scope@),
            final(self)@.count_map() == pause_counts(old(self)@.health_map(), old(self)@.count_map(), scope@),
            paused == old(self)@.health.filter(under(scope@)).len(),
    {
        let mut evidence = "paused by ".to_owned();
        evidence.append(who);
        let ghost h = self@.health;
        let ghost p0 = self@.paused_map();
        let ghost c0 = self@.count_map();
        let ghost b = scopes_under(scope@);
        let ghost u = under(scope@);
        proof {
            lemma_scope_ordered_distinct(h);
            lemma_keyed_empty(Seq::<HealthRecordView>::empty(), by_scope());
            assert(h.take(0) =~= Seq::<HealthRecordView>::empty());
            assert(keyed_map(h.take(0), by_scope()).restrict(b).union_prefer_right(p0) =~= p0);
            assert(c0.remove_keys(
                Set::new(
                    |ck: (Seq<char>, Counted)|
                        keyed_map(h.take(0), by_scope()).dom().contains(ck.0) && beneath(ck.0, scope@),
                ),
            ) =~= c0);
            assert(self@.health =~= Seq::new(
                h.len(),
                |j: int|
                    if j < 0 && beneath(h[j].scope, scope@) {
                        paused_record(h[j].scope, who@, now)
                    } else {
                        h[j]
                    },
            ));
            reveal_with_fuel(Seq::filter, 1);
        }
        let mut n: usize = 0;
        let mut i: usize = 0;
        while i < self.health.len()
            invariant
                i <= h.len(),
                self.health@.len() == h.len(),
                scope_ordered(h),
                distinct_keys(h, by_scope()),
                h == old(self)@.health,
                p0 == old(self)@.paused_map(),
                c0 == old(self)@.count_map(),
                b == scopes_under(scope@),
                u == under(scope@),
                evidence@ == "paused by "@ + who@,
                self@.health == Seq::new(
                    h.len(),
                    |j: int|
                        if j < i && beneath(h[j].scope, scope@) {
                            paused_record(h[j].scope, who@, now)
                        } else {
                            h[j]
                        },
                ),
                scope_ordered(self@.paused),
                self@.paused_map() == keyed_map(h.take(i as int), by_scope()).restrict(b).union_prefer_right(p0),
                count_ordered(self@.counts),
                self@.count_map() == c0.remove_keys(
                    Set::new(
                        |ck: (Seq<char>, Counted)|
                            keyed_map(h.take(i as int), by_scope()).dom().contains(ck.0) && beneath(
                                ck.0,
                                scope@,
                            ),
                    ),
                ),
                n == h.take(i as int).filter(u).len(),
                n <= i,
            decreases h.len() - i,
        {
            proof {
                lemma_keyed_take_push(h, by_scope(), i as int);
                assert(h.take(i + 1) =~= h.take(i as int).push(h[i as int]));
                h.take(i as int).lemma_filter_push(h[i as int], u);
            }
            let ghost m1 = keyed_map(h.take(i + 1), by_scope());
            let ghost prev_health = self@.health;
            proof {
                assert(self@.health[i as int] == h[i as int]);
                assert(self@.health[i as int] == self.health@[i as int]@);
                assert(by_scope()(h[i as int]) == h[i as int].scope);
            }
            if is_beneath(self.health[i].scope.as_str(), scope) {
                let previous = self.health[i].clone();
                let target = previous.scope.clone();
                proof {
                    assert(previous@ == h[i as int]);
                }
                if !holds_scope(&self.paused, &target) {
                    put_record(&mut self.paused, previous);
                }
                let marker = HealthRecord {
                    scope: target.clone(),
                    health: Health::Stressed,
                    severity: PAUSED_SEVERITY,
                    evidence: evidence.clone(),
                    observed_unix_nanos: now,
                };
                let ghost mv = marker@;
                proof {
                    assert(mv == paused_record(h[i as int].scope, who@, now));
                }
                self.health.set(i, marker);
                proof {
                    assert(self@.health =~= prev_health.update(i as int, mv));
                }
                drop_counts_of(&mut self.counts, &target);
                n = n + 1;
                proof {
                    assert(self@.health =~= Seq::new(
                        h.len(),
                        |j: int|
                            if j < i + 1 && beneath(h[j].scope, scope@) {
                                paused_record(h[j].scope, who@, now)
                            } else {
                                h[j]
                            },
                    ));
                    assert(self@.paused_map() =~= m1.restrict(b).union_prefer_right(p0));
                    assert(self@.count_map() =~= c0.remove_keys(
                        Set::new(
                            |ck: (Seq<char>, Counted)|
                                m1.dom().contains(ck.0) && beneath(ck.0, scope@),
                        ),
                    ));
                }
            } else {
                proof {
                    assert(self@.health =~= Seq::new(
                        h.len(),
                        |j: int|
                            if j < i + 1 && beneath(h[j].scope, scope@) {
                                paused_record(h[j].scope, who@, now)
                            } else {
                                h[j]
                            },
                    ));
                    assert(self@.paused_map() =~= m1.restrict(b).union_prefer_right(p0));
                    assert(self@.count_map() =~= c0.remove_keys(
                        Set::new(
                            |ck: (Seq<char>, Counted)|
                                m1.dom().contains(ck.0) && beneath(ck.0, scope@),
                        ),
                    ));
                }
            }
            i = i + 1;
        }
        proof {
            lemma_take_all(h);
            let f = self@.health;
            assert forall|a: int, c: int| 0 <= a < c < f.len() implies lex_lt(
                #[trigger] f[a].scope,
                #[trigger] f[c].scope,
            ) by {
                assert(f[a].scope == h[a].scope && f[c].scope == h[c].scope);
            }
            lemma_scope_ordered_distinct(f);
            lemma_keyed_all(f, by_scope());
            lemma_keyed_all(h, by_scope());
            let target = pause_health(old(self)@.health_map(), scope@, who@, now);
            assert forall|k: Seq<char>| #[trigger] self@.health_map().dom().contains(k) <==> target.dom().contains(k) by {
                if self@.health_map().dom().contains(k) {
                    let j = choose|j: int| 0 <= j < f.len() && #[trigger] by_scope()(f[j]) == k;
                    assert(f[j].scope == h[j].scope);
                    assert(by_scope()(h[j]) == k);
                }
                if target.dom().contains(k) {
                    let j = choose|j: int| 0 <= j < h.len() && #[trigger] by_scope()(h[j]) == k;
                    assert(f[j].scope == h[j].scope);
                    assert(by_scope()(f[j]) == k);
                }
            }
            assert forall|k: Seq<char>| #[trigger] self@.health_map().dom().contains(k) implies self@.health_map()[k] == target[k] by {
                let j = choose|j: int| 0 <= j < f.len() && #[trigger] by_scope()(f[j]) == k;
                assert(f[j].scope == h[j].scope);
                assert(by_scope()(h[j]) == k);
            }
            assert(self@.health_map() =~= target);
        }
        n
    }

    /// Resume everything at and beneath a scope, putting back the record each
    /// had before it was paused. Returns how many scopes it resumed.
    pub fn resume(&mut self, scope: &str) -> (resumed: usize)
        requires
            old(self).wf(),
        ensures
            final(self).wf(),
            final(self)@.health_map() == resume_health(old(self)@.health_map(), old(self)@.paused_map(), scope@),
            final(self)@.paused_map() == resume_store(old(self)@.paused_map(), scope@),
            final(self)@.counts == old(self)@.counts,
            resumed == old(self)@.paused.filter(under(scope@)).len(),
    {
        let ghost p = self@.paused;
        let ghost h0 = self@.health_map();
        let ghost b = scopes_under(scope@);
        let ghost u = under(scope@);
        proof {
            lemma_scope_ordered_distinct(p);
            lemma_keyed_empty(Seq::<HealthRecordView>::empty(), by_scope());
            assert(p.take(0) =~= Seq::<HealthRecordView>::empty());
            assert(h0.union_prefer_right(keyed_map(p.take(0), by_scope()).restrict(b)) =~= h0);
            reveal_with_fuel(Seq::filter, 1);
        }
        let mut kept: Vec<HealthRecord> = Vec::new();
        proof {
            assert(record_views(kept@) =~= Seq::<HealthRecordView>::empty());
            assert(keyed_map(Seq::<HealthRecordView>::empty(), by_scope()).remove_keys(b) =~= Map::empty());
        }
        let mut n: usize = 0;
        let mut i: usize = 0;
        while i < self.paused.len()
            invariant
                i <= p.len(),
                p == self@.paused,
                p == old(self)@.paused,
                scope_ordered(p),
                distinct_keys(p, by_scope()),
                h0 == old(self)@.health_map(),
                b == scopes_under(scope@),
                u == under(scope@),
                self@.counts == old(self)@.counts,
                count_ordered(self@.counts),
                scope_ordered(self@.health),
                self@.health_map() == h0.union_prefer_right(keyed_map(p.take(i as int), by_scope()).restrict(b)),
                scope_ordered(record_views(kept@)),
                distinct_keys(record_views(kept@), by_scope()),
                forall|a: int|
                    #![trigger record_views(kept@)[a]]
                    0 <= a < kept@.len() ==> exists|c: int|
                        0 <= c < i && #[trigger] p[c] == record_views(kept@)[a],
                keyed_map(record_views(kept@), by_scope()) == keyed_map(p.take(i as int), by_scope()).remove_keys(b),
                n == p.take(i as int).filter(u).len(),
                n <= i,
            decreases p.len() - i,
        {
            proof {
                lemma_keyed_take_push(p, by_scope(), i as int);
                assert(p.take(i + 1) =~= p.take(i as int).push(p[i as int]));
                p.take(i as int).lemma_filter_push(p[i as int], u);
                assert(by_scope()(p[i as int]) == p[i as int].scope);
            }
            let ghost m1 = keyed_map(p.take(i + 1), by_scope());
            let ghost prev = record_views(kept@);
            let record = self.paused[i].clone();
            proof {
                assert(record@ == p[i as int]);
            }
            if is_beneath(record.scope.as_str(), scope) {
                put_record(&mut self.health, record);
                n = n + 1;
                proof {
                    assert(self@.health_map() =~= h0.union_prefer_right(m1.restrict(b)));
                    assert(prev =~= record_views(kept@));
                    assert(keyed_map(prev, by_scope()) =~= m1.remove_keys(b));
                }
            } else {
                let ghost r = record@;
                proof {
                    assert(!keyed_map(prev, by_scope()).dom().contains(r.scope));
                    lemma_keyed_push(prev, by_scope(), r);
                }
                kept.push(record);
                proof {
                    let t = record_views(kept@);
                    assert(t =~= prev.push(r));
                    assert forall|a: int, c: int| 0 <= a < c < t.len() implies lex_lt(
                        #[trigger] t[a].scope,
                        #[trigger] t[c].scope,
                    ) by {
                        if c == prev.len() {
                            let w = choose|w: int| 0 <= w < i && #[trigger] p[w] == prev[a];
                            assert(t[a] == p[w]);
                        } else {
                            assert(t[a] == prev[a] && t[c] == prev[c]);
                        }
                    }
                    assert forall|a: int|
                        #![trigger record_views(kept@)[a]]
                        0 <= a < kept@.len() implies exists|c: int|
                        0 <= c < i + 1 && #[trigger] p[c] == record_views(kept@)[a] by {
                        if a == prev.len() {
                            assert(p[i as int] == t[a]);
                        } else {
                            let w = choose|w: int| 0 <= w < i && #[trigger] p[w] == prev[a];
                            assert(p[w] == t[a]);
                        }
                    }
                    assert(keyed_map(t, by_scope()) =~= m1.remove_keys(b));
                    assert(self@.health_map() =~= h0.union_prefer_right(m1.restrict(b)));
                }
            }
            i = i + 1;
        }
        proof {
            lemma_take_all(p);
        }
        self.paused = kept;
        n
    }

    /// Health at and beneath a scope, worst first and, within a mood, most
    /// severe first, so the worst thing an operator can act on comes first.
    pub fn health(&self, scope: &str) -> (found: Vec<HealthRecord>)
        requires
            self.wf(),
        ensures
            worst_first(record_views(found@)),
            distinct_keys(record_views(found@), by_scope()),
            keyed_map(record_views(found@), by_scope()) == self@.health_map().restrict(scopes_under(scope@)),
    {
        let ghost h = self@.health;
        let ghost b = scopes_under(scope@);
        proof {
            lemma_scope_ordered_distinct(h);
            lemma_keyed_empty(Seq::<HealthRecordView>::empty(), by_scope());
            assert(h.take(0) =~= Seq::<HealthRecordView>::empty());
        }
        let mut found: Vec<HealthRecord> = Vec::new();
        proof {
            assert(record_views(found@) =~= Seq::<HealthRecordView>::empty());
            assert(keyed_map(Seq::<HealthRecordView>::empty(), by_scope()).restrict(b) =~= Map::empty());
        }
        let mut i: usize = 0;
        while i < self.health.len()
            invariant
                i <= h.len(),
                h == self@.health,
                distinct_keys(h, by_scope()),
                b == scopes_under(scope@),
                worst_first(record_views(found@)),
                distinct_keys(record_views(found@), by_scope()),
                keyed_map(record_views(found@), by_scope()) == keyed_map(h.take(i as int), by_scope()).restrict(b),
            decreases h.len() - i,
        {
            proof {
                lemma_keyed_take_push(h, by_scope(), i as int);
                assert(by_scope()(h[i as int]) == h[i as int].scope);
            }
            let ghost m1 = keyed_map(h.take(i + 1), by_scope());
            let ghost prev = record_views(found@);
            if is_beneath(self.health[i].scope.as_str(), scope) {
                let record = self.health[i].clone();
                let ghost r = record@;
                proof {
                    assert(r == h[i as int]);
                    assert(!keyed_map(prev, by_scope()).dom().contains(r.scope));
                    lemma_keyed_all(prev, by_scope());
                    assert forall|j: int| 0 <= j < prev.len() implies (#[trigger] prev[j]).scope != r.scope by {
                        assert(by_scope()(prev[j]) == prev[j].scope);
                    }
                }
                let mut p: usize = 0;
                while p < found.len() && ranks_before_exec(&found[p], &record)
                    invariant
                        p <= prev.len(),
                        prev == record_views(found@),
                        r == record@,
                        forall|j: int| 0 <= j < p ==> ranks_before(#[trigger] prev[j], r),
                    decreases prev.len() - p,
                {
                    p = p + 1;
                }
                proof {
                    assert forall|j: int| p <= j < prev.len() implies ranks_before(r, #[trigger] prev[j]) by {
                        lemma_ranks_before_order(r, prev[p as int], prev[j]);
                        lemma_ranks_before_order(prev[p as int], r, prev[j]);
                    }
                    lemma_keyed_insert(prev, by_scope(), p as int, r);
                }
                found.insert(p, record);
                proof {
                    let t = prev.insert(p as int, r);
                    assert(record_views(found@) =~= t);
                    assert forall|a: int, c: int| 0 <= a < c < t.len() implies ranks_before(
                        #[trigger] t[a],
                        #[trigger] t[c],
                    ) by {
                        if c < p {
                            assert(t[a] == prev[a] && t[c] == prev[c]);
                        } else if c == p {
                            assert(t[a] == prev[a]);
                        } else if a == p {
                            assert(t[c] == prev[c - 1]);
                        } else if a < p {
                            assert(t[a] == prev[a] && t[c] == prev[c - 1]);
                            lemma_ranks_before_order(prev[a], r, prev[c - 1]);
                        } else {
                            assert(t[a] == prev[a - 1] && t[c] == prev[c - 1]);
                        }
                    }
                    assert(keyed_map(t, by_scope()) =~= m1.restrict(b));
                }
            } else {
                proof {
                    assert(self@.health[i as int] == self.health@[i as int]@);
                    assert(keyed_map(prev, by_scope()) =~= m1.restrict(b));
                }
            }
            i = i + 1;
        }
        proof {
            lemma_take_all(h);
        }
        found
    }

    /// The rolled-up health at or beneath a scope, or `None` when nothing is
    /// recorded there. A parent is `Fine` or `Holding`: the moment anything
    /// beneath it is not `Fine`, it reports `Holding`, and the record that
    /// owns the trouble carries the real mood.
    pub fn worst(&self, scope: &str) -> (worst: Option<Health>)
        requires
            self.wf(),
        ensures
            worst == rolled_up(self@.health_map(), scope@),
    {
        let ghost h = self@.health;
        let ghost hm = self@.health_map();
        proof {
            lemma_scope_ordered_distinct(h);
            lemma_keyed_all(h, by_scope());
            law_beneath_reflexive(scope@);
        }
        let mut any = false;
        let mut holding = false;
        let mut own: Option<Health> = None;
        let mut i: usize = 0;
        while i < self.health.len()
            invariant
                i <= h.len(),
                h == self@.health,
                beneath(scope@, scope@),
                any == exists|j: int| 0 <= j < i && beneath((#[trigger] h[j]).scope, scope@),
                holding == exists|j: int|
                    0 <= j < i && beneath((#[trigger] h[j]).scope, scope@) && h[j].scope != scope@
                        && h[j].health != Health::Fine,
                own is None ==> forall|j: int| 0 <= j < i ==> (#[trigger] h[j]).scope != scope@,
                own matches Some(m) ==> exists|j: int|
                    0 <= j < i && (#[trigger] h[j]).scope == scope@ && h[j].health == m,
            decreases h.len() - i,
        {
            let record = &self.health[i];
            proof {
                assert(h[i as int] == self.health@[i as int]@);
            }
            if is_beneath(record.scope.as_str(), scope) {
                any = true;
                if same_text(record.scope.as_str(), scope) {
                    own = Some(record.health);
                } else if record.health != Health::Fine {
                    holding = true;
                }
            } else {
                proof {
                    assert(h[i as int].scope != scope@);
                }
            }
            i = i + 1;
        }
        proof {
            assert forall|k: Seq<char>| #[trigger] hm.dom().contains(k) implies exists|j: int|
                0 <= j < h.len() && h[j].scope == k && hm[k] == h[j] by {
                let j = choose|j: int| 0 <= j < h.len() && #[trigger] by_scope()(h[j]) == k;
                assert(by_scope()(h[j]) == h[j].scope);
            }
            assert forall|j: int| 0 <= j < h.len() implies #[trigger] hm.dom().contains(h[j].scope)
                && hm[h[j].scope] == h[j] by {
                assert(by_scope()(h[j]) == h[j].scope);
            }
        }
        if !any {
            proof {
                assert forall|k: Seq<char>| #[trigger] hm.dom().contains(k) implies !beneath(k, scope@) by {
                    let j = choose|j: int| 0 <= j < h.len() && h[j].scope == k && hm[k] == h[j];
                }
            }
            None
        } else if holding {
            proof {
                let j = choose|j: int|
                    0 <= j < i && beneath((#[trigger] h[j]).scope, scope@) && h[j].scope != scope@
                        && h[j].health != Health::Fine;
                assert(hm.dom().contains(h[j].scope));
            }
            Some(Health::Holding)
        } else {
            proof {
                let j = choose|j: int| 0 <= j < i && beneath((#[trigger] h[j]).scope, scope@);
                assert(hm.dom().contains(h[j].scope));
                assert forall|k: Seq<char>|
                    #[trigger] hm.dom().contains(k) && beneath(k, scope@) && k != scope@ implies hm[k].health
                    == Health::Fine by {
                    let j = choose|j: int| 0 <= j < h.len() && h[j].scope == k && hm[k] == h[j];
                }
            }
            match own {
                Some(m) => {
                    proof {
                        let j = choose|j: int| 0 <= j < i && (#[trigger] h[j]).scope == scope@ && h[j].health == m;
                        assert(hm.dom().contains(h[j].scope));
                    }
                    Some(m)
                },
                None => {
                    proof {
                        if hm.dom().contains(scope@) {
                            let j = choose|j: int| 0 <= j < h.len() && h[j].scope == scope@ && hm[scope@] == h[j];
                        }
                    }
                    Some(Health::Fine)
                },
            }
        }
    }

    /// One kind of count summed over everything at and beneath a scope. The
    /// window is the union of the parts and the observation the oldest, so a
    /// reader sees the staleness of the stalest part. `None` when nothing is
    /// recorded.
    pub fn measure(&self, scope: &str, counted: Counted) -> (measure: Option<Count>)
        requires
            self.wf(),
            total_value(self@.counts.filter(measured(scope@, counted))) <= u64::MAX,
        ensures
            measure is None <==> self@.counts.filter(measured(scope@, counted)).len() == 0,
            measure is None <==> forall|i: int|
                0 <= i < self@.counts.len() ==> !((#[trigger] self@.counts[i]).counted == counted && beneath(
                    self@.counts[i].scope,
                    scope@,
                )),
            measure matches Some(m) ==> {
                let parts = self@.counts.filter(measured(scope@, counted));
                &&& m@.scope == scope@
                &&& m@.counted == counted
                &&& m@.value == total_value(parts)
                &&& m@.window_start_unix_nanos == earliest_start(parts)
                &&& m@.window_end_unix_nanos == latest_end(parts)
                &&& m@.observed_unix_nanos == earliest_observed(parts)
            },
    {
        let ghost c = self@.counts;
        let ghost pred = measured(scope@, counted);
        let mut any = false;
        let mut value: u64 = 0;
        let mut start: i64 = 0;
        let mut end: i64 = 0;
        let mut observed: i64 = 0;
        proof {
            assert(c.take(0) =~= Seq::<CountView>::empty());
            reveal_with_fuel(Seq::filter, 1);
        }
        let mut i: usize = 0;
        while i < self.counts.len()
            invariant
                i <= c.len(),
                c == self@.counts,
                pred == measured(scope@, counted),
                total_value(c.filter(pred)) <= u64::MAX,
                any == (c.take(i as int).filter(pred).len() > 0),
                value == total_value(c.take(i as int).filter(pred)),
                start == earliest_start(c.take(i as int).filter(pred)),
                end == latest_end(c.take(i as int).filter(pred)),
                observed == earliest_observed(c.take(i as int).filter(pred)),
            decreases c.len() - i,
        {
            let ghost q = c.take(i as int).filter(pred);
            proof {
                assert(c.take(i + 1) =~= c.take(i as int).push(c[i as int]));
                c.take(i as int).lemma_filter_push(c[i as int], pred);
                assert(self@.counts[i as int] == self.counts@[i as int]@);
                lemma_total_value_prefix(c, pred, i + 1);
            }
            let part = &self.counts[i];
            if part.counted == counted && is_beneath(part.scope.as_str(), scope) {
                proof {
                    let q1 = q.push(c[i as int]);
                    assert(q1.drop_last() =~= q);
                    assert(total_value(q1) == value + part.value);
                }
                if !any {
                    proof {
                        assert(q.len() == 0);
                    }
                    any = true;
                    value = part.value;
                    start = part.window_start_unix_nanos;
                    end = part.window_end_unix_nanos;
                    observed = part.observed_unix_nanos;
                } else {
                    value = value + part.value;
                    if part.window_start_unix_nanos < start {
                        start = part.window_start_unix_nanos;
                    }
                    if part.window_end_unix_nanos > end {
                        end = part.window_end_unix_nanos;
                    }
                    if part.observed_unix_nanos < observed {
                        observed = part.observed_unix_nanos;
                    }
                }
            }
            i = i + 1;
        }
        proof {
            lemma_take_all(c);
            lemma_filter_exact(c, pred);
            let f = c.filter(pred);
            if f.len() > 0 {
                assert(pred(f[0]) && c.contains(f[0]));
                let j = choose|j: int| 0 <= j < c.len() && c[j] == f[0];
                assert(c[j].counted == counted && beneath(c[j].scope, scope@));
            }
            if exists|j: int| 0 <= j < c.len() && (#[trigger] c[j]).counted == counted && beneath(c[j].scope, scope@) {
                let j = choose|j: int| 0 <= j < c.len() && (#[trigger] c[j]).counted == counted && beneath(c[j].scope, scope@);
                assert(pred(c[j]));
                assert(f.contains(c[j]));
            }
        }
        if !any {
            return None;
        }
        Some(Count {
            scope: scope.to_owned(),
            counted,
            value,
            window_start_unix_nanos: start,
            window_end_unix_nanos: end,
            observed_unix_nanos: observed,
        })
    }

    /// Whether a scope is paused: itself or an ancestor of it.
    pub fn is_paused(&self, scope: &str) -> (paused: bool)
        ensures
            paused == self@.is_paused(scope@),
    {
        let ghost s = self@.paused;
        let mut i: usize = 0;
        while i < self.paused.len()
            invariant
                i <= s.len(),
                s == record_views(self.paused@),
                forall|j: int| 0 <= j < i ==> !beneath(scope@, (#[trigger] s[j]).scope),
            decreases s.len() - i,
        {
            if is_beneath(scope, self.paused[i].scope.as_str()) {
                assert(by_scope()(s[i as int]) == s[i as int].scope);
                assert(self@.paused_map().dom().contains(s[i as int].scope));
                return true;
            }
            i = i + 1;
        }
        proof {
            if self@.is_paused(scope@) {
                let k = choose|k: Seq<char>| #[trigger] self@.paused_map().dom().contains(k) && beneath(scope@, k);
                let j = choose|j: int| 0 <= j < s.len() && #[trigger] by_scope()(s[j]) == k;
                assert(s[j].scope == k);
            }
        }
        false
    }
}

impl Clone for Snapshot {
    fn clone(&self) -> (copy: Self)
        ensures
            copy@ == self@,
    {
        Snapshot {
            health: copy_records(&self.health),
            counts: copy_counts(&self.counts),
            paused: copy_records(&self.paused),
        }
    }
}

impl Default for Snapshot {
    fn default() -> (snapshot: Self)
        ensures
            snapshot.wf(),
            snapshot@.health.len() == 0,
            snapshot@.counts.len() == 0,
            snapshot@.paused.len() == 0,
    {
        Snapshot::new()
    }
}

/// `Fine` up the tree means every record beneath is `Fine`: a scope rolls up
/// as `Fine` exactly when something is recorded at or beneath it and all of
/// it is `Fine`.
pub proof fn law_fine_means_all_fine(s: SnapshotView, scope: Seq<char>)
    ensures
        rolled_up(s.health_map(), scope) == Some(Health::Fine) <==> {
            &&& exists|k: Seq<char>| #[trigger] s.health_map().dom().contains(k) && beneath(k, scope)
            &&& forall|k: Seq<char>|
                #[trigger] s.health_map().dom().contains(k) && beneath(k, scope) ==> s.health_map()[k].health
                    == Health::Fine
        },
{
    law_beneath_reflexive(scope);
}

/// A scope with no record of its own rolls up as `Fine` or `Holding`, or as
/// nothing when nothing is beneath it: a leaf's mood does not propagate.
pub proof fn law_parent_is_fine_or_holding(s: SnapshotView, scope: Seq<char>)
    requires
        !s.health_map().dom().contains(scope),
    ensures
        rolled_up(s.health_map(), scope) == None::<Health>
            || rolled_up(s.health_map(), scope) == Some(Health::Fine)
            || rolled_up(s.health_map(), scope) == Some(Health::Holding),
{
}

/// The record that owns the trouble keeps its mood: a scope with a record of
/// its own and nothing else beneath it rolls up as that record's mood.
pub proof fn law_leaf_keeps_its_mood(s: SnapshotView, scope: Seq<char>)
    requires
        s.health_map().dom().contains(scope),
        forall|k: Seq<char>| #[trigger] s.health_map().dom().contains(k) && beneath(k, scope) ==> k == scope,
    ensures
        rolled_up(s.health_map(), scope) == Some(s.health_map()[scope].health),
{
    law_beneath_reflexive(scope);
}

/// The rollup depends on moods alone: two snapshots that publish the same
/// scopes with the same moods roll up alike, whatever their severities.
pub proof fn law_rollup_ignores_severity(s: SnapshotView, t: SnapshotView, scope: Seq<char>)
    requires
        s.health_map().dom() == t.health_map().dom(),
        forall|k: Seq<char>|
            #[trigger] s.health_map().dom().contains(k) ==> s.health_map()[k].health == t.health_map()[k].health,
    ensures
        rolled_up(s.health_map(), scope) == rolled_up(t.health_map(), scope),
{
    let hs = s.health_map();
    let ht = t.health_map();
    assert((exists|k: Seq<char>| #[trigger] hs.dom().contains(k) && beneath(k, scope)) == (exists|k: Seq<char>|
        #[trigger] ht.dom().contains(k) && beneath(k, scope)));
    if exists|k: Seq<char>|
        #[trigger] hs.dom().contains(k) && beneath(k, scope) && k != scope && hs[k].health != Health::Fine {
        let k = choose|k: Seq<char>|
            #[trigger] hs.dom().contains(k) && beneath(k, scope) && k != scope && hs[k].health != Health::Fine;
        assert(ht.dom().contains(k));
    }
    if exists|k: Seq<char>|
        #[trigger] ht.dom().contains(k) && beneath(k, scope) && k != scope && ht[k].health != Health::Fine {
        let k = choose|k: Seq<char>|
            #[trigger] ht.dom().contains(k) && beneath(k, scope) && k != scope && ht[k].health != Health::Fine;
        assert(hs.dom().contains(k));
    }
}

/// Resume puts back exactly what was there: pausing a scope beneath which
/// nothing was paused, then resuming it, restores the published health and
/// what is kept for resume.
pub proof fn law_resume_undoes_pause(s: SnapshotView, scope: Seq<char>, who: Seq<char>, now: i64)
    requires
        forall|k: Seq<char>| #[trigger] s.paused_map().dom().contains(k) ==> !beneath(k, scope),
    ensures
        resume_health(
            pause_health(s.health_map(), scope, who, now),
            pause_store(s.health_map(), s.paused_map(), scope),
            scope,
        ) == s.health_map(),
        resume_store(pause_store(s.health_map(), s.paused_map(), scope), scope) == s.paused_map(),
{
    let h = s.health_map();
    let p = s.paused_map();
    let r = resume_health(pause_health(h, scope, who, now), pause_store(h, p, scope), scope);
    assert(r =~= h);
    assert(resume_store(pause_store(h, p, scope), scope) =~= p);
}

/// After a pause, every published scope at or beneath the paused scope is
/// itself paused.
pub proof fn law_pause_pauses_everything_beneath(s: SnapshotView, scope: Seq<char>, k: Seq<char>)
    requires
        s.health_map().dom().contains(k),
        beneath(k, scope),
    ensures
        scope_paused(pause_store(s.health_map(), s.paused_map(), scope), k),
{
    law_beneath_reflexive(k);
    assert(pause_store(s.health_map(), s.paused_map(), scope).dom().contains(k));
}

/// The parts of `c` picked by `p` fall into those picked by `a` and those
/// picked by `b`, and into no more than one of them.
pub open spec fn partitions(c: Seq<CountView>, p: spec_fn(CountView) -> bool, a: spec_fn(CountView) -> bool, b: spec_fn(CountView) -> bool) -> bool {
    &&& forall|i: int| 0 <= i < c.len() ==> (p(#[trigger] c[i]) <==> a(c[i]) || b(c[i]))
    &&& forall|i: int| 0 <= i < c.len() ==> !(a(#[trigger] c[i]) && b(c[i]))
}

proof fn lemma_filter_step(c: Seq<CountView>, q: spec_fn(CountView) -> bool)
    requires
        c.len() > 0,
    ensures
        c.filter(q) == if q(c.last()) {
            c.drop_last().filter(q).push(c.last())
        } else {
            c.drop_last().filter(q)
        },
{
    reveal_with_fuel(Seq::filter, 1);
}

proof fn lemma_push_measures(s: Seq<CountView>, x: CountView)
    ensures
        total_value(s.push(x)) == total_value(s) + x.value,
        earliest_start(s.push(x)) == if s.len() == 0 || x.window_start_unix_nanos < earliest_start(s) {
            x.window_start_unix_nanos
        } else {
            earliest_start(s)
        },
        latest_end(s.push(x)) == if s.len() == 0 || x.window_end_unix_nanos > latest_end(s) {
            x.window_end_unix_nanos
        } else {
            latest_end(s)
        },
        earliest_observed(s.push(x)) == if s.len() == 0 || x.observed_unix_nanos < earliest_observed(s) {
            x.observed_unix_nanos
        } else {
            earliest_observed(s)
        },
{
    assert(s.push(x).drop_last() =~= s);
    if s.len() == 0 {
        assert(s.push(x)[0] == x);
    }
}

proof fn lemma_partition_measures(
    c: Seq<CountView>,
    p: spec_fn(CountView) -> bool,
    a: spec_fn(CountView) -> bool,
    b: spec_fn(CountView) -> bool,
)
    requires
        partitions(c, p, a, b),
    ensures
        total_value(c.filter(p)) == total_value(c.filter(a)) + total_value(c.filter(b)),
        c.filter(p).len() == c.filter(a).len() + c.filter(b).len(),
        c.filter(a).len() == 0 ==> c.filter(p) == c.filter(b),
        c.filter(b).len() == 0 ==> c.filter(p) == c.filter(a),
        c.filter(a).len() > 0 && c.filter(b).len() > 0 ==> {
            &&& earliest_start(c.filter(p)) == if earliest_start(c.filter(a)) < earliest_start(c.filter(b)) {
                earliest_start(c.filter(a))
            } else {
                earliest_start(c.filter(b))
            }
            &&& latest_end(c.filter(p)) == if latest_end(c.filter(a)) > latest_end(c.filter(b)) {
                latest_end(c.filter(a))
            } else {
                latest_end(c.filter(b))
            }
            &&& earliest_observed(c.filter(p)) == if earliest_observed(c.filter(a)) < earliest_observed(c.filter(b)) {
                earliest_observed(c.filter(a))
            } else {
                earliest_observed(c.filter(b))
            }
        },
    decreases c.len(),
{
    if c.len() == 0 {
        reveal_with_fuel(Seq::filter, 1);
    } else {
        let d = c.drop_last();
        let x = c.last();
        assert forall|i: int| 0 <= i < d.len() implies (p(#[trigger] d[i]) <==> a(d[i]) || b(d[i])) by {
            assert(d[i] == c[i]);
        }
        assert forall|i: int| 0 <= i < d.len() implies !(a(#[trigger] d[i]) && b(d[i])) by {
            assert(d[i] == c[i]);
        }
        lemma_partition_measures(d, p, a, b);
        lemma_filter_step(c, p);
        lemma_filter_step(c, a);
        lemma_filter_step(c, b);
        assert(x == c[c.len() - 1]);
        lemma_push_measures(d.filter(p), x);
        lemma_push_measures(d.filter(a), x);
        lemma_push_measures(d.filter(b), x);
    }
}

/// A count up the tree is the sum beneath: when the counts measured at a
/// parent are exactly those measured at two children, and none is measured at
/// both, the parent's measure is the children's measures put together: the
/// values add up, the window spans both windows and the observation is the
/// older one. When one child has nothing, the parent measures what the other
/// child measures.
pub proof fn law_measure_adds_up(s: SnapshotView, parent: Seq<char>, a: Seq<char>, b: Seq<char>, counted: Counted)
    requires
        partitions(s.counts, measured(parent, counted), measured(a, counted), measured(b, counted)),
    ensures
        ({
            let fp = s.counts.filter(measured(parent, counted));
            let fa = s.counts.filter(measured(a, counted));
            let fb = s.counts.filter(measured(b, counted));
            &&& total_value(fp) == total_value(fa) + total_value(fb)
            &&& fp.len() == 0 <==> fa.len() == 0 && fb.len() == 0
            &&& fa.len() == 0 ==> fp == fb
            &&& fb.len() == 0 ==> fp == fa
            &&& fa.len() > 0 && fb.len() > 0 ==> {
                &&& earliest_start(fp) == if earliest_start(fa) < earliest_start(fb) {
                    earliest_start(fa)
                } else {
                    earliest_start(fb)
                }
                &&& latest_end(fp) == if latest_end(fa) > latest_end(fb) {
                    latest_end(fa)
                } else {
                    latest_end(fb)
                }
                &&& earliest_observed(fp) == if earliest_observed(fa) < earliest_observed(fb) {
                    earliest_observed(fa)
                } else {
                    earliest_observed(fb)
                }
            }
        }),
{
    lemma_partition_measures(s.counts, measured(parent, counted), measured(a, counted), measured(b, counted));
}

/// The records of a health table at or beneath a scope are as many as the
/// scopes at or beneath it in the table's map.
proof fn lemma_count_under(s: Seq<HealthRecordView>, scope: Seq<char>)
    requires
        distinct_keys(s, by_scope()),
    ensures
        s.filter(under(scope)).len() == keyed_map(s, by_scope()).dom().filter(|k: Seq<char>| beneath(k, scope)).len(),
    decreases s.len(),
{
    let q = |k: Seq<char>| beneath(k, scope);
    if s.len() == 0 {
        reveal_with_fuel(Seq::filter, 1);
        lemma_keyed_empty(s, by_scope());
        assert(keyed_map(s, by_scope()).dom().filter(q) =~= Set::empty());
    } else {
        let n = s.len() - 1;
        let d = s.drop_last();
        let x = s.last();
        lemma_keyed_take_push(s, by_scope(), n);
        assert(s.take(n) =~= d);
        lemma_take_all(s);
        assert(s.take(n + 1) == s);
        lemma_count_under(d, scope);
        reveal_with_fuel(Seq::filter, 1);
        lemma_keyed_finite(d, by_scope());
        let dd = keyed_map(d, by_scope()).dom().filter(q);
        assert(by_scope()(x) == x.scope);
        assert(x == s[n]);
        if beneath(x.scope, scope) {
            assert(keyed_map(s, by_scope()).dom().filter(q) =~= dd.insert(x.scope));
            assert(!dd.contains(x.scope));
        } else {
            assert(keyed_map(s, by_scope()).dom().filter(q) =~= dd);
        }
    }
}

proof fn lemma_keyed_drop_first(s: Seq<HealthRecordView>)
    requires
        s.len() > 0,
        distinct_keys(s, by_scope()),
    ensures
        distinct_keys(s.drop_first(), by_scope()),
        keyed_map(s.drop_first(), by_scope()) == keyed_map(s, by_scope()).remove(s[0].scope),
{
    let t = s.drop_first();
    assert forall|i: int, j: int|
        0 <= i < t.len() && 0 <= j < t.len() && i != j implies #[trigger] by_scope()(t[i]) != #[trigger] by_scope()(
        t[j],
    ) by {
        assert(t[i] == s[i + 1] && t[j] == s[j + 1]);
    }
    lemma_keyed_all(s, by_scope());
    lemma_keyed_all(t, by_scope());
    let m = keyed_map(s, by_scope()).remove(s[0].scope);
    assert(by_scope()(s[0]) == s[0].scope);
    assert forall|k: Seq<char>| #[trigger] keyed_map(t, by_scope()).dom().contains(k) <==> m.dom().contains(k) by {
        if keyed_map(t, by_scope()).dom().contains(k) {
            let i = choose|i: int| 0 <= i < t.len() && #[trigger] by_scope()(t[i]) == k;
            assert(t[i] == s[i + 1]);
            assert(by_scope()(s[i + 1]) == k);
        }
        if m.dom().contains(k) {
            let i = choose|i: int| 0 <= i < s.len() && #[trigger] by_scope()(s[i]) == k;
            assert(i != 0);
            assert(t[i - 1] == s[i]);
            assert(by_scope()(t[i - 1]) == k);
        }
    }
    assert forall|k: Seq<char>| #[trigger] keyed_map(t, by_scope()).dom().contains(k) implies keyed_map(t, by_scope())[k]
        == m[k] by {
        let i = choose|i: int| 0 <= i < t.len() && #[trigger] by_scope()(t[i]) == k;
        assert(t[i] == s[i + 1]);
        assert(by_scope()(s[i + 1]) == k);
    }
    assert(keyed_map(t, by_scope()) =~= m);
}

/// A health table is determined by its map: two scope-ordered tables that
/// hold the same records by scope are the same sequence.
pub proof fn law_order_is_canonical(s: Seq<HealthRecordView>, t: Seq<HealthRecordView>)
    requires
        scope_ordered(s),
        scope_ordered(t),
        keyed_map(s, by_scope()) == keyed_map(t, by_scope()),
    ensures
        s == t,
    decreases s.len(),
{
    lemma_scope_ordered_distinct(s);
    lemma_scope_ordered_distinct(t);
    lemma_keyed_all(s, by_scope());
    lemma_keyed_all(t, by_scope());
    if s.len() == 0 || t.len() == 0 {
        if t.len() > 0 {
            assert(keyed_map(t, by_scope()).dom().contains(by_scope()(t[0])));
        }
        if s.len() > 0 {
            assert(keyed_map(s, by_scope()).dom().contains(by_scope()(s[0])));
        }
        assert(s =~= t);
    } else {
        let k = s[0].scope;
        assert(by_scope()(s[0]) == k);
        assert(keyed_map(t, by_scope()).dom().contains(k));
        let j = choose|j: int| 0 <= j < t.len() && #[trigger] by_scope()(t[j]) == k;
        assert(by_scope()(t[0]) == t[0].scope);
        assert(keyed_map(s, by_scope()).dom().contains(t[0].scope));
        let i = choose|i: int| 0 <= i < s.len() && #[trigger] by_scope()(s[i]) == t[0].scope;
        if j != 0 {
            assert(lex_lt(t[0].scope, t[j].scope));
            if i == 0 {
                lemma_lex_irreflexive(k);
            } else {
                assert(lex_lt(s[0].scope, s[i].scope));
                lemma_lex_asymmetric(k, t[0].scope);
            }
        }
        assert(s[0] == t[0]);
        lemma_keyed_drop_first(s);
        lemma_keyed_drop_first(t);
        let s1 = s.drop_first();
        let t1 = t.drop_first();
        assert forall|a: int, b: int| 0 <= a < b < s1.len() implies lex_lt(#[trigger] s1[a].scope, #[trigger] s1[b].scope) by {
            assert(s1[a] == s[a + 1] && s1[b] == s[b + 1]);
        }
        assert forall|a: int, b: int| 0 <= a < b < t1.len() implies lex_lt(#[trigger] t1[a].scope, #[trigger] t1[b].scope) by {
            assert(t1[a] == t[a + 1] && t1[b] == t[b + 1]);
        }
        law_order_is_canonical(s1, t1);
        assert forall|a: int| 0 <= a < s.len() implies s[a] == t[a] by {
            if a > 0 {
                assert(s[a] == s1[a - 1] && t[a] == t1[a - 1]);
            }
        }
        assert(s =~= t);
    }
}

/// Pause then resume restores a scope: when nothing at or beneath it was
/// kept for resume, a pause followed by a resume of the same scope gives back
/// the published table, record for record and in the same order, and the
/// kept table; the resume returns the number the pause returned. Counts
/// dropped by the pause stay dropped.
pub proof fn law_pause_then_resume(
    before: SnapshotView,
    paused: SnapshotView,
    after: SnapshotView,
    scope: Seq<char>,
    who: Seq<char>,
    now: i64,
)
    requires
        before.well_ordered(),
        paused.well_ordered(),
        after.well_ordered(),
        forall|k: Seq<char>| #[trigger] before.paused_map().dom().contains(k) ==> !beneath(k, scope),
        paused.health_map() == pause_health(before.health_map(), scope, who, now),
        paused.paused_map() == pause_store(before.health_map(), before.paused_map(), scope),
        after.health_map() == resume_health(paused.health_map(), paused.paused_map(), scope),
        after.paused_map() == resume_store(paused.paused_map(), scope),
    ensures
        after.health == before.health,
        after.paused == before.paused,
        paused.paused.filter(under(scope)).len() == before.health.filter(under(scope)).len(),
{
    law_resume_undoes_pause(before, scope, who, now);
    law_order_is_canonical(after.health, before.health);
    law_order_is_canonical(after.paused, before.paused);
    lemma_scope_ordered_distinct(before.health);
    lemma_scope_ordered_distinct(paused.paused);
    lemma_count_under(before.health, scope);
    lemma_count_under(paused.paused, scope);
    let q = |k: Seq<char>| beneath(k, scope);
    assert(paused.paused_map().dom().filter(q) =~= before.health_map().dom().filter(q));
}

/// Resuming a scope beneath which nothing is kept changes nothing and
/// returns zero.
pub proof fn law_resume_nothing_kept(s: SnapshotView, scope: Seq<char>)
    requires
        scope_ordered(s.paused),
        forall|k: Seq<char>| #[trigger] s.paused_map().dom().contains(k) ==> !beneath(k, scope),
    ensures
        resume_health(s.health_map(), s.paused_map(), scope) == s.health_map(),
        resume_store(s.paused_map(), scope) == s.paused_map(),
        s.paused.filter(under(scope)).len() == 0,
{
    assert(resume_health(s.health_map(), s.paused_map(), scope) =~= s.health_map());
    assert(resume_store(s.paused_map(), scope) =~= s.paused_map());
    lemma_scope_ordered_distinct(s.paused);
    lemma_count_under(s.paused, scope);
    let q = |k: Seq<char>| beneath(k, scope);
    assert(s.paused_map().dom().filter(q) =~= Set::empty());
}

/// The moods worsen in the order `Fine`, `Working`, `Stressed`, `Exhausted`,
/// `Done`, with the rollup `Holding` last; the read-out ranks them so.
pub proof fn law_moods_in_worsening_order()
    ensures
        health_rank(Health::Fine) < health_rank(Health::Working),
        health_rank(Health::Working) < health_rank(Health::Stressed),
        health_rank(Health::Stressed) < health_rank(Health::Exhausted),
        health_rank(Health::Exhausted) < health_rank(Health::Done),
        health_rank(Health::Done) < health_rank(Health::Holding),
{
}

/// In a worst-first read-out a worse mood comes before a milder one, whatever
/// the severities: of two records, the one whose mood stands later in
/// `Fine`, `Working`, `Stressed`, `Exhausted`, `Done`, `Holding` is read first.
pub proof fn law_worse_mood_reads_first(s: Seq<HealthRecordView>, i: int, j: int, milder: int, worse: int)
    requires
        worst_first(s),
        0 <= i < s.len(),
        0 <= j < s.len(),
        0 <= milder < worse < 6,
        s[i].health == seq![
            Health::Fine,
            Health::Working,
            Health::Stressed,
            Health::Exhausted,
            Health::Done,
            Health::Holding,
        ][worse],
        s[j].health == seq![
            Health::Fine,
            Health::Working,
            Health::Stressed,
            Health::Exhausted,
            Health::Done,
            Health::Holding,
        ][milder],
    ensures
        i < j,
{
    let order = seq![
        Health::Fine,
        Health::Working,
        Health::Stressed,
        Health::Exhausted,
        Health::Done,
        Health::Holding,
    ];
    assert(forall|a: int| 0 <= a < 6 ==> #[trigger] health_rank(order[a]) == a);
    if j < i {
        assert(ranks_before(s[j], s[i]));
    }
    if i == j {
        assert(order[worse] != order[milder]);
    }
}

/// A measure takes every count of its kind at or beneath the scope, whatever
/// its value, and nothing else: a count of the table is a part exactly when it
/// counts that kind and its scope is the scope or beneath it by path segments.
pub proof fn law_measure_takes_every_count_of_its_kind(s: SnapshotView, scope: Seq<char>, counted: Counted)
    ensures
        forall|i: int|
            0 <= i < s.counts.len() ==> (#[trigger] s.counts.filter(measured(scope, counted)).contains(s.counts[i])
                <==> s.counts[i].counted == counted && beneath(s.counts[i].scope, scope)),
        forall|j: int|
            0 <= j < s.counts.filter(measured(scope, counted)).len() ==> {
                let part = #[trigger] s.counts.filter(measured(scope, counted))[j];
                &&& part.counted == counted
                &&& beneath(part.scope, scope)
                &&& s.counts.contains(part)
            },
{
    lemma_filter_exact(s.counts, measured(scope, counted));
}

/// A scope is paused exactly when some kept scope is that scope or an
/// ancestor of it by path segments: with trailing slashes of the kept scope
/// removed, the scope equals it or continues it with a `/`.
pub proof fn law_paused_by_segments(paused: Map<Seq<char>, HealthRecordView>, scope: Seq<char>)
    ensures
        scope_paused(paused, scope) <==> exists|k: Seq<char>|
            #[trigger] paused.dom().contains(k) && {
                let t = trim_slashes(k);
                ||| scope == t
                ||| t.len() < scope.len() && scope.take(t.len() as int) == t && scope[t.len() as int] == '/'
            },
{
}

} // verus!
