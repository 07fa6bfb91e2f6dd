//! Bitemporal histories: the versions of a fact, and which of them governs
//! at a coordinate.
//!
//! A fact is addressed by its key. Every version of it carries the instant it
//! is about (`valid`), the instant it was recorded (`sys`), and a polarity.
//! At one valid instant the version recorded last, among those recorded at or
//! before the system coordinate, governs; an erased instant is transparent,
//! and resolution falls through to the next older one.

use vstd::prelude::*;
use crate::order::{lemma_sorted_no_duplicates, place_of, OrderedMap};
use crate::value::{copy_row, same_row, DataValue, Row, Tuple, Val};

verus! {

/// What a version claims about its valid instant.
#[derive(Clone, Copy, Debug, PartialEq, Eq, Structural)]
pub enum ClaimPolarity {
    /// The fact holds, with the version's payload.
    Assert,
    /// The fact does not hold.
    Retract,
    /// Nothing is claimed: the instant is as if it had never been written.
    Erase,
}

/// A point in both time dimensions.
#[derive(Clone, Copy, Debug, PartialEq, Eq, Structural)]
pub struct AsOf {
    pub valid: i64,
    pub sys: i64,
}

impl AsOf {
    /// The coordinate at a valid instant, under the record's current belief.
    pub fn current(valid: i64) -> (r: AsOf)
        ensures
            r == (AsOf { valid, sys: i64::MAX }),
    {
        AsOf { valid, sys: i64::MAX }
    }
}

/// One stored version of a fact, not resolved against any coordinate.
#[derive(Debug, PartialEq, Eq)]
pub struct RawVersion {
    pub valid: i64,
    pub sys: i64,
    pub polarity: ClaimPolarity,
    pub payload: Tuple,
}

/// The model of a [`RawVersion`].
pub struct Version {
    pub valid: i64,
    pub sys: i64,
    pub polarity: ClaimPolarity,
    pub payload: Row,
}

impl DeepView for RawVersion {
    type V = Version;

    open spec fn deep_view(&self) -> Version {
        Version {
            valid: self.valid,
            sys: self.sys,
            polarity: self.polarity,
            payload: self.payload.deep_view(),
        }
    }
}

/// Version `k` governs its valid instant at system coordinate `sys`: it was
/// recorded latest among the versions of that instant recorded by then, the
/// later in the list of two recorded together.
pub open spec fn governs(g: Seq<Version>, k: int, sys: int) -> bool {
    &&& 0 <= k < g.len()
    &&& g[k].sys <= sys
    &&& forall|j: int|
        0 <= j < g.len() && (#[trigger] g[j]).valid == g[k].valid && g[j].sys <= sys ==> g[j].sys
            < g[k].sys || (g[j].sys == g[k].sys && j <= k)
}

/// Version `k` settles its instant: it governs there and is not erased.
pub open spec fn settles(g: Seq<Version>, k: int, sys: int) -> bool {
    governs(g, k, sys) && g[k].polarity != ClaimPolarity::Erase
}

/// Version `k` decides the fact at `(valid, sys)`: of the settled instants at
/// or before `valid` its own is the newest.
pub open spec fn decides(g: Seq<Version>, k: int, valid: int, sys: int) -> bool {
    &&& settles(g, k, sys)
    &&& g[k].valid <= valid
    &&& forall|j: int|
        #[trigger] settles(g, j, sys) && g[j].valid <= valid ==> g[j].valid <= g[k].valid
}

/// The payload a fact's versions give at a coordinate, if the fact holds there.
pub open spec fn resolve(g: Seq<Version>, valid: int, sys: int) -> Option<Row> {
    if exists|k: int| decides(g, k, valid, sys) {
        let k = choose|k: int| decides(g, k, valid, sys);
        if g[k].polarity == ClaimPolarity::Assert {
            Some(g[k].payload)
        } else {
            None
        }
    } else {
        None
    }
}

/// The row a fact gives at a coordinate: its key and its payload there.
pub open spec fn held(g: Seq<Version>, key: Row, valid: int, sys: int) -> Option<Row> {
    match resolve(g, valid, sys) {
        Some(payload) => Some(key + payload),
        None => None,
    }
}

/// Two versions that govern the same instant are one.
pub proof fn lemma_governing_unique(g: Seq<Version>, a: int, b: int, sys: int)
    requires
        governs(g, a, sys),
        governs(g, b, sys),
        g[a].valid == g[b].valid,
    ensures
        a == b,
{
}

/// The version that decides fixes the resolution.
pub proof fn lemma_decided(g: Seq<Version>, k: int, valid: int, sys: int)
    requires
        decides(g, k, valid, sys),
    ensures
        resolve(g, valid, sys) == (if g[k].polarity == ClaimPolarity::Assert {
            Some(g[k].payload)
        } else {
            None
        }),
{
    let c = choose|c: int| decides(g, c, valid, sys);
    assert(decides(g, c, valid, sys));
    assert(settles(g, k, sys));
    assert(settles(g, c, sys));
    lemma_governing_unique(g, k, c, sys);
}

/// Two coordinates of one system snapshot with no version strictly after the
/// earlier and at or before the later resolve alike.
pub proof fn lemma_resolve_between(g: Seq<Version>, lo: int, hi: int, sys: int)
    requires
        lo <= hi,
        forall|j: int| 0 <= j < g.len() ==> !(lo < (#[trigger] g[j]).valid <= hi),
    ensures
        resolve(g, lo, sys) == resolve(g, hi, sys),
{
    if exists|k: int| decides(g, k, lo, sys) {
        let k = choose|k: int| decides(g, k, lo, sys);
        assert(decides(g, k, hi, sys));
        lemma_decided(g, k, lo, sys);
        lemma_decided(g, k, hi, sys);
    } else if exists|k: int| decides(g, k, hi, sys) {
        let k = choose|k: int| decides(g, k, hi, sys);
        assert(decides(g, k, lo, sys));
    }
}

/// The row one fact's versions give at a coordinate.
pub fn resolve_at(group: &Vec<RawVersion>, key: &Tuple, at_valid: i64, at_sys: i64) -> (r: Option<
    Tuple,
>)
    ensures
        r.deep_view() == held(
            group.deep_view(),
            key.deep_view(),
            at_valid as int,
            at_sys as int,
        ),
{
    let ghost g = group.deep_view();
    // Every instant at or above `above` is known not to settle.
    let mut above: Option<i64> = None;
    loop
        invariant
            g == group.deep_view(),
            forall|j: int|
                #[trigger] settles(g, j, at_sys as int) && g[j].valid <= at_valid ==> (
                above matches Some(a) ==> g[j].valid < a),
        decreases
                match above {
                    None => i64::MAX - i64::MIN + 2,
                    Some(a) => a - i64::MIN,
                },
    {
        let newest = newest_instant(group, at_valid, above);
        match newest {
            None => {
                proof {
                    if exists|k: int| decides(g, k, at_valid as int, at_sys as int) {
                        let k = choose|k: int| decides(g, k, at_valid as int, at_sys as int);
                        assert(settles(g, k, at_sys as int));
                    }
                }
                return None;
            },
            Some(instant) => {
                match governing(group, instant, at_sys) {
                    Some(k) => {
                        let e = &group[k];
                        assert(g[k as int] == e.deep_view());
                        match e.polarity {
                            ClaimPolarity::Assert => {
                                proof {
                                    assert(decides(g, k as int, at_valid as int, at_sys as int));
                                    lemma_decided(g, k as int, at_valid as int, at_sys as int);
                                }
                                return Some(joined(key, &e.payload));
                            },
                            ClaimPolarity::Retract => {
                                proof {
                                    assert(decides(g, k as int, at_valid as int, at_sys as int));
                                    lemma_decided(g, k as int, at_valid as int, at_sys as int);
                                }
                                return None;
                            },
                            ClaimPolarity::Erase => {
                                proof {
                                    assert forall|j: int| #[trigger]
                                        settles(g, j, at_sys as int) && g[j].valid
                                            <= at_valid implies g[j].valid < instant by {
                                        if g[j].valid == instant {
                                            lemma_governing_unique(
                                                g,
                                                j,
                                                k as int,
                                                at_sys as int,
                                            );
                                        }
                                    }
                                }
                            },
                        }
                    },
                    None => {},
                }
                above = Some(instant);
            },
        }
    }
}

/// The newest valid instant at or before `at_valid` and below `above`.
fn newest_instant(group: &Vec<RawVersion>, at_valid: i64, above: Option<i64>) -> (r: Option<i64>)
    ensures
        match r {
            Some(m) => {
                &&& m <= at_valid
                &&& above matches Some(a) ==> m < a
                &&& exists|j: int|
                    0 <= j < group@.len() && (#[trigger] group.deep_view()[j]).valid == m
                &&& forall|j: int|
                    0 <= j < group@.len() && (#[trigger] group.deep_view()[j]).valid <= at_valid
                        && (above matches Some(a) ==> group.deep_view()[j].valid < a)
                        ==> group.deep_view()[j].valid <= m
            },
            None => forall|j: int|
                0 <= j < group@.len() && (#[trigger] group.deep_view()[j]).valid <= at_valid
                    ==> (above matches Some(a) && group.deep_view()[j].valid >= a),
        },
{
    let ghost g = group.deep_view();
    let mut best: Option<i64> = None;
    let mut i: usize = 0;
    while i < group.len()
        invariant
            i <= group.len(),
            g == group.deep_view(),
            match best {
                Some(m) => {
                    &&& m <= at_valid
                    &&& above matches Some(a) ==> m < a
                    &&& exists|j: int| 0 <= j < i && (#[trigger] g[j]).valid == m
                    &&& forall|j: int|
                        0 <= j < i && (#[trigger] g[j]).valid <= at_valid && (
                        above matches Some(a) ==> g[j].valid < a) ==> g[j].valid <= m
                },
                None => forall|j: int|
                    0 <= j < i && (#[trigger] g[j]).valid <= at_valid
                        ==> (above matches Some(a) && g[j].valid >= a),
            },
        decreases group.len() - i,
    {
        let v: i64 = group[i].valid;
        assert(g[i as int].valid == v);
        let below = match above {
            Some(a) => v < a,
            None => true,
        };
        if v <= at_valid && below {
            match best {
                Some(m) => if m < v {
                    best = Some(v);
                },
                None => {
                    best = Some(v);
                },
            }
        }
        i = i + 1;
    }
    best
}

/// The position of the version that governs an instant.
fn governing(group: &Vec<RawVersion>, instant: i64, at_sys: i64) -> (r: Option<usize>)
    ensures
        match r {
            Some(k) => governs(group.deep_view(), k as int, at_sys as int)
                && group.deep_view()[k as int].valid == instant,
            None => forall|j: int|
                0 <= j < group@.len() && (#[trigger] group.deep_view()[j]).valid == instant
                    ==> group.deep_view()[j].sys > at_sys,
        },
{
    let ghost g = group.deep_view();
    let mut best: Option<usize> = None;
    let mut i: usize = 0;
    while i < group.len()
        invariant
            i <= group.len(),
            g == group.deep_view(),
            match best {
                Some(k) => {
                    &&& k < i
                    &&& g[k as int].valid == instant
                    &&& g[k as int].sys <= at_sys
                    &&& forall|j: int|
                        0 <= j < i && (#[trigger] g[j]).valid == instant && g[j].sys <= at_sys
                            ==> g[j].sys < g[k as int].sys || (g[j].sys == g[k as int].sys && j
                            <= k)
                },
                None => forall|j: int|
                    0 <= j < i && (#[trigger] g[j]).valid == instant ==> g[j].sys > at_sys,
            },
        decreases group.len() - i,
    {
        assert(g[i as int] == group@[i as int].deep_view());
        if group[i].valid == instant && group[i].sys <= at_sys {
            match best {
                Some(k) => {
                    assert(g[k as int] == group@[k as int].deep_view());
                    if group[k].sys <= group[i].sys {
                        best = Some(i);
                    }
                },
                None => {
                    best = Some(i);
                },
            }
        }
        i = i + 1;
    }
    best
}

/// The concatenation of two rows.
pub fn joined(a: &Tuple, b: &Tuple) -> (r: Tuple)
    ensures
        r.deep_view() == a.deep_view() + b.deep_view(),
{
    let mut out = copy_row(a);
    let mut i: usize = 0;
    while i < b.len()
        invariant
            i <= b.len(),
            out.deep_view() == a.deep_view() + b.deep_view().take(i as int),
        decreases b.len() - i,
    {
        let ghost prev = out.deep_view();
        let copy = b[i].clone();
        out.push(copy);
        assert(out.deep_view() =~= prev.push(b@[i as int].deep_view()));
        assert(out.deep_view() =~= a.deep_view() + b.deep_view().take(i + 1));
        i = i + 1;
    }
    assert(b.deep_view().take(i as int) =~= b.deep_view());
    out
}

/// One stored row of a facts keyspace: the full key, whose last two columns
/// are the valid and the system time slot, and the recorded claim.
#[derive(Debug, PartialEq, Eq)]
pub struct StoredRow {
    pub key: Tuple,
    pub polarity: ClaimPolarity,
    pub payload: Tuple,
}

/// The model of a [`StoredRow`].
pub struct StoredModel {
    pub key: Row,
    pub polarity: ClaimPolarity,
    pub payload: Row,
}

impl DeepView for StoredRow {
    type V = StoredModel;

    open spec fn deep_view(&self) -> StoredModel {
        StoredModel {
            key: self.key.deep_view(),
            polarity: self.polarity,
            payload: self.payload.deep_view(),
        }
    }
}

/// Why a stored key is not the key of a fact version.
#[derive(Clone, Copy, Debug, PartialEq, Eq, Structural)]
pub enum CorruptKey {
    /// The key is too short to carry its two time slots.
    TooShort,
    /// The system-time slot does not hold a time coordinate.
    SystemSlot,
    /// The valid-time slot does not hold a time coordinate.
    ValidSlot,
    /// A stored time slot carries a retract flag; polarity lives in the value.
    RetractFlag,
    /// The number of key columns is not the one the relation declares.
    KeyColumns { found: usize, declared: usize },
}

/// What a stored row decodes to: the fact's key and the version.
pub open spec fn decoded(row: StoredModel, key_len: int) -> Result<(Row, Version), CorruptKey> {
    let n = row.key.len();
    if n < 2 {
        Err(CorruptKey::TooShort)
    } else {
        match (row.key[n - 2], row.key[n - 1]) {
            (Val::Validity(valid), Val::Validity(sys)) => if !valid.is_assert || !sys.is_assert {
                Err(CorruptKey::RetractFlag)
            } else if n - 2 != key_len {
                Err(CorruptKey::KeyColumns { found: (n - 2) as usize, declared: key_len as usize })
            } else {
                Ok(
                    (
                        row.key.take(n - 2),
                        Version {
                            valid: valid.ts,
                            sys: sys.ts,
                            polarity: row.polarity,
                            payload: row.payload,
                        },
                    ),
                )
            },
            (_, Val::Validity(_)) => Err(CorruptKey::ValidSlot),
            _ => Err(CorruptKey::SystemSlot),
        }
    }
}

/// The first `n` values of a row.
pub fn row_prefix(row: &Tuple, n: usize) -> (r: Tuple)
    requires
        n <= row@.len(),
    ensures
        r.deep_view() == row.deep_view().take(n as int),
{
    let mut out: Tuple = Vec::new();
    let mut i: usize = 0;
    while i < n
        invariant
            i <= n <= row@.len(),
            out.deep_view() == row.deep_view().take(i as int),
        decreases n - i,
    {
        let ghost prev = out.deep_view();
        let copy = row[i].clone();
        out.push(copy);
        assert(out.deep_view() =~= prev.push(row@[i as int].deep_view()));
        assert(out.deep_view() =~= row.deep_view().take(i + 1));
        i = i + 1;
    }
    out
}

/// Split a stored row into the fact's key and the version it records.
pub fn decode_raw_version(row: &StoredRow, key_len: usize) -> (r: Result<
    (Tuple, RawVersion),
    CorruptKey,
>)
    ensures
        match r {
            Ok(kv) => decoded(row.deep_view(), key_len as int) == Ok::<(Row, Version), CorruptKey>(
                (kv.0.deep_view(), kv.1.deep_view()),
            ),
            Err(e) => decoded(row.deep_view(), key_len as int) == Err::<
                (Row, Version),
                CorruptKey,
            >(e),
        },
{
    let n: usize = row.key.len();
    let ghost model = row.deep_view();
    assert(model.key.len() == n);
    if n < 2 {
        return Err(CorruptKey::TooShort);
    }
    assert(model.key[n - 1] == row.key@[n - 1].deep_view());
    assert(model.key[n - 2] == row.key@[n - 2].deep_view());
    let sys_slot = match &row.key[n - 1] {
        DataValue::Validity(s) => *s,
        _ => {
            return Err(CorruptKey::SystemSlot);
        },
    };
    let valid_slot = match &row.key[n - 2] {
        DataValue::Validity(s) => *s,
        _ => {
            return Err(CorruptKey::ValidSlot);
        },
    };
    if !valid_slot.is_assert || !sys_slot.is_assert {
        return Err(CorruptKey::RetractFlag);
    }
    if n - 2 != key_len {
        return Err(CorruptKey::KeyColumns { found: n - 2, declared: key_len });
    }
    let key = row_prefix(&row.key, n - 2);
    let payload = copy_row(&row.payload);
    let version = RawVersion {
        valid: valid_slot.ts,
        sys: sys_slot.ts,
        polarity: row.polarity,
        payload,
    };
    Ok((key, version))
}

/// A fact and all its versions.
#[derive(Debug, PartialEq, Eq)]
pub struct Fact {
    pub key: Tuple,
    pub versions: Vec<RawVersion>,
}

/// The model of a [`Fact`].
pub struct FactModel {
    pub key: Row,
    pub versions: Seq<Version>,
}

impl DeepView for Fact {
    type V = FactModel;

    open spec fn deep_view(&self) -> FactModel {
        FactModel { key: self.key.deep_view(), versions: self.versions.deep_view() }
    }
}

/// The row a fact gives at a coordinate.
pub open spec fn fact_at(f: FactModel, at: AsOf) -> Option<Row> {
    held(f.versions, f.key, at.valid as int, at.sys as int)
}

/// Whether row `i` continues the fact with the given key.
pub open spec fn continues(rows: Seq<StoredModel>, i: int, key: Row) -> bool {
    rows[i].key.len() >= 2 && rows[i].key.take(rows[i].key.len() - 2) == key
}

/// Where the run of rows that continue `key` from row `i` on ends.
pub open spec fn run_end(rows: Seq<StoredModel>, i: int, key: Row) -> int
    decreases rows.len() - i,
{
    if 0 <= i < rows.len() && continues(rows, i, key) {
        run_end(rows, i + 1, key)
    } else {
        i
    }
}

/// Where the group of rows that starts at row `from` ends: at the next row of
/// another fact.
pub open spec fn group_end(rows: Seq<StoredModel>, from: int) -> int {
    run_end(rows, from + 1, rows[from].key.take(rows[from].key.len() - 2))
}

pub proof fn lemma_run_end(rows: Seq<StoredModel>, i: int, key: Row)
    requires
        0 <= i <= rows.len(),
    ensures
        i <= run_end(rows, i, key) <= rows.len(),
        forall|j: int| i <= j < run_end(rows, i, key) ==> #[trigger] continues(rows, j, key),
    decreases rows.len() - i,
{
    if i < rows.len() && continues(rows, i, key) {
        lemma_run_end(rows, i + 1, key);
    }
}

/// The first row in `[from, to)` that does not decode, or `to`.
pub open spec fn first_corrupt(rows: Seq<StoredModel>, key_len: int, from: int, to: int) -> int
    decreases to - from,
{
    if from < to && decoded(rows[from], key_len) is Ok {
        first_corrupt(rows, key_len, from + 1, to)
    } else {
        from
    }
}

/// The fact that the group at row `from` records, or the first decoding error.
pub open spec fn group_at(rows: Seq<StoredModel>, key_len: int, from: int) -> Result<
    FactModel,
    CorruptKey,
> {
    if decoded(rows[from], key_len) is Err {
        Err(decoded(rows[from], key_len)->Err_0)
    } else {
        let end = group_end(rows, from);
        let bad = first_corrupt(rows, key_len, from, end);
        if bad < end {
            Err(decoded(rows[bad], key_len)->Err_0)
        } else {
            Ok(
                FactModel {
                    key: decoded(rows[from], key_len)->Ok_0.0,
                    versions: Seq::new(
                        (end - from) as nat,
                        |i: int| decoded(rows[from + i], key_len)->Ok_0.1,
                    ),
                },
            )
        }
    }
}

proof fn lemma_first_corrupt_step(rows: Seq<StoredModel>, key_len: int, from: int, at: int, to: int)
    requires
        from <= at <= to,
        forall|j: int| from <= j < at ==> (#[trigger] decoded(rows[j], key_len)) is Ok,
    ensures
        first_corrupt(rows, key_len, from, to) == first_corrupt(rows, key_len, at, to),
    decreases at - from,
{
    if from < at {
        assert(decoded(rows[from], key_len) is Ok);
        lemma_first_corrupt_step(rows, key_len, from + 1, at, to);
    }
}

/// Whether a stored row continues the fact with the given key.
fn row_continues(row: &StoredRow, key: &Tuple) -> (r: bool)
    ensures
        r == (row.key@.len() >= 2 && row.deep_view().key.take(row.key@.len() - 2)
            == key.deep_view()),
{
    if row.key.len() < 2 {
        return false;
    }
    let prefix = row_prefix(&row.key, row.key.len() - 2);
    same_row(&prefix, key)
}

/// Collect the versions of the fact whose first row is at `from`: the fact,
/// and where the next one starts.
pub fn collect_group(rows: &Vec<StoredRow>, key_len: usize, from: usize) -> (r: Result<
    (Fact, usize),
    CorruptKey,
>)
    requires
        from < rows@.len(),
    ensures
        match r {
            Ok(fe) => {
                &&& group_at(rows.deep_view(), key_len as int, from as int) == Ok::<
                    FactModel,
                    CorruptKey,
                >(fe.0.deep_view())
                &&& fe.1 == group_end(rows.deep_view(), from as int)
                &&& from < fe.1 <= rows@.len()
            },
            Err(e) => group_at(rows.deep_view(), key_len as int, from as int) == Err::<
                FactModel,
                CorruptKey,
            >(e),
        },
{
    let ghost s = rows.deep_view();
    let ghost n = key_len as int;
    assert(s[from as int] == rows@[from as int].deep_view());
    let (key, first) = match decode_raw_version(&rows[from], key_len) {
        Ok(kv) => kv,
        Err(e) => {
            return Err(e);
        },
    };
    let ghost prefix = s[from as int].key.take(s[from as int].key.len() - 2);
    assert(key.deep_view() == prefix);
    let mut versions: Vec<RawVersion> = Vec::new();
    versions.push(first);
    assert(from < rows.len());
    let mut at: usize = from + 1;
    proof {
        lemma_run_end(s, from + 1, prefix);
        assert(versions.deep_view() =~= Seq::new(
            1,
            |i: int| decoded(s[from + i], n)->Ok_0.1,
        ));
    }
    while at < rows.len() && row_continues(&rows[at], &key)
        invariant
            from < at <= rows@.len(),
            s == rows.deep_view(),
            n == key_len as int,
            key.deep_view() == prefix,
            prefix == s[from as int].key.take(s[from as int].key.len() - 2),
            forall|j: int| from <= j < at ==> (#[trigger] decoded(s[j], n)) is Ok,
            decoded(s[from as int], n)->Ok_0.0 == prefix,
            run_end(s, from + 1, prefix) == run_end(s, at as int, prefix),
            at <= run_end(s, at as int, prefix) <= s.len(),
            versions.deep_view() == Seq::new(
                (at - from) as nat,
                |i: int| decoded(s[from + i], n)->Ok_0.1,
            ),
        decreases rows.len() - at,
    {
        assert(s[at as int] == rows@[at as int].deep_view());
        assert(continues(s, at as int, prefix));
        let ghost prev = versions.deep_view();
        proof {
            lemma_run_end(s, at + 1, prefix);
        }
        match decode_raw_version(&rows[at], key_len) {
            Ok(kv) => {
                let ghost v = kv.1.deep_view();
                versions.push(kv.1);
                proof {
                    assert(versions.deep_view() =~= prev.push(v));
                    assert(versions.deep_view() =~= Seq::new(
                        (at + 1 - from) as nat,
                        |i: int| decoded(s[from + i], n)->Ok_0.1,
                    ));
                }
            },
            Err(e) => {
                proof {
                    let end = group_end(s, from as int);
                    lemma_first_corrupt_step(s, n, from as int, at as int, end);
                    assert(first_corrupt(s, n, at as int, end) == at);
                }
                return Err(e);
            },
        }
        at = at + 1;
    }
    proof {
        if at < rows.len() {
            assert(s[at as int] == rows@[at as int].deep_view());
            assert(!continues(s, at as int, prefix));
        }
        assert(run_end(s, at as int, prefix) == at);
        lemma_first_corrupt_step(s, n, from as int, at as int, at as int);
        assert(first_corrupt(s, n, at as int, at as int) == at);
    }
    Ok((Fact { key, versions }, at))
}

/// The facts of a stored relation with all their versions, in key order.
#[derive(Debug, PartialEq, Eq)]
pub struct FactTable {
    /// The number of key columns.
    pub key_len: usize,
    pub facts: OrderedMap<Tuple, Vec<RawVersion>>,
}

impl FactTable {
    /// Keys are distinct, in increasing order, and of the declared width.
    pub open spec fn wf(&self) -> bool {
        &&& self.facts.wf()
        &&& forall|i: int|
            0 <= i < self.facts.keys@.len() ==> (#[trigger] self.facts.keys@[i])@.len()
                == self.key_len
    }

    /// The facts, in key order.
    pub open spec fn model(&self) -> Seq<FactModel> {
        Seq::new(
            self.facts.keys@.len(),
            |i: int|
                FactModel {
                    key: self.facts.keys@[i].deep_view(),
                    versions: self.facts.vals@[i].deep_view(),
                },
        )
    }

    /// An empty relation.
    pub fn new(key_len: usize) -> (r: Self)
        ensures
            r.wf(),
            r.key_len == key_len,
            r.model() == Seq::<FactModel>::empty(),
            r.facts.keys@.len() == 0,
    {
        let r = FactTable { key_len, facts: OrderedMap::new() };
        assert(r.model() =~= Seq::<FactModel>::empty());
        r
    }

    /// Every row that holds at a coordinate, in key order.
    pub fn skip_scan_all(&self, at: AsOf) -> (r: Vec<Tuple>)
        requires
            self.wf(),
        ensures
            r.deep_view() == snapshot(self.model(), at),
    {
        let mut out: Vec<Tuple> = Vec::new();
        let ghost facts = self.model();
        let mut i: usize = 0;
        assert(facts.take(0) =~= Seq::<FactModel>::empty());
        while i < self.facts.keys.len()
            invariant
                i <= self.facts.keys@.len(),
                self.wf(),
                facts == self.model(),
                out.deep_view() == snapshot(facts.take(i as int), at),
            decreases self.facts.keys.len() - i,
        {
            let ghost prev = out.deep_view();
            proof {
                facts.lemma_filter_map_take_succ(|f: FactModel| fact_at(f, at), i as int);
            }
            match resolve_at(&self.facts.vals[i], &self.facts.keys[i], at.valid, at.sys) {
                Some(row) => {
                    let ghost model = row.deep_view();
                    out.push(row);
                    assert(out.deep_view() =~= prev.push(model));
                    assert(out.deep_view() =~= snapshot(facts.take(i + 1), at));
                },
                None => {
                    assert(out.deep_view() =~= snapshot(facts.take(i + 1), at));
                },
            }
            i = i + 1;
        }
        assert(facts.take(i as int) =~= facts);
        out
    }

    /// The row of one fact at a coordinate.
    pub fn current_row(&self, key: &Tuple, at: AsOf) -> (r: Option<Tuple>)
        requires
            self.wf(),
        ensures
            r.deep_view() == row_of_key(self.model(), key.deep_view(), at),
    {
        let (found, i) = place_of(&self.facts.keys, key);
        let ghost ks = self.facts.keys.deep_view();
        let ghost facts = self.model();
        proof {
            lemma_sorted_no_duplicates::<Tuple>(ks);
        }
        if found {
            proof {
                let c = choose|c: int| is_fact_key(facts, c, key.deep_view());
                assert(is_fact_key(facts, i as int, key.deep_view()));
                assert(ks[c] == ks[i as int]);
            }
            resolve_at(&self.facts.vals[i], &self.facts.keys[i], at.valid, at.sys)
        } else {
            proof {
                if exists|c: int| is_fact_key(facts, c, key.deep_view()) {
                    let c = choose|c: int| is_fact_key(facts, c, key.deep_view());
                    assert(ks[c] == key.deep_view());
                    assert(ks.contains(key.deep_view()));
                }
            }
            None
        }
    }

    /// Record a version of a fact.
    pub fn record(&mut self, key: Tuple, version: RawVersion)
        requires
            old(self).wf(),
            key@.len() == old(self).key_len,
        ensures
            final(self).wf(),
            final(self).key_len == old(self).key_len,
            final(self).facts.keys.deep_view().to_set() == old(
                self,
            ).facts.keys.deep_view().to_set().insert(key.deep_view()),
            forall|k: Row|
                #![trigger versions_of(final(self).model(), k)]
                versions_of(final(self).model(), k) == (if k == key.deep_view() {
                    versions_of(old(self).model(), k).push(version.deep_view())
                } else {
                    versions_of(old(self).model(), k)
                }),
    {
        let ghost before = *self;
        let ghost ks = self.facts.keys.deep_view();
        let ghost vs = self.facts.vals@;
        let ghost k0 = key.deep_view();
        let ghost v0 = version.deep_view();
        let (found, at) = place_of(&self.facts.keys, &key);
        proof {
            lemma_sorted_no_duplicates::<Tuple>(ks);
        }
        if found {
            let mut list: Vec<RawVersion> = Vec::new();
            std::mem::swap(&mut list, &mut self.facts.vals[at]);
            let ghost old_list = list.deep_view();
            list.push(version);
            let ghost new_list = list.deep_view();
            assert(new_list =~= old_list.push(v0));
            self.facts.vals.set(at, list);
            proof {
                assert(ks.to_set().insert(k0) =~= ks.to_set());
                assert(self.facts.keys == before.facts.keys);
                assert forall|k: Row| #![trigger versions_of(self.model(), k)] versions_of(
                    self.model(),
                    k,
                ) == (if k == k0 {
                    versions_of(before.model(), k).push(v0)
                } else {
                    versions_of(before.model(), k)
                }) by {
                    if ks.contains(k) {
                        let i = ks.index_of(k);
                        lemma_versions_at(&before, i);
                        lemma_versions_at(self, i);
                        lemma_versions_at(&before, at as int);
                        lemma_versions_at(self, at as int);
                        if i != at {
                            assert(ks[i] != ks[at as int]);
                        }
                    } else {
                        lemma_versions_absent(&before, k);
                        lemma_versions_absent(self, k);
                    }
                }
            }
        } else {
            let mut list: Vec<RawVersion> = Vec::new();
            list.push(version);
            assert(list.deep_view() =~= Seq::<Version>::empty().push(v0));
            proof {
                crate::order::lemma_insert_sorted::<Tuple>(ks, k0, at as int);
            }
            self.facts.keys.insert(at, key);
            self.facts.vals.insert(at, list);
            proof {
                let ks2 = self.facts.keys.deep_view();
                assert(ks2 =~= ks.insert(at as int, k0));
                lemma_sorted_no_duplicates::<Tuple>(ks2);
                assert forall|k: Row| #![trigger versions_of(self.model(), k)] versions_of(
                    self.model(),
                    k,
                ) == (if k == k0 {
                    versions_of(before.model(), k).push(v0)
                } else {
                    versions_of(before.model(), k)
                }) by {
                    assert(ks2.to_set().contains(k) == ks.to_set().insert(k0).contains(k));
                    if k == k0 {
                        lemma_versions_absent(&before, k);
                        lemma_versions_at(self, at as int);
                    } else if ks.contains(k) {
                        let i = ks.index_of(k);
                        lemma_versions_at(&before, i);
                        if i < at {
                            lemma_versions_at(self, i);
                        } else {
                            lemma_versions_at(self, i + 1);
                        }
                    } else {
                        lemma_versions_absent(&before, k);
                        lemma_versions_absent(self, k);
                    }
                }
            }
        }
    }

    /// The facts recorded by the rows of a keyspace scan.
    pub fn from_rows(rows: &Vec<StoredRow>, key_len: usize) -> (r: Result<FactTable, CorruptKey>)
        ensures
            match r {
                Ok(t) => {
                    &&& t.wf()
                    &&& t.key_len == key_len
                    &&& first_corrupt(rows.deep_view(), key_len as int, 0, rows@.len() as int)
                        == rows@.len()
                    &&& forall|k: Row|
                        #![trigger versions_of(t.model(), k)]
                        versions_of(t.model(), k) == recorded(rows.deep_view(), key_len as int, k)
                },
                Err(e) => {
                    let bad = first_corrupt(
                        rows.deep_view(),
                        key_len as int,
                        0,
                        rows@.len() as int,
                    );
                    bad < rows@.len() && decoded(rows.deep_view()[bad], key_len as int) == Err::<
                        (Row, Version),
                        CorruptKey,
                    >(e)
                },
            },
    {
        let mut t = FactTable::new(key_len);
        let ghost s = rows.deep_view();
        let ghost n = key_len as int;
        let mut i: usize = 0;
        proof {
            assert forall|k: Row| #![trigger versions_of(t.model(), k)] versions_of(t.model(), k)
                == recorded(s.take(0), n, k) by {
                lemma_versions_absent(&t, k);
            }
        }
        while i < rows.len()
            invariant
                i <= rows@.len(),
                s == rows.deep_view(),
                n == key_len as int,
                t.wf(),
                t.key_len == key_len,
                forall|j: int| 0 <= j < i ==> (#[trigger] decoded(s[j], n)) is Ok,
                forall|k: Row|
                    #![trigger versions_of(t.model(), k)]
                    versions_of(t.model(), k) == recorded(s.take(i as int), n, k),
            decreases rows.len() - i,
        {
            assert(s[i as int] == rows@[i as int].deep_view());
            proof {
                lemma_first_corrupt_step(s, n, 0, i as int, s.len() as int);
                assert(s.take(i + 1).drop_last() =~= s.take(i as int));
                assert(s.take(i + 1).last() == s[i as int]);
            }
            match decode_raw_version(&rows[i], key_len) {
                Ok(kv) => {
                    let (key, version) = kv;
                    assert(key@.len() == key.deep_view().len());
                    t.record(key, version);
                },
                Err(e) => {
                    return Err(e);
                },
            }
            i = i + 1;
        }
        proof {
            lemma_first_corrupt_step(s, n, 0, i as int, s.len() as int);
            assert(s.take(i as int) =~= s);
        }
        Ok(t)
    }
}

/// The rows that hold at a coordinate, in key order.
pub open spec fn snapshot(facts: Seq<FactModel>, at: AsOf) -> Seq<Row> {
    facts.filter_map(|f: FactModel| fact_at(f, at))
}

pub open spec fn is_fact_key(facts: Seq<FactModel>, i: int, key: Row) -> bool {
    0 <= i < facts.len() && facts[i].key == key
}

/// The row that the fact with a given key gives at a coordinate.
pub open spec fn row_of_key(facts: Seq<FactModel>, key: Row, at: AsOf) -> Option<Row> {
    if exists|i: int| is_fact_key(facts, i, key) {
        fact_at(facts[choose|i: int| is_fact_key(facts, i, key)], at)
    } else {
        None
    }
}

/// The versions of the fact with a given key; none if there is no such fact.
pub open spec fn versions_of(facts: Seq<FactModel>, key: Row) -> Seq<Version> {
    if exists|i: int| is_fact_key(facts, i, key) {
        facts[choose|i: int| is_fact_key(facts, i, key)].versions
    } else {
        Seq::empty()
    }
}

/// The versions that stored rows record for a key, in row order.
pub open spec fn recorded(rows: Seq<StoredModel>, key_len: int, key: Row) -> Seq<Version>
    decreases rows.len(),
{
    if rows.len() == 0 {
        Seq::empty()
    } else {
        let rest = recorded(rows.drop_last(), key_len, key);
        match decoded(rows.last(), key_len) {
            Ok(kv) => if kv.0 == key {
                rest.push(kv.1)
            } else {
                rest
            },
            Err(_) => rest,
        }
    }
}

pub proof fn lemma_versions_at(t: &FactTable, i: int)
    requires
        t.wf(),
        0 <= i < t.facts.keys@.len(),
    ensures
        versions_of(t.model(), t.facts.keys.deep_view()[i]) == t.facts.vals@[i].deep_view(),
{
    let ks = t.facts.keys.deep_view();
    lemma_sorted_no_duplicates::<Tuple>(ks);
    assert(is_fact_key(t.model(), i, ks[i]));
    let c = choose|c: int| is_fact_key(t.model(), c, ks[i]);
    assert(ks[c] == ks[i]);
}

proof fn lemma_versions_absent(t: &FactTable, key: Row)
    requires
        t.wf(),
        !t.facts.keys.deep_view().contains(key),
    ensures
        versions_of(t.model(), key) == Seq::<Version>::empty(),
{
    if exists|i: int| is_fact_key(t.model(), i, key) {
        let i = choose|i: int| is_fact_key(t.model(), i, key);
        assert(t.facts.keys.deep_view()[i] == key);
    }
}

} // verus!
