//! Derived intervals and changes of a stored relation.

use kyzo_query::batch::BATCH_ROWS;
use kyzo_query::delta::{
    candidate_keys_from_posting, compose, diff_sets, patch_naive, patch_via_posting, signed_rows,
    CorruptPosting, SignedFact, SIGN_MINUS, SIGN_PLUS,
};
use kyzo_query::expr::SourceSpan;
use kyzo_query::history::{AsOf, ClaimPolarity, CorruptKey, FactTable, RawVersion, StoredRow};
use kyzo_query::meaning::{Env, Stores};
use kyzo_query::order::OrderedSet;
use kyzo_query::plan::{DeltaRA, KeyspaceKind, RelAlgebra, RelationHandle, SpansRA};
use kyzo_query::run::delta_rows_by;
use kyzo_query::segment::Segments;
use kyzo_query::spans::{SpansError, SpansScan};
use kyzo_query::value::{DataValue, Interval, Tuple, ValiditySlot};

fn sp() -> SourceSpan {
    SourceSpan { start: 0, len: 0 }
}

fn v(i: i64) -> DataValue {
    DataValue::Num(i)
}

fn num(x: &DataValue) -> i64 {
    match x {
        DataValue::Num(n) => *n,
        other => panic!("not an int: {other:?}"),
    }
}

/// A relation with one key column and one payload column. Every event is a
/// commit of its own, with the next system stamp.
struct Rel {
    table: FactTable,
    postings: OrderedSet<Tuple>,
    sys: i64,
}

impl Rel {
    fn new() -> Rel {
        Rel {
            table: FactTable::new(1),
            postings: OrderedSet::new(),
            sys: 0,
        }
    }

    fn event(&mut self, key: i64, valid: i64, polarity: ClaimPolarity, payload: Vec<DataValue>) {
        self.sys += 1;
        self.table.record(
            vec![v(key)],
            RawVersion {
                valid,
                sys: self.sys,
                polarity,
                payload,
            },
        );
        self.postings.insert(vec![
            slot(valid),
            v(key),
            slot(valid),
            slot(self.sys),
        ]);
    }

    fn assert_at(&mut self, key: i64, valid: i64, val: i64) {
        self.event(key, valid, ClaimPolarity::Assert, vec![v(val)]);
    }

    fn retract_at(&mut self, key: i64, valid: i64) {
        self.event(key, valid, ClaimPolarity::Retract, vec![]);
    }

    fn erase_at(&mut self, key: i64, valid: i64) {
        self.event(key, valid, ClaimPolarity::Erase, vec![]);
    }

    fn env(self) -> Env {
        Env {
            stores: Stores::new(),
            tables: vec![self.table],
            indexes: vec![],
        }
    }

    fn spans(self, sys: i64) -> Vec<(i64, i64, i64, i64)> {
        let ra = RelAlgebra::Spans(SpansRA {
            bindings: vec!["k".to_string(), "val".to_string(), "ivl".to_string()],
            storage: handle(),
            sys,
            span: sp(),
        });
        plan_rows(&ra, &self.env())
            .iter()
            .map(|row| match &row[2] {
                DataValue::Interval(Interval { start, end }) => {
                    (num(&row[0]), num(&row[1]), *start, *end)
                }
                other => panic!("not an interval: {other:?}"),
            })
            .collect()
    }

    fn delta(self, from: AsOf, to: AsOf) -> Vec<(i64, i64, i64)> {
        let ra = RelAlgebra::Delta(DeltaRA {
            bindings: vec!["k".to_string(), "val".to_string(), "sgn".to_string()],
            storage: handle(),
            from,
            to,
            span: sp(),
        });
        plan_rows(&ra, &self.env())
            .iter()
            .map(|row| (num(&row[0]), num(&row[1]), num(&row[2])))
            .collect()
    }

    fn paths_agree(&self, from: AsOf, to: AsOf) {
        let naive = patch_naive(&self.table, from, to);
        let fast = patch_via_posting(&self.table, &self.postings, from, to).unwrap();
        assert_eq!(naive, fast, "from={from:?} to={to:?}");
        let rows = delta_rows_by(&self.table, None, from, to).unwrap();
        assert_eq!(signed_rows(&naive), rows);
        let by_postings = delta_rows_by(&self.table, Some(&self.postings), from, to);
        assert_eq!(by_postings, Ok(rows));
    }
}

fn handle() -> RelationHandle {
    RelationHandle {
        name: "r".to_string(),
        id: 0,
        keyspace_kind: KeyspaceKind::Facts,
    }
}

fn slot(ts: i64) -> DataValue {
    DataValue::Validity(ValiditySlot {
        ts,
        is_assert: true,
    })
}

fn plan_rows(ra: &RelAlgebra, env: &Env) -> Vec<Tuple> {
    let by_row = ra.iter(env, None).unwrap().collect().unwrap();
    let off = Segments {
        by_relation: vec![],
    };
    let batched = ra.iter_batched(env, None, &off).unwrap();
    let batched = batched.into_rows().collect().unwrap();
    assert_eq!(by_row, batched);
    batched
}

#[test]
fn single_assert_is_one_open_interval() {
    let mut r = Rel::new();
    r.assert_at(1, 10, 100);
    assert_eq!(r.spans(i64::MAX), vec![(1, 100, 10, i64::MAX)]);
}

#[test]
fn retract_clips_the_interval_exclusive() {
    let mut r = Rel::new();
    r.assert_at(1, 10, 100);
    r.retract_at(1, 20);
    assert_eq!(r.spans(i64::MAX), vec![(1, 100, 10, 20)]);
}

#[test]
fn payload_change_splits_into_two_intervals() {
    let mut r = Rel::new();
    r.assert_at(1, 10, 100);
    r.assert_at(1, 20, 200);
    assert_eq!(
        r.spans(i64::MAX),
        vec![(1, 100, 10, 20), (1, 200, 20, i64::MAX)]
    );
}

#[test]
fn double_assert_same_payload_is_idempotent_one_interval() {
    let mut r = Rel::new();
    r.assert_at(1, 10, 100);
    r.assert_at(1, 20, 100);
    assert_eq!(r.spans(i64::MAX), vec![(1, 100, 10, i64::MAX)]);
}

#[test]
fn assert_after_retract_opens_a_new_interval() {
    let mut r = Rel::new();
    r.assert_at(1, 10, 100);
    r.retract_at(1, 20);
    r.assert_at(1, 30, 100);
    assert_eq!(
        r.spans(i64::MAX),
        vec![(1, 100, 10, 20), (1, 100, 30, i64::MAX)]
    );
}

#[test]
fn dangling_retract_holds_nowhere() {
    let mut r = Rel::new();
    r.retract_at(1, 10);
    assert!(r.spans(i64::MAX).is_empty());
}

#[test]
fn erase_is_transparent_falls_through_to_older_instant() {
    let mut r = Rel::new();
    r.assert_at(1, 0, 100);
    r.assert_at(1, 10, 200);
    r.erase_at(1, 10);
    assert_eq!(r.spans(i64::MAX), vec![(1, 100, 0, i64::MAX)]);
}

#[test]
fn no_zero_width_intervals_at_any_fixed_sys() {
    let corrected = || {
        let mut r = Rel::new();
        r.assert_at(1, 10, 100);
        r.assert_at(1, 10, 200);
        r
    };
    for sys in [0, 1, 2, i64::MAX] {
        for (_, _, start, end) in corrected().spans(sys) {
            assert!(start < end, "zero-width interval [{start}, {end})");
        }
    }
    // Before the correction was recorded, the first write governs.
    assert_eq!(corrected().spans(1), vec![(1, 100, 10, i64::MAX)]);
    let mut r = Rel::new();
    r.assert_at(1, 10, 100);
    assert_eq!(r.spans(i64::MAX), vec![(1, 100, 10, i64::MAX)]);
}

#[test]
fn multiple_facts_derive_independently() {
    let mut r = Rel::new();
    r.assert_at(1, 10, 100);
    r.assert_at(2, 5, 900);
    r.retract_at(2, 15);
    let mut rows = r.spans(i64::MAX);
    rows.sort();
    assert_eq!(rows, vec![(1, 100, 10, i64::MAX), (2, 900, 5, 15)]);
}

#[test]
fn diff_valid_axis_sees_a_new_assertion_as_plus() {
    let mut r = Rel::new();
    r.assert_at(1, 10, 100);
    assert_eq!(
        r.delta(AsOf::current(5), AsOf::current(20)),
        vec![(1, 100, SIGN_PLUS)]
    );
}

#[test]
fn diff_payload_change_is_a_minus_plus_pair_never_modified() {
    let mut r = Rel::new();
    r.assert_at(1, 10, 100);
    r.assert_at(1, 20, 200);
    let rows = r.delta(AsOf::current(15), AsOf::current(25));
    assert_eq!(rows.len(), 2);
    assert!(rows.contains(&(1, 100, SIGN_MINUS)));
    assert!(rows.contains(&(1, 200, SIGN_PLUS)));
}

#[test]
fn diff_identical_snapshots_is_empty() {
    let mut r = Rel::new();
    r.assert_at(1, 10, 100);
    assert!(r.delta(AsOf::current(20), AsOf::current(20)).is_empty());
}

#[test]
fn diff_sys_axis_sees_a_correction() {
    let mut r = Rel::new();
    r.assert_at(1, 10, 100);
    r.assert_at(1, 10, 200);
    let before = AsOf {
        sys: 0,
        valid: i64::MAX,
    };
    let after = AsOf::current(i64::MAX);
    assert_eq!(r.delta(before, after), vec![(1, 200, SIGN_PLUS)]);
}

#[test]
fn posting_fast_path_matches_naive_on_a_new_assertion() {
    let mut r = Rel::new();
    r.assert_at(1, 10, 100);
    r.paths_agree(AsOf::current(5), AsOf::current(20));
}

#[test]
fn posting_fast_path_matches_naive_on_a_payload_change() {
    let mut r = Rel::new();
    r.assert_at(1, 10, 100);
    r.assert_at(1, 20, 200);
    r.paths_agree(AsOf::current(15), AsOf::current(25));
}

#[test]
fn posting_fast_path_matches_naive_on_identical_snapshots() {
    let mut r = Rel::new();
    r.assert_at(1, 10, 100);
    r.paths_agree(AsOf::current(20), AsOf::current(20));
}

#[test]
fn posting_fast_path_matches_naive_on_a_retraction() {
    let mut r = Rel::new();
    r.assert_at(1, 10, 100);
    r.retract_at(1, 20);
    r.paths_agree(AsOf::current(15), AsOf::current(25));
    r.paths_agree(AsOf::current(1), AsOf::current(5));
}

#[test]
fn posting_fast_path_matches_naive_on_a_backward_diff() {
    let mut r = Rel::new();
    r.assert_at(1, 10, 100);
    r.paths_agree(AsOf::current(20), AsOf::current(5));
}

#[test]
fn posting_fast_path_matches_naive_generatively() {
    let mut r = Rel::new();
    let mut state: u64 = 0x2545_F491_4F6C_DD1D;
    let mut next_range = move |n: u64| {
        state ^= state << 13;
        state ^= state >> 7;
        state ^= state << 17;
        state % n
    };
    for _ in 0..60 {
        let key = next_range(5) as i64;
        let valid = next_range(40) as i64;
        if next_range(4) == 0 {
            r.retract_at(key, valid);
        } else {
            let payload = next_range(1000) as i64;
            r.assert_at(key, valid, payload);
        }
    }
    for _ in 0..40 {
        let from = next_range(42) as i64;
        let to = next_range(42) as i64;
        r.paths_agree(AsOf::current(from), AsOf::current(to));
    }
}

#[test]
fn a_posting_of_the_wrong_width_is_corrupt() {
    let mut r = Rel::new();
    r.assert_at(1, 10, 100);
    r.postings.insert(vec![slot(12), v(1)]);
    let want = CorruptPosting {
        found: 2,
        expected: 4,
    };
    assert_eq!(candidate_keys_from_posting(&r.postings, 1, 5, 20), Err(want));
    assert_eq!(
        patch_via_posting(&r.table, &r.postings, AsOf::current(5), AsOf::current(20)),
        Err(want)
    );
    assert_eq!(
        delta_rows_by(&r.table, Some(&r.postings), AsOf::current(5), AsOf::current(20)),
        Err(want)
    );
    // Outside the window it is not read.
    let keys = candidate_keys_from_posting(&r.postings, 1, 5, 11).unwrap();
    assert_eq!(keys.items, vec![vec![v(1)]]);
    // Of several the first in order is reported.
    r.postings.insert(vec![slot(15), v(1), v(2), v(3), v(4)]);
    let first = r.postings.items.iter().find(|p| p.len() != 4).unwrap().len();
    assert_eq!(
        candidate_keys_from_posting(&r.postings, 1, 5, 20),
        Err(CorruptPosting {
            found: first,
            expected: 4
        })
    );
}

#[test]
fn patches_compose_and_cancel() {
    let set = |rows: &[i64]| OrderedSet::from_vec(rows.iter().map(|i| vec![v(*i)]).collect());
    let (a, b, c) = (set(&[1, 2]), set(&[2, 3]), set(&[1, 3]));
    let ab = diff_sets(&a, &b);
    assert_eq!(
        ab.items,
        vec![
            SignedFact::Plus(vec![v(3)]),
            SignedFact::Minus(vec![v(1)]),
        ]
    );
    let bc = diff_sets(&b, &c);
    assert_eq!(compose(&ab, &bc), diff_sets(&a, &c));
    assert!(compose(&ab, &diff_sets(&b, &a)).items.is_empty());
}

fn stored(key: i64, valid: i64, sys: i64, polarity: ClaimPolarity, payload: &[i64]) -> StoredRow {
    StoredRow {
        key: vec![v(key), slot(valid), slot(sys)],
        polarity,
        payload: payload.iter().map(|p| v(*p)).collect(),
    }
}

#[test]
fn a_scan_of_stored_rows_derives_fact_by_fact() {
    let rows = vec![
        stored(1, 20, 2, ClaimPolarity::Retract, &[]),
        stored(1, 10, 1, ClaimPolarity::Assert, &[100]),
        stored(2, 5, 3, ClaimPolarity::Assert, &[900]),
    ];
    let mut scan = SpansScan::new(rows, 1, i64::MAX);
    let mut got: Vec<Tuple> = vec![];
    while let Some(batch) = scan.next() {
        got.extend(batch.unwrap().into_rows());
    }
    let ivl = |start: i64, end: i64| DataValue::Interval(Interval { start, end });
    assert_eq!(
        got,
        vec![
            vec![v(1), v(100), ivl(10, 20)],
            vec![v(2), v(900), ivl(5, i64::MAX)],
        ]
    );
}

#[test]
fn a_scan_of_corrupt_rows_fails_and_ends() {
    let mut short = stored(1, 10, 1, ClaimPolarity::Assert, &[100]);
    short.key.truncate(1);
    let mut scan = SpansScan::new(vec![short], 1, i64::MAX);
    match scan.next() {
        Some(Err(e)) => assert_eq!(e, SpansError::Corrupt(CorruptKey::TooShort)),
        _ => panic!("a corrupt row was read"),
    }
    assert!(scan.next().is_none());
}

#[test]
fn no_batch_of_intervals_is_larger_than_the_target() {
    // One fact whose payload changes at every instant.
    let n = 2 * BATCH_ROWS as i64 + 3;
    let rows: Vec<StoredRow> = (0..n)
        .rev()
        .map(|t| stored(1, t, t, ClaimPolarity::Assert, &[t]))
        .collect();
    let mut scan = SpansScan::new(rows, 1, i64::MAX);
    let mut sizes = vec![];
    let mut got: Vec<Tuple> = vec![];
    while let Some(batch) = scan.next() {
        let rows = batch.unwrap().into_rows();
        sizes.push(rows.len());
        got.extend(rows);
    }
    assert_eq!(sizes, vec![BATCH_ROWS, BATCH_ROWS, 3]);
    let payloads: Vec<i64> = got.iter().map(|row| num(&row[1])).collect();
    assert_eq!(payloads, (0..n).collect::<Vec<_>>());
}
