//! What a record of versions promises: the past stays as it was, and a read
//! gives back what was written.

use vstd::prelude::*;
use crate::history::{
    decides, decoded, fact_at, governs, held, is_fact_key, lemma_decided, lemma_governing_unique,
    lemma_resolve_between, resolve, row_of_key, settles, snapshot, versions_of, AsOf, ClaimPolarity,
    CorruptKey, FactModel, StoredModel, Version,
};
use crate::value::{Row, Val, ValiditySlot};

verus! {

/// No version of an instant was recorded after a given one.
pub open spec fn newest_of_instant(g: Seq<Version>, v: Version) -> bool {
    forall|j: int| 0 <= j < g.len() && (#[trigger] g[j]).valid == v.valid ==> g[j].sys <= v.sys
}

/// A record of another instant, or of a later commit, leaves who governs as it
/// was.
proof fn lemma_governs_before(g: Seq<Version>, v: Version, k: int, sys: int)
    requires
        0 <= k < g.len(),
        g[k].valid != v.valid || sys < v.sys,
    ensures
        governs(g.push(v), k, sys) == governs(g, k, sys),
{
    let h = g.push(v);
    if governs(g, k, sys) {
        assert forall|j: int|
            0 <= j < h.len() && (#[trigger] h[j]).valid == h[k].valid && h[j].sys <= sys implies h[j].sys
            < h[k].sys || (h[j].sys == h[k].sys && j <= k) by {
            if j < g.len() {
                assert(h[j] == g[j]);
            }
        }
    }
    if governs(h, k, sys) {
        assert forall|j: int|
            0 <= j < g.len() && (#[trigger] g[j]).valid == g[k].valid && g[j].sys <= sys implies g[j].sys
            < g[k].sys || (g[j].sys == g[k].sys && j <= k) by {
            assert(h[j] == g[j]);
        }
    }
}

proof fn lemma_decides_before(g: Seq<Version>, v: Version, k: int, valid: int, sys: int)
    requires
        valid < v.valid || sys < v.sys,
    ensures
        decides(g.push(v), k, valid, sys) == decides(g, k, valid, sys),
{
    let h = g.push(v);
    if decides(g, k, valid, sys) {
        lemma_governs_before(g, v, k, sys);
        assert forall|j: int| #[trigger] settles(h, j, sys) && h[j].valid <= valid implies h[j].valid
            <= h[k].valid by {
            if j < g.len() {
                lemma_governs_before(g, v, j, sys);
                assert(settles(g, j, sys));
            }
        }
    }
    if decides(h, k, valid, sys) {
        assert(k < g.len());
        lemma_governs_before(g, v, k, sys);
        assert forall|j: int| #[trigger] settles(g, j, sys) && g[j].valid <= valid implies g[j].valid
            <= g[k].valid by {
            lemma_governs_before(g, v, j, sys);
            assert(settles(h, j, sys));
        }
    }
}

/// A new version changes nothing at coordinates before its valid instant, nor
/// at those before it was recorded: what was readable there stays readable.
pub proof fn law_record_keeps_the_past(g: Seq<Version>, v: Version, valid: int, sys: int)
    requires
        valid < v.valid || sys < v.sys,
    ensures
        resolve(g.push(v), valid, sys) == resolve(g, valid, sys),
{
    let h = g.push(v);
    if exists|k: int| decides(g, k, valid, sys) {
        let k = choose|k: int| decides(g, k, valid, sys);
        lemma_decides_before(g, v, k, valid, sys);
        lemma_decided(g, k, valid, sys);
        lemma_decided(h, k, valid, sys);
    } else if exists|k: int| decides(h, k, valid, sys) {
        let k = choose|k: int| decides(h, k, valid, sys);
        lemma_decides_before(g, v, k, valid, sys);
    }
}

proof fn lemma_newest_governs(g: Seq<Version>, v: Version, sys: int)
    requires
        newest_of_instant(g, v),
        v.sys <= sys,
    ensures
        governs(g.push(v), g.len() as int, sys),
{
    let h = g.push(v);
    let k = g.len() as int;
    assert forall|j: int|
        0 <= j < h.len() && (#[trigger] h[j]).valid == h[k].valid && h[j].sys <= sys implies h[j].sys
        < h[k].sys || (h[j].sys == h[k].sys && j <= k) by {
        if j < g.len() {
            assert(h[j] == g[j]);
        }
    }
}

/// A read gives back what the newest write of an instant claims, from that
/// instant on up to the next one with a version: its payload if it asserts,
/// and nothing if it retracts.
pub proof fn law_read_gives_back_the_write(g: Seq<Version>, v: Version, valid: int, sys: int)
    requires
        newest_of_instant(g, v),
        v.polarity != ClaimPolarity::Erase,
        v.sys <= sys,
        v.valid <= valid,
        forall|j: int| 0 <= j < g.len() ==> !(v.valid < (#[trigger] g[j]).valid <= valid),
    ensures
        resolve(g.push(v), valid, sys) == (if v.polarity == ClaimPolarity::Assert {
            Some(v.payload)
        } else {
            None
        }),
{
    let h = g.push(v);
    let k = g.len() as int;
    lemma_newest_governs(g, v, sys);
    assert(decides(h, k, v.valid as int, sys));
    lemma_decided(h, k, v.valid as int, sys);
    assert forall|j: int| 0 <= j < h.len() implies !(v.valid < (#[trigger] h[j]).valid <= valid) by {
        if j < g.len() {
            assert(h[j] == g[j]);
        }
    }
    lemma_resolve_between(h, v.valid as int, valid, sys);
}

/// An erased instant is as if nothing had been said of it: a read there gives
/// what a read just before it gives.
pub proof fn law_erase_falls_through(g: Seq<Version>, v: Version, sys: int)
    requires
        newest_of_instant(g, v),
        v.polarity == ClaimPolarity::Erase,
        v.sys <= sys,
    ensures
        resolve(g.push(v), v.valid as int, sys) == resolve(g, v.valid - 1, sys),
{
    let h = g.push(v);
    let n = g.len() as int;
    let at = v.valid as int;
    let before = at - 1;
    lemma_newest_governs(g, v, sys);
    assert forall|k: int| #[trigger] settles(h, k, sys) implies h[k].valid != at by {
        if h[k].valid == at {
            lemma_governing_unique(h, k, n, sys);
        }
    }
    if exists|k: int| decides(h, k, at, sys) {
        let k = choose|k: int| decides(h, k, at, sys);
        assert(settles(h, k, sys));
        assert(decides(h, k, before, sys));
        lemma_decided(h, k, at, sys);
        lemma_decided(h, k, before, sys);
    } else if exists|k: int| decides(h, k, before, sys) {
        let k = choose|k: int| decides(h, k, before, sys);
        assert(decides(h, k, at, sys)) by {
            assert forall|j: int| #[trigger] settles(h, j, sys) && h[j].valid <= at implies h[j].valid
                <= h[k].valid by {
                assert(h[j].valid != at);
            }
        }
    }
    law_record_keeps_the_past(g, v, before, sys);
}

/// A fact that was never asserted holds nowhere.
pub proof fn law_unasserted_never_holds(g: Seq<Version>, valid: int, sys: int)
    requires
        forall|j: int| 0 <= j < g.len() ==> (#[trigger] g[j]).polarity != ClaimPolarity::Assert,
    ensures
        resolve(g, valid, sys) is None,
{
    if exists|k: int| decides(g, k, valid, sys) {
        let k = choose|k: int| decides(g, k, valid, sys);
        assert(g[k].polarity != ClaimPolarity::Assert);
    }
}

/// What a relation gives for a key at a coordinate is what the versions of
/// that key resolve to.
pub proof fn law_rows_are_resolutions(facts: Seq<FactModel>, key: Row, at: AsOf)
    ensures
        row_of_key(facts, key, at) == held(
            versions_of(facts, key),
            key,
            at.valid as int,
            at.sys as int,
        ),
{
    if exists|i: int| is_fact_key(facts, i, key) {
        let i = choose|i: int| is_fact_key(facts, i, key);
        assert(facts[i].key == key);
    } else {
        let none = Seq::<Version>::empty();
        law_unasserted_never_holds(none, at.valid as int, at.sys as int);
    }
}

/// A stored row whose key is a fact's key, the instant from which a version
/// holds and the time at which it was recorded decodes to that fact and that
/// version. A key that ends otherwise does not decode.
pub proof fn law_stored_rows_decode(
    key: Row,
    valid: i64,
    sys: i64,
    polarity: ClaimPolarity,
    payload: Row,
    a: Val,
    b: Val,
)
    ensures
        decoded(
            StoredModel {
                key: key + seq![
                    Val::Validity(ValiditySlot { ts: valid, is_assert: true }),
                    Val::Validity(ValiditySlot { ts: sys, is_assert: true }),
                ],
                polarity,
                payload,
            },
            key.len() as int,
        ) == Ok::<(Row, Version), CorruptKey>(
            (key, Version { valid, sys, polarity, payload }),
        ),
        !(b is Validity) ==> decoded(
            StoredModel { key: key + seq![a, b], polarity, payload },
            key.len() as int,
        ) == Err::<(Row, Version), CorruptKey>(CorruptKey::SystemSlot),
        !(a is Validity) && b is Validity ==> decoded(
            StoredModel { key: key + seq![a, b], polarity, payload },
            key.len() as int,
        ) == Err::<(Row, Version), CorruptKey>(CorruptKey::ValidSlot),
        a is Validity && b is Validity && !((a->Validity_0).is_assert && (b->Validity_0).is_assert)
            ==> decoded(
            StoredModel { key: key + seq![a, b], polarity, payload },
            key.len() as int,
        ) == Err::<(Row, Version), CorruptKey>(CorruptKey::RetractFlag),
{
    let whole = key + seq![
        Val::Validity(ValiditySlot { ts: valid, is_assert: true }),
        Val::Validity(ValiditySlot { ts: sys, is_assert: true }),
    ];
    assert(whole.take(whole.len() - 2) =~= key);
    let other = key + seq![a, b];
    assert(other[other.len() - 2] == a && other[other.len() - 1] == b);
}

/// The rows that hold at a coordinate are the keys of the facts that hold
/// there, each with its payload behind it.
pub proof fn law_snapshot_is_keys_and_payloads(facts: Seq<FactModel>, at: AsOf, row: Row)
    ensures
        snapshot(facts, at).contains(row) <==> exists|i: int|
            0 <= i < facts.len() && (resolve(
                (#[trigger] facts[i]).versions,
                at.valid as int,
                at.sys as int,
            ) matches Some(payload) && row == facts[i].key + payload),
    decreases facts.len(),
{
    reveal(Seq::filter_map);
    let f = |f: FactModel| fact_at(f, at);
    let now = snapshot(facts, at);
    if facts.len() > 0 {
        let rest = facts.drop_last();
        let n = facts.len() - 1;
        let was = snapshot(rest, at);
        law_snapshot_is_keys_and_payloads(rest, at, row);
        assert(now == (match f(facts.last()) {
            Some(x) => was.push(x),
            None => was,
        }));
        if now.contains(row) {
            let k = choose|k: int| 0 <= k < now.len() && now[k] == row;
            if k < was.len() {
                assert(was[k] == row);
                assert(was.contains(row));
                let i = choose|i: int|
                    0 <= i < rest.len() && (resolve(
                        (#[trigger] rest[i]).versions,
                        at.valid as int,
                        at.sys as int,
                    ) matches Some(payload) && row == rest[i].key + payload);
                assert(facts[i] == rest[i]);
            } else {
                assert(facts[n] == facts.last());
            }
        }
        if exists|i: int|
            0 <= i < facts.len() && (resolve(
                (#[trigger] facts[i]).versions,
                at.valid as int,
                at.sys as int,
            ) matches Some(payload) && row == facts[i].key + payload) {
            let i = choose|i: int|
                0 <= i < facts.len() && (resolve(
                    (#[trigger] facts[i]).versions,
                    at.valid as int,
                    at.sys as int,
                ) matches Some(payload) && row == facts[i].key + payload);
            if i < n {
                assert(rest[i] == facts[i]);
                assert(was.contains(row));
                let k = choose|k: int| 0 <= k < was.len() && was[k] == row;
                assert(now[k] == row);
            } else {
                assert(now[was.len() as int] == row);
            }
        }
    } else {
        assert(now =~= Seq::<Row>::empty());
    }
}

} // verus!
