//! What a history of writes holds as of an instant.

use kyzo_query::asof::{independent_asof_reference, naive_asof, naive_asof_cfg, Write};
use kyzo_query::rng::{Rng, STRIDE};
use kyzo_query::value::{DataValue, Tuple};

fn n(i: i64) -> DataValue {
    DataValue::Num(i)
}

fn s(x: &str) -> DataValue {
    DataValue::Str(x.to_string())
}

fn ver(key: &[i64], ts: i64, asserted: bool, vals: Vec<DataValue>) -> Write {
    Write {
        key: key.to_vec(),
        ts,
        asserted,
        vals,
    }
}

fn gen_versions(rng: &mut Rng, n_keys: i64, n_events: usize) -> Vec<Write> {
    (0..n_events)
        .map(|_| {
            let key = vec![rng.range(0, n_keys)];
            let ts = rng.range(0, 8);
            let asserted = rng.chance(7, 10);
            let vals = if asserted {
                vec![n(rng.range(0, 4))]
            } else {
                vec![]
            };
            ver(&key, ts, asserted, vals)
        })
        .collect()
}

#[test]
fn naive_asof_cfg_matches_an_independent_reference_generatively() {
    let mut cases = 0usize;
    for seed in 0..300u64 {
        let mut rng = Rng::new(0xA50F_0FFE_u64 ^ seed.wrapping_mul(STRIDE));
        let n_keys = rng.range(1, 4);
        let n_events = rng.range(1, 20) as usize;
        let versions = gen_versions(&mut rng, n_keys, n_events);
        for at in -1..=9 {
            for boundary_inclusive in [true, false] {
                for last_write_wins in [true, false] {
                    let got =
                        naive_asof_cfg(&versions, 1, at, boundary_inclusive, last_write_wins);
                    let want = independent_asof_reference(
                        &versions,
                        at,
                        boundary_inclusive,
                        last_write_wins,
                    );
                    assert_eq!(
                        got, want,
                        "seed {seed} at={at} boundary_inclusive={boundary_inclusive} \
                         last_write_wins={last_write_wins}: versions={versions:?}"
                    );
                    cases += 1;
                }
            }
        }
    }
    assert!(cases > 500, "expected a rich bridge campaign, ran {cases}");
}

#[test]
fn the_generator_draws_known_numbers() {
    let mut rng = Rng::new(0);
    assert_eq!(rng.next_u64(), 0xE220_A839_7B1D_CDAF);
    assert_eq!(rng.next_u64(), 0x6E78_9E6A_A1B9_65F4);
    assert_eq!(Rng::new(0).below(10), 0xE220_A839_7B1D_CDAF % 10);
    let drawn = Rng::new(7).range(-3, 4);
    assert!((-3..4).contains(&drawn));
}

#[test]
fn a_sabotaged_boundary_shows() {
    let hist = vec![
        ver(&[1], 10, true, vec![s("ten")]),
        ver(&[2], 20, true, vec![s("twenty")]),
    ];
    let right: Vec<Tuple> = naive_asof(&hist, 1, 10).items;
    assert_eq!(right, vec![vec![n(1), s("ten")]]);
    assert!(naive_asof_cfg(&hist, 1, 10, false, true).items.is_empty());
}
