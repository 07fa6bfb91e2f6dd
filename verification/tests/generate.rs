//! Drawn programs.

use kyzo_query::arity::{fixed_arities_of, model_arities};
use kyzo_query::depend::{dependency_edges, strata_of};
use kyzo_query::gen_rules::generate;
use kyzo_query::prepare::{compile_for, Definition};
use kyzo_query::program::idb_of;

#[test]
fn generator_is_seed_reproducible() {
    let a = generate(42);
    let b = generate(42);
    assert_eq!(a.program.facts, b.program.facts);
    assert_eq!(a.program.rules.len(), b.program.rules.len());
    assert_eq!(a.entry, b.entry);
    let total: usize = a.program.facts.vals.iter().map(|s| s.items.len()).sum();
    assert!(total > 800, "generated EDB is substantial: {total} tuples");
}

#[test]
fn a_seed_gives_the_whole_program_again() {
    for seed in 0..8u64 {
        let a = generate(seed);
        let b = generate(seed);
        assert_eq!(a.program, b.program);
        assert_eq!(a.entry, "path");
        assert_eq!(a.entry_arity, 2);
    }
    assert_ne!(generate(1).program, generate(2).program);
}

#[test]
fn drawn_programs_stratify_and_prepare() {
    for seed in 0..24u64 {
        let g = generate(seed);
        let strata = strata_of(&g.program);
        for e in dependency_edges(&g.program) {
            let head = *strata.get(&e.head).unwrap();
            let dep = *strata.get(&e.dep).unwrap();
            assert!(head >= dep + usize::from(e.forcing), "{e:?} at seed {seed}");
        }
        let arities = model_arities(&g.program);
        assert_eq!(arities.get(&"path".to_string()), Some(&2));
        assert_eq!(arities.get(&"node".to_string()), Some(&1));
        let fixed = fixed_arities_of(&g.program, &arities);
        let idb = idb_of(&g.program);
        let compiled = compile_for(&g.program, &idb, "path", 2, &fixed);
        let top = *strata.vals.iter().max().unwrap();
        assert_eq!(compiled.strata.len(), top + 2);
        let entry = compiled.strata[top + 1].defs.get(&"?".to_string()).unwrap();
        assert!(matches!(entry, Definition::Rules(set) if set.bodies.len() == 1));
        let path = compiled.strata[0].defs.get(&"path".to_string()).unwrap();
        assert!(matches!(path, Definition::Rules(set) if set.bodies.len() == 2));
        assert_eq!(compiled.lifetimes.get(&"path".to_string()), Some(&(top + 1)));
    }
}
