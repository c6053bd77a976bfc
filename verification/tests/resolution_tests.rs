use num::BigInt;
use num::BigRational;
use rustegrator::generator_matrix::add_node;
use rustegrator::generator_matrix::random_arity_matrix_generator;
use rustegrator::integral::IntegralSpec;
use rustegrator::integrator::integrate_spec;
use rustegrator::integrator::linear_extension_count;
use rustegrator::integrator::EngineError;
use rustegrator::resolution::resolve_and_count;
use rustegrator::resolution_using_hashmap::construire_adj;
use rustegrator::resolution_using_hashmap::construire_pred;
use rustegrator::resolution_using_hashmap::Graph;
use rustegrator::resolution_using_lists::list_BIT_resolution;
use rustegrator::resolution_using_lists::MatrixDag;
use rustegrator::resolution_using_lists::resolve_matrix;
use rustegrator::resolution_using_lists::validate_matrix;
use rustegrator::resolution_using_lists::verify_all_zero;
use rustegrator::transitive_reduction::apply_transitive_reduction;
use rustegrator::transitive_reduction::create_ordre_topologique;
use rustegrator::transitive_reduction::transitive_reduction_topologique;
use rustegrator::transitive_reduction::transitive_reduction_using_floyd_warshall;

fn bit_decomposition_test(mut matrice: Vec<Vec<i32>>) -> (bool, Vec<Vec<i32>>) {
    let (_, ok) = list_BIT_resolution(&mut matrice);
    (ok, matrice)
}

#[test]
fn test_resolution_hashmaps() {
    for i in 4..30 {
        for _ in 0..10 {
            println!("{}", i);
            let size = i;
            let matrice = random_arity_matrix_generator(size);
            let u = matrice.len();
            let adj = construire_adj(matrice);
            let pred = construire_pred(&adj, u);
            let mut g = Graph::new(adj, pred, u);

            g.resolution_adjacence();
            assert!(
                g.verify_all_zero(),
                "Couldn't resolve the DAG using BIT decomposition"
            );
        }
    }
}

#[test]
fn test_generer_matrice_arite_un() {
    for i in 4..30 {
        for _ in 0..10 {
            println!("{}", i);
            let size = i;
            let matrice = random_arity_matrix_generator(size);
            let (_, matrice_apres) = bit_decomposition_test(matrice);
            assert!(verify_all_zero(matrice_apres), "Unresolved matrix");
        }
    }
}

#[test]
fn test_generer_matrice_arite_hasard() {
    for i in 4..30 {
        for _ in 0..10 {
            println!("{}", i);
            let size = i;
            let matrice = random_arity_matrix_generator(size);
            let (_, matrice_apres) = bit_decomposition_test(matrice);
            assert!(verify_all_zero(matrice_apres), "Unresolved matrix");
        }
    }
}

#[test]
fn test_ajout_noeud_matrice() {
    for i in 4..30 {
        for _ in 0..10 {
            let mut matrice = random_arity_matrix_generator(i);
            assert_eq!(matrice.len(), i, "The initial size is incorrect");
            add_node(&mut matrice);
            assert_eq!(matrice.len(), i + 1, "Couldn't add the node");
            assert!(
                matrice.iter().all(|row| row.len() == i + 1),
                "Lines are not the right length after adding"
            );
        }
    }
}

fn chain_matrix(n: usize) -> Vec<Vec<i32>> {
    let mut m = vec![vec![0; n]; n];
    for i in 0..n.saturating_sub(1) {
        m[i][i + 1] = 1;
    }
    m
}

fn factorial_big(n: usize) -> BigRational {
    let mut f = BigInt::from(1);
    for i in 1..=n {
        f *= BigInt::from(i);
    }
    BigRational::from_integer(f)
}

// Fixture: a total order of n elements has exactly one linear extension.
#[test]
fn test_chain_has_one_extension() {
    for n in 1..=8usize {
        let mut m = chain_matrix(n);
        let (spec, ok) = list_BIT_resolution(&mut m);
        assert!(ok);
        assert!(verify_all_zero(m));
        assert_eq!(spec.elements.len(), n);
        let le = linear_extension_count(&spec, usize::MAX).unwrap();
        assert_eq!(le, BigRational::from_integer(BigInt::from(1)));
    }
}

// Fixture: an antichain of n elements has n! linear extensions.
#[test]
fn test_antichain_has_factorial_extensions() {
    for n in 1..=7usize {
        let mut m = vec![vec![0; n]; n];
        let (spec, ok) = list_BIT_resolution(&mut m);
        assert!(ok);
        assert_eq!(spec.elements.len(), n);
        let le = linear_extension_count(&spec, usize::MAX).unwrap();
        assert_eq!(le, factorial_big(n));
    }
}

// Backend equivalence: on random DAGs both backends report the same
// success status and their specifications integrate to the same rational.
#[test]
fn test_backend_equivalence() {
    for size in 4..14usize {
        for _ in 0..3 {
            let matrice = random_arity_matrix_generator(size);
            let mut m1 = matrice.clone();
            let (spec_lists, ok_lists) = list_BIT_resolution(&mut m1);

            let u = matrice.len();
            let adj = construire_adj(matrice);
            let pred = construire_pred(&adj, u);
            let mut g = Graph::new(adj, pred, u);
            let (spec_maps, ok_maps) = g.resolution_adjacence();

            assert_eq!(ok_lists, ok_maps);
            if ok_lists {
                let r1 = integrate_spec(&spec_lists, usize::MAX).unwrap();
                let r2 = integrate_spec(&spec_maps, usize::MAX).unwrap();
                assert_eq!(r1, r2);
                let l1 = linear_extension_count(&spec_lists, usize::MAX).unwrap();
                let l2 = linear_extension_count(&spec_maps, usize::MAX).unwrap();
                assert_eq!(l1, l2);
            }
        }
    }
}

// Determinism: the count is the same through either backend's (possibly
// different) valid specification of the same poset.
#[test]
fn test_linear_extension_count_spec_invariant() {
    // A fork: 0 -> 1 and 0 -> 2; three elements, two extensions.
    let mut m1 = vec![vec![0, 1, 1], vec![0, 0, 0], vec![0, 0, 0]];
    let (spec_lists, ok) = list_BIT_resolution(&mut m1);
    assert!(ok);
    let matrice = vec![vec![0, 1, 1], vec![0, 0, 0], vec![0, 0, 0]];
    let adj = construire_adj(matrice);
    let pred = construire_pred(&adj, 3);
    let mut g = Graph::new(adj, pred, 3);
    let (spec_maps, ok2) = g.resolution_adjacence();
    assert!(ok2);
    let l1 = linear_extension_count(&spec_lists, usize::MAX).unwrap();
    let l2 = linear_extension_count(&spec_maps, usize::MAX).unwrap();
    assert_eq!(l1, l2);
    assert_eq!(l1, BigRational::from_integer(BigInt::from(2)));
}

fn reduce_once(m: Vec<Vec<i32>>) -> Vec<Vec<i32>> {
    let n = m.len();
    let ordre = create_ordre_topologique(m);
    let reduced = transitive_reduction_topologique(&ordre);
    apply_transitive_reduction(n, reduced)
}

// Idempotence: applying transitive reduction twice yields the same edge
// set as applying it once.
#[test]
fn test_transitive_reduction_idempotent() {
    let fixtures = vec![
        chain_matrix(6),
        vec![vec![0, 1, 1], vec![0, 0, 1], vec![0, 0, 0]],
        vec![
            vec![0, 1, 1, 0],
            vec![0, 0, 0, 1],
            vec![0, 0, 0, 1],
            vec![0, 0, 0, 0],
        ],
        random_arity_matrix_generator(12),
    ];
    for m in fixtures {
        let once = reduce_once(m);
        let twice = reduce_once(once.clone());
        assert_eq!(once, twice);
    }
}

#[test]
fn test_floyd_warshall_removes_shortcut() {
    // 0 -> 1 -> 2 with the shortcut 0 -> 2: the shortcut goes away.
    let m = vec![vec![0, 1, 1], vec![0, 0, 1], vec![0, 0, 0]];
    let r = transitive_reduction_using_floyd_warshall(m);
    assert_eq!(r, vec![vec![0, 1, 0], vec![0, 0, 1], vec![0, 0, 0]]);
}

#[test]
fn test_validate_matrix_errors() {
    let good = chain_matrix(3);
    assert!(validate_matrix(&good).is_ok());
    let ragged = vec![vec![0, 1], vec![0]];
    assert!(matches!(
        validate_matrix(&ragged),
        Err(EngineError::MalformedDag)
    ));
    let bad_entry = vec![vec![0, 7], vec![0, 0]];
    assert!(matches!(
        validate_matrix(&bad_entry),
        Err(EngineError::MalformedDag)
    ));
}

#[test]
fn test_resolve_matrix_unresolvable() {
    // Two sources each covering two sinks: every node has a degree pattern
    // outside the three cases, so no rewrite ever fires.
    let mut m = vec![
        vec![0, 0, 1, 1],
        vec![0, 0, 1, 1],
        vec![0, 0, 0, 0],
        vec![0, 0, 0, 0],
    ];
    let r = resolve_matrix(&mut m);
    assert!(matches!(r, Err(EngineError::UnresolvableDag)));
    let mut chain = chain_matrix(4);
    let spec = resolve_matrix(&mut chain).unwrap();
    assert_eq!(spec.elements.len(), 4);
    let mut ragged = vec![vec![0, 1], vec![0]];
    assert!(matches!(
        resolve_matrix(&mut ragged),
        Err(EngineError::MalformedDag)
    ));
}

// Success leaves the DAG fully isolated.
#[test]
fn test_resolution_isolates_dag() {
    for n in 2..10usize {
        let mut m = chain_matrix(n);
        let (_, ok) = list_BIT_resolution(&mut m);
        assert!(ok);
        assert!(verify_all_zero(m));
    }
}

// The emitted specification is valid: every referenced bound variable is
// integrated by a later step.
#[test]
fn test_resolution_emits_valid_spec() {
    for n in 2..10usize {
        let mut m = chain_matrix(n);
        let (spec, ok) = list_BIT_resolution(&mut m);
        assert!(ok);
        assert!(spec.check_valid());
    }
}

#[test]
fn test_spec_methods() {
    let mut spec = IntegralSpec::new();
    let a = spec.register_var("alpha".to_string());
    let b = spec.register_var("beta".to_string());
    let a2 = spec.register_var("alpha".to_string());
    assert_eq!(a, 0);
    assert_eq!(b, 1);
    assert_eq!(a2, 0);
    assert_eq!(spec.var_ref("beta".to_string()), 1);
    assert_eq!(spec.var_name(0), "alpha");
}

// Both backends, driven through the shared capability, agree on the count.
#[test]
fn test_resolver_trait_drivers_agree() {
    for size in 4..10usize {
        let matrice = random_arity_matrix_generator(size);
        let mut lists = MatrixDag {
            matrice: matrice.clone(),
        };
        let u = matrice.len();
        let adj = construire_adj(matrice);
        let pred = construire_pred(&adj, u);
        let mut maps = Graph::new(adj, pred, u);
        let r1 = resolve_and_count(&mut lists, usize::MAX).unwrap();
        let r2 = resolve_and_count(&mut maps, usize::MAX).unwrap();
        assert_eq!(r1, r2);
    }
}
