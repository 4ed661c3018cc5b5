use oarray::treeformula::{imbalance, GPOArray, TreeFormula, TreeFormulaConfig};
use oarray::{FitnessFunction, OArray};

fn var(i: usize) -> Box<TreeFormula> {
    Box::new(TreeFormula::Var(i))
}

#[test]
fn formulas_have_the_value_of_their_parts() {
    let env = vec![true, false, true];
    assert!(TreeFormula::Var(0).evaluate(&env));
    assert!(!TreeFormula::Var(1).evaluate(&env));
    assert!(TreeFormula::Xor(var(0), var(1)).evaluate(&env));
    assert!(!TreeFormula::Xor(var(0), var(2)).evaluate(&env));
    assert!(!TreeFormula::And(var(0), var(1)).evaluate(&env));
    assert!(TreeFormula::Or(var(0), var(1)).evaluate(&env));
    assert!(TreeFormula::Not(var(1)).evaluate(&env));
    assert!(!TreeFormula::If(var(0), var(1), var(2)).evaluate(&env));
    assert!(TreeFormula::If(var(1), var(1), var(2)).evaluate(&env));
    let nested = TreeFormula::Not(Box::new(TreeFormula::And(
        var(0),
        Box::new(TreeFormula::Or(var(1), var(2))),
    )));
    assert!(!nested.evaluate(&env));
}

#[test]
fn formulas_and_the_variables_they_read() {
    let f = TreeFormula::If(var(0), var(3), Box::new(TreeFormula::Not(var(1))));
    assert!(f.fits(4));
    assert!(!f.fits(3));
    assert!(TreeFormula::Var(0).fits(1));
    assert!(!TreeFormula::Var(0).fits(0));
    assert_eq!(f.count_children(), 3);
    assert_eq!(TreeFormula::Not(var(0)).count_children(), 1);
    assert_eq!(TreeFormula::Xor(var(0), var(0)).count_children(), 2);
    assert_eq!(TreeFormula::And(var(0), var(0)).count_children(), 2);
    assert_eq!(TreeFormula::Or(var(0), var(0)).count_children(), 2);
    assert_eq!(TreeFormula::Var(7).count_children(), 0);
    let config = TreeFormulaConfig { n_variables: 4 };
    assert!(f.fits(config.n_variables));
}

#[test]
fn the_column_of_a_formula() {
    // Row numbers 0 to 7, least significant digit first.
    assert_eq!(
        TreeFormula::Var(0).column(3, 8),
        vec![false, true, false, true, false, true, false, true]
    );
    assert_eq!(
        TreeFormula::Var(2).column(3, 8),
        vec![false, false, false, false, true, true, true, true]
    );
    assert_eq!(
        TreeFormula::Xor(var(0), var(1)).column(3, 6),
        vec![false, true, true, false, false, true]
    );
    assert_eq!(TreeFormula::Var(0).column(1, 0), Vec::<bool>::new());
}

#[test]
fn an_array_from_formulas() {
    let gp = GPOArray {
        trees: vec![
            TreeFormula::Var(0),
            TreeFormula::Var(1),
            TreeFormula::Xor(var(0), var(1)),
        ],
        ngrande: 4,
        n: 2,
        k: 3,
        target_t: 2,
        fitness_f: FitnessFunction::DeltaFast,
    };
    let oa = gp.to_oarray();
    assert!(oa.is_valid());
    assert_eq!(
        oa.iter_cols(),
        vec![
            vec![false, true, false, true],
            vec![false, false, true, true],
            vec![false, true, true, false],
        ]
    );
    assert!(oa.fitness().unwrap().is_perfect());
    assert_eq!(imbalance(&oa), 0);
    let skewed = OArray::new(
        4,
        2,
        1,
        vec![true, true, true, false, false, false, false, false],
        FitnessFunction::DeltaFast,
    );
    assert_eq!(imbalance(&skewed), 2 + 4);
}
