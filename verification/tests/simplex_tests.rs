use simplex::constraint::{Constraint, Constraints, Operator};
use simplex::error::SimplexError;
use simplex::linear_function::LinearFunction;
use simplex::names::{gap_name, is_gap};
use simplex::rational::Rational;
use simplex::{LinearProgram, Simplex};

fn whole(n: i64) -> Rational {
    Rational::from_int(n).unwrap()
}

fn frac(n: i64, d: i64) -> Rational {
    Rational::new(n, d).unwrap()
}

fn expr(text: &str) -> LinearFunction {
    LinearFunction::from_str(text).unwrap()
}

fn names(list: &[&str]) -> Vec<String> {
    list.iter().map(|s| s.to_string()).collect()
}

fn program(objective: &str, constraints: &str) -> LinearProgram {
    LinearProgram {
        linear_function: expr(objective),
        constraints: Constraints::compile(constraints).unwrap(),
    }
}

#[test]
fn test_new() {
    let left = expr("x + 2y + 3z");
    let right = expr("x + 2y + 3z");
    let constraint = Constraint::new(left, Operator::Equal, right).unwrap();
    assert!(constraint.left.equals(&LinearFunction::zero()));
    assert!(constraint.right.equals(&LinearFunction::zero()));
    assert_eq!(constraint.operator, Operator::Equal);
}

#[test]
fn test_non_gap_variables() {
    let lp = LinearProgram {
        linear_function: LinearFunction::from_str("x + 2y").unwrap(),
        constraints: Constraints::compile("x + y <= 2\n x + 2y <= 3").unwrap(),
    };
    assert_eq!(lp.non_gap_variables(), vec!["x".to_string(), "y".to_string()]);
}

#[test]
fn test_point_1() {
    let lp = LinearProgram {
        linear_function: LinearFunction::from_str("x + 2y").unwrap(),
        constraints: Constraints::compile("x + y <= 2\n x + 2y <= 3").unwrap(),
    };
    assert_eq!(lp.point().unwrap(), vec![whole(0), whole(0)]);
}

#[test]
fn test_point_2() {
    let lp = LinearProgram {
        linear_function: LinearFunction::from_str("x + 2y").unwrap(),
        constraints: Constraints::compile("x <= 200\n 300 - x + 2y >= 0").unwrap(),
    };
    let mut simplex = Simplex::from(lp);
    simplex.next_step(true).unwrap();
    assert_eq!(simplex.current_point().unwrap(), vec![whole(200), whole(0)]);
}

#[test]
fn rational_arithmetic_is_exact() {
    assert_eq!(frac(1, 2).checked_add(&frac(1, 3)), Some(frac(5, 6)));
    assert_eq!(frac(1, 2).checked_sub(&frac(1, 3)), Some(frac(1, 6)));
    assert_eq!(frac(2, 3).checked_mul(&frac(3, 4)), Some(frac(1, 2)));
    assert_eq!(frac(-2, 3).recip(), Some(frac(-3, 2)));
    assert_eq!(whole(0).recip(), None);
    assert_eq!(frac(1, 2).negate(), frac(-1, 2));
    assert!(frac(1, 3).less_than(&frac(1, 2)));
    assert!(!frac(1, 2).less_than(&frac(1, 2)));
}

#[test]
fn rational_is_kept_in_lowest_terms() {
    let r = frac(6, -4);
    assert_eq!(r.numerator(), -3);
    assert_eq!(r.denominator(), 2);
    assert_eq!(frac(0, 7), Rational::zero());
    assert_eq!(frac(5, 5), Rational::one());
    assert!(Rational::new(1, 0).is_none());
}

#[test]
fn rational_reports_what_it_cannot_hold() {
    let big = whole(i64::MAX);
    assert_eq!(big.checked_add(&Rational::one()), None);
    assert_eq!(big.checked_mul(&whole(2)), None);
    assert_eq!(Rational::from_int(i64::MIN), None);
    assert_eq!(Rational::new(i64::MIN, 1), None);
    assert_eq!(frac(1, i64::MAX).checked_mul(&frac(1, 2)), None);
    assert_eq!(big.checked_sub(&Rational::one()), Some(whole(i64::MAX - 1)));
}

#[test]
fn expression_from_text() {
    let f = expr("300 - x + 2y");
    assert_eq!(f.constant(), whole(300));
    assert_eq!(f.coefficient("x"), whole(-1));
    assert_eq!(f.coefficient("y"), whole(2));
    assert_eq!(f.coefficient("z"), whole(0));
    assert_eq!(f.variables(), names(&["x", "y"]));
}

#[test]
fn expression_text_forms() {
    assert!(expr("x+x").equals(&expr("2x")));
    assert!(expr("  - 3 y + 1.5x -0.25 ").equals(&expr("1.5 x - 3y - 0.25")));
    assert_eq!(expr("1.5x").coefficient("x"), frac(3, 2));
    assert_eq!(expr("-0.25").constant(), frac(-1, 4));
    assert!(expr("x - x").equals(&LinearFunction::zero()));
    assert_eq!(expr("x - x").variables(), Vec::<String>::new());
    assert_eq!(expr("2 x_1 + y2").coefficient("x_1"), whole(2));
    assert!(expr("+x").equals(&LinearFunction::variable("x")));
    assert!(expr("7").equals(&LinearFunction::from_constant(whole(7))));
}

#[test]
fn malformed_expressions_are_parse_errors() {
    for text in ["", "   ", "x +", "x y", "2 3", "1.x", ".5", "x + * y", "_g1", "x 3", "1. + 2"] {
        assert_eq!(LinearFunction::from_str(text).err(), Some(SimplexError::ParseError), "{}", text);
    }
}

#[test]
fn numbers_out_of_range_are_overflows() {
    assert_eq!(
        LinearFunction::from_str("9223372036854775808").err(),
        Some(SimplexError::Overflow)
    );
    assert_eq!(
        LinearFunction::from_str("9223372036854775807x + x").err(),
        Some(SimplexError::Overflow)
    );
    assert_eq!(
        LinearFunction::from_str("0.00000000000000000001").err(),
        Some(SimplexError::Overflow)
    );
    assert_eq!(expr("9223372036854775807").constant(), whole(i64::MAX));
    assert_eq!(
        LinearFunction::from_str("x + 9223372036854775808 y z").err(),
        Some(SimplexError::ParseError)
    );
}

#[test]
fn expression_arithmetic() {
    let a = expr("x + 2y + 3");
    let b = expr("y - x + 1");
    assert!(a.add(&b).unwrap().equals(&expr("3y + 4")));
    assert!(a.subtract(&b).unwrap().equals(&expr("2x + y + 2")));
    assert!(a.negate().equals(&expr("-x - 2y - 3")));
    assert!(a.scale(&frac(1, 2)).unwrap().equals(&expr("0.5x + y + 1.5")));
    assert!(a.scale(&whole(0)).unwrap().equals(&LinearFunction::zero()));
    assert!(a.without("x").equals(&expr("2y + 3")));
    assert!(a.without("z").equals(&a));
    assert!(a.add(&LinearFunction::zero()).unwrap().equals(&a));
    let big = expr("9223372036854775807x");
    assert_eq!(big.add(&big).err(), Some(SimplexError::Overflow));
    assert_eq!(big.scale(&whole(2)).err(), Some(SimplexError::Overflow));
}

#[test]
fn substitution() {
    let e = expr("2x + y + 1");
    let r = e.replace("x", &expr("3 - y")).unwrap();
    assert!(r.equals(&expr("7 - y")));
    assert!(e.replace("z", &expr("3 - y")).unwrap().equals(&e));
    let big = expr("9223372036854775807x");
    assert_eq!(big.replace("x", &expr("2y")).err(), Some(SimplexError::Overflow));
}

#[test]
fn solving_for_a_variable() {
    let e = expr("2x + 4y - 6");
    assert!(e.solve_for("x").unwrap().equals(&expr("3 - 2y")));
    assert!(e.solve_for("y").unwrap().equals(&expr("1.5 - 0.5x")));
    assert_eq!(e.solve_for("z").err(), Some(SimplexError::DomainError));
    let big = expr("0.5x + 9223372036854775807y");
    assert_eq!(big.solve_for("x").err(), Some(SimplexError::Overflow));
}

#[test]
fn single_variable_detection() {
    assert_eq!(expr("x").name_single_variable(), Some("x".to_string()));
    assert_eq!(expr("2x").name_single_variable(), None);
    assert_eq!(expr("x + 1").name_single_variable(), None);
    assert_eq!(expr("x + y").name_single_variable(), None);
    assert_eq!(expr("x + y - y").name_single_variable(), Some("x".to_string()));
    assert_eq!(expr("3").name_single_variable(), None);
    assert_eq!(LinearFunction::zero().name_single_variable(), None);
}

#[test]
fn entering_variable_is_the_first_positive_one() {
    assert_eq!(expr("z + y - x").first_positive_coefficient(true), Some("y".to_string()));
    assert_eq!(expr("z + y - x").first_positive_coefficient(false), Some("y".to_string()));
    assert_eq!(expr("-x - 2y + 5").first_positive_coefficient(true), None);
    assert_eq!(LinearFunction::zero().first_positive_coefficient(false), None);
    assert_eq!(expr("b + B").first_positive_coefficient(true), Some("B".to_string()));
}

#[test]
fn variables_come_in_alphabetical_order() {
    assert_eq!(expr("z + y + x + ab + a").variables(), names(&["a", "ab", "x", "y", "z"]));
    assert_eq!(expr("b + a + Z").variables(), names(&["Z", "a", "b"]));
    let mixed = expr("y + x").add(&LinearFunction::variable("_g1")).unwrap();
    assert_eq!(mixed.variables(), names(&["_g1", "x", "y"]));
    assert_eq!(mixed.non_gap_variables(), names(&["x", "y"]));
}

#[test]
fn gap_names() {
    assert_eq!(gap_name(1), "_g1");
    assert_eq!(gap_name(12), "_g12");
    assert_eq!(gap_name(0), "_g0");
    assert_eq!(gap_name(1000), "_g1000");
    assert!(is_gap("_g3"));
    assert!(is_gap("_"));
    assert!(!is_gap("g3"));
    assert!(!is_gap(""));
}

#[test]
fn canonical_form_by_operator() {
    let l = || expr("x + 1");
    let r = || expr("y");
    let c = Constraint::new(l(), Operator::Equal, r()).unwrap();
    assert!(c.left.equals(&expr("x - y + 1")) && c.right.equals(&LinearFunction::zero()));
    let c = Constraint::new(l(), Operator::LessEqual, r()).unwrap();
    assert!(c.left.equals(&expr("-x - 1")) && c.right.equals(&r()));
    for operator in [Operator::Less, Operator::Greater, Operator::GreaterEqual] {
        let c = Constraint::new(l(), operator, r()).unwrap();
        assert!(c.left.equals(&l()) && c.right.equals(&r()));
        assert_eq!(c.operator, operator);
    }
}

#[test]
fn less_equal_round_trip() {
    for text in ["x", "x + 6y + 13z", "-2.5x + 3", "0", "7 - a"] {
        let c = Constraint::new(expr(text), Operator::LessEqual, expr("4")).unwrap();
        assert!(c.left.negate().equals(&expr(text)));
    }
}

#[test]
fn equation_out_of_range() {
    let r = Constraint::new(
        expr("9223372036854775807x"),
        Operator::Equal,
        expr("-x"),
    );
    assert_eq!(r.err(), Some(SimplexError::Overflow));
}

#[test]
fn constraint_from_text() {
    let c = Constraint::from_str("x + y <= 2").unwrap();
    assert_eq!(c.operator, Operator::LessEqual);
    assert!(c.left.equals(&expr("-x - y")) && c.right.equals(&expr("2")));
    assert_eq!(Constraint::from_str("x < 2").unwrap().operator, Operator::Less);
    assert_eq!(Constraint::from_str("x > 2").unwrap().operator, Operator::Greater);
    assert_eq!(Constraint::from_str("x >= 2").unwrap().operator, Operator::GreaterEqual);
    let c = Constraint::from_str("x = 2").unwrap();
    assert_eq!(c.operator, Operator::Equal);
    assert!(c.left.equals(&expr("x - 2")));
    for text in ["x + y", "x <= ", "<= 2", "x == 2", "x <= 2 <= 3", "x =< 2"] {
        assert_eq!(Constraint::from_str(text).err(), Some(SimplexError::ParseError), "{}", text);
    }
}

#[test]
fn operator_symbols() {
    assert_eq!(Operator::Equal.symbol(), "=");
    assert_eq!(Operator::Less.symbol(), "<");
    assert_eq!(Operator::Greater.symbol(), ">");
    assert_eq!(Operator::LessEqual.symbol(), "<=");
    assert_eq!(Operator::GreaterEqual.symbol(), ">=");
}

#[test]
fn rows_of_a_compiled_tableau() {
    let t = Constraints::compile("x <= 200\n\n 300 - x + 2y >= 0\n   \nx + y < 5\nx - y > 1\nx = 4\n").unwrap();
    assert_eq!(t.len(), 5);
    let rights = ["200 - x", "300 - x + 2y", "5 - x - y", "x - y - 1", "x - 4"];
    for i in 0..5 {
        let row = t.row(i);
        assert_eq!(row.left.name_single_variable(), Some(format!("_g{}", i + 1)));
        assert!(row.right.equals(&expr(rights[i])), "{}", i);
    }
    assert_eq!(t.row(1).operator, Operator::GreaterEqual);
    assert_eq!(t.non_gap_variables(), names(&["x", "y"]));
    assert!(!t.is_valid());
    assert_eq!(Constraints::compile("").unwrap().len(), 0);
    assert_eq!(Constraints::compile("x <= 1\ny").err(), Some(SimplexError::ParseError));
    assert_eq!(
        Constraints::compile("9223372036854775807x <= -x").err(),
        Some(SimplexError::Overflow)
    );
}

#[test]
fn add_constraint_refuses_what_breaks_the_dictionary() {
    let mut t = Constraints::default();
    assert_eq!(t.add_constraint(Constraint::from_str("x <= 2").unwrap()), Ok(()));
    let clash = Constraint::new(
        LinearFunction::variable("_g1"),
        Operator::LessEqual,
        expr("3"),
    ).unwrap();
    assert_eq!(t.add_constraint(clash), Err(SimplexError::InvalidState));
    let own = Constraint::new(
        LinearFunction::variable("_g2"),
        Operator::LessEqual,
        expr("3"),
    ).unwrap();
    assert_eq!(t.add_constraint(own), Err(SimplexError::InvalidState));
    assert_eq!(t.len(), 1);
    t.pivot(0, "x").unwrap();
    assert_eq!(
        t.add_constraint(Constraint::from_str("x + y <= 3").unwrap()),
        Err(SimplexError::InvalidState)
    );
    assert_eq!(t.add_constraint(Constraint::from_str("y <= 3").unwrap()), Ok(()));
    assert_eq!(t.len(), 2);
}

#[test]
fn normalize_solves_a_row() {
    let t = Constraints::compile("x + 2y <= 4").unwrap();
    let solved = t.row(0).normalize("y").unwrap();
    assert_eq!(solved.left.name_single_variable(), Some("y".to_string()));
    let g = LinearFunction::variable("_g1").scale(&frac(-1, 2)).unwrap();
    assert!(solved.right.equals(&expr("2 - 0.5x").add(&g).unwrap()));
    assert_eq!(solved.operator, Operator::LessEqual);
    assert_eq!(t.row(0).normalize("z").err(), Some(SimplexError::DomainError));
    let same = Constraint::new(expr("x + y"), Operator::GreaterEqual, expr("x")).unwrap();
    assert_eq!(same.normalize("x").err(), Some(SimplexError::DomainError));
    assert!(same.normalize("y").unwrap().right.equals(&LinearFunction::zero()));
}

#[test]
fn most_restrictive_row() {
    let t = Constraints::compile("x <= 4\n2x <= 6\nx + y <= 3\ny <= 1\n3 + x >= 0").unwrap();
    assert_eq!(t.most_restrictive("x"), Ok(Some(1)));
    assert_eq!(t.most_restrictive("y"), Ok(Some(3)));
    assert_eq!(t.most_restrictive("z"), Ok(None));
    assert!(t.is_restricted("x") && !t.is_restricted("z"));
    let only_up = Constraints::compile("3 + x >= 0").unwrap();
    assert_eq!(only_up.most_restrictive("x"), Ok(None));
    let far = Constraints::compile("0.000000001x <= 9223372036854775807").unwrap();
    assert_eq!(far.most_restrictive("x"), Err(SimplexError::Overflow));
}

#[test]
fn pivot_of_a_tableau() {
    let mut t = Constraints::compile("x <= 200\n 300 - x + 2y >= 0").unwrap();
    assert_eq!(t.pivot(0, "x"), Ok(()));
    let g1 = LinearFunction::variable("_g1");
    assert_eq!(t.row(0).left.name_single_variable(), Some("x".to_string()));
    assert!(t.row(0).right.equals(&expr("200").subtract(&g1).unwrap()));
    assert_eq!(t.row(1).left.name_single_variable(), Some("_g2".to_string()));
    assert!(t.row(1).right.equals(&expr("100 + 2y").add(&g1).unwrap()));
    assert_eq!(t.pivot(0, "y"), Err(SimplexError::DomainError));
    assert!(t.row(0).right.equals(&expr("200").subtract(&g1).unwrap()));
    assert_eq!(t.value_of("x"), whole(200));
    assert_eq!(t.value_of("y"), whole(0));
    assert_eq!(t.value_of("_g2"), whole(100));
}

#[test]
fn pivot_of_a_program() {
    let mut lp = program("x + 2y", "x <= 200\n 300 - x + 2y >= 0");
    assert!(lp.is_valid());
    assert_eq!(lp.pivot("x".to_string()), Ok(()));
    assert!(lp.is_valid());
    let g1 = LinearFunction::variable("_g1");
    assert!(lp.linear_function.equals(&expr("200 + 2y").subtract(&g1).unwrap()));
    assert_eq!(lp.point().unwrap(), vec![whole(200), whole(0)]);
    assert_eq!(lp.out_of_base_variables(), names(&["_g1", "y"]));
    assert_eq!(lp.pivot("y".to_string()), Err(SimplexError::Unbounded));
    assert!(lp.is_unbounded());
}

#[test]
fn pivot_keeps_a_feasible_program_feasible() {
    let text = "x <= 200\ny <= 300\nx + y + z <= 400\ny + 3z <= 600";
    for first in ["x", "y", "z"] {
        for second in ["x", "y", "z"] {
            let mut lp = program("x + 6y + 13z", text);
            assert!(lp.is_valid());
            if lp.pivot(first.to_string()).is_ok() {
                assert!(lp.is_valid(), "{}", first);
                if lp.pivot(second.to_string()).is_ok() {
                    assert!(lp.is_valid(), "{} {}", first, second);
                }
            }
        }
    }
}

#[test]
fn infeasible_vertex_has_no_point() {
    let lp = program("x", "x >= 1");
    assert!(!lp.is_valid());
    assert_eq!(lp.point(), Err(SimplexError::InvalidState));
    assert_eq!(lp.values(), Err(SimplexError::InvalidState));
    let simplex = Simplex::from(lp);
    assert_eq!(simplex.current_point(), Err(SimplexError::InvalidState));
    assert_eq!(simplex.current_values(), Err(SimplexError::InvalidState));
}

#[test]
fn unbounded_detection() {
    assert!(program("x + y", "x <= 1").is_unbounded());
    assert!(!program("x + y", "x <= 1\ny <= 2").is_unbounded());
    assert!(!program("3", "x <= 1").is_unbounded());
}

#[test]
fn textbook_program_runs_to_its_optimum() {
    let constraints = Constraints::compile("x <= 200\ny <= 300\nx + y + z <= 400\ny + 3z <= 600\n").unwrap();
    let mut simplex = constraints.maximize(&expr("x + 6y + 13z"));
    let mut steps = 0;
    let mut last = simplex.current_state().linear_function.constant();
    loop {
        match simplex.next_step(true) {
            Ok(()) => {
                steps += 1;
                assert!(simplex.current_state().is_valid());
                let now = simplex.current_state().linear_function.constant();
                assert!(!now.less_than(&last));
                last = now;
                assert!(steps < 20);
            }
            Err(e) => {
                assert_eq!(e, SimplexError::AlreadyOptimal);
                break;
            }
        }
    }
    assert_eq!(
        simplex.current_values().unwrap(),
        vec![("x".to_string(), whole(0)), ("y".to_string(), whole(300)), ("z".to_string(), whole(100))]
    );
    assert_eq!(simplex.current_point().unwrap(), vec![whole(0), whole(300), whole(100)]);
    assert_eq!(simplex.current_state().linear_function.constant(), whole(3100));
    assert_eq!(simplex.next_step(true), Err(SimplexError::AlreadyOptimal));
}

#[test]
fn initial_point_is_the_origin() {
    let lp = program("x + y", "x <= 2\nx + y <= 3");
    assert_eq!(lp.point().unwrap(), vec![whole(0), whole(0)]);
    assert_eq!(
        lp.values().unwrap(),
        vec![("x".to_string(), whole(0)), ("y".to_string(), whole(0))]
    );
}

#[test]
fn advance_reports_an_unbounded_program() {
    let mut simplex = Simplex::from(program("x + y", "y <= 1"));
    assert_eq!(simplex.next_step(true), Err(SimplexError::Unbounded));
    assert!(simplex.is_first_step());
    assert_eq!(simplex.current_point().unwrap(), vec![whole(0), whole(0)]);
    let mut other = Simplex::from(program("y + z", "y <= 1"));
    assert_eq!(other.next_step(false), Ok(()));
    assert_eq!(other.next_step(false), Err(SimplexError::Unbounded));
    assert!(!other.is_first_step());
}

#[test]
fn retreat_then_advance_replays_the_same_program() {
    let text = "x <= 200\ny <= 300\nx + y + z <= 400\ny + 3z <= 600";
    let mut simplex = Simplex::new(program("x + 6y + 13z", text));
    simplex.previous_step();
    assert!(simplex.is_first_step());
    simplex.next_step(true).unwrap();
    simplex.next_step(true).unwrap();
    let seen = simplex.current_state().clone();
    simplex.previous_step();
    assert!(!simplex.current_state().linear_function.equals(&seen.linear_function));
    simplex.next_step(true).unwrap();
    let again = simplex.current_state();
    assert!(again.linear_function.equals(&seen.linear_function));
    assert_eq!(again.constraints.len(), seen.constraints.len());
    for i in 0..seen.constraints.len() {
        assert!(again.constraints.row(i).left.equals(&seen.constraints.row(i).left));
        assert!(again.constraints.row(i).right.equals(&seen.constraints.row(i).right));
    }
    simplex.previous_step();
    simplex.previous_step();
    simplex.previous_step();
    assert!(simplex.is_first_step());
    assert!(simplex.current_state().linear_function.equals(&expr("x + 6y + 13z")));
}

#[test]
fn no_step_forward_while_the_frontier_is_optimal() {
    let mut simplex = Simplex::new(program("x", "x <= 2"));
    assert_eq!(simplex.next_step(true), Ok(()));
    assert_eq!(simplex.current_point().unwrap(), vec![whole(2)]);
    assert_eq!(simplex.next_step(true), Err(SimplexError::AlreadyOptimal));
    simplex.previous_step();
    assert!(simplex.is_first_step());
    assert_eq!(simplex.next_step(true), Err(SimplexError::AlreadyOptimal));
    assert!(simplex.is_first_step());
}

#[test]
fn minimize_negates_the_objective() {
    let constraints = Constraints::compile("x >= 0 - 5\n").unwrap();
    let mut simplex = constraints.minimize(&expr("x"));
    assert!(simplex.current_state().linear_function.equals(&expr("-x")));
    assert_eq!(simplex.next_step(true), Err(SimplexError::AlreadyOptimal));
    let mut other = constraints.maximize(&expr("x"));
    assert_eq!(other.next_step(true), Err(SimplexError::Unbounded));
}

#[test]
fn error_messages() {
    assert_eq!(SimplexError::Unbounded.message(), "unbounded");
    assert_eq!(SimplexError::AlreadyOptimal.message(), "already optimal");
    assert_eq!(SimplexError::ParseError.message(), "malformed expression");
}

#[test]
fn expressions_as_text() {
    assert_eq!(expr("x + 6y + 13z").to_string(), "x + 6y + 13z");
    assert_eq!(expr("300 - x + 2y").to_string(), "-x + 2y + 300");
    assert_eq!(expr("z - 1.5y - 0.25").to_string(), "-3/2y + z - 1/4");
    assert_eq!(expr("-x").to_string(), "-x");
    assert_eq!(expr("7").to_string(), "7");
    assert_eq!(expr("-7").to_string(), "-7");
    assert_eq!(LinearFunction::zero().to_string(), "0");
    assert_eq!(expr("x - x").to_string(), "0");
    assert_eq!(expr("x - x + 2").to_string(), "2");
    assert_eq!(expr("10y + 101").to_string(), "10y + 101");
}

#[test]
fn constraints_and_programs_as_text() {
    let c = Constraint::from_str("x + y <= 2").unwrap();
    assert_eq!(c.to_string(), "-x - y <= 2");
    let t = Constraints::compile("x <= 200\n 300 - x + 2y >= 0\nx = 4").unwrap();
    assert_eq!(t.to_string(), "_g1 <= -x + 200\n_g2 >= -x + 2y + 300\n_g3 = x - 4\n");
    assert_eq!(Constraints::default().to_string(), "");
    let mut lp = program("x + 2y", "x <= 200\n 300 - x + 2y >= 0");
    assert_eq!(lp.to_string(), "max x + 2y\n_g1 <= -x + 200\n_g2 >= -x + 2y + 300\n");
    lp.pivot("x".to_string()).unwrap();
    assert_eq!(lp.to_string(), "max -_g1 + 2y + 200\nx <= -_g1 + 200\n_g2 >= _g1 + 2y + 100\n");
}

#[test]
fn solver_from_the_two_texts() {
    let text = "x <= 200\ny <= 300\nx + y + z <= 400\ny + 3z <= 600\n\n            ";
    let simplex = Simplex::from_input("max x + 6y + 13z", text).unwrap();
    assert!(simplex.is_first_step());
    assert!(simplex.current_state().linear_function.equals(&expr("x + 6y + 13z")));
    assert_eq!(simplex.current_state().constraints.len(), 4);
    let least = Simplex::from_input("  min   x + 6y", text).unwrap();
    assert!(least.current_state().linear_function.equals(&expr("-x - 6y")));
    assert!(Simplex::from_input("maximize x", text).is_none());
    assert!(Simplex::from_input("x + y", text).is_none());
    assert!(Simplex::from_input("", text).is_none());
    assert!(Simplex::from_input("max", text).is_none());
    assert!(Simplex::from_input("max x +", text).is_none());
    assert!(Simplex::from_input("max x", "x <=").is_none());
    assert!(Simplex::from_input("Max x", text).is_none());
    assert!(Simplex::from_input("max3x", text).is_none());
    assert_eq!(Simplex::from_input("max 3x", "").unwrap().current_state().constraints.len(), 0);
}
