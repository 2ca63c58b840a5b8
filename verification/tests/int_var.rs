//! Tests for the integer variable store and its literal encodings.

use huub::domain::IntSetVal;
use huub::engine::State;
use huub::int_var::EncodingType;
use huub::meaning::LitMeaning;
use huub::view::{BoolView, BoolViewInner, IntView, IntViewInner};

fn get_lit(bv: BoolView) -> i32 {
    match bv.0 {
        BoolViewInner::Lit(l) => l,
        BoolViewInner::Const(_) => panic!("expected a literal"),
    }
}

fn var_index(v: IntView) -> usize {
    match v.0 {
        IntViewInner::VarRef(iv) => iv,
        _ => panic!("expected a variable reference"),
    }
}

#[test]
fn test_retrieve_lit() {
    let mut state = State::new();
    let a = state.new_int_var(
        IntSetVal::from_range(1, 4),
        EncodingType::Eager,
        EncodingType::Eager,
    );
    let a = var_index(a);
    let var = &state.int_vars[a];
    assert_eq!(get_lit(var.get_bool_lit(LitMeaning::Less(2)).unwrap()), 1);
    assert_eq!(get_lit(var.get_bool_lit(LitMeaning::GreaterEq(2)).unwrap()), -1);
    assert_eq!(get_lit(var.get_bool_lit(LitMeaning::Less(3)).unwrap()), 2);
    assert_eq!(get_lit(var.get_bool_lit(LitMeaning::Less(4)).unwrap()), 3);
    assert_eq!(get_lit(var.get_bool_lit(LitMeaning::GreaterEq(4)).unwrap()), -3);
    assert_eq!(get_lit(var.get_bool_lit(LitMeaning::Eq(1)).unwrap()), 1);
    assert_eq!(get_lit(var.get_bool_lit(LitMeaning::Eq(2)).unwrap()), 4);
    assert_eq!(get_lit(var.get_bool_lit(LitMeaning::Eq(3)).unwrap()), 5);
    assert_eq!(get_lit(var.get_bool_lit(LitMeaning::Eq(4)).unwrap()), -3);

    let mut state = State::new();
    let ranges = IntSetVal::from_ranges(vec![(1, 3), (8, 10)]).unwrap();
    let a = state.new_int_var(ranges, EncodingType::Eager, EncodingType::Eager);
    let a = var_index(a);
    let var = &state.int_vars[a];
    assert_eq!(get_lit(var.get_bool_lit(LitMeaning::Less(2)).unwrap()), 1);
    assert_eq!(get_lit(var.get_bool_lit(LitMeaning::Less(3)).unwrap()), 2);
    assert_eq!(get_lit(var.get_bool_lit(LitMeaning::Less(4)).unwrap()), 3);
    assert_eq!(get_lit(var.get_bool_lit(LitMeaning::GreaterEq(4)).unwrap()), -3);
    assert_eq!(get_lit(var.get_bool_lit(LitMeaning::Less(8)).unwrap()), 3);
    assert_eq!(get_lit(var.get_bool_lit(LitMeaning::GreaterEq(8)).unwrap()), -3);
    assert_eq!(get_lit(var.get_bool_lit(LitMeaning::Less(10)).unwrap()), 5);
    assert_eq!(get_lit(var.get_bool_lit(LitMeaning::GreaterEq(10)).unwrap()), -5);
    assert_eq!(get_lit(var.get_bool_lit(LitMeaning::Eq(1)).unwrap()), 1);
    assert_eq!(get_lit(var.get_bool_lit(LitMeaning::Eq(2)).unwrap()), 6);
    assert_eq!(get_lit(var.get_bool_lit(LitMeaning::Eq(3)).unwrap()), 7);
    assert_eq!(get_lit(var.get_bool_lit(LitMeaning::Eq(8)).unwrap()), 8);
    assert_eq!(get_lit(var.get_bool_lit(LitMeaning::Eq(10)).unwrap()), -5);

    assert_eq!(
        var.get_bool_lit(LitMeaning::Less(11)).unwrap(),
        BoolView(BoolViewInner::Const(true))
    );
    assert_eq!(
        var.get_bool_lit(LitMeaning::GreaterEq(1)).unwrap(),
        BoolView(BoolViewInner::Const(true))
    );
    assert_eq!(
        var.get_bool_lit(LitMeaning::Less(1)).unwrap(),
        BoolView(BoolViewInner::Const(false))
    );
    assert_eq!(
        var.get_bool_lit(LitMeaning::GreaterEq(11)).unwrap(),
        BoolView(BoolViewInner::Const(false))
    );

    assert_eq!(
        var.get_bool_lit(LitMeaning::Eq(0)).unwrap(),
        BoolView(BoolViewInner::Const(false))
    );
    assert_eq!(
        var.get_bool_lit(LitMeaning::Eq(11)).unwrap(),
        BoolView(BoolViewInner::Const(false))
    );
    assert_eq!(
        var.get_bool_lit(LitMeaning::Eq(5)).unwrap(),
        BoolView(BoolViewInner::Const(false))
    );

    assert_eq!(
        var.get_bool_lit(LitMeaning::NotEq(0)).unwrap(),
        BoolView(BoolViewInner::Const(true))
    );
    assert_eq!(
        var.get_bool_lit(LitMeaning::NotEq(11)).unwrap(),
        BoolView(BoolViewInner::Const(true))
    );
    assert_eq!(
        var.get_bool_lit(LitMeaning::NotEq(5)).unwrap(),
        BoolView(BoolViewInner::Const(true))
    );
}

#[test]
fn two_value_domain_is_a_literal_view() {
    let mut state = State::new();
    let v = state.new_int_var(
        IntSetVal::from_range(3, 4),
        EncodingType::Lazy,
        EncodingType::Lazy,
    );
    match v.0 {
        IntViewInner::Bool { transformer, lit } => {
            assert!(lit > 0);
            assert_eq!(transformer.transform(0), 3);
            assert_eq!(transformer.transform(1), 4);
        }
        _ => panic!("a 2-value domain must be a Boolean view"),
    }
    assert_eq!(state.int_vars.len(), 0);
}

#[test]
fn one_value_domain_is_a_constant() {
    let mut state = State::new();
    let v = state.new_int_var(
        IntSetVal::from_range(9, 9),
        EncodingType::Lazy,
        EncodingType::Lazy,
    );
    assert_eq!(v, IntView(IntViewInner::Const(9)));
}

#[test]
fn eager_chain_clauses_are_emitted() {
    let mut state = State::new();
    let _ = state.new_int_var(
        IntSetVal::from_range(1, 4),
        EncodingType::Eager,
        EncodingType::Lazy,
    );
    // Order variables 1..=3 encode x<2, x<3, x<4; adjacent literals are
    // linked by the implication x<i -> x<i+1.
    assert_eq!(state.clauses, vec![vec![-1, 2], vec![-2, 3]]);
}

#[test]
fn lit_meaning_decodes_eager_literals() {
    let mut state = State::new();
    let a = state.new_int_var(
        IntSetVal::from_range(1, 4),
        EncodingType::Eager,
        EncodingType::Eager,
    );
    let var = &state.int_vars[var_index(a)];
    assert_eq!(var.lit_meaning(1), LitMeaning::Less(2));
    assert_eq!(var.lit_meaning(-1), LitMeaning::GreaterEq(2));
    assert_eq!(var.lit_meaning(3), LitMeaning::Less(4));
    assert_eq!(var.lit_meaning(4), LitMeaning::Eq(2));
    assert_eq!(var.lit_meaning(-5), LitMeaning::NotEq(3));
}

#[test]
fn lazy_lookup_and_creation_agree() {
    let mut state = State::new();
    let a = state.new_int_var(
        IntSetVal::from_range(1, 10),
        EncodingType::Lazy,
        EncodingType::Lazy,
    );
    let a = var_index(a);
    // Not created yet: lookup misses.
    assert_eq!(state.int_vars[a].get_bool_lit(LitMeaning::Less(5)), None);
    let bv = state.get_intref_lit(a, LitMeaning::Less(5));
    let l = get_lit(bv);
    // A later lookup and a repeated creation return the same literal.
    assert_eq!(get_lit(state.int_vars[a].get_bool_lit(LitMeaning::Less(5)).unwrap()), l);
    assert_eq!(get_lit(state.get_intref_lit(a, LitMeaning::Less(5))), l);
    assert_eq!(get_lit(state.get_intref_lit(a, LitMeaning::GreaterEq(5))), -l);
}
