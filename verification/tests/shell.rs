use sush_core::calc::{bin_calc, substitute, unary_calc, ArithElem};
use sush_core::error::ExecError;
use sush_core::num::{parse, parse_with_base};
use sush_core::parameter::{
    declare, export, local, local_layer, print_all, print_data, readonly, set_positions,
};
use sush_core::store::{DataBase, ShellCore};
use sush_core::text::dec_string;

fn fresh() -> ShellCore {
    ShellCore { db: DataBase::new() }
}

// canonical digit rendering of a non-negative value under the given radix
fn render(mut v: u128, base: u128) -> String {
    let digits: Vec<char> = "0123456789abcdefghijklmnopqrstuvwxyz\
ABCDEFGHIJKLMNOPQRSTUVWXYZ@_"
        .chars()
        .collect();
    if v == 0 {
        return "0".to_string();
    }
    let mut out = Vec::new();
    while v > 0 {
        out.push(digits[(v % base) as usize]);
        v = v / base;
    }
    out.iter().rev().collect()
}

#[test]
fn parse_radix_round_trip() {
    for base in [2u128, 8, 10, 16, 36, 64] {
        for v in [0u128, 1, 63, 12345, i128::MAX as u128] {
            let lit = format!("{}#{}", base, render(v, base));
            assert_eq!(parse(&lit).unwrap(), v as i128);
        }
    }
}

#[test]
fn parse_prefixes() {
    assert_eq!(parse("0x1F").unwrap(), 31);
    assert_eq!(parse("0X1f").unwrap(), 31);
    assert_eq!(parse("8#17").unwrap(), 15);
    assert_eq!(parse("2#1010").unwrap(), 10);
    assert_eq!(parse("017").unwrap(), 15);
    assert_eq!(parse("").unwrap(), 0);
    assert_eq!(parse("42").unwrap(), 42);
    assert_eq!(parse("-42").unwrap(), -42);
    assert_eq!(parse("+42").unwrap(), 42);
    assert_eq!(parse("0").unwrap(), 0);
    assert_eq!(parse("170141183460469231731687303715884105727").unwrap(), i128::MAX);
}

#[test]
fn parse_rejects_quote_and_dot() {
    assert!(matches!(parse("1.5"), Err(ExecError::InvalidArithmeticOperator(_, _))));
    assert!(matches!(parse("3'"), Err(ExecError::InvalidArithmeticOperator(_, _))));
}

#[test]
fn parse_rejects_bad_digits() {
    assert!(matches!(parse("12~3"), Err(ExecError::InvalidArithmeticOperator(_, _))));
    assert!(matches!(parse("8#9"), Err(ExecError::InvalidBase(_))));
    assert!(matches!(parse("99#z"), Err(ExecError::InvalidBase(_))));
    assert!(matches!(parse("0x"), Err(ExecError::InvalidArithmeticOperator(_, _))));
}

#[test]
fn parse_case_sensitivity_above_36() {
    // under radix 36 upper- and lowercase coincide; above, they differ
    assert_eq!(parse("36#Z").unwrap(), 35);
    assert_eq!(parse("36#z").unwrap(), 35);
    assert_eq!(parse("64#Z").unwrap(), 61);
    assert_eq!(parse("64#z").unwrap(), 35);
    assert_eq!(parse("64#@").unwrap(), 62);
    assert_eq!(parse("64#_").unwrap(), 63);
}

#[test]
fn parse_with_base_direct() {
    let hex: Vec<char> = "1f".chars().collect();
    assert_eq!(parse_with_base(16, &hex).unwrap(), 31);
    let empty: Vec<char> = Vec::new();
    assert!(matches!(
        parse_with_base(16, &empty),
        Err(ExecError::InvalidArithmeticOperator(_, _))
    ));
}

#[test]
fn unary_operators() {
    let mut st: Vec<ArithElem> = Vec::new();
    unary_calc("+", 5, &mut st).unwrap();
    unary_calc("-", 5, &mut st).unwrap();
    unary_calc("!", 0, &mut st).unwrap();
    unary_calc("!", 7, &mut st).unwrap();
    unary_calc("~", 5, &mut st).unwrap();
    assert_eq!(
        st,
        vec![
            ArithElem::Integer(5),
            ArithElem::Integer(-5),
            ArithElem::Integer(1),
            ArithElem::Integer(0),
            ArithElem::Integer(-6),
        ]
    );
}

#[test]
fn binary_operator_values() {
    let cases: &[(&str, i128, i128, i128)] = &[
        ("+", 2, 3, 5),
        ("-", 2, 3, -1),
        ("*", -4, 3, -12),
        ("&", 6, 3, 2),
        ("^", 6, 3, 5),
        ("|", 6, 3, 7),
        ("&&", 2, 0, 0),
        ("&&", 2, 5, 1),
        ("||", 0, 0, 0),
        ("||", 0, 9, 1),
        ("<<", 1, 4, 16),
        (">>", -16, 2, -4),
        ("<<", 1, -1, 0),
        (">>", 1, -1, 0),
        ("<=", 2, 2, 1),
        (">=", 1, 2, 0),
        ("<", 1, 2, 1),
        (">", 1, 2, 0),
        ("==", 3, 3, 1),
        ("!=", 3, 3, 0),
        ("/", 7, 2, 3),
        ("/", -7, 2, -3),
        ("%", 7, 2, 1),
        ("%", -7, 2, -1),
        ("**", 2, 10, 1024),
        ("**", 3, 0, 1),
        ("**", -2, 3, -8),
    ];
    for (op, l, r, want) in cases {
        let mut st: Vec<ArithElem> = Vec::new();
        bin_calc(op, *l, *r, &mut st).unwrap();
        assert_eq!(st, vec![ArithElem::Integer(*want)], "{} {} {}", l, op, r);
    }
}

#[test]
fn binary_operator_failures() {
    let mut st: Vec<ArithElem> = Vec::new();
    match bin_calc("/", 7, 0, &mut st) {
        Err(ExecError::DivZero(expr, d)) => {
            assert_eq!(expr, "7 / 0".to_string());
            assert_eq!(d, "0".to_string());
        },
        _ => panic!("expected DivZero"),
    }
    assert!(matches!(bin_calc("%", 7, 0, &mut st), Err(ExecError::DivZero(_, _))));
    assert!(matches!(bin_calc("**", 2, -1, &mut st), Err(ExecError::Exponent(-1))));
    assert!(st.is_empty());
}

#[test]
fn division_wraps_on_min() {
    let mut st: Vec<ArithElem> = Vec::new();
    bin_calc("/", i128::MIN, -1, &mut st).unwrap();
    bin_calc("%", i128::MIN, -1, &mut st).unwrap();
    assert_eq!(st, vec![ArithElem::Integer(i128::MIN), ArithElem::Integer(0)]);
}

#[test]
fn substitute_computes_and_stores() {
    let mut core = fresh();
    let r = substitute("+=", &"x".to_string(), &"".to_string(), 5, 3, &mut core).unwrap();
    assert_eq!(r, ArithElem::Integer(8));
    assert_eq!(core.db.get_param("x").unwrap(), "8".to_string());
}

#[test]
fn substitute_operators() {
    let cases: &[(&str, i128, i128, i128)] = &[
        ("+=", 5, 3, 8),
        ("-=", 5, 3, 2),
        ("*=", 5, 3, 15),
        ("&=", 6, 3, 2),
        ("^=", 6, 3, 5),
        ("|=", 6, 3, 7),
        ("<<=", 1, 4, 16),
        (">>=", 16, 2, 4),
        ("/=", 7, 2, 3),
        ("%=", 7, 2, 1),
    ];
    for (op, cur, right, want) in cases {
        let mut core = fresh();
        let r = substitute(op, &"v".to_string(), &"".to_string(), *cur, *right, &mut core)
            .unwrap();
        assert_eq!(r, ArithElem::Integer(*want));
        assert_eq!(core.db.get_param("v").unwrap(), dec_string(*want));
    }
}

#[test]
fn substitute_failures() {
    let mut core = fresh();
    match substitute("/=", &"x".to_string(), &"".to_string(), 9, 0, &mut core) {
        Err(ExecError::DivZero(expr, d)) => {
            assert_eq!(expr, "9 /= 0".to_string());
            assert_eq!(d, "0".to_string());
        },
        _ => panic!("expected DivZero"),
    }
    assert!(matches!(
        substitute("?=", &"x".to_string(), &"".to_string(), 1, 1, &mut core),
        Err(ExecError::OperandExpected(_))
    ));
    assert!(core.db.get_param("x").is_none());
    assert!(matches!(
        substitute("+=", &"a".to_string(), &"bad".to_string(), 1, 1, &mut core),
        Err(ExecError::ParseError)
    ));
}

#[test]
fn substitute_array_element() {
    let mut core = fresh();
    let r = substitute("+=", &"arr".to_string(), &"2".to_string(), 5, 3, &mut core).unwrap();
    assert_eq!(r, ArithElem::Integer(8));
    assert_eq!(core.db.get_array_elem("arr", 2).unwrap(), "8".to_string());
    assert!(core.db.get_array_elem("arr", 0).is_none());
}

#[test]
fn store_scalar_and_arrays() {
    let mut core = fresh();
    core.db.set_param("x", "hello", None).unwrap();
    assert_eq!(core.db.get_param("x").unwrap(), "hello".to_string());
    core.db
        .set_array("a", vec!["p".to_string(), "q".to_string()], None)
        .unwrap();
    assert_eq!(core.db.get_array_elem("a", 0).unwrap(), "p".to_string());
    assert_eq!(core.db.get_array_elem("a", 1).unwrap(), "q".to_string());
    assert!(core.db.get_array_elem("a", 2).is_none());
    assert!(core.db.get_param("a").is_none());
    core.db.set_assoc("m", None).unwrap();
    assert!(core.db.has_value("m"));
    assert!(matches!(
        core.db.set_param("9bad", "v", None),
        Err(ExecError::InvalidName(_))
    ));
}

#[test]
fn store_numeric_init() {
    let mut core = fresh();
    core.db.init_as_num("n", "0x10", None).unwrap();
    assert_eq!(core.db.get_param("n").unwrap(), "16".to_string());
    assert!(matches!(
        core.db.init_as_num("n", "1.5", None),
        Err(ExecError::InvalidArithmeticOperator(_, _))
    ));
}

#[test]
fn shadow_and_restore() {
    // a write at a higher layer shadows a lower binding and popping restores it
    let mut core = fresh();
    core.db.set_param("x", "global", None).unwrap();
    core.db.push_layer();
    let top = core.db.get_layer_num() - 1;
    core.db.set_param("x", "local", Some(top)).unwrap();
    assert_eq!(core.db.get_param("x").unwrap(), "local".to_string());
    core.db.pop_layer().unwrap();
    assert_eq!(core.db.get_param("x").unwrap(), "global".to_string());
}

#[test]
fn readonly_rejects_all_writes() {
    let mut core = fresh();
    core.db.set_param("r", "1", None).unwrap();
    core.db.set_flag("r", 'r');
    assert!(matches!(
        core.db.set_param("r", "2", None),
        Err(ExecError::ReadOnlyViolation(_))
    ));
    assert!(matches!(
        core.db.set_array("r", vec!["x".to_string()], None),
        Err(ExecError::ReadOnlyViolation(_))
    ));
    assert!(matches!(
        core.db.set_assoc("r", None),
        Err(ExecError::ReadOnlyViolation(_))
    ));
    assert!(matches!(
        core.db.init_as_num("r", "7", None),
        Err(ExecError::ReadOnlyViolation(_))
    ));
    // readonly at a lower layer still guards a write aimed at a higher one
    core.db.push_layer();
    let top = core.db.get_layer_num() - 1;
    assert!(matches!(
        core.db.set_param("r", "2", Some(top)),
        Err(ExecError::ReadOnlyViolation(_))
    ));
}

#[test]
fn positions_balanced() {
    let mut core = fresh();
    // the fresh stack holds one entry; N pushes then N pops restore it
    core.db.push_position_parameters(vec!["a".to_string()]);
    core.db.push_position_parameters(vec!["b".to_string(), "c".to_string()]);
    let popped = core.db.pop_position_parameters().unwrap();
    assert_eq!(popped, vec!["b".to_string(), "c".to_string()]);
    core.db.pop_position_parameters().unwrap();
    // back at the initial single entry; one more pop empties, the next fails
    core.db.pop_position_parameters().unwrap();
    assert!(matches!(
        core.db.pop_position_parameters(),
        Err(ExecError::StackUnderflow)
    ));
}

#[test]
fn set_positions_replaces_top() {
    let mut core = fresh();
    set_positions(&mut core, &["s".to_string(), "t".to_string()]).unwrap();
    assert_eq!(
        core.db.pop_position_parameters().unwrap(),
        vec!["s".to_string(), "t".to_string()]
    );
    // now the stack is empty: replacing fails with the underflow
    assert!(matches!(
        set_positions(&mut core, &["u".to_string()]),
        Err(ExecError::StackUnderflow)
    ));
}

#[test]
fn declare_end_to_end() {
    let mut core = fresh();
    core.db.push_layer(); // the builtin's own frame: depth 2, target layer 0
    let mut args = vec!["declare".to_string(), "-i".to_string(), "x=5".to_string()];
    assert_eq!(declare(&mut core, &mut args), 0);
    assert_eq!(core.db.get_param("x").unwrap(), "5".to_string());
    // evaluating x+=3 stores "8"
    let cur = parse(&core.db.get_param("x").unwrap()).unwrap();
    let r = substitute("+=", &"x".to_string(), &"".to_string(), cur, 3, &mut core).unwrap();
    assert_eq!(r, ArithElem::Integer(8));
    assert_eq!(core.db.get_param("x").unwrap(), "8".to_string());
}

#[test]
fn declare_readonly_and_errors() {
    let mut core = fresh();
    core.db.push_layer();
    let mut args = vec!["declare".to_string(), "-r".to_string(), "c=k".to_string()];
    assert_eq!(declare(&mut core, &mut args), 0);
    assert!(matches!(
        core.db.set_param("c", "other", None),
        Err(ExecError::ReadOnlyViolation(_))
    ));
    let mut bad = vec!["declare".to_string(), "1x=v".to_string()];
    assert_eq!(declare(&mut core, &mut bad), 1);
    let mut none = vec!["declare".to_string()];
    assert_eq!(declare(&mut core, &mut none), 0);
}

#[test]
fn declare_array_modes() {
    let mut core = fresh();
    core.db.push_layer();
    let mut args = vec!["declare".to_string(), "-a".to_string(), "arr".to_string()];
    assert_eq!(declare(&mut core, &mut args), 0);
    assert!(core.db.has_value("arr"));
    assert!(core.db.get_param("arr").is_none());
    let mut args2 = vec!["declare".to_string(), "-A".to_string(), "map".to_string()];
    assert_eq!(declare(&mut core, &mut args2), 0);
    assert!(core.db.has_value("map"));
}

#[test]
fn local_binds_at_function_layer() {
    let mut core = fresh();
    core.db.set_param("y", "global", None).unwrap();
    core.db.push_layer(); // the function's frame: layer 1
    core.db.push_layer(); // the builtin's frame: depth 3
    let mut args = vec!["local".to_string(), "y".to_string()];
    assert_eq!(local(&mut core, &mut args), 0);
    assert!(core.db.has_value_layer("y", 1));
    assert_eq!(core.db.get_param("y").unwrap(), "".to_string());
    core.db.pop_layer().unwrap();
    core.db.pop_layer().unwrap();
    // the local binding is gone, the global remains visible
    assert_eq!(core.db.get_param("y").unwrap(), "global".to_string());
}

#[test]
fn local_outside_function_fails() {
    let mut core = fresh();
    let mut args = vec!["local".to_string(), "y".to_string()];
    assert_eq!(local(&mut core, &mut args), 1);
    assert!(!core.db.has_value("y"));
    assert!(matches!(
        local_layer(&core, "local"),
        Err(ExecError::NotInFunction(_))
    ));
    core.db.push_layer();
    core.db.push_layer();
    assert_eq!(local_layer(&core, "local").unwrap(), 1);
}

#[test]
fn local_with_value_and_modes() {
    let mut core = fresh();
    core.db.push_layer();
    core.db.push_layer();
    let mut args = vec!["local".to_string(), "z=42".to_string()];
    assert_eq!(local(&mut core, &mut args), 0);
    assert_eq!(core.db.get_param("z").unwrap(), "42".to_string());
    let mut arr = vec!["local".to_string(), "-a".to_string(), "la=w".to_string()];
    assert_eq!(local(&mut core, &mut arr), 0);
    assert_eq!(core.db.get_array_elem("la", 0).unwrap(), "w".to_string());
}

#[test]
fn export_marks_and_creates() {
    let mut core = fresh();
    let mut args = vec!["export".to_string(), "e=v".to_string()];
    assert_eq!(export(&mut core, &mut args), 0);
    assert_eq!(core.db.get_param("e").unwrap(), "v".to_string());
    assert!(core.db.is_exported("e"));
    let mut bare = vec!["export".to_string(), "f".to_string()];
    assert_eq!(export(&mut core, &mut bare), 0);
    assert!(core.db.is_exported("f"));
    assert!(!core.db.is_exported("x"));
}

#[test]
fn readonly_builtin() {
    let mut core = fresh();
    core.db.push_layer();
    let mut args = vec!["readonly".to_string(), "k=v".to_string()];
    assert_eq!(readonly(&mut core, &mut args), 0);
    assert_eq!(core.db.get_param("k").unwrap(), "v".to_string());
    assert!(matches!(
        core.db.set_param("k", "w", None),
        Err(ExecError::ReadOnlyViolation(_))
    ));
    core.db.set_param("m", "1", None).unwrap();
    let mut bare = vec!["readonly".to_string(), "m".to_string()];
    assert_eq!(readonly(&mut core, &mut bare), 0);
    assert!(matches!(
        core.db.set_param("m", "2", None),
        Err(ExecError::ReadOnlyViolation(_))
    ));
    let mut bad = vec!["readonly".to_string(), "9x".to_string()];
    assert_eq!(readonly(&mut core, &mut bad), 1);
}

#[test]
fn dec_string_renders() {
    assert_eq!(dec_string(0), "0".to_string());
    assert_eq!(dec_string(-123), "-123".to_string());
    assert_eq!(dec_string(i128::MAX), "170141183460469231731687303715884105727".to_string());
    assert_eq!(dec_string(i128::MIN), "-170141183460469231731687303715884105728".to_string());
}

#[test]
fn print_renders_bindings() {
    let mut core = fresh();
    core.db.set_param("x", "hello", None).unwrap();
    core.db
        .set_array("a", vec!["p".to_string(), "q".to_string()], None)
        .unwrap();
    assert_eq!(print_data("x", &core).unwrap(), "x=hello".to_string());
    assert_eq!(print_data("a", &core).unwrap(), "a=([0]=\"p\" [1]=\"q\")".to_string());
    assert!(print_data("missing", &core).is_none());
    assert_eq!(
        print_all(&core),
        vec!["x=hello".to_string(), "a=([0]=\"p\" [1]=\"q\")".to_string()]
    );
}

#[test]
fn print_all_skips_shadowed() {
    let mut core = fresh();
    core.db.set_param("x", "global", None).unwrap();
    core.db.push_layer();
    core.db.set_param("x", "local", Some(1)).unwrap();
    core.db.set_param("y", "only", Some(1)).unwrap();
    assert_eq!(print_all(&core), vec!["x=local".to_string(), "y=only".to_string()]);
}

#[test]
fn wrapping_arithmetic() {
    let mut st: Vec<ArithElem> = Vec::new();
    bin_calc("+", i128::MAX, 1, &mut st).unwrap();
    assert_eq!(st, vec![ArithElem::Integer(i128::MIN)]);
    st.clear();
    bin_calc("**", 2, 128, &mut st).unwrap();
    assert_eq!(st, vec![ArithElem::Integer(0)]);
    st.clear();
    unary_calc("-", i128::MIN, &mut st).unwrap();
    assert_eq!(st, vec![ArithElem::Integer(i128::MIN)]);
}
