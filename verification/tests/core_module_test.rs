use forthic::errors::ForthicError;
use forthic::interpreter::Interpreter;
use forthic::literals::{ForthicValue, NoFloatLiterals};
use forthic::standard::CoreModule;

fn core_interp() -> Interpreter<NoFloatLiterals> {
    let mut interp = Interpreter::new_with_float_parser("UTC", NoFloatLiterals);
    let core = CoreModule::new(&mut interp);
    interp.import_module(core.module, "");
    interp.reset();
    interp
}

#[test]
fn test_pop() {
    let mut interp = core_interp();

    interp.run("5 10 POP").unwrap();

    assert_eq!(interp.get_stack().len(), 1);
    assert_eq!(interp.stack_pop().unwrap(), ForthicValue::Int(5));
}

#[test]
fn test_dup() {
    let mut interp = core_interp();

    interp.run("42 DUP").unwrap();

    assert_eq!(interp.get_stack().len(), 2);
    assert_eq!(interp.stack_pop().unwrap(), ForthicValue::Int(42));
    assert_eq!(interp.stack_pop().unwrap(), ForthicValue::Int(42));
}

#[test]
fn test_swap() {
    let mut interp = core_interp();

    interp.run("1 2 SWAP").unwrap();

    assert_eq!(interp.stack_pop().unwrap(), ForthicValue::Int(1));
    assert_eq!(interp.stack_pop().unwrap(), ForthicValue::Int(2));
}

#[test]
fn test_variables() {
    let mut interp = core_interp();

    interp.run("['count' 'total'] VARIABLES").unwrap();

    assert!(interp.cur_module().get_variable("count").is_some());
    assert!(interp.cur_module().get_variable("total").is_some());
}

#[test]
fn test_store_and_fetch() {
    let mut interp = core_interp();

    interp.run("['x'] VARIABLES 7 'x' ! 'x' @").unwrap();

    assert_eq!(interp.stack_pop().unwrap(), ForthicValue::Int(7));
}

#[test]
fn test_store_fetch_combined() {
    let mut interp = core_interp();

    interp.run("9 'y' !@").unwrap();

    assert_eq!(interp.stack_pop().unwrap(), ForthicValue::Int(9));
    assert_eq!(
        interp.cur_module().get_variable("y").unwrap().get_value(),
        &ForthicValue::Int(9)
    );
}

#[test]
fn test_reserved_variable_name() {
    let mut interp = core_interp();

    let result = interp.run("['__hidden'] VARIABLES");

    assert!(matches!(
        result.unwrap_err(),
        ForthicError::InvalidVariableName { .. }
    ));
}

#[test]
fn test_null_word() {
    let mut interp = core_interp();

    interp.run("NULL").unwrap();

    assert_eq!(interp.stack_pop().unwrap(), ForthicValue::Null);
}

#[test]
fn test_is_array() {
    let mut interp = core_interp();

    interp.run("[1 2] ARRAY?").unwrap();
    assert_eq!(interp.stack_pop().unwrap(), ForthicValue::Bool(true));

    interp.run("42 ARRAY?").unwrap();
    assert_eq!(interp.stack_pop().unwrap(), ForthicValue::Bool(false));
}

#[test]
fn test_default_word() {
    let mut interp = core_interp();

    interp.run("NULL 5 DEFAULT").unwrap();
    assert_eq!(interp.stack_pop().unwrap(), ForthicValue::Int(5));

    interp.run("3 5 DEFAULT").unwrap();
    assert_eq!(interp.stack_pop().unwrap(), ForthicValue::Int(3));

    interp.run("'' 5 DEFAULT").unwrap();
    assert_eq!(interp.stack_pop().unwrap(), ForthicValue::Int(5));
}

#[test]
fn test_identity_and_nop() {
    let mut interp = core_interp();

    interp.run("1 IDENTITY NOP").unwrap();

    assert_eq!(interp.get_stack().len(), 1);
    assert_eq!(interp.stack_pop().unwrap(), ForthicValue::Int(1));
}

#[test]
fn test_to_options() {
    let mut interp = core_interp();

    interp.run("[.depth 3] ~>").unwrap();

    let value = interp.stack_pop().unwrap();
    if let ForthicValue::WordOptions(opts) = value {
        assert_eq!(opts.get_int("depth"), Some(3));
    } else {
        panic!("Expected WordOptions");
    }
}

#[test]
fn test_to_options_odd_length() {
    let mut interp = core_interp();

    interp.run("[.depth] ~>").unwrap();

    assert_eq!(interp.stack_pop().unwrap(), ForthicValue::Null);
}

#[test]
fn test_pop_underflow() {
    let mut interp = core_interp();

    let result = interp.run("POP");

    assert!(matches!(
        result.unwrap_err(),
        ForthicError::StackUnderflow { .. }
    ));
}
