use forthic::errors::ForthicError;
use forthic::interpreter::Interpreter;
use forthic::literals::{ForthicValue, NoFloatLiterals};
use forthic::module::{HandlerAction, NativeOp};

fn new_interp() -> Interpreter<NoFloatLiterals> {
    Interpreter::new_with_float_parser("UTC", NoFloatLiterals)
}

#[test]
fn test_add_error_handler() {
    let mut interp = new_interp();
    let word = interp.add_native_word("TEST", NativeOp::Fail);

    interp.add_error_handler(word, HandlerAction::Accept);
    assert_eq!(interp.get_error_handlers(word).len(), 1);
}

#[test]
fn test_remove_error_handler() {
    let mut interp = new_interp();
    let word = interp.add_native_word("TEST", NativeOp::Nop);

    interp.add_error_handler(word, HandlerAction::Accept);
    assert_eq!(interp.get_error_handlers(word).len(), 1);

    interp.remove_error_handler(word, HandlerAction::Accept);
    assert_eq!(interp.get_error_handlers(word).len(), 0);
}

#[test]
fn test_clear_error_handlers() {
    let mut interp = new_interp();
    let word = interp.add_native_word("TEST", NativeOp::Nop);

    interp.add_error_handler(word, HandlerAction::Accept);
    interp.add_error_handler(word, HandlerAction::Accept);
    interp.add_error_handler(word, HandlerAction::Accept);
    assert_eq!(interp.get_error_handlers(word).len(), 3);

    interp.clear_error_handlers(word);
    assert_eq!(interp.get_error_handlers(word).len(), 0);
}

#[test]
fn test_remove_nonexistent_handler() {
    let mut interp = new_interp();
    let word = interp.add_native_word("TEST", NativeOp::Nop);

    interp.remove_error_handler(word, HandlerAction::Accept);
    assert_eq!(interp.get_error_handlers(word).len(), 0);
}

#[test]
fn test_handler_suppresses_error() {
    let mut interp = new_interp();
    let word = interp.add_native_word("TEST", NativeOp::Fail);
    interp.add_error_handler(word, HandlerAction::Accept);

    let result = interp.execute_word(word);
    assert!(result.is_ok());
}

#[test]
fn test_handler_does_not_suppress_error() {
    let mut interp = new_interp();
    let word = interp.add_native_word("TEST", NativeOp::Fail);
    interp.add_error_handler(word, HandlerAction::Reject);

    let result = interp.execute_word(word);
    assert!(result.is_err());
}

#[test]
fn test_multiple_handlers_first_succeeds() {
    let mut interp = new_interp();
    let word = interp.add_native_word("TEST", NativeOp::Fail);
    interp.add_error_handler(word, HandlerAction::PushAccept(1));
    interp.add_error_handler(word, HandlerAction::PushAccept(2));

    let result = interp.execute_word(word);

    assert!(result.is_ok());
    // The first handler ran and left its trace; the second never ran.
    assert_eq!(interp.get_stack().len(), 1);
    assert_eq!(interp.stack_pop().unwrap(), ForthicValue::Int(1));
}

#[test]
fn test_multiple_handlers_first_fails() {
    let mut interp = new_interp();
    let word = interp.add_native_word("TEST", NativeOp::Fail);
    interp.add_error_handler(word, HandlerAction::PushReject(1));
    interp.add_error_handler(word, HandlerAction::PushAccept(2));

    let result = interp.execute_word(word);

    assert!(result.is_ok());
    // Both handlers ran: the first declined, the second accepted.
    assert_eq!(interp.get_stack().len(), 2);
    assert_eq!(interp.stack_pop().unwrap(), ForthicValue::Int(2));
    assert_eq!(interp.stack_pop().unwrap(), ForthicValue::Int(1));
}

#[test]
fn test_all_handlers_fail() {
    let mut interp = new_interp();
    let word = interp.add_native_word("TEST", NativeOp::Fail);
    interp.add_error_handler(word, HandlerAction::PushReject(1));
    interp.add_error_handler(word, HandlerAction::PushReject(2));

    let result = interp.execute_word(word);

    // The original error comes back, not a handler's own.
    assert!(matches!(result.unwrap_err(), ForthicError::UnknownWord { .. }));
    // Both handlers were offered the error.
    assert_eq!(interp.get_stack().len(), 2);
    assert_eq!(interp.stack_pop().unwrap(), ForthicValue::Int(2));
    assert_eq!(interp.stack_pop().unwrap(), ForthicValue::Int(1));
}

#[test]
fn test_intentional_stop_error_bypasses_handlers() {
    let mut interp = new_interp();
    let word = interp.add_native_word("TEST", NativeOp::Stop);
    interp.add_error_handler(word, HandlerAction::PushAccept(1));

    let result = interp.execute_word(word);

    assert!(result.is_err());
    assert!(matches!(result.unwrap_err(), ForthicError::IntentionalStop { .. }));
    // The handler was never offered the stop: no trace on the stack.
    assert!(interp.get_stack().is_empty());
}

#[test]
fn test_error_handler_accesses_stack() {
    let mut interp = new_interp();
    let word = interp.add_native_word("TEST", NativeOp::Fail);
    interp.add_error_handler(word, HandlerAction::PushAccept(42));

    let result = interp.execute_word(word);

    assert!(result.is_ok());
    assert_eq!(interp.get_stack().len(), 1);
    assert_eq!(interp.stack_pop().unwrap(), ForthicValue::Int(42));
}

#[test]
fn test_error_handler_can_modify_error() {
    let mut interp = new_interp();
    let word = interp.add_native_word("TEST", NativeOp::Fail);
    interp.add_error_handler(word, HandlerAction::PushAccept(999));

    let result = interp.execute_word(word);

    assert!(result.is_ok());
    assert_eq!(interp.get_stack().len(), 1);
    assert_eq!(interp.stack_pop().unwrap(), ForthicValue::Int(999));
}
