use forthic::errors::ForthicError;
use forthic::interpreter::{Interpreter, Stack};
use forthic::literals::{FloatParser, ForthicValue};
use forthic::module::{word_name, Module, Word};

struct StdFloats;

impl FloatParser for StdFloats {
    fn parse_bits(&self, s: &str) -> Option<u64> {
        s.parse::<f64>().ok().map(f64::to_bits)
    }
}

fn new_interp() -> Interpreter<StdFloats> {
    Interpreter::new_with_float_parser("UTC", StdFloats)
}

#[test]
fn test_stack_new() {
    let stack = Stack::new();
    assert!(stack.is_empty());
    assert_eq!(stack.len(), 0);
}

#[test]
fn test_stack_push_pop() {
    let mut stack = Stack::new();

    stack.push(ForthicValue::Int(42));
    stack.push(ForthicValue::Str("hello".to_string()));

    assert_eq!(stack.len(), 2);
    assert_eq!(stack.pop().unwrap(), ForthicValue::Str("hello".to_string()));
    assert_eq!(stack.pop().unwrap(), ForthicValue::Int(42));
    assert!(stack.is_empty());
}

#[test]
fn test_stack_pop_empty() {
    let mut stack = Stack::new();
    assert!(stack.pop().is_err());
}

#[test]
fn test_stack_peek() {
    let mut stack = Stack::new();
    assert!(stack.peek().is_none());

    stack.push(ForthicValue::Int(42));
    assert_eq!(stack.peek(), Some(&ForthicValue::Int(42)));
    assert_eq!(stack.len(), 1);
}

#[test]
fn test_stack_clear() {
    let mut stack = Stack::new();
    stack.push(ForthicValue::Int(1));
    stack.push(ForthicValue::Int(2));
    stack.push(ForthicValue::Int(3));

    stack.clear();
    assert!(stack.is_empty());
}

#[test]
fn test_stack_get() {
    let mut stack = Stack::new();
    stack.push(ForthicValue::Int(1));
    stack.push(ForthicValue::Int(2));
    stack.push(ForthicValue::Int(3));

    assert_eq!(stack.get(0), Some(&ForthicValue::Int(1)));
    assert_eq!(stack.get(1), Some(&ForthicValue::Int(2)));
    assert_eq!(stack.get(2), Some(&ForthicValue::Int(3)));
    assert_eq!(stack.get(3), None);
}

#[test]
fn test_stack_dup() {
    let mut stack = Stack::new();
    stack.push(ForthicValue::Int(42));

    let dup = stack.dup();
    assert_eq!(stack.len(), dup.len());
    assert_eq!(stack.pop().unwrap(), dup.peek().unwrap().clone());
}

#[test]
fn test_interpreter_new() {
    let interp = new_interp();
    assert_eq!(interp.get_timezone(), "UTC");
    assert!(interp.get_stack().is_empty());
    assert!(!interp.is_compiling());
}

#[test]
fn test_interpreter_stack_operations() {
    let mut interp = new_interp();

    interp.stack_push(ForthicValue::Int(42));
    interp.stack_push(ForthicValue::Str("test".to_string()));

    assert_eq!(interp.get_stack().len(), 2);
    assert_eq!(interp.stack_peek(), Some(&ForthicValue::Str("test".to_string())));

    assert_eq!(interp.stack_pop().unwrap(), ForthicValue::Str("test".to_string()));
    assert_eq!(interp.stack_pop().unwrap(), ForthicValue::Int(42));
}

#[test]
fn test_interpreter_module_stack() {
    let mut interp = new_interp();

    let module = Module::new("test_module".to_string());
    interp.module_stack_push(module);

    assert_eq!(interp.cur_module().get_name(), "test_module");

    let popped = interp.module_stack_pop().unwrap();
    assert_eq!(popped.get_name(), "test_module");

    assert_eq!(interp.cur_module().get_name(), "");
}

#[test]
fn test_module_stack_pop_underflow() {
    let mut interp = new_interp();

    let result = interp.module_stack_pop();
    assert!(matches!(
        result.unwrap_err(),
        ForthicError::StackUnderflow { .. }
    ));
}

#[test]
fn test_interpreter_reset() {
    let mut interp = new_interp();

    interp.stack_push(ForthicValue::Int(42));
    interp.set_compiling(true);
    interp.module_stack_push(Module::new("test".to_string()));

    interp.reset();

    assert!(interp.get_stack().is_empty());
    assert!(!interp.is_compiling());
    assert_eq!(interp.cur_module().get_name(), "");
}

#[test]
fn test_interpreter_compilation_state() {
    let mut interp = new_interp();

    assert!(!interp.is_compiling());
    assert!(!interp.is_memo_definition());

    interp.set_compiling(true);
    assert!(interp.is_compiling());

    interp.set_memo_definition(true);
    assert!(interp.is_memo_definition());
}

#[test]
fn test_find_literal_word_int() {
    let mut interp = new_interp();

    let word = interp.find_literal_word("42");
    assert!(word.is_some());
    assert_eq!(word_name(interp.arena.get(word.unwrap())), "42");
}

#[test]
fn test_find_literal_word_float() {
    let mut interp = new_interp();

    let word = interp.find_literal_word("3.14");
    assert!(word.is_some());
}

#[test]
fn test_find_literal_word_bool() {
    let mut interp = new_interp();

    assert!(interp.find_literal_word("TRUE").is_some());
    assert!(interp.find_literal_word("FALSE").is_some());
}

#[test]
fn test_find_literal_word_time() {
    let mut interp = new_interp();

    assert!(interp.find_literal_word("14:30").is_some());
    assert!(interp.find_literal_word("2:30 PM").is_some());
}

#[test]
fn test_find_literal_word_unknown() {
    let mut interp = new_interp();

    assert!(interp.find_literal_word("GARBAGE").is_none());
    assert!(interp.find_literal_word("not-a-literal").is_none());
}

#[test]
fn test_literal_handler_order() {
    let mut interp = new_interp();

    let word = interp.find_literal_word("3.14");
    assert!(word.is_some());

    let word = interp.find_literal_word("42");
    assert!(word.is_some());
}

#[test]
fn test_run_simple_literals() {
    let mut interp = new_interp();

    interp.run("42 3.14 TRUE 'hello'").unwrap();

    assert_eq!(interp.get_stack().len(), 4);
    assert_eq!(interp.stack_pop().unwrap(), ForthicValue::Str("hello".to_string()));
    assert_eq!(interp.stack_pop().unwrap(), ForthicValue::Bool(true));
    assert_eq!(interp.stack_pop().unwrap(), ForthicValue::Float(3.14f64.to_bits()));
    assert_eq!(interp.stack_pop().unwrap(), ForthicValue::Int(42));
}

#[test]
fn test_run_array_construction() {
    let mut interp = new_interp();

    interp.run("[1 2 3]").unwrap();

    assert_eq!(interp.get_stack().len(), 1);

    let arr = interp.stack_pop().unwrap();
    if let ForthicValue::Array(items) = arr {
        assert_eq!(items.len(), 3);
        assert_eq!(items[0], ForthicValue::Int(1));
        assert_eq!(items[1], ForthicValue::Int(2));
        assert_eq!(items[2], ForthicValue::Int(3));
    } else {
        panic!("Expected array");
    }
}

#[test]
fn test_run_nested_arrays() {
    let mut interp = new_interp();

    interp.run("[[1 2] [3 4]]").unwrap();

    assert_eq!(interp.get_stack().len(), 1);

    let outer = interp.stack_pop().unwrap();
    if let ForthicValue::Array(outer_items) = outer {
        assert_eq!(outer_items.len(), 2);

        if let ForthicValue::Array(inner1) = &outer_items[0] {
            assert_eq!(inner1.len(), 2);
            assert_eq!(inner1[0], ForthicValue::Int(1));
            assert_eq!(inner1[1], ForthicValue::Int(2));
        } else {
            panic!("Expected inner array");
        }

        if let ForthicValue::Array(inner2) = &outer_items[1] {
            assert_eq!(inner2.len(), 2);
            assert_eq!(inner2[0], ForthicValue::Int(3));
            assert_eq!(inner2[1], ForthicValue::Int(4));
        } else {
            panic!("Expected inner array");
        }
    } else {
        panic!("Expected outer array");
    }
}

#[test]
fn test_run_simple_definition() {
    let mut interp = new_interp();

    interp.run(": FORTY-TWO 42 ;").unwrap();

    interp.run("FORTY-TWO").unwrap();

    assert_eq!(interp.get_stack().len(), 1);
    assert_eq!(interp.stack_pop().unwrap(), ForthicValue::Int(42));
}

#[test]
fn test_run_definition_with_multiple_values() {
    let mut interp = new_interp();

    interp.run(": NUMS 1 2 3 ;").unwrap();

    interp.run("NUMS").unwrap();

    assert_eq!(interp.get_stack().len(), 3);
    assert_eq!(interp.stack_pop().unwrap(), ForthicValue::Int(3));
    assert_eq!(interp.stack_pop().unwrap(), ForthicValue::Int(2));
    assert_eq!(interp.stack_pop().unwrap(), ForthicValue::Int(1));
}

#[test]
fn test_run_comments() {
    let mut interp = new_interp();

    interp.run("42 # This is a comment\n3.14").unwrap();

    assert_eq!(interp.get_stack().len(), 2);
    assert_eq!(interp.stack_pop().unwrap(), ForthicValue::Float(3.14f64.to_bits()));
    assert_eq!(interp.stack_pop().unwrap(), ForthicValue::Int(42));
}

#[test]
fn test_run_unknown_word_error() {
    let mut interp = new_interp();

    let result = interp.run("UNKNOWN-WORD");
    assert!(result.is_err());

    if let Err(ForthicError::UnknownWord { word, .. }) = result {
        assert_eq!(word, "UNKNOWN-WORD");
    } else {
        panic!("Expected UnknownWord error");
    }
}

#[test]
fn test_run_missing_semicolon_error() {
    let mut interp = new_interp();

    let result = interp.run(": UNCLOSED 42");
    assert!(result.is_err());

    if let Err(ForthicError::MissingSemicolon { .. }) = result {
    } else {
        panic!("Expected MissingSemicolon error");
    }
}

#[test]
fn test_run_extra_semicolon_error() {
    let mut interp = new_interp();

    let result = interp.run("42 ;");
    assert!(result.is_err());

    if let Err(ForthicError::ExtraSemicolon { .. }) = result {
    } else {
        panic!("Expected ExtraSemicolon error");
    }
}

#[test]
fn test_run_memo_definition() {
    let mut interp = new_interp();

    interp.run("@: CACHED 42 ;").unwrap();

    interp.run("CACHED").unwrap();
    assert_eq!(interp.stack_pop().unwrap(), ForthicValue::Int(42));

    interp.run("CACHED").unwrap();
    assert_eq!(interp.stack_pop().unwrap(), ForthicValue::Int(42));
    assert!(interp.get_stack().is_empty());

    interp.run("CACHED!").unwrap();
    assert!(interp.get_stack().is_empty());

    interp.run("CACHED!@").unwrap();
    assert_eq!(interp.stack_pop().unwrap(), ForthicValue::Int(42));
}

#[test]
fn test_run_module_code() {
    let mut interp = new_interp();

    let module = Module::new_with_code("test_module".to_string(), ": MODULE-WORD 99 ;".to_string());

    interp.run_module_code(&module).unwrap();

    assert!(interp
        .cur_module()
        .find_dictionary_word(&interp.arena, "MODULE-WORD")
        .is_none());
}

#[test]
fn test_run_module_code_with_error() {
    let mut interp = new_interp();

    let module = Module::new_with_code("bad_module".to_string(), ": UNCLOSED 42".to_string());

    let result = interp.run_module_code(&module);
    assert!(result.is_err());

    if let Err(ForthicError::Module { module_name, .. }) = result {
        assert_eq!(module_name, "bad_module");
    } else {
        panic!("Expected Module error");
    }
}

#[test]
fn test_register_module() {
    let mut interp = new_interp();

    let mut module = Module::new("my_module".to_string());
    let word = interp.arena.intern(Word::PushValue {
        name: "TEST_WORD".to_string(),
        value: ForthicValue::Int(42),
        location: None,
    });
    module.add_word(word);

    interp.register_module(module);

    assert!(interp.get_app_module().find_module("my_module").is_some());
}

#[test]
fn test_module_with_definitions() {
    let mut interp = new_interp();

    let module = Module::new_with_code(
        "numbers".to_string(),
        ": FORTY-TWO 42 ; : NINETY-NINE 99 ;".to_string(),
    );

    interp.run_module_code(&module).unwrap();
}

#[test]
fn test_find_module() {
    let mut interp = new_interp();

    let module = Module::new("test_module".to_string());
    interp.register_module(module);

    assert!(interp.find_module("test_module").is_ok());

    assert!(interp.find_module("unknown").is_err());
}

#[test]
fn test_import_module_unprefixed() {
    let mut interp = new_interp();

    let mut module = Module::new("math".to_string());
    let word = interp.arena.intern(Word::PushValue {
        name: "PI".to_string(),
        value: ForthicValue::Float(3.14f64.to_bits()),
        location: None,
    });
    module.add_exportable_word(&interp.arena, word);

    interp.import_module(module, "");

    assert!(interp.app_module.find_word(&mut interp.arena, "PI").is_some());
}

#[test]
fn test_import_module_prefixed() {
    let mut interp = new_interp();

    let mut module = Module::new("math".to_string());
    let word = interp.arena.intern(Word::PushValue {
        name: "PI".to_string(),
        value: ForthicValue::Float(3.14f64.to_bits()),
        location: None,
    });
    module.add_exportable_word(&interp.arena, word);

    interp.import_module(module, "m");

    assert!(interp.app_module.find_word(&mut interp.arena, "m.PI").is_some());

    assert!(interp.app_module.find_word(&mut interp.arena, "PI").is_none());
}

#[test]
fn test_import_modules() {
    let mut interp = new_interp();

    let mut module1 = Module::new("mod1".to_string());
    let w1 = interp.arena.intern(Word::PushValue {
        name: "WORD1".to_string(),
        value: ForthicValue::Int(1),
        location: None,
    });
    module1.add_exportable_word(&interp.arena, w1);

    let mut module2 = Module::new("mod2".to_string());
    let w2 = interp.arena.intern(Word::PushValue {
        name: "WORD2".to_string(),
        value: ForthicValue::Int(2),
        location: None,
    });
    module2.add_exportable_word(&interp.arena, w2);

    interp.import_modules(vec![module1, module2]);

    assert!(interp.app_module.find_word(&mut interp.arena, "WORD1").is_some());
    assert!(interp.app_module.find_word(&mut interp.arena, "WORD2").is_some());
}

#[test]
fn test_module_registration_and_lookup() {
    let mut interp = new_interp();

    let mut module = Module::new("test".to_string());
    let word = interp.arena.intern(Word::PushValue {
        name: "TEST_WORD".to_string(),
        value: ForthicValue::Str("test".to_string()),
        location: None,
    });
    module.add_exportable_word(&interp.arena, word);

    interp.register_module(module);

    let found = interp.find_module("test").unwrap();
    assert_eq!(found.get_name(), "test");

    assert!(interp.get_app_module().find_module("test").is_some());
}

#[test]
fn test_set_stack() {
    let mut interp = new_interp();

    interp.stack_push(ForthicValue::Int(1));
    interp.stack_push(ForthicValue::Int(2));
    assert_eq!(interp.get_stack().len(), 2);

    let mut new_stack = Stack::new();
    new_stack.push(ForthicValue::Str("hello".to_string()));
    new_stack.push(ForthicValue::Bool(true));

    interp.set_stack(new_stack);

    assert_eq!(interp.get_stack().len(), 2);
    assert_eq!(interp.stack_pop().unwrap(), ForthicValue::Bool(true));
    assert_eq!(interp.stack_pop().unwrap(), ForthicValue::Str("hello".to_string()));
}

#[test]
fn test_get_tokenizer() {
    let mut interp = new_interp();

    assert!(interp.get_tokenizer().is_none());

    interp.run("42").unwrap();

    assert!(interp.get_tokenizer().is_none());
}

#[test]
fn test_get_top_input_string() {
    let interp = new_interp();

    assert_eq!(interp.get_top_input_string(), "");
}

#[test]
fn test_tokenizer_access_during_execution() {
    let mut interp = new_interp();

    interp.run(": TEST 42 ;").unwrap();

    interp.run("TEST").unwrap();

    assert_eq!(interp.stack_pop().unwrap(), ForthicValue::Int(42));
}

#[test]
fn test_stack_manipulation() {
    let mut interp = new_interp();

    interp.stack_push(ForthicValue::Int(10));
    interp.stack_push(ForthicValue::Int(20));
    interp.stack_push(ForthicValue::Int(30));

    assert_eq!(interp.get_stack().len(), 3);

    assert_eq!(interp.stack_peek(), Some(&ForthicValue::Int(30)));

    assert_eq!(interp.stack_pop().unwrap(), ForthicValue::Int(30));
    assert_eq!(interp.stack_pop().unwrap(), ForthicValue::Int(20));
    assert_eq!(interp.get_stack().len(), 1);

    let mut cleared = interp.get_stack().dup();
    cleared.clear();
    interp.set_stack(cleared);
    assert_eq!(interp.get_stack().len(), 0);
}

#[test]
fn test_nested_module_words() {
    let mut interp = new_interp();

    // A definition made inside a module frame is usable within that frame;
    // the frame is a copy, so its words do not leak into later frames.
    interp.run("{mymod : INNER 7 ; INNER }").unwrap();
    assert_eq!(interp.stack_pop().unwrap(), ForthicValue::Int(7));

    let result = interp.run("{mymod INNER }");
    assert!(matches!(
        result.unwrap_err(),
        ForthicError::UnknownWord { .. }
    ));
}

#[test]
fn test_early_binding_of_definitions() {
    let mut interp = new_interp();

    interp.run(": BASE 1 ;").unwrap();
    interp.run(": USES-BASE BASE ;").unwrap();
    interp.run(": BASE 2 ;").unwrap();

    interp.run("USES-BASE").unwrap();
    assert_eq!(interp.stack_pop().unwrap(), ForthicValue::Int(1));

    interp.run("BASE").unwrap();
    assert_eq!(interp.stack_pop().unwrap(), ForthicValue::Int(2));
}

#[test]
fn test_find_literal_word_date() {
    let mut interp = new_interp();

    assert!(interp.find_literal_word("2023-12-25").is_some());
}

#[test]
fn test_run_date_literal() {
    let mut interp = new_interp();

    interp.run("2023-12-25").unwrap();

    let value = interp.stack_pop().unwrap();
    if let ForthicValue::Date(d) = value {
        assert_eq!(d.year, 2023);
        assert_eq!(d.month, 12);
        assert_eq!(d.day, 25);
    } else {
        panic!("Expected Date");
    }
}
