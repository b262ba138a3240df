use forthic::interpreter::Interpreter;
use forthic::literals::{ForthicValue, NoFloatLiterals};
use forthic::module::{Module, Variable, Word};

fn new_interp() -> Interpreter<NoFloatLiterals> {
    Interpreter::new_with_float_parser("UTC", NoFloatLiterals)
}

#[test]
fn test_variable() {
    let mut var = Variable::new("test".to_string(), ForthicValue::Int(42));
    assert_eq!(var.get_name(), "test");
    assert_eq!(var.get_value(), &ForthicValue::Int(42));

    var.set_value(ForthicValue::Int(99));
    assert_eq!(var.get_value(), &ForthicValue::Int(99));
}

#[test]
fn test_variable_dup() {
    let var = Variable::new("test".to_string(), ForthicValue::Int(42));
    let var2 = var.dup();

    assert_eq!(var.get_name(), var2.get_name());
    assert_eq!(var.get_value(), var2.get_value());
}

#[test]
fn test_push_value_word() {
    let mut interp = new_interp();
    let word = interp.arena.intern(Word::PushValue {
        name: "FORTY_TWO".to_string(),
        value: ForthicValue::Int(42),
        location: None,
    });

    interp.execute_word(word).unwrap();
    assert_eq!(interp.get_stack().len(), 1);
    assert_eq!(interp.stack_pop().unwrap(), ForthicValue::Int(42));
}

#[test]
fn test_definition_word() {
    let mut interp = new_interp();
    let one = interp.arena.intern(Word::PushValue {
        name: "ONE".to_string(),
        value: ForthicValue::Int(1),
        location: None,
    });
    let two = interp.arena.intern(Word::PushValue {
        name: "TWO".to_string(),
        value: ForthicValue::Int(2),
        location: None,
    });
    let mut def = forthic::module::DefinitionWord::new("TEST".to_string());
    def.add_word(one);
    def.add_word(two);
    let def_idx = interp.arena.intern(Word::Definition(def));

    interp.execute_word(def_idx).unwrap();

    assert_eq!(interp.get_stack().len(), 2);
    assert_eq!(interp.stack_pop().unwrap(), ForthicValue::Int(2));
    assert_eq!(interp.stack_pop().unwrap(), ForthicValue::Int(1));
}

#[test]
fn test_module_new() {
    let module = Module::new("test".to_string());
    assert_eq!(module.get_name(), "test");
}

#[test]
fn test_module_add_word() {
    let mut interp = new_interp();
    let mut module = Module::new("test".to_string());
    let word = interp.arena.intern(Word::PushValue {
        name: "WORD".to_string(),
        value: ForthicValue::Int(42),
        location: None,
    });

    module.add_word(word);
    assert!(module.find_word(&mut interp.arena, "WORD").is_some());
}

#[test]
fn test_module_find_word() {
    let mut interp = new_interp();
    let mut module = Module::new("test".to_string());
    let word = interp.arena.intern(Word::PushValue {
        name: "WORD".to_string(),
        value: ForthicValue::Int(42),
        location: None,
    });

    module.add_word(word);

    let found = module.find_word(&mut interp.arena, "WORD");
    assert!(found.is_some());
    assert_eq!(forthic::module::word_name(interp.arena.get(found.unwrap())), "WORD");

    assert!(module.find_word(&mut interp.arena, "MISSING").is_none());
}

#[test]
fn test_module_exportable_words() {
    let mut interp = new_interp();
    let mut module = Module::new("test".to_string());

    let word1 = interp.arena.intern(Word::PushValue {
        name: "PUBLIC".to_string(),
        value: ForthicValue::Int(1),
        location: None,
    });
    let word2 = interp.arena.intern(Word::PushValue {
        name: "PRIVATE".to_string(),
        value: ForthicValue::Int(2),
        location: None,
    });

    module.add_exportable_word(&interp.arena, word1);
    module.add_word(word2);

    let exportable = module.exportable_words(&interp.arena);
    assert_eq!(exportable.len(), 1);
    assert_eq!(forthic::module::word_name(interp.arena.get(exportable[0])), "PUBLIC");
}

#[test]
fn test_module_variables() {
    let mut interp = new_interp();
    let mut module = Module::new("test".to_string());

    module.add_variable("var1".to_string(), ForthicValue::Int(42));
    assert!(module.get_variable("var1").is_some());
    assert_eq!(
        module.get_variable("var1").unwrap().get_value(),
        &ForthicValue::Int(42)
    );

    let word = module.find_word(&mut interp.arena, "var1");
    assert!(word.is_some());
}

#[test]
fn test_module_import_unprefixed() {
    let mut interp = new_interp();
    let mut module1 = Module::new("module1".to_string());
    let word = interp.arena.intern(Word::PushValue {
        name: "WORD".to_string(),
        value: ForthicValue::Int(42),
        location: None,
    });
    module1.add_exportable_word(&interp.arena, word);

    let mut module2 = Module::new("module2".to_string());
    module2.import_module(&mut interp.arena, "", &module1);

    assert!(module2.find_word(&mut interp.arena, "WORD").is_some());
}

#[test]
fn test_module_import_prefixed() {
    let mut interp = new_interp();
    let mut module1 = Module::new("module1".to_string());
    let word = interp.arena.intern(Word::PushValue {
        name: "WORD".to_string(),
        value: ForthicValue::Int(42),
        location: None,
    });
    module1.add_exportable_word(&interp.arena, word);

    let mut module2 = Module::new("module2".to_string());
    module2.import_module(&mut interp.arena, "m1", &module1);

    assert!(module2.find_word(&mut interp.arena, "m1.WORD").is_some());
    assert!(module2.find_word(&mut interp.arena, "WORD").is_none());
}

#[test]
fn test_execute_word() {
    let mut interp = new_interp();
    let target = interp.arena.intern(Word::PushValue {
        name: "TARGET".to_string(),
        value: ForthicValue::Int(42),
        location: None,
    });
    let wrapper = interp.arena.intern(Word::Delegate {
        name: "WRAPPER".to_string(),
        target,
    });

    interp.execute_word(wrapper).unwrap();

    assert_eq!(interp.get_stack().len(), 1);
    assert_eq!(interp.stack_pop().unwrap(), ForthicValue::Int(42));
}

#[test]
fn test_memo_word() {
    let mut interp = new_interp();
    let push_word = interp.arena.intern(Word::PushValue {
        name: "VALUE".to_string(),
        value: ForthicValue::Int(42),
        location: None,
    });
    let memo = interp.arena.intern(Word::Memo {
        name: "VALUE".to_string(),
        target: push_word,
        cache: None,
    });

    interp.execute_word(memo).unwrap();
    assert_eq!(interp.get_stack().len(), 1);
    assert_eq!(interp.get_stack().get(0), Some(&ForthicValue::Int(42)));

    interp.execute_word(memo).unwrap();
    assert_eq!(interp.get_stack().len(), 2);
    assert_eq!(interp.get_stack().get(1), Some(&ForthicValue::Int(42)));
}

#[test]
fn test_memo_refresh_words() {
    let mut interp = new_interp();

    interp.run("@: M 42 ;").unwrap();

    interp.run("M!").unwrap();
    assert!(interp.get_stack().is_empty());

    interp.run("M!@").unwrap();
    assert_eq!(interp.stack_pop().unwrap(), ForthicValue::Int(42));

    interp.run("M").unwrap();
    assert_eq!(interp.stack_pop().unwrap(), ForthicValue::Int(42));
}

#[test]
fn test_module_dup() {
    let mut interp = new_interp();
    let mut module = Module::new("test".to_string());
    module.add_variable("var".to_string(), ForthicValue::Int(42));

    let word = interp.arena.intern(Word::PushValue {
        name: "WORD".to_string(),
        value: ForthicValue::Int(99),
        location: None,
    });
    module.add_word(word);

    let dup = module.dup();
    assert_eq!(dup.get_name(), "test");
    assert!(dup.find_word(&mut interp.arena, "WORD").is_some());
    assert!(dup.get_variable("var").is_some());
}

#[test]
fn test_module_shadowing() {
    let mut interp = new_interp();
    let mut module = Module::new("test".to_string());
    let first = interp.arena.intern(Word::PushValue {
        name: "W".to_string(),
        value: ForthicValue::Int(1),
        location: None,
    });
    let second = interp.arena.intern(Word::PushValue {
        name: "W".to_string(),
        value: ForthicValue::Int(2),
        location: None,
    });
    module.add_word(first);
    module.add_word(second);

    let found = module.find_word(&mut interp.arena, "W").unwrap();
    assert_eq!(found, second);
}
