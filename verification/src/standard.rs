//! The core vocabulary: stack manipulation, variables and options words,
//! registered through the word/module interface like any host vocabulary.

use vstd::prelude::*;
use crate::interpreter::Interpreter;
use crate::literals::FloatParser;
use crate::module::{module_wf, word_name_spec, Module, NativeOp, Word};

verus! {

/// The thirteen entries of the core vocabulary, in registration order:
/// each word's name and its operation.
pub open spec fn core_vocabulary() -> Seq<(Seq<char>, NativeOp)> {
    seq![
        ("POP"@, NativeOp::Pop),
        ("DUP"@, NativeOp::Dup),
        ("SWAP"@, NativeOp::Swap),
        ("VARIABLES"@, NativeOp::Variables),
        ("!"@, NativeOp::Store),
        ("@"@, NativeOp::Fetch),
        ("!@"@, NativeOp::StoreFetch),
        ("IDENTITY"@, NativeOp::Nop),
        ("NOP"@, NativeOp::Nop),
        ("NULL"@, NativeOp::PushNull),
        ("ARRAY?"@, NativeOp::IsArray),
        ("DEFAULT"@, NativeOp::FallbackDefault),
        ("~>"@, NativeOp::ToOptions),
    ]
}

/// The core module: `POP`, `DUP`, `SWAP`, `VARIABLES`, `!`, `@`, `!@`,
/// `IDENTITY`, `NOP`, `NULL`, `ARRAY?`, `DEFAULT` and `~>`, all
/// exportable.
#[derive(Debug)]
pub struct CoreModule {
    pub module: Module,
}

impl CoreModule {
    /// Build the core vocabulary against an interpreter's arena: one
    /// fresh native word per entry of `core_vocabulary`, in order, each
    /// with an empty handler chain, all in the module's dictionary and
    /// exportable list.
    #[verifier::spinoff_prover]
    #[verifier::rlimit(100)]
    pub fn new<F: FloatParser>(interp: &mut Interpreter<F>) -> (r: Self)
        requires
            old(interp).wf(),
        ensures
            final(interp).wf(),
            module_wf(r.module@, final(interp).arena@.len() as int),
            r.module@.name == "core"@,
            final(interp).arena@.len() == old(interp).arena@.len() + core_vocabulary().len(),
            forall|i: int|
                0 <= i < old(interp).arena@.len() ==> final(interp).arena@[i] == old(
                    interp,
                ).arena@[i],
            r.module@.words.len() == core_vocabulary().len(),
            forall|k: int|
                0 <= k < core_vocabulary().len() ==> (#[trigger] r.module@.words[k]) == old(
                    interp,
                ).arena@.len() + k,
            forall|k: int|
                0 <= k < core_vocabulary().len() ==> ((#[trigger] final(interp).arena@[old(
                    interp,
                ).arena@.len() + k]) matches Word::Native { name, op, handlers, .. } && name@
                    == core_vocabulary()[k].0 && op == core_vocabulary()[k].1 && handlers@
                    == Seq::<crate::module::HandlerAction>::empty()),
            r.module@.exportable.len() == core_vocabulary().len(),
            forall|k: int|
                0 <= k < core_vocabulary().len() ==> (#[trigger] r.module@.exportable[k])
                    == core_vocabulary()[k].0,
            r.module@.variables == Seq::<(Seq<char>, crate::literals::ValueSpec)>::empty(),
            r.module@.modules == Seq::<(Seq<char>, crate::module::ModuleSpec)>::empty(),
            final(interp).module_stack == old(interp).module_stack,
            final(interp).stack == old(interp).stack,
            final(interp).app_module == old(interp).app_module,
    {
        let mut module = Module::new(String::from_str("core"));
        Self::add_core_word(interp, &mut module, "POP", NativeOp::Pop);
        Self::add_core_word(interp, &mut module, "DUP", NativeOp::Dup);
        Self::add_core_word(interp, &mut module, "SWAP", NativeOp::Swap);
        Self::add_core_word(interp, &mut module, "VARIABLES", NativeOp::Variables);
        Self::add_core_word(interp, &mut module, "!", NativeOp::Store);
        Self::add_core_word(interp, &mut module, "@", NativeOp::Fetch);
        Self::add_core_word(interp, &mut module, "!@", NativeOp::StoreFetch);
        Self::add_core_word(interp, &mut module, "IDENTITY", NativeOp::Nop);
        Self::add_core_word(interp, &mut module, "NOP", NativeOp::Nop);
        Self::add_core_word(interp, &mut module, "NULL", NativeOp::PushNull);
        Self::add_core_word(interp, &mut module, "ARRAY?", NativeOp::IsArray);
        Self::add_core_word(interp, &mut module, "DEFAULT", NativeOp::FallbackDefault);
        Self::add_core_word(interp, &mut module, "~>", NativeOp::ToOptions);
        proof {
            let l0 = old(interp).arena@.len() as int;
            assert(module@.words.len() == 13);
            assert forall|k: int| 0 <= k < 13 implies #[trigger] module@.words[k] == l0 + k by {
                if k < 7 {
                    if k < 4 {
                    } else {
                    }
                } else {
                    if k < 10 {
                    } else {
                    }
                }
            }
            assert forall|k: int| 0 <= k < 13 implies #[trigger] module@.exportable[k]
                == core_vocabulary()[k].0 by {
                if k < 7 {
                    if k < 4 {
                    } else {
                    }
                } else {
                    if k < 10 {
                    } else {
                    }
                }
            }
        }
        CoreModule { module }
    }

    /// The vocabulary as a module.
    pub fn module(&self) -> (r: &Module)
        ensures
            r == &self.module,
    {
        &self.module
    }

    /// Register one native word into the vocabulary, exportable.
    fn add_core_word<F: FloatParser>(
        interp: &mut Interpreter<F>,
        module: &mut Module,
        name: &str,
        op: NativeOp,
    )
        requires
            old(interp).wf(),
            module_wf(old(module)@, old(interp).arena@.len() as int),
        ensures
            final(interp).wf(),
            module_wf(final(module)@, final(interp).arena@.len() as int),
            final(interp).arena@.len() == old(interp).arena@.len() + 1,
            forall|i: int|
                0 <= i < old(interp).arena@.len() ==> final(interp).arena@[i] == old(
                    interp,
                ).arena@[i],
            (final(interp).arena@.last() matches Word::Native { name: n2, op: o2, handlers, .. }
                && n2@ == name@ && o2 == op && handlers@
                == Seq::<crate::module::HandlerAction>::empty()),
            final(module)@.words.len() == old(module)@.words.len() + 1,
            final(module)@.words.drop_last() == old(module)@.words,
            final(module)@.words.last() == old(interp).arena@.len(),
            final(module)@.exportable == old(module)@.exportable.push(name@),
            final(module)@.name == old(module)@.name,
            final(module)@.variables == old(module)@.variables,
            final(module)@.modules == old(module)@.modules,
            final(module)@.prefixes == old(module)@.prefixes,
            final(module)@.forthic_code == old(module)@.forthic_code,
            final(interp).module_stack == old(interp).module_stack,
            final(interp).stack == old(interp).stack,
            final(interp).app_module == old(interp).app_module,
    {
        let idx = interp.add_native_word(name, op);
        proof {
            assert(idx < interp.arena@.len());
            assert forall|i: int|
                0 <= i < old(interp).arena@.len() implies interp.arena@[i] == old(
                interp,
            ).arena@[i] by {
                assert(interp.arena@.drop_last()[i] == interp.arena@[i]);
            }
            assert(word_name_spec(interp.arena@[idx as int]) == name@);
        }
        module.add_exportable_word(&interp.arena, idx);
        proof {
            crate::module::lemma_module_wf_grow(
                old(module)@,
                old(interp).arena@.len() as int,
                interp.arena@.len() as int,
            );
            crate::interpreter::lemma_words_ok_append(
                old(module)@.words,
                module@.words,
                interp.arena@.len() as int,
            );
            assert(module@.words.drop_last() =~= old(module)@.words);
        }
    }
}

} // verus!
