//! The module and word object model.
//!
//! A word is the smallest executable unit. Words live in a single arena
//! owned by the interpreter and are referred to by index: sharing an index
//! is how module duplicates share one word, so a memo's cache, which lives
//! in the arena, is seen through every duplicate. A module is a namespace
//! of word indices, variables and registered submodules.

use vstd::prelude::*;
use crate::errors::CodeLocation;
use crate::literals::{value_view, ForthicValue, ValueSpec};

verus! {

/// A named mutable value container, owned by one module and looked up
/// only there.
#[derive(Debug)]
pub struct Variable {
    pub name: String,
    pub value: ForthicValue,
}

impl Variable {
    /// Create a variable with a name and initial value.
    pub fn new(name: String, value: ForthicValue) -> (r: Self)
        ensures
            r.name == name,
            r.value == value,
    {
        Self { name, value }
    }

    /// The variable's name.
    pub fn get_name(&self) -> (r: &str)
        ensures
            r@ == self.name@,
    {
        self.name.as_str()
    }

    /// Replace the variable's value.
    pub fn set_value(&mut self, value: ForthicValue)
        ensures
            final(self).name == old(self).name,
            final(self).value == value,
    {
        self.value = value;
    }

    /// The variable's value.
    pub fn get_value(&self) -> (r: &ForthicValue)
        ensures
            r == &self.value,
    {
        &self.value
    }

    /// An independent copy with the same name and an equal value.
    pub fn dup(&self) -> (r: Self)
        ensures
            r.name@ == self.name@,
            r.value@ == self.value@,
    {
        Self { name: self.name.clone(), value: self.value.clone() }
    }
}

/// The operation of a native word. The core's own vocabulary covers stack
/// manipulation, variables and options; `Fail` and `Stop` raise an error
/// and the intentional-stop signal, for exercising error-handler chains.
#[derive(Debug, Clone, Copy, PartialEq, Eq, Structural)]
pub enum NativeOp {
    /// Discard the top of the stack.
    Pop,
    /// Duplicate the top of the stack.
    Dup,
    /// Exchange the two topmost values.
    Swap,
    /// Declare the variables named in an array of strings.
    Variables,
    /// Store a value into a variable: `value name !`.
    Store,
    /// Fetch a variable's value: `name @`.
    Fetch,
    /// Store a value and push it back: `value name !@`.
    StoreFetch,
    /// Do nothing.
    Nop,
    /// Push `Null`.
    PushNull,
    /// Pop a value and push whether it was an array.
    IsArray,
    /// Pop a default and a value; push the value unless it was null or an
    /// empty string, in which case push the default.
    FallbackDefault,
    /// Pop an array of key-value pairs and push it as word options.
    ToOptions,
    /// Raise an unknown-word error carrying this word's name.
    Fail,
    /// Raise the intentional-stop signal.
    Stop,
}

/// What one error handler of a word's chain does when an error is offered
/// to it. A handler that pushes leaves a visible trace of its invocation
/// on the stack; its stack effects are its own responsibility.
#[derive(Debug, Clone, Copy, PartialEq, Eq, Structural)]
pub enum HandlerAction {
    /// Handle the error.
    Accept,
    /// Decline the error.
    Reject,
    /// Push the integer, then handle the error.
    PushAccept(i64),
    /// Push the integer, then decline the error.
    PushReject(i64),
}

/// A user-defined word: an ordered list of word indices compiled between
/// `:` and `;`, executed in order.
#[derive(Debug)]
pub struct DefinitionWord {
    pub name: String,
    pub words: Vec<usize>,
    pub location: Option<CodeLocation>,
}

impl DefinitionWord {
    /// An empty definition with a name.
    pub fn new(name: String) -> (r: Self)
        ensures
            r.name == name,
            r.words@.len() == 0,
            r.location is None,
    {
        Self { name, words: Vec::new(), location: None }
    }

    /// Append a word to the definition.
    pub fn add_word(&mut self, word: usize)
        ensures
            final(self).words@ == old(self).words@.push(word as usize),
            final(self).name == old(self).name,
            final(self).location == old(self).location,
    {
        self.words.push(word);
    }

    /// The compiled word list.
    pub fn get_words(&self) -> (r: &Vec<usize>)
        ensures
            r == &self.words,
    {
        &self.words
    }
}

/// An executable word. Variants that refer to other words hold arena
/// indices, always of words allocated earlier.
#[derive(Debug)]
pub enum Word {
    /// Push a stored value.
    PushValue { name: String, value: ForthicValue, location: Option<CodeLocation> },
    /// Execute a compiled word list in order.
    Definition(DefinitionWord),
    /// A memoized word: run the target once, cache its popped result, and
    /// push the cached value on later executions.
    Memo { name: String, target: usize, cache: Option<ForthicValue> },
    /// Force a memo's refresh without pushing: `NAME!`.
    MemoBang { name: String, memo: usize },
    /// Force a memo's refresh, then push the new value: `NAME!@`.
    MemoBangAt { name: String, memo: usize },
    /// A named delegate to another word, created by prefixed imports.
    Delegate { name: String, target: usize },
    /// A native operation with an ordered error-handler chain.
    Native { name: String, op: NativeOp, handlers: Vec<HandlerAction>, location: Option<
        CodeLocation,
    > },
    /// Push a module (or a copy of the app module) onto the module stack.
    StartModule { name: String },
    /// Pop the module stack.
    EndModule,
    /// Collect stack values down to the start-array marker into an array.
    EndArray,
}

/// The name of a word.
pub open spec fn word_name_spec(w: Word) -> Seq<char> {
    match w {
        Word::PushValue { name, .. } => name@,
        Word::Definition(d) => d.name@,
        Word::Memo { name, .. } => name@,
        Word::MemoBang { name, .. } => name@,
        Word::MemoBangAt { name, .. } => name@,
        Word::Delegate { name, .. } => name@,
        Word::Native { name, .. } => name@,
        Word::StartModule { name } => name@,
        Word::EndModule => "}"@,
        Word::EndArray => "]"@,
    }
}

/// Whether every word index that `w` refers to lies below `bound`.
pub open spec fn word_refs_below(w: Word, bound: int) -> bool {
    match w {
        Word::Definition(d) => forall|i: int| 0 <= i < d.words@.len() ==> (#[trigger] d.words@[i])
            < bound,
        Word::Memo { target, .. } => target < bound,
        Word::MemoBang { memo, .. } => memo < bound,
        Word::MemoBangAt { memo, .. } => memo < bound,
        Word::Delegate { target, .. } => target < bound,
        _ => true,
    }
}

/// A well-formed arena: every word refers only to earlier words, so that
/// execution by index always descends.
pub open spec fn arena_wf(ws: Seq<Word>) -> bool {
    forall|i: int| 0 <= i < ws.len() ==> word_refs_below(#[trigger] ws[i], i)
}

/// The arena of words. Words are only ever added or, for a memo's cache,
/// updated in place; indices stay valid forever.
#[derive(Debug)]
pub struct WordArena {
    pub words: Vec<Word>,
}

impl View for WordArena {
    type V = Seq<Word>;

    open spec fn view(&self) -> Seq<Word> {
        self.words@
    }
}

impl WordArena {
    /// An empty arena.
    pub fn new() -> (r: Self)
        ensures
            r@.len() == 0,
            arena_wf(r@),
    {
        WordArena { words: Vec::new() }
    }

    /// The number of words.
    pub fn len(&self) -> (r: usize)
        ensures
            r == self@.len(),
    {
        self.words.len()
    }

    /// The word at an index.
    pub fn get(&self, idx: usize) -> (r: &Word)
        requires
            idx < self@.len(),
        ensures
            r == &self@[idx as int],
    {
        &self.words[idx]
    }

    /// Allocate a word and return its index. The word may refer only to
    /// words already in the arena.
    pub fn intern(&mut self, w: Word) -> (idx: usize)
        requires
            word_refs_below(w, old(self)@.len() as int),
        ensures
            idx == old(self)@.len(),
            final(self)@ == old(self)@.push(w),
            arena_wf(old(self)@) ==> arena_wf(final(self)@),
    {
        let idx = self.words.len();
        self.words.push(w);
        proof {
            if arena_wf(old(self)@) {
                assert forall|i: int|
                    0 <= i < self@.len() implies word_refs_below(#[trigger] self@[i], i) by {
                    if i < old(self)@.len() {
                        assert(self@[i] == old(self)@[i]);
                    }
                }
            }
        }
        idx
    }

    /// Overwrite a memo word's cache. Only the cache changes: the word
    /// keeps its name and target, and every other word stays as it was.
    pub fn set_memo_cache(&mut self, idx: usize, cache: Option<ForthicValue>)
        requires
            idx < old(self)@.len(),
            old(self)@[idx as int] is Memo,
        ensures
            final(self)@.len() == old(self)@.len(),
            final(self)@[idx as int] matches Word::Memo { name, target, cache: c2 }
                && (old(self)@[idx as int] matches Word::Memo { name: n0, target: t0, .. }
                ==> (name == n0 && target == t0)) && c2 == cache,
            forall|i: int|
                0 <= i < old(self)@.len() && i != idx ==> final(self)@[i] == old(self)@[i],
            arena_wf(old(self)@) ==> arena_wf(final(self)@),
    {
        let (name, target) = match &self.words[idx] {
            Word::Memo { name, target, .. } => (name.clone(), *target),
            _ => {
                proof {
                    assert(false);
                }
                (String::new(), 0usize)
            },
        };
        let ghost n0 = match old(self)@[idx as int] {
            Word::Memo { name, .. } => name,
            _ => arbitrary(),
        };
        proof {
            assert(name == n0);
        }
        self.words.set(idx, Word::Memo { name, target, cache });
        proof {
            if arena_wf(old(self)@) {
                assert forall|i: int|
                    0 <= i < self@.len() implies word_refs_below(#[trigger] self@[i], i) by {
                    if i != idx {
                        assert(self@[i] == old(self)@[i]);
                    } else {
                        assert(word_refs_below(old(self)@[i], i));
                    }
                }
            }
        }
    }
}

/// The mathematical model of a module: names and code as character
/// sequences, word indices, variables as name-value pairs, and submodules
/// recursively.
pub ghost struct ModuleSpec {
    pub name: Seq<char>,
    pub words: Seq<usize>,
    pub exportable: Seq<Seq<char>>,
    pub variables: Seq<(Seq<char>, ValueSpec)>,
    pub modules: Seq<(Seq<char>, ModuleSpec)>,
    pub prefixes: Seq<(Seq<char>, Seq<char>)>,
    pub forthic_code: Seq<char>,
}

/// A namespace: an ordered, append-only word list (lookup scans the most
/// recent first, so later definitions shadow earlier ones), an exportable
/// name list, variables, registered submodules with their import
/// prefixes, and the module's own source text.
#[derive(Debug)]
pub struct Module {
    pub name: String,
    pub words: Vec<usize>,
    pub exportable: Vec<String>,
    pub variables: Vec<Variable>,
    pub modules: Vec<(String, Module)>,
    pub module_prefixes: Vec<(String, String)>,
    pub forthic_code: String,
}

/// The model of a name list.
pub open spec fn names_view(s: Seq<String>) -> Seq<Seq<char>> {
    s.map_values(|n: String| n@)
}

/// The model of a variable list.
pub open spec fn vars_view(s: Seq<Variable>) -> Seq<(Seq<char>, ValueSpec)> {
    s.map_values(|v: Variable| (v.name@, value_view(v.value)))
}

/// The model of a prefix list.
pub open spec fn prefixes_view(s: Seq<(String, String)>) -> Seq<(Seq<char>, Seq<char>)> {
    s.map_values(|p: (String, String)| (p.0@, p.1@))
}

/// The model of a module.
pub open spec fn module_view(m: Module) -> ModuleSpec
    decreases m,
{
    ModuleSpec {
        name: m.name@,
        words: m.words@,
        exportable: names_view(m.exportable@),
        variables: vars_view(m.variables@),
        modules: submodules_view(m.modules@),
        prefixes: prefixes_view(m.module_prefixes@),
        forthic_code: m.forthic_code@,
    }
}

/// The model of a submodule list.
pub open spec fn submodules_view(s: Seq<(String, Module)>) -> Seq<(Seq<char>, ModuleSpec)>
    decreases s,
{
    if s.len() == 0 {
        Seq::empty()
    } else {
        submodules_view(s.drop_last()).push((s.last().0@, module_view(s.last().1)))
    }
}

impl View for Module {
    type V = ModuleSpec;

    open spec fn view(&self) -> ModuleSpec {
        module_view(*self)
    }
}

/// The model of a submodule list has the same length, entry by entry.
pub proof fn lemma_submodules_view(s: Seq<(String, Module)>)
    ensures
        submodules_view(s).len() == s.len(),
        forall|i: int|
            0 <= i < s.len() ==> #[trigger] submodules_view(s)[i] == (s[i].0@, module_view(
                s[i].1,
            )),
    decreases s,
{
    if s.len() > 0 {
        lemma_submodules_view(s.drop_last());
        assert(forall|i: int| 0 <= i < s.len() - 1 ==> #[trigger] s.drop_last()[i] == s[i]);
    }
}

/// Whether every word index of the list lies inside an arena of the given
/// length.
pub open spec fn words_ok(words: Seq<usize>, alen: int) -> bool {
    forall|i: int| 0 <= i < words.len() ==> (#[trigger] words[i]) < alen
}

/// Whether the variables of the model have pairwise distinct names.
pub open spec fn vars_unique(vars: Seq<(Seq<char>, ValueSpec)>) -> bool {
    forall|i: int, j: int|
        0 <= i < j < vars.len() ==> (#[trigger] vars[i]).0 != (#[trigger] vars[j]).0
}

/// A well-formed module relative to an arena: every word index in it and
/// in its submodules is inside the arena, and variable names are unique.
pub open spec fn module_wf(m: ModuleSpec, alen: int) -> bool
    decreases m,
{
    &&& words_ok(m.words, alen)
    &&& vars_unique(m.variables)
    &&& forall|i: int|
        0 <= i < m.modules.len() ==> module_wf((#[trigger] m.modules[i]).1, alen)
}

/// A registered module stays registered when more modules are
/// registered.
pub proof fn lemma_find_module_push(
    mods: Seq<(Seq<char>, ModuleSpec)>,
    x: (Seq<char>, ModuleSpec),
    name: Seq<char>,
)
    requires
        spec_find_module(mods, name) is Some,
    ensures
        spec_find_module(mods.push(x), name) is Some,
{
    if x.0 == name {
    } else {
        assert(mods.push(x).drop_last() =~= mods);
    }
}

/// A submodule that lookup finds is as well formed as the list it came
/// from.
pub proof fn lemma_find_module_wf(mods: Seq<(Seq<char>, ModuleSpec)>, name: Seq<char>, alen: int)
    requires
        forall|i: int| 0 <= i < mods.len() ==> module_wf((#[trigger] mods[i]).1, alen),
        spec_find_module(mods, name) is Some,
    ensures
        module_wf(spec_find_module(mods, name)->Some_0, alen),
    decreases mods.len(),
{
    if mods.len() > 0 {
        if mods.last().0 == name {
        } else {
            assert(forall|i: int|
                0 <= i < mods.len() - 1 ==> #[trigger] mods.drop_last()[i] == mods[i]);
            lemma_find_module_wf(mods.drop_last(), name, alen);
        }
    }
}

/// A module whose only change is one more well-formed submodule stays
/// well formed.
pub proof fn lemma_submodules_push_wf(m0: ModuleSpec, m1: ModuleSpec, alen: int)
    requires
        module_wf(m0, alen),
        m1.words == m0.words,
        m1.variables == m0.variables,
        m1.modules.len() == m0.modules.len() + 1,
        forall|i: int| 0 <= i < m0.modules.len() ==> m1.modules[i] == m0.modules[i],
        module_wf(m1.modules.last().1, alen),
    ensures
        module_wf(m1, alen),
{
    assert forall|i: int|
        0 <= i < m1.modules.len() implies module_wf((#[trigger] m1.modules[i]).1, alen) by {
        if i < m0.modules.len() {
            assert(m1.modules[i] == m0.modules[i]);
        } else {
            assert(m1.modules[i] == m1.modules.last());
        }
    }
}

/// Well-formedness survives arena growth.
pub proof fn lemma_module_wf_grow(m: ModuleSpec, a1: int, a2: int)
    requires
        module_wf(m, a1),
        a1 <= a2,
    ensures
        module_wf(m, a2),
    decreases m,
{
    assert forall|i: int|
        0 <= i < m.modules.len() implies module_wf((#[trigger] m.modules[i]).1, a2) by {
        lemma_module_wf_grow(m.modules[i].1, a1, a2);
    }
}

/// Dictionary lookup: the most recently added word with the name, if any.
pub open spec fn spec_find_dictionary(words: Seq<usize>, arena: Seq<Word>, name: Seq<char>)
    -> Option<usize>
    decreases words,
{
    if words.len() == 0 {
        None
    } else if word_name_spec(arena[words.last() as int]) == name {
        Some(words.last())
    } else {
        spec_find_dictionary(words.drop_last(), arena, name)
    }
}

/// The position of the first variable with the name, if any.
pub open spec fn spec_var_index(vars: Seq<(Seq<char>, ValueSpec)>, name: Seq<char>) -> Option<int>
    decreases vars.len(),
{
    if vars.len() == 0 {
        None
    } else if vars[0].0 == name {
        Some(0int)
    } else {
        match spec_var_index(vars.skip(1), name) {
            Some(i) => Some(i + 1),
            None => None,
        }
    }
}

/// Overwriting a variable: the first entry with the name is replaced, or
/// a new entry is appended.
pub open spec fn spec_set_var(
    vars: Seq<(Seq<char>, ValueSpec)>,
    name: Seq<char>,
    value: ValueSpec,
) -> Seq<(Seq<char>, ValueSpec)> {
    match spec_var_index(vars, name) {
        Some(i) => vars.update(i, (name, value)),
        None => vars.push((name, value)),
    }
}

/// Creating a variable: a new entry holding `Null`-like `value` is
/// appended unless the name exists.
pub open spec fn spec_add_var(
    vars: Seq<(Seq<char>, ValueSpec)>,
    name: Seq<char>,
    value: ValueSpec,
) -> Seq<(Seq<char>, ValueSpec)> {
    if spec_find_variable(vars, name) is Some {
        vars
    } else {
        vars.push((name, value))
    }
}

/// A dictionary hit is one of the module's word indices, so it lies in
/// the arena.
pub proof fn lemma_find_dictionary_in_range(
    words: Seq<usize>,
    arena: Seq<Word>,
    name: Seq<char>,
    alen: int,
)
    requires
        words_ok(words, alen),
        spec_find_dictionary(words, arena, name) is Some,
    ensures
        spec_find_dictionary(words, arena, name)->Some_0 < alen,
    decreases words.len(),
{
    if words.len() > 0 {
        if word_name_spec(arena[words.last() as int]) == name {
        } else {
            assert(forall|i: int|
                0 <= i < words.len() - 1 ==> #[trigger] words.drop_last()[i] == words[i]);
            lemma_find_dictionary_in_range(words.drop_last(), arena, name, alen);
        }
    }
}

/// Variable lookup: the variable with the name, if any.
pub open spec fn spec_find_variable(vars: Seq<(Seq<char>, ValueSpec)>, name: Seq<char>)
    -> Option<ValueSpec>
    decreases vars,
{
    if vars.len() == 0 {
        None
    } else if vars.last().0 == name {
        Some(vars.last().1)
    } else {
        spec_find_variable(vars.drop_last(), name)
    }
}

impl Module {
    /// A fresh, empty module with the given name.
    pub fn new(name: String) -> (r: Self)
        ensures
            r@ == (ModuleSpec {
                name: name@,
                words: Seq::empty(),
                exportable: Seq::empty(),
                variables: Seq::empty(),
                modules: Seq::empty(),
                prefixes: Seq::empty(),
                forthic_code: Seq::<char>::empty(),
            }),
    {
        let r = Self {
            name,
            words: Vec::new(),
            exportable: Vec::new(),
            variables: Vec::new(),
            modules: Vec::new(),
            module_prefixes: Vec::new(),
            forthic_code: String::new(),
        };
        proof {
            assert(names_view(r.exportable@) =~= Seq::<Seq<char>>::empty());
            assert(vars_view(r.variables@) =~= Seq::<(Seq<char>, ValueSpec)>::empty());
            assert(prefixes_view(r.module_prefixes@) =~= Seq::<(Seq<char>, Seq<char>)>::empty());
        }
        r
    }

    /// A fresh module that carries its own source text.
    pub fn new_with_code(name: String, forthic_code: String) -> (r: Self)
        ensures
            r@ == (ModuleSpec {
                name: name@,
                words: Seq::empty(),
                exportable: Seq::empty(),
                variables: Seq::empty(),
                modules: Seq::empty(),
                prefixes: Seq::empty(),
                forthic_code: forthic_code@,
            }),
    {
        let mut r = Module::new(name);
        r.forthic_code = forthic_code;
        r
    }

    /// The module's name.
    pub fn get_name(&self) -> (r: &str)
        ensures
            r@ == self@.name,
    {
        self.name.as_str()
    }

    /// Replace the module's source text.
    pub fn set_forthic_code(&mut self, code: String)
        ensures
            final(self)@ == (ModuleSpec { forthic_code: code@, ..old(self)@ }),
    {
        self.forthic_code = code;
    }

    /// The module's source text.
    pub fn get_forthic_code(&self) -> (r: &str)
        ensures
            r@ == self@.forthic_code,
    {
        self.forthic_code.as_str()
    }

    /// Append a word to the dictionary. Later words with the same name
    /// shadow earlier ones; nothing is ever deleted.
    pub fn add_word(&mut self, word: usize)
        ensures
            final(self)@ == (ModuleSpec { words: old(self)@.words.push(word), ..old(self)@ }),
    {
        self.words.push(word);
    }

    /// Append names to the exportable list.
    pub fn add_exportable(&mut self, names: Vec<String>)
        ensures
            final(self)@ == (ModuleSpec {
                exportable: old(self)@.exportable + names_view(names@),
                ..old(self)@
            }),
    {
        let mut i: usize = 0;
        while i < names.len()
            invariant
                i <= names@.len(),
                self.name == old(self).name,
                self.words == old(self).words,
                self.variables == old(self).variables,
                self.modules == old(self).modules,
                self.module_prefixes == old(self).module_prefixes,
                self.forthic_code == old(self).forthic_code,
                names_view(self.exportable@) =~= names_view(old(self).exportable@) + names_view(
                    names@.take(i as int),
                ),
            decreases names@.len() - i,
        {
            let name = names[i].clone();
            let ghost gname = name@;
            let ghost e0 = self.exportable@;
            self.exportable.push(name);
            i = i + 1;
            proof {
                assert(gname == names@[i - 1]@);
                assert(names_view(self.exportable@) =~= names_view(e0).push(gname));
                assert(names_view(names@.take(i as int)) =~= names_view(
                    names@.take(i - 1),
                ).push(gname));
                assert(names_view(old(self).exportable@) + names_view(names@.take(i as int))
                    =~= (names_view(old(self).exportable@) + names_view(
                    names@.take(i - 1),
                )).push(gname));
                assert(names_view(self.exportable@) =~= names_view(old(self).exportable@)
                    + names_view(names@.take(i as int)));
            }
        }
        proof {
            assert(names@.take(names@.len() as int) =~= names@);
        }
    }

    /// Append a word to the dictionary and mark its name exportable.
    pub fn add_exportable_word(&mut self, arena: &WordArena, word: usize)
        requires
            word < arena@.len(),
        ensures
            final(self)@ == (ModuleSpec {
                words: old(self)@.words.push(word),
                exportable: old(self)@.exportable.push(word_name_spec(arena@[word as int])),
                ..old(self)@
            }),
    {
        let name = word_name(arena.get(word)).to_owned();
        let ghost gname = name@;
        self.words.push(word);
        self.exportable.push(name);
        proof {
            assert(names_view(self.exportable@) =~= names_view(old(self).exportable@).push(
                gname,
            ));
        }
    }

    /// Find the most recently added dictionary word with this name.
    pub fn find_dictionary_word(&self, arena: &WordArena, name: &str) -> (r: Option<usize>)
        requires
            words_ok(self@.words, arena@.len() as int),
        ensures
            r == spec_find_dictionary(self@.words, arena@, name@),
    {
        let mut i: usize = self.words.len();
        proof {
            assert(self@.words.take(self@.words.len() as int) =~= self@.words);
        }
        while i > 0
            invariant
                i <= self@.words.len(),
                words_ok(self@.words, arena@.len() as int),
                spec_find_dictionary(self@.words, arena@, name@) == spec_find_dictionary(
                    self@.words.take(i as int),
                    arena@,
                    name@,
                ),
            decreases i,
        {
            i = i - 1;
            let idx = self.words[i];
            let ghost pre = self@.words.take(i + 1);
            proof {
                assert(pre.last() == idx);
                assert(pre.drop_last() =~= self@.words.take(i as int));
            }
            if streq(word_name(arena.get(idx)), name) {
                return Some(idx);
            }
        }
        proof {
            assert(self@.words.take(0) =~= Seq::<usize>::empty());
        }
        None
    }

    /// Find a variable's value by name.
    pub fn get_variable(&self, name: &str) -> (r: Option<&Variable>)
        ensures
            match r {
                Some(v) => spec_find_variable(self@.variables, name@) == Some(value_view(v.value))
                    && v.name@ == name@,
                None => spec_find_variable(self@.variables, name@) is None,
            },
    {
        let mut i: usize = self.variables.len();
        proof {
            lemma_vars_view(self.variables@);
            assert(self@.variables.take(self@.variables.len() as int) =~= self@.variables);
        }
        while i > 0
            invariant
                i <= self@.variables.len(),
                vars_view(self.variables@) == self@.variables,
                self@.variables.len() == self.variables@.len(),
                forall|j: int|
                    0 <= j < self.variables@.len() ==> #[trigger] vars_view(self.variables@)[j]
                        == (self.variables@[j].name@, value_view(self.variables@[j].value)),
                spec_find_variable(self@.variables, name@) == spec_find_variable(
                    self@.variables.take(i as int),
                    name@,
                ),
            decreases i,
        {
            i = i - 1;
            let ghost pre = self@.variables.take(i + 1);
            proof {
                assert(pre.last() == self@.variables[i as int]);
                assert(pre.drop_last() =~= self@.variables.take(i as int));
            }
            if streq(self.variables[i].name.as_str(), name) {
                return Some(&self.variables[i]);
            }
        }
        proof {
            assert(self@.variables.take(0) =~= Seq::<(Seq<char>, ValueSpec)>::empty());
        }
        None
    }

    /// Create a variable unless one with the name exists; an existing
    /// variable keeps its value.
    pub fn add_variable(&mut self, name: String, value: ForthicValue)
        ensures
            spec_find_variable(old(self)@.variables, name@) is Some ==> final(self)@ == old(
                self,
            )@,
            spec_find_variable(old(self)@.variables, name@) is None ==> final(self)@
                == (ModuleSpec {
                variables: old(self)@.variables.push((name@, value_view(value))),
                ..old(self)@
            }),
    {
        if self.get_variable(name.as_str()).is_none() {
            proof {
                lemma_vars_view(self.variables@);
            }
            self.variables.push(Variable { name, value });
            proof {
                lemma_vars_view(self.variables@);
                assert(vars_view(self.variables@) =~= vars_view(old(self).variables@).push(
                    (self.variables@.last().name@, value_view(self.variables@.last().value)),
                ));
            }
        }
    }

    /// Overwrite a variable's value; creates the variable if it did not
    /// exist.
    #[verifier::loop_isolation(false)]
    pub fn set_variable(&mut self, name: String, value: ForthicValue)
        requires
            vars_unique(old(self)@.variables),
        ensures
            spec_find_variable(final(self)@.variables, name@) == Some(value_view(value)),
            final(self)@.name == old(self)@.name,
            final(self)@.words == old(self)@.words,
            final(self)@.exportable == old(self)@.exportable,
            final(self)@.modules == old(self)@.modules,
            final(self)@.prefixes == old(self)@.prefixes,
            final(self)@.forthic_code == old(self)@.forthic_code,
            vars_unique(final(self)@.variables),
            final(self)@.variables == spec_set_var(old(self)@.variables, name@, value_view(
                value,
            )),
            forall|n: Seq<char>|
                n != name@ ==> #[trigger] spec_find_variable(final(self)@.variables, n)
                    == spec_find_variable(old(self)@.variables, n),
    {
        let ghost gname = name@;
        let ghost gval = value_view(value);
        let mut i: usize = 0;
        let n = self.variables.len();
        proof {
            lemma_vars_view(self.variables@);
        }
        while i < n
            invariant
                i <= n,
                n == self.variables@.len(),
                *self == *old(self),
                forall|j: int| 0 <= j < i ==> (#[trigger] self.variables@[j]).name@ != gname,
                gname == name@,
            decreases n - i,
        {
            if streq(self.variables[i].name.as_str(), name.as_str()) {
                let ghost vpre = self.variables@;
                let var = Variable { name, value };
                let ghost gvar = var;
                self.variables.set(i, var);
                proof {
                    assert(vpre == old(self).variables@);
                    assert(self.variables@ == vpre.update(i as int, gvar));
                    assert(gvar.name@ == gname);
                    assert(value_view(gvar.value) == gval);
                    lemma_vars_view(old(self).variables@);
                    lemma_vars_view(self.variables@);
                    let a = vars_view(old(self).variables@);
                    let b = vars_view(self.variables@);
                    assert forall|j: int|
                        0 <= j < b.len() implies b[j] == a.update(i as int, (gname, gval))[j] by {
                        if j != i {
                            assert(self.variables@[j] == old(self).variables@[j]);
                        }
                    }
                    assert(b =~= a.update(i as int, (gname, gval)));
                    assert(a[i as int].0 == gname);
                    assert(old(self)@.variables == a);
                    lemma_find_variable_update(a, b, i as int, gname, gval);
                    lemma_var_index_at(a, i as int, gname);
                }
                return;
            }
            i = i + 1;
        }
        self.variables.push(Variable { name, value });
        proof {
            lemma_vars_view(old(self).variables@);
            lemma_vars_view(self.variables@);
            let a = vars_view(old(self).variables@);
            let b = vars_view(self.variables@);
            assert(self.variables@ == old(self).variables@.push(self.variables@.last()));
            assert(self.variables@.last().name@ == gname);
            assert(value_view(self.variables@.last().value) == gval);
            assert forall|j: int| 0 <= j < b.len() implies b[j] == a.push((gname, gval))[j] by {
                if j < a.len() {
                    assert(self.variables@[j] == old(self).variables@[j]);
                }
            }
            assert(b =~= a.push((gname, gval)));
            assert(forall|j: int| 0 <= j < a.len() ==> (#[trigger] a[j]).0 != gname);
            assert(old(self)@.variables == a);
            lemma_find_variable_push(a, gname, gval);
            lemma_var_index_missing(a, gname);
        }
    }
}

/// Updating the entry holding a name changes exactly that name's lookup.
proof fn lemma_find_variable_update(
    a: Seq<(Seq<char>, ValueSpec)>,
    b: Seq<(Seq<char>, ValueSpec)>,
    i: int,
    name: Seq<char>,
    value: ValueSpec,
)
    requires
        0 <= i < a.len(),
        b == a.update(i, (name, value)),
        a[i].0 == name,
        vars_unique(a),
    ensures
        spec_find_variable(b, name) == Some(value),
        vars_unique(b),
        forall|n: Seq<char>|
            n != name ==> #[trigger] spec_find_variable(b, n) == spec_find_variable(a, n),
    decreases a.len(),
{
    assert(b.len() == a.len());
    assert(forall|j: int| 0 <= j < a.len() && j != i ==> #[trigger] b[j] == a[j]);
    assert(b[i] == (name, value));
    assert forall|j: int| 0 <= j < a.len() implies (#[trigger] b[j]).0 == a[j].0 by {
        if j == i {
        }
    }
    assert forall|j: int, k: int|
        0 <= j < k < b.len() implies (#[trigger] b[j]).0 != (#[trigger] b[k]).0 by {
        assert(b[j].0 == a[j].0);
        assert(b[k].0 == a[k].0);
    }
    if i == a.len() - 1 {
        assert(b.last() == (name, value));
        assert(b.drop_last() =~= a.drop_last());
        assert(a.last().0 == name);
        assert forall|n: Seq<char>|
            n != name implies #[trigger] spec_find_variable(b, n) == spec_find_variable(
            a,
            n,
        ) by {}
    } else {
        assert(a.last().0 != name) by {
            assert(a[i].0 == name);
            assert(a[a.len() - 1].0 == a.last().0);
        }
        assert(b.last() == a.last());
        assert(b.drop_last() =~= a.drop_last().update(i, (name, value)));
        assert(a.drop_last()[i] == a[i]);
        assert(vars_unique(a.drop_last())) by {
            assert(forall|j: int|
                0 <= j < a.len() - 1 ==> #[trigger] a.drop_last()[j] == a[j]);
        }
        lemma_find_variable_update(a.drop_last(), b.drop_last(), i, name, value);
        assert(spec_find_variable(b, name) == Some(value));
        assert forall|n: Seq<char>|
            n != name implies #[trigger] spec_find_variable(b, n) == spec_find_variable(
            a,
            n,
        ) by {
            if b.last().0 != n {
                assert(spec_find_variable(b.drop_last(), n) == spec_find_variable(
                    a.drop_last(),
                    n,
                ));
            }
        }
    }
}

/// The first match from the front is the variable index.
proof fn lemma_var_index_at(a: Seq<(Seq<char>, ValueSpec)>, i: int, name: Seq<char>)
    requires
        0 <= i < a.len(),
        a[i].0 == name,
        forall|j: int| 0 <= j < i ==> (#[trigger] a[j]).0 != name,
    ensures
        spec_var_index(a, name) == Some(i),
    decreases a.len(),
{
    if i == 0 {
    } else {
        assert(a[0].0 != name);
        assert(forall|j: int| 0 <= j < a.skip(1).len() ==> #[trigger] a.skip(1)[j] == a[j + 1]);
        lemma_var_index_at(a.skip(1), i - 1, name);
    }
}

/// Without a match there is no variable index.
proof fn lemma_var_index_missing(a: Seq<(Seq<char>, ValueSpec)>, name: Seq<char>)
    requires
        forall|j: int| 0 <= j < a.len() ==> (#[trigger] a[j]).0 != name,
    ensures
        spec_var_index(a, name) is None,
    decreases a.len(),
{
    if a.len() > 0 {
        assert(forall|j: int| 0 <= j < a.skip(1).len() ==> #[trigger] a.skip(1)[j] == a[j + 1]);
        lemma_var_index_missing(a.skip(1), name);
    }
}

/// Appending a fresh variable makes its name resolvable and leaves every
/// other name's lookup unchanged.
proof fn lemma_find_variable_push(a: Seq<(Seq<char>, ValueSpec)>, name: Seq<char>, value: ValueSpec)
    requires
        forall|j: int| 0 <= j < a.len() ==> (#[trigger] a[j]).0 != name,
        vars_unique(a),
    ensures
        spec_find_variable(a.push((name, value)), name) == Some(value),
        vars_unique(a.push((name, value))),
        forall|n: Seq<char>|
            n != name ==> #[trigger] spec_find_variable(a.push((name, value)), n)
                == spec_find_variable(a, n),
{
    let b = a.push((name, value));
    assert(b.last() == (name, value));
    assert(b.drop_last() =~= a);
    assert(forall|j: int| 0 <= j < a.len() ==> #[trigger] b[j] == a[j]);
}

/// The model of a variable list has the same length, entry by entry.
pub proof fn lemma_vars_view(s: Seq<Variable>)
    ensures
        vars_view(s).len() == s.len(),
        forall|i: int|
            0 <= i < s.len() ==> #[trigger] vars_view(s)[i] == ((s[i]).name@, value_view(
                s[i].value,
            )),
{
}

/// The name of a word.
/// Submodule lookup: the most recently registered module under the name.
pub open spec fn spec_find_module(mods: Seq<(Seq<char>, ModuleSpec)>, name: Seq<char>) -> Option<
    ModuleSpec,
>
    decreases mods,
{
    if mods.len() == 0 {
        None
    } else if mods.last().0 == name {
        Some(mods.last().1)
    } else {
        spec_find_module(mods.drop_last(), name)
    }
}

/// Whether a name list contains a name.
pub open spec fn names_contain(names: Seq<Seq<char>>, name: Seq<char>) -> bool {
    exists|i: int| 0 <= i < names.len() && names[i] == name
}

/// The exportable words of a module, in dictionary order: the word
/// indices whose names stand in the exportable list.
pub open spec fn spec_exportable(
    words: Seq<usize>,
    exportable: Seq<Seq<char>>,
    arena: Seq<Word>,
) -> Seq<usize>
    decreases words,
{
    if words.len() == 0 {
        Seq::empty()
    } else {
        let rest = spec_exportable(words.drop_last(), exportable, arena);
        if names_contain(exportable, word_name_spec(arena[words.last() as int])) {
            rest.push(words.last())
        } else {
            rest
        }
    }
}

/// Exportable words are drawn from the dictionary, so they stay inside
/// the arena.
pub proof fn lemma_exportable_in_range(
    words: Seq<usize>,
    exportable: Seq<Seq<char>>,
    arena: Seq<Word>,
    alen: int,
)
    requires
        words_ok(words, alen),
    ensures
        forall|k: int|
            0 <= k < spec_exportable(words, exportable, arena).len() ==> (#[trigger] spec_exportable(
                words,
                exportable,
                arena,
            )[k]) < alen,
    decreases words.len(),
{
    if words.len() > 0 {
        assert(forall|i: int|
            0 <= i < words.len() - 1 ==> #[trigger] words.drop_last()[i] == words[i]);
        lemma_exportable_in_range(words.drop_last(), exportable, arena, alen);
        let rest = spec_exportable(words.drop_last(), exportable, arena);
        if names_contain(exportable, word_name_spec(arena[words.last() as int])) {
            assert(spec_exportable(words, exportable, arena) == rest.push(words.last()));
        }
    }
}

/// The model of duplicating a module: words, exportable names and
/// submodules are shared, variables are copied, and the prefix record is
/// not carried over.
pub open spec fn dup_view(m: ModuleSpec) -> ModuleSpec {
    ModuleSpec { prefixes: Seq::empty(), ..m }
}

impl Module {
    /// Find a word in this module: dictionary words first, most recent
    /// first, then variables. A variable hit allocates a fresh word that
    /// pushes the variable's current value.
    pub fn find_word(&self, arena: &mut WordArena, name: &str) -> (r: Option<usize>)
        requires
            words_ok(self@.words, old(arena)@.len() as int),
        ensures
            match spec_find_dictionary(self@.words, old(arena)@, name@) {
                Some(i) => r == Some(i) && *final(arena) == *old(arena),
                None => match spec_find_variable(self@.variables, name@) {
                    Some(v) => (r matches Some(i2) && i2 == old(arena)@.len()) && final(arena)@.len() == old(arena)@.len() + 1 && (final(arena)@.last() matches
                        Word::PushValue {
                        name: wn,
                        value,
                        location,
                    } && wn@ == name@ && value_view(value) == v && location is None)
                        && final(arena)@.drop_last() == old(arena)@,
                    None => r is None && *final(arena) == *old(arena),
                },
            },
            arena_wf(old(arena)@) ==> arena_wf(final(arena)@),
    {
        match self.find_dictionary_word(arena, name) {
            Some(i) => Some(i),
            None => self.find_variable(arena, name),
        }
    }

    /// Find a variable and allocate a word pushing its current value.
    pub fn find_variable(&self, arena: &mut WordArena, name: &str) -> (r: Option<usize>)
        ensures
            match spec_find_variable(self@.variables, name@) {
                Some(v) => (r matches Some(i2) && i2 == old(arena)@.len()) && final(arena)@.len() == old(arena)@.len() + 1 && (final(arena)@.last() matches Word::PushValue {
                    name: wn,
                    value,
                    location,
                } && wn@ == name@ && value_view(value) == v && location is None)
                    && final(arena)@.drop_last() == old(arena)@,
                None => r is None && *final(arena) == *old(arena),
            },
            arena_wf(old(arena)@) ==> arena_wf(final(arena)@),
    {
        match self.get_variable(name) {
            Some(var) => {
                let value = var.get_value().clone();
                let word = Word::PushValue { name: name.to_owned(), value, location: None };
                let idx = arena.intern(word);
                proof {
                    assert(final(arena)@.drop_last() =~= old(arena)@);
                }
                Some(idx)
            },
            None => None,
        }
    }

    /// Find a registered submodule by name.
    pub fn find_module(&self, name: &str) -> (r: Option<&Module>)
        ensures
            match r {
                Some(m) => spec_find_module(self@.modules, name@) == Some(m@),
                None => spec_find_module(self@.modules, name@) is None,
            },
    {
        let mut i: usize = self.modules.len();
        proof {
            lemma_submodules_view(self.modules@);
            assert(self@.modules.take(self@.modules.len() as int) =~= self@.modules);
        }
        while i > 0
            invariant
                i <= self@.modules.len(),
                self@.modules.len() == self.modules@.len(),
                forall|j: int|
                    0 <= j < self.modules@.len() ==> #[trigger] submodules_view(self.modules@)[j]
                        == (self.modules@[j].0@, module_view(self.modules@[j].1)),
                self@.modules == submodules_view(self.modules@),
                spec_find_module(self@.modules, name@) == spec_find_module(
                    self@.modules.take(i as int),
                    name@,
                ),
            decreases i,
        {
            i = i - 1;
            let ghost pre = self@.modules.take(i + 1);
            proof {
                assert(pre.last() == self@.modules[i as int]);
                assert(pre.drop_last() =~= self@.modules.take(i as int));
            }
            if streq(self.modules[i].0.as_str(), name) {
                return Some(&self.modules[i].1);
            }
        }
        proof {
            assert(self@.modules.take(0) =~= Seq::<(Seq<char>, ModuleSpec)>::empty());
        }
        None
    }

    /// Register a module under a name, recording the prefix it was
    /// imported with. A later registration under the same name shadows an
    /// earlier one.
    pub fn register_module(&mut self, module_name: String, prefix: String, module: Module)
        ensures
            final(self)@ == (ModuleSpec {
                modules: old(self)@.modules.push((module_name@, module@)),
                prefixes: old(self)@.prefixes.push((module_name@, prefix@)),
                ..old(self)@
            }),
    {
        let ghost gname = module_name@;
        let ghost gmod = module@;
        let ghost gprefix = prefix@;
        let name_for_prefix = module_name.clone();
        self.modules.push((module_name, module));
        self.module_prefixes.push((name_for_prefix, prefix));
        proof {
            lemma_submodules_view(self.modules@);
            lemma_submodules_view(old(self).modules@);
            assert(submodules_view(self.modules@) =~= submodules_view(old(self).modules@).push(
                (gname, gmod),
            ));
            assert(prefixes_view(self.module_prefixes@) =~= prefixes_view(
                old(self).module_prefixes@,
            ).push((gname, gprefix)));
        }
    }

    /// Add a memoized word over a target word, together with its two
    /// refresh variants: `NAME` caches lazily, `NAME!` refreshes without
    /// pushing, and `NAME!@` refreshes and pushes. Returns the index of
    /// the memo word.
    pub fn add_memo_words(&mut self, arena: &mut WordArena, target: usize) -> (r: usize)
        requires
            target < old(arena)@.len(),
        ensures
            r == old(arena)@.len(),
            final(arena)@.len() == old(arena)@.len() + 3,
            forall|i: int| 0 <= i < old(arena)@.len() ==> final(arena)@[i] == old(arena)@[i],
            (final(arena)@[r as int] matches Word::Memo { name, target: t, cache } && name@
                == word_name_spec(old(arena)@[target as int]) && t == target && cache is None),
            (final(arena)@[r + 1] matches Word::MemoBang { name, memo } && name@
                == word_name_spec(old(arena)@[target as int]) + "!"@ && memo == r),
            (final(arena)@[r + 2] matches Word::MemoBangAt { name, memo } && name@
                == word_name_spec(old(arena)@[target as int]) + "!@"@ && memo == r),
            final(self)@ == (ModuleSpec {
                words: old(self)@.words + seq![r, (r + 1) as usize, (r + 2) as usize],
                ..old(self)@
            }),
            arena_wf(old(arena)@) ==> arena_wf(final(arena)@),
    {
        let base = word_name(arena.get(target)).to_owned();
        let mut bang = base.clone();
        bang.append("!");
        let mut bang_at = base.clone();
        bang_at.append("!@");
        let memo_idx = arena.intern(Word::Memo { name: base, target, cache: None });
        let bang_idx = arena.intern(Word::MemoBang { name: bang, memo: memo_idx });
        let bang_at_idx = arena.intern(Word::MemoBangAt { name: bang_at, memo: memo_idx });
        self.words.push(memo_idx);
        self.words.push(bang_idx);
        self.words.push(bang_at_idx);
        proof {
            assert(self.words@ =~= old(self).words@ + seq![
                memo_idx,
                bang_idx,
                bang_at_idx,
            ]);
        }
        memo_idx
    }

    /// The exportable words: those dictionary entries whose names stand
    /// in the exportable list, in dictionary order.
    pub fn exportable_words(&self, arena: &WordArena) -> (r: Vec<usize>)
        requires
            words_ok(self@.words, arena@.len() as int),
        ensures
            r@ == spec_exportable(self@.words, self@.exportable, arena@),
            forall|k: int| 0 <= k < r@.len() ==> (#[trigger] r@[k]) < arena@.len(),
    {
        let mut out: Vec<usize> = Vec::new();
        let mut i: usize = 0;
        proof {
            assert(self@.words.take(0) =~= Seq::<usize>::empty());
        }
        while i < self.words.len()
            invariant
                i <= self@.words.len(),
                self@.words.len() == self.words@.len(),
                self@.words == self.words@,
                self@.exportable == names_view(self.exportable@),
                words_ok(self@.words, arena@.len() as int),
                out@ == spec_exportable(self@.words.take(i as int), self@.exportable, arena@),
                forall|k: int| 0 <= k < out@.len() ==> (#[trigger] out@[k]) < arena@.len(),
            decreases self.words@.len() - i,
        {
            let idx = self.words[i];
            let nm = word_name(arena.get(idx));
            let is_exp = self.name_is_exportable(nm);
            i = i + 1;
            let ghost pre = self@.words.take(i as int);
            proof {
                assert(pre.last() == idx);
                assert(pre.drop_last() =~= self@.words.take(i - 1));
            }
            if is_exp {
                out.push(idx);
            }
        }
        proof {
            assert(self@.words.take(self@.words.len() as int) =~= self@.words);
        }
        out
    }

    /// Whether a name stands in the exportable list.
    fn name_is_exportable(&self, name: &str) -> (r: bool)
        ensures
            r == names_contain(self@.exportable, name@),
    {
        let mut i: usize = 0;
        while i < self.exportable.len()
            invariant
                i <= self.exportable@.len(),
                self@.exportable == names_view(self.exportable@),
                forall|j: int| 0 <= j < i ==> (#[trigger] names_view(self.exportable@)[j]) != name@,
            decreases self.exportable@.len() - i,
        {
            if streq(self.exportable[i].as_str(), name) {
                proof {
                    assert(names_view(self.exportable@)[i as int] == name@);
                }
                return true;
            }
            i = i + 1;
        }
        false
    }

    /// Duplicate this module: words, exportable names, submodules and
    /// source text are shared, variables are copied so that each
    /// duplicate mutates its own, and the prefix record starts empty.
    pub fn dup(&self) -> (r: Self)
        ensures
            r@ == dup_view(self@),
        decreases *self,
    {
        let mut r = self.clone();
        r.module_prefixes = Vec::new();
        proof {
            assert(prefixes_view(Seq::<(String, String)>::empty()) =~= Seq::<(
                Seq<char>,
                Seq<char>,
            )>::empty());
        }
        r
    }

    /// Import a module: duplicate it, install its exportable words into
    /// this module (directly for an empty prefix, else as `prefix.name`
    /// delegates), and register the duplicate as a submodule under the
    /// prefix. The source module is never changed.
    pub fn import_module(&mut self, arena: &mut WordArena, prefix: &str, module: &Module) -> (r:
        Ghost<Seq<usize>>)
        requires
            words_ok(module@.words, old(arena)@.len() as int),
            arena_wf(old(arena)@),
        ensures
            arena_wf(final(arena)@),
            final(arena)@.len() >= old(arena)@.len(),
            forall|i: int| 0 <= i < old(arena)@.len() ==> final(arena)@[i] == old(arena)@[i],
            r@ == spec_exportable(module@.words, module@.exportable, old(arena)@),
            prefix@.len() == 0 ==> final(arena)@ == old(arena)@ && final(self)@ == (ModuleSpec {
                words: old(self)@.words + r@,
                modules: old(self)@.modules.push((module@.name, dup_view(module@))),
                prefixes: old(self)@.prefixes.push((module@.name, prefix@)),
                ..old(self)@
            }),
            prefix@.len() > 0 ==> final(arena)@.len() == old(arena)@.len() + r@.len()
                && (forall|k: int|
                0 <= k < r@.len() ==> ((#[trigger] final(arena)@[old(arena)@.len() + k]) matches
                    Word::Delegate { name, target } && name@ == prefix@ + "."@ + word_name_spec(
                    old(arena)@[r@[k] as int],
                ) && target == r@[k])) && final(self)@ == (ModuleSpec {
                words: old(self)@.words + Seq::new(r@.len(), |k: int| (old(arena)@.len() + k) as usize),
                modules: old(self)@.modules.push((module@.name, dup_view(module@))),
                prefixes: old(self)@.prefixes.push((module@.name, prefix@)),
                ..old(self)@
            }),
    {
        let new_module = module.dup();
        let exported = new_module.exportable_words(arena);
        let ghost exp = exported@;
        let ghost a0 = arena@;
        let ghost w0 = self@.words;
        let prefix_empty = prefix.is_empty();
        let mut k: usize = 0;
        while k < exported.len()
            invariant
                k <= exp.len(),
                exported@ == exp,
                forall|j: int| 0 <= j < exp.len() ==> (#[trigger] exp[j]) < a0.len(),
                arena_wf(arena@),
                prefix_empty == (prefix@.len() == 0),
                a0 == old(arena)@,
                w0 == old(self)@.words,
                self.name == old(self).name,
                self.exportable == old(self).exportable,
                self.variables == old(self).variables,
                self.modules == old(self).modules,
                self.module_prefixes == old(self).module_prefixes,
                self.forthic_code == old(self).forthic_code,
                prefix_empty ==> arena@ == a0 && self.words@ == w0 + exp.take(k as int),
                !prefix_empty ==> arena@.len() == a0.len() + k && (forall|i: int|
                    0 <= i < a0.len() ==> #[trigger] arena@[i] == a0[i]) && (forall|j: int|
                    0 <= j < k ==> ((#[trigger] arena@[a0.len() + j]) matches Word::Delegate {
                        name,
                        target,
                    } && name@ == prefix@ + "."@ + word_name_spec(a0[exp[j] as int]) && target
                    == exp[j])) && self.words@ == w0 + Seq::new(
                    k as nat,
                    |j: int| (a0.len() + j) as usize,
                ),
            decreases exp.len() - k,
        {
            let idx = exported[k];
            if prefix_empty {
                self.words.push(idx);
                proof {
                    assert(exp.take(k + 1).drop_last() =~= exp.take(k as int));
                    assert(self.words@ =~= w0 + exp.take(k + 1));
                }
            } else {
                let mut dname = prefix.to_owned();
                dname.append(".");
                dname.append(word_name(arena.get(idx)));
                let ghost gdname = dname@;
                let didx = arena.intern(Word::Delegate { name: dname, target: idx });
                self.words.push(didx);
                proof {
                    assert(gdname == prefix@ + "."@ + word_name_spec(a0[idx as int]));
                    assert(self.words@ =~= w0 + Seq::new((k + 1) as nat, |j: int| (a0.len()
                        + j) as usize));
                }
            }
            k = k + 1;
        }
        proof {
            if prefix_empty {
                assert(exp.take(exp.len() as int) =~= exp);
            }
        }
        let module_name = new_module.get_name().to_owned();
        self.register_module(module_name, prefix.to_owned(), new_module);
        Ghost(exp)
    }
}

impl Clone for Module {
    /// A deep copy with the same model.
    #[verifier::loop_isolation(false)]
    fn clone(&self) -> (r: Self)
        ensures
            r@ == self@,
        decreases *self,
    {
        let name = self.name.clone();
        let words = clone_usize_vec(&self.words);
        let exportable = clone_string_vec(&self.exportable);
        let forthic_code = self.forthic_code.clone();
        let mut variables: Vec<Variable> = Vec::new();
        let mut i: usize = 0;
        while i < self.variables.len()
            invariant
                i <= self.variables@.len(),
                variables@.len() == i,
                forall|j: int|
                    0 <= j < i ==> (#[trigger] variables@[j]).name@ == self.variables@[j].name@
                        && value_view(variables@[j].value) == value_view(self.variables@[j].value),
            decreases self.variables@.len() - i,
        {
            let var = self.variables[i].dup();
            variables.push(var);
            i = i + 1;
        }
        let mut modules: Vec<(String, Module)> = Vec::new();
        let mut j: usize = 0;
        while j < self.modules.len()
            invariant
                j <= self.modules@.len(),
                modules@.len() == j,
                forall|k: int|
                    0 <= k < j ==> (#[trigger] modules@[k]).0@ == self.modules@[k].0@
                        && module_view(modules@[k].1) == module_view(self.modules@[k].1),
            decreases self.modules@.len() - j,
        {
            proof {
                assert(decreases_to!(*self => self.modules));
                assert(decreases_to!(self.modules => self.modules@[j as int]));
                assert(decreases_to!(self.modules@[j as int] => self.modules@[j as int].1));
            }
            let key = self.modules[j].0.clone();
            let sub = self.modules[j].1.clone();
            modules.push((key, sub));
            j = j + 1;
        }
        let module_prefixes = clone_string_pair_vec(&self.module_prefixes);
        let r = Module { name, words, exportable, variables, modules, module_prefixes, forthic_code };
        proof {
            assert(names_view(r.exportable@) =~= names_view(self.exportable@));
            lemma_vars_view(r.variables@);
            lemma_vars_view(self.variables@);
            assert(vars_view(r.variables@) =~= vars_view(self.variables@));
            lemma_submodules_view(r.modules@);
            lemma_submodules_view(self.modules@);
            assert(submodules_view(r.modules@) =~= submodules_view(self.modules@));
            assert(prefixes_view(r.module_prefixes@) =~= prefixes_view(self.module_prefixes@));
        }
        r
    }
}

/// Copy a vector of word indices.
fn clone_usize_vec(v: &Vec<usize>) -> (r: Vec<usize>)
    ensures
        r@ == v@,
{
    let mut out: Vec<usize> = Vec::new();
    let mut i: usize = 0;
    while i < v.len()
        invariant
            i <= v@.len(),
            out@ =~= v@.take(i as int),
        decreases v@.len() - i,
    {
        out.push(v[i]);
        i = i + 1;
        proof {
            assert(out@ =~= v@.take(i as int));
        }
    }
    proof {
        assert(v@.take(v@.len() as int) =~= v@);
    }
    out
}

/// Copy a vector of names.
fn clone_string_vec(v: &Vec<String>) -> (r: Vec<String>)
    ensures
        r@.len() == v@.len(),
        forall|i: int| 0 <= i < v@.len() ==> (#[trigger] r@[i])@ == v@[i]@,
{
    let mut out: Vec<String> = Vec::new();
    let mut i: usize = 0;
    while i < v.len()
        invariant
            i <= v@.len(),
            out@.len() == i,
            forall|j: int| 0 <= j < i ==> (#[trigger] out@[j])@ == v@[j]@,
        decreases v@.len() - i,
    {
        out.push(v[i].clone());
        i = i + 1;
    }
    out
}

/// Copy a vector of name pairs.
fn clone_string_pair_vec(v: &Vec<(String, String)>) -> (r: Vec<(String, String)>)
    ensures
        r@.len() == v@.len(),
        forall|i: int|
            0 <= i < v@.len() ==> (#[trigger] r@[i]).0@ == v@[i].0@ && r@[i].1@ == v@[i].1@,
{
    let mut out: Vec<(String, String)> = Vec::new();
    let mut i: usize = 0;
    while i < v.len()
        invariant
            i <= v@.len(),
            out@.len() == i,
            forall|j: int|
                0 <= j < i ==> (#[trigger] out@[j]).0@ == v@[j].0@ && out@[j].1@ == v@[j].1@,
        decreases v@.len() - i,
    {
        let a = v[i].0.clone();
        let b = v[i].1.clone();
        out.push((a, b));
        i = i + 1;
    }
    out
}

/// The name of a word.
pub fn word_name(w: &Word) -> (r: &str)
    ensures
        r@ == word_name_spec(*w),
{
    match w {
        Word::PushValue { name, .. } => name.as_str(),
        Word::Definition(d) => d.name.as_str(),
        Word::Memo { name, .. } => name.as_str(),
        Word::MemoBang { name, .. } => name.as_str(),
        Word::MemoBangAt { name, .. } => name.as_str(),
        Word::Delegate { name, .. } => name.as_str(),
        Word::Native { name, .. } => name.as_str(),
        Word::StartModule { name } => name.as_str(),
        Word::EndModule => "}",
        Word::EndArray => "]",
    }
}

/// Compare two string slices.
pub fn streq(a: &str, b: &str) -> (r: bool)
    ensures
        r == (a@ == b@),
{
    let sa = a.to_owned();
    let sb = b.to_owned();
    sa == sb
}

/// A word list that holds a word with the name resolves it: dictionary
/// lookup never misses a present name. Together with the import
/// contract, every word a module exports is resolvable in the importer,
/// unprefixed for an empty prefix and as `prefix.name` otherwise.
pub proof fn lemma_find_dictionary_present(words: Seq<usize>, arena: Seq<Word>, name: Seq<char>)
    requires
        exists|k: int|
            0 <= k < words.len() && word_name_spec(arena[(#[trigger] words[k]) as int]) == name,
    ensures
        spec_find_dictionary(words, arena, name) is Some,
    decreases words.len(),
{
    let k = choose|k: int|
        0 <= k < words.len() && word_name_spec(arena[(#[trigger] words[k]) as int]) == name;
    if word_name_spec(arena[words.last() as int]) == name {
    } else {
        assert(forall|i: int|
            0 <= i < words.len() - 1 ==> #[trigger] words.drop_last()[i] == words[i]);
        assert(k < words.len() - 1);
        assert(0 <= k < words.drop_last().len() && word_name_spec(
            arena[(words.drop_last()[k]) as int],
        ) == name);
        lemma_find_dictionary_present(words.drop_last(), arena, name);
    }
}

/// A word list without the name cannot resolve it: after a prefixed
/// import, the unprefixed name stays unresolved unless it was already
/// present.
pub proof fn lemma_find_dictionary_absent(words: Seq<usize>, arena: Seq<Word>, name: Seq<char>)
    requires
        forall|k: int|
            0 <= k < words.len() ==> word_name_spec(arena[(#[trigger] words[k]) as int]) != name,
    ensures
        spec_find_dictionary(words, arena, name) is None,
    decreases words.len(),
{
    if words.len() > 0 {
        assert(forall|i: int|
            0 <= i < words.len() - 1 ==> #[trigger] words.drop_last()[i] == words[i]);
        lemma_find_dictionary_absent(words.drop_last(), arena, name);
    }
}

} // verus!
