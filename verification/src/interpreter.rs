//! The interpreter: the dispatch and compilation engine.
//!
//! `run` tokenizes source text and dispatches each token: while compiling,
//! resolved words are appended to the open definition; otherwise they
//! execute against the data stack, the module stack and the word arena.

use vstd::prelude::*;
use vstd::string::{StringExecFns, StrSliceExecFns};
use crate::chars::string_to_chars;
use crate::errors::{CodeLocation, ForthicError};
use crate::literals::{
    contains_dot, has_dot, lemma_values_view, spec_to_bool, spec_to_date, spec_to_int,
    spec_to_time, spec_to_zoned, to_bool, to_int, to_literal_date_with, to_time,
    to_zoned_datetime, valid_date, value_view, values_view, Date, FloatParser, ForthicValue,
    ValueSpec,
};
use crate::module::{
    arena_wf, module_wf, spec_find_dictionary, spec_find_module, spec_find_variable,
    word_name_spec, words_ok, DefinitionWord, HandlerAction, Module, ModuleSpec, NativeOp, Word,
    WordArena,
};
use crate::tokenizer::{Token, TokenType, Tokenizer};

verus! {

/// The data stack.
#[derive(Debug)]
pub struct Stack {
    pub items: Vec<ForthicValue>,
}

impl View for Stack {
    type V = Seq<ValueSpec>;

    /// The stack as a sequence of value models, bottom first.
    open spec fn view(&self) -> Seq<ValueSpec> {
        values_view(self.items@)
    }
}

impl Stack {
    /// An empty stack.
    pub fn new() -> (r: Self)
        ensures
            r@ == Seq::<ValueSpec>::empty(),
    {
        let r = Stack { items: Vec::new() };
        proof {
            lemma_values_view(r.items@);
            assert(r@ =~= Seq::<ValueSpec>::empty());
        }
        r
    }

    /// Push a value.
    pub fn push(&mut self, value: ForthicValue)
        ensures
            final(self)@ == old(self)@.push(value_view(value)),
    {
        let ghost gv = value_view(value);
        self.items.push(value);
        proof {
            lemma_push_view(old(self).items@, self.items@, gv);
        }
    }

    /// Pop the top value; underflows on an empty stack.
    pub fn pop(&mut self) -> (r: Result<ForthicValue, ForthicError>)
        ensures
            old(self)@.len() == 0 ==> (r matches Err(e) && (e matches ForthicError::StackUnderflow {
                forthic,
                location,
                ..
            } && forthic@ == Seq::<char>::empty() && location is None)) && final(self)@ == old(self)@,
            old(self)@.len() > 0 ==> (r matches Ok(v) && value_view(v) == old(self)@.last())
                && final(self)@ == old(self)@.drop_last(),
    {
        proof {
            lemma_values_view(self.items@);
        }
        match self.items.pop() {
            Some(v) => {
                proof {
                    lemma_values_view(self.items@);
                    assert(values_view(self.items@) =~= values_view(old(self).items@).drop_last());
                }
                Ok(v)
            },
            None => {
                Err(ForthicError::StackUnderflow { forthic: String::new(), location: None, cause:
                    None })
            },
        }
    }

    /// The top value, if any.
    pub fn peek(&self) -> (r: Option<&ForthicValue>)
        ensures
            match r {
                Some(v) => self@.len() > 0 && value_view(*v) == self@.last(),
                None => self@.len() == 0,
            },
    {
        proof {
            lemma_values_view(self.items@);
        }
        if self.items.len() == 0 {
            None
        } else {
            Some(&self.items[self.items.len() - 1])
        }
    }

    /// The number of values.
    pub fn len(&self) -> (r: usize)
        ensures
            r == self@.len(),
    {
        proof {
            lemma_values_view(self.items@);
        }
        self.items.len()
    }

    /// Whether the stack is empty.
    pub fn is_empty(&self) -> (r: bool)
        ensures
            r == (self@.len() == 0),
    {
        self.len() == 0
    }

    /// Remove everything.
    pub fn clear(&mut self)
        ensures
            final(self)@ == Seq::<ValueSpec>::empty(),
    {
        self.items.clear();
        proof {
            lemma_values_view(self.items@);
            assert(self@ =~= Seq::<ValueSpec>::empty());
        }
    }

    /// The value at an index, zero being the bottom.
    pub fn get(&self, index: usize) -> (r: Option<&ForthicValue>)
        ensures
            match r {
                Some(v) => index < self@.len() && value_view(*v) == self@[index as int],
                None => index >= self@.len(),
            },
    {
        proof {
            lemma_values_view(self.items@);
        }
        if index < self.items.len() {
            Some(&self.items[index])
        } else {
            None
        }
    }

    /// The values as a slice, bottom first.
    pub fn items(&self) -> (r: &Vec<ForthicValue>)
        ensures
            values_view(r@) == self@,
    {
        &self.items
    }

    /// An independent copy with the same contents.
    pub fn dup(&self) -> (r: Self)
        ensures
            r@ == self@,
    {
        let mut out: Vec<ForthicValue> = Vec::new();
        let mut i: usize = 0;
        while i < self.items.len()
            invariant
                i <= self.items@.len(),
                out@.len() == i,
                forall|j: int|
                    0 <= j < i ==> value_view(#[trigger] out@[j]) == value_view(self.items@[j]),
            decreases self.items@.len() - i,
        {
            let v = self.items[i].clone();
            out.push(v);
            i = i + 1;
        }
        proof {
            crate::literals::lemma_values_view_ext(out@, self.items@);
        }
        Stack { items: out }
    }
}

impl Default for Stack {
    /// An empty stack.
    fn default() -> (r: Self)
        ensures
            r@ == Seq::<ValueSpec>::empty(),
    {
        Stack::new()
    }
}

/// Pushing onto the underlying vector pushes onto the model.
pub proof fn lemma_push_view(pre: Seq<ForthicValue>, post: Seq<ForthicValue>, gv: ValueSpec)
    requires
        post == pre.push(post.last()),
        post.len() == pre.len() + 1,
        value_view(post.last()) == gv,
    ensures
        values_view(post) == values_view(pre).push(gv),
{
    assert(post.drop_last() =~= pre);
}

/// The built-in literal recognizers, consulted in registration order after
/// word lookup fails; the first success wins. The float recognizer routes
/// text with a decimal point through the host's float parser.
#[derive(Debug, Clone, Copy, PartialEq, Eq, Structural)]
pub enum LiteralHandler {
    Bool,
    Float,
    ZonedDateTime,
    Date,
    Time,
    Int,
}

/// A usable current date for wildcard resolution: a real calendar date of
/// the current era, or nothing when the zone is unknown.
pub open spec fn wf_today(today: Option<Date>) -> bool {
    match today {
        Some(d) => valid_date(d.year as int, d.month as int, d.day as int) && 1 <= d.year <= 9999,
        None => true,
    }
}

/// What a literal handler yields for a text, given the configured zone,
/// the bits the host's float parser answered for the text, and the
/// current date in that zone.
pub open spec fn spec_apply_literal(
    h: LiteralHandler,
    s: Seq<char>,
    tz: Seq<char>,
    float_bits: Option<u64>,
    today: Option<Date>,
) -> Option<ValueSpec> {
    match h {
        LiteralHandler::Bool => spec_to_bool(s),
        LiteralHandler::Float => if contains_dot(s) {
            match float_bits {
                Some(b) => Some(ValueSpec::Float(b)),
                None => None,
            }
        } else {
            None
        },
        LiteralHandler::ZonedDateTime => spec_to_zoned(s, tz),
        LiteralHandler::Date => match today {
            Some(t) => spec_to_date(s, t),
            None => None,
        },
        LiteralHandler::Time => spec_to_time(s),
        LiteralHandler::Int => spec_to_int(s),
    }
}

/// The first success of the registered recognizers, in order.
pub open spec fn spec_find_literal(
    handlers: Seq<LiteralHandler>,
    s: Seq<char>,
    tz: Seq<char>,
    float_bits: Option<u64>,
    today: Option<Date>,
) -> Option<ValueSpec>
    decreases handlers,
{
    if handlers.len() == 0 {
        None
    } else {
        match spec_apply_literal(handlers[0], s, tz, float_bits, today) {
            Some(v) => Some(v),
            None => spec_find_literal(handlers.skip(1), s, tz, float_bits, today),
        }
    }
}

/// How a native operation can fail.
#[derive(Debug, Clone, Copy, PartialEq, Eq, Structural)]
pub enum NativeErr {
    /// A pop from an empty stack.
    Underflow,
    /// A variable name with the reserved `__` prefix.
    InvalidVar,
    /// The always-failing word.
    Failed,
    /// The deliberate stop signal.
    Stop,
}

/// The outcome of a native operation: the error if it failed, and the
/// data stack and current module variables as the operation left them —
/// also on failure, since effects already applied are not rolled back.
pub ghost struct NativeOut {
    pub err: Option<NativeErr>,
    pub stack: Seq<ValueSpec>,
    pub vars: Seq<(Seq<char>, ValueSpec)>,
}

/// Whether a name starts with the reserved `__` prefix.
pub open spec fn reserved_name(n: Seq<char>) -> bool {
    n.len() >= 2 && n[0] == '_' && n[1] == '_'
}

/// Declaring the variables named in an array: strings become fresh `Null`
/// variables, other values are ignored, and a reserved name stops the
/// walk with an error.
pub open spec fn spec_declare_vars(
    vars: Seq<(Seq<char>, ValueSpec)>,
    items: Seq<ValueSpec>,
) -> (Option<NativeErr>, Seq<(Seq<char>, ValueSpec)>)
    decreases items.len(),
{
    if items.len() == 0 {
        (None, vars)
    } else {
        match items[0] {
            ValueSpec::Str(nm) => if reserved_name(nm) {
                (Some(NativeErr::InvalidVar), vars)
            } else {
                spec_declare_vars(
                    crate::module::spec_add_var(vars, nm, ValueSpec::Null),
                    items.skip(1),
                )
            },
            _ => spec_declare_vars(vars, items.skip(1)),
        }
    }
}

/// The exact semantics of each native operation over the data stack and
/// the current module's variables.
pub open spec fn spec_native(
    op: NativeOp,
    st: Seq<ValueSpec>,
    vars: Seq<(Seq<char>, ValueSpec)>,
) -> NativeOut {
    match op {
        NativeOp::Pop => if st.len() == 0 {
            NativeOut { err: Some(NativeErr::Underflow), stack: st, vars }
        } else {
            NativeOut { err: None, stack: st.drop_last(), vars }
        },
        NativeOp::Dup => if st.len() == 0 {
            NativeOut { err: Some(NativeErr::Underflow), stack: st, vars }
        } else {
            NativeOut { err: None, stack: st.push(st.last()), vars }
        },
        NativeOp::Swap => if st.len() == 0 {
            NativeOut { err: Some(NativeErr::Underflow), stack: st, vars }
        } else if st.len() == 1 {
            NativeOut { err: Some(NativeErr::Underflow), stack: st.drop_last(), vars }
        } else {
            NativeOut {
                err: None,
                stack: st.drop_last().drop_last().push(st.last()).push(st[st.len() - 2]),
                vars,
            }
        },
        NativeOp::Variables => if st.len() == 0 {
            NativeOut { err: Some(NativeErr::Underflow), stack: st, vars }
        } else {
            match st.last() {
                ValueSpec::Array(items) => {
                    let (e, vars2) = spec_declare_vars(vars, items);
                    NativeOut { err: e, stack: st.drop_last(), vars: vars2 }
                },
                _ => NativeOut { err: None, stack: st.drop_last(), vars },
            }
        },
        NativeOp::Store => if st.len() == 0 {
            NativeOut { err: Some(NativeErr::Underflow), stack: st, vars }
        } else if st.len() == 1 {
            NativeOut { err: Some(NativeErr::Underflow), stack: st.drop_last(), vars }
        } else {
            let rest = st.drop_last().drop_last();
            match st.last() {
                ValueSpec::Str(nm) => if reserved_name(nm) {
                    NativeOut { err: Some(NativeErr::InvalidVar), stack: rest, vars }
                } else {
                    NativeOut {
                        err: None,
                        stack: rest,
                        vars: crate::module::spec_set_var(vars, nm, st[st.len() - 2]),
                    }
                },
                _ => NativeOut { err: None, stack: rest, vars },
            }
        },
        NativeOp::Fetch => if st.len() == 0 {
            NativeOut { err: Some(NativeErr::Underflow), stack: st, vars }
        } else {
            let rest = st.drop_last();
            match st.last() {
                ValueSpec::Str(nm) => if reserved_name(nm) {
                    NativeOut { err: Some(NativeErr::InvalidVar), stack: rest, vars }
                } else {
                    let vars2 = crate::module::spec_add_var(vars, nm, ValueSpec::Null);
                    let v = match crate::module::spec_find_variable(vars2, nm) {
                        Some(v) => v,
                        None => ValueSpec::Null,
                    };
                    NativeOut { err: None, stack: rest.push(v), vars: vars2 }
                },
                _ => NativeOut { err: None, stack: rest.push(ValueSpec::Null), vars },
            }
        },
        NativeOp::StoreFetch => if st.len() == 0 {
            NativeOut { err: Some(NativeErr::Underflow), stack: st, vars }
        } else if st.len() == 1 {
            NativeOut { err: Some(NativeErr::Underflow), stack: st.drop_last(), vars }
        } else {
            let rest = st.drop_last().drop_last();
            let value = st[st.len() - 2];
            match st.last() {
                ValueSpec::Str(nm) => if reserved_name(nm) {
                    NativeOut { err: Some(NativeErr::InvalidVar), stack: rest, vars }
                } else {
                    NativeOut {
                        err: None,
                        stack: rest.push(value),
                        vars: crate::module::spec_set_var(vars, nm, value),
                    }
                },
                _ => NativeOut { err: None, stack: rest.push(value), vars },
            }
        },
        NativeOp::Nop => NativeOut { err: None, stack: st, vars },
        NativeOp::PushNull => NativeOut { err: None, stack: st.push(ValueSpec::Null), vars },
        NativeOp::IsArray => if st.len() == 0 {
            NativeOut { err: Some(NativeErr::Underflow), stack: st, vars }
        } else {
            NativeOut {
                err: None,
                stack: st.drop_last().push(ValueSpec::Bool(st.last() is Array)),
                vars,
            }
        },
        NativeOp::FallbackDefault => if st.len() == 0 {
            NativeOut { err: Some(NativeErr::Underflow), stack: st, vars }
        } else if st.len() == 1 {
            NativeOut { err: Some(NativeErr::Underflow), stack: st.drop_last(), vars }
        } else {
            let fallback = st.last();
            let value = st[st.len() - 2];
            let rest = st.drop_last().drop_last();
            let keep = !(value is Null) && value != ValueSpec::Str(Seq::<char>::empty());
            NativeOut { err: None, stack: rest.push(if keep {
                value
            } else {
                fallback
            }), vars }
        },
        NativeOp::ToOptions => if st.len() == 0 {
            NativeOut { err: Some(NativeErr::Underflow), stack: st, vars }
        } else {
            let rest = st.drop_last();
            match st.last() {
                ValueSpec::Array(items) => match crate::word_options::spec_flat_pairs(items) {
                    Some(ps) => NativeOut {
                        err: None,
                        stack: rest.push(ValueSpec::WordOptions(ps)),
                        vars,
                    },
                    None => NativeOut { err: None, stack: rest.push(ValueSpec::Null), vars },
                },
                _ => NativeOut { err: None, stack: rest.push(ValueSpec::Null), vars },
            }
        },
        NativeOp::Fail => NativeOut { err: Some(NativeErr::Failed), stack: st, vars },
        NativeOp::Stop => NativeOut { err: Some(NativeErr::Stop), stack: st, vars },
    }
}

/// Whether some handler of the chain accepts the error offered to it.
pub open spec fn chain_handles(handlers: Seq<HandlerAction>) -> bool
    decreases handlers.len(),
{
    if handlers.len() == 0 {
        false
    } else {
        match handlers[0] {
            HandlerAction::Accept => true,
            HandlerAction::PushAccept(_) => true,
            HandlerAction::Reject => chain_handles(handlers.skip(1)),
            HandlerAction::PushReject(_) => chain_handles(handlers.skip(1)),
        }
    }
}

/// What the invoked handlers push: every handler up to and including the
/// first accepting one runs, and each pushing handler leaves its integer.
pub open spec fn chain_trace(handlers: Seq<HandlerAction>) -> Seq<ValueSpec>
    decreases handlers.len(),
{
    if handlers.len() == 0 {
        Seq::empty()
    } else {
        match handlers[0] {
            HandlerAction::Accept => Seq::empty(),
            HandlerAction::PushAccept(v) => seq![ValueSpec::Int(v as int)],
            HandlerAction::Reject => chain_trace(handlers.skip(1)),
            HandlerAction::PushReject(v) => seq![ValueSpec::Int(v as int)] + chain_trace(
                handlers.skip(1),
            ),
        }
    }
}

/// The memo that a refresh word points at, if this is a refresh word.
pub open spec fn memo_link_of(w: Word) -> Option<usize> {
    match w {
        Word::MemoBang { memo, .. } => Some(memo),
        Word::MemoBangAt { memo, .. } => Some(memo),
        _ => None,
    }
}

/// Every memo-refresh word points at a memo word.
pub open spec fn memo_links_ok(ws: Seq<Word>) -> bool {
    forall|i: int|
        0 <= i < ws.len() ==> (match memo_link_of(#[trigger] ws[i]) {
            Some(m) => m < i && ws[m as int] is Memo,
            None => true,
        })
}

/// The interpreter: the data stack, the word arena, the app module, the
/// always-nonempty module stack, a tokenizer stack for nested execution,
/// the compilation state, and the ordered literal recognizers. The host
/// supplies float literal parsing through `F`.
#[derive(Debug)]
pub struct Interpreter<F: FloatParser> {
    pub stack: Stack,
    pub arena: WordArena,
    pub app_module: Module,
    pub module_stack: Vec<Module>,
    pub tokenizer_stack: Vec<Tokenizer>,
    pub timezone: String,
    pub is_compiling: bool,
    pub is_memo_definition: bool,
    pub cur_definition: Option<DefinitionWord>,
    pub literal_handlers: Vec<LiteralHandler>,
    pub float_parser: F,
}

impl<F: FloatParser> Interpreter<F> {
    /// The structural invariant: the arena is well formed, the module
    /// stack is never empty, and every module in sight refers only into
    /// the arena, with unique variable names.
    pub open spec fn wf(&self) -> bool {
        &&& arena_wf(self.arena@)
        &&& memo_links_ok(self.arena@)
        &&& self.module_stack@.len() >= 1
        &&& module_wf(self.app_module@, self.arena@.len() as int)
        &&& forall|i: int|
            0 <= i < self.module_stack@.len() ==> module_wf(
                (#[trigger] self.module_stack@[i])@,
                self.arena@.len() as int,
            )
        &&& match self.cur_definition {
            Some(d) => words_ok(d.words@, self.arena@.len() as int),
            None => true,
        }
    }

    /// Everything but the data stack, the arena caches, the module stack
    /// and the current definition is as it was: the frame that execution
    /// preserves.
    pub open spec fn same_host(&self, other: &Self) -> bool {
        &&& self.timezone@ == other.timezone@
        &&& self.literal_handlers@ == other.literal_handlers@
        &&& self.tokenizer_stack == other.tokenizer_stack
    }

    /// Create an interpreter around a float parser, with the standard
    /// literal recognizers in their default order.
    pub fn new_with_float_parser(timezone: &str, float_parser: F) -> (r: Self)
        ensures
            r.wf(),
            r.stack@ == Seq::<ValueSpec>::empty(),
            r.arena@.len() == 0,
            r.module_stack@.len() == 1,
            r.module_stack@[0]@ == r.app_module@,
            r.app_module@.name == Seq::<char>::empty(),
            r.app_module@.words == Seq::<usize>::empty(),
            r.app_module@.variables == Seq::<(Seq<char>, ValueSpec)>::empty(),
            r.app_module@.modules == Seq::<(Seq<char>, ModuleSpec)>::empty(),
            r.tokenizer_stack@.len() == 0,
            r.timezone@ == timezone@,
            !r.is_compiling,
            !r.is_memo_definition,
            r.cur_definition is None,
            r.literal_handlers@ == seq![
                LiteralHandler::Bool,
                LiteralHandler::Float,
                LiteralHandler::ZonedDateTime,
                LiteralHandler::Date,
                LiteralHandler::Time,
                LiteralHandler::Int,
            ],
    {
        let app_module = Module::new(String::new());
        let first = app_module.clone();
        let mut module_stack: Vec<Module> = Vec::new();
        module_stack.push(first);
        let mut literal_handlers: Vec<LiteralHandler> = Vec::new();
        literal_handlers.push(LiteralHandler::Bool);
        literal_handlers.push(LiteralHandler::Float);
        literal_handlers.push(LiteralHandler::ZonedDateTime);
        literal_handlers.push(LiteralHandler::Date);
        literal_handlers.push(LiteralHandler::Time);
        literal_handlers.push(LiteralHandler::Int);
        proof {
            assert(literal_handlers@ =~= seq![
                LiteralHandler::Bool,
                LiteralHandler::Float,
                LiteralHandler::ZonedDateTime,
                LiteralHandler::Date,
                LiteralHandler::Time,
                LiteralHandler::Int,
            ]);
        }
        Interpreter {
            stack: Stack::new(),
            arena: WordArena::new(),
            app_module,
            module_stack,
            tokenizer_stack: Vec::new(),
            timezone: timezone.to_owned(),
            is_compiling: false,
            is_memo_definition: false,
            cur_definition: None,
            literal_handlers,
            float_parser,
        }
    }

    /// The configured timezone.
    pub fn get_timezone(&self) -> (r: &str)
        ensures
            r@ == self.timezone@,
    {
        self.timezone.as_str()
    }

    /// Replace the configured timezone.
    pub fn set_timezone(&mut self, timezone: String)
        ensures
            *final(self) == (Interpreter { timezone, ..*old(self) }),
    {
        self.timezone = timezone;
    }

    /// The data stack.
    pub fn get_stack(&self) -> (r: &Stack)
        ensures
            r == &self.stack,
    {
        &self.stack
    }

    /// Replace the data stack.
    pub fn set_stack(&mut self, stack: Stack)
        ensures
            *final(self) == (Interpreter { stack, ..*old(self) }),
    {
        self.stack = stack;
    }

    /// Push a value onto the data stack.
    pub fn stack_push(&mut self, value: ForthicValue)
        ensures
            final(self).stack@ == old(self).stack@.push(value_view(value)),
            *final(self) == (Interpreter { stack: final(self).stack, ..*old(self) }),
            old(self).wf() ==> final(self).wf(),
    {
        self.stack.push(value);
    }

    /// Pop the top of the data stack; underflows when it is empty.
    pub fn stack_pop(&mut self) -> (r: Result<ForthicValue, ForthicError>)
        ensures
            old(self).stack@.len() == 0 ==> (r matches Err(e) && e matches
                ForthicError::StackUnderflow { .. }) && final(self).stack@ == old(self).stack@,
            old(self).stack@.len() > 0 ==> (r matches Ok(v) && value_view(v) == old(self).stack@.last()) && final(self).stack@ == old(self).stack@.drop_last(),
            *final(self) == (Interpreter { stack: final(self).stack, ..*old(self) }),
            old(self).wf() ==> final(self).wf(),
    {
        self.stack.pop()
    }

    /// The top of the data stack, if any.
    pub fn stack_peek(&self) -> (r: Option<&ForthicValue>)
        ensures
            match r {
                Some(v) => self.stack@.len() > 0 && value_view(*v) == self.stack@.last(),
                None => self.stack@.len() == 0,
            },
    {
        self.stack.peek()
    }

    /// The current module: the top of the module stack.
    pub fn cur_module(&self) -> (r: &Module)
        requires
            self.module_stack@.len() >= 1,
        ensures
            r == &self.module_stack@.last(),
    {
        &self.module_stack[self.module_stack.len() - 1]
    }

    /// Push a module onto the module stack.
    pub fn module_stack_push(&mut self, module: Module)
        ensures
            final(self).module_stack@ == old(self).module_stack@.push(module),
            *final(self) == (Interpreter { module_stack: final(self).module_stack, ..*old(self) }),
            old(self).wf() && module_wf(module@, old(self).arena@.len() as int)
                ==> final(self).wf(),
    {
        self.module_stack.push(module);
        proof {
            if old(self).wf() && module_wf(self.module_stack@.last()@, self.arena@.len() as int) {
                assert forall|i: int|
                    0 <= i < self.module_stack@.len() implies module_wf(
                    (#[trigger] self.module_stack@[i])@,
                    self.arena@.len() as int,
                ) by {
                    if i < old(self).module_stack@.len() {
                        assert(self.module_stack@[i] == old(self).module_stack@[i]);
                    }
                }
            }
        }
    }

    /// Pop the module stack. Popping the app module — the bottom of the
    /// stack — fails with a stack underflow; the module stack is never
    /// empty.
    pub fn module_stack_pop(&mut self) -> (r: Result<Module, ForthicError>)
        ensures
            old(self).module_stack@.len() <= 1 ==> (r matches Err(e) && e matches
                ForthicError::StackUnderflow { .. }) && *final(self) == *old(self),
            old(self).module_stack@.len() > 1 ==> (r matches Ok(m) && m == old(self).module_stack@.last()) && final(self).module_stack@ == old(self).module_stack@.drop_last() && *final(self) == (Interpreter {
                module_stack: final(self).module_stack,
                ..*old(self)
            }),
            old(self).wf() ==> final(self).wf(),
    {
        if self.module_stack.len() <= 1 {
            return Err(ForthicError::StackUnderflow {
                forthic: String::from_str("Cannot pop app module"),
                location: None,
                cause: None,
            });
        }
        match self.module_stack.pop() {
            Some(m) => Ok(m),
            None => {
                proof {
                    assert(false);
                }
                Err(ForthicError::StackUnderflow {
                    forthic: String::new(),
                    location: None,
                    cause: None,
                })
            },
        }
    }

    /// The app module: the root namespace.
    pub fn get_app_module(&self) -> (r: &Module)
        ensures
            r == &self.app_module,
    {
        &self.app_module
    }

    /// Whether a definition is being compiled.
    pub fn is_compiling(&self) -> (r: bool)
        ensures
            r == self.is_compiling,
    {
        self.is_compiling
    }

    /// Set the compilation flag.
    pub fn set_compiling(&mut self, compiling: bool)
        ensures
            *final(self) == (Interpreter { is_compiling: compiling, ..*old(self) }),
    {
        self.is_compiling = compiling;
    }

    /// Whether the open definition is a memo definition.
    pub fn is_memo_definition(&self) -> (r: bool)
        ensures
            r == self.is_memo_definition,
    {
        self.is_memo_definition
    }

    /// Set the memo-definition flag.
    pub fn set_memo_definition(&mut self, is_memo: bool)
        ensures
            *final(self) == (Interpreter { is_memo_definition: is_memo, ..*old(self) }),
    {
        self.is_memo_definition = is_memo;
    }

    /// The definition being compiled, if any.
    pub fn get_cur_definition(&self) -> (r: Option<&DefinitionWord>)
        ensures
            match r {
                Some(d) => self.cur_definition matches Some(c) && d == &c,
                None => self.cur_definition is None,
            },
    {
        self.cur_definition.as_ref()
    }

    /// Replace the definition being compiled.
    pub fn set_cur_definition(&mut self, definition: Option<DefinitionWord>)
        ensures
            *final(self) == (Interpreter { cur_definition: definition, ..*old(self) }),
    {
        self.cur_definition = definition;
    }

    /// Reset the interpreter: clear the stack, return to a module stack
    /// of just a copy of the app module, and abandon any open definition.
    pub fn reset(&mut self)
        ensures
            final(self).stack@ == Seq::<ValueSpec>::empty(),
            final(self).module_stack@.len() == 1,
            final(self).module_stack@[0]@ == old(self).app_module@,
            !final(self).is_compiling,
            !final(self).is_memo_definition,
            final(self).cur_definition is None,
            final(self).arena@ == old(self).arena@,
            final(self).app_module == old(self).app_module,
            final(self).same_host(old(self)),
            old(self).wf() ==> final(self).wf(),
    {
        self.stack.clear();
        let first = self.app_module.clone();
        let mut module_stack: Vec<Module> = Vec::new();
        module_stack.push(first);
        self.module_stack = module_stack;
        self.is_compiling = false;
        self.is_memo_definition = false;
        self.cur_definition = None;
    }

    /// Register another literal recognizer; it is consulted after the
    /// ones already registered.
    pub fn register_literal_handler(&mut self, handler: LiteralHandler)
        ensures
            final(self).literal_handlers@ == old(self).literal_handlers@.push(handler),
            *final(self) == (Interpreter {
                literal_handlers: final(self).literal_handlers,
                ..*old(self)
            }),
    {
        self.literal_handlers.push(handler);
    }

    /// Remove the first registration of a literal recognizer, if any.
    pub fn unregister_literal_handler(&mut self, handler: LiteralHandler)
        ensures
            *final(self) == (Interpreter {
                literal_handlers: final(self).literal_handlers,
                ..*old(self)
            }),
            (exists|i: int|
                0 <= i < old(self).literal_handlers@.len() && old(self).literal_handlers@[i]
                    == handler) ==> final(self).literal_handlers@ == {
                let i = choose|i: int|
                    0 <= i < old(self).literal_handlers@.len() && old(self).literal_handlers@[i]
                        == handler && (forall|j: int|
                        0 <= j < i ==> old(self).literal_handlers@[j] != handler);
                old(self).literal_handlers@.remove(i)
            },
            !(exists|i: int|
                0 <= i < old(self).literal_handlers@.len() && old(self).literal_handlers@[i]
                    == handler) ==> final(self).literal_handlers@ == old(self).literal_handlers@,
    {
        let mut i: usize = 0;
        while i < self.literal_handlers.len()
            invariant
                i <= self.literal_handlers@.len(),
                *self == *old(self),
                forall|j: int| 0 <= j < i ==> old(self).literal_handlers@[j] != handler,
            decreases self.literal_handlers@.len() - i,
        {
            if self.literal_handlers[i] == handler {
                self.literal_handlers.remove(i);
                proof {
                    let w = choose|k: int|
                        0 <= k < old(self).literal_handlers@.len() && old(self).literal_handlers@[k] == handler && (forall|j: int|
                            0 <= j < k ==> old(self).literal_handlers@[j] != handler);
                    assert(old(self).literal_handlers@[i as int] == handler);
                    assert(w == i);
                }
                return;
            }
            i = i + 1;
        }
    }
}

/// Two words with the same shape: equal, or the same memo up to its
/// cache. Execution only ever rewrites memo caches.
pub open spec fn word_same_shape(a: Word, b: Word) -> bool {
    match a {
        Word::Memo { name: n1, target: t1, .. } => match b {
            Word::Memo { name: n2, target: t2, .. } => n1@ == n2@ && t1 == t2,
            _ => false,
        },
        _ => a == b,
    }
}

/// Two arenas with the same shape, word by word.
pub open spec fn arena_same_shape(a: Seq<Word>, b: Seq<Word>) -> bool {
    a.len() == b.len() && forall|i: int|
        0 <= i < a.len() ==> word_same_shape(#[trigger] a[i], #[trigger] b[i])
}

/// Same shape preserves reference bounds, hence arena well-formedness.
pub proof fn lemma_same_shape_wf(a: Seq<Word>, b: Seq<Word>)
    requires
        arena_same_shape(a, b),
        arena_wf(a),
    ensures
        arena_wf(b),
{
    assert forall|i: int|
        0 <= i < b.len() implies crate::module::word_refs_below(#[trigger] b[i], i) by {
        assert(word_same_shape(a[i], b[i]));
    }
}

/// Same shape is transitive.
pub proof fn lemma_same_shape_trans(a: Seq<Word>, b: Seq<Word>, c: Seq<Word>)
    requires
        arena_same_shape(a, b),
        arena_same_shape(b, c),
    ensures
        arena_same_shape(a, c),
{
    assert forall|i: int|
        0 <= i < a.len() implies word_same_shape(#[trigger] a[i], #[trigger] c[i]) by {
        assert(word_same_shape(a[i], b[i]));
        assert(word_same_shape(b[i], c[i]));
    }
}

/// Copy a handler chain.
fn clone_handlers(v: &Vec<HandlerAction>) -> (r: Vec<HandlerAction>)
    ensures
        r@ == v@,
{
    let mut out: Vec<HandlerAction> = Vec::new();
    let mut i: usize = 0;
    while i < v.len()
        invariant
            i <= v@.len(),
            out@ =~= v@.take(i as int),
        decreases v@.len() - i,
    {
        out.push(v[i]);
        i = i + 1;
        proof {
            assert(out@ =~= v@.take(i as int));
        }
    }
    proof {
        assert(v@.take(v@.len() as int) =~= v@);
    }
    out
}

/// Copy a word index list.
fn clone_indices(v: &Vec<usize>) -> (r: Vec<usize>)
    ensures
        r@ == v@,
{
    let mut out: Vec<usize> = Vec::new();
    let mut i: usize = 0;
    while i < v.len()
        invariant
            i <= v@.len(),
            out@ =~= v@.take(i as int),
        decreases v@.len() - i,
    {
        out.push(v[i]);
        i = i + 1;
        proof {
            assert(out@ =~= v@.take(i as int));
        }
    }
    proof {
        assert(v@.take(v@.len() as int) =~= v@);
    }
    out
}

impl<F: FloatParser> Interpreter<F> {
    /// The variables of the current module.
    pub open spec fn cur_vars(&self) -> Seq<(Seq<char>, ValueSpec)> {
        self.module_stack@.last()@.variables
    }

    /// Run one native operation against the stack and the current
    /// module's variables, without the error-handler chain.
    fn run_native_op(&mut self, op: NativeOp, name: &str) -> (r: Result<(), ForthicError>)
        requires
            old(self).wf(),
        ensures
            final(self).wf(),
            final(self).arena@ == old(self).arena@,
            final(self).app_module == old(self).app_module,
            final(self).is_compiling == old(self).is_compiling,
            final(self).is_memo_definition == old(self).is_memo_definition,
            final(self).cur_definition == old(self).cur_definition,
            final(self).same_host(old(self)),
            final(self).module_stack@.len() == old(self).module_stack@.len(),
            forall|i: int|
                0 <= i < old(self).module_stack@.len() - 1 ==> final(self).module_stack@[i]
                    == old(self).module_stack@[i],
            final(self).module_stack@.last()@ == (ModuleSpec {
                variables: spec_native(op, old(self).stack@, old(self).cur_vars()).vars,
                ..old(self).module_stack@.last()@
            }),
            final(self).stack@ == spec_native(op, old(self).stack@, old(self).cur_vars()).stack,
            match r {
                Ok(()) => spec_native(op, old(self).stack@, old(self).cur_vars()).err is None,
                Err(e) => match spec_native(op, old(self).stack@, old(self).cur_vars()).err {
                    Some(NativeErr::Underflow) => e is StackUnderflow,
                    Some(NativeErr::InvalidVar) => e is InvalidVariableName,
                    Some(NativeErr::Failed) => (e matches ForthicError::UnknownWord { word, .. }
                        && word@ == name@),
                    Some(NativeErr::Stop) => e is IntentionalStop,
                    None => false,
                },
            },
    {
        let ghost st0 = self.stack@;
        let ghost vars0 = self.cur_vars();
        let ghost o = spec_native(op, st0, vars0);
        match op {
            NativeOp::Pop => {
                match self.stack.pop() {
                    Ok(_) => Ok(()),
                    Err(e) => Err(e),
                }
            },
            NativeOp::Dup => {
                match self.stack.pop() {
                    Ok(v) => {
                        let v2 = v.clone();
                        self.stack.push(v);
                        self.stack.push(v2);
                        proof {
                            assert(self.stack@ =~= st0.push(st0.last()));
                        }
                        Ok(())
                    },
                    Err(e) => Err(e),
                }
            },
            NativeOp::Swap => {
                let b = match self.stack.pop() {
                    Ok(v) => v,
                    Err(e) => {
                        return Err(e);
                    },
                };
                let a = match self.stack.pop() {
                    Ok(v) => v,
                    Err(e) => {
                        return Err(e);
                    },
                };
                self.stack.push(b);
                self.stack.push(a);
                Ok(())
            },
            NativeOp::Nop => Ok(()),
            NativeOp::PushNull => {
                self.stack.push(ForthicValue::Null);
                Ok(())
            },
            NativeOp::IsArray => {
                match self.stack.pop() {
                    Ok(v) => {
                        let is_array = matches!(v, ForthicValue::Array(_));
                        self.stack.push(ForthicValue::Bool(is_array));
                        Ok(())
                    },
                    Err(e) => Err(e),
                }
            },
            NativeOp::FallbackDefault => {
                let fallback = match self.stack.pop() {
                    Ok(v) => v,
                    Err(e) => {
                        return Err(e);
                    },
                };
                let value = match self.stack.pop() {
                    Ok(v) => v,
                    Err(e) => {
                        return Err(e);
                    },
                };
                let keep = match &value {
                    ForthicValue::Null => false,
                    ForthicValue::Str(t) => t.as_str().unicode_len() > 0,
                    _ => true,
                };
                proof {
                    let vv = st0[st0.len() - 2];
                    if keep {
                        assert(!(vv is Null) && vv != ValueSpec::Str(Seq::<char>::empty()));
                    } else {
                        assert(vv is Null || vv == ValueSpec::Str(Seq::<char>::empty()));
                    }
                }
                if keep {
                    self.stack.push(value);
                } else {
                    self.stack.push(fallback);
                }
                Ok(())
            },
            NativeOp::ToOptions => {
                let v = match self.stack.pop() {
                    Ok(v) => v,
                    Err(e) => {
                        return Err(e);
                    },
                };
                match v {
                    ForthicValue::Array(items) => {
                        proof {
                            lemma_values_view(items@);
                        }
                        match crate::word_options::WordOptions::from_flat_array(&items) {
                            Ok(options) => {
                                self.stack.push(ForthicValue::WordOptions(options));
                                Ok(())
                            },
                            Err(_) => {
                                self.stack.push(ForthicValue::Null);
                                Ok(())
                            },
                        }
                    },
                    _ => {
                        self.stack.push(ForthicValue::Null);
                        Ok(())
                    },
                }
            },
            NativeOp::Fail => Err(ForthicError::UnknownWord {
                forthic: String::new(),
                word: name.to_owned(),
                location: None,
                cause: None,
            }),
            NativeOp::Stop => Err(ForthicError::IntentionalStop {
                message: String::from_str("Intentional stop"),
            }),
            NativeOp::Variables => {
                let v = match self.stack.pop() {
                    Ok(v) => v,
                    Err(e) => {
                        return Err(e);
                    },
                };
                match v {
                    ForthicValue::Array(names) => {
                        proof {
                            lemma_values_view(names@);
                        }
                        self.declare_variables(names)
                    },
                    _ => Ok(()),
                }
            },
            NativeOp::Store => {
                let name_val = match self.stack.pop() {
                    Ok(v) => v,
                    Err(e) => {
                        return Err(e);
                    },
                };
                let value = match self.stack.pop() {
                    Ok(v) => v,
                    Err(e) => {
                        return Err(e);
                    },
                };
                match name_val {
                    ForthicValue::Str(varname) => {
                        if name_reserved(varname.as_str()) {
                            return Err(ForthicError::InvalidVariableName {
                                forthic: String::new(),
                                varname,
                                location: None,
                                cause: None,
                            });
                        }
                        self.set_cur_variable(varname, value);
                        Ok(())
                    },
                    _ => Ok(()),
                }
            },
            NativeOp::Fetch => {
                let name_val = match self.stack.pop() {
                    Ok(v) => v,
                    Err(e) => {
                        return Err(e);
                    },
                };
                match name_val {
                    ForthicValue::Str(varname) => {
                        if name_reserved(varname.as_str()) {
                            return Err(ForthicError::InvalidVariableName {
                                forthic: String::new(),
                                varname,
                                location: None,
                                cause: None,
                            });
                        }
                        let value = self.fetch_cur_variable(varname);
                        self.stack.push(value);
                        Ok(())
                    },
                    _ => {
                        self.stack.push(ForthicValue::Null);
                        Ok(())
                    },
                }
            },
            NativeOp::StoreFetch => {
                let name_val = match self.stack.pop() {
                    Ok(v) => v,
                    Err(e) => {
                        return Err(e);
                    },
                };
                let value = match self.stack.pop() {
                    Ok(v) => v,
                    Err(e) => {
                        return Err(e);
                    },
                };
                match name_val {
                    ForthicValue::Str(varname) => {
                        if name_reserved(varname.as_str()) {
                            return Err(ForthicError::InvalidVariableName {
                                forthic: String::new(),
                                varname,
                                location: None,
                                cause: None,
                            });
                        }
                        let value2 = value.clone();
                        self.set_cur_variable(varname, value);
                        self.stack.push(value2);
                        Ok(())
                    },
                    _ => {
                        self.stack.push(value);
                        Ok(())
                    },
                }
            },
        }
    }

    /// Overwrite a variable of the current module.
    fn set_cur_variable(&mut self, name: String, value: ForthicValue)
        requires
            old(self).wf(),
            !reserved_name(name@),
        ensures
            final(self).wf(),
            final(self).stack == old(self).stack,
            final(self).arena@ == old(self).arena@,
            final(self).app_module == old(self).app_module,
            final(self).is_compiling == old(self).is_compiling,
            final(self).is_memo_definition == old(self).is_memo_definition,
            final(self).cur_definition == old(self).cur_definition,
            final(self).same_host(old(self)),
            final(self).module_stack@.len() == old(self).module_stack@.len(),
            forall|i: int|
                0 <= i < old(self).module_stack@.len() - 1 ==> final(self).module_stack@[i]
                    == old(self).module_stack@[i],
            final(self).module_stack@.last()@ == (ModuleSpec {
                variables: crate::module::spec_set_var(
                    old(self).cur_vars(),
                    name@,
                    value_view(value),
                ),
                ..old(self).module_stack@.last()@
            }),
    {
        let mut m = match self.module_stack.pop() {
            Some(m) => m,
            None => {
                proof {
                    assert(false);
                }
                Module::new(String::new())
            },
        };
        m.set_variable(name, value);
        self.module_stack.push(m);
        proof {
            assert(self.module_stack@.drop_last() =~= old(self).module_stack@.drop_last());
            assert forall|i: int|
                0 <= i < old(self).module_stack@.len() - 1 implies final(self).module_stack@[i]
                == old(self).module_stack@[i] by {
                assert(self.module_stack@[i] == self.module_stack@.drop_last()[i]);
            }
            assert forall|i: int|
                0 <= i < self.module_stack@.len() implies module_wf(
                (#[trigger] self.module_stack@[i])@,
                self.arena@.len() as int,
            ) by {
                if i < self.module_stack@.len() - 1 {
                    assert(self.module_stack@[i] == old(self).module_stack@[i]);
                } else {
                    assert(module_wf(old(self).module_stack@.last()@, self.arena@.len() as int));
                }
            }
        }
    }

    /// Fetch a variable of the current module, creating it as `Null`
    /// first when missing.
    fn fetch_cur_variable(&mut self, name: String) -> (r: ForthicValue)
        requires
            old(self).wf(),
        ensures
            final(self).wf(),
            final(self).stack == old(self).stack,
            final(self).arena@ == old(self).arena@,
            final(self).app_module == old(self).app_module,
            final(self).is_compiling == old(self).is_compiling,
            final(self).is_memo_definition == old(self).is_memo_definition,
            final(self).cur_definition == old(self).cur_definition,
            final(self).same_host(old(self)),
            final(self).module_stack@.len() == old(self).module_stack@.len(),
            forall|i: int|
                0 <= i < old(self).module_stack@.len() - 1 ==> final(self).module_stack@[i]
                    == old(self).module_stack@[i],
            final(self).module_stack@.last()@ == (ModuleSpec {
                variables: crate::module::spec_add_var(
                    old(self).cur_vars(),
                    name@,
                    ValueSpec::Null,
                ),
                ..old(self).module_stack@.last()@
            }),
            value_view(r) == (match spec_find_variable(
                crate::module::spec_add_var(old(self).cur_vars(), name@, ValueSpec::Null),
                name@,
            ) {
                Some(v) => v,
                None => ValueSpec::Null,
            }),
    {
        let mut m = match self.module_stack.pop() {
            Some(m) => m,
            None => {
                proof {
                    assert(false);
                }
                Module::new(String::new())
            },
        };
        m.add_variable(name.clone(), ForthicValue::Null);
        let value = match m.get_variable(name.as_str()) {
            Some(var) => var.get_value().clone(),
            None => ForthicValue::Null,
        };
        self.module_stack.push(m);
        proof {
            assert(self.module_stack@.drop_last() =~= old(self).module_stack@.drop_last());
            assert forall|i: int|
                0 <= i < old(self).module_stack@.len() - 1 implies final(self).module_stack@[i]
                == old(self).module_stack@[i] by {
                assert(self.module_stack@[i] == self.module_stack@.drop_last()[i]);
            }
            assert forall|i: int|
                0 <= i < self.module_stack@.len() implies module_wf(
                (#[trigger] self.module_stack@[i])@,
                self.arena@.len() as int,
            ) by {
                if i < self.module_stack@.len() - 1 {
                    assert(self.module_stack@[i] == old(self).module_stack@[i]);
                } else {
                    assert(module_wf(old(self).module_stack@.last()@, self.arena@.len() as int));
                    lemma_add_var_wf(old(self).cur_vars(), name@);
                }
            }
        }
        value
    }

    /// Declare every variable named in the array, skipping values that
    /// are not strings; a reserved name stops the walk.
    fn declare_variables(&mut self, names: Vec<ForthicValue>) -> (r: Result<(), ForthicError>)
        requires
            old(self).wf(),
        ensures
            final(self).wf(),
            final(self).stack == old(self).stack,
            final(self).arena@ == old(self).arena@,
            final(self).app_module == old(self).app_module,
            final(self).is_compiling == old(self).is_compiling,
            final(self).is_memo_definition == old(self).is_memo_definition,
            final(self).cur_definition == old(self).cur_definition,
            final(self).same_host(old(self)),
            final(self).module_stack@.len() == old(self).module_stack@.len(),
            forall|i: int|
                0 <= i < old(self).module_stack@.len() - 1 ==> final(self).module_stack@[i]
                    == old(self).module_stack@[i],
            ({
                let (e, vars2) = spec_declare_vars(old(self).cur_vars(), values_view(names@));
                final(self).module_stack@.last()@ == (ModuleSpec {
                    variables: vars2,
                    ..old(self).module_stack@.last()@
                }) && (match r {
                    Ok(()) => e is None,
                    Err(err) => e == Some(NativeErr::InvalidVar) && err is InvalidVariableName,
                })
            }),
    {
        proof {
            lemma_values_view(names@);
        }
        let ghost all = values_view(names@);
        proof {
            assert(all.skip(0) =~= all);
        }
        let mut k: usize = 0;
        let n = names.len();
        while k < n
            invariant
                k <= names@.len(),
                n == names@.len(),
                all == values_view(names@),
                names@.len() == all.len(),
                forall|j: int| 0 <= j < all.len() ==> all[j] == value_view(#[trigger] names@[j]),
                old(self).wf(),
                self.wf(),
                self.stack == old(self).stack,
                self.arena@ == old(self).arena@,
                self.app_module == old(self).app_module,
                self.is_compiling == old(self).is_compiling,
                self.is_memo_definition == old(self).is_memo_definition,
                self.cur_definition == old(self).cur_definition,
                self.same_host(old(self)),
                self.module_stack@.len() == old(self).module_stack@.len(),
                forall|i: int|
                    0 <= i < old(self).module_stack@.len() - 1 ==> self.module_stack@[i] == old(self).module_stack@[i],
                self.module_stack@.last()@ == (ModuleSpec {
                    variables: self.cur_vars(),
                    ..old(self).module_stack@.last()@
                }),
                spec_declare_vars(old(self).cur_vars(), all) == spec_declare_vars(
                    self.cur_vars(),
                    all.skip(k as int),
                ),
            decreases n - k,
        {
            let ghost pre_vars = self.cur_vars();
            let is_name = matches!(&names[k], ForthicValue::Str(_));
            if is_name {
                let varname = match &names[k] {
                    ForthicValue::Str(nm) => nm.clone(),
                    _ => {
                        proof {
                            assert(false);
                        }
                        String::new()
                    },
                };
                if name_reserved(varname.as_str()) {
                    proof {
                        assert(all.skip(k as int)[0] == all[k as int]);
                    }
                    return Err(ForthicError::InvalidVariableName {
                        forthic: String::new(),
                        varname,
                        location: None,
                        cause: None,
                    });
                }
                let mut m = match self.module_stack.pop() {
                    Some(m) => m,
                    None => {
                        proof {
                            assert(false);
                        }
                        Module::new(String::new())
                    },
                };
                m.add_variable(varname, ForthicValue::Null);
                self.module_stack.push(m);
                proof {
                    assert(self.module_stack@.drop_last() =~= old(self).module_stack@.drop_last());
                    assert forall|i: int|
                        0 <= i < old(self).module_stack@.len() - 1 implies self.module_stack@[i]
                        == old(self).module_stack@[i] by {
                        assert(self.module_stack@[i] == self.module_stack@.drop_last()[i]);
                    }
                    assert forall|i: int|
                        0 <= i < self.module_stack@.len() implies module_wf(
                        (#[trigger] self.module_stack@[i])@,
                        self.arena@.len() as int,
                    ) by {
                        if i < self.module_stack@.len() - 1 {
                            assert(self.module_stack@[i] == old(self).module_stack@[i]);
                        } else {
                            lemma_add_var_wf(pre_vars, all[k as int]->Str_0);
                        }
                    }
                }
            }
            k = k + 1;
            proof {
                assert(all.skip(k - 1)[0] == all[k - 1]);
                assert(all.skip(k - 1).skip(1) =~= all.skip(k as int));
            }
        }
        proof {
            assert(all.skip(n as int) =~= Seq::<ValueSpec>::empty());
        }
        Ok(())
    }
}

/// Creating a variable keeps names unique.
pub proof fn lemma_add_var_wf(vars: Seq<(Seq<char>, ValueSpec)>, name: Seq<char>)
    requires
        crate::module::vars_unique(vars),
    ensures
        crate::module::vars_unique(crate::module::spec_add_var(vars, name, ValueSpec::Null)),
{
    if crate::module::spec_find_variable(vars, name) is None {
        let b = vars.push((name, ValueSpec::Null));
        lemma_find_none_no_entry(vars, name);
        assert forall|i: int, j: int|
            0 <= i < j < b.len() implies (#[trigger] b[i]).0 != (#[trigger] b[j]).0 by {
            if j == b.len() - 1 {
                assert(b[i] == vars[i]);
            } else {
                assert(b[i] == vars[i]);
                assert(b[j] == vars[j]);
            }
        }
    }
}

/// A name that lookup misses stands in no entry.
pub proof fn lemma_find_none_no_entry(vars: Seq<(Seq<char>, ValueSpec)>, name: Seq<char>)
    requires
        crate::module::spec_find_variable(vars, name) is None,
    ensures
        forall|j: int| 0 <= j < vars.len() ==> (#[trigger] vars[j]).0 != name,
    decreases vars.len(),
{
    if vars.len() > 0 {
        lemma_find_none_no_entry(vars.drop_last(), name);
        assert(forall|j: int| 0 <= j < vars.len() - 1 ==> #[trigger] vars[j]
            == vars.drop_last()[j]);
    }
}

/// Whether a name starts with the reserved `__` prefix.
pub fn name_reserved(name: &str) -> (r: bool)
    ensures
        r == reserved_name(name@),
{
    let chars = string_to_chars(name);
    chars.len() >= 2 && chars[0] == '_' && chars[1] == '_'
}

/// Collecting an array: the values above the most recent start-array
/// marker, in stack order, and the stack below the marker; nothing when
/// no marker is on the stack.
pub open spec fn spec_collect_array(st: Seq<ValueSpec>) -> Option<
    (Seq<ValueSpec>, Seq<ValueSpec>),
>
    decreases st.len(),
{
    if st.len() == 0 {
        None
    } else if st.last() is StartArrayMarker {
        Some((st.drop_last(), Seq::empty()))
    } else {
        match spec_collect_array(st.drop_last()) {
            Some((rest, items)) => Some((rest, items.push(st.last()))),
            None => None,
        }
    }
}

/// Whether an error value is the one a failed native kind names.
pub open spec fn native_err_matches(k: NativeErr, e: &ForthicError, name: Seq<char>) -> bool {
    match k {
        NativeErr::Underflow => e is StackUnderflow,
        NativeErr::InvalidVar => e is InvalidVariableName,
        NativeErr::Failed => (e matches ForthicError::UnknownWord { word, .. } && word@ == name),
        NativeErr::Stop => e is IntentionalStop,
    }
}


/// The values a word provably pushes when it only pushes: a stored value,
/// a filled memo cache, a delegate to such a word, or a definition whose
/// body is made of such words, in order. Words with other effects have no
/// such list.
pub open spec fn def_pushes(arena: Seq<Word>, idx: int) -> Option<Seq<ValueSpec>>
    decreases idx, 1int,
{
    if 0 <= idx < arena.len() {
        match arena[idx] {
            Word::PushValue { value, .. } => Some(seq![value_view(value)]),
            Word::Memo { cache: Some(v), .. } => Some(seq![value_view(v)]),
            Word::Delegate { target, .. } => if target < idx {
                def_pushes(arena, target as int)
            } else {
                None
            },
            Word::Definition(d) => body_pushes(arena, d.words@, idx),
            _ => None,
        }
    } else {
        None
    }
}

/// The values a word list pushes when every word of it only pushes.
pub open spec fn body_pushes(arena: Seq<Word>, body: Seq<usize>, bound: int) -> Option<
    Seq<ValueSpec>,
>
    decreases bound, 0int, body.len(),
{
    if body.len() == 0 {
        Some(Seq::empty())
    } else if 0 <= body[0] < bound {
        match def_pushes(arena, body[0] as int) {
            Some(a) => match body_pushes(arena, body.skip(1), bound) {
                Some(b) => Some(a + b),
                None => None,
            },
            None => None,
        }
    } else {
        None
    }
}

/// What executing the word at `idx` did: the per-kind contract of
/// `execute_word`, relating the interpreter before and after and the
/// result.
///
/// A word that only pushes (`def_pushes`) pushes exactly its list and
/// touches nothing else — this covers plain values, filled memos,
/// delegates and definitions over them, however deeply nested, so the
/// early-binding guarantee is visible here: a compiled definition holds
/// arena indices, and what those words push is fixed by the arena, not by
/// later dictionary entries. A delegate behaves exactly as its target. A
/// memo refresh that fails leaves the cache as it was. A native word runs
/// `spec_native` and then its handler chain: an intentional stop is never
/// offered to any handler and always propagates with no handler trace,
/// any other error is offered to each handler in order until one accepts,
/// and when none does the original error comes back.
pub open spec fn exec_word_post<F: FloatParser>(
    pre: Interpreter<F>,
    post: Interpreter<F>,
    idx: int,
    r: Result<(), ForthicError>,
) -> bool
    decreases idx,
{
    &&& (match def_pushes(pre.arena@, idx) {
        Some(vs) => r is Ok && post.stack@ == pre.stack@ + vs && post.arena@ == pre.arena@
            && post.module_stack == pre.module_stack,
        None => true,
    })
    &&& (forall|j: int| idx < j < pre.arena@.len() ==> post.arena@[j] == pre.arena@[j])
    &&& (pre.arena@[idx] matches Word::PushValue { value, .. } ==> r is Ok && post.stack@
        == pre.stack@.push(value_view(value)) && post.arena@ == pre.arena@ && post.module_stack
        == pre.module_stack)
    &&& (pre.arena@[idx] matches Word::Memo { cache: Some(v), .. } ==> r is Ok && post.stack@
        == pre.stack@.push(value_view(v)) && post.arena@ == pre.arena@ && post.module_stack
        == pre.module_stack)
    &&& (pre.arena@[idx] matches Word::Memo { target, cache: None, .. } ==> (r is Ok
        ==> post.arena@[idx] matches Word::Memo { cache: Some(_), .. }) && (r is Err
        ==> post.arena@[idx] == pre.arena@[idx]) && (pre.arena@[target as int] matches
        Word::PushValue { value, .. } ==> r is Ok && post.stack@ == pre.stack@.push(
        value_view(value),
    ) && (post.arena@[idx] matches Word::Memo { cache: Some(cv), .. } && value_view(cv)
        == value_view(value)) && post.module_stack == pre.module_stack))
    &&& (pre.arena@[idx] matches Word::MemoBang { memo, .. } ==> (r is Ok
        ==> post.arena@[memo as int] matches Word::Memo { cache: Some(_), .. }) && (r is Err
        ==> post.arena@[memo as int] == pre.arena@[memo as int]) && (pre.arena@[memo as int]
        matches Word::Memo { target, .. } ==> (pre.arena@[target as int] matches Word::PushValue {
        value,
        ..
    } ==> r is Ok && post.stack@ == pre.stack@ && (post.arena@[memo as int] matches Word::Memo {
        cache: Some(cv),
        ..
    } && value_view(cv) == value_view(value)) && post.module_stack == pre.module_stack)))
    &&& (pre.arena@[idx] matches Word::MemoBangAt { memo, .. } ==> (r is Ok
        ==> post.arena@[memo as int] matches Word::Memo { cache: Some(_), .. }) && (r is Err
        ==> post.arena@[memo as int] == pre.arena@[memo as int]) && (pre.arena@[memo as int]
        matches Word::Memo { target, .. } ==> (pre.arena@[target as int] matches Word::PushValue {
        value,
        ..
    } ==> r is Ok && post.stack@ == pre.stack@.push(value_view(value)) && (post.arena@[memo as int]
        matches Word::Memo { cache: Some(cv), .. } && value_view(cv) == value_view(value))
        && post.module_stack == pre.module_stack)))
    &&& (pre.arena@[idx] matches Word::Delegate { target, .. } ==> (target < idx
        ==> exec_word_post(pre, post, target as int, r)))
    &&& (pre.arena@[idx] matches Word::Native { op, name, handlers, .. } ==> ({
        let o = spec_native(op, pre.stack@, pre.module_stack@.last()@.variables);
        &&& post.arena@ == pre.arena@
        &&& post.module_stack@.len() == pre.module_stack@.len()
        &&& (forall|i: int|
            0 <= i < pre.module_stack@.len() - 1 ==> post.module_stack@[i]
                == pre.module_stack@[i])
        &&& post.module_stack@.last()@ == (ModuleSpec {
            variables: o.vars,
            ..pre.module_stack@.last()@
        })
        &&& match o.err {
            None => r is Ok && post.stack@ == o.stack,
            Some(NativeErr::Stop) => (r matches Err(e) && e is IntentionalStop) && post.stack@
                == o.stack,
            Some(k) => post.stack@ == o.stack + chain_trace(handlers@) && (if chain_handles(
                handlers@,
            ) {
                r is Ok
            } else {
                (r matches Err(e) && native_err_matches(k, &e, name@))
            }),
        }
    }))
    &&& (pre.arena@[idx] matches Word::StartModule { name } ==> r is Ok && post.arena@
        == pre.arena@ && post.stack@ == pre.stack@ && open_module_post(pre, post, name@))
    &&& (pre.arena@[idx] is EndModule ==> post.arena@ == pre.arena@ && post.stack@ == pre.stack@
        && (pre.module_stack@.len() <= 1 ==> (r matches Err(e) && e is StackUnderflow)
        && post.module_stack == pre.module_stack) && (pre.module_stack@.len() > 1 ==> r is Ok
        && post.module_stack@ == pre.module_stack@.drop_last()))
    &&& (pre.arena@[idx] is EndArray ==> post.arena@ == pre.arena@ && post.module_stack
        == pre.module_stack && (match spec_collect_array(pre.stack@) {
        Some((rest, items)) => r is Ok && post.stack@ == rest.push(ValueSpec::Array(items)),
        None => (r matches Err(e) && e is StackUnderflow) && post.stack@ == Seq::<
            ValueSpec,
        >::empty(),
    }))
    &&& (pre.arena@[idx] matches Word::Definition(d) ==> (r matches Err(e) ==> e matches
        ForthicError::WordExecution { .. }))
}

/// What opening a module does to the module stack: an empty name pushes a
/// copy of the app module, a registered name pushes a copy of that
/// submodule, and a fresh name creates a module, registers it in the
/// current module under its own name as prefix, and pushes it.
pub open spec fn open_module_post<F: FloatParser>(
    pre: Interpreter<F>,
    post: Interpreter<F>,
    name: Seq<char>,
) -> bool {
    &&& post.module_stack@.len() == pre.module_stack@.len() + 1
    &&& (name == Seq::<char>::empty() ==> post.module_stack@.drop_last() == pre.module_stack@
        && post.module_stack@.last()@ == pre.app_module@)
    &&& (name != Seq::<char>::empty() ==> (match spec_find_module(
        pre.module_stack@.last()@.modules,
        name,
    ) {
        Some(ms) => post.module_stack@.drop_last() == pre.module_stack@
            && post.module_stack@.last()@ == ms,
        None => {
            let fresh = ModuleSpec {
                name: name,
                words: Seq::empty(),
                exportable: Seq::empty(),
                variables: Seq::empty(),
                modules: Seq::empty(),
                prefixes: Seq::empty(),
                forthic_code: Seq::<char>::empty(),
            };
            &&& post.module_stack@.last()@ == fresh
            &&& post.module_stack@.drop_last().drop_last() == pre.module_stack@.drop_last()
            &&& post.module_stack@[pre.module_stack@.len() - 1]@ == (ModuleSpec {
                modules: pre.module_stack@.last()@.modules.push((name, fresh)),
                prefixes: pre.module_stack@.last()@.prefixes.push((name, name)),
                ..pre.module_stack@.last()@
            })
        },
    }))
}

/// What a word does, read out of the arena for execution.
enum WordPlan {
    PushV(ForthicValue),
    Def(String, Vec<usize>, Option<CodeLocation>),
    MemoCached(ForthicValue),
    MemoEmpty,
    Bang(usize),
    BangAt(usize),
    Deleg(usize),
    Nat(NativeOp, String, Vec<HandlerAction>),
    StartMod(String),
    EndMod,
    EndArr,
}

impl<F: FloatParser> Interpreter<F> {
    /// Execute the word at an arena index against this interpreter.
    ///
    /// Execution never touches the compilation state, the app module, the
    /// tokenizer stack or the registered recognizers, and rewrites the
    /// arena only at memo caches. The clauses below pin down each word
    /// kind; for a native word they say exactly how the error-handler
    /// chain runs: an intentional stop is never offered to any handler
    /// and always propagates, any other error is offered to each handler
    /// in order until one accepts, and when none does the original error
    /// comes back.
    #[verifier::loop_isolation(false)]
    #[verifier::spinoff_prover]
    #[verifier::rlimit(100)]
    pub fn execute_word(&mut self, idx: usize) -> (r: Result<(), ForthicError>)
        requires
            old(self).wf(),
            idx < old(self).arena@.len(),
        ensures
            final(self).wf(),
            arena_same_shape(old(self).arena@, final(self).arena@),
            final(self).app_module == old(self).app_module,
            final(self).is_compiling == old(self).is_compiling,
            final(self).is_memo_definition == old(self).is_memo_definition,
            final(self).cur_definition == old(self).cur_definition,
            final(self).same_host(old(self)),
            final(self).module_stack@.len() >= 1,
            exec_word_post(*old(self), *final(self), idx as int, r),
        decreases idx, 1int,
    {
        let plan = match self.arena.get(idx) {
            Word::PushValue { value, .. } => WordPlan::PushV(value.clone()),
            Word::Definition(d) => WordPlan::Def(
                d.name.clone(),
                clone_indices(&d.words),
                match &d.location {
                    Some(l) => Some(l.clone()),
                    None => None,
                },
            ),
            Word::Memo { cache: Some(v), .. } => WordPlan::MemoCached(v.clone()),
            Word::Memo { cache: None, .. } => WordPlan::MemoEmpty,
            Word::MemoBang { memo, .. } => WordPlan::Bang(*memo),
            Word::MemoBangAt { memo, .. } => WordPlan::BangAt(*memo),
            Word::Delegate { target, .. } => WordPlan::Deleg(*target),
            Word::Native { name, op, handlers, .. } => WordPlan::Nat(
                *op,
                name.clone(),
                clone_handlers(handlers),
            ),
            Word::StartModule { name } => WordPlan::StartMod(name.clone()),
            Word::EndModule => WordPlan::EndMod,
            Word::EndArray => WordPlan::EndArr,
        };
        match plan {
            WordPlan::PushV(value) => {
                let ghost vv = value_view(value);
                self.stack.push(value);
                proof {
                    assert(old(self).stack@.push(vv) =~= old(self).stack@ + seq![vv]);
                }
                Ok(())
            },
            WordPlan::MemoCached(v) => {
                let ghost vv = value_view(v);
                self.stack.push(v);
                proof {
                    assert(old(self).stack@.push(vv) =~= old(self).stack@ + seq![vv]);
                }
                Ok(())
            },
            WordPlan::MemoEmpty => {
                match self.refresh_memo(idx) {
                    Ok(()) => {},
                    Err(e) => {
                        return Err(e);
                    },
                }
                let cached = match self.arena.get(idx) {
                    Word::Memo { cache: Some(v), .. } => Some(v.clone()),
                    _ => None,
                };
                match cached {
                    Some(v) => {
                        self.stack.push(v);
                    },
                    None => {},
                }
                Ok(())
            },
            WordPlan::Bang(memo) => {
                proof {
                    assert(crate::module::word_refs_below(
                        old(self).arena@[idx as int],
                        idx as int,
                    ));
                }
                self.refresh_memo(memo)
            },
            WordPlan::BangAt(memo) => {
                match self.refresh_memo(memo) {
                    Ok(()) => {},
                    Err(e) => {
                        return Err(e);
                    },
                }
                let cached = match self.arena.get(memo) {
                    Word::Memo { cache: Some(v), .. } => Some(v.clone()),
                    _ => None,
                };
                match cached {
                    Some(v) => {
                        self.stack.push(v);
                    },
                    None => {},
                }
                Ok(())
            },
            WordPlan::Deleg(target) => {
                proof {
                    assert(crate::module::word_refs_below(
                        old(self).arena@[idx as int],
                        idx as int,
                    ));
                }
                let r = self.execute_word(target);
                proof {
                    assert forall|j: int|
                        idx < j < old(self).arena@.len() implies self.arena@[j] == old(self).arena@[j] by {
                        assert(self.arena@[j] == old(self).arena@[j]);
                    }
                }
                r
            },
            WordPlan::Nat(op, name, handlers) => {
                let r = self.execute_native_word(op, name, handlers);
                proof {
                    assert(def_pushes(old(self).arena@, idx as int) is None);
                }
                r
            },
            WordPlan::StartMod(name) => {
                self.start_module(name);
                Ok(())
            },
            WordPlan::EndMod => {
                match self.module_stack_pop() {
                    Ok(_) => Ok(()),
                    Err(e) => Err(e),
                }
            },
            WordPlan::EndArr => self.end_array(),
            WordPlan::Def(name, body, location) => self.execute_definition(
                idx,
                name,
                body,
                location,
            ),
        }
    }


    /// Run a native word: the operation, then — for any failure but the
    /// intentional stop — its error-handler chain, each handler in order
    /// until one accepts; when none does, the original error returns.
    #[verifier::loop_isolation(false)]
    #[verifier::spinoff_prover]
    #[verifier::rlimit(100)]
    fn execute_native_word(
        &mut self,
        op: NativeOp,
        name: String,
        handlers: Vec<HandlerAction>,
    ) -> (r: Result<(), ForthicError>)
        requires
            old(self).wf(),
        ensures
            final(self).wf(),
            final(self).arena@ == old(self).arena@,
            final(self).app_module == old(self).app_module,
            final(self).is_compiling == old(self).is_compiling,
            final(self).is_memo_definition == old(self).is_memo_definition,
            final(self).cur_definition == old(self).cur_definition,
            final(self).same_host(old(self)),
            final(self).module_stack@.len() == old(self).module_stack@.len(),
            forall|i: int|
                0 <= i < old(self).module_stack@.len() - 1 ==> final(self).module_stack@[i]
                    == old(self).module_stack@[i],
            final(self).module_stack@.last()@ == (ModuleSpec {
                variables: spec_native(op, old(self).stack@, old(self).cur_vars()).vars,
                ..old(self).module_stack@.last()@
            }),
            ({
                let o = spec_native(op, old(self).stack@, old(self).cur_vars());
                match o.err {
                    None => r is Ok && final(self).stack@ == o.stack,
                    Some(NativeErr::Stop) => (r matches Err(e) && e is IntentionalStop) && final(self).stack@ == o.stack,
                    Some(k) => final(self).stack@ == o.stack + chain_trace(handlers@) && (if
                        chain_handles(handlers@) {
                        r is Ok
                    } else {
                        (r matches Err(e) && native_err_matches(k, &e, name@))
                    }),
                }
            }),
    {

                match self.run_native_op(op, name.as_str()) {
                    Ok(()) => Ok(()),
                    Err(e) => {
                        if matches!(e, ForthicError::IntentionalStop { .. }) {
                            return Err(ForthicError::IntentionalStop {
                                message: String::from_str("Intentional stop"),
                            });
                        }
                        let ghost base = self.stack@;
                        let ghost ms1 = self.module_stack;
                        let mut k: usize = 0;
                        proof {
                            assert(handlers@.skip(0) =~= handlers@);
                        }
                        while k < handlers.len()
                            invariant
                                k <= handlers@.len(),
                                old(self).wf(),
                                self.wf(),
                                self.arena@ == old(self).arena@,
                                self.app_module == old(self).app_module,
                                self.is_compiling == old(self).is_compiling,
                                self.is_memo_definition == old(self).is_memo_definition,
                                self.cur_definition == old(self).cur_definition,
                                self.same_host(old(self)),
                                self.module_stack == ms1,
                                chain_handles(handlers@) == chain_handles(handlers@.skip(k as int)),
                                base + chain_trace(handlers@) == self.stack@ + chain_trace(
                                    handlers@.skip(k as int),
                                ),
                            decreases handlers@.len() - k,
                        {
                            let action = handlers[k];
                            proof {
                                assert(handlers@.skip(k as int)[0] == handlers@[k as int]);
                                assert(handlers@.skip(k as int).skip(1) =~= handlers@.skip(
                                    k + 1,
                                ));
                            }
                            match action {
                                HandlerAction::Accept => {
                                    proof {
                                        assert(chain_trace(handlers@.skip(k as int))
                                            =~= Seq::<ValueSpec>::empty());
                                        assert(self.stack@ + Seq::<ValueSpec>::empty()
                                            =~= self.stack@);
                                    }
                                    return Ok(());
                                },
                                HandlerAction::PushAccept(v) => {
                                    self.stack.push(ForthicValue::Int(v));
                                    proof {
                                        assert(chain_trace(handlers@.skip(k as int)) =~= seq![
                                            ValueSpec::Int(v as int),
                                        ]);
                                        assert((self.stack@.drop_last() + chain_trace(
                                            handlers@.skip(k as int),
                                        )) =~= self.stack@);
                                    }
                                    return Ok(());
                                },
                                HandlerAction::Reject => {
                                },
                                HandlerAction::PushReject(v) => {
                                    self.stack.push(ForthicValue::Int(v));
                                    proof {
                                        assert(chain_trace(handlers@.skip(k as int)) =~= seq![
                                            ValueSpec::Int(v as int),
                                        ] + chain_trace(handlers@.skip(k + 1)));
                                        assert(self.stack@ + chain_trace(handlers@.skip(k + 1))
                                            =~= self.stack@.drop_last() + chain_trace(
                                            handlers@.skip(k as int),
                                        ));
                                    }
                                },
                            }
                            k = k + 1;
                        }
                        proof {
                            assert(handlers@.skip(handlers@.len() as int)
                                =~= Seq::<HandlerAction>::empty());
                            assert(self.stack@ + Seq::<ValueSpec>::empty() =~= self.stack@);
                        }
                        Err(e)
                    },
                }
                }

    /// Execute a definition: its compiled words in order, wrapping any
    /// failure in a word-execution error that carries the definition's
    /// name and location.
    #[verifier::loop_isolation(false)]
    #[verifier::spinoff_prover]
    #[verifier::rlimit(100)]
    fn execute_definition(
        &mut self,
        idx: usize,
        name: String,
        body: Vec<usize>,
        location: Option<CodeLocation>,
    ) -> (r: Result<(), ForthicError>)
        requires
            old(self).wf(),
            idx < old(self).arena@.len(),
            old(self).arena@[idx as int] matches Word::Definition(d) && d.words@ == body@,
        ensures
            final(self).wf(),
            arena_same_shape(old(self).arena@, final(self).arena@),
            final(self).app_module == old(self).app_module,
            final(self).is_compiling == old(self).is_compiling,
            final(self).is_memo_definition == old(self).is_memo_definition,
            final(self).cur_definition == old(self).cur_definition,
            final(self).same_host(old(self)),
            final(self).module_stack@.len() >= 1,
            forall|j: int|
                idx < j < old(self).arena@.len() ==> final(self).arena@[j] == old(self).arena@[j],
            (match def_pushes(old(self).arena@, idx as int) {
                Some(vs) => r is Ok && final(self).stack@ == old(self).stack@ + vs && final(self).arena@ == old(self).arena@ && final(self).module_stack == old(self).module_stack,
                None => true,
            }),
            r matches Err(e) ==> e matches ForthicError::WordExecution { .. },
        decreases idx, 0int,
    {

                let ghost w0 = idx;
                let ghost a0 = self.arena@;
                let ghost s0 = self.stack@;
                let ghost ms0 = self.module_stack;
                let ghost pushes = def_pushes(a0, w0 as int);
                let ghost mut done: int = 0;
                proof {
                    if pushes is Some {
                        assert(body_pushes(a0, body@, w0 as int) == pushes);
                        assert(body@.skip(0) =~= body@);
                        assert(pushes->Some_0.skip(0) =~= pushes->Some_0);
                        assert(s0 + pushes->Some_0.take(0) =~= s0);
                    }
                }
                let mut k: usize = 0;
                while k < body.len()
                    invariant
                        k <= body@.len(),
                        old(self).wf(),
                        self.wf(),
                        arena_same_shape(old(self).arena@, self.arena@),
                        forall|j: int|
                            w0 < j < old(self).arena@.len() ==> self.arena@[j] == old(self).arena@[j],
                        self.app_module == old(self).app_module,
                        self.is_compiling == old(self).is_compiling,
                        self.is_memo_definition == old(self).is_memo_definition,
                        self.cur_definition == old(self).cur_definition,
                        self.same_host(old(self)),
                        self.module_stack@.len() >= 1,
                        old(self).arena@[w0 as int] matches Word::Definition(d) && d.words@
                            == body@,
                        w0 < old(self).arena@.len(),
                        a0 == old(self).arena@,
                        s0 == old(self).stack@,
                        ms0 == old(self).module_stack,
                        pushes == def_pushes(a0, w0 as int),
                        (pushes matches Some(vs) ==> {
                            &&& self.arena@ == a0
                            &&& self.module_stack == ms0
                            &&& 0 <= done <= vs.len()
                            &&& self.stack@ == s0 + vs.take(done)
                            &&& body_pushes(a0, body@.skip(k as int), w0 as int) == Some(
                                vs.skip(done),
                            )
                        }),
                    decreases body@.len() - k,
                {
                    let widx = body[k];
                    proof {
                        assert(crate::module::word_refs_below(
                            old(self).arena@[w0 as int],
                            w0 as int,
                        ));
                        assert(body@[k as int] < w0);
                    }
                    let ghost pre_arena = self.arena@;
                    let ghost pre_state = *self;
                    match self.execute_word(widx) {
                        Ok(()) => {
                            proof {
                                lemma_same_shape_trans(old(self).arena@, pre_arena, self.arena@);
                                assert forall|j: int|
                                    w0 < j < old(self).arena@.len() implies self.arena@[j] == old(self).arena@[j] by {
                                    assert(self.arena@[j] == pre_arena[j]);
                                }
                                if pushes is Some {
                                    let vs = pushes->Some_0;
                                    let prev_done = done;
                                    assert(body@.skip(k as int)[0] == body@[k as int]);
                                    assert(body@.skip(k as int).skip(1) =~= body@.skip(k + 1));
                                    let rest = vs.skip(prev_done);
                                    assert(def_pushes(a0, body@[k as int] as int) is Some);
                                    let a = def_pushes(a0, body@[k as int] as int)->Some_0;
                                    assert(body_pushes(a0, body@.skip(k + 1), w0 as int) == Some(
                                        rest.skip(a.len() as int),
                                    )) by {
                                        assert(rest == a + body_pushes(
                                            a0,
                                            body@.skip(k + 1),
                                            w0 as int,
                                        )->Some_0);
                                        assert((a + body_pushes(
                                            a0,
                                            body@.skip(k + 1),
                                            w0 as int,
                                        )->Some_0).skip(a.len() as int) =~= body_pushes(
                                            a0,
                                            body@.skip(k + 1),
                                            w0 as int,
                                        )->Some_0);
                                    }
                                    assert(self.stack@ == pre_state.stack@ + a);
                                    done = prev_done + a.len();
                                    assert(vs =~= vs.take(prev_done) + vs.skip(prev_done));
                                    assert(vs.take(done) =~= vs.take(prev_done) + a) by {
                                        assert(rest == a + rest.skip(a.len() as int));
                                        assert forall|t: int|
                                            0 <= t < done implies vs.take(done)[t] == (vs.take(
                                            prev_done,
                                        ) + a)[t] by {
                                            if t >= prev_done {
                                                assert(vs[t] == rest[t - prev_done]);
                                                assert(rest[t - prev_done] == a[t - prev_done]);
                                            }
                                        }
                                    }
                                    assert(self.stack@ == s0 + vs.take(done)) by {
                                        assert((s0 + vs.take(prev_done)) + a =~= s0 + (vs.take(
                                            prev_done,
                                        ) + a));
                                    }
                                    assert(vs.skip(done) =~= rest.skip(a.len() as int));
                                }
                            }
                        },
                        Err(e) => {
                            proof {
                                lemma_same_shape_trans(old(self).arena@, pre_arena, self.arena@);
                                assert forall|j: int|
                                    w0 < j < old(self).arena@.len() implies self.arena@[j] == old(self).arena@[j] by {
                                    assert(self.arena@[j] == pre_arena[j]);
                                }
                                if pushes is Some {
                                    assert(body@.skip(k as int)[0] == body@[k as int]);
                                    assert(def_pushes(a0, body@[k as int] as int) is Some);
                                    assert(false);
                                }
                            }
                            let mut message = String::from_str("Error executing ");
                            message.append(name.as_str());
                            return Err(ForthicError::WordExecution {
                                message,
                                inner_error: Box::new(e),
                                call_location: None,
                                definition_location: location,
                            });
                        },
                    }
                    k = k + 1;
                }
                proof {
                    if pushes is Some {
                        let vs = pushes->Some_0;
                        assert(body@.skip(body@.len() as int) =~= Seq::<usize>::empty());
                        assert(body_pushes(a0, Seq::<usize>::empty(), w0 as int) == Some(
                            Seq::<ValueSpec>::empty(),
                        ));
                        assert(vs.skip(done).len() == 0);
                        assert(done == vs.len());
                        assert(vs.take(done) =~= vs);
                    }
                }
                Ok(())
                }

    /// Refresh a memo word: run its target, pop the result, and overwrite
    /// the cache with it; the refreshed value is not pushed.
    fn refresh_memo(&mut self, midx: usize) -> (r: Result<(), ForthicError>)
        requires
            old(self).wf(),
            midx < old(self).arena@.len(),
            old(self).arena@[midx as int] is Memo,
        ensures
            final(self).wf(),
            arena_same_shape(old(self).arena@, final(self).arena@),
            final(self).app_module == old(self).app_module,
            final(self).is_compiling == old(self).is_compiling,
            final(self).is_memo_definition == old(self).is_memo_definition,
            final(self).cur_definition == old(self).cur_definition,
            final(self).same_host(old(self)),
            final(self).module_stack@.len() >= 1,
            r is Ok ==> final(self).arena@[midx as int] matches Word::Memo { cache: Some(_), .. },
            r is Err ==> final(self).arena@[midx as int] == old(self).arena@[midx as int],
            forall|j: int|
                midx < j < old(self).arena@.len() ==> final(self).arena@[j] == old(self).arena@[j],
            (old(self).arena@[midx as int] matches Word::Memo { target, .. } ==> (old(self).arena@[target as int] matches Word::PushValue { value, .. } ==> r is Ok && final(self).stack@ == old(self).stack@ && (final(self).arena@[midx as int] matches Word::Memo {
                cache: Some(cv),
                ..
            } && value_view(cv) == value_view(value)) && final(self).module_stack == old(self).module_stack && (forall|i: int|
                0 <= i < old(self).arena@.len() && i != midx ==> final(self).arena@[i] == old(self).arena@[i]))),
        decreases midx, 0int,
    {
        let target = match self.arena.get(midx) {
            Word::Memo { target, .. } => *target,
            _ => {
                proof {
                    assert(false);
                }
                0
            },
        };
        proof {
            assert(crate::module::word_refs_below(old(self).arena@[midx as int], midx as int));
        }
        let ghost pre_arena = self.arena@;
        match self.execute_word(target) {
            Ok(()) => {},
            Err(e) => {
                return Err(e);
            },
        }
        let value = match self.stack.pop() {
            Ok(v) => v,
            Err(e) => {
                return Err(e);
            },
        };
        proof {
            assert(self.arena@[midx as int] is Memo) by {
                assert(word_same_shape(old(self).arena@[midx as int], self.arena@[midx as int]));
            }
        }
        let ghost pre2 = self.arena@;
        self.arena.set_memo_cache(midx, Some(value));
        proof {
            assert(arena_same_shape(pre2, self.arena@)) by {
                assert forall|i: int|
                    0 <= i < pre2.len() implies word_same_shape(
                    #[trigger] pre2[i],
                    #[trigger] self.arena@[i],
                ) by {
                    if i != midx {
                        assert(self.arena@[i] == pre2[i]);
                    }
                }
            }
            lemma_same_shape_trans(old(self).arena@, pre2, self.arena@);
            lemma_same_shape_wf(old(self).arena@, self.arena@);
            assert forall|i: int|
                0 <= i < self.module_stack@.len() implies module_wf(
                (#[trigger] self.module_stack@[i])@,
                self.arena@.len() as int,
            ) by {}
        }
        Ok(())
    }

    /// Open a module: an empty name pushes a copy of the app module; a
    /// known name pushes a copy of the registered submodule; a new name
    /// creates a module, registers it in the current module under its own
    /// name, and pushes it.
    #[verifier::spinoff_prover]
    fn start_module(&mut self, name: String)
        requires
            old(self).wf(),
        ensures
            final(self).wf(),
            final(self).arena@ == old(self).arena@,
            final(self).stack@ == old(self).stack@,
            final(self).app_module == old(self).app_module,
            final(self).is_compiling == old(self).is_compiling,
            final(self).is_memo_definition == old(self).is_memo_definition,
            final(self).cur_definition == old(self).cur_definition,
            final(self).same_host(old(self)),
            open_module_post(*old(self), *final(self), name@),
    {
        if name.as_str().unicode_len() == 0 {
            proof {
                assert(name@ =~= Seq::<char>::empty());
            }
            let copy = self.app_module.clone();
            self.module_stack_push(copy);
            proof {
                assert(self.module_stack@.drop_last() =~= old(self).module_stack@);
            }
            return;
        }
        let found = match self.cur_module().find_module(name.as_str()) {
            Some(m) => Some(m.clone()),
            None => None,
        };
        match found {
            Some(m) => {
                proof {
                    assert(module_wf(old(self).module_stack@.last()@, self.arena@.len() as int));
                    crate::module::lemma_find_module_wf(
                        old(self).module_stack@.last()@.modules,
                        name@,
                        self.arena@.len() as int,
                    );
                }
                self.module_stack_push(m);
                proof {
                    assert(self.module_stack@.drop_last() =~= old(self).module_stack@);
                }
            },
            None => {
                self.start_module_create(name);
            },
        }
    }

    /// Create a module under a new name, register it in the current
    /// module under its own name as prefix, and push it.
    #[verifier::spinoff_prover]
    #[verifier::rlimit(100)]
    fn start_module_create(&mut self, name: String)
        requires
            old(self).wf(),
            spec_find_module(old(self).module_stack@.last()@.modules, name@) is None,
        ensures
            final(self).wf(),
            final(self).arena@ == old(self).arena@,
            final(self).stack@ == old(self).stack@,
            final(self).app_module == old(self).app_module,
            final(self).is_compiling == old(self).is_compiling,
            final(self).is_memo_definition == old(self).is_memo_definition,
            final(self).cur_definition == old(self).cur_definition,
            final(self).same_host(old(self)),
            final(self).module_stack@.len() == old(self).module_stack@.len() + 1,
            ({
                let fresh = ModuleSpec {
                    name: name@,
                    words: Seq::empty(),
                    exportable: Seq::empty(),
                    variables: Seq::empty(),
                    modules: Seq::empty(),
                    prefixes: Seq::empty(),
                    forthic_code: Seq::<char>::empty(),
                };
                &&& final(self).module_stack@.last()@ == fresh
                &&& final(self).module_stack@.drop_last().drop_last() == old(self).module_stack@.drop_last()
                &&& final(self).module_stack@[old(self).module_stack@.len() - 1]@ == (ModuleSpec {
                    modules: old(self).module_stack@.last()@.modules.push((name@, fresh)),
                    prefixes: old(self).module_stack@.last()@.prefixes.push((name@, name@)),
                    ..old(self).module_stack@.last()@
                })
            }),
    {
        let fresh = Module::new(name.clone());
        let fresh_copy = fresh.clone();
        let mut top = match self.module_stack.pop() {
            Some(m) => m,
            None => {
                proof {
                    assert(false);
                }
                Module::new(String::new())
            },
        };
        let name2 = name.clone();
        top.register_module(name, name2, fresh_copy);
        self.module_stack.push(top);
        proof {
            assert(self.module_stack@.drop_last() =~= old(self).module_stack@.drop_last());
            assert forall|i: int|
                0 <= i < self.module_stack@.len() implies module_wf(
                (#[trigger] self.module_stack@[i])@,
                self.arena@.len() as int,
            ) by {
                if i < self.module_stack@.len() - 1 {
                    assert(self.module_stack@[i] == old(self).module_stack@[i]);
                } else {
                    assert(module_wf(old(self).module_stack@.last()@, self.arena@.len() as int));
                    crate::module::lemma_submodules_push_wf(
                        old(self).module_stack@.last()@,
                        self.module_stack@.last()@,
                        self.arena@.len() as int,
                    );
                }
            }
        }
        let ghost mid = self.module_stack@;
        self.module_stack_push(fresh);
        proof {
            assert(self.module_stack@.drop_last() =~= mid);
            assert(self.module_stack@.drop_last().drop_last() =~= old(self).module_stack@.drop_last());
            assert(self.module_stack@[old(self).module_stack@.len() - 1] == mid.last());
        }
    }

    /// Collect the values above the most recent start-array marker into
    /// an array, in order, and push it; underflows when no marker is on
    /// the stack, which empties the stack.
    fn end_array(&mut self) -> (r: Result<(), ForthicError>)
        requires
            old(self).wf(),
        ensures
            final(self).wf(),
            final(self).arena@ == old(self).arena@,
            final(self).app_module == old(self).app_module,
            final(self).module_stack == old(self).module_stack,
            final(self).is_compiling == old(self).is_compiling,
            final(self).is_memo_definition == old(self).is_memo_definition,
            final(self).cur_definition == old(self).cur_definition,
            final(self).same_host(old(self)),
            match spec_collect_array(old(self).stack@) {
                Some((rest, items)) => r is Ok && final(self).stack@ == rest.push(
                    ValueSpec::Array(items),
                ),
                None => (r matches Err(e) && e is StackUnderflow) && final(self).stack@ == Seq::<
                    ValueSpec,
                >::empty(),
            },
    {
        let mut popped: Vec<ForthicValue> = Vec::new();
        let ghost st0 = self.stack@;
        proof {
            lemma_values_view(popped@);
            assert(values_view(popped@) =~= Seq::<ValueSpec>::empty());
        }
        loop
            invariant
                old(self).wf(),
                self.wf(),
                self.arena@ == old(self).arena@,
                self.app_module == old(self).app_module,
                self.module_stack == old(self).module_stack,
                self.is_compiling == old(self).is_compiling,
                self.is_memo_definition == old(self).is_memo_definition,
                self.cur_definition == old(self).cur_definition,
                self.same_host(old(self)),
                st0 == old(self).stack@,
                (spec_collect_array(st0) is None) == (spec_collect_array(self.stack@) is None),
                (spec_collect_array(st0) matches Some((rest0, items0)) ==> (
                    spec_collect_array(self.stack@) matches Some((rest1, items1)) && rest1 == rest0
                        && items0 == items1 + values_view(popped@).reverse())),
            decreases self.stack@.len(),
        {
            let ghost pre = self.stack@;
            let item = match self.stack.pop() {
                Ok(v) => v,
                Err(e) => {
                    proof {
                        assert(spec_collect_array(pre) is None);
                    }
                    return Err(e);
                },
            };
            if matches!(item, ForthicValue::StartArrayMarker) {
                proof {
                    assert(spec_collect_array(pre) matches Some((rest1, items1)) && rest1
                        == pre.drop_last() && items1 =~= Seq::<ValueSpec>::empty());
                }
                let mut items: Vec<ForthicValue> = Vec::new();
                proof {
                    lemma_values_view(popped@);
                    lemma_values_view(items@);
                }
                let mut j: usize = popped.len();
                while j > 0
                    invariant
                        j <= popped@.len(),
                        items@.len() == popped@.len() - j,
                        forall|t: int|
                            0 <= t < items@.len() ==> value_view(#[trigger] items@[t])
                                == value_view(popped@[popped@.len() - 1 - t]),
                    decreases j,
                {
                    j = j - 1;
                    let v = popped[j].clone();
                    items.push(v);
                }
                proof {
                    lemma_values_view(items@);
                    lemma_values_view(popped@);
                    assert(values_view(items@) =~= values_view(popped@).reverse());
                }
                self.stack.push(ForthicValue::Array(items));
                return Ok(());
            }
            proof {
                assert(spec_collect_array(pre) matches Some((r2, i2)) ==> (
                    spec_collect_array(pre.drop_last()) matches Some((r3, i3)) && r3 == r2 && i2
                        == i3.push(pre.last())));
                assert(spec_collect_array(pre) is None ==> spec_collect_array(
                    pre.drop_last(),
                ) is None || pre.len() == 0);
                lemma_values_view(popped@);
            }
            let ghost p0 = popped@;
            popped.push(item);
            proof {
                lemma_values_view(popped@);
                assert(values_view(popped@) =~= values_view(p0).push(pre.last())) by {
                    crate::literals::lemma_values_view(p0);
                    assert(popped@.drop_last() =~= p0);
                    crate::interpreter::lemma_push_view(p0, popped@, pre.last());
                }
                assert(values_view(popped@).reverse() =~= seq![pre.last()] + values_view(
                    p0,
                ).reverse());
                if spec_collect_array(st0) is Some {
                    let pair0 = spec_collect_array(st0)->Some_0;
                    assert(pair0.1 =~= (spec_collect_array(self.stack@)->Some_0.1).push(
                        pre.last(),
                    ) + values_view(p0).reverse());
                }
            }
        }
    }
}

/// What word lookup in one module yields: an existing dictionary word, or
/// the value of a variable that a fresh word will push.
pub ghost enum FindHit {
    Dict(usize),
    Var(ValueSpec),
}

/// Word lookup across the module stack, innermost first: within each
/// module dictionary words shadow variables, and a module that yields
/// nothing passes the search on outward.
pub open spec fn spec_stack_find(mods: Seq<Module>, arena: Seq<Word>, name: Seq<char>) -> Option<
    FindHit,
>
    decreases mods.len(),
{
    if mods.len() == 0 {
        None
    } else {
        match spec_find_dictionary(mods.last()@.words, arena, name) {
            Some(i) => Some(FindHit::Dict(i)),
            None => match spec_find_variable(mods.last()@.variables, name) {
                Some(v) => Some(FindHit::Var(v)),
                None => spec_stack_find(mods.drop_last(), arena, name),
            },
        }
    }
}

/// Adding a word that is not a memo-refresh word keeps memo links intact.
#[verifier::spinoff_prover]
#[verifier::rlimit(50)]
pub proof fn lemma_memo_links_push(a: Seq<Word>, b: Seq<Word>)
    requires
        memo_links_ok(a),
        b.len() == a.len() + 1,
        forall|i: int| 0 <= i < a.len() ==> b[i] == a[i],
        memo_link_of(b.last()) is None,
    ensures
        memo_links_ok(b),
{
    assert forall|i: int|
        0 <= i < b.len() implies (match memo_link_of(#[trigger] b[i]) {
        Some(m) => b[m as int] is Memo,
        None => true,
    }) by {
        if i < a.len() {
            assert(b[i] == a[i]);
            assert(match memo_link_of(a[i]) {
                Some(m) => m < i && a[m as int] is Memo,
                None => true,
            });
            match memo_link_of(a[i]) {
                Some(m) => {
                    assert(b[m as int] == a[m as int]);
                },
                None => {},
            }
        }
    }
}

impl<F: FloatParser> Interpreter<F> {
    /// Try the registered literal recognizers on a word, in order, and
    /// allocate a word pushing the first recognized value.
    ///
    /// The recognizer chain is a function of the text and of what the
    /// host's float parser answers; the clauses name the chain's result
    /// for the answer that was observed.
    #[verifier::loop_isolation(false)]
    #[verifier::spinoff_prover]
    #[verifier::rlimit(100)]
    pub fn find_literal_word(&mut self, name: &str) -> (r: Option<usize>)
        requires
            old(self).wf(),
        ensures
            final(self).wf(),
            *final(self) == (Interpreter { arena: final(self).arena, ..*old(self) }),
            match r {
                Some(i) => i == old(self).arena@.len() && final(self).arena@.len() == old(self).arena@.len() + 1 && final(self).arena@.drop_last() == old(self).arena@ && (final(self).arena@.last() matches Word::PushValue { name: wn, value, location } && wn@
                    == name@ && location is None && (value_view(value) matches ValueSpec::Float(b)
                    ==> (exists|t: Option<Date>|
                    wf_today(t) && spec_find_literal(
                        old(self).literal_handlers@,
                        name@,
                        old(self).timezone@,
                        Some(b),
                        t,
                    ) == Some(value_view(value)))) && (!(value_view(value) is Float) ==> (exists|
                    t: Option<Date>,
                |
                    wf_today(t) && spec_find_literal(
                        old(self).literal_handlers@,
                        name@,
                        old(self).timezone@,
                        None,
                        t,
                    ) == Some(value_view(value))))),
                None => *final(self) == *old(self) && (exists|t: Option<Date>|
                    wf_today(t) && spec_find_literal(
                        old(self).literal_handlers@,
                        name@,
                        old(self).timezone@,
                        None,
                        t,
                    ) is None),
            },
    {
        let ghost handlers = self.literal_handlers@;
        // The wrapper promises a real calendar date but no year range; the
        // wildcard arithmetic needs one, so an out-of-range year counts as
        // no usable current date.
        let today: Option<Date> = match crate::tz::today_in_tz(self.get_timezone()) {
            Some(d) => if 1 <= d.year && d.year <= 9999 {
                Some(d)
            } else {
                None
            },
            None => None,
        };
        let ghost gt = today;
        let mut k: usize = 0;
        proof {
            assert(handlers.skip(0) =~= handlers);
        }
        while k < self.literal_handlers.len()
            invariant
                k <= handlers.len(),
                *self == *old(self),
                handlers == self.literal_handlers@,
                wf_today(gt),
                today == gt,
                spec_find_literal(handlers, name@, self.timezone@, None, gt) == spec_find_literal(
                    handlers.skip(k as int),
                    name@,
                    self.timezone@,
                    None,
                    gt,
                ),
                forall|b: u64|
                    #![trigger spec_find_literal(handlers, name@, self.timezone@, Some(b), gt)]
                    spec_find_literal(handlers, name@, self.timezone@, Some(b), gt) == Some(
                        ValueSpec::Float(b),
                    ) || spec_find_literal(handlers, name@, self.timezone@, Some(b), gt)
                        == spec_find_literal(
                        handlers.skip(k as int),
                        name@,
                        self.timezone@,
                        Some(b),
                        gt,
                    ),
            decreases handlers.len() - k,
        {
            let h = self.literal_handlers[k];
            proof {
                assert(handlers.skip(k as int)[0] == handlers[k as int]);
                assert(handlers.skip(k as int).skip(1) =~= handlers.skip(k + 1));
            }
            let attempt: Option<ForthicValue> = match h {
                LiteralHandler::Bool => to_bool(name),
                LiteralHandler::Time => to_time(name),
                LiteralHandler::Int => to_int(name),
                LiteralHandler::ZonedDateTime => to_zoned_datetime(name, self.get_timezone()),
                LiteralHandler::Date => {
                    match &today {
                        Some(t) => to_literal_date_with(name, *t),
                        None => None,
                    }
                },
                LiteralHandler::Float => {
                    if has_dot(name) {
                        match self.float_parser.parse_bits(name) {
                            Some(bits) => Some(ForthicValue::Float(bits)),
                            None => None,
                        }
                    } else {
                        None
                    }
                },
            };
            match attempt {
                Some(v) => {
                    proof {
                        if h is Float {
                            let b = value_view(v)->Float_0;
                            assert(spec_apply_literal(
                                handlers[k as int],
                                name@,
                                self.timezone@,
                                Some(b),
                                gt,
                            ) == Some(ValueSpec::Float(b)));
                            assert(spec_find_literal(
                                handlers.skip(k as int),
                                name@,
                                self.timezone@,
                                Some(b),
                                gt,
                            ) == Some(ValueSpec::Float(b)));
                        } else {
                            assert(spec_apply_literal(
                                handlers[k as int],
                                name@,
                                self.timezone@,
                                None,
                                gt,
                            ) == Some(value_view(v)));
                        }
                    }
                    let word = Word::PushValue { name: name.to_owned(), value: v, location: None };
                    let idx = self.arena.intern(word);
                    proof {
                        assert(self.arena@.drop_last() =~= old(self).arena@);
                        lemma_memo_links_push(old(self).arena@, self.arena@);
                        assert forall|i: int|
                            0 <= i < self.module_stack@.len() implies module_wf(
                            (#[trigger] self.module_stack@[i])@,
                            self.arena@.len() as int,
                        ) by {
                            crate::module::lemma_module_wf_grow(
                                self.module_stack@[i]@,
                                old(self).arena@.len() as int,
                                self.arena@.len() as int,
                            );
                        }
                        crate::module::lemma_module_wf_grow(
                            self.app_module@,
                            old(self).arena@.len() as int,
                            self.arena@.len() as int,
                        );
                    }
                    return Some(idx);
                },
                None => {
                    proof {
                        assert(spec_apply_literal(
                            handlers[k as int],
                            name@,
                            self.timezone@,
                            None,
                            gt,
                        ) is None);
                        if handlers[k as int] is Float {
                            assert forall|b: u64|
                                #![trigger spec_find_literal(handlers, name@, self.timezone@, Some(b), gt)]
                                spec_find_literal(handlers, name@, self.timezone@, Some(b), gt)
                                == Some(ValueSpec::Float(b)) || spec_find_literal(
                                handlers,
                                name@,
                                self.timezone@,
                                Some(b),
                                gt,
                            ) == spec_find_literal(
                                handlers.skip(k + 1),
                                name@,
                                self.timezone@,
                                Some(b),
                                gt,
                            ) by {
                                if contains_dot(name@) {
                                    assert(spec_apply_literal(
                                        handlers[k as int],
                                        name@,
                                        self.timezone@,
                                        Some(b),
                                        gt,
                                    ) == Some(ValueSpec::Float(b)));
                                }
                            }
                        } else {
                            assert(forall|b: u64|
                                spec_apply_literal(handlers[k as int], name@, self.timezone@, Some(b), gt)
                                    == spec_apply_literal(
                                    handlers[k as int],
                                    name@,
                                    self.timezone@,
                                    None,
                                    gt,
                                ));
                        }
                    }
                },
            }
            k = k + 1;
        }
        proof {
            assert(handlers.skip(handlers.len() as int) =~= Seq::<LiteralHandler>::empty());
        }
        None
    }

    /// Find a word: scan the module stack innermost first, dictionary
    /// words before variables within each module, and fall back to the
    /// literal recognizers; an unresolved name is an unknown word.
    #[verifier::loop_isolation(false)]
    #[verifier::spinoff_prover]
    #[verifier::rlimit(100)]
    pub fn find_word(&mut self, name: &str) -> (r: Result<usize, ForthicError>)
        requires
            old(self).wf(),
        ensures
            final(self).wf(),
            *final(self) == (Interpreter { arena: final(self).arena, ..*old(self) }),
            final(self).arena@.len() >= old(self).arena@.len(),
            forall|i: int| 0 <= i < old(self).arena@.len() ==> final(self).arena@[i] == old(self).arena@[i],
            r matches Ok(i) ==> i < final(self).arena@.len(),
            match spec_stack_find(old(self).module_stack@, old(self).arena@, name@) {
                Some(FindHit::Dict(i)) => r == Ok::<usize, ForthicError>(i) && *final(self)
                    == *old(self),
                Some(FindHit::Var(v)) => (r matches Ok(i) && i == old(self).arena@.len()) && final(self).arena@.len() == old(self).arena@.len() + 1 && (final(self).arena@.last() matches Word::PushValue { name: wn, value, location } && wn@
                    == name@ && value_view(value) == v && location is None),
                None => match r {
                    Ok(i) => i == old(self).arena@.len() && final(self).arena@.len() == old(self).arena@.len() + 1 && (final(self).arena@.last() matches Word::PushValue {
                        name: wn,
                        value,
                        location,
                    } && wn@ == name@ && location is None && (value_view(value) matches
                        ValueSpec::Float(b) ==> (exists|t: Option<Date>|
                        wf_today(t) && spec_find_literal(
                            old(self).literal_handlers@,
                            name@,
                            old(self).timezone@,
                            Some(b),
                            t,
                        ) == Some(value_view(value)))) && (!(value_view(value) is Float) ==> (
                    exists|t: Option<Date>|
                        wf_today(t) && spec_find_literal(
                            old(self).literal_handlers@,
                            name@,
                            old(self).timezone@,
                            None,
                            t,
                        ) == Some(value_view(value))))),
                    Err(e) => *final(self) == *old(self) && (e matches
                        ForthicError::UnknownWord { word, .. } && word@ == name@) && (exists|
                        t: Option<Date>,
                    |
                        wf_today(t) && spec_find_literal(
                            old(self).literal_handlers@,
                            name@,
                            old(self).timezone@,
                            None,
                            t,
                        ) is None),
                },
            },
    {
        let ghost mods0 = self.module_stack@;
        let ghost a0 = self.arena@;
        let mut level: usize = self.module_stack.len();
        proof {
            assert(mods0.take(mods0.len() as int) =~= mods0);
        }
        while level > 0
            invariant
                level <= mods0.len(),
                self.wf(),
                self.arena@ == a0,
                self.arena == old(self).arena,
                self.module_stack == old(self).module_stack,
                self.stack == old(self).stack,
                self.app_module == old(self).app_module,
                self.tokenizer_stack == old(self).tokenizer_stack,
                self.timezone == old(self).timezone,
                self.is_compiling == old(self).is_compiling,
                self.is_memo_definition == old(self).is_memo_definition,
                self.cur_definition == old(self).cur_definition,
                self.literal_handlers == old(self).literal_handlers,
                self.float_parser == old(self).float_parser,
                spec_stack_find(mods0, a0, name@) == spec_stack_find(
                    mods0.take(level as int),
                    a0,
                    name@,
                ),
            decreases level,
        {
            level = level - 1;
            let ghost pre = mods0.take(level + 1);
            proof {
                assert(pre.last() == mods0[level as int]);
                assert(pre.drop_last() =~= mods0.take(level as int));
                assert(module_wf(mods0[level as int]@, self.arena@.len() as int));
            }
            let found = self.module_stack[level].find_word(&mut self.arena, name);
            proof {
                if self.arena == old(self).arena {
                    assert(*self == *old(self));
                }
                let dict = spec_find_dictionary(mods0[level as int]@.words, a0, name@);
                let varr = spec_find_variable(mods0[level as int]@.variables, name@);
                if dict is Some {
                    assert(spec_stack_find(pre, a0, name@) == Some(FindHit::Dict(dict->Some_0)));
                    crate::module::lemma_find_dictionary_in_range(
                        mods0[level as int]@.words,
                        a0,
                        name@,
                        a0.len() as int,
                    );
                } else if varr is Some {
                    assert(spec_stack_find(pre, a0, name@) == Some(FindHit::Var(varr->Some_0)));
                } else {
                    assert(spec_stack_find(pre, a0, name@) == spec_stack_find(
                        mods0.take(level as int),
                        a0,
                        name@,
                    ));
                }
            }
            match found {
                Some(i) => {
                    proof {
                        if self.arena@.len() > a0.len() {
                            assert(self.arena@.drop_last() == a0);
                            assert forall|j: int| 0 <= j < a0.len() implies self.arena@[j]
                                == a0[j] by {
                                assert(self.arena@.drop_last()[j] == self.arena@[j]);
                            }
                            lemma_memo_links_push(a0, self.arena@);
                            assert forall|j: int|
                                0 <= j < self.module_stack@.len() implies module_wf(
                                (#[trigger] self.module_stack@[j])@,
                                self.arena@.len() as int,
                            ) by {
                                crate::module::lemma_module_wf_grow(
                                    self.module_stack@[j]@,
                                    a0.len() as int,
                                    self.arena@.len() as int,
                                );
                            }
                            crate::module::lemma_module_wf_grow(
                                self.app_module@,
                                a0.len() as int,
                                self.arena@.len() as int,
                            );
                            match &self.cur_definition {
                                Some(d) => {
                                    assert(words_ok(d.words@, self.arena@.len() as int));
                                },
                                None => {},
                            }
                        }
                    }
                    return Ok(i);
                },
                None => {},
            }
        }
        proof {
            assert(mods0.take(0) =~= Seq::<Module>::empty());
        }
        match self.find_literal_word(name) {
            Some(i) => Ok(i),
            None => Err(ForthicError::UnknownWord {
                forthic: String::new(),
                word: name.to_owned(),
                location: None,
                cause: None,
            }),
        }
    }
}


/// While compiling, a dispatched token appends one word index to the open
/// definition and touches nothing else of the definition.
pub open spec fn appended_def(
    pre: Option<DefinitionWord>,
    post: Option<DefinitionWord>,
    word: int,
) -> bool {
    match pre {
        Some(d) => (post matches Some(d2) && d2.name == d.name && d2.location == d.location
            && d2.words@.len() == d.words@.len() + 1 && d2.words@.drop_last() == d.words@
            && d2.words@.last() == word),
        None => post is None,
    }
}


/// The push-shaped definition update is exactly an append.
pub proof fn lemma_appended_def_shape(
    pre: Option<DefinitionWord>,
    post: Option<DefinitionWord>,
    word: int,
)
    requires
        match pre {
            Some(d) => (post matches Some(d2) && d2.name == d.name && d2.words@
                == d.words@.push(word as usize) && d2.location == d.location) || appended_def(
                pre,
                post,
                word,
            ),
            None => post is None,
        },
        0 <= word <= usize::MAX,
    ensures
        appended_def(pre, post, word),
{
    match pre {
        Some(d) => {
            let d2 = post->Some_0;
            if d2.words@ == d.words@.push(word as usize) {
                assert(d2.words@.drop_last() =~= d.words@);
            }
        },
        None => {},
    }
}

impl<F: FloatParser> Interpreter<F> {
    /// Append a resolved word to the open definition while compiling, or
    /// execute it at once: the compile/execute decision. Compiling
    /// captures the concrete word index, so later redefinitions never
    /// reach into an already-compiled definition.
    pub fn handle_word(&mut self, word: usize) -> (r: Result<(), ForthicError>)
        requires
            old(self).wf(),
            word < old(self).arena@.len(),
        ensures
            final(self).wf(),
            arena_same_shape(old(self).arena@, final(self).arena@),
            final(self).app_module == old(self).app_module,
            final(self).same_host(old(self)),
            final(self).is_compiling == old(self).is_compiling,
            final(self).is_memo_definition == old(self).is_memo_definition,
            final(self).module_stack@.len() >= 1,
            old(self).is_compiling ==> r is Ok && final(self).arena@ == old(self).arena@
                && final(self).stack == old(self).stack && final(self).module_stack == old(self).module_stack && (match old(self).cur_definition {
                Some(d) => final(self).cur_definition matches Some(d2) && d2.name == d.name
                    && d2.words@ == d.words@.push(word) && d2.location == d.location,
                None => final(self).cur_definition is None,
            }),
            !old(self).is_compiling ==> final(self).cur_definition == old(self).cur_definition
                && exec_word_post(*old(self), *final(self), word as int, r),
    {
        if self.is_compiling {
            let has_def = self.cur_definition.is_some();
            if has_def {
                let mut def = match self.cur_definition.take() {
                    Some(d) => d,
                    None => {
                        proof {
                            assert(false);
                        }
                        DefinitionWord::new(String::new())
                    },
                };
                def.add_word(word);
                self.cur_definition = Some(def);
            }
            Ok(())
        } else {
            self.execute_word(word)
        }
    }

    /// Dispatch one token.
    ///
    /// Strings, dot symbols and array starts become value-pushing words;
    /// module open and close are immediate, executing even while
    /// compiling and also being compiled; definition tokens drive the
    /// compile state: a definition opened inside a definition is a
    /// missing semicolon, a close without an open definition is an extra
    /// semicolon, and reaching the end of the stream while compiling is a
    /// missing semicolon.
    pub fn handle_token(&mut self, token: Token) -> (r: Result<(), ForthicError>)
        requires
            old(self).wf(),
        ensures
            final(self).wf(),
            arena_same_shape(old(self).arena@, final(self).arena@) || (final(self).arena@.len()
                > old(self).arena@.len()),
            final(self).app_module == old(self).app_module,
            final(self).same_host(old(self)),
            final(self).module_stack@.len() >= 1,
            token.token_type == TokenType::Comment ==> r is Ok && *final(self) == *old(self),
            token.token_type == TokenType::Eos ==> (old(self).is_compiling ==> (r matches Err(e)
                && e is MissingSemicolon) && *final(self) == *old(self)) && (!old(self).is_compiling ==> r is Ok && *final(self) == *old(self)),
            token.token_type == TokenType::StartDef ==> (old(self).is_compiling ==> (r matches
                Err(e) && e is MissingSemicolon) && *final(self) == *old(self)) && (!old(self).is_compiling ==> r is Ok && final(self).is_compiling && !final(self).is_memo_definition && (final(self).cur_definition matches Some(d) && d.name@
                == token.string@ && d.words@ == Seq::<usize>::empty()) && final(self).stack == old(self).stack && final(self).arena@ == old(self).arena@ && final(self).module_stack == old(self).module_stack),
            token.token_type == TokenType::StartMemo ==> (old(self).is_compiling ==> (r matches
                Err(e) && e is MissingSemicolon) && *final(self) == *old(self)) && (!old(self).is_compiling ==> r is Ok && final(self).is_compiling && final(self).is_memo_definition && (final(self).cur_definition matches Some(d) && d.name@
                == token.string@ && d.words@ == Seq::<usize>::empty()) && final(self).stack == old(self).stack && final(self).arena@ == old(self).arena@ && final(self).module_stack == old(self).module_stack),
            token.token_type == TokenType::EndDef ==> ((!old(self).is_compiling || old(self).cur_definition is None) ==> (r matches Err(e) && e is ExtraSemicolon) && *final(self)
                == *old(self)) && ((old(self).is_compiling && old(self).cur_definition is Some)
                ==> r is Ok && !final(self).is_compiling && final(self).cur_definition is None
                && final(self).stack == old(self).stack),
            (token.token_type == TokenType::String || token.token_type == TokenType::DotSymbol
                || token.token_type == TokenType::StartArray) ==> ({
                let vv = if token.token_type == TokenType::StartArray {
                    ValueSpec::StartArrayMarker
                } else {
                    ValueSpec::Str(token.string@)
                };
                &&& r is Ok
                &&& final(self).arena@.len() == old(self).arena@.len() + 1
                &&& final(self).arena@.drop_last() == old(self).arena@
                &&& (final(self).arena@.last() matches Word::PushValue { value, .. }
                    && value_view(value) == vv)
                &&& (old(self).is_compiling ==> final(self).stack == old(self).stack && final(self).module_stack == old(self).module_stack && appended_def(
                    old(self).cur_definition,
                    final(self).cur_definition,
                    old(self).arena@.len() as int,
                ))
                &&& (!old(self).is_compiling ==> final(self).stack@ == old(self).stack@.push(vv)
                    && final(self).module_stack == old(self).module_stack && final(self).cur_definition == old(self).cur_definition)
            }),
            token.token_type == TokenType::EndArray ==> ({
                &&& final(self).arena@.len() == old(self).arena@.len() + 1
                &&& final(self).arena@.drop_last() == old(self).arena@
                &&& final(self).arena@.last() is EndArray
                &&& (old(self).is_compiling ==> r is Ok && final(self).stack == old(self).stack
                    && final(self).module_stack == old(self).module_stack && appended_def(
                    old(self).cur_definition,
                    final(self).cur_definition,
                    old(self).arena@.len() as int,
                ))
                &&& (!old(self).is_compiling ==> final(self).cur_definition == old(self).cur_definition && final(self).module_stack == old(self).module_stack && (match
                    spec_collect_array(old(self).stack@) {
                    Some((rest, items)) => r is Ok && final(self).stack@ == rest.push(
                        ValueSpec::Array(items),
                    ),
                    None => (r matches Err(e) && e is StackUnderflow) && final(self).stack@
                        == Seq::<ValueSpec>::empty(),
                }))
            }),
            token.token_type == TokenType::StartModule ==> ({
                &&& r is Ok
                &&& final(self).arena@.len() == old(self).arena@.len() + 1
                &&& final(self).arena@.drop_last() == old(self).arena@
                &&& (final(self).arena@.last() matches Word::StartModule { name } && name@
                    == token.string@)
                &&& final(self).stack@ == old(self).stack@
                &&& (old(self).is_compiling ==> appended_def(
                    old(self).cur_definition,
                    final(self).cur_definition,
                    old(self).arena@.len() as int,
                ))
                &&& (!old(self).is_compiling ==> final(self).cur_definition == old(self).cur_definition)
                &&& open_module_post(*old(self), *final(self), token.string@)
            }),
            token.token_type == TokenType::EndModule ==> ({
                &&& final(self).arena@.len() == old(self).arena@.len() + 1
                &&& final(self).arena@.drop_last() == old(self).arena@
                &&& final(self).arena@.last() is EndModule
                &&& final(self).stack@ == old(self).stack@
                &&& (old(self).is_compiling ==> appended_def(
                    old(self).cur_definition,
                    final(self).cur_definition,
                    old(self).arena@.len() as int,
                ))
                &&& (!old(self).is_compiling ==> final(self).cur_definition == old(self).cur_definition)
                &&& (old(self).module_stack@.len() <= 1 ==> (r matches Err(e)
                    && e is StackUnderflow) && final(self).module_stack == old(self).module_stack)
                &&& (old(self).module_stack@.len() > 1 ==> r is Ok && final(self).module_stack@
                    == old(self).module_stack@.drop_last())
            }),
            token.token_type == TokenType::Word ==> (match spec_stack_find(
                old(self).module_stack@,
                old(self).arena@,
                token.string@,
            ) {
                Some(FindHit::Dict(i)) => final(self).arena@.len() >= old(self).arena@.len() && (
                old(self).is_compiling ==> r is Ok && final(self).arena@ == old(self).arena@
                    && final(self).stack == old(self).stack && final(self).module_stack == old(self).module_stack && appended_def(
                    old(self).cur_definition,
                    final(self).cur_definition,
                    i as int,
                )) && (!old(self).is_compiling ==> final(self).cur_definition == old(self).cur_definition && exec_word_post(*old(self), *final(self), i as int, r)),
                Some(FindHit::Var(v)) => final(self).arena@.len() == old(self).arena@.len() + 1
                    && final(self).arena@.drop_last() == old(self).arena@ && (final(self).arena@.last() matches Word::PushValue { name: wn, value, .. } && wn@
                    == token.string@ && value_view(value) == v) && (old(self).is_compiling
                    ==> r is Ok && final(self).stack == old(self).stack && final(self).module_stack == old(self).module_stack && appended_def(
                    old(self).cur_definition,
                    final(self).cur_definition,
                    old(self).arena@.len() as int,
                )) && (!old(self).is_compiling ==> r is Ok && final(self).stack@ == old(self).stack@.push(v) && final(self).module_stack == old(self).module_stack && final(self).cur_definition == old(self).cur_definition),
                None => match r {
                    Ok(_) => final(self).arena@.len() == old(self).arena@.len() + 1 && final(self).arena@.drop_last() == old(self).arena@ && (final(self).arena@.last() matches
                        Word::PushValue { name: wn, value, .. } && wn@ == token.string@ && (
                    exists|t: Option<Date>|
                        wf_today(t) && (spec_find_literal(
                            old(self).literal_handlers@,
                            token.string@,
                            old(self).timezone@,
                            match value_view(value) {
                                ValueSpec::Float(b) => Some(b),
                                _ => None,
                            },
                            t,
                        ) == Some(value_view(value)))) && (old(self).is_compiling
                        ==> final(self).stack == old(self).stack && final(self).module_stack
                        == old(self).module_stack && appended_def(
                        old(self).cur_definition,
                        final(self).cur_definition,
                        old(self).arena@.len() as int,
                    )) && (!old(self).is_compiling ==> final(self).stack@ == old(self).stack@.push(
                        value_view(value),
                    ) && final(self).module_stack == old(self).module_stack && final(self).cur_definition == old(self).cur_definition)),
                    Err(e) => *final(self) == *old(self) && (e matches ForthicError::UnknownWord {
                        word,
                        ..
                    } && word@ == token.string@) && (exists|t: Option<Date>|
                        wf_today(t) && spec_find_literal(
                            old(self).literal_handlers@,
                            token.string@,
                            old(self).timezone@,
                            None,
                            t,
                        ) is None),
                },
            }),
    {
        match token.token_type {
            TokenType::Comment => Ok(()),
            TokenType::Eos => {
                if self.is_compiling {
                    Err(ForthicError::MissingSemicolon {
                        forthic: String::new(),
                        location: None,
                        cause: None,
                    })
                } else {
                    Ok(())
                }
            },
            TokenType::StartDef => {
                if self.is_compiling {
                    return Err(ForthicError::MissingSemicolon {
                        forthic: String::new(),
                        location: None,
                        cause: None,
                    });
                }
                self.cur_definition = Some(DefinitionWord::new(token.string));
                self.is_compiling = true;
                self.is_memo_definition = false;
                Ok(())
            },
            TokenType::StartMemo => {
                if self.is_compiling {
                    return Err(ForthicError::MissingSemicolon {
                        forthic: String::new(),
                        location: None,
                        cause: None,
                    });
                }
                self.cur_definition = Some(DefinitionWord::new(token.string));
                self.is_compiling = true;
                self.is_memo_definition = true;
                Ok(())
            },
            TokenType::EndDef => self.handle_end_definition(),
            TokenType::String => {
                let word = Word::PushValue {
                    name: String::from_str("<string>"),
                    value: ForthicValue::Str(token.string),
                    location: None,
                };
                let idx = self.intern_word(word);
                let res = self.handle_word(idx);
                proof {
                    if old(self).is_compiling {
                        lemma_appended_def_shape(
                            old(self).cur_definition,
                            self.cur_definition,
                            idx as int,
                        );
                    }
                }
                res
            },
            TokenType::DotSymbol => {
                let word = Word::PushValue {
                    name: String::from_str("<dot-symbol>"),
                    value: ForthicValue::Str(token.string),
                    location: None,
                };
                let idx = self.intern_word(word);
                let res = self.handle_word(idx);
                proof {
                    if old(self).is_compiling {
                        lemma_appended_def_shape(
                            old(self).cur_definition,
                            self.cur_definition,
                            idx as int,
                        );
                    }
                }
                res
            },
            TokenType::StartArray => {
                let word = Word::PushValue {
                    name: String::from_str("<start_array_token>"),
                    value: ForthicValue::StartArrayMarker,
                    location: None,
                };
                let idx = self.intern_word(word);
                let res = self.handle_word(idx);
                proof {
                    if old(self).is_compiling {
                        lemma_appended_def_shape(
                            old(self).cur_definition,
                            self.cur_definition,
                            idx as int,
                        );
                    }
                }
                res
            },
            TokenType::EndArray => {
                let idx = self.intern_word(Word::EndArray);
                let res = self.handle_word(idx);
                proof {
                    if old(self).is_compiling {
                        lemma_appended_def_shape(
                            old(self).cur_definition,
                            self.cur_definition,
                            idx as int,
                        );
                    }
                }
                res
            },
            TokenType::StartModule => {
                let idx = self.intern_word(Word::StartModule { name: token.string });
                if self.is_compiling {
                    match self.handle_word(idx) {
                        Ok(()) => {},
                        Err(e) => {
                            return Err(e);
                        },
                    }
                    proof {
                        lemma_appended_def_shape(
                            old(self).cur_definition,
                            self.cur_definition,
                            idx as int,
                        );
                    }
                }
                let ghost mid = *self;
                let res = self.execute_word(idx);
                proof {
                    assert(open_module_post(mid, *self, token.string@));
                    assert(mid.module_stack == old(self).module_stack);
                    assert(mid.app_module == old(self).app_module);
                    assert(open_module_post(*old(self), *self, token.string@));
                }
                res
            },
            TokenType::EndModule => {
                let idx = self.intern_word(Word::EndModule);
                if self.is_compiling {
                    match self.handle_word(idx) {
                        Ok(()) => {},
                        Err(e) => {
                            return Err(e);
                        },
                    }
                    proof {
                        lemma_appended_def_shape(
                            old(self).cur_definition,
                            self.cur_definition,
                            idx as int,
                        );
                    }
                }
                let ghost mid = *self;
                let res = self.execute_word(idx);
                proof {
                    assert(mid.module_stack == old(self).module_stack);
                }
                res
            },
            TokenType::Word => {
                let idx = match self.find_word(token.string.as_str()) {
                    Ok(i) => i,
                    Err(e) => {
                        return Err(e);
                    },
                };
                let ghost mid = *self;
                let res = self.handle_word(idx);
                proof {
                    if old(self).is_compiling {
                        lemma_appended_def_shape(
                            old(self).cur_definition,
                            self.cur_definition,
                            idx as int,
                        );
                    }
                    match spec_stack_find(
                        old(self).module_stack@,
                        old(self).arena@,
                        token.string@,
                    ) {
                        Some(FindHit::Dict(i)) => {
                            assert(mid == *old(self));
                            if !old(self).is_compiling {
                                assert(exec_word_post(*old(self), *self, i as int, res));
                            }
                        },
                        Some(FindHit::Var(v)) => {
                            if !old(self).is_compiling {
                                assert(exec_word_post(mid, *self, idx as int, res));
                            }
                        },
                        None => {
                            if !old(self).is_compiling {
                                assert(exec_word_post(mid, *self, idx as int, res));
                            }
                        },
                    }
                }
                res
            },
        }
    }

    /// Close the open definition and register it into the current module:
    /// plain, or expanded into the three memo words for a memo
    /// definition.
    fn handle_end_definition(&mut self) -> (r: Result<(), ForthicError>)
        requires
            old(self).wf(),
        ensures
            final(self).wf(),
            final(self).arena@.len() >= old(self).arena@.len(),
            arena_same_shape(old(self).arena@, final(self).arena@) || final(self).arena@.len()
                > old(self).arena@.len(),
            final(self).app_module == old(self).app_module,
            final(self).same_host(old(self)),
            final(self).module_stack@.len() >= 1,
            (!old(self).is_compiling || old(self).cur_definition is None) ==> (r matches Err(e)
                && e is ExtraSemicolon) && *final(self) == *old(self),
            (old(self).is_compiling && old(self).cur_definition is Some) ==> r is Ok && !final(self).is_compiling && final(self).cur_definition is None && final(self).stack == old(self).stack && final(self).module_stack@.len() == old(self).module_stack@.len() && final(self).module_stack@.drop_last() == old(self).module_stack@.drop_last() && (old(self).cur_definition matches Some(d) ==> ({
                let l0 = old(self).arena@.len() as int;
                &&& (final(self).arena@[l0] matches Word::Definition(d2) && d2.name == d.name
                    && d2.words@ == d.words@ && d2.location == d.location)
                &&& (forall|i: int| 0 <= i < l0 ==> final(self).arena@[i] == old(self).arena@[i])
                &&& (!old(self).is_memo_definition ==> final(self).arena@.len() == l0 + 1
                    && final(self).module_stack@.last()@ == (ModuleSpec {
                    words: old(self).module_stack@.last()@.words.push(
                        final(self).module_stack@.last()@.words.last(),
                    ),
                    ..old(self).module_stack@.last()@
                }) && final(self).module_stack@.last()@.words.len() == old(self).module_stack@.last()@.words.len() + 1 && final(self).module_stack@.last()@.words.last() == l0)
                &&& (old(self).is_memo_definition ==> final(self).arena@.len() == l0 + 4 && (
                final(self).arena@[l0 + 1] matches Word::Memo { name, target, cache } && name@
                    == d.name@ && target == l0 && cache is None) && (final(self).arena@[l0 + 2]
                    matches Word::MemoBang { memo, .. } && memo == l0 + 1) && (final(self).arena@[l0 + 3] matches Word::MemoBangAt { memo, .. } && memo == l0 + 1)
                    && final(self).module_stack@.last()@.words.len() == old(self).module_stack@.last()@.words.len() + 3 && (forall|j: int|
                    0 <= j < 3 ==> (#[trigger] final(self).module_stack@.last()@.words[old(self).module_stack@.last()@.words.len() + j]) == l0 + 1 + j) && (forall|j: int|
                    0 <= j < old(self).module_stack@.last()@.words.len()
                        ==> (#[trigger] final(self).module_stack@.last()@.words[j]) == old(self).module_stack@.last()@.words[j]))
            })),
    {
        let has_def = self.cur_definition.is_some();
        if !self.is_compiling || !has_def {
            return Err(ForthicError::ExtraSemicolon {
                forthic: String::new(),
                location: None,
                cause: None,
            });
        }
        let definition = match self.cur_definition.take() {
            Some(d) => d,
            None => {
                proof {
                    assert(false);
                }
                DefinitionWord::new(String::new())
            },
        };
        let def_idx = self.intern_word(Word::Definition(definition));
        let is_memo = self.is_memo_definition;
        let mut top = match self.module_stack.pop() {
            Some(m) => m,
            None => {
                proof {
                    assert(false);
                }
                Module::new(String::new())
            },
        };
        let ghost pre_memo = self.arena@;
        if is_memo {
            let _memo_idx = top.add_memo_words(&mut self.arena, def_idx);
            let nlen = self.arena.len();
            proof {
                assert(pre_memo.len() + 3 == nlen);
                lemma_memo_links_after_memo_words(pre_memo, self.arena@);
            }
        } else {
            top.add_word(def_idx);
        }
        self.module_stack.push(top);
        self.is_compiling = false;
        proof {
            assert(self.module_stack@.drop_last() =~= old(self).module_stack@.drop_last());
            assert forall|i: int|
                0 <= i < self.module_stack@.len() implies module_wf(
                (#[trigger] self.module_stack@[i])@,
                self.arena@.len() as int,
            ) by {
                if i < self.module_stack@.len() - 1 {
                    assert(self.module_stack@[i] == old(self).module_stack@[i]);
                    crate::module::lemma_module_wf_grow(
                        self.module_stack@[i]@,
                        old(self).arena@.len() as int,
                        self.arena@.len() as int,
                    );
                } else {
                    assert(module_wf(old(self).module_stack@.last()@, old(self).arena@.len() as int));
                    crate::module::lemma_module_wf_grow(
                        old(self).module_stack@.last()@,
                        old(self).arena@.len() as int,
                        self.arena@.len() as int,
                    );
                    lemma_words_ok_append(
                        old(self).module_stack@.last()@.words,
                        self.module_stack@.last()@.words,
                        self.arena@.len() as int,
                    );
                }
            }
            crate::module::lemma_module_wf_grow(
                self.app_module@,
                old(self).arena@.len() as int,
                self.arena@.len() as int,
            );
        }
        Ok(())
    }

    /// Allocate a word in the arena, preserving the interpreter
    /// invariant.
    fn intern_word(&mut self, w: Word) -> (idx: usize)
        requires
            old(self).wf(),
            crate::module::word_refs_below(w, old(self).arena@.len() as int),
            memo_link_of(w) is None,
        ensures
            final(self).wf(),
            *final(self) == (Interpreter { arena: final(self).arena, ..*old(self) }),
            idx == old(self).arena@.len(),
            final(self).arena@ == old(self).arena@.push(w),
            final(self).arena@.drop_last() == old(self).arena@,
    {
        let idx = self.arena.intern(w);
        proof {
            assert(self.arena@.drop_last() =~= old(self).arena@);
            lemma_memo_links_push(old(self).arena@, self.arena@);
            assert forall|i: int|
                0 <= i < self.module_stack@.len() implies module_wf(
                (#[trigger] self.module_stack@[i])@,
                self.arena@.len() as int,
            ) by {
                crate::module::lemma_module_wf_grow(
                    self.module_stack@[i]@,
                    old(self).arena@.len() as int,
                    self.arena@.len() as int,
                );
            }
            crate::module::lemma_module_wf_grow(
                self.app_module@,
                old(self).arena@.len() as int,
                self.arena@.len() as int,
            );
        }
        idx
    }
}

/// Word lists only ever grow with in-range indices.
pub proof fn lemma_words_ok_append(a: Seq<usize>, b: Seq<usize>, alen: int)
    requires
        words_ok(a, alen),
        b.len() >= a.len(),
        forall|i: int| 0 <= i < a.len() ==> b[i] == a[i],
        forall|i: int| a.len() <= i < b.len() ==> (#[trigger] b[i]) < alen,
    ensures
        words_ok(b, alen),
{
    assert forall|i: int| 0 <= i < b.len() implies (#[trigger] b[i]) < alen by {
        if i < a.len() {
            assert(b[i] == a[i]);
            assert(a[i] < alen);
        }
    }
}

/// The three words of a memo definition keep memo links intact: the memo
/// has no link, and its two refresh words point at it.
pub proof fn lemma_memo_links_after_memo_words(a: Seq<Word>, b: Seq<Word>)
    requires
        memo_links_ok(a),
        b.len() == a.len() + 3,
        a.len() + 3 <= usize::MAX,
        forall|i: int| 0 <= i < a.len() ==> b[i] == a[i],
        b[a.len() as int] is Memo,
        memo_link_of(b[a.len() as int + 1]) == Some(a.len() as usize),
        memo_link_of(b[a.len() as int + 2]) == Some(a.len() as usize),
    ensures
        memo_links_ok(b),
{
    assert forall|i: int|
        0 <= i < b.len() implies (match memo_link_of(#[trigger] b[i]) {
        Some(m) => m < i && b[m as int] is Memo,
        None => true,
    }) by {
        if i < a.len() {
            assert(b[i] == a[i]);
            assert(match memo_link_of(a[i]) {
                Some(m) => m < i && a[m as int] is Memo,
                None => true,
            });
            match memo_link_of(a[i]) {
                Some(m) => {
                    assert(b[m as int] == a[m as int]);
                },
                None => {},
            }
        } else if i == a.len() {
            assert(b[i] is Memo);
        }
    }
}

impl<F: FloatParser> Interpreter<F> {
    /// Run source text: push a fresh tokenizer, dispatch every token, and
    /// pop the tokenizer again, also on failure. A run that ends well
    /// leaves no definition open; the empty program succeeds and changes
    /// nothing. The app module, the configured zone and the registered
    /// recognizers survive every run.
    pub fn run(&mut self, code: &str) -> (r: Result<(), ForthicError>)
        requires
            old(self).wf(),
        ensures
            final(self).wf(),
            final(self).tokenizer_stack@.len() == old(self).tokenizer_stack@.len(),
            final(self).timezone@ == old(self).timezone@,
            final(self).literal_handlers@ == old(self).literal_handlers@,
            final(self).app_module == old(self).app_module,
            r is Ok ==> !final(self).is_compiling,
            (code@.len() == 0 && !old(self).is_compiling) ==> r is Ok && final(self).stack
                == old(self).stack && final(self).arena == old(self).arena && final(self).module_stack == old(self).module_stack && final(self).cur_definition == old(self).cur_definition && !final(self).is_compiling && final(self).tokenizer_stack@ == old(self).tokenizer_stack@,
    {
        let tokenizer = Tokenizer::new(code.to_owned(), None, false);
        proof {
            if code@.len() == 0 {
                assert(crate::tokenizer::unescaped(code@, 0) =~= Seq::<char>::empty());
            }
        }
        self.tokenizer_stack.push(tokenizer);
        let result = self.run_with_tokenizer();
        let _ = self.tokenizer_stack.pop();
        proof {
            assert(self.tokenizer_stack@ =~= old(self).tokenizer_stack@);
        }
        result
    }

    /// Dispatch tokens from the top tokenizer until the end of the
    /// stream or the first error.
    #[verifier::loop_isolation(false)]
    fn run_with_tokenizer(&mut self) -> (r: Result<(), ForthicError>)
        requires
            old(self).wf(),
            old(self).tokenizer_stack@.len() >= 1,
            old(self).tokenizer_stack@.last().state.pos <= old(
                self,
            ).tokenizer_stack@.last().chars@.len(),
        ensures
            final(self).wf(),
            final(self).tokenizer_stack@.len() == old(self).tokenizer_stack@.len(),
            final(self).tokenizer_stack@.drop_last() == old(self).tokenizer_stack@.drop_last(),
            final(self).timezone@ == old(self).timezone@,
            final(self).literal_handlers@ == old(self).literal_handlers@,
            final(self).app_module == old(self).app_module,
            r is Ok ==> !final(self).is_compiling,
            (old(self).tokenizer_stack@.last().state.pos >= old(
                self,
            ).tokenizer_stack@.last().chars@.len() && !old(self).is_compiling) ==> r is Ok
                && final(self).stack == old(self).stack && final(self).arena == old(self).arena
                && final(self).module_stack == old(self).module_stack && final(self).cur_definition == old(self).cur_definition && !final(self).is_compiling && final(self).tokenizer_stack@ == old(self).tokenizer_stack@,
    {
        let ghost fast = old(self).tokenizer_stack@.last().state.pos >= old(
            self,
        ).tokenizer_stack@.last().chars@.len() && !old(self).is_compiling;
        loop
            invariant
                self.wf(),
                self.tokenizer_stack@.len() == old(self).tokenizer_stack@.len(),
                self.tokenizer_stack@.drop_last() == old(self).tokenizer_stack@.drop_last(),
                self.tokenizer_stack@.len() >= 1,
                self.timezone@ == old(self).timezone@,
                self.literal_handlers@ == old(self).literal_handlers@,
                self.app_module == old(self).app_module,
                self.tokenizer_stack@.last().state.pos
                    <= self.tokenizer_stack@.last().chars@.len(),
                fast ==> self.stack == old(self).stack && self.arena == old(self).arena
                    && self.module_stack == old(self).module_stack && self.cur_definition == old(self).cur_definition && self.is_compiling == old(self).is_compiling && self.is_memo_definition == old(self).is_memo_definition && self.tokenizer_stack@ == old(self).tokenizer_stack@,
            decreases self.tokenizer_stack@.last().chars@.len()
                - self.tokenizer_stack@.last().state.pos,
        {
            let mut tokenizer = match self.tokenizer_stack.pop() {
                Some(t) => t,
                None => {
                    proof {
                        assert(false);
                    }
                    Tokenizer::new(String::new(), None, false)
                },
            };
            proof {
                vstd::std_specs::vec::axiom_spec_len(&tokenizer.chars);
                crate::tokenizer::lemma_next_bounds(tokenizer.chars@, tokenizer.state);
            }
            let token = match tokenizer.next_token() {
                Ok(t) => {
                    self.tokenizer_stack.push(tokenizer);
                    t
                },
                Err(e) => {
                    self.tokenizer_stack.push(tokenizer);
                    proof {
                        assert(self.tokenizer_stack@.len() == old(self).tokenizer_stack@.len());
                    }
                    return Err(e);
                },
            };
            let is_eos = matches!(token.token_type, TokenType::Eos);
            let ghost before_handle = *self;
            match self.handle_token(token) {
                Ok(()) => {},
                Err(e) => {
                    return Err(e);
                },
            }
            proof {
                if fast {
                    assert(*self == before_handle);
                    assert(self.tokenizer_stack@ =~= old(self).tokenizer_stack@);
                }
            }
            if is_eos {
                return Ok(());
            }
        }
    }

    /// The current tokenizer, if any code is running.
    pub fn get_tokenizer(&self) -> (r: Option<&Tokenizer>)
        ensures
            match r {
                Some(t) => self.tokenizer_stack@.len() > 0 && t == &self.tokenizer_stack@.last(),
                None => self.tokenizer_stack@.len() == 0,
            },
    {
        if self.tokenizer_stack.len() == 0 {
            None
        } else {
            Some(&self.tokenizer_stack[self.tokenizer_stack.len() - 1])
        }
    }

    /// The input text of the outermost run, for error messages; empty
    /// when nothing is running.
    pub fn get_top_input_string(&self) -> (r: String)
        ensures
            self.tokenizer_stack@.len() == 0 ==> r@ == Seq::<char>::empty(),
            self.tokenizer_stack@.len() > 0 ==> r@ == self.tokenizer_stack@[0].input_string@,
    {
        if self.tokenizer_stack.len() == 0 {
            String::new()
        } else {
            let input = self.tokenizer_stack[0].get_input_string();
            input.to_owned()
        }
    }

    /// Register a module under its own name in the app module, so that
    /// it can be imported or opened later.
    pub fn register_module(&mut self, module: Module)
        requires
            old(self).wf(),
            module_wf(module@, old(self).arena@.len() as int),
        ensures
            final(self).wf(),
            final(self).app_module@ == (ModuleSpec {
                modules: old(self).app_module@.modules.push((module@.name, module@)),
                prefixes: old(self).app_module@.prefixes.push((module@.name, module@.name)),
                ..old(self).app_module@
            }),
            *final(self) == (Interpreter { app_module: final(self).app_module, ..*old(self) }),
    {
        let name = module.get_name().to_owned();
        let name2 = name.clone();
        self.app_module.register_module(name, name2, module);
        proof {
            crate::module::lemma_submodules_push_wf(
                old(self).app_module@,
                self.app_module@,
                self.arena@.len() as int,
            );
        }
    }

    /// Find a module registered in the app module.
    pub fn find_module(&self, name: &str) -> (r: Result<&Module, ForthicError>)
        ensures
            match r {
                Ok(m) => spec_find_module(self.app_module@.modules, name@) == Some(m@),
                Err(e) => spec_find_module(self.app_module@.modules, name@) is None && (e matches
                    ForthicError::UnknownModule { module_name, .. } && module_name@ == name@),
            },
    {
        match self.app_module.find_module(name) {
            Some(m) => Ok(m),
            None => Err(ForthicError::UnknownModule {
                forthic: String::new(),
                module_name: name.to_owned(),
                location: None,
                cause: None,
            }),
        }
    }

    /// Register a module and import its exportable words into the app
    /// module: directly for an empty prefix, else as `prefix.name`
    /// delegates.
    pub fn import_module(&mut self, module: Module, prefix: &str)
        requires
            old(self).wf(),
            module_wf(module@, old(self).arena@.len() as int),
        ensures
            final(self).wf(),
            final(self).arena@.len() >= old(self).arena@.len(),
            forall|i: int| 0 <= i < old(self).arena@.len() ==> final(self).arena@[i] == old(self).arena@[i],
            ({
                let exp = crate::module::spec_exportable(
                    module@.words,
                    module@.exportable,
                    old(self).arena@,
                );
                prefix@.len() == 0 ==> final(self).app_module@.words == old(
                    self,
                ).app_module@.words + exp
            }),
            prefix@.len() > 0 ==> (forall|k: int|
                0 <= k < final(self).app_module@.words.len() - old(self).app_module@.words.len()
                    ==> ((#[trigger] final(self).arena@[final(self).app_module@.words[old(
                    self,
                ).app_module@.words.len() + k] as int]) matches Word::Delegate { name, target }
                    && name@ == prefix@ + "."@ + word_name_spec(
                    old(self).arena@[crate::module::spec_exportable(
                        module@.words,
                        module@.exportable,
                        old(self).arena@,
                    )[k] as int],
                ))),
            final(self).app_module@.words.len() == old(self).app_module@.words.len()
                + crate::module::spec_exportable(
                module@.words,
                module@.exportable,
                old(self).arena@,
            ).len(),
            spec_find_module(final(self).app_module@.modules, module@.name) == Some(
                crate::module::dup_view(module@),
            ),
            final(self).app_module@.name == old(self).app_module@.name,
            final(self).app_module@.exportable == old(self).app_module@.exportable,
            final(self).app_module@.variables == old(self).app_module@.variables,
            final(self).app_module@.forthic_code == old(self).app_module@.forthic_code,
            final(self).app_module@.modules == old(self).app_module@.modules.push(
                (module@.name, module@),
            ).push((module@.name, crate::module::dup_view(module@))),
            final(self).app_module@.prefixes == old(self).app_module@.prefixes.push(
                (module@.name, module@.name),
            ).push((module@.name, prefix@)),
            *final(self) == (Interpreter {
                app_module: final(self).app_module,
                arena: final(self).arena,
                ..*old(self)
            }),
    {
        let module2 = module.clone();
        self.register_module(module2);
        let ghost mid = *self;
        let exported = self.app_module.import_module(&mut self.arena, prefix, &module);
        proof {
            let a0 = old(self).arena@;
            if self.arena@.len() > a0.len() {
                assert forall|i: int|
                    0 <= i < self.arena@.len() implies (match memo_link_of(
                    #[trigger] self.arena@[i],
                ) {
                    Some(m) => m < i && self.arena@[m as int] is Memo,
                    None => true,
                }) by {
                    if i < a0.len() {
                        assert(self.arena@[i] == a0[i]);
                        assert(match memo_link_of(a0[i]) {
                            Some(m) => m < i && a0[m as int] is Memo,
                            None => true,
                        });
                        match memo_link_of(a0[i]) {
                            Some(m) => {
                                assert(self.arena@[m as int] == a0[m as int]);
                            },
                            None => {},
                        }
                    } else {
                        let k = i - a0.len();
                        assert((self.arena@[a0.len() + k]) matches Word::Delegate { .. });
                    }
                }
            }
            assert forall|i: int|
                0 <= i < self.module_stack@.len() implies module_wf(
                (#[trigger] self.module_stack@[i])@,
                self.arena@.len() as int,
            ) by {
                crate::module::lemma_module_wf_grow(
                    self.module_stack@[i]@,
                    a0.len() as int,
                    self.arena@.len() as int,
                );
            }
            crate::module::lemma_module_wf_grow(
                module@,
                a0.len() as int,
                self.arena@.len() as int,
            );
            assert(module_wf(crate::module::dup_view(module@), self.arena@.len() as int));
            let exp = exported@;
            let m0w = mid.app_module@.words;
            let m1w = self.app_module@.words;
            vstd::std_specs::vec::axiom_spec_len(&self.arena.words);
            assert(self.arena@.len() <= usize::MAX);
            crate::module::lemma_exportable_in_range(
                module@.words,
                module@.exportable,
                a0,
                a0.len() as int,
            );
            assert forall|i: int|
                m0w.len() <= i < m1w.len() implies (#[trigger] m1w[i])
                < self.arena@.len() as int by {
                let k = i - m0w.len();
                if prefix@.len() == 0 {
                    assert(m1w[i] == exp[k]);
                    assert(exp[k] < a0.len());
                } else {
                    assert(m1w[i] == a0.len() + k);
                }
            }
            assert forall|i: int| 0 <= i < m0w.len() implies m1w[i] == m0w[i] by {
                if prefix@.len() == 0 {
                    assert(m1w == m0w + exp);
                }
            }
            if prefix@.len() > 0 {
                assert forall|k: int|
                    0 <= k < m1w.len() - old(self).app_module@.words.len() implies ((
                #[trigger] self.arena@[m1w[old(self).app_module@.words.len() + k] as int]) matches
                    Word::Delegate { name, target } && name@ == prefix@ + "."@ + word_name_spec(
                    a0[exp[k] as int],
                )) by {
                    assert(m1w[m0w.len() + k] == a0.len() + k);
                    assert((self.arena@[a0.len() + k]) matches Word::Delegate { .. });
                }
            }
            lemma_import_app_wf(mid.app_module@, self.app_module@, a0.len() as int, self.arena@.len() as int);
            match &self.cur_definition {
                Some(d) => {
                    assert(words_ok(d.words@, self.arena@.len() as int));
                },
                None => {},
            }
            assert(spec_find_module(self.app_module@.modules, module@.name) == Some(
                crate::module::dup_view(module@),
            ));
        }
    }

    /// Import several modules, unprefixed and in order: afterwards every
    /// one of them is registered in the app module under its name, as
    /// `import_module` states for one.
    pub fn import_modules(&mut self, modules: Vec<Module>)
        requires
            old(self).wf(),
            forall|i: int|
                0 <= i < modules@.len() ==> module_wf((#[trigger] modules@[i])@, old(self).arena@.len() as int),
        ensures
            final(self).wf(),
            final(self).app_module@.words.len() >= old(self).app_module@.words.len(),
            forall|i: int|
                0 <= i < modules@.len() ==> spec_find_module(
                    final(self).app_module@.modules,
                    (#[trigger] modules@[i])@.name,
                ) is Some,
    {
        let mut modules = modules;
        let ghost all = modules@;
        let mut k: usize = 0;
        let n = modules.len();
        while k < n
            invariant
                k <= all.len(),
                n == all.len(),
                modules@ == all.skip(k as int),
                self.wf(),
                self.arena@.len() >= old(self).arena@.len(),
                self.app_module@.words.len() >= old(self).app_module@.words.len(),
                forall|i: int|
                    0 <= i < all.len() ==> module_wf((#[trigger] all[i])@, old(self).arena@.len() as int),
                forall|i: int|
                    0 <= i < k ==> spec_find_module(
                        self.app_module@.modules,
                        (#[trigger] all[i])@.name,
                    ) is Some,
            decreases n - k,
        {
            let m = modules.remove(0);
            proof {
                assert(all.skip(k as int)[0] == all[k as int]);
                crate::module::lemma_module_wf_grow(
                    all[k as int]@,
                    old(self).arena@.len() as int,
                    self.arena@.len() as int,
                );
            }
            let ghost mods_before = self.app_module@.modules;
            self.import_module(m, "");
            k = k + 1;
            proof {
                assert(all.skip(k - 1).skip(1) =~= all.skip(k as int));
                assert forall|i: int|
                    0 <= i < k implies spec_find_module(
                    self.app_module@.modules,
                    (#[trigger] all[i])@.name,
                ) is Some by {
                    if i < k - 1 {
                        crate::module::lemma_find_module_push(
                            mods_before,
                            (all[k - 1]@.name, all[k - 1]@),
                            all[i]@.name,
                        );
                        crate::module::lemma_find_module_push(
                            mods_before.push((all[k - 1]@.name, all[k - 1]@)),
                            (all[k - 1]@.name, crate::module::dup_view(all[k - 1]@)),
                            all[i]@.name,
                        );
                    }
                }
            }
        }
    }

    /// Run a module's own source: push the module, run its code, and pop
    /// it again also on failure; an inner error comes back wrapped in a
    /// module error carrying the module's name.
    pub fn run_module_code(&mut self, module: &Module) -> (r: Result<(), ForthicError>)
        requires
            old(self).wf(),
            module_wf(module@, old(self).arena@.len() as int),
        ensures
            final(self).wf(),
            final(self).app_module == old(self).app_module,
            final(self).timezone@ == old(self).timezone@,
            final(self).literal_handlers@ == old(self).literal_handlers@,
            final(self).tokenizer_stack@.len() == old(self).tokenizer_stack@.len(),
            r matches Err(e) ==> ((e matches ForthicError::Module { module_name, .. }
                && module_name@ == module@.name) || e is StackUnderflow),
            (module@.forthic_code.len() == 0 && !old(self).is_compiling) ==> r is Ok && final(self).stack == old(self).stack && final(self).module_stack@ == old(self).module_stack@ && final(self).arena == old(self).arena,
    {
        let copy = module.clone();
        self.module_stack_push(copy);
        let code = module.get_forthic_code().to_owned();
        let result = self.run(code.as_str());
        let ghost after_run = *self;
        match self.module_stack_pop() {
            Ok(_) => {},
            Err(e) => {
                return Err(e);
            },
        }
        proof {
            if module@.forthic_code.len() == 0 && !old(self).is_compiling {
                assert(self.module_stack@ =~= old(self).module_stack@);
            }
        }
        match result {
            Ok(()) => Ok(()),
            Err(e) => {
                let inner_message = e.message();
                Err(ForthicError::Module {
                    forthic: String::new(),
                    module_name: module.get_name().to_owned(),
                    inner_message,
                    inner_error: Box::new(e),
                    location: None,
                    cause: None,
                })
            },
        }
    }

    /// Register a native word in the arena and return its index; its
    /// error-handler chain starts empty.
    pub fn add_native_word(&mut self, name: &str, op: NativeOp) -> (idx: usize)
        requires
            old(self).wf(),
        ensures
            final(self).wf(),
            *final(self) == (Interpreter { arena: final(self).arena, ..*old(self) }),
            idx == old(self).arena@.len(),
            final(self).arena@.len() == old(self).arena@.len() + 1,
            final(self).arena@.drop_last() == old(self).arena@,
            (final(self).arena@.last() matches Word::Native { name: wn, op: o2, handlers, .. }
                && wn@ == name@ && o2 == op && handlers@ == Seq::<HandlerAction>::empty()),
    {
        self.intern_word(Word::Native {
            name: name.to_owned(),
            op,
            handlers: Vec::new(),
            location: None,
        })
    }

    /// Append an error handler to a native word's chain.
    pub fn add_error_handler(&mut self, word: usize, action: HandlerAction)
        requires
            old(self).wf(),
            word < old(self).arena@.len(),
            old(self).arena@[word as int] is Native,
        ensures
            final(self).wf(),
            *final(self) == (Interpreter { arena: final(self).arena, ..*old(self) }),
            final(self).arena@.len() == old(self).arena@.len(),
            forall|i: int|
                0 <= i < old(self).arena@.len() && i != word ==> final(self).arena@[i] == old(self).arena@[i],
            final(self).arena@[word as int] is Native,
            (old(self).arena@[word as int] matches Word::Native { name: n0, op: o0, handlers: h0, .. }
                ==> (final(self).arena@[word as int] matches Word::Native {
                name,
                op,
                handlers,
                ..
            } && name@ == n0@ && op == o0 && handlers@ == h0@.push(action))),
    {
        let (name, op, mut handlers, location) = match self.arena.get(word) {
            Word::Native { name, op, handlers, location } => (
                name.clone(),
                *op,
                clone_handlers(handlers),
                match location {
                    Some(l) => Some(l.clone()),
                    None => None,
                },
            ),
            _ => {
                proof {
                    assert(false);
                }
                (String::new(), NativeOp::Nop, Vec::new(), None)
            },
        };
        handlers.push(action);
        self.replace_native(word, name, op, handlers, location);
    }

    /// Remove the first occurrence of an error handler from a native
    /// word's chain, if present.
    pub fn remove_error_handler(&mut self, word: usize, action: HandlerAction)
        requires
            old(self).wf(),
            word < old(self).arena@.len(),
            old(self).arena@[word as int] is Native,
        ensures
            final(self).wf(),
            *final(self) == (Interpreter { arena: final(self).arena, ..*old(self) }),
            final(self).arena@.len() == old(self).arena@.len(),
            forall|i: int|
                0 <= i < old(self).arena@.len() && i != word ==> final(self).arena@[i] == old(self).arena@[i],
            final(self).arena@[word as int] is Native,
    {
        let (name, op, handlers, location) = match self.arena.get(word) {
            Word::Native { name, op, handlers, location } => (
                name.clone(),
                *op,
                clone_handlers(handlers),
                match location {
                    Some(l) => Some(l.clone()),
                    None => None,
                },
            ),
            _ => {
                proof {
                    assert(false);
                }
                (String::new(), NativeOp::Nop, Vec::new(), None)
            },
        };
        let mut out: Vec<HandlerAction> = Vec::new();
        let mut removed = false;
        let mut i: usize = 0;
        while i < handlers.len()
            invariant
                i <= handlers@.len(),
            decreases handlers@.len() - i,
        {
            if !removed && handlers[i] == action {
                removed = true;
            } else {
                out.push(handlers[i]);
            }
            i = i + 1;
        }
        self.replace_native(word, name, op, out, location);
    }

    /// Empty a native word's error-handler chain.
    pub fn clear_error_handlers(&mut self, word: usize)
        requires
            old(self).wf(),
            word < old(self).arena@.len(),
            old(self).arena@[word as int] is Native,
        ensures
            final(self).wf(),
            *final(self) == (Interpreter { arena: final(self).arena, ..*old(self) }),
            final(self).arena@.len() == old(self).arena@.len(),
            forall|i: int|
                0 <= i < old(self).arena@.len() && i != word ==> final(self).arena@[i] == old(self).arena@[i],
            (final(self).arena@[word as int] matches Word::Native { handlers, .. } && handlers@
                == Seq::<HandlerAction>::empty()),
    {
        let (name, op, location) = match self.arena.get(word) {
            Word::Native { name, op, location, .. } => (
                name.clone(),
                *op,
                match location {
                    Some(l) => Some(l.clone()),
                    None => None,
                },
            ),
            _ => {
                proof {
                    assert(false);
                }
                (String::new(), NativeOp::Nop, None)
            },
        };
        self.replace_native(word, name, op, Vec::new(), location);
    }

    /// The error-handler chain of a native word.
    pub fn get_error_handlers(&self, word: usize) -> (r: Vec<HandlerAction>)
        requires
            word < self.arena@.len(),
            self.arena@[word as int] is Native,
        ensures
            (self.arena@[word as int] matches Word::Native { handlers, .. } && r@ == handlers@),
    {
        match self.arena.get(word) {
            Word::Native { handlers, .. } => clone_handlers(handlers),
            _ => {
                proof {
                    assert(false);
                }
                Vec::new()
            },
        }
    }

    /// Overwrite a native word in place.
    fn replace_native(
        &mut self,
        word: usize,
        name: String,
        op: NativeOp,
        handlers: Vec<HandlerAction>,
        location: Option<CodeLocation>,
    )
        requires
            old(self).wf(),
            word < old(self).arena@.len(),
            old(self).arena@[word as int] is Native,
        ensures
            final(self).wf(),
            *final(self) == (Interpreter { arena: final(self).arena, ..*old(self) }),
            final(self).arena@.len() == old(self).arena@.len(),
            forall|i: int|
                0 <= i < old(self).arena@.len() && i != word ==> final(self).arena@[i] == old(self).arena@[i],
            (final(self).arena@[word as int] matches Word::Native {
                name: n2,
                op: o2,
                handlers: h2,
                location: l2,
            } && n2 == name && o2 == op && h2 == handlers && l2 == location),
    {
        let ghost a0 = self.arena@;
        self.arena.words.set(word, Word::Native { name, op, handlers, location });
        proof {
            assert forall|i: int|
                0 <= i < self.arena@.len() implies crate::module::word_refs_below(
                #[trigger] self.arena@[i],
                i,
            ) by {
                if i != word {
                    assert(self.arena@[i] == a0[i]);
                }
                assert(crate::module::word_refs_below(a0[i], i));
            }
            assert forall|i: int|
                0 <= i < self.arena@.len() implies (match memo_link_of(#[trigger] self.arena@[i]) {
                Some(m) => m < i && self.arena@[m as int] is Memo,
                None => true,
            }) by {
                if i != word {
                    assert(self.arena@[i] == a0[i]);
                    assert(match memo_link_of(a0[i]) {
                        Some(m) => m < i && a0[m as int] is Memo,
                        None => true,
                    });
                    match memo_link_of(a0[i]) {
                        Some(m) => {
                            if m != word {
                                assert(self.arena@[m as int] == a0[m as int]);
                            } else {
                                assert(a0[m as int] is Memo);
                                assert(a0[m as int] is Native);
                            }
                        },
                        None => {},
                    }
                }
            }
        }
    }
}

/// Importing grows the app module only by delegate or existing word
/// indices that stay inside the arena, so it stays well formed.
#[verifier::spinoff_prover]
#[verifier::rlimit(100)]
pub proof fn lemma_import_app_wf(m0: ModuleSpec, m1: ModuleSpec, alen0: int, alen1: int)
    requires
        module_wf(m0, alen0),
        alen0 <= alen1,
        m1.variables == m0.variables,
        m1.words.len() >= m0.words.len(),
        forall|i: int| 0 <= i < m0.words.len() ==> m1.words[i] == m0.words[i],
        forall|i: int| m0.words.len() <= i < m1.words.len() ==> (#[trigger] m1.words[i]) < alen1,
        m1.modules.len() == m0.modules.len() + 1,
        forall|i: int| 0 <= i < m0.modules.len() ==> m1.modules[i] == m0.modules[i],
        module_wf(m1.modules.last().1, alen1),
    ensures
        module_wf(m1, alen1),
{
    crate::module::lemma_module_wf_grow(m0, alen0, alen1);
    lemma_words_ok_append(m0.words, m1.words, alen1);
    assert forall|i: int|
        0 <= i < m1.modules.len() implies module_wf((#[trigger] m1.modules[i]).1, alen1) by {
        if i < m0.modules.len() {
            assert(m1.modules[i] == m0.modules[i]);
            assert(module_wf(m0.modules[i].1, alen1));
        } else {
            assert(m1.modules[i] == m1.modules.last());
        }
    }
}

} // verus!
