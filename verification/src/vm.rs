//! The rules of the virtual machine that do not touch its heap: one step of
//! the dispatch loop for the instructions that work on the stack, the
//! globals and the instruction offset; what running a script comes to; when
//! a call may enter a new frame; where a property of an instance is found;
//! and the table of open upvalues through which closures share captured
//! variables.
use crate::chunk::{Chunk, OpCode, byte_opcode, operand_len, short_at};
use crate::value::{
    Value, FALSE_VAL, NIL_VAL, TRUE_VAL, spec_is_bool, spec_is_nil, spec_is_number, spec_is_obj,
    spec_obj_handle,
};
use crate::vecmap::VecMap;
use vstd::prelude::*;

verus! {

/// The outcome of interpreting a script.
#[derive(Debug, Clone, Copy, PartialEq, Eq, Structural)]
pub enum InterpretResult {
    /// The script ran to its end.
    Success,
    /// The script did not compile.
    CompileError,
    /// The script stopped on a runtime error.
    RuntimeError,
}

/// The most call frames that can be active at once.
pub const FRAMES_MAX: usize = 64;

/// The most values on the stack: a full frame of slots per call frame.
pub const STACK_MAX: usize = FRAMES_MAX * 255;

/// Why a call cannot enter a new frame.
#[derive(Debug, Clone, Copy, PartialEq, Eq, Structural)]
pub enum CallError {
    /// The callee takes `expected` arguments but was given `got`.
    Arity { expected: usize, got: u8 },
    /// All call frames are in use.
    StackOverflow,
    /// The callee is not an object.
    NotObject,
    /// The callee is an object that cannot be called.
    NotCallable,
}

/// What kind of value is called, with what the decision needs of it.
#[derive(Debug, Clone, Copy, PartialEq, Eq, Structural)]
pub enum Callee {
    /// A value that is no object.
    NotObject,
    /// A native function.
    Native,
    /// A function or a closure of `arity` parameters.
    Function { arity: usize },
    /// A class; `init_arity` is the arity of its initializer, if it has one.
    Class { init_arity: Option<usize> },
    /// A method bound to a receiver, of `arity` parameters.
    BoundMethod { arity: usize },
    /// Any other object.
    Other,
}

/// How a call proceeds.
#[derive(Debug, Clone, Copy, PartialEq, Eq, Structural)]
pub enum CallKind {
    /// Run the native function on the arguments, which start at `args`.
    Native { args: usize },
    /// Enter a frame that starts at `base`; for a bound method, the
    /// receiver goes into its slot 0.
    Frame { base: usize },
    /// Put a new instance of the class into `slot`, where the class was;
    /// then enter the initializer's frame at `init` when there is one.
    Construct { slot: usize, init: Option<usize> },
}

/// How calling a `callee` with `arg_count` arguments proceeds, with
/// `frames` frames in use and `stack_len` values on the stack, the callee
/// and its arguments on top: a native runs at once; a function, a closure,
/// or a bound method enters a frame (see [`enter_call`]); a class makes an
/// instance, which its initializer then receives, and without an
/// initializer it takes no arguments; anything else cannot be called.
pub fn call_value(callee: Callee, arg_count: u8, frames: usize, stack_len: usize) -> (r: Result<
    CallKind,
    CallError,
>)
    requires
        stack_len >= arg_count + 1,
        frames <= FRAMES_MAX,
    ensures
        r == match callee {
            Callee::NotObject => Err(CallError::NotObject),
            Callee::Native => Ok(CallKind::Native { args: (stack_len - arg_count) as usize }),
            Callee::Function { arity } => match enter_call_spec(arity, arg_count, frames, stack_len) {
                Ok(base) => Ok(CallKind::Frame { base }),
                Err(e) => Err(e),
            },
            Callee::BoundMethod { arity } => match enter_call_spec(arity, arg_count, frames, stack_len) {
                Ok(base) => Ok(CallKind::Frame { base }),
                Err(e) => Err(e),
            },
            Callee::Class { init_arity } => match init_arity {
                Some(arity) => match enter_call_spec(arity, arg_count, frames, stack_len) {
                    Ok(base) => Ok(CallKind::Construct { slot: (stack_len - arg_count - 1) as usize, init: Some(base) }),
                    Err(e) => Err(e),
                },
                None => if arg_count > 0 {
                    Err(CallError::Arity { expected: 0, got: arg_count })
                } else {
                    Ok(CallKind::Construct { slot: (stack_len - 1) as usize, init: None })
                },
            },
            Callee::Other => Err(CallError::NotCallable),
        },
{
    match callee {
        Callee::NotObject => Err(CallError::NotObject),
        Callee::Native => Ok(CallKind::Native { args: stack_len - arg_count as usize }),
        Callee::Function { arity } => match enter_call(arity, arg_count, frames, stack_len) {
            Ok(base) => Ok(CallKind::Frame { base }),
            Err(e) => Err(e),
        },
        Callee::BoundMethod { arity } => match enter_call(arity, arg_count, frames, stack_len) {
            Ok(base) => Ok(CallKind::Frame { base }),
            Err(e) => Err(e),
        },
        Callee::Class { init_arity } => match init_arity {
            Some(arity) => match enter_call(arity, arg_count, frames, stack_len) {
                Ok(base) => Ok(
                    CallKind::Construct { slot: stack_len - arg_count as usize - 1, init: Some(base) },
                ),
                Err(e) => Err(e),
            },
            None => if arg_count > 0 {
                Err(CallError::Arity { expected: 0, got: arg_count })
            } else {
                Ok(CallKind::Construct { slot: stack_len - 1, init: None })
            },
        },
        Callee::Other => Err(CallError::NotCallable),
    }
}

/// Where the frame of a call starts, or why it cannot: see [`enter_call`].
pub open spec fn enter_call_spec(arity: usize, arg_count: u8, frames: usize, stack_len: usize) -> Result<
    usize,
    CallError,
> {
    if arg_count as usize != arity {
        Err(CallError::Arity { expected: arity, got: arg_count })
    } else if frames == FRAMES_MAX {
        Err(CallError::StackOverflow)
    } else {
        Ok((stack_len - arg_count - 1) as usize)
    }
}

/// Where the frame of a call starts: the callee and its `arg_count`
/// arguments are the top `arg_count + 1` values of a stack of `stack_len`
/// values, and the frame's slot 0 is the callee's. A callee of `arity`
/// parameters must get exactly as many arguments, and a new frame needs one
/// of the `FRAMES_MAX` frames to be free: with `frames` in use, the call is
/// refused when they are all taken.
pub fn enter_call(arity: usize, arg_count: u8, frames: usize, stack_len: usize) -> (r: Result<
    usize,
    CallError,
>)
    requires
        stack_len >= arg_count + 1,
        frames <= FRAMES_MAX,
    ensures
        r == enter_call_spec(arity, arg_count, frames, stack_len),
{
    if arg_count as usize != arity {
        return Err(CallError::Arity { expected: arity, got: arg_count });
    }
    if frames == FRAMES_MAX {
        return Err(CallError::StackOverflow);
    }
    Ok(stack_len - arg_count as usize - 1)
}

/// The upvalue open on stack slot `slot` in `entries`, if there is one.
pub open spec fn open_at<T>(entries: Seq<(usize, T)>, slot: usize) -> Option<T> {
    if exists|j: int| 0 <= j < entries.len() && #[trigger] entries[j].0 == slot {
        Some(entries[choose|j: int| 0 <= j < entries.len() && #[trigger] entries[j].0 == slot].1)
    } else {
        None
    }
}

/// Entries open on a slot below `base`.
pub open spec fn below<T>(base: usize) -> spec_fn((usize, T)) -> bool {
    |e: (usize, T)| e.0 < base
}

/// Entries open on a slot at or above `base`.
pub open spec fn at_or_above<T>(base: usize) -> spec_fn((usize, T)) -> bool {
    |e: (usize, T)| e.0 >= base
}

/// No two entries are open on the same stack slot.
pub open spec fn distinct_slots<T>(entries: Seq<(usize, T)>) -> bool {
    forall|i: int, j: int|
        0 <= i < j < entries.len() ==> (#[trigger] entries[i]).0 != (#[trigger] entries[j]).0
}

/// The upvalues that are still open, each with the absolute stack slot of
/// the variable it captures. A variable has at most one open upvalue, so
/// every closure that captures it shares that upvalue.
pub struct OpenUpvalues<T> {
    entries: Vec<(usize, T)>,
}

impl<T: Copy> OpenUpvalues<T> {
    /// The open upvalues with their slots, oldest first.
    pub closed spec fn view(&self) -> Seq<(usize, T)> {
        self.entries@
    }

    /// No two upvalues are open on the same slot.
    pub open spec fn wf(&self) -> bool {
        distinct_slots(self.view())
    }

    /// No upvalue is open.
    pub fn new() -> (u: Self)
        ensures
            u.wf(),
            u.view() == Seq::<(usize, T)>::empty(),
    {
        OpenUpvalues { entries: Vec::new() }
    }

    /// The upvalue open on `slot`, if any: capturing a variable that already
    /// has an open upvalue reuses it.
    pub fn find(&self, slot: usize) -> (r: Option<T>)
        requires
            self.wf(),
        ensures
            r == open_at(self.view(), slot),
    {
        let mut i: usize = 0;
        while i < self.entries.len()
            invariant
                self.wf(),
                i <= self.entries@.len(),
                forall|j: int| 0 <= j < i ==> (#[trigger] self.entries@[j]).0 != slot,
            decreases self.entries@.len() - i,
        {
            if self.entries[i].0 == slot {
                proof {
                    let k = choose|j: int|
                        0 <= j < self.entries@.len() && #[trigger] self.entries@[j].0 == slot;
                    assert(k == i) by {
                        if k != i as int {
                            assert(self.entries@[k].0 == self.entries@[i as int].0);
                        }
                    }
                }
                return Some(self.entries[i].1);
            }
            i = i + 1;
        }
        None
    }

    /// Records `upvalue` as open on `slot`, which has none yet.
    pub fn add(&mut self, slot: usize, upvalue: T)
        requires
            old(self).wf(),
            open_at(old(self).view(), slot) is None,
        ensures
            final(self).wf(),
            final(self).view() == old(self).view().push((slot, upvalue)),
    {
        proof {
            assert forall|j: int| 0 <= j < self.entries@.len() implies (
            #[trigger] self.entries@[j]).0 != slot by {
                if self.entries@[j].0 == slot {
                    assert(exists|k: int|
                        0 <= k < self.entries@.len() && #[trigger] self.entries@[k].0 == slot);
                }
            }
        }
        self.entries.push((slot, upvalue));
    }

    /// Every open upvalue, oldest first.
    pub fn values(&self) -> (v: Vec<T>)
        ensures
            v@.len() == self.view().len(),
            forall|j: int| 0 <= j < v@.len() ==> v@[j] == (#[trigger] self.view()[j]).1,
    {
        let mut v: Vec<T> = Vec::new();
        let mut i: usize = 0;
        while i < self.entries.len()
            invariant
                i <= self.entries@.len(),
                v@.len() == i,
                forall|j: int| 0 <= j < i ==> v@[j] == (#[trigger] self.entries@[j]).1,
            decreases self.entries@.len() - i,
        {
            v.push(self.entries[i].1);
            i = i + 1;
        }
        v
    }

    /// Takes out every upvalue open on a slot at or above `base`, when the
    /// frame whose slots start there returns or a scope ends; those
    /// variables move off the stack into their upvalues. The others stay
    /// open, in their order.
    pub fn close_from(&mut self, base: usize) -> (closed: Vec<(usize, T)>)
        requires
            old(self).wf(),
        ensures
            final(self).wf(),
            final(self).view() == old(self).view().filter(below::<T>(base)),
            closed@ == old(self).view().filter(at_or_above::<T>(base)),
    {
        let ghost all = self.entries@;
        let mut kept: Vec<(usize, T)> = Vec::new();
        let mut closed: Vec<(usize, T)> = Vec::new();
        let mut i: usize = 0;
        while i < self.entries.len()
            invariant
                self.entries@ == all,
                i <= all.len(),
                kept@ == all.take(i as int).filter(below::<T>(base)),
                closed@ == all.take(i as int).filter(at_or_above::<T>(base)),
            decreases all.len() - i,
        {
            let e = self.entries[i];
            proof {
                assert(all.take(i + 1) =~= all.take(i as int).push(e));
                assert(all.take(i + 1).drop_last() =~= all.take(i as int));
                assert(all.take(i + 1).last() == e);
                reveal(Seq::filter);
                assert(all.take(i + 1).filter(below::<T>(base)) == if e.0 < base {
                    all.take(i as int).filter(below::<T>(base)).push(e)
                } else {
                    all.take(i as int).filter(below::<T>(base))
                });
                assert(all.take(i + 1).filter(at_or_above::<T>(base)) == if e.0 >= base {
                    all.take(i as int).filter(at_or_above::<T>(base)).push(e)
                } else {
                    all.take(i as int).filter(at_or_above::<T>(base))
                });
            }
            if e.0 < base {
                kept.push(e);
            } else {
                closed.push(e);
            }
            i = i + 1;
        }
        proof {
            assert(all.take(all.len() as int) =~= all);
            assert forall|a: int, b: int|
                0 <= a < b < kept@.len() implies (#[trigger] kept@[a]).0 != (#[trigger] kept@[b]).0 by {
                lemma_filter_keeps_distinct(all, base, a, b);
            }
        }
        self.entries = kept;
        closed
    }
}

/// The entries that a filter keeps are entries of the whole, in the same
/// order, so they are open on distinct slots when the whole is.
proof fn lemma_filter_keeps_distinct<T>(all: Seq<(usize, T)>, base: usize, a: int, b: int)
    requires
        distinct_slots(all),
        0 <= a < b < all.filter(below::<T>(base)).len(),
    ensures
        all.filter(below::<T>(base))[a].0 != all.filter(below::<T>(base))[b].0,
    decreases all.len(),
{
    let f = all.filter(below::<T>(base));
    reveal(Seq::filter);
    if all.len() == 0 {
    } else {
        let rest = all.drop_last();
        let g = rest.filter(below::<T>(base));
        assert(distinct_slots(rest)) by {
            assert forall|i: int, j: int| 0 <= i < j < rest.len() implies (#[trigger] rest[i]).0 != (
            #[trigger] rest[j]).0 by {
                assert(rest[i] == all[i] && rest[j] == all[j]);
            }
        }
        if all.last().0 < base {
            assert(f == g.push(all.last()));
            if b < g.len() {
                lemma_filter_keeps_distinct(rest, base, a, b);
            } else {
                // The last entry kept is the whole's last entry, whose slot
                // no earlier entry has.
                assert(g.contains(g[a]));
                rest.lemma_filter_contains_rev(below::<T>(base), g[a]);
                let k = choose|k: int| 0 <= k < rest.len() && rest[k] == g[a];
                assert(all[k] == rest[k]);
                assert(all[k].0 != all[all.len() - 1].0);
            }
        } else {
            assert(f == g);
            lemma_filter_keeps_distinct(rest, base, a, b);
        }
    }
}

/// Closures share captured variables: once an upvalue is recorded as open
/// on a slot, looking up that slot finds it, and every other slot finds
/// what it found before.
pub proof fn lemma_capture_is_shared<T>(entries: Seq<(usize, T)>, slot: usize, upvalue: T)
    requires
        distinct_slots(entries),
        open_at(entries, slot) is None,
    ensures
        distinct_slots(entries.push((slot, upvalue))),
        open_at(entries.push((slot, upvalue)), slot) == Some(upvalue),
        forall|other: usize|
            other != slot ==> #[trigger] open_at(entries.push((slot, upvalue)), other) == open_at(
                entries,
                other,
            ),
{
    let pushed = entries.push((slot, upvalue));
    assert forall|j: int| 0 <= j < entries.len() implies (#[trigger] entries[j]).0 != slot by {
        if entries[j].0 == slot {
            assert(exists|k: int| 0 <= k < entries.len() && #[trigger] entries[k].0 == slot);
        }
    }
    assert forall|i: int, j: int| 0 <= i < j < pushed.len() implies (#[trigger] pushed[i]).0 != (
    #[trigger] pushed[j]).0 by {
        if j == entries.len() {
            assert(pushed[i] == entries[i]);
        } else {
            assert(pushed[i] == entries[i] && pushed[j] == entries[j]);
        }
    }
    assert(pushed[entries.len() as int].0 == slot);
    let k = choose|j: int| 0 <= j < pushed.len() && #[trigger] pushed[j].0 == slot;
    assert(k == entries.len()) by {
        if k < entries.len() {
            assert(pushed[k] == entries[k]);
        }
    }
    assert forall|other: usize| other != slot implies #[trigger] open_at(pushed, other) == open_at(
        entries,
        other,
    ) by {
        if exists|j: int| 0 <= j < entries.len() && #[trigger] entries[j].0 == other {
            let w = choose|j: int| 0 <= j < entries.len() && #[trigger] entries[j].0 == other;
            assert(pushed[w] == entries[w]);
            let p = choose|j: int| 0 <= j < pushed.len() && #[trigger] pushed[j].0 == other;
            assert(p != entries.len());
            assert(pushed[p] == entries[p]);
            assert(p == w) by {
                if p != w {
                    assert(entries[p].0 == entries[w].0);
                }
            }
        } else {
            assert forall|j: int| 0 <= j < pushed.len() implies (#[trigger] pushed[j]).0 != other by {
                if j < entries.len() {
                    assert(pushed[j] == entries[j]);
                }
            }
        }
    }
}

// ---------------------------------------------------------------------------
// One step of the dispatch loop
// ---------------------------------------------------------------------------

/// What is left to the machine after one step of the dispatch loop.
#[derive(Debug, Clone, Copy)]
pub enum StepOutcome {
    /// The instruction is done; the machine goes on at the returned offset.
    Continue,
    /// `print` took this value off the stack; the machine prints it.
    Print(Value),
    /// A global that was read or assigned has no value; this is the
    /// constant that names it. The run ends with a runtime error.
    UndefinedVariable(Value),
    /// The machine carries out this instruction itself: it works on heap
    /// objects, calls, upvalues or numbers. Nothing was changed.
    Delegate(OpCode),
}

/// `nil` and `false` count as false in a condition.
pub open spec fn falsey(v: Value) -> bool {
    v.0 == NIL_VAL || v.0 == FALSE_VAL
}

/// Lox equality of `a`, which is not a number, and `b`: booleans by value,
/// objects by identity, and `nil` equals only `nil`.
pub open spec fn equal_non_number(a: Value, b: Value) -> bool {
    if spec_is_bool(a.0) {
        spec_is_bool(b.0) && (a.0 == TRUE_VAL) == (b.0 == TRUE_VAL)
    } else if spec_is_obj(a.0) {
        spec_is_obj(b.0) && spec_obj_handle(a.0) == spec_obj_handle(b.0)
    } else {
        spec_is_nil(a.0) && spec_is_nil(b.0)
    }
}

/// The boolean value `b`.
pub open spec fn bool_value(b: bool) -> Value {
    Value(if b { TRUE_VAL } else { FALSE_VAL })
}

/// The instruction at `ip` can run without leaving the code, the constants,
/// the stack or the range of offsets: its operands are in the code, a
/// constant it names exists, a local slot it names (counted from `base`) is
/// on the stack, the value it reads from the top of the stack is there, and
/// a jump lands on an offset.
pub open spec fn step_ready(
    stack: Seq<Value>,
    code: Seq<u8>,
    constants: Seq<Value>,
    ip: int,
    base: int,
) -> bool {
    let op = byte_opcode(code[ip]);
    &&& 0 <= ip < code.len()
    &&& ip + 1 + operand_len(op) <= code.len()
    &&& 0 <= base <= stack.len()
    &&& (op == OpCode::Constant || op == OpCode::GetGlobal || op == OpCode::DefineGlobal || op
        == OpCode::SetGlobal) ==> code[ip + 1] < constants.len()
    &&& (op == OpCode::GetLocal || op == OpCode::SetLocal) ==> base + code[ip + 1] < stack.len()
    &&& (op == OpCode::DefineGlobal || op == OpCode::SetGlobal || op == OpCode::Not || op
        == OpCode::Print || op == OpCode::JumpIfFalse) ==> stack.len() > 0
    &&& op == OpCode::Equal ==> stack.len() >= 2
    &&& (op == OpCode::Jump || op == OpCode::JumpIfFalse) ==> ip + 3 + short_at(code, ip + 1)
        <= usize::MAX
    &&& op == OpCode::Loop ==> short_at(code, ip + 1) <= ip + 3
}

/// One step of the dispatch loop on the instruction at `ip` of `code`, for
/// a frame whose slots start at `base`: the stack, the globals (by the
/// handle of their name), the offset of the next instruction and what is
/// left to the machine.
pub open spec fn step_spec(
    stack: Seq<Value>,
    globals: Map<u64, Value>,
    code: Seq<u8>,
    constants: Seq<Value>,
    ip: int,
    base: int,
) -> (Seq<Value>, Map<u64, Value>, int, StepOutcome) {
    let op = byte_opcode(code[ip]);
    let next = ip + 1 + operand_len(op);
    let arg = code[ip + 1] as int;
    let name = constants[arg];
    let key = spec_obj_handle(name.0);
    match op {
        OpCode::Constant => (stack.push(name), globals, next, StepOutcome::Continue),
        OpCode::Nil => (stack.push(Value(NIL_VAL)), globals, next, StepOutcome::Continue),
        OpCode::True => (stack.push(Value(TRUE_VAL)), globals, next, StepOutcome::Continue),
        OpCode::False => (stack.push(Value(FALSE_VAL)), globals, next, StepOutcome::Continue),
        OpCode::Pop => (
            if stack.len() > 0 {
                stack.drop_last()
            } else {
                stack
            },
            globals,
            next,
            StepOutcome::Continue,
        ),
        OpCode::GetLocal => (stack.push(stack[base + arg]), globals, next, StepOutcome::Continue),
        OpCode::SetLocal => (
            stack.update(base + arg, stack.last()),
            globals,
            next,
            StepOutcome::Continue,
        ),
        OpCode::GetGlobal => if globals.contains_key(key) {
            (stack.push(globals[key]), globals, next, StepOutcome::Continue)
        } else {
            (stack, globals, next, StepOutcome::UndefinedVariable(name))
        },
        OpCode::DefineGlobal => (
            stack.drop_last(),
            globals.insert(key, stack.last()),
            next,
            StepOutcome::Continue,
        ),
        OpCode::SetGlobal => if globals.contains_key(key) {
            (stack, globals.insert(key, stack.last()), next, StepOutcome::Continue)
        } else {
            (stack, globals, next, StepOutcome::UndefinedVariable(name))
        },
        OpCode::Not => (
            stack.drop_last().push(bool_value(falsey(stack.last()))),
            globals,
            next,
            StepOutcome::Continue,
        ),
        OpCode::Print => (stack.drop_last(), globals, next, StepOutcome::Print(stack.last())),
        OpCode::Equal => if spec_is_number(stack[stack.len() - 2].0) {
            (stack, globals, ip, StepOutcome::Delegate(op))
        } else {
            (
                stack.drop_last().drop_last().push(
                    bool_value(equal_non_number(stack[stack.len() - 2], stack.last())),
                ),
                globals,
                next,
                StepOutcome::Continue,
            )
        },
        OpCode::Jump => (stack, globals, next + short_at(code, ip + 1), StepOutcome::Continue),
        OpCode::JumpIfFalse => (
            stack,
            globals,
            if falsey(stack.last()) {
                next + short_at(code, ip + 1)
            } else {
                next
            },
            StepOutcome::Continue,
        ),
        OpCode::Loop => (stack, globals, next - short_at(code, ip + 1), StepOutcome::Continue),
        _ => (stack, globals, ip, StepOutcome::Delegate(op)),
    }
}

/// Runs the instruction at `ip` of `chunk` when it works only on the stack,
/// the globals and the offset of the next instruction: constants and
/// literals, locals of the frame whose slots start at `base`, globals,
/// logical not, equality unless the left operand is a number, jumps and
/// loops, and `print`, whose value it hands to the machine. Any other instruction is handed back untouched. Returns the
/// offset of the next instruction and what is left to the machine.
pub fn step(
    stack: &mut Vec<Value>,
    globals: &mut VecMap<Value>,
    chunk: &Chunk,
    ip: usize,
    base: usize,
) -> (r: (usize, StepOutcome))
    requires
        old(globals).wf(),
        step_ready(old(stack)@, chunk.codes@, chunk.constants@, ip as int, base as int),
    ensures
        final(globals).wf(),
        ({
            let next = step_spec(
                old(stack)@,
                old(globals)@,
                chunk.codes@,
                chunk.constants@,
                ip as int,
                base as int,
            );
            &&& final(stack)@ == next.0
            &&& final(globals)@ == next.1
            &&& r.0 == next.2
            &&& r.1 == next.3
        }),
{
    // The lengths bound the offsets and slots below.
    let _code_len = chunk.codes.len();
    let stack_len = stack.len();
    let op = OpCode::from(chunk.codes[ip]);
    proof {
        assert(op == byte_opcode(chunk.codes@[ip as int]));
    }
    match op {
        OpCode::Constant => {
            let c = chunk.constants[chunk.codes[ip + 1] as usize];
            stack.push(c);
            (ip + 2, StepOutcome::Continue)
        },
        OpCode::Nil => {
            stack.push(Value::nil());
            (ip + 1, StepOutcome::Continue)
        },
        OpCode::True => {
            stack.push(Value::from_bool(true));
            (ip + 1, StepOutcome::Continue)
        },
        OpCode::False => {
            stack.push(Value::from_bool(false));
            (ip + 1, StepOutcome::Continue)
        },
        OpCode::Pop => {
            let _ = stack.pop();
            (ip + 1, StepOutcome::Continue)
        },
        OpCode::GetLocal => {
            let slot = chunk.codes[ip + 1] as usize;
            let v = stack[base + slot];
            stack.push(v);
            (ip + 2, StepOutcome::Continue)
        },
        OpCode::SetLocal => {
            let slot = chunk.codes[ip + 1] as usize;
            let v = stack[stack.len() - 1];
            stack.set(base + slot, v);
            (ip + 2, StepOutcome::Continue)
        },
        OpCode::GetGlobal => {
            let name = chunk.constants[chunk.codes[ip + 1] as usize];
            match globals.get(&name.as_obj()) {
                Some(v) => {
                    let v = *v;
                    stack.push(v);
                    (ip + 2, StepOutcome::Continue)
                },
                None => (ip + 2, StepOutcome::UndefinedVariable(name)),
            }
        },
        OpCode::DefineGlobal => {
            let name = chunk.constants[chunk.codes[ip + 1] as usize];
            let v = stack[stack.len() - 1];
            let _ = globals.insert(name.as_obj(), v);
            let _ = stack.pop();
            (ip + 2, StepOutcome::Continue)
        },
        OpCode::SetGlobal => {
            let name = chunk.constants[chunk.codes[ip + 1] as usize];
            if globals.contains_key(&name.as_obj()) {
                let v = stack[stack.len() - 1];
                let _ = globals.insert(name.as_obj(), v);
                (ip + 2, StepOutcome::Continue)
            } else {
                (ip + 2, StepOutcome::UndefinedVariable(name))
            }
        },
        OpCode::Not => {
            let top = stack.pop().unwrap();
            stack.push(Value::from_bool(top.is_falsey()));
            (ip + 1, StepOutcome::Continue)
        },
        OpCode::Print => {
            let top = stack.pop().unwrap();
            (ip + 1, StepOutcome::Print(top))
        },
        OpCode::Equal => {
            let a = stack[stack_len - 2];
            if a.is_number() {
                return (ip, StepOutcome::Delegate(op));
            }
            let b = stack.pop().unwrap();
            let _ = stack.pop();
            let same = if a.is_bool() {
                b.is_bool() && a.as_bool() == b.as_bool()
            } else if a.is_obj() {
                b.is_obj() && a.as_obj() == b.as_obj()
            } else {
                a.is_nil() && b.is_nil()
            };
            stack.push(Value::from_bool(same));
            proof {
                assert(stack@ =~= old(stack)@.drop_last().drop_last().push(
                    bool_value(equal_non_number(old(stack)@[old(stack)@.len() - 2], old(stack)@.last())),
                ));
            }
            (ip + 1, StepOutcome::Continue)
        },
        OpCode::Jump => {
            let offset = chunk.read_short(ip + 1) as usize;
            (ip + 3 + offset, StepOutcome::Continue)
        },
        OpCode::JumpIfFalse => {
            let offset = chunk.read_short(ip + 1) as usize;
            if stack[stack.len() - 1].is_falsey() {
                (ip + 3 + offset, StepOutcome::Continue)
            } else {
                (ip + 3, StepOutcome::Continue)
            }
        },
        OpCode::Loop => {
            let offset = chunk.read_short(ip + 1) as usize;
            (ip + 3 - offset, StepOutcome::Continue)
        },
        _ => (ip, StepOutcome::Delegate(op)),
    }
}

/// What `DefineGlobal` stores, a later `GetGlobal` of the same name reads
/// back, whatever ran in between as long as it did not store that name
/// again; and `GetGlobal` of a name never defined is a runtime error that
/// leaves the stack and the globals as they were.
pub proof fn lemma_global_read_after_define(
    stack: Seq<Value>,
    globals: Map<u64, Value>,
    code: Seq<u8>,
    constants: Seq<Value>,
    ip: int,
    base: int,
    later: Seq<Value>,
    get_code: Seq<u8>,
    get_constants: Seq<Value>,
    get_ip: int,
    get_base: int,
)
    requires
        step_ready(stack, code, constants, ip, base),
        byte_opcode(code[ip]) == OpCode::DefineGlobal,
        step_ready(later, get_code, get_constants, get_ip, get_base),
        byte_opcode(get_code[get_ip]) == OpCode::GetGlobal,
        spec_obj_handle(get_constants[get_code[get_ip + 1] as int].0) == spec_obj_handle(
            constants[code[ip + 1] as int].0,
        ),
    ensures
        ({
            let defined = step_spec(stack, globals, code, constants, ip, base);
            let read = step_spec(later, defined.1, get_code, get_constants, get_ip, get_base);
            &&& read.3 == StepOutcome::Continue
            &&& read.0 == later.push(stack.last())
            &&& read.1 == defined.1
        }),
        ({
            let k = spec_obj_handle(get_constants[get_code[get_ip + 1] as int].0);
            let read = step_spec(later, globals, get_code, get_constants, get_ip, get_base);
            !globals.contains_key(k) ==> read.0 == later && read.1 == globals && read.3
                == StepOutcome::UndefinedVariable(get_constants[get_code[get_ip + 1] as int])
        }),
{
}

/// The literal instructions push the value that they name, `nil`, `true`
/// or `false`, and go on with the next byte; the globals stay as they were.
pub proof fn lemma_step_literals(
    stack: Seq<Value>,
    globals: Map<u64, Value>,
    code: Seq<u8>,
    constants: Seq<Value>,
    ip: int,
    base: int,
)
    requires
        step_ready(stack, code, constants, ip, base),
    ensures
        ({
            let r = step_spec(stack, globals, code, constants, ip, base);
            let op = byte_opcode(code[ip]);
            &&& op == OpCode::Nil ==> r.0 == stack.push(Value(0x7FFC_0000_0000_0001u64))
            &&& op == OpCode::True ==> r.0 == stack.push(Value(0x7FFC_0000_0000_0003u64))
            &&& op == OpCode::False ==> r.0 == stack.push(Value(0x7FFC_0000_0000_0002u64))
            &&& (op == OpCode::Nil || op == OpCode::True || op == OpCode::False) ==> r.1 == globals
                && r.2 == ip + 1 && r.3 == StepOutcome::Continue
        }),
{
}

/// What each instruction that a step carries out does, stated by its
/// effect: the stack below what it reads is left alone, a constant or a
/// local is copied to the top, a store replaces one slot or one global with
/// the top of the stack, `not` replaces the top by whether it was `nil` or
/// `false`, `print` hands the top over, and a jump moves by its two-byte
/// distance, high byte first: forward, backward for a loop, and forward
/// for a conditional jump only when the top is `nil` or `false`. An
/// instruction handed back changes nothing.
pub proof fn lemma_step_effects(
    stack: Seq<Value>,
    globals: Map<u64, Value>,
    code: Seq<u8>,
    constants: Seq<Value>,
    ip: int,
    base: int,
)
    requires
        step_ready(stack, code, constants, ip, base),
    ensures
        ({
            let r = step_spec(stack, globals, code, constants, ip, base);
            let op = byte_opcode(code[ip]);
            let arg = code[ip + 1] as int;
            let distance = code[ip + 1] as int * 256 + code[ip + 2] as int;
            let top = stack[stack.len() - 1];
            let top_false = top.0 == 0x7FFC_0000_0000_0001u64 || top.0 == 0x7FFC_0000_0000_0002u64;
            &&& op == OpCode::Constant ==> r.0 == stack.push(constants[arg]) && r.1 == globals
                && r.2 == ip + 2 && r.3 == StepOutcome::Continue
            &&& op == OpCode::Pop ==> r.0.len() == if stack.len() > 0 {
                stack.len() - 1
            } else {
                0
            } && r.0 == stack.take(r.0.len() as int) && r.1 == globals && r.2 == ip + 1
            &&& op == OpCode::GetLocal ==> r.0 == stack.push(stack[base + arg]) && r.1 == globals
                && r.2 == ip + 2
            &&& op == OpCode::SetLocal ==> r.0.len() == stack.len() && r.0[base + arg] == top
                && (forall|i: int| 0 <= i < stack.len() && i != base + arg ==> r.0[i] == stack[i])
                && r.1 == globals && r.2 == ip + 2
            &&& op == OpCode::DefineGlobal ==> r.0 == stack.take(stack.len() - 1)
                && r.1.contains_key(spec_obj_handle(constants[arg].0)) && r.1[spec_obj_handle(
                constants[arg].0,
            )] == top && (forall|k: u64|
                k != spec_obj_handle(constants[arg].0) ==> r.1.contains_key(k)
                    == globals.contains_key(k) && r.1[k] == globals[k]) && r.2 == ip + 2
            &&& op == OpCode::GetGlobal ==> if globals.contains_key(
                spec_obj_handle(constants[arg].0),
            ) {
                r.0 == stack.push(globals[spec_obj_handle(constants[arg].0)]) && r.3
                    == StepOutcome::Continue
            } else {
                r.0 == stack && r.3 == StepOutcome::UndefinedVariable(constants[arg])
            } && r.1 == globals && r.2 == ip + 2
            &&& op == OpCode::SetGlobal ==> r.0 == stack && r.2 == ip + 2 && if globals.contains_key(
                spec_obj_handle(constants[arg].0),
            ) {
                r.1 == globals.insert(spec_obj_handle(constants[arg].0), top) && r.3
                    == StepOutcome::Continue
            } else {
                r.1 == globals && r.3 == StepOutcome::UndefinedVariable(constants[arg])
            }
            &&& op == OpCode::Not ==> r.0.len() == stack.len() && r.0.take(stack.len() - 1)
                == stack.take(stack.len() - 1) && (r.0[stack.len() - 1].0
                == 0x7FFC_0000_0000_0003u64 <==> top_false) && (r.0[stack.len() - 1].0
                == 0x7FFC_0000_0000_0002u64 <==> !top_false) && r.2 == ip + 1
            &&& op == OpCode::Print ==> r.0 == stack.take(stack.len() - 1) && r.3
                == StepOutcome::Print(top) && r.2 == ip + 1
            &&& op == OpCode::Jump ==> r.0 == stack && r.2 == ip + 3 + distance
            &&& op == OpCode::Loop ==> r.0 == stack && r.2 == ip + 3 - distance
            &&& op == OpCode::JumpIfFalse ==> r.0 == stack && r.2 == if top_false {
                ip + 3 + distance
            } else {
                ip + 3
            }
            &&& r.3 is Delegate ==> r.0 == stack && r.1 == globals && r.2 == ip
        }),
{
    let r = step_spec(stack, globals, code, constants, ip, base);
    let op = byte_opcode(code[ip]);
    let hi = code[ip + 1];
    let lo = code[ip + 2];
    if op == OpCode::Jump || op == OpCode::Loop || op == OpCode::JumpIfFalse {
        assert((hi as int * 256 + lo as int) as u16 == hi as int * 256 + lo as int);
    }
    if op == OpCode::Pop && stack.len() > 0 {
        assert(r.0 =~= stack.take(stack.len() - 1));
    }
    if op == OpCode::Pop && stack.len() == 0 {
        assert(r.0 =~= stack.take(0));
    }
    if op == OpCode::DefineGlobal || op == OpCode::Print {
        assert(stack.drop_last() =~= stack.take(stack.len() - 1));
    }
    if op == OpCode::Not {
        assert(r.0.take(stack.len() - 1) =~= stack.take(stack.len() - 1));
    }
}

/// `==` on two values of which the left is not a number is carried out by
/// the step: it replaces the two values by a boolean, `true` for a boolean,
/// `nil` or object compared with itself, `false` across kinds, booleans
/// equal exactly when they are the same boolean and objects exactly when
/// they are the same object, and the same whichever side each value is on. A number on the left is handed back.
pub proof fn lemma_step_equality(
    rest: Seq<Value>,
    a: Value,
    b: Value,
    globals: Map<u64, Value>,
    code: Seq<u8>,
    constants: Seq<Value>,
    ip: int,
    base: int,
)
    requires
        step_ready(rest.push(a).push(b), code, constants, ip, base),
        step_ready(rest.push(b).push(a), code, constants, ip, base),
        byte_opcode(code[ip]) == OpCode::Equal,
    ensures
        ({
            let r = step_spec(rest.push(a).push(b), globals, code, constants, ip, base);
            let swapped = step_spec(rest.push(b).push(a), globals, code, constants, ip, base);
            let x = r.0.last();
            &&& spec_is_number(a.0) ==> r.0 == rest.push(a).push(b) && r.2 == ip && r.3
                == StepOutcome::Delegate(OpCode::Equal)
            &&& !spec_is_number(a.0) ==> {
                &&& r.0 == rest.push(x) && r.1 == globals && r.2 == ip + 1
                &&& x.0 == 0x7FFC_0000_0000_0003u64 || x.0 == 0x7FFC_0000_0000_0002u64
                &&& a == b && (spec_is_bool(a.0) || spec_is_obj(a.0) || spec_is_nil(a.0)) ==> x.0
                    == 0x7FFC_0000_0000_0003u64
                &&& spec_is_nil(a.0) && !spec_is_nil(b.0) ==> x.0 == 0x7FFC_0000_0000_0002u64
                &&& spec_is_bool(a.0) && !spec_is_bool(b.0) ==> x.0 == 0x7FFC_0000_0000_0002u64
                &&& spec_is_obj(a.0) && !spec_is_obj(b.0) ==> x.0 == 0x7FFC_0000_0000_0002u64
                &&& spec_is_bool(a.0) && spec_is_bool(b.0) ==> (x.0 == 0x7FFC_0000_0000_0003u64
                    <==> a.0 == b.0)
                &&& spec_is_obj(a.0) && spec_is_obj(b.0) ==> (x.0 == 0x7FFC_0000_0000_0003u64
                    <==> spec_obj_handle(a.0) == spec_obj_handle(b.0))
                &&& !spec_is_number(b.0) ==> swapped.0 == r.0
            }
        }),
{
    let st = rest.push(a).push(b);
    let sw = rest.push(b).push(a);
    assert(st[st.len() - 2] == a && st.last() == b);
    assert(sw[sw.len() - 2] == b && sw.last() == a);
    assert(st.drop_last().drop_last() =~= rest);
    assert(sw.drop_last().drop_last() =~= rest);
    crate::value::lemma_kinds_exclusive(a.0);
    crate::value::lemma_kinds_exclusive(b.0);
}

// ---------------------------------------------------------------------------
// Properties and methods
// ---------------------------------------------------------------------------

/// Where a name read from an instance, or invoked on it, is found.
#[derive(Debug, Clone, Copy)]
pub enum Member {
    /// A field of the instance, with its value.
    Field(Value),
    /// A method of the instance's class, with its closure.
    Method(Value),
    /// Neither has the name.
    Undefined,
}

/// A field shadows a method of the same name; a name that is neither is
/// undefined.
pub open spec fn member_of(fields: Map<u64, Value>, methods: Map<u64, Value>, name: u64) -> Member {
    if fields.contains_key(name) {
        Member::Field(fields[name])
    } else if methods.contains_key(name) {
        Member::Method(methods[name])
    } else {
        Member::Undefined
    }
}

/// Looks `name` up on an instance with `fields` whose class has `methods`:
/// its fields first, then the methods of its class.
pub fn find_member(fields: &VecMap<Value>, methods: &VecMap<Value>, name: u64) -> (m: Member)
    requires
        fields.wf(),
        methods.wf(),
    ensures
        m == member_of(fields@, methods@, name),
{
    match fields.get(&name) {
        Some(v) => Member::Field(*v),
        None => match methods.get(&name) {
            Some(v) => Member::Method(*v),
            None => Member::Undefined,
        },
    }
}

// ---------------------------------------------------------------------------
// Returning from a frame
// ---------------------------------------------------------------------------

/// What returning from a frame leaves to the machine.
pub enum Returned<T> {
    /// The script's own frame returned: the run is over.
    Finished,
    /// Execution goes on in the caller. Each upvalue that was open on a
    /// slot of the returning frame is closed, with the value that it now
    /// holds, oldest first.
    Resumed(Vec<(T, Value)>),
}

/// The upvalues that close when a frame whose slots start at `base`
/// returns, each with the value of its slot on `stack`.
pub open spec fn closing<T>(open: Seq<(usize, T)>, stack: Seq<Value>, base: usize) -> Seq<(T, Value)> {
    open.filter(at_or_above::<T>(base)).map_values(|e: (usize, T)| (e.1, stack[e.0 as int]))
}

/// Closes every upvalue open on a slot at or above `base`: each is taken
/// out of the table and returned with the value of its slot on `stack`,
/// oldest first, so that the variable can live on in the upvalue.
pub fn close_upvalues<T: Copy>(stack: &Vec<Value>, open: &mut OpenUpvalues<T>, base: usize) -> (closed: Vec<(T, Value)>)
    requires
        old(open).wf(),
        forall|i: int| 0 <= i < old(open).view().len() ==> (#[trigger] old(open).view()[i]).0 < stack@.len(),
    ensures
        final(open).wf(),
        final(open).view() == old(open).view().filter(below::<T>(base)),
        closed@ == closing(old(open).view(), stack@, base),
{
    let ghost entries = open.view();
    let taken = open.close_from(base);
    let ghost want = closing(entries, stack@, base);
    let mut pairs: Vec<(T, Value)> = Vec::new();
    let mut i: usize = 0;
    while i < taken.len()
        invariant
            taken@ == entries.filter(at_or_above::<T>(base)),
            forall|k: int| 0 <= k < entries.len() ==> (#[trigger] entries[k]).0 < stack@.len(),
            want == closing(entries, stack@, base),
            i <= taken@.len(),
            pairs@ == want.take(i as int),
        decreases taken@.len() - i,
    {
        let (slot, uv) = taken[i];
        proof {
            let e = taken@[i as int];
            assert(entries.filter(at_or_above::<T>(base)).contains(e));
            entries.lemma_filter_contains_rev(at_or_above::<T>(base), e);
            let k = choose|k: int| 0 <= k < entries.len() && entries[k] == e;
            assert(entries[k].0 < stack@.len());
        }
        pairs.push((uv, stack[slot]));
        i = i + 1;
        proof {
            assert(pairs@ =~= want.take(i as int));
        }
    }
    proof {
        assert(pairs@ =~= want);
    }
    pairs
}

/// Returns from the frame whose slots start at `base`, with the value on
/// top of the stack as its result. When the frame is the script's own
/// (`outermost`), the result and the script are taken off the stack and
/// the run is over. Otherwise every upvalue open on the frame's slots is
/// closed over the value of its slot, the frame's slots are dropped and the
/// result takes their place.
pub fn return_from<T: Copy>(
    stack: &mut Vec<Value>,
    open: &mut OpenUpvalues<T>,
    base: usize,
    outermost: bool,
) -> (r: Returned<T>)
    requires
        old(open).wf(),
        base < old(stack)@.len(),
        forall|i: int| 0 <= i < old(open).view().len() ==> (#[trigger] old(open).view()[i]).0 < old(stack)@.len(),
    ensures
        final(open).wf(),
        outermost ==> r is Finished && final(open).view() == old(open).view()
            && final(stack)@ == old(stack)@.take(
            if old(stack)@.len() >= 2 {
                old(stack)@.len() - 2
            } else {
                0
            },
        ),
        !outermost ==> (r matches Returned::Resumed(closed) && closed@ == closing(
            old(open).view(),
            old(stack)@,
            base,
        )) && final(open).view() == old(open).view().filter(below::<T>(base))
            && final(stack)@ == old(stack)@.take(base as int).push(old(stack)@.last()),
{
    let len = stack.len();
    if outermost {
        let _ = stack.pop();
        let _ = stack.pop();
        proof {
            if len >= 2 {
                assert(stack@ =~= old(stack)@.take(old(stack)@.len() - 2));
            } else {
                assert(stack@ =~= old(stack)@.take(0));
            }
        }
        return Returned::Finished;
    }
    let result = stack[len - 1];
    let closed = close_upvalues(stack, open, base);
    stack.truncate(base);
    stack.push(result);
    proof {
        assert(stack@ =~= old(stack)@.take(base as int).push(old(stack)@.last()));
    }
    Returned::Resumed(closed)
}

} // verus!
