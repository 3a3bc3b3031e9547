//! The single-pass compiler: a Pratt parser over the scanner's tokens that
//! emits bytecode into one chunk per function.
//!
//! Compiling allocates objects into a [`Heap`]: interned strings, number
//! literals (kept as their text; the runtime turns them into doubles) and
//! the finished functions. Constants in chunks refer to these objects by
//! their index in the heap.
use crate::chunk::{Chunk, OpCode, opcode_byte, short_at, lemma_short_roundtrip};
use crate::lexer::{Lexer, Token, TokenKind, lemma_scan_progress, scan_end, scan_kind, skip_trivia, tok_end, tok_kind, tok_start, scan_text, lemma_tok_shift, lemma_tok_shift_from};
use crate::lexer::lemma_ascii_boundary;
use crate::value::{QNAN, SIGN_BIT, Value};
use vstd::prelude::*;
use vstd::string::StringSliceAdditionalSpecFns;
use vstd::utf8::*;

verus! {

broadcast use {encode_utf8_valid_utf8, encode_utf8_decode_utf8};

/// An object that compiling allocates.
#[derive(Debug)]
pub enum Object {
    /// An interned string.
    String(String),
    /// A number literal, as it is written in the source.
    Number(String),
    /// A compiled function.
    Function { arity: usize, name: String, chunk: Chunk, upvalue_count: usize },
}

/// Whether `v` is the object value of some handle below `bound`.
pub open spec fn names_before(v: Value, bound: int) -> bool {
    exists|h: u64| h < bound && v.0 == #[trigger] (SIGN_BIT | QNAN | h)
}

/// The handles of the function objects among `objects[lo..hi]`, in
/// increasing order.
pub open spec fn function_handles(objects: Seq<Object>, lo: int, hi: int) -> Seq<u64>
    decreases hi - lo,
{
    if hi <= lo {
        Seq::empty()
    } else {
        let rest = function_handles(objects, lo, hi - 1);
        if objects[hi - 1] is Function {
            rest.push((hi - 1) as u64)
        } else {
            rest
        }
    }
}

/// Which objects below `hi` are functions does not change when the objects
/// below `hi` do not.
proof fn lemma_function_handles_prefix(a: Seq<Object>, b: Seq<Object>, lo: int, hi: int)
    requires
        forall|i: int| lo <= i < hi ==> #[trigger] a[i] == b[i],
    ensures
        function_handles(a, lo, hi) == function_handles(b, lo, hi),
    decreases hi - lo,
{
    if hi > lo {
        lemma_function_handles_prefix(a, b, lo, hi - 1);
    }
}

/// `post` still holds the constants of `pre`, at the same indices.
spec fn constants_kept(pre: Seq<Value>, post: Seq<Value>) -> bool {
    &&& pre.len() <= post.len()
    &&& forall|k: int| 0 <= k < pre.len() ==> #[trigger] post[k] == pre[k]
}

/// The number of objects of `heap`.
spec fn heap_len_of(heap: &Heap) -> int {
    heap.objects@.len() as int
}

/// The objects that compiling allocates, and the table of interned strings:
/// each entry pairs a string with the index of its string object.
#[derive(Debug)]
pub struct Heap {
    pub objects: Vec<Object>,
    pub strings: Vec<(String, u64)>,
}

impl Heap {
    /// An empty heap.
    pub fn new() -> (h: Heap)
        ensures
            h.inv(),
            h.objects@.len() == 0,
            h.strings@.len() == 0,
    {
        Heap { objects: Vec::new(), strings: Vec::new() }
    }

    /// The heap's invariant: every interned string names a string object
    /// with its text and no text is interned twice; every function's chunk
    /// has a line for each byte, at most 256 constants and code that ends
    /// with a `Return`, and each of its constants names an object allocated
    /// before the function.
    pub open spec fn inv(&self) -> bool {
        &&& forall|i: int|
            0 <= i < self.strings@.len() ==> {
                let (s, h) = #[trigger] self.strings@[i];
                &&& h < self.objects@.len()
                &&& self.objects@[h as int] matches Object::String(t) && t@ == s@
            }
        &&& forall|i: int, j: int|
            0 <= i < j < self.strings@.len() ==> self.strings@[i].0@ != self.strings@[j].0@
        &&& forall|i: int|
            0 <= i < self.objects@.len() ==> (#[trigger] self.objects@[i] matches Object::Function {
                chunk,
                ..
            } ==> chunk.wf() && chunk.constants@.len() <= 256 && chunk.codes@.len() >= 1
                && chunk.codes@.last() == opcode_byte(OpCode::Return) && forall|k: int|
                0 <= k < chunk.constants@.len() ==> names_before(chunk.constants@[k], i))
    }
}

/// Where a compile error was found.
#[derive(Debug, Clone)]
pub enum ErrorSite {
    /// At the end of the source.
    End,
    /// At a token, given by its text.
    Lexeme(String),
    /// At an error token from the scanner, which carries the message.
    Scanner,
}

/// A compile error: its line, where it was found and its message.
#[derive(Debug, Clone)]
pub struct CompileError {
    pub line: usize,
    pub site: ErrorSite,
    pub message: String,
}

#[derive(Debug, Clone, Copy, PartialEq, Eq, Structural)]
enum FunctionKind {
    Script,  // top-level execution
    Function,
    Method,
    Initializer,  // a class's `init` method
}

/// The state of one class declaration under compilation.
struct ClassCompiler {
    has_superclass: bool,
}

/// Binding power of operators, from loosest to tightest.
#[derive(Debug, Clone, Copy, PartialEq, Eq, Structural)]
enum Precedence {
    Lowest,
    Assignment,
    Or,
    And,
    Equality,
    Comparison,
    Term,
    Factor,
    Unary,
    Call,
    Primary,
}

/// The rank of a precedence level in the order of binding power.
spec fn prec_rank(p: Precedence) -> int {
    match p {
        Precedence::Lowest => 0,
        Precedence::Assignment => 1,
        Precedence::Or => 2,
        Precedence::And => 3,
        Precedence::Equality => 4,
        Precedence::Comparison => 5,
        Precedence::Term => 6,
        Precedence::Factor => 7,
        Precedence::Unary => 8,
        Precedence::Call => 9,
        Precedence::Primary => 10,
    }
}

fn prec_value(p: Precedence) -> (r: u8)
    ensures
        r == prec_rank(p),
{
    match p {
        Precedence::Lowest => 0,
        Precedence::Assignment => 1,
        Precedence::Or => 2,
        Precedence::And => 3,
        Precedence::Equality => 4,
        Precedence::Comparison => 5,
        Precedence::Term => 6,
        Precedence::Factor => 7,
        Precedence::Unary => 8,
        Precedence::Call => 9,
        Precedence::Primary => 10,
    }
}

/// The next tighter precedence level (`Primary` stays `Primary`).
fn prec_next(p: Precedence) -> (r: Precedence)
    ensures
        prec_rank(p) < 10 ==> prec_rank(r) == prec_rank(p) + 1,
{
    match p {
        Precedence::Lowest => Precedence::Assignment,
        Precedence::Assignment => Precedence::Or,
        Precedence::Or => Precedence::And,
        Precedence::And => Precedence::Equality,
        Precedence::Equality => Precedence::Comparison,
        Precedence::Comparison => Precedence::Term,
        Precedence::Term => Precedence::Factor,
        Precedence::Factor => Precedence::Unary,
        Precedence::Unary => Precedence::Call,
        Precedence::Call => Precedence::Primary,
        Precedence::Primary => Precedence::Primary,
    }
}

/// The rank of the precedence of a token used as an infix operator; 0, the
/// rank of `Lowest`, for tokens that are no infix operator.
spec fn infix_rank(kind: TokenKind) -> int {
    match kind {
        TokenKind::Plus | TokenKind::Minus => 6,
        TokenKind::Star | TokenKind::Slash => 7,
        TokenKind::BangEqual | TokenKind::EqualEqual => 4,
        TokenKind::Greater | TokenKind::GreaterEqual | TokenKind::Less | TokenKind::LessEqual => 5,
        TokenKind::And => 3,
        TokenKind::Or => 2,
        TokenKind::LeftParen | TokenKind::Dot => 9,
        _ => 0,
    }
}

/// The precedence of a token used as an infix operator; `Lowest` for tokens
/// that are no infix operator.
fn infix_precedence(kind: TokenKind) -> (p: Precedence)
    ensures
        prec_rank(p) == infix_rank(kind),
{
    match kind {
        TokenKind::Plus | TokenKind::Minus => Precedence::Term,
        TokenKind::Star | TokenKind::Slash => Precedence::Factor,
        TokenKind::BangEqual | TokenKind::EqualEqual => Precedence::Equality,
        TokenKind::Greater | TokenKind::GreaterEqual | TokenKind::Less | TokenKind::LessEqual =>
            Precedence::Comparison,
        TokenKind::And => Precedence::And,
        TokenKind::Or => Precedence::Or,
        TokenKind::LeftParen | TokenKind::Dot => Precedence::Call,
        _ => Precedence::Lowest,
    }
}

#[derive(Debug)]
struct Local {
    name: Token,  // name
    depth: Option<usize>,  // `None` means uninitialized
    is_captured: bool,
}

#[derive(Debug, Clone, Copy)]
struct UpValue {
    index: usize,
    is_local: bool,
}

/// The state of one function under compilation.
struct CompilerContext {
    name: String,
    arity: usize,
    chunk: Chunk,
    upvalue_count: usize,
    function_kind: FunctionKind,  // the script, a function, a method or an initializer
    locals: Vec<Local>,
    scope_depth: usize,
    upvalues: Vec<UpValue>,
}

/// The compiler: a scanner, the current and previous token, the stack of
/// functions under compilation and the heap that compiling fills.
pub struct Compiler<'a> {
    lexer: Lexer<'a>,
    current: Token,
    previous: Token,
    contexts: Vec<CompilerContext>,
    classes: Vec<ClassCompiler>,
    heap: Heap,
    errors: Vec<CompileError>,
    finished: Vec<u64>,
    had_error: bool,
    panic_mode: bool,
    debug_print: bool,
    /// The number of heap objects when compiling began.
    base: Ghost<int>,
    /// For each object that compiling made, a constant that names it:
    /// (whether it belongs to a finished function of the heap, the index of
    /// that function or the depth of the function under compilation, the
    /// constant's index).
    keepers: Ghost<Map<int, (bool, int, int)>>,
    /// The upvalue descriptors of the function finished last.
    closed_upvalues: Ghost<Seq<UpValue>>,
}

impl CompilerContext {
    /// The bounds that keep one function under compilation within its
    /// one-byte operands: slot 0 is reserved and initialized, at most 255
    /// locals and upvalues and 256 constants; scopes and parameters are no
    /// more than `room`, which only grows as the source is consumed.
    spec fn ok(&self, room: int) -> bool {
        &&& 1 <= self.locals@.len() <= 255
        &&& self.locals@[0].depth == Some(0usize)
        &&& self.upvalue_count == self.upvalues@.len()
        &&& self.upvalue_count <= 255
        &&& self.chunk.wf()
        &&& self.chunk.constants@.len() <= 256
        &&& self.scope_depth <= room
        &&& self.arity <= room
    }
}

impl<'a> Compiler<'a> {
    /// The length of the source text.
    spec fn len(&self) -> int {
        self.lexer.source_bytes().len() as int
    }

    /// What is left to scan: the bytes after the scanner's position, and one
    /// more while the current token is not `Eof`. Every call that consumes
    /// a token lowers it.
    pub closed spec fn measure(&self) -> int {
        (self.len() - self.lexer.pos()) + if self.current.kind == TokenKind::Eof {
            0int
        } else {
            1int
        }
    }

    spec fn top(&self) -> CompilerContext {
        self.contexts@.last()
    }

    spec fn code_len(&self) -> int {
        self.top().chunk.codes@.len() as int
    }

    /// The byte `back` places from the end of the code under compilation:
    /// 1 is the last byte.
    spec fn code_at(&self, back: int) -> u8 {
        self.top().chunk.codes@[self.code_len() - back]
    }

    /// The constant of index `i` of the function under compilation.
    spec fn constant_at(&self, i: int) -> Value {
        self.top().chunk.constants@[i]
    }

    /// The compiler's invariant: the scanner is well formed and at the end
    /// of the text once the current token is `Eof`; there is a function
    /// under compilation and every one is within its bounds; the heap is
    /// consistent; `had_error` says whether an error was recorded; and the
    /// functions recorded for disassembly are in the heap.
    pub closed spec fn inv(&self) -> bool {
        self.inv_except(-1)
    }

    /// The invariant, except that the object at `x` may have no constant
    /// that names it yet.
    spec fn inv_except(&self, x: int) -> bool {
        &&& self.lexer.wf()
        &&& self.current.kind == TokenKind::Eof ==> self.lexer.pos() == self.len()
        &&& self.contexts@.len() >= 1
        &&& forall|i: int|
            0 <= i < self.contexts@.len() ==> (#[trigger] self.contexts@[i]).ok(
                self.len() + 1 - self.measure(),
            )
        &&& self.heap.inv()
        &&& self.had_error == (self.errors@.len() > 0)
        &&& self.finished_ok()
        &&& self.constants_ok()
        &&& self.panic_mode ==> self.had_error
        &&& 0 <= self.base@ <= self.heap.objects@.len()
        &&& self.kept_except(x)
        &&& self.records_all_finished()
        &&& self.contexts@[0].upvalues@.len() == 0
    }

    /// While no error is found and disassembly is on, the functions
    /// recorded are the function objects that compiling made, in order.
    spec fn records_all_finished(&self) -> bool {
        self.debug_print && !self.had_error ==> self.finished@ == function_handles(
            self.heap.objects@,
            self.base@,
            self.heap.objects@.len() as int,
        )
    }

    /// Constant `r.2` of the function `r.1` (a heap function when `r.0`,
    /// else the function under compilation at that depth) names object `i`.
    spec fn keeps(&self, i: int, r: (bool, int, int)) -> bool {
        if r.0 {
            &&& 0 <= i < r.1 < self.heap.objects@.len()
            &&& self.heap.objects@[r.1] matches Object::Function { chunk, .. } && 0 <= r.2
                < chunk.constants@.len() && chunk.constants@[r.2].0 == (SIGN_BIT | QNAN | (i as u64))
        } else {
            &&& 0 <= r.1 < self.contexts@.len()
            &&& 0 <= r.2 < self.contexts@[r.1].chunk.constants@.len()
            &&& self.contexts@[r.1].chunk.constants@[r.2].0 == (SIGN_BIT | QNAN | (i as u64))
        }
    }

    /// The functions under compilation are as many as in `pre`, and each
    /// still has the constants that it had there, at the same indices.
    spec fn same_constants(&self, pre: &Self) -> bool {
        &&& self.contexts@.len() == pre.contexts@.len()
        &&& forall|c: int|
            0 <= c < self.contexts@.len() ==> constants_kept(
                pre.contexts@[c].chunk.constants@,
                #[trigger] self.contexts@[c].chunk.constants@,
            )
    }

    /// Changing only the function under compilation, and adding constants
    /// to it at most, keeps all constants.
    proof fn lemma_same_constants(&self, pre: &Self)
        requires
            self.contexts@.len() == pre.contexts@.len(),
            self.contexts@.len() >= 1,
            self.contexts@.drop_last() == pre.contexts@.drop_last(),
            constants_kept(pre.top().chunk.constants@, self.top().chunk.constants@),
        ensures
            self.same_constants(pre),
    {
        assert forall|c: int| 0 <= c < self.contexts@.len() implies constants_kept(
            pre.contexts@[c].chunk.constants@,
            #[trigger] self.contexts@[c].chunk.constants@,
        ) by {
            if c < self.contexts@.len() - 1 {
                assert(self.contexts@.drop_last()[c] == self.contexts@[c]);
                assert(pre.contexts@.drop_last()[c] == pre.contexts@[c]);
            }
        }
    }

    /// What keeps the objects that compiling made carries over to a state
    /// with the same constants, a heap that extends the old one by at most
    /// the object at `x`, and the same records.
    proof fn lemma_kept_frame(&self, pre: &Self, x: int)
        requires
            pre.kept_except(-1) || pre.kept_except(x),
            0 <= pre.base@,
            self.same_constants(pre),
            self.heap.objects@.len() >= pre.heap.objects@.len(),
            forall|j: int|
                0 <= j < pre.heap.objects@.len() ==> #[trigger] self.heap.objects@[j]
                    == pre.heap.objects@[j],
            self.base@ == pre.base@,
            self.keepers@ == pre.keepers@,
            pre.had_error ==> self.had_error,
            self.heap.objects@.len() == pre.heap.objects@.len() || self.had_error || (
            self.heap.objects@.len() == pre.heap.objects@.len() + 1 && x
                == pre.heap.objects@.len()),
        ensures
            self.kept_except(x),
    {
        if !self.had_error {
            assert forall|i: int|
                self.base@ <= i < self.heap.objects@.len() && i != x implies #[trigger] self.kept(i) by {
                assert(i < pre.heap.objects@.len());
                assert(pre.kept(i));
                let r = pre.keepers@[i];
                assert(pre.keeps(i, r));
                if r.0 {
                    assert(0 <= r.1 < pre.heap.objects@.len());
                    assert(self.heap.objects@[r.1] == pre.heap.objects@[r.1]);
                } else {
                    assert(constants_kept(
                        pre.contexts@[r.1].chunk.constants@,
                        self.contexts@[r.1].chunk.constants@,
                    ));
                }
            }
        }
    }

    /// Unless an error was found, every object that compiling made, but the
    /// one at `x`, is named by a constant, as its keeper records.
    spec fn kept_except(&self, x: int) -> bool {
        self.had_error || forall|i: int|
            self.base@ <= i < self.heap.objects@.len() && i != x ==> #[trigger] self.kept(i)
    }

    /// Object `i` has a keeper, and its keeper names it.
    spec fn kept(&self, i: int) -> bool {
        self.keepers@.contains_key(i) && self.keeps(i, self.keepers@[i])
    }

    /// Every constant of a function under compilation names an object of
    /// the heap.
    spec fn constants_ok(&self) -> bool {
        forall|i: int, k: int|
            0 <= i < self.contexts@.len() && 0 <= k < self.contexts@[i].chunk.constants@.len()
                ==> names_before(
                #[trigger] self.contexts@[i].chunk.constants@[k],
                self.heap.objects@.len() as int,
            )
    }

    /// Every function recorded for disassembly is a function object of the
    /// heap.
    spec fn finished_ok(&self) -> bool {
        forall|i: int|
            0 <= i < self.finished@.len() ==> #[trigger] self.finished@[i]
                < self.heap.objects@.len() && self.heap.objects@[self.finished@[i] as int] is Function
    }

    /// A fresh compiler: the top-level script, nameless and without
    /// parameters, code, constants or upvalues, is the only function under
    /// compilation, no error has been found and no function has been
    /// recorded for disassembly.
    pub closed spec fn ready(&self) -> bool {
        &&& self.inv()
        &&& self.contexts@.len() == 1
        &&& self.top().function_kind == FunctionKind::Script
        &&& self.top().arity == 0
        &&& self.top().name@ == Seq::<char>::empty()
        &&& self.errors@.len() == 0
        &&& !self.panic_mode
        &&& self.base@ == self.heap.objects@.len()
        &&& self.finished@.len() == 0
        &&& self.top().chunk.codes@.len() == 0
        &&& self.top().chunk.constants@.len() == 0
        &&& self.top().upvalue_count == 0
        &&& self.top().scope_depth == 0
        &&& self.top().locals@.len() == 1
    }

    /// Whether compiling has reported an error; once reported, an error
    /// stays reported.
    pub closed spec fn error_reported(&self) -> bool {
        self.had_error
    }

    /// The source text that the compiler reads.
    pub closed spec fn source(&self) -> Seq<u8> {
        self.lexer.source_bytes()
    }

    /// How far the scanner has read into the source.
    pub closed spec fn scan_pos(&self) -> int {
        self.lexer.pos()
    }

    /// Whether finished functions are recorded for disassembly.
    pub closed spec fn records_finished(&self) -> bool {
        self.debug_print
    }

    /// The handles of the functions recorded for disassembly, in the order
    /// in which they were finished.
    pub closed spec fn finished_view(&self) -> Seq<u64> {
        self.finished@
    }

    /// What parsing an expression keeps beyond a step: the locals of the
    /// function under compilation.
    spec fn expr_step(&self, pre: &Self) -> bool {
        &&& self.step(pre)
        &&& self.top().locals@.len() == pre.top().locals@.len()
    }

    /// The heap that compiling has filled so far.
    pub closed spec fn heap_view(&self) -> &Heap {
        &self.heap
    }



    /// What every step of the parser keeps: the invariant, the source, the
    /// function under compilation and its scope depth; code only grows and
    /// nothing left to scan comes back.
    spec fn step(&self, pre: &Self) -> bool {
        &&& self.progress(pre)
        &&& self.top().arity == pre.top().arity
    }

    /// A step that may count parameters of the function under compilation.
    spec fn progress(&self, pre: &Self) -> bool {
        &&& self.progress_core(pre)
        &&& self.code_kept(pre)
    }

    /// The code of the function under compilation starts with the code it
    /// had in `pre`: code is only ever appended.
    spec fn code_kept(&self, pre: &Self) -> bool {
        &&& pre.code_len() <= self.code_len()
        &&& forall|i: int|
            0 <= i < pre.code_len() ==> #[trigger] self.top().chunk.codes@[i]
                == pre.top().chunk.codes@[i]
    }

    /// A step that may also rewrite code that is already there, as patching
    /// a jump does.
    spec fn patched(&self, pre: &Self) -> bool {
        &&& self.progress_core(pre)
        &&& self.top().arity == pre.top().arity
        &&& self.top().locals@.len() == pre.top().locals@.len()
    }

    /// What every step keeps but for appending code.
    spec fn progress_core(&self, pre: &Self) -> bool {
        &&& self.inv()
        &&& self.classes@ == pre.classes@
        &&& self.base == pre.base
        &&& self.debug_print == pre.debug_print
        &&& !self.debug_print ==> self.finished == pre.finished
        &&& pre.had_error ==> self.had_error
        &&& self.lexer.source_bytes() == pre.lexer.source_bytes()
        &&& self.contexts@.len() == pre.contexts@.len()
        &&& self.code_len() >= pre.code_len()
        &&& self.measure() <= pre.measure()
        &&& self.top().scope_depth == pre.top().scope_depth
        &&& self.top().function_kind == pre.top().function_kind
        &&& self.top().name == pre.top().name
        &&& self.heap.extends(&pre.heap)
        &&& self.outer_frame(pre)
    }

    /// The enclosing functions keep their code, scopes, number of locals,
    /// kind, arity and name.
    spec fn outer_frame(&self, pre: &Self) -> bool {
        forall|i: int|
            #![trigger pre.contexts@[i]]
            0 <= i < pre.contexts@.len() - 1 ==> ctx_frame(self.contexts@[i], pre.contexts@[i])
    }

    /// Untouched enclosing functions keep their frames.
    proof fn lemma_outer_frame(&self, pre: &Self)
        requires
            self.contexts@.len() == pre.contexts@.len(),
            self.contexts@.drop_last() == pre.contexts@.drop_last(),
        ensures
            self.outer_frame(pre),
    {
        assert forall|i: int| 0 <= i < pre.contexts@.len() - 1 implies ctx_frame(
            self.contexts@[i],
            #[trigger] pre.contexts@[i],
        ) by {
            assert(self.contexts@.drop_last()[i] == self.contexts@[i]);
            assert(pre.contexts@.drop_last()[i] == pre.contexts@[i]);
        }
    }
}

/// Two states of one function agree on its code, scope depth, number of
/// locals, kind, arity and name.
spec fn ctx_frame(a: CompilerContext, b: CompilerContext) -> bool {
    &&& a.chunk == b.chunk
    &&& a.scope_depth == b.scope_depth
    &&& a.locals@.len() == b.locals@.len()
    &&& a.function_kind == b.function_kind
    &&& a.arity == b.arity
    &&& a.name == b.name
}


impl<'a> Compiler<'a> {
    /// Only the code of the function under compilation changed.
    spec fn same_but_code(&self, pre: &Self) -> bool {
        &&& self.keepers == pre.keepers
        &&& self.closed_upvalues == pre.closed_upvalues
        &&& self.finished == pre.finished
        &&& self.debug_print == pre.debug_print
        &&& self.top().name == pre.top().name
        &&& self.top().upvalue_count == pre.top().upvalue_count
        &&& self.top().upvalues == pre.top().upvalues
        &&& self.top().locals == pre.top().locals
        &&& self.top().chunk.constants@ == pre.top().chunk.constants@
    }

    proof fn lemma_measure_bounds(&self)
        requires
            self.lexer.wf(),
        ensures
            0 <= self.measure() <= self.len() + 1,
            self.len() < usize::MAX,
    {
        self.lexer.lemma_wf_bounds();
    }

    /// Turns on the disassembly of every function that compiles cleanly.
    pub fn with_debug(self) -> (c: Self)
        ensures
            c.ready() == self.ready(),
            c.records_finished(),
            c.heap_view() == self.heap_view(),
            c.finished_view() == self.finished_view(),
            c.source() == self.source(),
            c.scan_pos() == self.scan_pos(),
    {
        let mut c = self;
        c.debug_print = true;
        proof {
            assert(c.same_constants(&self));
            assert(self.same_constants(&c));
            if self.inv() {
                c.lemma_kept_frame(&self, -1);
            }
            if c.inv() {
                self.lemma_kept_frame(&c, -1);
            }
            if self.finished@.len() == 0 && self.base@ == self.heap.objects@.len() {
                assert(self.finished@ =~= function_handles(
                    self.heap.objects@,
                    self.base@,
                    self.heap.objects@.len() as int,
                ));
            }
        }
        c
    }

    /// A compiler that reads tokens from `lexer` and allocates into `heap`,
    /// with the top-level script as the function under compilation.
    pub fn new(lexer: Lexer<'a>, heap: Heap) -> (c: Self)
        requires
            lexer.wf(),
            heap.inv(),
        ensures
            c.ready(),
            !c.records_finished(),
            c.heap_view() == heap,
            c.finished_view().len() == 0,
            c.source() == lexer.source_bytes(),
            c.scan_pos() == lexer.pos(),
    {
        let mut c = Compiler {
            lexer,
            current: Token { kind: TokenKind::Nil, lexeme: String::new(), line: 0 },
            previous: Token { kind: TokenKind::Nil, lexeme: String::new(), line: 0 },
            contexts: Vec::new(),
            classes: Vec::new(),
            heap,
            errors: Vec::new(),
            finished: Vec::new(),
            base: Ghost(heap_len_of(&heap)),
            keepers: Ghost(Map::empty()),
            closed_upvalues: Ghost(Seq::empty()),
            had_error: false,
            panic_mode: false,
            debug_print: false,
        };
        proof {
            c.lemma_measure_bounds();
        }
        c.push_context(FunctionKind::Script);
        c
    }

    /// Starts compiling a new function of `kind`: it gets a fresh chunk and
    /// a locals stack whose slot 0 is reserved (the VM keeps the function
    /// object there), so declared locals start at slot 1. A function is
    /// named after the previous token; the script has an empty name.
    #[verifier::spinoff_prover]
    fn push_context(&mut self, kind: FunctionKind)
        requires
            old(self).lexer.wf(),
            old(self).current.kind == TokenKind::Eof ==> old(self).lexer.pos() == old(self).len(),
            forall|i: int|
                0 <= i < old(self).contexts@.len() ==> (#[trigger] old(self).contexts@[i]).ok(
                    old(self).len() + 1 - old(self).measure(),
                ),
            old(self).heap.inv(),
            old(self).had_error == (old(self).errors@.len() > 0),
            old(self).finished_ok(),
            old(self).constants_ok(),
            old(self).panic_mode ==> old(self).had_error,
            0 <= old(self).base@ <= old(self).heap.objects@.len(),
            old(self).kept_except(-1),
            old(self).records_all_finished(),
            old(self).contexts@.len() > 0 ==> old(self).contexts@[0].upvalues@.len() == 0,
        ensures
            final(self).inv(),
            final(self).keepers == old(self).keepers,
            kind == FunctionKind::Script ==> final(self).top().name@ == Seq::<char>::empty(),
            kind != FunctionKind::Script ==> final(self).top().name@ == old(self).previous.lexeme@,
            final(self).top().locals@.len() == 1,
            final(self).top().locals@[0].depth == Some(0usize),
            !final(self).top().locals@[0].is_captured,
            kind == FunctionKind::Function || kind == FunctionKind::Script ==> final(
                self).top().locals@[0].name.lexeme@ == Seq::<char>::empty(),
            kind == FunctionKind::Method || kind == FunctionKind::Initializer ==> final(
                self).top().locals@[0].name.lexeme@ == "this"@,
            final(self).top().upvalues@.len() == 0,
            final(self).top().upvalue_count == 0,
            final(self).top().chunk.constants@.len() == 0,
            final(self).contexts@.len() == old(self).contexts@.len() + 1,
            final(self).contexts@.drop_last() == old(self).contexts@,
            final(self).top().function_kind == kind,
            final(self).top().scope_depth == 0,
            final(self).top().arity == 0,
            final(self).code_len() == 0,
            final(self).lexer == old(self).lexer,
            final(self).current == old(self).current,
            final(self).previous == old(self).previous,
            final(self).heap == old(self).heap,
            final(self).classes@ == old(self).classes@,
            final(self).base == old(self).base,
            final(self).debug_print == old(self).debug_print,
            !old(self).debug_print ==> final(self).finished == old(self).finished,
            old(self).had_error ==> final(self).had_error,
            final(self).errors == old(self).errors,
            final(self).had_error == old(self).had_error,
            final(self).panic_mode == old(self).panic_mode,
            final(self).debug_print == old(self).debug_print,
            final(self).finished == old(self).finished,
    {
        proof {
            self.lemma_measure_bounds();
        }
        let name = match kind {
            FunctionKind::Script => String::new(),
            _ => self.previous.lexeme.clone(),
        };
        // In methods and initializers slot 0 holds the receiver, `this`.
        let slot_zero = match kind {
            FunctionKind::Method | FunctionKind::Initializer => "this".to_owned(),
            _ => String::new(),
        };
        let dummy = Local {
            name: Token { kind: TokenKind::Nil, lexeme: slot_zero, line: 0 },
            depth: Some(0),
            is_captured: false,
        };
        let mut locals = Vec::new();
        locals.push(dummy);
        self.contexts.push(
            CompilerContext {
                name,
                arity: 0,
                chunk: Chunk::default(),
                upvalue_count: 0,
                function_kind: kind,
                locals,
                scope_depth: 0,
                upvalues: Vec::new(),
            },
        );
        proof {
            assert(self.contexts@.drop_last() =~= old(self).contexts@);
            if old(self).contexts@.len() > 0 {
                assert(self.contexts@[0] == old(self).contexts@[0]);
            }
            if !self.had_error {
                assert forall|i: int|
                    self.base@ <= i < self.heap.objects@.len() && i != -1 implies #[trigger] self.kept(i) by {
                    assert(old(self).kept(i));
                    let r = self.keepers@[i];
                    if !r.0 {
                        assert(self.contexts@[r.1] == old(self).contexts@[r.1]);
                    }
                }
            }
        }
    }

    /// Appends `byte` to the chunk under compilation, on the line of the
    /// previous token.
    fn emit_byte(&mut self, byte: u8)
        requires
            old(self).inv(),
        ensures
            final(self).same_but_code(&*old(self)),
            final(self).step(&*old(self)),
            final(self).measure() == old(self).measure(),
            final(self).top().chunk.codes@ == old(self).top().chunk.codes@.push(byte),
            final(self).lexer == old(self).lexer,
            final(self).current == old(self).current,
            final(self).previous == old(self).previous,
            final(self).heap == old(self).heap,
            final(self).classes@ == old(self).classes@,
            final(self).base == old(self).base,
            final(self).debug_print == old(self).debug_print,
            !old(self).debug_print ==> final(self).finished == old(self).finished,
            old(self).had_error ==> final(self).had_error,
            final(self).errors == old(self).errors,
            final(self).had_error == old(self).had_error,
            final(self).panic_mode == old(self).panic_mode,
            final(self).contexts@.drop_last() == old(self).contexts@.drop_last(),
            final(self).top().arity == old(self).top().arity,
            final(self).top().locals@.len() == old(self).top().locals@.len(),
    {
        let prev_line = self.previous.line;
        let last = self.contexts.len() - 1;
        self.contexts[last].chunk.write_chunk(byte, prev_line);
        proof {
            assert(self.contexts@.drop_last() =~= old(self).contexts@.drop_last());
            self.lemma_same_constants(&*old(self));
            self.lemma_kept_frame(&*old(self), -1);
        }
    }

    fn emit_bytes(&mut self, byte1: u8, byte2: u8)
        requires
            old(self).inv(),
        ensures
            final(self).top().chunk.codes@ == old(self).top().chunk.codes@.push(byte1).push(byte2),
            final(self).same_but_code(&*old(self)),
            final(self).step(&*old(self)),
            final(self).measure() == old(self).measure(),
            final(self).code_len() == old(self).code_len() + 2,
            final(self).lexer == old(self).lexer,
            final(self).current == old(self).current,
            final(self).previous == old(self).previous,
            final(self).heap == old(self).heap,
            final(self).classes@ == old(self).classes@,
            final(self).base == old(self).base,
            final(self).debug_print == old(self).debug_print,
            !old(self).debug_print ==> final(self).finished == old(self).finished,
            old(self).had_error ==> final(self).had_error,
            final(self).errors == old(self).errors,
            final(self).had_error == old(self).had_error,
            final(self).panic_mode == old(self).panic_mode,
            final(self).contexts@.drop_last() == old(self).contexts@.drop_last(),
            final(self).top().arity == old(self).top().arity,
            final(self).top().locals@.len() == old(self).top().locals@.len(),
    {
        self.emit_byte(byte1);
        self.emit_byte(byte2);
    }

    fn emit_return(&mut self)
        requires
            old(self).inv(),
        ensures
            final(self).same_but_code(&*old(self)),
            final(self).step(&*old(self)),
            final(self).measure() == old(self).measure(),
            final(self).top().chunk.codes@ == old(self).top().chunk.codes@ + implicit_return(
                old(self).top().function_kind,
            ),
            final(self).lexer == old(self).lexer,
            final(self).current == old(self).current,
            final(self).previous == old(self).previous,
            final(self).heap == old(self).heap,
            final(self).classes@ == old(self).classes@,
            final(self).base == old(self).base,
            final(self).debug_print == old(self).debug_print,
            !old(self).debug_print ==> final(self).finished == old(self).finished,
            old(self).had_error ==> final(self).had_error,
            final(self).errors == old(self).errors,
            final(self).had_error == old(self).had_error,
            final(self).panic_mode == old(self).panic_mode,
            final(self).contexts@.drop_last() == old(self).contexts@.drop_last(),
            final(self).top().arity == old(self).top().arity,
            final(self).top().locals@.len() == old(self).top().locals@.len(),
    {
        let last = self.contexts.len() - 1;
        if self.contexts[last].function_kind == FunctionKind::Initializer {
            self.emit_bytes(u8::from(OpCode::GetLocal), 0);
        } else {
            self.emit_byte(u8::from(OpCode::Nil));
        }
        self.emit_byte(u8::from(OpCode::Return));
        proof {
            assert(self.top().chunk.codes@ =~= old(self).top().chunk.codes@ + implicit_return(
                old(self).top().function_kind,
            ));
        }
    }
}

/// The code that ends every function: an initializer returns its receiver,
/// any other function `nil`.
spec fn implicit_return(kind: FunctionKind) -> Seq<u8> {
    if kind == FunctionKind::Initializer {
        seq![opcode_byte(OpCode::GetLocal), 0u8, opcode_byte(OpCode::Return)]
    } else {
        seq![opcode_byte(OpCode::Nil), opcode_byte(OpCode::Return)]
    }
}


// ---------------------------------------------------------------------------
// Errors and tokens
// ---------------------------------------------------------------------------

impl<'a> Compiler<'a> {
    /// Everything but the error state is as in `pre`.
    spec fn only_errors_changed(&self, pre: &Self) -> bool {
        &&& self.closed_upvalues == pre.closed_upvalues
        &&& self.lexer == pre.lexer
        &&& self.current == pre.current
        &&& self.previous == pre.previous
        &&& self.contexts == pre.contexts
        &&& self.heap == pre.heap
        &&& self.keepers == pre.keepers
        &&& self.classes@ == pre.classes@
        &&& self.base == pre.base
        &&& self.debug_print == pre.debug_print
        &&& !self.debug_print ==> self.finished == pre.finished
        &&& pre.had_error ==> self.had_error
        &&& self.finished == pre.finished
        &&& self.debug_print == pre.debug_print
    }

    /// Moving on from `pre` to the next token met no scanner error: the
    /// token that the scanner finds at its position in `pre` is current, the
    /// scanner stands after it, and the error state is as in `pre`. Said only
    /// of a next token that is not an error token.
    spec fn clean_advance(&self, pre: &Self) -> bool {
        let s = pre.lexer.source_bytes();
        let st = skip_trivia(s, pre.lexer.pos());
        scan_kind(s, st) != TokenKind::Error ==> {
            &&& self.current.kind == scan_kind(s, st)
            &&& self.current.lexeme@ == scan_text(s, st)
            &&& self.lexer.pos() == scan_end(s, st)
            &&& self.had_error == pre.had_error
            &&& self.panic_mode == pre.panic_mode
        }
    }

    /// Records an error at `token`, unless an error is already being
    /// reported (panic mode), in which case it is suppressed.
    fn error_at(&mut self, token: &Token, msg: &str)
        requires
            old(self).had_error == (old(self).errors@.len() > 0),
        ensures
            final(self).had_error == (final(self).errors@.len() > 0),
            old(self).inv() ==> final(self).inv(),
            final(self).only_errors_changed(&*old(self)),
            final(self).panic_mode,
            final(self).had_error == (old(self).had_error || !old(self).panic_mode),
            final(self).errors@.len() == old(self).errors@.len() + if old(self).panic_mode {
                0int
            } else {
                1int
            },
    {
        if self.panic_mode {
            return;
        }
        self.panic_mode = true;
        let site = if token.kind == TokenKind::Eof {
            ErrorSite::End
        } else if token.kind != TokenKind::Error {
            ErrorSite::Lexeme(token.lexeme.clone())
        } else {
            ErrorSite::Scanner
        };
        self.errors.push(CompileError { line: token.line, site, message: msg.to_owned() });
        self.had_error = true;
    }

    fn error_at_current(&mut self, msg: &str)
        requires
            old(self).had_error == (old(self).errors@.len() > 0),
        ensures
            final(self).had_error == (old(self).had_error || !old(self).panic_mode),
            final(self).had_error == (final(self).errors@.len() > 0),
            old(self).inv() ==> final(self).inv(),
            final(self).only_errors_changed(&*old(self)),
            final(self).panic_mode,
    {
        let token = self.current.clone();
        self.error_at(&token, msg)
    }

    fn error(&mut self, msg: &str)
        requires
            old(self).had_error == (old(self).errors@.len() > 0),
        ensures
            final(self).had_error == (old(self).had_error || !old(self).panic_mode),
            final(self).had_error == (final(self).errors@.len() > 0),
            old(self).inv() ==> final(self).inv(),
            final(self).only_errors_changed(&*old(self)),
            final(self).panic_mode,
    {
        let token = self.previous.clone();
        self.error_at(&token, msg)
    }

    /// Moves to the next token: the current token becomes the previous one
    /// and the scanner supplies the next one, reporting and skipping error
    /// tokens.
    fn advance(&mut self)
        requires
            old(self).inv(),
        ensures
            final(self).inv(),
            final(self).lexer.source_bytes() == old(self).lexer.source_bytes(),
            final(self).contexts == old(self).contexts,
            final(self).heap == old(self).heap,
            final(self).classes@ == old(self).classes@,
            final(self).base == old(self).base,
            final(self).keepers == old(self).keepers,
            final(self).debug_print == old(self).debug_print,
            !old(self).debug_print ==> final(self).finished == old(self).finished,
            old(self).had_error ==> final(self).had_error,
            final(self).previous == old(self).current,
            final(self).current.kind != TokenKind::Error,
            final(self).measure() <= old(self).measure(),
            old(self).current.kind != TokenKind::Eof ==> final(self).measure() < old(self).measure(),
            old(self).had_error ==> final(self).had_error,
            ({
                let s = old(self).lexer.source_bytes();
                let k = scan_kind(s, skip_trivia(s, old(self).lexer.pos()));
                &&& k != TokenKind::Error ==> final(self).current.kind == k && final(self).errors
                    == old(self).errors && final(self).had_error == old(self).had_error
                &&& k == TokenKind::Error && !old(self).panic_mode ==> final(self).had_error
            }),
            final(self).clean_advance(&*old(self)),
    {
        let ghost s = self.lexer.source_bytes();
        let ghost p0 = self.lexer.pos();
        proof {
            self.lexer.lemma_wf_bounds();
            lemma_scan_progress(s, p0);
        }
        std::mem::swap(&mut self.previous, &mut self.current);
        self.current = self.lexer.scan_token();
        proof {
            self.lemma_kept_frame(&*old(self), -1);
        }
        let ghost first = self.current.kind;
        let ghost first_error = first == TokenKind::Error && !old(self).panic_mode;
        while self.current.kind == TokenKind::Error
            invariant
                self.lexer.wf(),
                self.lexer.source_bytes() == s,
                s == old(self).lexer.source_bytes(),
                p0 == old(self).lexer.pos(),
                first == scan_kind(s, skip_trivia(s, p0)),
                first_error == (first == TokenKind::Error && !old(self).panic_mode),
                p0 <= self.lexer.pos(),
                self.current.kind == TokenKind::Eof ==> self.lexer.pos() == s.len(),
                self.current.kind != TokenKind::Eof ==> p0 < self.lexer.pos(),
                old(self).current.kind == TokenKind::Eof ==> self.lexer.pos() == s.len(),
                self.previous == old(self).current,
                self.contexts == old(self).contexts,
                self.heap == old(self).heap,
                self.classes@ == old(self).classes@,
                self.base == old(self).base,
                self.keepers == old(self).keepers,
                self.panic_mode ==> self.had_error,
                0 <= self.base@,
                self.kept_except(-1),
                self.debug_print == old(self).debug_print,
                !old(self).debug_print ==> self.finished == old(self).finished,
                old(self).had_error ==> self.had_error,
                self.finished == old(self).finished,
                self.had_error == (self.errors@.len() > 0),
                old(self).had_error ==> self.had_error,
                first != TokenKind::Error ==> self.errors == old(self).errors && self.had_error
                    == old(self).had_error && self.current.kind == first,
                first_error ==> self.had_error || (!self.panic_mode && self.current.kind
                    == TokenKind::Error),
                first != TokenKind::Error ==> self.lexer.pos() == scan_end(s, skip_trivia(s, p0))
                    && self.panic_mode == old(self).panic_mode && self.current.lexeme@ == scan_text(
                    s,
                    skip_trivia(s, p0),
                ),
            decreases s.len() - self.lexer.pos() + if self.current.kind == TokenKind::Error {
                1int
            } else {
                0int
            },
        {
            let ghost iter_start = *self;
            let msg = self.current.lexeme.clone();
            self.error_at_current(msg.as_str());
            let ghost before = self.lexer.pos();
            proof {
                self.lexer.lemma_wf_bounds();
                lemma_scan_progress(s, before);
            }
            self.current = self.lexer.scan_token();
            proof {
                self.lemma_kept_frame(&iter_start, -1);
            }
        }
    }
}


impl<'a> Compiler<'a> {
    /// Consumes the current token when it is of `kind`; reports `msg`
    /// otherwise.
    fn consume(&mut self, kind: TokenKind, msg: &str)
        requires
            old(self).inv(),
        ensures
            final(self).inv(),
            final(self).lexer.source_bytes() == old(self).lexer.source_bytes(),
            final(self).contexts == old(self).contexts,
            final(self).heap == old(self).heap,
            final(self).classes@ == old(self).classes@,
            final(self).base == old(self).base,
            final(self).debug_print == old(self).debug_print,
            !old(self).debug_print ==> final(self).finished == old(self).finished,
            old(self).had_error ==> final(self).had_error,
            final(self).measure() <= old(self).measure(),
            old(self).current.kind == kind && kind != TokenKind::Eof ==> final(self).measure()
                < old(self).measure(),
            old(self).current.kind != kind ==> final(self).current == old(self).current,
            old(self).current.kind == kind && kind == TokenKind::Eof ==> final(self).had_error
                == old(self).had_error,
            old(self).current.kind == kind ==> final(self).previous == old(self).current,
            old(self).current.kind != kind ==> final(self).had_error,
            old(self).current.kind == kind ==> final(self).clean_advance(&*old(self)),
    {
        if self.current.kind == kind {
            proof {
                self.lexer.lemma_wf_bounds();
                lemma_scan_progress(self.lexer.source_bytes(), self.lexer.pos());
            }
            self.advance();
            return;
        }
        self.error_at_current(msg);
    }

    /// Consumes the current token when it is of `kind`, and says whether it
    /// did.
    fn peek_match(&mut self, kind: TokenKind) -> (r: bool)
        requires
            old(self).inv(),
        ensures
            final(self).inv(),
            r == (old(self).current.kind == kind),
            !r ==> *final(self) == *old(self),
            final(self).lexer.source_bytes() == old(self).lexer.source_bytes(),
            final(self).contexts == old(self).contexts,
            final(self).heap == old(self).heap,
            final(self).classes@ == old(self).classes@,
            final(self).base == old(self).base,
            final(self).debug_print == old(self).debug_print,
            !old(self).debug_print ==> final(self).finished == old(self).finished,
            old(self).had_error ==> final(self).had_error,
            final(self).measure() <= old(self).measure(),
            r && kind != TokenKind::Eof ==> final(self).measure() < old(self).measure(),
            r && kind == TokenKind::Eof ==> final(self).current.kind == TokenKind::Eof
                && final(self).had_error == old(self).had_error,
            r ==> final(self).clean_advance(&*old(self)),
    {
        if self.current.kind == kind {
            proof {
                self.lexer.lemma_wf_bounds();
                lemma_scan_progress(self.lexer.source_bytes(), self.lexer.pos());
            }
            self.advance();
            return true;
        }
        false
    }

    /// Leaves panic mode and skips tokens up to a likely statement boundary:
    /// after a `;` or before a keyword that starts a declaration or statement.
    fn synchronize(&mut self)
        requires
            old(self).inv(),
        ensures
            final(self).inv(),
            final(self).lexer.source_bytes() == old(self).lexer.source_bytes(),
            final(self).contexts == old(self).contexts,
            final(self).heap == old(self).heap,
            final(self).classes@ == old(self).classes@,
            final(self).base == old(self).base,
            final(self).debug_print == old(self).debug_print,
            !old(self).debug_print ==> final(self).finished == old(self).finished,
            old(self).had_error ==> final(self).had_error,
            final(self).measure() <= old(self).measure(),
            final(self).current.kind == TokenKind::Eof || final(self).previous.kind
                == TokenKind::Semicolon || starts_statement(final(self).current.kind),
    {
        self.panic_mode = false;
        while self.current.kind != TokenKind::Eof
            invariant
                self.inv(),
                self.lexer.source_bytes() == old(self).lexer.source_bytes(),
                self.contexts == old(self).contexts,
                self.heap == old(self).heap,
                self.classes@ == old(self).classes@,
                self.base == old(self).base,
                self.debug_print == old(self).debug_print,
                !old(self).debug_print ==> self.finished == old(self).finished,
                old(self).had_error ==> self.had_error,
                self.measure() <= old(self).measure(),
            decreases self.measure(),
        {
            proof {
                self.lemma_measure_bounds();
            }
            if self.previous.kind == TokenKind::Semicolon {
                return;
            }
            match self.current.kind {
                TokenKind::Class | TokenKind::Fun | TokenKind::Var | TokenKind::For
                | TokenKind::If | TokenKind::While | TokenKind::Print | TokenKind::Return => return,
                _ => {},
            }
            self.advance();
            proof {
                self.lemma_measure_bounds();
            }
        }
    }

    /// Adds `value`, the object value of handle `x`, to the constant table
    /// of the chunk under compilation and returns its index. A chunk holds
    /// at most 256 constants; past that an error is reported and 0 is
    /// returned. The new constant becomes what keeps object `x`.
    fn make_constant(&mut self, value: Value, Ghost(x): Ghost<int>) -> (i: u8)
        requires
            old(self).inv_except(x),
            0 <= x < old(self).heap.objects@.len(),
            value.0 == (SIGN_BIT | QNAN | (x as u64)),
        ensures
            final(self).expr_step(&*old(self)),
            final(self).measure() == old(self).measure(),
            final(self).code_len() == old(self).code_len(),
            final(self).lexer == old(self).lexer,
            final(self).current == old(self).current,
            final(self).previous == old(self).previous,
            final(self).heap == old(self).heap,
            final(self).classes@ == old(self).classes@,
            final(self).base == old(self).base,
            final(self).debug_print == old(self).debug_print,
            !old(self).debug_print ==> final(self).finished == old(self).finished,
            old(self).had_error ==> final(self).had_error,
            final(self).top().arity == old(self).top().arity,
            final(self).contexts@.drop_last() == old(self).contexts@.drop_last(),
            final(self).top().chunk.codes@ == old(self).top().chunk.codes@,
            !final(self).had_error ==> final(self).top().chunk.constants@ == old(self).top().chunk.constants@.push(value) && i == old(self).top().chunk.constants@.len(),
            old(self).top().chunk.constants@.len() >= 255 ==> i == 0 && final(self).had_error,
            final(self).closed_upvalues == old(self).closed_upvalues,
            old(self).top().chunk.constants@.len() < 255 ==> final(self).panic_mode == old(self).panic_mode,
            old(self).top().chunk.constants@.len() < 255 ==> final(self).had_error == old(self).had_error && final(self).top().chunk.constants@ == old(self).top().chunk.constants@.push(value) && i == old(self).top().chunk.constants@.len(),
    {
        proof {
            assert(names_before(value, self.heap.objects@.len() as int)) by {
                assert(value.0 == (SIGN_BIT | QNAN | (x as u64)));
            }
        }
        let last = self.contexts.len() - 1;
        if self.contexts[last].chunk.constants.len() <= u8::MAX as usize {
            let const_i = self.contexts[last].chunk.add_constant(value);
            proof {
                assert(self.contexts@.drop_last() =~= old(self).contexts@.drop_last());
                self.lemma_same_constants(&*old(self));
                self.lemma_kept_frame(&*old(self), x);
            }
            if self.contexts[last].chunk.constants.len() > u8::MAX as usize {
                self.error("too many constants for one chunk");
                return 0;
            }
            let ghost pre = *self;
            proof {
                self.keepers@ = self.keepers@.insert(x, (false, last as int, const_i as int));
                assert(self.kept(x));
                if !self.had_error {
                    assert forall|i: int|
                        self.base@ <= i < self.heap.objects@.len() && i != -1 implies #[trigger] self.kept(i) by {
                        if i != x {
                            assert(pre.kept(i));
                        }
                    }
                }
            }
            const_i
        } else {
            self.error("too many constants for one chunk");
            0
        }
    }

    /// Emits a `Constant` instruction that loads `value`, the object value
    /// of handle `x`.
    fn emit_constant(&mut self, value: Value, Ghost(x): Ghost<int>)
        requires
            old(self).inv_except(x),
            0 <= x < old(self).heap.objects@.len(),
            value.0 == (SIGN_BIT | QNAN | (x as u64)),
        ensures
            final(self).expr_step(&*old(self)),
            final(self).measure() == old(self).measure(),
            final(self).lexer == old(self).lexer,
            final(self).current == old(self).current,
            final(self).previous == old(self).previous,
            final(self).heap == old(self).heap,
            final(self).classes@ == old(self).classes@,
            final(self).base == old(self).base,
            final(self).debug_print == old(self).debug_print,
            !old(self).debug_print ==> final(self).finished == old(self).finished,
            old(self).had_error ==> final(self).had_error,
            final(self).code_len() == old(self).code_len() + 2,
            final(self).code_at(2) == opcode_byte(OpCode::Constant),
            !final(self).had_error ==> final(self).code_at(1) + 1
                == final(self).top().chunk.constants@.len() && final(self).top().chunk.constants@.last()
                == value,
    {
        let const_i = self.make_constant(value, Ghost(x));
        self.emit_bytes(u8::from(OpCode::Constant), const_i);
    }

    /// Emits `op` with a two-byte placeholder operand and returns the
    /// position of the operand, for [`Self::patch_jump`].
    fn emit_jump(&mut self, op: OpCode) -> (offset: usize)
        requires
            old(self).inv(),
        ensures
            final(self).expr_step(&*old(self)),
            final(self).measure() == old(self).measure(),
            final(self).code_len() == old(self).code_len() + 3,
            offset + 2 == final(self).code_len(),
            final(self).top().chunk.codes@ == old(self).top().chunk.codes@.push(opcode_byte(op)).push(
                0xffu8,
            ).push(0xffu8),
            final(self).lexer == old(self).lexer,
            final(self).current == old(self).current,
            final(self).previous == old(self).previous,
            final(self).heap == old(self).heap,
            final(self).classes@ == old(self).classes@,
            final(self).base == old(self).base,
            final(self).debug_print == old(self).debug_print,
            !old(self).debug_print ==> final(self).finished == old(self).finished,
            old(self).had_error ==> final(self).had_error,
    {
        self.emit_byte(u8::from(op));
        self.emit_bytes(0xff, 0xff);
        let last = self.contexts.len() - 1;
        self.contexts[last].chunk.codes.len() - 2
    }

    /// Writes into the operand at `offset` the distance from just after it to
    /// the end of the code, big-endian; a distance past 65535 is an error.
    fn patch_jump(&mut self, offset: usize)
        requires
            old(self).inv(),
            offset + 2 <= old(self).code_len(),
        ensures
            ({
                let jump = (old(self).code_len() - offset - 2) as usize;
                final(self).top().chunk.codes@ == old(self).top().chunk.codes@.update(
                    offset as int,
                    (jump >> 8) as u8,
                ).update(offset + 1, jump as u8)
            }),
            final(self).patched(&*old(self)),
            final(self).measure() == old(self).measure(),
            final(self).code_len() == old(self).code_len(),
            final(self).lexer == old(self).lexer,
            final(self).current == old(self).current,
            final(self).previous == old(self).previous,
            final(self).heap == old(self).heap,
            final(self).classes@ == old(self).classes@,
            final(self).base == old(self).base,
            final(self).debug_print == old(self).debug_print,
            !old(self).debug_print ==> final(self).finished == old(self).finished,
            old(self).had_error ==> final(self).had_error,
            !final(self).had_error ==> short_at(final(self).top().chunk.codes@, offset as int)
                == old(self).code_len() - offset - 2,
    {
        // -2 to adjust for the bytecode for the jump offset itself
        let last = self.contexts.len() - 1;
        let jump = self.contexts[last].chunk.codes.len() - offset - 2;
        if jump > u16::MAX as usize {
            self.error("Too much code to jump over.");
        }
        self.contexts[last].chunk.codes.set(offset, (jump >> 8) as u8);
        self.contexts[last].chunk.codes.set(offset + 1, jump as u8);
        proof {
            assert(self.contexts@.drop_last() =~= old(self).contexts@.drop_last());
            assert(self.top().chunk.codes@ =~= old(self).top().chunk.codes@.update(
                offset as int,
                (jump >> 8) as u8,
            ).update(offset + 1, jump as u8));
            self.lemma_same_constants(&*old(self));
            self.lemma_kept_frame(&*old(self), -1);
            if jump <= 0xffff {
                lemma_short_roundtrip(jump);
                assert(short_at(self.top().chunk.codes@, offset as int) == short_at(
                    seq![(jump >> 8) as u8, jump as u8],
                    0,
                ));
            }
        }
    }

    /// Emits a backward jump to `loop_start`; a distance past 65535 is an
    /// error.
    fn emit_loop(&mut self, loop_start: usize)
        requires
            old(self).inv(),
            loop_start <= old(self).code_len(),
        ensures
            ({
                let back = if old(self).code_len() + 3 - loop_start <= usize::MAX {
                    (old(self).code_len() + 3 - loop_start) as usize
                } else {
                    usize::MAX
                };
                final(self).top().chunk.codes@ == old(self).top().chunk.codes@.push(
                    opcode_byte(OpCode::Loop),
                ).push((back >> 8) as u8).push(back as u8)
            }),
            final(self).expr_step(&*old(self)),
            final(self).measure() == old(self).measure(),
            final(self).lexer == old(self).lexer,
            final(self).current == old(self).current,
            final(self).previous == old(self).previous,
            final(self).heap == old(self).heap,
            final(self).classes@ == old(self).classes@,
            final(self).base == old(self).base,
            final(self).debug_print == old(self).debug_print,
            !old(self).debug_print ==> final(self).finished == old(self).finished,
            old(self).had_error ==> final(self).had_error,
            !final(self).had_error ==> short_at(final(self).top().chunk.codes@, old(self).code_len() + 1)
                == old(self).code_len() + 3 - loop_start,
    {
        self.emit_byte(u8::from(OpCode::Loop));
        let last = self.contexts.len() - 1;
        let offset = (self.contexts[last].chunk.codes.len() - loop_start).saturating_add(2);
        if offset > u16::MAX as usize {
            self.error("Loop body too large");
        }
        self.emit_bytes((offset >> 8) as u8, offset as u8);
        proof {
            if offset <= 0xffff {
                lemma_short_roundtrip(offset);
                assert(short_at(self.top().chunk.codes@, old(self).code_len() + 1) == short_at(
                    seq![(offset >> 8) as u8, offset as u8],
                    0,
                ));
            }
        }
    }
}

// ---------------------------------------------------------------------------
// Scopes and locals
// ---------------------------------------------------------------------------

impl<'a> Compiler<'a> {
    /// How far scopes may nest and parameters may count at this point: one
    /// more than the bytes consumed so far.
    spec fn room(&self) -> int {
        self.len() + 1 - self.measure()
    }

    /// Only the function under compilation changed, and neither the tokens
    /// nor the heap nor the error state did.
    spec fn top_step(&self, pre: &Self) -> bool {
        &&& self.inv()
        &&& self.lexer == pre.lexer
        &&& self.current == pre.current
        &&& self.previous == pre.previous
        &&& self.heap == pre.heap
        &&& self.keepers == pre.keepers
        &&& self.classes@ == pre.classes@
        &&& self.base == pre.base
        &&& self.debug_print == pre.debug_print
        &&& !self.debug_print ==> self.finished == pre.finished
        &&& pre.had_error ==> self.had_error
        &&& self.errors == pre.errors
        &&& self.had_error == pre.had_error
        &&& self.panic_mode == pre.panic_mode
        &&& self.contexts@.len() == pre.contexts@.len()
        &&& self.code_len() >= pre.code_len()
        &&& self.code_kept(pre)
        &&& self.top().function_kind == pre.top().function_kind
        &&& self.top().arity == pre.top().arity
        &&& self.top().name == pre.top().name
        &&& self.contexts@.drop_last() == pre.contexts@.drop_last()
        &&& self.outer_frame(pre)
    }

    fn begin_scope(&mut self)
        requires
            old(self).inv(),
            old(self).top().scope_depth < old(self).room(),
        ensures
            final(self).top_step(&*old(self)),
            final(self).top().scope_depth == old(self).top().scope_depth + 1,
            final(self).top().locals@.len() == old(self).top().locals@.len(),
            final(self).top().locals@ == old(self).top().locals@,
            final(self).code_len() == old(self).code_len(),
    {
        proof {
            self.lemma_measure_bounds();
        }
        let last = self.contexts.len() - 1;
        self.contexts[last].scope_depth = self.contexts[last].scope_depth + 1;
        proof {
            assert(self.contexts@.drop_last() =~= old(self).contexts@.drop_last());
            self.lemma_outer_frame(&*old(self));
            self.lemma_same_constants(&*old(self));
            self.lemma_kept_frame(&*old(self), -1);
        }
    }

    /// Leaves a scope: the locals declared in it are popped, each with a
    /// `Pop`, or a `CloseUpvalue` where a closure captured it.
    fn end_scope(&mut self)
        requires
            old(self).inv(),
            old(self).top().scope_depth >= 1,
        ensures
            final(self).top_step(&*old(self)),
            final(self).top().scope_depth == old(self).top().scope_depth - 1,
            forall|i: int|
                0 <= i < old(self).code_len() ==> #[trigger] final(self).top().chunk.codes@[i]
                    == old(self).top().chunk.codes@[i],
            final(self).code_len() > old(self).code_len() ==> final(self).code_at(1) == opcode_byte(
                OpCode::Pop,
            ) || final(self).code_at(1) == opcode_byte(OpCode::CloseUpvalue),
            scope_exit(
                old(self).top().locals@,
                old(self).top().scope_depth - 1,
                final(self).top().locals@,
                old(self).top().chunk.codes@,
                final(self).top().chunk.codes@,
            ),
    {
        let last = self.contexts.len() - 1;
        self.contexts[last].scope_depth = self.contexts[last].scope_depth - 1;
        proof {
            assert(self.contexts@.drop_last() =~= old(self).contexts@.drop_last());
            self.lemma_same_constants(&*old(self));
            self.lemma_kept_frame(&*old(self), -1);
            assert(old(self).contexts@[last as int].ok(old(self).len() + 1 - old(self).measure()));
            assert(self.top().locals@ =~= old(self).top().locals@.take(
                self.top().locals@.len() as int,
            ));
        }
        loop
            invariant
                self.inv(),
                self.lexer == old(self).lexer,
                self.current == old(self).current,
                self.previous == old(self).previous,
                self.heap == old(self).heap,
                self.keepers == old(self).keepers,
                self.classes@ == old(self).classes@,
                self.base == old(self).base,
                self.debug_print == old(self).debug_print,
                !old(self).debug_print ==> self.finished == old(self).finished,
                old(self).had_error ==> self.had_error,
                self.errors == old(self).errors,
                self.had_error == old(self).had_error,
                self.panic_mode == old(self).panic_mode,
                self.contexts@.len() == old(self).contexts@.len(),
                last == self.contexts@.len() - 1,
                self.code_len() >= old(self).code_len(),
                self.top().function_kind == old(self).top().function_kind,
                self.top().scope_depth == old(self).top().scope_depth - 1,
                self.top().arity == old(self).top().arity,
                self.top().name == old(self).top().name,
                self.contexts@.drop_last() == old(self).contexts@.drop_last(),
                forall|i: int|
                    0 <= i < old(self).code_len() ==> #[trigger] self.top().chunk.codes@[i]
                        == old(self).top().chunk.codes@[i],
                self.code_len() > old(self).code_len() ==> self.code_at(1) == opcode_byte(
                    OpCode::Pop,
                ) || self.code_at(1) == opcode_byte(OpCode::CloseUpvalue),
                scope_exit_so_far(
                    old(self).top().locals@,
                    old(self).top().scope_depth - 1,
                    self.top().locals@,
                    old(self).top().chunk.codes@,
                    self.top().chunk.codes@,
                ),
            ensures
                scope_exit(
                    old(self).top().locals@,
                    old(self).top().scope_depth - 1,
                    self.top().locals@,
                    old(self).top().chunk.codes@,
                    self.top().chunk.codes@,
                ),
            decreases self.top().locals@.len(),
        {
            let n = self.contexts[last].locals.len();
            let should_pop = match self.contexts[last].locals[n - 1].depth {
                Some(d) => d > self.contexts[last].scope_depth,
                None => false,
            };
            if !should_pop {
                proof {
                    assert(self.top().locals@[n - 1] == self.top().locals@.last());
                }
                break;
            }
            let is_captured = self.contexts[last].locals[n - 1].is_captured;
            let ghost before = self.contexts@;
            let ghost prev = *self;
            self.contexts[last].locals.pop();
            proof {
                assert(self.contexts@[last as int].locals@.len() >= 1);
                assert(self.contexts@.drop_last() =~= before.drop_last());
                self.lemma_same_constants(&prev);
                self.lemma_kept_frame(&prev, -1);
            }
            if is_captured {
                self.emit_byte(u8::from(OpCode::CloseUpvalue));
            } else {
                self.emit_byte(u8::from(OpCode::Pop));
            }
            proof {
                let pre_locals = old(self).top().locals@;
                assert(prev.top().locals@[n - 1] == pre_locals[n - 1]);
                assert(self.top().locals@ =~= pre_locals.take(self.top().locals@.len() as int));
                let m = pre_locals.len() - self.top().locals@.len();
                assert(self.top().chunk.codes@[old(self).code_len() + m - 1] == exit_byte(
                    pre_locals[pre_locals.len() - 1 - (m - 1)],
                ));
            }
        }
        proof {
            self.lemma_outer_frame(&*old(self));
        }
    }
}

impl Heap {
    /// `self` holds every object and interned string of `pre`, unchanged and
    /// at the same index.
    pub open spec fn extends(&self, pre: &Heap) -> bool {
        &&& pre.objects@.len() <= self.objects@.len()
        &&& forall|i: int| 0 <= i < pre.objects@.len() ==> self.objects@[i] == pre.objects@[i]
        &&& pre.strings@.len() <= self.strings@.len()
        &&& forall|i: int| 0 <= i < pre.strings@.len() ==> self.strings@[i] == pre.strings@[i]
    }

    /// `v` is the object value of a string object of the heap whose text is
    /// `text`.
    pub open spec fn names_string(&self, v: Value, text: Seq<char>) -> bool {
        exists|h: u64|
            h < self.objects@.len() && v.0 == #[trigger] (SIGN_BIT | QNAN | h) && (
            self.objects@[h as int] matches Object::String(t) && t@ == text)
    }

    /// The function object at `f` has a constant that is the object value
    /// of handle `i`.
    pub open spec fn names_object(&self, f: int, i: int) -> bool {
        &&& 0 <= f < self.objects@.len()
        &&& self.objects@[f] matches Object::Function { chunk, .. } && exists|k: int|
            0 <= k < chunk.constants@.len() && #[trigger] chunk.constants@[k].0 == (SIGN_BIT | QNAN
                | (i as u64))
    }

    /// Some function object after `i`, and no later than `top`, has a
    /// constant that names object `i`.
    pub open spec fn named_by_later(&self, i: int, top: int) -> bool {
        exists|f: int| i < f <= top && #[trigger] self.names_object(f, i)
    }

    /// `path` leads from object to object, each a function with a constant
    /// that names the next.
    pub open spec fn is_chain(&self, path: Seq<int>) -> bool {
        &&& path.len() >= 1
        &&& forall|j: int| 0 <= j < path.len() - 1 ==> self.names_object(#[trigger] path[j], path[j + 1])
    }

    /// Object `to` can be reached from object `from` by following
    /// constants: the garbage collector, tracing from `from`, marks `to`.
    pub open spec fn reaches(&self, from: int, to: int) -> bool {
        exists|path: Seq<int>| #[trigger] self.is_chain(path) && path[0] == from && path.last() == to
    }

    /// When every object from `base` up to `top` is named by a function
    /// object after it and no later than `top`, all of them can be reached
    /// from `top`.
    pub proof fn lemma_reaches_all(&self, base: int, top: int)
        requires
            0 <= base <= top < self.objects@.len(),
            forall|i: int| base <= i < top ==> #[trigger] self.named_by_later(i, top),
        ensures
            forall|i: int| base <= i <= top ==> #[trigger] self.reaches(top, i),
    {
        assert forall|i: int| base <= i <= top implies #[trigger] self.reaches(top, i) by {
            self.lemma_reaches_from(base, top, i);
        }
    }

    /// One object of [`Self::lemma_reaches_all`], by induction on its
    /// distance from `top`.
    proof fn lemma_reaches_from(&self, base: int, top: int, i: int)
        requires
            0 <= base <= i <= top < self.objects@.len(),
            forall|i: int| base <= i < top ==> #[trigger] self.named_by_later(i, top),
        ensures
            self.reaches(top, i),
        decreases top - i,
    {
        if i == top {
            let path = seq![top];
            assert(self.is_chain(path));
        } else {
            assert(self.named_by_later(i, top));
            let f = choose|f: int| i < f <= top && #[trigger] self.names_object(f, i);
            self.lemma_reaches_from(base, top, f);
            let path = choose|path: Seq<int>|
                #[trigger] self.is_chain(path) && path[0] == top && path.last() == f;
            let longer = path.push(i);
            assert forall|j: int| 0 <= j < longer.len() - 1 implies self.names_object(
                #[trigger] longer[j],
                longer[j + 1],
            ) by {
                if j < path.len() - 1 {
                    assert(longer[j] == path[j] && longer[j + 1] == path[j + 1]);
                } else {
                    assert(longer[j] == f && longer[j + 1] == i);
                }
            }
            assert(self.is_chain(longer));
            assert(longer[0] == top);
        }
    }

    /// The handle under which `text` is interned, if it is.
    pub open spec fn lookup(&self, text: Seq<char>) -> Option<u64> {
        if exists|i: int| 0 <= i < self.strings@.len() && #[trigger] self.strings@[i].0@ == text {
            Some(
                self.strings@[choose|i: int|
                    0 <= i < self.strings@.len() && #[trigger] self.strings@[i].0@ == text].1,
            )
        } else {
            None
        }
    }

    /// The handle of the string object with text `s`. A text that is
    /// interned already gives its object and leaves the heap as it is; any
    /// other gets a new string object, at the end of the heap, and is
    /// interned under it.
    pub fn intern(&mut self, s: String) -> (h: u64)
        requires
            old(self).inv(),
        ensures
            final(self).inv(),
            final(self).extends(&*old(self)),
            h < final(self).objects@.len(),
            final(self).objects@[h as int] matches Object::String(t) && t@ == s@,
            final(self).lookup(s@) == Some(h),
            old(self).lookup(s@) matches Some(k) ==> h == k && *final(self) == *old(self),
            old(self).lookup(s@) is None ==> {
                &&& h == old(self).objects@.len()
                &&& final(self).objects@ == old(self).objects@.push(Object::String(s))
                &&& final(self).strings@ == old(self).strings@.push((s, h))
            },
    {
        let mut i: usize = 0;
        while i < self.strings.len()
            invariant
                self.inv(),
                *self == *old(self),
                i <= self.strings@.len(),
                forall|j: int| 0 <= j < i ==> self.strings@[j].0@ != s@,
            decreases self.strings@.len() - i,
        {
            if self.strings[i].0 == s {
                proof {
                    let k = choose|k: int|
                        0 <= k < self.strings@.len() && #[trigger] self.strings@[k].0@ == s@;
                    assert(self.strings@[i as int].0@ == s@);
                    assert(k == i) by {
                        if k < i {
                        } else if k > i {
                            assert(self.strings@[i as int].0@ != self.strings@[k].0@);
                        }
                    }
                }
                return self.strings[i].1;
            }
            i = i + 1;
        }
        let h = self.objects.len() as u64;
        self.objects.push(Object::String(s.clone()));
        self.strings.push((s, h));
        proof {
            let n = self.strings@.len() - 1;
            assert(self.strings@[n].0@ == s@);
            let k = choose|k: int| 0 <= k < self.strings@.len() && #[trigger] self.strings@[k].0@ == s@;
            assert(k == n) by {
                if k < n {
                    assert(self.strings@[k] == old(self).strings@[k]);
                }
            }
        }
        h
    }
}

impl<'a> Compiler<'a> {
    /// Declares the previous token as a local of the current scope; at the
    /// top level variables are globals and nothing is declared. Declaring a
    /// name twice in one scope is an error.
    fn declare_variable(&mut self)
        requires
            old(self).inv(),
        ensures
            final(self).inv(),
            final(self).only_locals_changed(&*old(self)),
            final(self).top().scope_depth > 0 ==> final(self).top().locals@.len() >= 2,
            final(self).top().locals@.len() >= old(self).top().locals@.len(),
            old(self).top().scope_depth == 0 ==> *final(self) == *old(self),
            old(self).top().scope_depth > 0 && old(self).top().locals@.len() < 255 ==> final(self).top().locals@ == old(self).top().locals@.push(
                Local { name: old(self).previous, depth: None, is_captured: false },
            ),
            old(self).top().scope_depth > 0 && old(self).top().locals@.len() >= 255 ==> final(self).had_error,
            old(self).top().scope_depth > 0 && declared_in_scope(
                old(self).top().locals@,
                old(self).previous.lexeme@,
                old(self).top().scope_depth as int,
            ) ==> final(self).had_error,
            old(self).top().scope_depth > 0 && !declared_in_scope(
                old(self).top().locals@,
                old(self).previous.lexeme@,
                old(self).top().scope_depth as int,
            ) && old(self).top().locals@.len() < 255 ==> final(self).had_error == old(
                self).had_error,
    {
        let last = self.contexts.len() - 1;
        if self.contexts[last].scope_depth == 0 {
            return;
        }
        let name = Token {
            kind: self.previous.kind,
            lexeme: self.previous.lexeme.clone(),
            line: self.previous.line,
        };
        let ghost locals = self.top().locals@;
        let ghost depth = self.top().scope_depth as int;
        let mut i = self.contexts[last].locals.len();
        while i > 0
            invariant_except_break
                forall|j: int|
                    i <= j < locals.len() ==> !((#[trigger] locals[j]).depth matches Some(d) && d
                        < depth),
                (exists|k: int|
                    i <= k < locals.len() && (#[trigger] locals[k]).name.lexeme@ == name.lexeme@)
                    ==> self.had_error,
            invariant
                self.inv(),
                self.only_locals_changed(&*old(self)),
                self.contexts@ == old(self).contexts@,
                last == self.contexts@.len() - 1,
                i <= self.top().locals@.len(),
                locals == self.top().locals@,
                depth == self.top().scope_depth,
                name == old(self).previous,
                self.had_error ==> old(self).had_error || declared_in_scope(
                    locals,
                    name.lexeme@,
                    depth,
                ),
            ensures
                declared_in_scope(locals, name.lexeme@, depth) ==> self.had_error,
                self.had_error ==> old(self).had_error || declared_in_scope(
                    locals,
                    name.lexeme@,
                    depth,
                ),
                self.inv(),
                self.only_locals_changed(&*old(self)),
                self.contexts@ == old(self).contexts@,
                name == old(self).previous,
            decreases i,
        {
            i = i - 1;
            match self.contexts[last].locals[i].depth {
                Some(depth) => {
                    if depth < self.contexts[last].scope_depth {
                        break;
                    }
                },
                None => {},
            }
            if Self::identifiers_equal(&name, &self.contexts[last].locals[i].name) {
                self.error("Already a variable with this name in this scope.");
            }
        }
        self.add_local(name);
    }

    /// Nothing changed but the locals of the function under compilation
    /// and the error state.
    spec fn only_locals_changed(&self, pre: &Self) -> bool {
        &&& self.lexer == pre.lexer
        &&& self.current == pre.current
        &&& self.previous == pre.previous
        &&& self.heap == pre.heap
        &&& self.keepers == pre.keepers
        &&& self.classes@ == pre.classes@
        &&& self.base == pre.base
        &&& self.debug_print == pre.debug_print
        &&& !self.debug_print ==> self.finished == pre.finished
        &&& pre.had_error ==> self.had_error
        &&& self.contexts@.len() == pre.contexts@.len()
        &&& self.contexts@.drop_last() == pre.contexts@.drop_last()
        &&& self.top().chunk == pre.top().chunk
        &&& self.top().scope_depth == pre.top().scope_depth
        &&& self.top().function_kind == pre.top().function_kind
        &&& self.top().upvalues == pre.top().upvalues
        &&& self.top().upvalue_count == pre.top().upvalue_count
        &&& self.top().arity == pre.top().arity
        &&& self.top().name == pre.top().name
        &&& self.outer_frame(pre)
    }

    /// Adds an uninitialized local named by `local_token`; a function holds
    /// at most 255 locals, past that an error is reported.
    fn add_local(&mut self, local_token: Token)
        requires
            old(self).inv(),
        ensures
            final(self).inv(),
            final(self).only_locals_changed(&*old(self)),
            old(self).top().locals@.len() < 255 ==> final(self).top().locals@.len() == old(self).top().locals@.len() + 1,
            old(self).top().locals@.len() >= 255 ==> final(self).top().locals@.len() == old(self).top().locals@.len(),
            old(self).top().locals@.len() < 255 ==> final(self).top().locals@ == old(self).top().locals@.push(Local { name: local_token, depth: None, is_captured: false })
                && final(self).had_error == old(self).had_error,
            old(self).top().locals@.len() >= 255 ==> final(self).had_error && final(self).top().locals@ == old(self).top().locals@,
    {
        let last = self.contexts.len() - 1;
        if self.contexts[last].locals.len() >= u8::MAX as usize {
            self.error("Too many local variables in function");
            return;
        }
        self.contexts[last].locals.push(Local { name: local_token, depth: None, is_captured: false });
        proof {
            assert(self.contexts@.drop_last() =~= old(self).contexts@.drop_last());
            self.lemma_outer_frame(&*old(self));
            self.lemma_same_constants(&*old(self));
            self.lemma_kept_frame(&*old(self), -1);
        }
    }

    /// Marks the last declared local as initialized, at the current depth;
    /// at the top level there is nothing to mark.
    fn mark_initialized(&mut self)
        requires
            old(self).inv(),
            old(self).top().scope_depth == 0 || old(self).top().locals@.len() >= 2,
        ensures
            final(self).inv(),
            final(self).only_locals_changed(&*old(self)),
            old(self).top().scope_depth == 0 ==> *final(self) == *old(self),
            ({
                let pre = old(self).top().locals@;
                let post = final(self).top().locals@;
                old(self).top().scope_depth > 0 ==> {
                    &&& post.last().depth == Some(old(self).top().scope_depth)
                    &&& post.last().name == pre.last().name
                    &&& forall|k: int| 0 <= k < pre.len() - 1 ==> #[trigger] post[k] == pre[k]
                }
            }),
            final(self).errors == old(self).errors,
            final(self).had_error == old(self).had_error,
            final(self).panic_mode == old(self).panic_mode,
            final(self).top().locals@.len() == old(self).top().locals@.len(),
    {
        let last = self.contexts.len() - 1;
        let count = self.contexts[last].locals.len();
        let depth = self.contexts[last].scope_depth;
        if depth == 0 {
            return;
        }
        self.contexts[last].locals[count - 1].depth = Some(depth);
        proof {
            assert(self.contexts@.drop_last() =~= old(self).contexts@.drop_last());
            self.lemma_outer_frame(&*old(self));
            self.lemma_same_constants(&*old(self));
            self.lemma_kept_frame(&*old(self), -1);
        }
    }

    /// Finishes a variable declaration: a local becomes initialized, a
    /// global is defined by a `DefineGlobal` of the constant `global`.
    fn define_variable(&mut self, global: u8)
        requires
            old(self).inv(),
            old(self).top().scope_depth == 0 || old(self).top().locals@.len() >= 2,
        ensures
            final(self).top_step(&*old(self)),
            old(self).top().scope_depth == 0 ==> final(self).top().chunk.codes@ == old(self).top().chunk.codes@.push(opcode_byte(OpCode::DefineGlobal)).push(global),
            old(self).top().scope_depth > 0 ==> final(self).top().chunk.codes@ == old(self).top().chunk.codes@ && final(self).top().locals@.last().depth == Some(
                old(self).top().scope_depth,
            ),
            final(self).top().scope_depth == old(self).top().scope_depth,
            final(self).top().locals@.len() == old(self).top().locals@.len(),
            old(self).top().scope_depth == 0 ==> final(self).top().chunk.constants@ == old(
                self,
            ).top().chunk.constants@,
            old(self).top().scope_depth > 0 ==> final(self).top().locals@.drop_last() == old(
                self,
            ).top().locals@.drop_last() && final(self).top().locals@.last().name == old(
                self,
            ).top().locals@.last().name,
    {
        let last = self.contexts.len() - 1;
        if self.contexts[last].scope_depth > 0 {
            self.mark_initialized();
            proof {
                assert(self.top().locals@.drop_last() =~= old(self).top().locals@.drop_last());
            }
            return;
        }
        self.emit_bytes(u8::from(OpCode::DefineGlobal), global);
    }

    /// Two identifiers are the same when their text is.
    fn identifiers_equal(a: &Token, b: &Token) -> (r: bool)
        ensures
            r == (a.lexeme@ == b.lexeme@),
    {
        a.lexeme == b.lexeme
    }
}

/// The index of the last of the first `n` locals named `name`, or -1.
spec fn last_named(locals: Seq<Local>, name: Seq<char>, n: int) -> int
    decreases n,
{
    if n <= 0 {
        -1
    } else if locals[n - 1].name.lexeme@ == name {
        n - 1
    } else {
        last_named(locals, name, n - 1)
    }
}

/// Some function enclosing the one at depth `c` has an initialized local
/// named `name` as the innermost local so named.
spec fn found_enclosing(ctxs: Seq<CompilerContext>, c: int, name: Seq<char>) -> bool
    decreases c,
{
    if c <= 0 || c > ctxs.len() {
        false
    } else {
        let locals = ctxs[c - 1].locals@;
        let k = last_named(locals, name, locals.len() as int);
        (k >= 0 && locals[k].depth is Some) || found_enclosing(ctxs, c - 1, name)
    }
}

/// The upvalue `uv` of the function at depth `c` leads to the variable
/// `name`: either it captures the innermost initialized local so named of
/// the enclosing function, or an upvalue of the enclosing function that
/// leads to it in turn.
spec fn captures(ctxs: Seq<CompilerContext>, c: int, uv: UpValue, name: Seq<char>) -> bool
    decreases c,
{
    if c <= 0 || c > ctxs.len() {
        false
    } else if uv.is_local {
        let locals = ctxs[c - 1].locals@;
        let k = last_named(locals, name, locals.len() as int);
        k >= 0 && locals[k].depth is Some && uv.index == k
    } else {
        let ups = ctxs[c - 1].upvalues@;
        uv.index < ups.len() && captures(ctxs, c - 1, ups[uv.index as int], name)
    }
}

/// Two stacks of locals with the same names and depths.
spec fn same_locals(a: Seq<Local>, b: Seq<Local>) -> bool {
    &&& a.len() == b.len()
    &&& forall|k: int|
        0 <= k < a.len() ==> (#[trigger] a[k]).name.lexeme@ == b[k].name.lexeme@ && a[k].depth
            == b[k].depth
}

/// `post` has the functions of `pre`, with the same locals (but for which
/// are captured) and at least their upvalues.
spec fn closures_kept(post: Seq<CompilerContext>, pre: Seq<CompilerContext>) -> bool {
    &&& post.len() == pre.len()
    &&& forall|c: int|
        0 <= c < post.len() ==> same_locals(
            (#[trigger] post[c]).locals@,
            pre[c].locals@,
        ) && pre[c].upvalues@.len() <= post[c].upvalues@.len() && forall|k: int|
            0 <= k < pre[c].upvalues@.len() ==> #[trigger] post[c].upvalues@[k]
                == pre[c].upvalues@[k]
}

/// The local a name finds among the first `n` is one of them.
proof fn lemma_last_named_bound(locals: Seq<Local>, name: Seq<char>, n: int)
    ensures
        n >= 0 ==> -1 <= last_named(locals, name, n) < n,
    decreases n,
{
    if n > 0 {
        lemma_last_named_bound(locals, name, n - 1);
    }
}

/// Which local a name finds depends only on the names.
proof fn lemma_last_named_same(a: Seq<Local>, b: Seq<Local>, name: Seq<char>, n: int)
    requires
        same_locals(a, b),
        n <= a.len(),
    ensures
        last_named(a, name, n) == last_named(b, name, n),
    decreases n,
{
    if n > 0 {
        assert(a[n - 1].name.lexeme@ == b[n - 1].name.lexeme@);
        lemma_last_named_same(a, b, name, n - 1);
    }
}

/// Where an upvalue leads does not change when functions keep their
/// locals and upvalues.
proof fn lemma_captures_kept(
    post: Seq<CompilerContext>,
    pre: Seq<CompilerContext>,
    c: int,
    uv: UpValue,
    name: Seq<char>,
)
    requires
        closures_kept(post, pre),
        captures(pre, c, uv, name),
    ensures
        captures(post, c, uv, name),
    decreases c,
{
    assert(same_locals(post[c - 1].locals@, pre[c - 1].locals@));
    if uv.is_local {
        lemma_last_named_same(
            post[c - 1].locals@,
            pre[c - 1].locals@,
            name,
            pre[c - 1].locals@.len() as int,
        );
        let k = last_named(pre[c - 1].locals@, name, pre[c - 1].locals@.len() as int);
        lemma_last_named_bound(pre[c - 1].locals@, name, pre[c - 1].locals@.len() as int);
        assert(post[c - 1].locals@[k].depth == pre[c - 1].locals@[k].depth);
    } else {
        assert(post[c - 1].upvalues@[uv.index as int] == pre[c - 1].upvalues@[uv.index as int]);
        lemma_captures_kept(post, pre, c - 1, pre[c - 1].upvalues@[uv.index as int], name);
    }
}

/// Keeping locals and upvalues is transitive.
proof fn lemma_closures_kept_trans(
    a: Seq<CompilerContext>,
    b: Seq<CompilerContext>,
    c: Seq<CompilerContext>,
)
    requires
        closures_kept(b, a),
        closures_kept(c, b),
    ensures
        closures_kept(c, a),
{
    assert forall|i: int| 0 <= i < c.len() implies same_locals(
        (#[trigger] c[i]).locals@,
        a[i].locals@,
    ) && a[i].upvalues@.len() <= c[i].upvalues@.len() && forall|k: int|
        0 <= k < a[i].upvalues@.len() ==> #[trigger] c[i].upvalues@[k] == a[i].upvalues@[k] by {
        assert(same_locals(c[i].locals@, b[i].locals@));
        assert(same_locals(b[i].locals@, a[i].locals@));
        assert forall|k: int| 0 <= k < c[i].locals@.len() implies (#[trigger] c[i].locals@[k]).name.lexeme@
            == a[i].locals@[k].name.lexeme@ && c[i].locals@[k].depth == a[i].locals@[k].depth by {
            assert(b[i].locals@[k].name.lexeme@ == a[i].locals@[k].name.lexeme@);
        }
        assert forall|k: int| 0 <= k < a[i].upvalues@.len() implies #[trigger] c[i].upvalues@[k]
            == a[i].upvalues@[k] by {
            assert(b[i].upvalues@[k] == a[i].upvalues@[k]);
        }
    }
}

impl<'a> Compiler<'a> {
    /// Only bookkeeping about closures changed: which locals are captured
    /// and which upvalues functions have, and the error state.
    spec fn frame_step(&self, pre: &Self) -> bool {
        &&& self.inv()
        &&& self.lexer == pre.lexer
        &&& self.current == pre.current
        &&& self.previous == pre.previous
        &&& self.heap == pre.heap
        &&& self.keepers == pre.keepers
        &&& self.classes@ == pre.classes@
        &&& self.base == pre.base
        &&& self.debug_print == pre.debug_print
        &&& !self.debug_print ==> self.finished == pre.finished
        &&& pre.had_error ==> self.had_error
        &&& self.contexts@.len() == pre.contexts@.len()
        &&& forall|i: int|
            #![trigger pre.contexts@[i]]
            0 <= i < pre.contexts@.len() ==> ctx_frame(self.contexts@[i], pre.contexts@[i])
    }

    /// The slot of the innermost local named like `name` in the function at
    /// `ctx_idx`; `None` when there is none, or when it is not initialized
    /// yet.
    fn resolve_local_in(&self, ctx_idx: usize, name: &Token) -> (r: Option<u8>)
        requires
            self.inv(),
            ctx_idx < self.contexts@.len(),
        ensures
            ({
                let locals = self.contexts@[ctx_idx as int].locals@;
                let k = last_named(locals, name.lexeme@, locals.len() as int);
                r == (if k >= 0 && locals[k].depth is Some {
                    Some(k as u8)
                } else {
                    None
                })
            }),
            r matches Some(k) ==> k < self.contexts@[ctx_idx as int].locals@.len(),
    {
        let ghost locals = self.contexts@[ctx_idx as int].locals@;
        let mut i = self.contexts[ctx_idx].locals.len();
        proof {
            assert(self.contexts@[ctx_idx as int].ok(self.len() + 1 - self.measure()));
        }
        while i > 0
            invariant
                locals == self.contexts@[ctx_idx as int].locals@,
                i <= locals.len() <= 255,
                ctx_idx < self.contexts@.len(),
                last_named(locals, name.lexeme@, locals.len() as int) == last_named(
                    locals,
                    name.lexeme@,
                    i as int,
                ),
            decreases i,
        {
            if Self::identifiers_equal(name, &self.contexts[ctx_idx].locals[i - 1].name) {
                return match self.contexts[ctx_idx].locals[i - 1].depth {
                    Some(_) => Some((i - 1) as u8),
                    None => None,
                };
            }
            i = i - 1;
        }
        None
    }

    /// The slot of the innermost local named like `name` in the function
    /// under compilation.
    fn resolve_local(&self, name: &Token) -> (r: Option<u8>)
        requires
            self.inv(),
        ensures
            ({
                let locals = self.top().locals@;
                let k = last_named(locals, name.lexeme@, locals.len() as int);
                r == (if k >= 0 && locals[k].depth is Some {
                    Some(k as u8)
                } else {
                    None
                })
            }),
    {
        let idx = self.contexts.len() - 1;
        self.resolve_local_in(idx, name)
    }

    /// Finds `name` in the functions enclosing the one at `ctx_idx` and
    /// returns the index of the upvalue through which that function reaches
    /// it: a local of the directly enclosing function is marked captured,
    /// one further out is reached through that function's own upvalue. Unless
    /// an error is found, the chain of upvalues leads, function by function,
    /// to the innermost initialized local of that name.
    fn resolve_upvalue_in(&mut self, ctx_idx: usize, name: &Token) -> (r: Option<u8>)
        requires
            old(self).inv(),
            ctx_idx < old(self).contexts@.len(),
        ensures
            final(self).frame_step(&*old(self)),
            closures_kept(final(self).contexts@, old(self).contexts@),
            ctx_idx == 0 ==> r is None && *final(self) == *old(self),
            r is Some <==> found_enclosing(old(self).contexts@, ctx_idx as int, name.lexeme@),
            r matches Some(u) ==> final(self).had_error || (u
                < final(self).contexts@[ctx_idx as int].upvalues@.len() && captures(
                final(self).contexts@,
                ctx_idx as int,
                final(self).contexts@[ctx_idx as int].upvalues@[u as int],
                name.lexeme@,
            )),
        decreases ctx_idx,
    {
        if ctx_idx == 0 {
            return None;
        }
        match self.resolve_local_in(ctx_idx - 1, name) {
            Some(local) => {
                let ghost pre = *self;
                self.contexts[ctx_idx - 1].locals[local as usize].is_captured = true;
                proof {
                    assert forall|i: int| 0 <= i < self.contexts@.len() implies (
                    #[trigger] self.contexts@[i]).ok(self.len() + 1 - self.measure()) by {
                        assert(pre.contexts@[i].ok(pre.len() + 1 - pre.measure()));
                    }
                    assert forall|i: int| 0 <= i < pre.contexts@.len() implies ctx_frame(
                        self.contexts@[i],
                        #[trigger] pre.contexts@[i],
                    ) by {
                        assert(self.contexts@[i].locals@.len() == pre.contexts@[i].locals@.len());
                    }
                    assert forall|c: int| 0 <= c < self.contexts@.len() implies constants_kept(
                        pre.contexts@[c].chunk.constants@,
                        #[trigger] self.contexts@[c].chunk.constants@,
                    ) by {
                        assert(self.contexts@[c].chunk == pre.contexts@[c].chunk);
                    }
                    self.lemma_kept_frame(&pre, -1);
                    assert(closures_kept(self.contexts@, pre.contexts@)) by {
                        assert forall|c: int| 0 <= c < self.contexts@.len() implies same_locals(
                            (#[trigger] self.contexts@[c]).locals@,
                            pre.contexts@[c].locals@,
                        ) by {
                            assert forall|k: int| 0 <= k < self.contexts@[c].locals@.len() implies (
                            #[trigger] self.contexts@[c].locals@[k]).name.lexeme@
                                == pre.contexts@[c].locals@[k].name.lexeme@
                                && self.contexts@[c].locals@[k].depth
                                == pre.contexts@[c].locals@[k].depth by {
                                if c == ctx_idx - 1 && k == local {
                                } else {
                                    assert(self.contexts@[c].locals@[k] == pre.contexts@[c].locals@[k]);
                                }
                            }
                        }
                    }
                }
                let ghost marked = *self;
                let u = self.add_upvalue_in(ctx_idx, local as usize, true);
                proof {
                    lemma_closures_kept_trans(pre.contexts@, marked.contexts@, self.contexts@);
                    if !self.had_error {
                        let locals = self.contexts@[ctx_idx - 1].locals@;
                        lemma_last_named_same(
                            locals,
                            pre.contexts@[ctx_idx - 1].locals@,
                            name.lexeme@,
                            locals.len() as int,
                        );
                        assert(locals[local as int].depth
                            == pre.contexts@[ctx_idx - 1].locals@[local as int].depth);
                        lemma_last_named_bound(
                            pre.contexts@[ctx_idx - 1].locals@,
                            name.lexeme@,
                            locals.len() as int,
                        );
                        assert(pre.contexts@[ctx_idx - 1].ok(pre.len() + 1 - pre.measure()));
                        assert(last_named(locals, name.lexeme@, locals.len() as int) == local);
                    }
                }
                return Some(u);
            },
            None => {},
        }
        let ghost before = *self;
        match self.resolve_upvalue_in(ctx_idx - 1, name) {
            Some(upvalue) => {
                let ghost mid = *self;
                let u = self.add_upvalue_in(ctx_idx, upvalue as usize, false);
                proof {
                    lemma_closures_kept_trans(before.contexts@, mid.contexts@, self.contexts@);
                    if !self.had_error {
                        let ups = mid.contexts@[ctx_idx - 1].upvalues@;
                        assert(self.contexts@[ctx_idx - 1].upvalues@[upvalue as int]
                            == ups[upvalue as int]);
                        lemma_captures_kept(
                            self.contexts@,
                            mid.contexts@,
                            ctx_idx - 1,
                            ups[upvalue as int],
                            name.lexeme@,
                        );
                    }
                }
                Some(u)
            },
            None => None,
        }
    }

    /// The upvalue through which the function under compilation reaches
    /// `name`, a variable of an enclosing function.
    fn resolve_upvalue(&mut self, name: &Token) -> (r: Option<u8>)
        requires
            old(self).inv(),
        ensures
            final(self).frame_step(&*old(self)),
            r is Some <==> found_enclosing(
                old(self).contexts@,
                old(self).contexts@.len() - 1,
                name.lexeme@,
            ),
            r matches Some(u) ==> final(self).had_error || (u < final(self).top().upvalues@.len()
                && captures(
                final(self).contexts@,
                final(self).contexts@.len() - 1,
                final(self).top().upvalues@[u as int],
                name.lexeme@,
            )),
    {
        let idx = self.contexts.len() - 1;
        self.resolve_upvalue_in(idx, name)
    }

    /// The index of the upvalue (`index`, `is_local`) of the function at
    /// `ctx_id`, adding it when the function does not have it yet; a
    /// function has at most 255 upvalues, past that an error is reported
    /// and 0 returned.
    fn add_upvalue_in(&mut self, ctx_id: usize, index: usize, is_local: bool) -> (r: u8)
        requires
            old(self).inv(),
            1 <= ctx_id < old(self).contexts@.len(),
        ensures
            final(self).frame_step(&*old(self)),
            r < 255,
            closures_kept(final(self).contexts@, old(self).contexts@),
            ({
                let ups = final(self).contexts@[ctx_id as int].upvalues@;
                ||| r < ups.len() && ups[r as int].index == index && ups[r as int].is_local
                    == is_local
                ||| old(self).contexts@[ctx_id as int].upvalue_count == 255 && final(self).had_error
            }),
            ({
                let ups = old(self).contexts@[ctx_id as int].upvalues@;
                (exists|i: int|
                    0 <= i < ups.len() && #[trigger] ups[i].index == index && ups[i].is_local
                        == is_local) ==> *final(self) == *old(self)
            }),
            ({
                let pre = old(self).contexts@[ctx_id as int];
                let post = final(self).contexts@[ctx_id as int];
                !(exists|i: int|
                    0 <= i < pre.upvalues@.len() && #[trigger] pre.upvalues@[i].index == index
                        && pre.upvalues@[i].is_local == is_local) && pre.upvalue_count < 255 ==> {
                    &&& post.upvalues@ == pre.upvalues@.push(UpValue { index, is_local })
                    &&& post.upvalue_count == pre.upvalue_count + 1
                    &&& r == pre.upvalue_count
                    &&& final(self).had_error == old(self).had_error
                }
            }),
            ({
                let pre = old(self).contexts@[ctx_id as int];
                !(exists|i: int|
                    0 <= i < pre.upvalues@.len() && #[trigger] pre.upvalues@[i].index == index
                        && pre.upvalues@[i].is_local == is_local) && pre.upvalue_count >= 255
                    ==> r == 0 && final(self).had_error
            }),
            ({
                let ups = old(self).contexts@[ctx_id as int].upvalues@;
                (exists|i: int|
                    0 <= i < ups.len() && #[trigger] ups[i].index == index && ups[i].is_local
                        == is_local) ==> r < ups.len() && ups[r as int].index == index
                    && ups[r as int].is_local == is_local && forall|j: int|
                    0 <= j < r ==> !(#[trigger] ups[j].index == index && ups[j].is_local
                        == is_local)
            }),
    {
        let n = self.contexts[ctx_id].upvalue_count;
        proof {
            assert(self.contexts@[ctx_id as int].ok(self.len() + 1 - self.measure()));
        }
        let mut i: usize = 0;
        while i < n
            invariant
                *self == *old(self),
                old(self).inv(),
                n == self.contexts@[ctx_id as int].upvalue_count,
                n == self.contexts@[ctx_id as int].upvalues@.len(),
                n <= 255,
                ctx_id < self.contexts@.len(),
                i <= n,
                forall|j: int|
                    0 <= j < i ==> !(#[trigger] self.contexts@[ctx_id as int].upvalues@[j].index
                        == index && self.contexts@[ctx_id as int].upvalues@[j].is_local
                        == is_local),
            decreases n - i,
        {
            let uv = self.contexts[ctx_id].upvalues[i];
            if uv.index == index && uv.is_local == is_local {
                return i as u8;
            }
            i = i + 1;
        }
        if n >= u8::MAX as usize {
            self.error("too many closure variables in function.");
            return 0;
        }
        let ghost pre = *self;
        self.contexts[ctx_id].upvalues.push(UpValue { index, is_local });
        self.contexts[ctx_id].upvalue_count = n + 1;
        proof {
            assert forall|i: int| 0 <= i < self.contexts@.len() implies (
            #[trigger] self.contexts@[i]).ok(self.len() + 1 - self.measure()) by {
                assert(pre.contexts@[i].ok(pre.len() + 1 - pre.measure()));
            }
            assert forall|c: int| 0 <= c < self.contexts@.len() implies constants_kept(
                pre.contexts@[c].chunk.constants@,
                #[trigger] self.contexts@[c].chunk.constants@,
            ) by {
                assert(self.contexts@[c].chunk == pre.contexts@[c].chunk);
            }
            self.lemma_kept_frame(&pre, -1);
        }
        n as u8
    }
}

// ---------------------------------------------------------------------------
// String literals, identifiers and finished functions
// ---------------------------------------------------------------------------

/// The position of the first byte at or after `i` that is no `"`.
pub open spec fn skip_quotes(b: Seq<u8>, i: int) -> int
    decreases b.len() - i,
{
    if 0 <= i < b.len() && b[i] == '"' as u8 {
        skip_quotes(b, i + 1)
    } else {
        i
    }
}

/// The end of `b[lo..j]` once every `"` at its end is dropped.
pub open spec fn drop_end_quotes(b: Seq<u8>, lo: int, j: int) -> int
    decreases j,
{
    if j > 0 && j > lo && b[j - 1] == '"' as u8 {
        drop_end_quotes(b, lo, j - 1)
    } else {
        j
    }
}

/// The bytes of `b` without the `"` bytes at its start and at its end.
pub open spec fn unquoted(b: Seq<u8>) -> Seq<u8> {
    let lo = skip_quotes(b, 0);
    b.subrange(lo, drop_end_quotes(b, lo, b.len() as int))
}

/// The text of a string literal without its quotes: `text` without every
/// `"` at its start and at its end.
pub fn unquote(text: &str) -> (r: String)
    ensures
        r@ == decode_utf8(unquoted(text.spec_bytes())),
{
    let b = text.as_bytes();
    let ghost s = text.spec_bytes();
    let mut lo: usize = 0;
    while lo < b.len() && b[lo] == '"' as u8
        invariant
            b@ == s,
            lo <= s.len(),
            skip_quotes(s, lo as int) == skip_quotes(s, 0),
            lo == 0 || s[lo - 1] == '"' as u8,
        decreases s.len() - lo,
    {
        lo = lo + 1;
    }
    let mut hi: usize = b.len();
    while hi > lo && b[hi - 1] == '"' as u8
        invariant
            b@ == s,
            lo <= hi <= s.len(),
            lo == skip_quotes(s, 0),
            drop_end_quotes(s, lo as int, hi as int) == drop_end_quotes(s, lo as int, s.len() as int),
            hi == s.len() || s[hi as int] == '"' as u8,
        decreases hi,
    {
        hi = hi - 1;
    }
    proof {
        lemma_ascii_boundary(s, lo as int);
        valid_utf8_split(s, lo as int);
    }
    let (_, rest) = text.split_at(lo);
    let ghost rb = rest.spec_bytes();
    proof {
        assert(rb =~= s.subrange(lo as int, s.len() as int));
        lemma_ascii_boundary(rb, (hi - lo) as int);
    }
    let (inner, _) = rest.split_at(hi - lo);
    proof {
        assert(inner.spec_bytes() =~= s.subrange(lo as int, hi as int));
    }
    inner.to_owned()
}

impl<'a> Compiler<'a> {
    /// The handle of the string object with text `s`, interned in the heap.
    fn intern_string(&mut self, s: String) -> (h: u64)
        requires
            old(self).inv(),
        ensures
            final(self).inv_except(h as int),
            final(self).heap.extends(&old(self).heap),
            old(self).heap.lookup(s@) matches Some(k) ==> h == k && final(self).heap == old(self).heap,
            old(self).heap.lookup(s@) is None ==> h == old(self).heap.objects@.len()
                && final(self).heap.objects@ == old(self).heap.objects@.push(Object::String(s)),
            final(self).keepers == old(self).keepers,
            final(self).classes@ == old(self).classes@,
            final(self).base == old(self).base,
            final(self).debug_print == old(self).debug_print,
            !old(self).debug_print ==> final(self).finished == old(self).finished,
            old(self).had_error ==> final(self).had_error,
            h < final(self).heap.objects@.len(),
            final(self).heap.objects@[h as int] matches Object::String(t) && t@ == s@,
            final(self).lexer == old(self).lexer,
            final(self).current == old(self).current,
            final(self).previous == old(self).previous,
            final(self).contexts == old(self).contexts,
            final(self).errors == old(self).errors,
            final(self).had_error == old(self).had_error,
            final(self).panic_mode == old(self).panic_mode,
    {
        let ghost pre = *self;
        let h = self.heap.intern(s);
        proof {
            assert(self.same_constants(&pre));
            self.lemma_kept_frame(&pre, h as int);
            lemma_function_handles_prefix(
                self.heap.objects@,
                pre.heap.objects@,
                self.base@,
                pre.heap.objects@.len() as int,
            );
        }
        h
    }

    /// Adds the name in `token` to the constant table, as an interned string,
    /// and returns its index.
    fn identifier_constant(&mut self, token: Token) -> (i: u8)
        requires
            old(self).inv(),
        ensures
            !final(self).had_error ==> i < final(self).top().chunk.constants@.len()
                && final(self).heap.names_string(final(self).constant_at(i as int), token.lexeme@),
            final(self).expr_step(&*old(self)),
            final(self).measure() == old(self).measure(),
            final(self).code_len() == old(self).code_len(),
            final(self).lexer == old(self).lexer,
            final(self).current == old(self).current,
            final(self).previous == old(self).previous,
            final(self).top().chunk.codes@ == old(self).top().chunk.codes@,
            old(self).top().chunk.constants@.len() < 255 ==> final(self).had_error == old(
                self,
            ).had_error && final(self).panic_mode == old(self).panic_mode && i == old(
                self,
            ).top().chunk.constants@.len() && final(self).top().chunk.constants@.len() == old(
                self,
            ).top().chunk.constants@.len() + 1,
    {
        let h = self.intern_string(token.lexeme);
        let value = Value::from_obj(h);
        let i = self.make_constant(value, Ghost(h as int));
        proof {
            if !self.had_error {
                assert(self.constant_at(i as int) == value);
                assert(self.heap.names_string(value, token.lexeme@)) by {
                    assert(value.0 == (SIGN_BIT | QNAN | h));
                }
            }
        }
        i
    }

    /// Consumes a variable name and declares it. At the top level the name
    /// becomes a constant, whose index is returned; in a scope it becomes a
    /// local and 0 is returned.
    fn parse_variable(&mut self, msg: &str) -> (i: u8)
        requires
            old(self).inv(),
        ensures
            final(self).step(&*old(self)),
            final(self).code_len() == old(self).code_len(),
            final(self).top().scope_depth > 0 ==> final(self).top().locals@.len() >= 2,
            final(self).top().locals@.len() >= old(self).top().locals@.len(),
            final(self).measure() < old(self).measure() || final(self).current == old(self).current,
            final(self).top().chunk.codes@ == old(self).top().chunk.codes@,
            old(self).current.kind == TokenKind::Identifier && old(self).top().scope_depth == 0
                && old(self).top().chunk.constants@.len() < 255 ==> final(self).clean_advance(
                &*old(self),
            ) && i == old(self).top().chunk.constants@.len()
                && final(self).top().chunk.constants@.len() == old(self).top().chunk.constants@.len()
                + 1,
            old(self).current.kind == TokenKind::Identifier && old(self).top().scope_depth > 0
                && declared_in_scope(
                old(self).top().locals@,
                old(self).current.lexeme@,
                old(self).top().scope_depth as int,
            ) ==> final(self).had_error,
            ({
                let s = old(self).lexer.source_bytes();
                let st = skip_trivia(s, old(self).lexer.pos());
                old(self).current.kind == TokenKind::Identifier && old(self).top().scope_depth > 0
                    && !declared_in_scope(
                    old(self).top().locals@,
                    old(self).current.lexeme@,
                    old(self).top().scope_depth as int,
                ) && old(self).top().locals@.len() < 255 && scan_kind(s, st) != TokenKind::Error
                    ==> {
                    &&& final(self).top().locals@ == old(self).top().locals@.push(
                        Local { name: old(self).current, depth: None, is_captured: false },
                    )
                    &&& final(self).had_error == old(self).had_error
                    &&& final(self).current.kind == scan_kind(s, st)
                    &&& final(self).current.lexeme@ == scan_text(s, st)
                    &&& final(self).lexer.pos() == scan_end(s, st)
                }
            }),
    {
        self.consume(TokenKind::Identifier, msg);
        self.declare_variable();
        let last = self.contexts.len() - 1;
        if self.contexts[last].scope_depth > 0 {
            return 0;
        }
        let name = self.previous.clone();
        self.identifier_constant(name)
    }

    /// Finishes the function under compilation: emits its implicit return,
    /// moves it into the heap as a function object and returns the object's
    /// handle. The handle is also recorded for disassembly when that is on
    /// and no error was found so far.
    #[verifier::spinoff_prover]
    fn end_compiler(&mut self) -> (r: (u64, Vec<UpValue>))
        requires
            old(self).inv(),
        ensures
            final(self).contexts@ == old(self).contexts@.drop_last(),
            final(self).closed_upvalues@ == old(self).top().upvalues@,
            old(self).contexts@.len() >= 2 ==> final(self).inv_except(r.0 as int),
            final(self).kept_except(r.0 as int),
            final(self).heap.inv(),
            final(self).heap.extends(&old(self).heap),
            final(self).heap.strings == old(self).heap.strings,
            final(self).classes@ == old(self).classes@,
            final(self).base == old(self).base,
            final(self).debug_print == old(self).debug_print,
            !old(self).debug_print ==> final(self).finished == old(self).finished,
            old(self).had_error ==> final(self).had_error,
            r.0 == old(self).heap.objects@.len(),
            r.1@ == old(self).top().upvalues@,
            final(self).heap.objects@.len() == r.0 + 1,
            final(self).heap.objects@[r.0 as int] matches Object::Function {
                arity,
                name,
                chunk,
                upvalue_count,
            } && arity == old(self).top().arity && name == old(self).top().name && upvalue_count
                == old(self).top().upvalue_count && chunk.codes@ == old(self).top().chunk.codes@
                + implicit_return(old(self).top().function_kind) && chunk.constants@ == old(
                self).top().chunk.constants@,
            final(self).lexer == old(self).lexer,
            final(self).current == old(self).current,
            final(self).previous == old(self).previous,
            final(self).errors == old(self).errors,
            final(self).had_error == old(self).had_error,
            final(self).panic_mode == old(self).panic_mode,
            final(self).measure() == old(self).measure(),
            final(self).finished@ == if !old(self).had_error && old(self).debug_print {
                old(self).finished@.push(r.0)
            } else {
                old(self).finished@
            },
    {
        self.emit_return();
        let ghost returned = *self;
        let ghost depth = self.contexts@.len() - 1;
        let context = self.contexts.pop().unwrap();
        let CompilerContext { name, arity, chunk, upvalue_count, upvalues, .. } = context;
        let h = self.heap.objects.len() as u64;
        if !self.had_error && self.debug_print {
            self.finished.push(h);
        }
        self.heap.objects.push(Object::Function { arity, name, chunk, upvalue_count });
        proof {
            self.closed_upvalues@ = upvalues@;
            lemma_function_handles_prefix(
                self.heap.objects@,
                returned.heap.objects@,
                self.base@,
                returned.heap.objects@.len() as int,
            );
            // The constants of the finished function now keep their objects
            // from the heap.
            self.keepers@ = self.keepers@.map_values(
                |r: (bool, int, int)|
                    if !r.0 && r.1 == depth {
                        (true, h as int, r.2)
                    } else {
                        r
                    },
            );
            if !self.had_error {
                assert forall|i: int|
                    self.base@ <= i < self.heap.objects@.len() && i != h as int implies #[trigger] self.kept(i) by {
                    assert(returned.kept(i));
                    let r = returned.keepers@[i];
                    assert(returned.keeps(i, r));
                    if r.0 {
                        assert(self.heap.objects@[r.1] == returned.heap.objects@[r.1]);
                    } else if r.1 == depth {
                        assert(self.keepers@[i] == (true, h as int, r.2));
                    } else {
                        assert(self.contexts@[r.1] == returned.contexts@[r.1]);
                    }
                }
            }
        }
        (h, upvalues)
    }
}

// ---------------------------------------------------------------------------
// Expressions
// ---------------------------------------------------------------------------

/// The instructions that end a binary operation of operator `kind`.
spec fn binary_code(kind: TokenKind) -> Seq<u8> {
    match kind {
        TokenKind::Plus => seq![opcode_byte(OpCode::Add)],
        TokenKind::Minus => seq![opcode_byte(OpCode::Subtract)],
        TokenKind::Star => seq![opcode_byte(OpCode::Multiply)],
        TokenKind::Slash => seq![opcode_byte(OpCode::Divide)],
        TokenKind::BangEqual => seq![opcode_byte(OpCode::Equal), opcode_byte(OpCode::Not)],
        TokenKind::EqualEqual => seq![opcode_byte(OpCode::Equal)],
        TokenKind::Greater => seq![opcode_byte(OpCode::Greater)],
        TokenKind::GreaterEqual => seq![opcode_byte(OpCode::Less), opcode_byte(OpCode::Not)],
        TokenKind::Less => seq![opcode_byte(OpCode::Less)],
        _ => seq![opcode_byte(OpCode::Greater), opcode_byte(OpCode::Not)],
    }
}

/// The instruction of a `true`, `false` or `nil` literal.
spec fn literal_code(kind: TokenKind) -> u8 {
    match kind {
        TokenKind::False => opcode_byte(OpCode::False),
        TokenKind::True => opcode_byte(OpCode::True),
        _ => opcode_byte(OpCode::Nil),
    }
}

/// The code of an `if` statement from `start`: a `JumpIfFalse` at `p` past
/// the then branch and its `Pop`, to the `Jump` at `q` that skips the else
/// branch, which starts with a `Pop`; both jumps land where they should
/// unless an error was found.
spec fn if_shape(codes: Seq<u8>, start: int, p: int, q: int, had_error: bool) -> bool {
    &&& start <= p && p + 4 <= q && q + 4 <= codes.len()
    &&& codes[p] == opcode_byte(OpCode::JumpIfFalse)
    &&& codes[p + 3] == opcode_byte(OpCode::Pop)
    &&& codes[q] == opcode_byte(OpCode::Jump)
    &&& codes[q + 3] == opcode_byte(OpCode::Pop)
    &&& !had_error ==> short_at(codes, p + 1) == q - p && short_at(codes, q + 1) == codes.len()
        - q - 3
}

/// The code of a `for` loop whose condition starts at `c`: with a
/// condition, its `JumpIfFalse` at `e`, then `Pop`, leaves the loop to the
/// `Pop` after the last `Loop` at `q`; with an increment, a `Jump` at `j`
/// skips the increment, which ends with a `Loop` at `l` back to the
/// condition, and the last `Loop` goes back to the increment; without one
/// the last `Loop` goes back to the condition. The distances hold unless an
/// error was found.
spec fn for_layout(
    codes: Seq<u8>,
    c: int,
    e: int,
    j: int,
    l: int,
    q: int,
    has_cond: bool,
    has_inc: bool,
    had_error: bool,
) -> bool {
    &&& c <= q && q + 3 <= codes.len()
    &&& codes[q] == opcode_byte(OpCode::Loop)
    &&& has_cond ==> {
        &&& c <= e && e + 4 <= q
        &&& codes[e] == opcode_byte(OpCode::JumpIfFalse)
        &&& codes[e + 3] == opcode_byte(OpCode::Pop)
        &&& q + 4 <= codes.len() && codes[q + 3] == opcode_byte(OpCode::Pop)
        &&& !had_error ==> short_at(codes, e + 1) == q - e
    }
    &&& has_inc ==> {
        &&& (if has_cond { e + 4 } else { c }) <= j && j + 3 <= l && l + 3 <= q
        &&& codes[j] == opcode_byte(OpCode::Jump)
        &&& codes[l] == opcode_byte(OpCode::Loop)
        &&& !had_error ==> short_at(codes, j + 1) == l - j && short_at(codes, l + 1) == l + 3 - c
            && short_at(codes, q + 1) == q - j
    }
    &&& !has_inc && !had_error ==> short_at(codes, q + 1) == q + 3 - c
}

/// The pair of bytes for upvalue `j` after the closure at `p` describes
/// `uv`: whether it captures a local of the enclosing function, and the
/// index of that local or of the enclosing function's upvalue.
spec fn upvalue_pair(codes: Seq<u8>, p: int, uv: UpValue, j: int) -> bool {
    &&& codes[p + 2 + 2 * j] == if uv.is_local { 1u8 } else { 0u8 }
    &&& codes[p + 3 + 2 * j] == uv.index as u8
}

/// The code ends with the closure at `p` of the function object `f`: the
/// `Closure` instruction, then one pair per upvalue of `ups`, which the
/// function object counts.
spec fn closure_of(codes: Seq<u8>, p: int, objects: Seq<Object>, f: int, ups: Seq<UpValue>) -> bool {
    &&& 0 <= p && p + 2 + 2 * ups.len() == codes.len()
    &&& codes[p] == opcode_byte(OpCode::Closure)
    &&& 0 <= f < objects.len()
    &&& objects[f] matches Object::Function { upvalue_count, .. } && upvalue_count == ups.len()
    &&& forall|j: int| 0 <= j < ups.len() ==> upvalue_pair(codes, p, #[trigger] ups[j], j)
}

/// A local named `name` is declared in the innermost scope, at `depth`:
/// no local from it onwards belongs to an enclosing scope.
spec fn declared_in_scope(locals: Seq<Local>, name: Seq<char>, depth: int) -> bool {
    exists|k: int|
        0 <= k < locals.len() && (#[trigger] locals[k]).name.lexeme@ == name && forall|j: int|
            k <= j < locals.len() ==> !((#[trigger] locals[j]).depth matches Some(d) && d < depth)
}

/// The instruction that ends the life of `local` at the end of its scope:
/// a captured local is moved into its upvalue, any other is popped.
spec fn exit_byte(local: Local) -> u8 {
    if local.is_captured {
        opcode_byte(OpCode::CloseUpvalue)
    } else {
        opcode_byte(OpCode::Pop)
    }
}

/// Leaving scopes down to `depth` so far: `post` is a prefix of `pre`, every
/// local removed was declared deeper than `depth`, and the code gained one
/// exit instruction per removed local, innermost first.
spec fn scope_exit_so_far(
    pre: Seq<Local>,
    depth: int,
    post: Seq<Local>,
    pre_code: Seq<u8>,
    post_code: Seq<u8>,
) -> bool {
    let m = pre.len() - post.len();
    &&& 1 <= post.len() <= pre.len()
    &&& post == pre.take(post.len() as int)
    &&& forall|k: int|
        post.len() <= k < pre.len() ==> ((#[trigger] pre[k]).depth matches Some(d) && d > depth)
    &&& post_code.len() == pre_code.len() + m
    &&& forall|j: int|
        0 <= j < m ==> #[trigger] post_code[pre_code.len() + j] == exit_byte(pre[pre.len() - 1 - j])
}

/// Leaving scopes down to `depth`: as far as [`scope_exit_so_far`], and the
/// innermost local left was declared no deeper than `depth`.
spec fn scope_exit(
    pre: Seq<Local>,
    depth: int,
    post: Seq<Local>,
    pre_code: Seq<u8>,
    post_code: Seq<u8>,
) -> bool {
    &&& scope_exit_so_far(pre, depth, post, pre_code, post_code)
    &&& !(post.last().depth matches Some(d) && d > depth)
}

/// An instruction that reads a variable.
spec fn is_read_op(op: u8) -> bool {
    op == opcode_byte(OpCode::GetLocal) || op == opcode_byte(OpCode::GetUpValue) || op
        == opcode_byte(OpCode::GetGlobal)
}

/// The instruction `op` with operand `arg` reads `name`, or writes it when
/// assignment is allowed: by its slot when it is an initialized local of
/// `locals`, the innermost so named, else as an upvalue or a global.
spec fn variable_access(locals: Seq<Local>, name: Seq<char>, can_assign: bool, op: u8, arg: u8) -> bool {
    let k = last_named(locals, name, locals.len() as int);
    if k >= 0 && locals[k].depth is Some {
        &&& op == opcode_byte(OpCode::GetLocal) || (can_assign && op == opcode_byte(OpCode::SetLocal))
        &&& arg == k
    } else {
        ||| op == opcode_byte(OpCode::GetUpValue) || op == opcode_byte(OpCode::GetGlobal)
        ||| can_assign && (op == opcode_byte(OpCode::SetUpValue) || op == opcode_byte(
            OpCode::SetGlobal,
        ))
    }
}

/// Tokens that can start an expression.
spec fn starts_expression(kind: TokenKind) -> bool {
    kind == TokenKind::LeftParen || kind == TokenKind::Minus || kind == TokenKind::Bang || kind
        == TokenKind::Number || kind == TokenKind::String || kind == TokenKind::Identifier || kind
        == TokenKind::False || kind == TokenKind::True || kind == TokenKind::Nil || kind
        == TokenKind::This || kind == TokenKind::Super
}

/// Tokens that start a statement, where error recovery resumes.
spec fn starts_statement(kind: TokenKind) -> bool {
    kind == TokenKind::Class || kind == TokenKind::Fun || kind == TokenKind::Var || kind
        == TokenKind::For || kind == TokenKind::If || kind == TokenKind::While || kind
        == TokenKind::Print || kind == TokenKind::Return
}

/// Tokens of binary operators that `binary` compiles.
spec fn is_binary_token(kind: TokenKind) -> bool {
    kind == TokenKind::Plus || kind == TokenKind::Minus || kind == TokenKind::Star || kind
        == TokenKind::Slash || kind == TokenKind::EqualEqual || kind == TokenKind::BangEqual || kind
        == TokenKind::Greater || kind == TokenKind::GreaterEqual || kind == TokenKind::Less || kind
        == TokenKind::LessEqual
}

impl<'a> Compiler<'a> {
    /// Compiles an expression.
    fn expression(&mut self)
        requires
            old(self).inv(),
        ensures
            final(self).expr_step(&*old(self)),
            old(self).current.kind != TokenKind::Eof ==> final(self).measure() < old(self).measure(),
            !final(self).had_error ==> final(self).code_len() > old(self).code_len(),
            final(self).lone_number_compiled(&*old(self)),
        decreases old(self).measure(), 2int,
    {
        proof {
            reveal(Compiler::lone_number_compiled);
        }
        self.parse_precedence(Precedence::Assignment)
    }

    /// An expression that is a single number literal, followed by a token
    /// that continues no expression, compiles to one `Constant` instruction
    /// and leaves that token current.
    #[verifier::opaque]
    spec fn lone_number_compiled(&self, pre: &Self) -> bool {
        let s = pre.lexer.source_bytes();
        let p = pre.lexer.pos();
        let next = tok_kind(s, p, 0);
        pre.current.kind == TokenKind::Number && next != TokenKind::Error && infix_rank(next) == 0
            && next != TokenKind::Equal ==> {
            &&& self.current.kind == next
            &&& self.lexer.pos() == tok_end(s, p, 0)
            &&& self.top().chunk.codes@ == pre.top().chunk.codes@ + seq![
                opcode_byte(OpCode::Constant),
                self.code_at(1),
            ]
        }
    }

    /// Compiles an expression whose operators bind at least as tightly as
    /// `precedence`: a prefix expression, then every infix operator of such
    /// a precedence. Assignment is accepted only at `Assignment` level or
    /// looser.
    fn parse_precedence(&mut self, precedence: Precedence)
        requires
            old(self).inv(),
            prec_rank(precedence) >= 1,
        ensures
            final(self).expr_step(&*old(self)),
            old(self).current.kind != TokenKind::Eof ==> final(self).measure() < old(self).measure(),
            !final(self).had_error ==> final(self).code_len() > old(self).code_len(),
            ({
                let s = old(self).lexer.source_bytes();
                let p = old(self).lexer.pos();
                let next = tok_kind(s, p, 0);
                old(self).current.kind == TokenKind::Number && next != TokenKind::Error && infix_rank(
                    next,
                ) < prec_rank(precedence) && !(prec_rank(precedence) <= 1 && next
                    == TokenKind::Equal) ==> {
                    &&& final(self).current.kind == next
                    &&& final(self).lexer.pos() == tok_end(s, p, 0)
                    &&& final(self).top().chunk.codes@ == old(self).top().chunk.codes@ + seq![
                        opcode_byte(OpCode::Constant),
                        final(self).code_at(1),
                    ]
                }
            }),
        decreases old(self).measure(), 1int,
    {
        let ghost start = *self;
        let can_assign = prec_value(precedence) <= prec_value(Precedence::Assignment);
        proof {
            self.lemma_measure_bounds();
        }
        self.advance();
        proof {
            self.lemma_measure_bounds();
        }
        if self.previous.kind == TokenKind::Eof {
            self.error("Expect expression");
        } else {
            let kind = self.previous.kind;
            self.call_prefix(kind, can_assign);
        }
        let ghost before_loop = *self;
        while prec_value(precedence) <= prec_value(infix_precedence(self.current.kind))
            invariant
                prec_rank(precedence) > infix_rank(before_loop.current.kind) ==> *self
                    == before_loop,
                self.expr_step(&*old(self)),
                prec_rank(precedence) >= 1,
                old(self).current.kind != TokenKind::Eof ==> self.measure() < old(self).measure(),
                !self.had_error ==> self.code_len() > old(self).code_len(),
            decreases self.measure(),
        {
            proof {
                self.lemma_measure_bounds();
            }
            self.advance();
            proof {
                self.lemma_measure_bounds();
            }
            let kind = self.previous.kind;
            self.call_infix(kind, can_assign);
            proof {
                self.lemma_measure_bounds();
            }
        }
        proof {
            let s = start.lexer.source_bytes();
            let p = start.lexer.pos();
            if start.current.kind == TokenKind::Number && tok_kind(s, p, 0) != TokenKind::Error
                && infix_rank(tok_kind(s, p, 0)) < prec_rank(precedence) {
                assert(before_loop.current.kind == tok_kind(s, p, 0));
                assert(self.top().chunk.codes@ =~= start.top().chunk.codes@ + seq![
                    opcode_byte(OpCode::Constant),
                    self.code_at(1),
                ]);
            }
        }
        if can_assign && self.current.kind == TokenKind::Equal {
            self.error("Invalid assignment target.");
        }
    }

    /// Compiles the expression that starts with the previous token, of
    /// `kind`.
    fn call_prefix(&mut self, kind: TokenKind, can_assign: bool)
        requires
            old(self).inv(),
            old(self).previous.kind == kind,
        ensures
            final(self).expr_step(&*old(self)),
            !final(self).had_error ==> final(self).code_len() > old(self).code_len(),
            !starts_expression(kind) ==> final(self).had_error && final(self).code_len() == old(self).code_len(),
            kind == TokenKind::Number ==> final(self).lexer == old(self).lexer && final(self).current
                == old(self).current && final(self).code_len() == old(self).code_len() + 2
                && final(self).code_at(2) == opcode_byte(OpCode::Constant),
        decreases old(self).measure(), 5int,
    {
        match kind {
            TokenKind::LeftParen => self.grouping(),
            TokenKind::Minus | TokenKind::Bang => self.unary(),
            TokenKind::Number => self.number(),
            TokenKind::String => self.string(),
            TokenKind::Identifier => self.variable(can_assign),
            TokenKind::False | TokenKind::True | TokenKind::Nil => self.literal(),
            TokenKind::This => self.this_(),
            TokenKind::Super => self.super_(),
            _ => self.error("Expect expression"),
        }
    }

    /// Compiles the rest of an infix expression whose operator is the
    /// previous token, of `kind`.
    fn call_infix(&mut self, kind: TokenKind, can_assign: bool)
        requires
            old(self).inv(),
            old(self).previous.kind == kind,
        ensures
            final(self).expr_step(&*old(self)),
            is_binary_token(kind) || kind == TokenKind::And || kind == TokenKind::Or || kind
                == TokenKind::LeftParen || kind == TokenKind::Dot ==> final(self).code_len() > old(self).code_len(),
            !(is_binary_token(kind) || kind == TokenKind::And || kind == TokenKind::Or || kind
                == TokenKind::LeftParen || kind == TokenKind::Dot) ==> *final(self) == *old(self),
        decreases old(self).measure(), 5int,
    {
        match kind {
            TokenKind::Plus | TokenKind::Minus | TokenKind::Star | TokenKind::Slash
            | TokenKind::EqualEqual | TokenKind::BangEqual | TokenKind::Greater
            | TokenKind::GreaterEqual | TokenKind::Less | TokenKind::LessEqual => self.binary(),
            TokenKind::And => self.and_expr(),
            TokenKind::Or => self.or_expr(),
            TokenKind::LeftParen => self.call(),
            TokenKind::Dot => self.dot(can_assign),
            _ => {},
        }
    }

    fn grouping(&mut self)
        requires
            old(self).inv(),
        ensures
            final(self).expr_step(&*old(self)),
            !final(self).had_error ==> final(self).previous.kind == TokenKind::RightParen
                && final(self).code_len() > old(self).code_len(),
        decreases old(self).measure(), 3int,
    {
        self.expression();
        self.consume(TokenKind::RightParen, "Expect ')' after expression.");
    }

    /// A number literal becomes a number object holding its text, named by
    /// a constant.
    fn number(&mut self)
        requires
            old(self).inv(),
        ensures
            final(self).expr_step(&*old(self)),
            final(self).heap.objects@ == old(self).heap.objects@.push(
                Object::Number(old(self).previous.lexeme),
            ),
            final(self).code_len() == old(self).code_len() + 2,
            final(self).code_at(2) == opcode_byte(OpCode::Constant),
            !final(self).had_error ==> final(self).code_at(1) + 1
                == final(self).top().chunk.constants@.len() && final(self).top().chunk.constants@.last().0
                == (SIGN_BIT | QNAN | (old(self).heap.objects@.len() as u64)),
            final(self).lexer == old(self).lexer,
            final(self).current == old(self).current,
    {
        let h = self.heap.objects.len() as u64;
        let text = self.previous.lexeme.clone();
        let ghost pre = self.heap;
        let ghost before = *self;
        self.heap.objects.push(Object::Number(text));
        proof {
            assert(self.same_constants(&before));
            self.lemma_kept_frame(&before, h as int);
            lemma_function_handles_prefix(
                self.heap.objects@,
                before.heap.objects@,
                self.base@,
                before.heap.objects@.len() as int,
            );
            assert forall|i: int| 0 <= i < self.heap.strings@.len() implies ({
                let (s, h) = #[trigger] self.heap.strings@[i];
                &&& h < self.heap.objects@.len()
                &&& self.heap.objects@[h as int] matches Object::String(t) && t@ == s@
            }) by {
                let (s, h) = pre.strings@[i];
                assert(pre.objects@[h as int] == self.heap.objects@[h as int]);
            }
            assert forall|i: int| 0 <= i < self.heap.objects@.len() implies (
            #[trigger] self.heap.objects@[i] matches Object::Function { chunk, .. } ==> chunk.wf()
                && chunk.constants@.len() <= 256) by {
                if i < pre.objects@.len() {
                    assert(pre.objects@[i] == self.heap.objects@[i]);
                }
            }
        }
        self.emit_constant(Value::from_obj(h), Ghost(h as int));
    }

    /// A string literal becomes the interned string of its text without the
    /// quotes, named by a constant.
    fn string(&mut self)
        requires
            old(self).inv(),
        ensures
            final(self).expr_step(&*old(self)),
            final(self).code_len() == old(self).code_len() + 2,
            final(self).code_at(2) == opcode_byte(OpCode::Constant),
            !final(self).had_error ==> final(self).code_at(1) + 1
                == final(self).top().chunk.constants@.len() && final(self).heap.names_string(
                final(self).top().chunk.constants@.last(),
                decode_utf8(unquoted(encode_utf8(old(self).previous.lexeme@))),
            ),
    {
        let text = unquote(self.previous.lexeme.as_str());
        let ghost chars = text@;
        let h = self.intern_string(text);
        let value = Value::from_obj(h);
        self.emit_constant(value, Ghost(h as int));
        proof {
            if !self.had_error {
                assert(self.heap.names_string(value, chars)) by {
                    assert(value.0 == (SIGN_BIT | QNAN | h));
                }
            }
        }
    }

    fn variable(&mut self, can_assign: bool)
        requires
            old(self).inv(),
        ensures
            final(self).expr_step(&*old(self)),
            final(self).code_len() >= old(self).code_len() + 2,
            variable_access(
                old(self).top().locals@,
                old(self).previous.lexeme@,
                can_assign,
                final(self).code_at(2),
                final(self).code_at(1),
            ),
        decreases old(self).measure(), 4int,
    {
        let name = Token {
            kind: self.previous.kind,
            lexeme: self.previous.lexeme.clone(),
            line: self.previous.line,
        };
        self.named_variable(name, can_assign)
    }

    /// Reads the variable `name`, or assigns to it when assignment is
    /// allowed and `=` follows: a local by its slot, a captured variable by
    /// its upvalue, anything else as a global by its name.
    fn named_variable(&mut self, name: Token, can_assign: bool)
        requires
            old(self).inv(),
        ensures
            final(self).expr_step(&*old(self)),
            final(self).code_len() >= old(self).code_len() + 2,
            variable_access(old(self).top().locals@, name.lexeme@, can_assign, final(self).code_at(2), final(self).code_at(1)),
        decreases old(self).measure(), 3int,
    {
        let get_op: u8;
        let set_op: u8;
        let arg: u8;
        proof {
            let locals = self.top().locals@;
            lemma_last_named_bound(locals, name.lexeme@, locals.len() as int);
            assert(self.contexts@[self.contexts@.len() - 1].ok(self.len() + 1 - self.measure()));
        }
        match self.resolve_local(&name) {
            Some(slot) => {
                get_op = u8::from(OpCode::GetLocal);
                set_op = u8::from(OpCode::SetLocal);
                arg = slot;
            },
            None => {
                match self.resolve_upvalue(&name) {
                    Some(upvalue) => {
                        get_op = u8::from(OpCode::GetUpValue);
                        set_op = u8::from(OpCode::SetUpValue);
                        arg = upvalue;
                    },
                    None => {
                        arg = self.identifier_constant(name);
                        get_op = u8::from(OpCode::GetGlobal);
                        set_op = u8::from(OpCode::SetGlobal);
                    },
                }
            },
        }
        if can_assign && self.peek_match(TokenKind::Equal) {
            proof {
                self.lemma_measure_bounds();
            }
            self.expression();
            self.emit_bytes(set_op, arg);
        } else {
            self.emit_bytes(get_op, arg);
        }
    }

    fn literal(&mut self)
        requires
            old(self).inv(),
            old(self).previous.kind == TokenKind::False || old(self).previous.kind
                == TokenKind::True || old(self).previous.kind == TokenKind::Nil,
        ensures
            final(self).expr_step(&*old(self)),
            final(self).top().chunk.codes@ == old(self).top().chunk.codes@.push(
                literal_code(old(self).previous.kind),
            ),
    {
        match self.previous.kind {
            TokenKind::False => self.emit_byte(u8::from(OpCode::False)),
            TokenKind::True => self.emit_byte(u8::from(OpCode::True)),
            _ => self.emit_byte(u8::from(OpCode::Nil)),
        }
    }

    fn unary(&mut self)
        requires
            old(self).inv(),
            old(self).previous.kind == TokenKind::Minus || old(self).previous.kind
                == TokenKind::Bang,
        ensures
            final(self).expr_step(&*old(self)),
            final(self).code_len() > old(self).code_len(),
            final(self).code_at(1) == if old(self).previous.kind == TokenKind::Minus {
                opcode_byte(OpCode::Negate)
            } else {
                opcode_byte(OpCode::Not)
            },
            ({
                let s = old(self).lexer.source_bytes();
                let p = old(self).lexer.pos();
                let next = tok_kind(s, p, 0);
                old(self).current.kind == TokenKind::Number && next != TokenKind::Error && next
                    != TokenKind::LeftParen && next != TokenKind::Dot ==> {
                    &&& final(self).current.kind == next
                    &&& final(self).lexer.pos() == tok_end(s, p, 0)
                    &&& final(self).top().chunk.codes@ == old(self).top().chunk.codes@ + seq![
                        opcode_byte(OpCode::Constant),
                        final(self).code_at(2),
                        final(self).code_at(1),
                    ]
                }
            }),
        decreases old(self).measure(), 2int,
    {
        let kind = self.previous.kind;
        self.parse_precedence(Precedence::Unary);
        match kind {
            TokenKind::Minus => self.emit_byte(u8::from(OpCode::Negate)),
            _ => self.emit_byte(u8::from(OpCode::Not)),
        }
    }

    /// Compiles the right operand of the binary operator that is the
    /// previous token, one level tighter than the operator, then the
    /// operator's instructions.
    fn binary(&mut self)
        requires
            old(self).inv(),
            is_binary_token(old(self).previous.kind),
        ensures
            final(self).expr_step(&*old(self)),
            ({
                let tail = binary_code(old(self).previous.kind);
                &&& final(self).code_len() >= old(self).code_len() + tail.len()
                &&& forall|j: int|
                    0 <= j < tail.len() ==> final(self).code_at(tail.len() - j) == #[trigger] tail[j]
            }),
        decreases old(self).measure(), 2int,
    {
        let kind = self.previous.kind;
        self.parse_precedence(prec_next(infix_precedence(kind)));
        match kind {
            TokenKind::Plus => self.emit_byte(u8::from(OpCode::Add)),
            TokenKind::Minus => self.emit_byte(u8::from(OpCode::Subtract)),
            TokenKind::Star => self.emit_byte(u8::from(OpCode::Multiply)),
            TokenKind::Slash => self.emit_byte(u8::from(OpCode::Divide)),
            TokenKind::BangEqual => self.emit_bytes(u8::from(OpCode::Equal), u8::from(OpCode::Not)),
            TokenKind::EqualEqual => self.emit_byte(u8::from(OpCode::Equal)),
            TokenKind::Greater => self.emit_byte(u8::from(OpCode::Greater)),
            TokenKind::GreaterEqual => self.emit_bytes(
                u8::from(OpCode::Less),
                u8::from(OpCode::Not),
            ),
            TokenKind::Less => self.emit_byte(u8::from(OpCode::Less)),
            _ => self.emit_bytes(u8::from(OpCode::Greater), u8::from(OpCode::Not)),
        }
    }

    /// `and`: when the left operand is false it is the result, otherwise it
    /// is popped and the right operand is the result.
    fn and_expr(&mut self)
        requires
            old(self).inv(),
        ensures
            final(self).expr_step(&*old(self)),
            final(self).code_len() >= old(self).code_len() + 4,
            final(self).top().chunk.codes@[old(self).code_len()] == opcode_byte(OpCode::JumpIfFalse),
            final(self).top().chunk.codes@[old(self).code_len() + 3] == opcode_byte(OpCode::Pop),
            !final(self).had_error ==> short_at(final(self).top().chunk.codes@, old(self).code_len() + 1)
                == final(self).code_len() - old(self).code_len() - 3,
        decreases old(self).measure(), 2int,
    {
        let end_jump = self.emit_jump(OpCode::JumpIfFalse);
        self.emit_byte(u8::from(OpCode::Pop));
        self.parse_precedence(Precedence::And);
        self.patch_jump(end_jump);
    }

    /// `or`: when the left operand is true it is the result, otherwise it is
    /// popped and the right operand is the result.
    fn or_expr(&mut self)
        requires
            old(self).inv(),
        ensures
            final(self).expr_step(&*old(self)),
            final(self).code_len() >= old(self).code_len() + 7,
            final(self).top().chunk.codes@[old(self).code_len()] == opcode_byte(OpCode::JumpIfFalse),
            final(self).top().chunk.codes@[old(self).code_len() + 3] == opcode_byte(OpCode::Jump),
            final(self).top().chunk.codes@[old(self).code_len() + 6] == opcode_byte(OpCode::Pop),
            !final(self).had_error ==> short_at(final(self).top().chunk.codes@, old(self).code_len() + 1)
                == 3,
            !final(self).had_error ==> short_at(final(self).top().chunk.codes@, old(self).code_len() + 4)
                == final(self).code_len() - old(self).code_len() - 6,
        decreases old(self).measure(), 2int,
    {
        let else_jump = self.emit_jump(OpCode::JumpIfFalse);
        let end_jump = self.emit_jump(OpCode::Jump);
        self.patch_jump(else_jump);
        self.emit_byte(u8::from(OpCode::Pop));
        self.parse_precedence(Precedence::Or);
        self.patch_jump(end_jump);
    }

    fn call(&mut self)
        requires
            old(self).inv(),
        ensures
            final(self).expr_step(&*old(self)),
            final(self).code_len() >= old(self).code_len() + 2,
            final(self).code_at(2) == opcode_byte(OpCode::Call),
            !final(self).had_error ==> final(self).previous.kind == TokenKind::RightParen,
        decreases old(self).measure(), 4int,
    {
        let (arg_count, _) = self.argument_list();
        self.emit_bytes(u8::from(OpCode::Call), arg_count);
    }

    /// Compiles the arguments of a call up to its `)`, and returns their
    /// number, with the exact number as a ghost; more than 255 is an error
    /// (the count then wraps).
    fn argument_list(&mut self) -> (r: (u8, Ghost<nat>))
        requires
            old(self).inv(),
        ensures
            final(self).expr_step(&*old(self)),
            !final(self).had_error ==> final(self).previous.kind == TokenKind::RightParen,
            old(self).current.kind == TokenKind::RightParen ==> r.1@ == 0,
            old(self).current.kind != TokenKind::RightParen ==> r.1@ >= 1,
            r.0 == r.1@ % 256,
            r.1@ > 255 ==> final(self).had_error,
            old(self).current.kind == TokenKind::RightParen ==> r.0 == 0 && final(self).contexts
                == old(self).contexts && final(self).heap == old(self).heap,
        decreases old(self).measure(), 3int,
    {
        let mut count: u8 = 0;
        let ghost mut n: nat = 0;
        if self.current.kind != TokenKind::RightParen {
            loop
                invariant
                    self.expr_step(&*old(self)),
                    count == n % 256,
                    n > 255 ==> self.had_error,
                ensures
                    self.expr_step(&*old(self)),
                    count == n % 256,
                    n > 255 ==> self.had_error,
                    n >= 1,
                decreases self.measure(),
            {
                proof {
                    self.lemma_measure_bounds();
                }
                self.expression();
                if count == u8::MAX {
                    self.error("Can't have more than 255 arguments.");
                }
                count = count.wrapping_add(1);
                proof {
                    n = n + 1;
                }
                if !self.peek_match(TokenKind::Comma) {
                    break;
                }
                proof {
                    self.lemma_measure_bounds();
                }
            }
        }
        self.consume(TokenKind::RightParen, "Expect ')' after arguments.");
        (count, Ghost(n))
    }
}

// ---------------------------------------------------------------------------
// Declarations and statements
// ---------------------------------------------------------------------------

impl<'a> Compiler<'a> {
    /// A block that opens by declaring the same name twice, `{ var x; var
    /// x;`, has been reported: a name may be declared once per scope.
    #[verifier::opaque]
    spec fn block_redeclaration_reported(&self, pre: &Self) -> bool {
        let s = pre.lexer.source_bytes();
        let p = pre.lexer.pos();
        let name = scan_text(s, tok_start(s, p, 1));
        pre.current.kind == TokenKind::LeftBrace && tok_kind(s, p, 0) == TokenKind::Var
            && tok_kind(s, p, 1) == TokenKind::Identifier && tok_kind(s, p, 2)
            == TokenKind::Semicolon && tok_kind(s, p, 3) == TokenKind::Var && tok_kind(s, p, 4)
            == TokenKind::Identifier && scan_text(s, tok_start(s, p, 4)) == name
            && pre.top().locals@.len() < 255 && (pre.top().locals@.last().depth matches Some(
            dd,
        ) && dd <= pre.top().scope_depth) ==> self.had_error
    }

    /// A `return` met outside of any function has been reported.
    #[verifier::opaque]
    spec fn top_level_return_reported(&self, pre: &Self) -> bool {
        pre.current.kind == TokenKind::Return && pre.top().function_kind == FunctionKind::Script
            ==> self.had_error
    }

    /// Compiles a declaration: a variable, a function or a statement. After
    /// an error the parser skips to the next statement boundary.
    fn declaration(&mut self)
        requires
            old(self).inv(),
        ensures
            final(self).step(&*old(self)),
            old(self).current.kind != TokenKind::Eof ==> final(self).measure() < old(self).measure(),
            ({
                let s = old(self).lexer.source_bytes();
                let p = old(self).lexer.pos();
                old(self).current.kind == TokenKind::Var && tok_kind(s, p, 0)
                    == TokenKind::Identifier && tok_kind(s, p, 1) == TokenKind::Semicolon
                    && tok_kind(s, p, 2) != TokenKind::Error && old(self).top().scope_depth == 0
                    && old(self).top().chunk.constants@.len() < 255 && !old(self).panic_mode ==> {
                    &&& final(self).top().chunk.codes@ == old(self).top().chunk.codes@ + seq![
                        opcode_byte(OpCode::Nil),
                        opcode_byte(OpCode::DefineGlobal),
                        old(self).top().chunk.constants@.len() as u8,
                    ]
                    &&& final(self).top().chunk.constants@.len() == old(
                        self,
                    ).top().chunk.constants@.len() + 1
                    &&& final(self).had_error == old(self).had_error
                    &&& !final(self).panic_mode
                    &&& final(self).current.kind == tok_kind(s, p, 2)
                    &&& final(self).lexer.pos() == tok_end(s, p, 2)
                }
            }),
            old(self).current.kind == TokenKind::Return && old(self).top().function_kind
                == FunctionKind::Script ==> final(self).had_error,
            final(self).block_redeclaration_reported(&*old(self)),
            ({
                let s = old(self).lexer.source_bytes();
                let p = old(self).lexer.pos();
                let d = old(self).top().scope_depth as int;
                let name = scan_text(s, tok_start(s, p, 0));
                old(self).current.kind == TokenKind::Var && tok_kind(s, p, 0)
                    == TokenKind::Identifier && d > 0 ==> {
                    &&& declared_in_scope(old(self).top().locals@, name, d)
                        ==> final(self).had_error
                    &&& !declared_in_scope(old(self).top().locals@, name, d) && old(
                        self,
                    ).top().locals@.len() < 255 && tok_kind(s, p, 1) == TokenKind::Semicolon
                        && tok_kind(s, p, 2) != TokenKind::Error && !old(self).had_error ==> {
                        &&& final(self).top().locals@.len() == old(self).top().locals@.len() + 1
                        &&& final(self).top().locals@.last().name.lexeme@ == name
                        &&& final(self).top().locals@.last().depth == Some(
                            old(self).top().scope_depth,
                        )
                        &&& !final(self).had_error
                        &&& final(self).current.kind == tok_kind(s, p, 2)
                        &&& final(self).lexer.pos() == tok_end(s, p, 2)
                    }
                }
            }),
        decreases old(self).measure(), 5int,
    {
        proof {
            let s = self.lexer.source_bytes();
            let p = self.lexer.pos();
            lemma_tok_shift(s, p, 0);
            lemma_tok_shift(s, p, 1);
            reveal(Compiler::top_level_return_reported);
            reveal(Compiler::block_redeclaration_reported);
        }
        proof {
            self.lemma_measure_bounds();
        }
        if self.peek_match(TokenKind::Class) {
            proof {
                self.lemma_measure_bounds();
            }
            self.class_declaration();
        } else if self.peek_match(TokenKind::Var) {
            proof {
                self.lemma_measure_bounds();
            }
            self.var_declaration();
        } else if self.peek_match(TokenKind::Fun) {
            proof {
                self.lemma_measure_bounds();
            }
            self.fun_declaration();
        } else {
            self.statement();
        }
        if self.panic_mode {
            self.synchronize();
        }
    }

    /// `var name [= initializer];`: without an initializer the variable is
    /// `nil`.
    fn var_declaration(&mut self)
        requires
            old(self).inv(),
        ensures
            final(self).step(&*old(self)),
            !final(self).had_error ==> final(self).code_len() > old(self).code_len(),
            old(self).top().scope_depth == 0 ==> final(self).code_len() >= old(self).code_len() + 2
                && final(self).code_at(2) == opcode_byte(OpCode::DefineGlobal),
            old(self).top().scope_depth > 0 ==> final(self).top().locals@.last().depth == Some(
                old(self).top().scope_depth,
            ),
            ({
                let s = old(self).lexer.source_bytes();
                let p = old(self).lexer.pos();
                old(self).current.kind == TokenKind::Identifier && tok_kind(s, p, 0)
                    == TokenKind::Semicolon && tok_kind(s, p, 1) != TokenKind::Error && old(
                    self,
                ).top().scope_depth == 0 && old(self).top().chunk.constants@.len() < 255 ==> {
                    &&& final(self).top().chunk.codes@ == old(self).top().chunk.codes@ + seq![
                        opcode_byte(OpCode::Nil),
                        opcode_byte(OpCode::DefineGlobal),
                        old(self).top().chunk.constants@.len() as u8,
                    ]
                    &&& final(self).top().chunk.constants@.len() == old(
                        self,
                    ).top().chunk.constants@.len() + 1
                    &&& final(self).had_error == old(self).had_error
                    &&& final(self).panic_mode == old(self).panic_mode
                    &&& final(self).current.kind == tok_kind(s, p, 1)
                    &&& final(self).lexer.pos() == tok_end(s, p, 1)
                }
            }),
            old(self).current.kind == TokenKind::Identifier && old(self).top().scope_depth > 0
                && declared_in_scope(
                old(self).top().locals@,
                old(self).current.lexeme@,
                old(self).top().scope_depth as int,
            ) ==> final(self).had_error,
            ({
                let s = old(self).lexer.source_bytes();
                let p = old(self).lexer.pos();
                old(self).current.kind == TokenKind::Identifier && old(self).top().scope_depth > 0
                    && !declared_in_scope(
                    old(self).top().locals@,
                    old(self).current.lexeme@,
                    old(self).top().scope_depth as int,
                ) && old(self).top().locals@.len() < 255 && tok_kind(s, p, 0)
                    == TokenKind::Semicolon && tok_kind(s, p, 1) != TokenKind::Error
                    ==> {
                    &&& final(self).top().locals@.drop_last() == old(self).top().locals@
                    &&& final(self).top().locals@.len() == old(self).top().locals@.len() + 1
                    &&& final(self).top().locals@.last().name == old(self).current
                    &&& final(self).top().locals@.last().depth == Some(old(self).top().scope_depth)
                    &&& final(self).had_error == old(self).had_error
                    &&& final(self).current.kind == tok_kind(s, p, 1)
                    &&& final(self).current.lexeme@ == scan_text(s, tok_start(s, p, 1))
                    &&& final(self).lexer.pos() == tok_end(s, p, 1)
                }
            }),
        decreases old(self).measure(), 4int,
    {
        let global = self.parse_variable("Expect variable name.");
        if self.peek_match(TokenKind::Equal) {
            proof {
                self.lemma_measure_bounds();
            }
            self.expression();
        } else {
            self.emit_byte(u8::from(OpCode::Nil));
        }
        self.consume(TokenKind::Semicolon, "Expect ';' after variable declaration");
        self.define_variable(global);
    }

    /// `fun name(params) { body }`: the name is initialized before the body
    /// is compiled, so the function can call itself.
    fn fun_declaration(&mut self)
        requires
            old(self).inv(),
            old(self).measure() <= old(self).len(),
        ensures
            final(self).step(&*old(self)),
            final(self).heap.objects@.len() > old(self).heap.objects@.len(),
            exists|p: int|
                old(self).code_len() <= p && p + 2 <= final(self).code_len()
                    && #[trigger] final(self).top().chunk.codes@[p] == opcode_byte(OpCode::Closure),
            old(self).top().scope_depth == 0 ==> final(self).code_len() >= old(self).code_len() + 2
                && final(self).code_at(2) == opcode_byte(OpCode::DefineGlobal),
            old(self).top().scope_depth > 0 ==> final(self).top().locals@.last().depth == Some(
                old(self).top().scope_depth,
            ),
        decreases old(self).measure(), 8int,
    {
        let global = self.parse_variable("Expect function name.");
        self.mark_initialized();
        proof {
            self.lemma_measure_bounds();
        }
        let ghost before = *self;
        let _ = self.function(FunctionKind::Function);
        let ghost p = choose|p: int|
            before.code_len() <= p && p + 2 <= self.code_len() && #[trigger] self.top().chunk.codes@[p]
                == opcode_byte(OpCode::Closure);
        self.define_variable(global);
        proof {
            assert(self.top().chunk.codes@[p] == opcode_byte(OpCode::Closure));
        }
    }

    /// Compiles a function's parameters and body into a function of its
    /// own, then emits a `Closure` of it in the enclosing function, followed
    /// by one (is_local, index) byte pair per captured variable.
    fn function(&mut self, kind: FunctionKind) -> (params: Ghost<nat>)
        requires
            old(self).inv(),
            old(self).measure() <= old(self).len(),
        ensures
            final(self).step(&*old(self)),
            final(self).top().locals@.len() == old(self).top().locals@.len(),
            old(self).current.kind != TokenKind::Eof && old(self).current.kind != TokenKind::RightBrace
                ==> final(self).measure() < old(self).measure(),
            final(self).heap.objects@.len() > old(self).heap.objects@.len(),
            exists|p: int|
                old(self).code_len() <= p && p + 2 <= final(self).code_len()
                    && #[trigger] final(self).top().chunk.codes@[p] == opcode_byte(OpCode::Closure),
            exists|p: int, f: int|
                #![trigger final(self).top().chunk.codes@[p], final(self).heap.objects@[f]]
                old(self).code_len() <= p && old(self).heap.objects@.len() <= f && closure_of(
                    final(self).top().chunk.codes@,
                    p,
                    final(self).heap.objects@,
                    f,
                    final(self).closed_upvalues@,
                ) && (kind != FunctionKind::Script ==> (final(self).heap.objects@[f] matches Object::Function { name, .. }
                    && name@ == old(self).previous.lexeme@)) && (final(self).heap.objects@[f] matches Object::Function { arity, chunk, .. }
                    && arity == params@ && chunk.codes@.len() >= implicit_return(kind).len()
                    && chunk.codes@.subrange(
                    chunk.codes@.len() - implicit_return(kind).len(),
                    chunk.codes@.len() as int,
                ) == implicit_return(kind)) && (!final(self).had_error
                    ==> final(self).top().chunk.constants@[final(self).top().chunk.codes@[p + 1] as int].0
                    == (SIGN_BIT | QNAN | (f as u64))),
        decreases old(self).measure(), 7int,
    {
        proof {
            self.lemma_measure_bounds();
        }
        self.push_context(kind);
        self.begin_scope();
        let ghost scoped = *self;
        self.consume(TokenKind::LeftParen, "Expect '(' after function name.");
        let ghost mut n: nat = 0;
        if self.current.kind != TokenKind::RightParen {
            loop
                invariant_except_break
                    self.top().arity < self.room(),
                invariant
                    self.top().arity == n,
                    self.progress(&scoped),
                    self.measure() <= old(self).measure(),
                    self.measure() < old(self).measure() || self.current == old(self).current,
                ensures
                    self.top().arity == n,
                    self.progress(&scoped),
                    self.measure() <= old(self).measure(),
                    self.measure() < old(self).measure() || self.current == old(self).current,
                decreases self.measure(),
            {
                proof {
                    self.lemma_measure_bounds();
                }
                let last = self.contexts.len() - 1;
                let ghost prev = *self;
                self.contexts[last].arity = self.contexts[last].arity + 1;
                proof {
                    n = n + 1;
                    assert(self.contexts@.drop_last() =~= prev.contexts@.drop_last());
                    self.lemma_outer_frame(&prev);
                    self.lemma_same_constants(&prev);
                    self.lemma_kept_frame(&prev, -1);
                    assert forall|i: int| 0 <= i < self.contexts@.len() implies (
                    #[trigger] self.contexts@[i]).ok(self.room()) by {
                        assert(prev.contexts@[i].ok(prev.room()));
                    }
                }
                if self.contexts[last].arity > u8::MAX as usize {
                    self.error_at_current("can't have more than 255 parameters.");
                }
                let constant = self.parse_variable("expect parameter name.");
                self.define_variable(constant);
                if !self.peek_match(TokenKind::Comma) {
                    break;
                }
                proof {
                    self.lemma_measure_bounds();
                }
            }
        }
        self.consume(TokenKind::RightParen, "Expect ')' after parameters.");
        self.consume(TokenKind::LeftBrace, "Expect '{' before function body.");
        proof {
            self.lemma_measure_bounds();
        }
        self.block();
        let ghost before_end = *self;
        let (function, upvalues) = self.end_compiler();
        proof {
            let k = old(self).contexts@.len() - 1;
            assert(scoped.contexts@[k] == old(self).contexts@[k]);
            assert(ctx_frame(before_end.contexts@[k], scoped.contexts@[k]));
            assert(self.contexts@[k] == before_end.contexts@[k]);
            assert forall|i: int| 0 <= i < old(self).contexts@.len() - 1 implies ctx_frame(
                self.contexts@[i],
                #[trigger] old(self).contexts@[i],
            ) by {
                assert(scoped.contexts@[i] == old(self).contexts@[i]);
                assert(ctx_frame(before_end.contexts@[i], scoped.contexts@[i]));
                assert(self.contexts@[i] == before_end.contexts@[i]);
            }
        }
        let constant = self.make_constant(Value::from_obj(function), Ghost(function as int));
        proof {
            assert(self.step(&*old(self)));
        }
        let ghost p = self.code_len();
        self.emit_bytes(u8::from(OpCode::Closure), constant);
        proof {
            assert(self.top().chunk.codes@[p + 1] == constant);
        }
        let mut i: usize = 0;
        while i < upvalues.len()
            invariant
                self.step(&*old(self)),
                self.top().locals@.len() == old(self).top().locals@.len(),
                old(self).current.kind != TokenKind::Eof && old(self).current.kind
                    != TokenKind::RightBrace ==> self.measure() < old(self).measure(),
                self.heap.objects@.len() > old(self).heap.objects@.len(),
                old(self).code_len() <= p && p + 2 <= self.code_len(),
                self.top().chunk.codes@[p] == opcode_byte(OpCode::Closure),
                self.code_len() == p + 2 + 2 * i,
                i <= upvalues@.len(),
                upvalues@ == self.closed_upvalues@,
                (self.heap.objects@[function as int] matches Object::Function { upvalue_count, .. }
                    && upvalue_count == upvalues@.len()),
                kind != FunctionKind::Script ==> (self.heap.objects@[function as int] matches Object::Function { name, .. }
                    && name@ == old(self).previous.lexeme@),
                old(self).heap.objects@.len() <= function < self.heap.objects@.len(),
                (self.heap.objects@[function as int] matches Object::Function { arity, chunk, .. }
                    && arity == n && chunk.codes@.len() >= implicit_return(kind).len()
                    && chunk.codes@.subrange(
                    chunk.codes@.len() - implicit_return(kind).len(),
                    chunk.codes@.len() as int,
                ) == implicit_return(kind)),
                self.top().chunk.codes@[p + 1] == constant,
                !self.had_error ==> self.top().chunk.constants@[constant as int].0 == (SIGN_BIT | QNAN
                    | function),
                forall|j: int| 0 <= j < i ==> upvalue_pair(self.top().chunk.codes@, p, #[trigger] upvalues@[j], j),
            decreases upvalues@.len() - i,
        {
            let uv = upvalues[i];
            let ghost before = self.top().chunk.codes@;
            self.emit_byte(if uv.is_local { 1 } else { 0 });
            self.emit_byte(uv.index as u8);
            proof {
                assert forall|j: int| 0 <= j < i + 1 implies upvalue_pair(self.top().chunk.codes@, p, #[trigger] upvalues@[j], j) by {
                    if j < i {
                        assert(upvalue_pair(before, p, upvalues@[j], j));
                    }
                }
            }
            i = i + 1;
        }
        proof {
            assert(closure_of(self.top().chunk.codes@, p, self.heap.objects@, function as int, self.closed_upvalues@));
        }
        Ghost(n)
    }

    /// Compiles a statement.
    fn statement(&mut self)
        requires
            old(self).inv(),
        ensures
            final(self).step(&*old(self)),
            old(self).current.kind != TokenKind::Eof ==> final(self).measure() < old(self).measure(),
            final(self).top_level_return_reported(&*old(self)),
            final(self).block_redeclaration_reported(&*old(self)),
        decreases old(self).measure(), 4int,
    {
        proof {
            self.lemma_measure_bounds();
            reveal(Compiler::top_level_return_reported);
            reveal(Compiler::block_redeclaration_reported);
            let s = self.lexer.source_bytes();
            let p = self.lexer.pos();
            lemma_tok_shift(s, p, 0);
            lemma_tok_shift(s, p, 1);
            lemma_tok_shift(s, p, 2);
            lemma_tok_shift(s, p, 3);
            let locals = self.top().locals@;
            let d = self.top().scope_depth as int;
            if locals.len() >= 1 && (locals.last().depth matches Some(dd) && dd <= d) {
                assert forall|name: Seq<char>| !#[trigger] declared_in_scope(locals, name, d + 1) by {
                    if declared_in_scope(locals, name, d + 1) {
                        let k = choose|k: int|
                            0 <= k < locals.len() && (#[trigger] locals[k]).name.lexeme@ == name
                                && forall|j: int|
                                k <= j < locals.len() ==> !((#[trigger] locals[j]).depth matches Some(
                                    e,
                                ) && e < d + 1);
                        assert(locals[locals.len() - 1] == locals.last());
                    }
                }
            }
        }
        match self.current.kind {
            TokenKind::Print => {
                self.advance();
                proof {
                    self.lemma_measure_bounds();
                }
                self.print_statement();
            },
            TokenKind::If => {
                self.advance();
                proof {
                    self.lemma_measure_bounds();
                }
                self.if_statement();
            },
            TokenKind::While => {
                self.advance();
                proof {
                    self.lemma_measure_bounds();
                }
                self.while_statement();
            },
            TokenKind::For => {
                self.advance();
                proof {
                    self.lemma_measure_bounds();
                }
                let _ = self.for_statement();
            },
            TokenKind::Return => {
                self.advance();
                proof {
                    self.lemma_measure_bounds();
                }
                self.return_statement();
            },
            TokenKind::LeftBrace => {
                self.advance();
                proof {
                    self.lemma_measure_bounds();
                }
                self.begin_scope();
                self.block();
                self.end_scope();
            },
            _ => self.expression_statement(),
        }
    }

    /// Compiles declarations up to the `}` that closes a block.
    fn block(&mut self)
        requires
            old(self).inv(),
        ensures
            final(self).step(&*old(self)),
            old(self).current.kind != TokenKind::Eof && old(self).current.kind != TokenKind::RightBrace
                ==> final(self).measure() < old(self).measure(),
            ({
                let s = old(self).lexer.source_bytes();
                let p = old(self).lexer.pos();
                let d = old(self).top().scope_depth as int;
                let name = scan_text(s, tok_start(s, p, 0));
                old(self).current.kind == TokenKind::Var && tok_kind(s, p, 0)
                    == TokenKind::Identifier && tok_kind(s, p, 1) == TokenKind::Semicolon
                    && tok_kind(s, p, 2) == TokenKind::Var && tok_kind(s, p, 3)
                    == TokenKind::Identifier && scan_text(s, tok_start(s, p, 3)) == name && d > 0
                    && old(self).top().locals@.len() < 255 && !declared_in_scope(
                    old(self).top().locals@,
                    name,
                    d,
                ) ==> final(self).had_error
            }),
        decreases old(self).measure(), 6int,
    {
        let ghost s = self.lexer.source_bytes();
        let ghost p = self.lexer.pos();
        let ghost d = self.top().scope_depth as int;
        let ghost name = scan_text(s, tok_start(s, p, 0));
        let ghost twice = self.current.kind == TokenKind::Var && tok_kind(s, p, 0)
            == TokenKind::Identifier && tok_kind(s, p, 1) == TokenKind::Semicolon && tok_kind(s, p, 2)
            == TokenKind::Var && tok_kind(s, p, 3) == TokenKind::Identifier && scan_text(
            s,
            tok_start(s, p, 3),
        ) == name && d > 0 && self.top().locals@.len() < 255 && !declared_in_scope(
            self.top().locals@,
            name,
            d,
        );
        proof {
            lemma_tok_shift_from(s, p, 2, 0);
        }
        while self.current.kind != TokenKind::RightBrace && self.current.kind != TokenKind::Eof
            invariant
                self.step(&*old(self)),
                self.measure() <= old(self).measure(),
                self.measure() < old(self).measure() || self.current == old(self).current,
                s == old(self).lexer.source_bytes(),
                p == old(self).lexer.pos(),
                d == old(self).top().scope_depth,
                name == scan_text(s, tok_start(s, p, 0)),
                twice ==> old(self).current.kind == TokenKind::Var && tok_kind(s, p, 0)
                    == TokenKind::Identifier && tok_kind(s, p, 1) == TokenKind::Semicolon
                    && old(self).top().locals@.len() < 255 && !declared_in_scope(
                    old(self).top().locals@,
                    name,
                    d,
                ),
                twice ==> tok_kind(s, p, 2) == TokenKind::Var && tok_kind(s, p, 3)
                    == TokenKind::Identifier && scan_text(s, tok_start(s, p, 3)) == name && d > 0
                    && tok_start(s, tok_end(s, p, 2), 0) == tok_start(s, p, 3),
                twice ==> *self == *old(self) || self.had_error || (self.current.kind
                    == TokenKind::Var && self.lexer.pos() == tok_end(s, p, 2)
                    && self.top().locals@.len() >= 1 && self.top().locals@.last().name.lexeme@
                    == name && self.top().locals@.last().depth == Some(d as usize)),
            decreases self.measure(),
        {
            proof {
                self.lemma_measure_bounds();
            }
            proof {
                if twice && !(*self == *old(self)) && !self.had_error {
                    let locals = self.top().locals@;
                    assert(locals[locals.len() - 1] == locals.last());
                    assert(declared_in_scope(locals, name, d));
                }
            }
            self.declaration();
            proof {
                self.lemma_measure_bounds();
            }
        }
        self.consume(TokenKind::RightBrace, "Expect '}' after block.");
    }

    fn print_statement(&mut self)
        requires
            old(self).inv(),
        ensures
            final(self).step(&*old(self)),
            final(self).code_len() > old(self).code_len(),
            final(self).code_at(1) == opcode_byte(OpCode::Print),
        decreases old(self).measure(), 3int,
    {
        self.expression();
        self.consume(TokenKind::Semicolon, "Expect ';' after value.");
        self.emit_byte(u8::from(OpCode::Print));
    }

    /// `return [value];`: returning from the top-level script is an error.
    fn return_statement(&mut self)
        requires
            old(self).inv(),
        ensures
            final(self).step(&*old(self)),
            final(self).code_len() > old(self).code_len(),
            final(self).code_at(1) == opcode_byte(OpCode::Return),
            old(self).top().function_kind == FunctionKind::Script ==> final(self).had_error,
            old(self).current.kind == TokenKind::Semicolon && old(self).top().function_kind
                != FunctionKind::Initializer ==> final(self).top().chunk.codes@ == old(
                self).top().chunk.codes@ + seq![opcode_byte(OpCode::Nil), opcode_byte(OpCode::Return)],
            old(self).current.kind == TokenKind::Semicolon && old(self).top().function_kind
                == FunctionKind::Initializer ==> final(self).top().chunk.codes@ == old(
                self).top().chunk.codes@ + seq![
                opcode_byte(OpCode::GetLocal),
                0u8,
                opcode_byte(OpCode::Return),
            ],
            old(self).current.kind == TokenKind::Number && tok_kind(
                old(self).lexer.source_bytes(),
                old(self).lexer.pos(),
                0,
            ) == TokenKind::Semicolon ==> final(self).top().chunk.codes@ == old(
                self).top().chunk.codes@ + seq![
                opcode_byte(OpCode::Constant),
                final(self).code_at(2),
                opcode_byte(OpCode::Return),
            ],
        decreases old(self).measure(), 3int,
    {
        let last = self.contexts.len() - 1;
        if self.contexts[last].function_kind == FunctionKind::Script {
            self.error("can't return from a top-level script.");
        }
        if self.peek_match(TokenKind::Semicolon) {
            self.emit_return();
        } else {
            if self.contexts[last].function_kind == FunctionKind::Initializer {
                self.error("Can't return a value from an initializer.");
            }
            let ghost before = *self;
            self.expression();
            let ghost after = *self;
            proof {
                reveal(Compiler::lone_number_compiled);
            }
            self.consume(TokenKind::Semicolon, "Expect ';' after return value.");
            self.emit_byte(u8::from(OpCode::Return));
            proof {
                if before.current.kind == TokenKind::Number && tok_kind(
                    before.lexer.source_bytes(),
                    before.lexer.pos(),
                    0,
                ) == TokenKind::Semicolon {
                    assert(self.top().chunk.codes@ =~= before.top().chunk.codes@ + seq![
                        opcode_byte(OpCode::Constant),
                        after.code_at(1),
                        opcode_byte(OpCode::Return),
                    ]);
                }
            }
        }
    }

    /// `if (condition) then [else otherwise]`.
    fn if_statement(&mut self)
        requires
            old(self).inv(),
        ensures
            final(self).step(&*old(self)),
            final(self).code_len() >= old(self).code_len() + 8,
            exists|p: int, q: int|
                #![trigger final(self).top().chunk.codes@[p], final(self).top().chunk.codes@[q]]
                if_shape(final(self).top().chunk.codes@, old(self).code_len(), p, q,
                final(self).had_error),
        decreases old(self).measure(), 5int,
    {
        self.consume(TokenKind::LeftParen, "Expect '(' after 'if'.");
        self.expression();
        self.consume(TokenKind::RightParen, "Expect ')' after condition.");
        let ghost p = self.code_len();
        let then_jump = self.emit_jump(OpCode::JumpIfFalse);
        self.emit_byte(u8::from(OpCode::Pop));
        proof {
            self.lemma_measure_bounds();
        }
        self.statement();
        let ghost q = self.code_len();
        let else_jump = self.emit_jump(OpCode::Jump);
        self.patch_jump(then_jump);
        self.emit_byte(u8::from(OpCode::Pop));
        let ghost branched = *self;
        if self.peek_match(TokenKind::Else) {
            proof {
                self.lemma_measure_bounds();
            }
            self.statement();
        }
        proof {
            assert(self.top().chunk.codes@[p] == branched.top().chunk.codes@[p]);
            assert(self.top().chunk.codes@[p + 1] == branched.top().chunk.codes@[p + 1]);
            assert(self.top().chunk.codes@[p + 2] == branched.top().chunk.codes@[p + 2]);
            assert(self.top().chunk.codes@[p + 3] == branched.top().chunk.codes@[p + 3]);
            assert(self.top().chunk.codes@[q] == branched.top().chunk.codes@[q]);
            assert(self.top().chunk.codes@[q + 3] == branched.top().chunk.codes@[q + 3]);
        }
        self.patch_jump(else_jump);
        proof {
            assert(if_shape(self.top().chunk.codes@, old(self).code_len(), p, q, self.had_error));
        }
    }

    /// `while (condition) body`.
    fn while_statement(&mut self)
        requires
            old(self).inv(),
        ensures
            final(self).step(&*old(self)),
            final(self).code_len() >= old(self).code_len() + 8,
            final(self).code_at(4) == opcode_byte(OpCode::Loop),
            final(self).code_at(1) == opcode_byte(OpCode::Pop),
            !final(self).had_error ==> short_at(
                final(self).top().chunk.codes@,
                final(self).code_len() - 3,
            ) == final(self).code_len() - 1 - old(self).code_len(),
        decreases old(self).measure(), 5int,
    {
        let last = self.contexts.len() - 1;
        let loop_start = self.contexts[last].chunk.codes.len();
        self.consume(TokenKind::LeftParen, "Expect '(' after 'while'.");
        self.expression();
        self.consume(TokenKind::RightParen, "Expect ')' after condition.");
        let exit_jump = self.emit_jump(OpCode::JumpIfFalse);
        self.emit_byte(u8::from(OpCode::Pop));
        proof {
            self.lemma_measure_bounds();
        }
        self.statement();
        self.emit_loop(loop_start);
        let ghost looped = *self;
        self.patch_jump(exit_jump);
        proof {
            assert(self.top().chunk.codes@[looped.code_len() - 3] == opcode_byte(OpCode::Loop));
            assert(short_at(self.top().chunk.codes@, looped.code_len() - 2) == short_at(
                looped.top().chunk.codes@,
                looped.code_len() - 2,
            ));
        }
        self.emit_byte(u8::from(OpCode::Pop));
    }

    /// `for (initializer; condition; increment) body`, in a scope of its
    /// own; every clause may be left out.
    #[verifier::spinoff_prover]
    #[verifier::rlimit(100)]
    fn for_statement(&mut self) -> (layout: Ghost<(bool, bool, int, int, int, int, int)>)
        requires
            old(self).inv(),
            old(self).top().scope_depth < old(self).room(),
        ensures
            final(self).step(&*old(self)),
            exists|q: int|
                old(self).code_len() <= q && q + 3 <= final(self).code_len()
                    && #[trigger] final(self).top().chunk.codes@[q] == opcode_byte(OpCode::Loop),
            old(self).code_len() <= layout@.2,
            for_layout(
                final(self).top().chunk.codes@,
                layout@.2,
                layout@.3,
                layout@.4,
                layout@.5,
                layout@.6,
                layout@.0,
                layout@.1,
                final(self).had_error,
            ),
        decreases old(self).measure(), 6int,
    {
        self.begin_scope();
        self.consume(TokenKind::LeftParen, "Expect '(' after 'for'.");
        if self.peek_match(TokenKind::Semicolon) {
            // no initializer
        } else if self.peek_match(TokenKind::Var) {
            proof {
                self.lemma_measure_bounds();
            }
            self.var_declaration();
        } else {
            self.expression_statement();
        }
        let last = self.contexts.len() - 1;
        let mut loop_start = self.contexts[last].chunk.codes.len();
        let ghost c = loop_start as int;
        let ghost mut e: int = c;
        let ghost mut j: int = c;
        let ghost mut l: int = c;
        let ghost mut has_cond = false;
        let ghost mut has_inc = false;
        let mut exit_jump: Option<usize> = None;
        if !self.peek_match(TokenKind::Semicolon) {
            self.expression();
            self.consume(TokenKind::Semicolon, "Expect ';' after loop condition.");
            proof {
                e = self.code_len();
                has_cond = true;
            }
            exit_jump = Some(self.emit_jump(OpCode::JumpIfFalse));
            self.emit_byte(u8::from(OpCode::Pop));
            proof {
                assert(self.top().chunk.codes@[e] == opcode_byte(OpCode::JumpIfFalse));
                assert(self.top().chunk.codes@[e + 3] == opcode_byte(OpCode::Pop));
            }
        }
        let ghost after_cond = *self;
        if !self.peek_match(TokenKind::RightParen) {
            proof {
                j = self.code_len();
                has_inc = true;
            }
            loop_start = self.for_increment(loop_start);
            proof {
                l = self.code_len() - 3;
            }
        }
        let ghost before_body = *self;
        proof {
            self.lemma_measure_bounds();
        }
        self.statement();
        let ghost q = self.code_len();
        self.emit_loop(loop_start);
        let ghost looped = *self;
        match exit_jump {
            Some(pos) => {
                self.patch_jump(pos);
                self.emit_byte(u8::from(OpCode::Pop));
            },
            None => {},
        }
        let ghost ended = *self;
        assert(self.top().chunk.codes@[q] == opcode_byte(OpCode::Loop));
        self.end_scope();
        assert(self.top().chunk.codes@[q] == opcode_byte(OpCode::Loop));
        proof {
            assert(for_layout(self.top().chunk.codes@, c, e, j, l, q, has_cond, has_inc, self.had_error));
        }
        Ghost((has_cond, has_inc, c, e, j, l, q))
    }

    /// The increment clause of a `for` loop whose condition starts at
    /// `loop_start`: a `Jump` over the increment, the increment, and a
    /// `Loop` back to the condition. Returns where the increment starts.
    fn for_increment(&mut self, loop_start: usize) -> (increment_start: usize)
        requires
            old(self).inv(),
            loop_start <= old(self).code_len(),
        ensures
            final(self).expr_step(&*old(self)),
            increment_start == old(self).code_len() + 3,
            final(self).code_len() >= old(self).code_len() + 6,
            final(self).top().chunk.codes@[old(self).code_len()] == opcode_byte(OpCode::Jump),
            final(self).code_at(3) == opcode_byte(OpCode::Loop),
            !final(self).had_error ==> short_at(final(self).top().chunk.codes@, old(self).code_len() + 1)
                == final(self).code_len() - 3 - old(self).code_len(),
            !final(self).had_error ==> short_at(final(self).top().chunk.codes@, final(self).code_len() - 2)
                == final(self).code_len() - loop_start,
    {
        let body_jump = self.emit_jump(OpCode::Jump);
        let last = self.contexts.len() - 1;
        let increment_start = self.contexts[last].chunk.codes.len();
        self.expression();
        self.emit_byte(u8::from(OpCode::Pop));
        self.consume(TokenKind::RightParen, "Expect ')' after for clauses.");
        let ghost l = self.code_len();
        self.emit_loop(loop_start);
        let ghost looped = *self;
        self.patch_jump(body_jump);
        proof {
            assert(self.top().chunk.codes@[l] == looped.top().chunk.codes@[l]);
            assert(self.top().chunk.codes@[l + 1] == looped.top().chunk.codes@[l + 1]);
            assert(self.top().chunk.codes@[l + 2] == looped.top().chunk.codes@[l + 2]);
        }
        increment_start
    }

    fn expression_statement(&mut self)
        requires
            old(self).inv(),
        ensures
            final(self).step(&*old(self)),
            old(self).current.kind != TokenKind::Eof ==> final(self).measure() < old(self).measure(),
        decreases old(self).measure(), 3int,
    {
        self.expression();
        self.consume(TokenKind::Semicolon, "Expect ';' after expression.");
        self.emit_byte(u8::from(OpCode::Pop));
    }
}


// ---------------------------------------------------------------------------
// Compiling a script
// ---------------------------------------------------------------------------

impl<'a> Compiler<'a> {
    /// Compiles the whole source as the top-level script. On success the
    /// script becomes a function object of the heap, whose handle is
    /// returned; when any error was found, the errors are returned instead,
    /// in the order in which they were found.
    #[verifier::rlimit(50)]
    pub fn compile(&mut self) -> (r: Result<u64, Vec<CompileError>>)
        requires
            old(self).ready(),
        ensures
            final(self).heap_view().inv(),
            final(self).heap_view().extends(old(self).heap_view()),
            !old(self).records_finished() ==> final(self).finished_view()
                == old(self).finished_view(),
            ({
                let done = final(self).finished_view();
                let objects = final(self).heap_view().objects@;
                forall|i: int|
                    0 <= i < done.len() ==> #[trigger] done[i] < objects.len()
                        && objects[done[i] as int] is Function
            }),
            match r {
                Ok(h) => {
                    &&& h + 1 == final(self).heap_view().objects@.len()
                    &&& final(self).heap_view().objects@[h as int] matches Object::Function {
                        arity,
                        name,
                        chunk,
                        upvalue_count,
                    } && arity == 0 && upvalue_count == 0 && name@ == Seq::<char>::empty() && chunk.codes@.len() >= 2
                        && chunk.codes@.last() == opcode_byte(OpCode::Return) && chunk.codes@[chunk.codes@.len() - 2]
                        == opcode_byte(OpCode::Nil)
                    &&& forall|i: int|
                        old(self).heap_view().objects@.len() <= i <= h
                            ==> #[trigger] final(self).heap_view().reaches(h as int, i)
                    &&& old(self).records_finished() ==> final(self).finished_view()
                        == function_handles(
                        final(self).heap_view().objects@,
                        old(self).heap_view().objects@.len() as int,
                        h + 1,
                    )
                },
                Err(errors) => errors@.len() > 0,
            },
            r is Ok <==> !final(self).error_reported(),
            ({
                let s = old(self).source();
                let st = skip_trivia(s, old(self).scan_pos());
                &&& st == s.len() ==> r is Ok
                &&& scan_kind(s, st) == TokenKind::Error ==> r is Err
                &&& st == s.len() ==> (r matches Ok(h) && (final(self).heap_view().objects@[h as int]
                    matches Object::Function { chunk, upvalue_count, .. } && upvalue_count == 0
                    && chunk.codes@ == seq![opcode_byte(OpCode::Nil), opcode_byte(OpCode::Return)]
                    && chunk.constants@.len() == 0))
            }),
            ({
                let s = old(self).source();
                let p = old(self).scan_pos();
                tok_kind(s, p, 0) == TokenKind::Var && tok_kind(s, p, 1) == TokenKind::Identifier
                    && tok_kind(s, p, 2) == TokenKind::Semicolon && tok_kind(s, p, 3)
                    == TokenKind::Eof ==> (r matches Ok(h) && (final(self).heap_view().objects@[h as int]
                    matches Object::Function { chunk, .. } && chunk.codes@ == seq![
                    opcode_byte(OpCode::Nil),
                    opcode_byte(OpCode::DefineGlobal),
                    0u8,
                    opcode_byte(OpCode::Nil),
                    opcode_byte(OpCode::Return),
                ] && chunk.constants@.len() == 1))
            }),
            tok_kind(old(self).source(), old(self).scan_pos(), 0) == TokenKind::Return ==> r is Err,
            ({
                let s = old(self).source();
                let p = old(self).scan_pos();
                tok_kind(s, p, 0) == TokenKind::LeftBrace && tok_kind(s, p, 1) == TokenKind::Var
                    && tok_kind(s, p, 2) == TokenKind::Identifier && tok_kind(s, p, 3)
                    == TokenKind::Semicolon && tok_kind(s, p, 4) == TokenKind::Var && tok_kind(
                    s,
                    p,
                    5,
                ) == TokenKind::Identifier && scan_text(s, tok_start(s, p, 5)) == scan_text(
                    s,
                    tok_start(s, p, 2),
                ) ==> r is Err
            }),
    {
        let ghost s = self.lexer.source_bytes();
        let ghost p0 = self.lexer.pos();
        let ghost single_var = tok_kind(s, p0, 0) == TokenKind::Var && tok_kind(s, p0, 1)
            == TokenKind::Identifier && tok_kind(s, p0, 2) == TokenKind::Semicolon && tok_kind(
            s,
            p0,
            3,
        ) == TokenKind::Eof;
        let ghost starts_return = tok_kind(s, p0, 0) == TokenKind::Return;
        let ghost redeclares = tok_kind(s, p0, 0) == TokenKind::LeftBrace && tok_kind(s, p0, 1)
            == TokenKind::Var && tok_kind(s, p0, 2) == TokenKind::Identifier && tok_kind(s, p0, 3)
            == TokenKind::Semicolon && tok_kind(s, p0, 4) == TokenKind::Var && tok_kind(s, p0, 5)
            == TokenKind::Identifier && scan_text(s, tok_start(s, p0, 5)) == scan_text(
            s,
            tok_start(s, p0, 2),
        );
        proof {
            self.lexer.lemma_wf_bounds();
            lemma_scan_progress(self.lexer.source_bytes(), self.lexer.pos());
            lemma_tok_shift(s, p0, 0);
            lemma_tok_shift(s, p0, 1);
            lemma_tok_shift(s, p0, 2);
            lemma_tok_shift(s, p0, 3);
            lemma_tok_shift(s, p0, 4);
        }
        self.advance();
        proof {
            reveal(Compiler::block_redeclaration_reported);
            if redeclares {
                let locals = self.top().locals@;
                assert(locals.last() == locals[0]);
                assert(locals[0].depth == Some(0usize));
            }
        }
        let ghost start = *self;
        let ghost body = seq![
            opcode_byte(OpCode::Nil),
            opcode_byte(OpCode::DefineGlobal),
            0u8,
        ];
        loop
            invariant_except_break
                start.current.kind == TokenKind::Eof ==> *self == start,
            invariant
                self.step(&start),
                start.contexts == old(self).contexts,
                old(self).ready(),
                body == seq![opcode_byte(OpCode::Nil), opcode_byte(OpCode::DefineGlobal), 0u8],
                single_var ==> start.current.kind == TokenKind::Var && !start.had_error
                    && !start.panic_mode && start.lexer.source_bytes() == s && tok_kind(
                    s,
                    start.lexer.pos(),
                    0,
                ) == TokenKind::Identifier && tok_kind(s, start.lexer.pos(), 1)
                    == TokenKind::Semicolon && tok_kind(s, start.lexer.pos(), 2)
                    == TokenKind::Eof,
                starts_return ==> start.current.kind == TokenKind::Return && (*self == start
                    || self.had_error),
                redeclares ==> (*self == start || self.had_error) && start.current.kind
                    == TokenKind::LeftBrace && (forall|x: Self| #[trigger]
                    x.block_redeclaration_reported(&start) ==> x.had_error),
                single_var ==> *self == start || (self.current.kind == TokenKind::Eof
                    && !self.had_error && self.top().chunk.codes@ == body
                    && self.top().chunk.constants@.len() == 1),
            ensures
                self.step(&start),
                start.contexts == old(self).contexts,
                start.current.kind == TokenKind::Eof ==> self.current.kind == TokenKind::Eof
                    && self.had_error == start.had_error && self.contexts == start.contexts
                    && self.heap == start.heap,
                single_var ==> self.current.kind == TokenKind::Eof && !self.had_error
                    && self.top().chunk.codes@ == body && self.top().chunk.constants@.len() == 1,
                starts_return ==> self.had_error,
                redeclares ==> self.had_error,
            decreases self.measure(),
        {
            proof {
                self.lemma_measure_bounds();
            }
            if self.peek_match(TokenKind::Eof) {
                break;
            }
            let ghost before = *self;
            proof {
                if single_var {
                    assert(*self == start);
                    assert(self.top().chunk.codes@.len() == 0);
                    assert(self.top().chunk.constants@.len() == 0);
                }
            }
            self.declaration();
            proof {
                self.lemma_measure_bounds();
                if single_var {
                    assert(self.top().chunk.codes@ == before.top().chunk.codes@ + seq![
                        opcode_byte(OpCode::Nil),
                        opcode_byte(OpCode::DefineGlobal),
                        before.top().chunk.constants@.len() as u8,
                    ]);
                    assert(self.top().chunk.codes@ =~= body);
                }
            }
        }
        self.consume(TokenKind::Eof, "Expect end of expression");
        if self.had_error {
            let mut errors = Vec::new();
            std::mem::swap(&mut errors, &mut self.errors);
            return Err(errors);
        }
        let ghost ending = *self;
        proof {
            assert(self.contexts@[0].ok(self.len() + 1 - self.measure()));
        }
        let (script, _) = self.end_compiler();
        proof {
            lemma_function_handles_prefix(
                self.heap.objects@,
                ending.heap.objects@,
                self.base@,
                script as int,
            );
            // With no function left under compilation, every object that
            // compiling made is kept by a constant of a function object.
            assert forall|i: int| self.base@ <= i < script implies #[trigger] self.heap.named_by_later(
                i,
                script as int,
            ) by {
                if self.base@ <= i < script {
                    assert(self.kept(i));
                    let r = self.keepers@[i];
                    assert(r.0);
                    assert(self.heap.names_object(r.1, i));
                }
            }
            self.heap.lemma_reaches_all(self.base@, script as int);
        }
        Ok(script)
    }

    /// The heap that compiling filled.
    pub fn into_heap(self) -> (h: Heap)
        ensures
            h == *self.heap_view(),
    {
        self.heap
    }

    /// The handles of the functions to disassemble, in the order in which
    /// they were finished: with disassembly on, each function finished while
    /// no error had been found.
    pub fn finished(&self) -> (r: &Vec<u64>)
        ensures
            r@ == self.finished_view(),
    {
        &self.finished
    }
}


// ---------------------------------------------------------------------------
// Classes
// ---------------------------------------------------------------------------

/// Whether `text` is `init`, the name of a class's initializer.
fn is_init(text: &str) -> (r: bool)
    ensures
        r == (text.spec_bytes() == seq!['i' as u8, 'n' as u8, 'i' as u8, 't' as u8]),
{
    let b = text.as_bytes();
    let r = b.len() == 4 && b[0] == 'i' as u8 && b[1] == 'n' as u8 && b[2] == 'i' as u8 && b[3]
        == 't' as u8;
    proof {
        if r {
            assert(b@ =~= seq!['i' as u8, 'n' as u8, 'i' as u8, 't' as u8]);
        }
    }
    r
}

/// A name that the compiler makes up: `this` or `super`.
fn synthetic_token(text: &str, line: usize) -> (t: Token)
    ensures
        t.kind == TokenKind::Identifier,
        t.lexeme@ == text@,
{
    Token { kind: TokenKind::Identifier, lexeme: text.to_owned(), line }
}

impl<'a> Compiler<'a> {
    /// `class Name [< Superclass] { methods }`. The class is bound to its
    /// name; with a superclass, the superclass's methods are copied into it
    /// and a scope of its own holds the superclass as the local `super`.
    #[verifier::spinoff_prover]
    #[verifier::rlimit(40)]
    fn class_declaration(&mut self)
        requires
            old(self).inv(),
            old(self).measure() <= old(self).len(),
            old(self).top().scope_depth < old(self).room(),
        ensures
            final(self).step(&*old(self)),
            final(self).code_len() > old(self).code_len(),
            final(self).code_at(1) == opcode_byte(OpCode::Pop) || final(self).code_at(1)
                == opcode_byte(OpCode::CloseUpvalue),
            exists|p: int|
                old(self).code_len() <= p && p + 2 <= final(self).code_len()
                    && #[trigger] final(self).top().chunk.codes@[p] == opcode_byte(OpCode::Class),
        decreases old(self).measure(), 9int,
    {
        self.consume(TokenKind::Identifier, "Expect class name.");
        let class_name = self.previous.clone();
        let name_token = self.previous.clone();
        let name_constant = self.identifier_constant(name_token);
        self.declare_variable();
        let ghost p = self.code_len();
        self.emit_bytes(u8::from(OpCode::Class), name_constant);
        self.define_variable(name_constant);
        let ghost declared = *self;
        self.classes.push(ClassCompiler { has_superclass: false });
        proof {
            self.lemma_kept_frame(&declared, -1);
        }
        let mut has_superclass = false;
        if self.peek_match(TokenKind::Less) {
            self.consume(TokenKind::Identifier, "Expect superclass name.");
            let super_name = self.previous.clone();
            proof {
                self.lemma_measure_bounds();
            }
            self.named_variable(super_name, false);
            if Self::identifiers_equal(&class_name, &self.previous) {
                self.error("A class can't inherit from itself.");
            }
            self.begin_scope();
            let line = self.previous.line;
            self.add_local(synthetic_token("super", line));
            self.define_variable(0);
            proof {
                self.lemma_measure_bounds();
            }
            self.named_variable(class_name.clone(), false);
            self.emit_byte(u8::from(OpCode::Inherit));
            let n = self.classes.len() - 1;
            let ghost inherited = *self;
            self.classes.set(n, ClassCompiler { has_superclass: true });
            proof {
                self.lemma_kept_frame(&inherited, -1);
            }
            has_superclass = true;
        }
        proof {
            self.lemma_measure_bounds();
        }
        self.named_variable(class_name, false);
        self.consume(TokenKind::LeftBrace, "Expect '{' before class body.");
        let ghost body = *self;
        while self.current.kind != TokenKind::RightBrace && self.current.kind != TokenKind::Eof
            invariant
                self.step(&body),
                body.measure() <= old(self).measure(),
                self.measure() <= self.len(),
            decreases self.measure(),
        {
            proof {
                self.lemma_measure_bounds();
            }
            self.method();
            proof {
                self.lemma_measure_bounds();
            }
        }
        self.consume(TokenKind::RightBrace, "Expect '}' after class body.");
        self.emit_byte(u8::from(OpCode::Pop));
        if has_superclass {
            self.end_scope();
        }
        let ghost closed = *self;
        self.classes.pop();
        proof {
            assert(self.classes@ =~= declared.classes@);
            self.lemma_kept_frame(&closed, -1);
            assert(self.top().chunk.codes@[p] == opcode_byte(OpCode::Class));
        }
    }

    /// A method: its name, then a function of its own; `init` makes an
    /// initializer.
    fn method(&mut self)
        requires
            old(self).inv(),
            old(self).measure() <= old(self).len(),
        ensures
            final(self).step(&*old(self)),
            final(self).top().locals@.len() == old(self).top().locals@.len(),
            old(self).current.kind != TokenKind::Eof && old(self).current.kind != TokenKind::RightBrace
                ==> final(self).measure() < old(self).measure(),
        decreases old(self).measure(), 8int,
    {
        self.consume(TokenKind::Identifier, "Expect method name.");
        let name = self.previous.clone();
        let constant = self.identifier_constant(name);
        let kind = if is_init(self.previous.lexeme.as_str()) {
            FunctionKind::Initializer
        } else {
            FunctionKind::Method
        };
        proof {
            self.lemma_measure_bounds();
        }
        let _ = self.function(kind);
        self.emit_bytes(u8::from(OpCode::Method), constant);
    }

    /// `.name` after an expression: an assignment to the property, a call
    /// of the method (an `Invoke`), or a read of the property.
    fn dot(&mut self, can_assign: bool)
        requires
            old(self).inv(),
        ensures
            final(self).expr_step(&*old(self)),
            final(self).code_len() >= old(self).code_len() + 2,
            final(self).code_at(2) == opcode_byte(OpCode::GetProperty) || (can_assign
                && final(self).code_at(2) == opcode_byte(OpCode::SetProperty)) || (
            final(self).code_len() >= old(self).code_len() + 3 && final(self).code_at(3)
                == opcode_byte(OpCode::Invoke)),
            ({
                let s = old(self).lexer.source_bytes();
                let p = old(self).lexer.pos();
                old(self).current.kind == TokenKind::Identifier && tok_kind(s, p, 0)
                    == TokenKind::LeftParen && tok_kind(s, p, 1) == TokenKind::RightParen ==> {
                    &&& final(self).code_len() == old(self).code_len() + 3
                    &&& final(self).code_at(3) == opcode_byte(OpCode::Invoke)
                    &&& final(self).code_at(1) == 0
                    &&& !final(self).had_error ==> final(self).code_at(2)
                        < final(self).top().chunk.constants@.len() && final(self).heap.names_string(
                        final(self).constant_at(final(self).code_at(2) as int),
                        old(self).current.lexeme@,
                    )
                }
            }),
            ({
                let s = old(self).lexer.source_bytes();
                let p = old(self).lexer.pos();
                let next = tok_kind(s, p, 0);
                old(self).current.kind == TokenKind::Identifier && next != TokenKind::Error && next
                    != TokenKind::LeftParen && !(can_assign && next == TokenKind::Equal) ==> {
                    &&& final(self).top().chunk.codes@ == old(self).top().chunk.codes@ + seq![
                        opcode_byte(OpCode::GetProperty),
                        final(self).code_at(1),
                    ]
                    &&& final(self).current.kind == next
                    &&& !final(self).had_error ==> final(self).code_at(1)
                        < final(self).top().chunk.constants@.len() && final(self).heap.names_string(
                        final(self).constant_at(final(self).code_at(1) as int),
                        old(self).current.lexeme@,
                    )
                }
            }),
        decreases old(self).measure(), 4int,
    {
        proof {
            lemma_tok_shift(self.lexer.source_bytes(), self.lexer.pos(), 0);
        }
        let ghost s = self.lexer.source_bytes();
        let ghost p = self.lexer.pos();
        let ghost first = self.current;
        self.consume(TokenKind::Identifier, "Expect property name after '.'.");
        let name_token = Token {
            kind: self.previous.kind,
            lexeme: self.previous.lexeme.clone(),
            line: self.previous.line,
        };
        let name = self.identifier_constant(name_token);
        let ghost named = *self;
        proof {
            if first.kind == TokenKind::Identifier && tok_kind(s, p, 0) == TokenKind::LeftParen {
                assert(self.current.kind == TokenKind::LeftParen);
                assert(self.lexer.pos() == tok_end(s, p, 0));
                assert(name_token.lexeme@ == first.lexeme@);
            }
        }
        if can_assign && self.peek_match(TokenKind::Equal) {
            proof {
                self.lemma_measure_bounds();
            }
            self.expression();
            self.emit_bytes(u8::from(OpCode::SetProperty), name);
        } else if self.peek_match(TokenKind::LeftParen) {
            proof {
                self.lemma_measure_bounds();
            }
            proof {
                if first.kind == TokenKind::Identifier && tok_kind(s, p, 0) == TokenKind::LeftParen
                    && tok_kind(s, p, 1) == TokenKind::RightParen {
                    assert(self.current.kind == TokenKind::RightParen);
                }
            }
            let (arg_count, _) = self.argument_list();
            self.emit_bytes(u8::from(OpCode::Invoke), name);
            self.emit_byte(arg_count);
        } else {
            self.emit_bytes(u8::from(OpCode::GetProperty), name);
            proof {
                assert(self.top().chunk.codes@ =~= named.top().chunk.codes@ + seq![
                    opcode_byte(OpCode::GetProperty),
                    name,
                ]);
            }
        }
    }

    /// `this`: the receiver, in slot 0 of a method; an error outside a class.
    fn this_(&mut self)
        requires
            old(self).inv(),
        ensures
            final(self).expr_step(&*old(self)),
            old(self).classes@.len() == 0 ==> final(self).had_error && final(self).code_len()
                == old(self).code_len(),
            old(self).classes@.len() > 0 ==> final(self).code_len() >= old(self).code_len() + 2
                && is_read_op(final(self).code_at(2)),
        decreases old(self).measure(), 4int,
    {
        if self.classes.len() == 0 {
            self.error("Can't use 'this' outside of a class.");
            return;
        }
        let name = self.previous.clone();
        self.named_variable(name, false);
    }

    /// `super.name`: the superclass's method bound to `this`, or called
    /// directly (a `SuperInvoke`) when arguments follow.
    fn super_(&mut self)
        requires
            old(self).inv(),
        ensures
            final(self).expr_step(&*old(self)),
            old(self).classes@.len() == 0 || !old(self).classes@.last().has_superclass
                ==> final(self).had_error,
            final(self).code_len() >= old(self).code_len() + 2,
            final(self).code_at(2) == opcode_byte(OpCode::GetSuper) || (final(self).code_len()
                >= old(self).code_len() + 3 && final(self).code_at(3) == opcode_byte(
                OpCode::SuperInvoke,
            )),
        decreases old(self).measure(), 4int,
    {
        if self.classes.len() == 0 {
            self.error("Can't use 'super' outside of a class.");
        } else if !self.classes[self.classes.len() - 1].has_superclass {
            self.error("Can't use 'super' in a class with no superclass.");
        }
        self.consume(TokenKind::Dot, "Expect '.' after 'super'.");
        self.consume(TokenKind::Identifier, "Expect superclass method name.");
        let name_token = self.previous.clone();
        let name = self.identifier_constant(name_token);
        let line = self.previous.line;
        proof {
            self.lemma_measure_bounds();
        }
        self.named_variable(synthetic_token("this", line), false);
        if self.peek_match(TokenKind::LeftParen) {
            proof {
                self.lemma_measure_bounds();
            }
            let (arg_count, _) = self.argument_list();
            proof {
                self.lemma_measure_bounds();
            }
            self.named_variable(synthetic_token("super", line), false);
            self.emit_bytes(u8::from(OpCode::SuperInvoke), name);
            self.emit_byte(arg_count);
        } else {
            proof {
                self.lemma_measure_bounds();
            }
            self.named_variable(synthetic_token("super", line), false);
            self.emit_bytes(u8::from(OpCode::GetSuper), name);
        }
    }
}

} // verus!
