use rlox::chunk::{Chunk, Instruction, OpCode};
use rlox::compiler::{unquote, CompileError, Compiler, ErrorSite, Heap, Object};
use rlox::lexer::Lexer;

fn compile(source: &str) -> (Result<u64, Vec<CompileError>>, Heap) {
    let mut compiler = Compiler::new(Lexer::from(source), Heap::new());
    let result = compiler.compile();
    (result, compiler.into_heap())
}

fn script(source: &str) -> (Chunk, Heap) {
    let (result, heap) = compile(source);
    let handle = result.expect("compiles") as usize;
    match &heap.objects[handle] {
        Object::Function { arity, name, chunk, upvalue_count } => {
            assert_eq!(*arity, 0);
            assert_eq!(name, "");
            assert_eq!(*upvalue_count, 0);
            (chunk.clone(), heap)
        }
        other => panic!("not a function: {other:?}"),
    }
}

fn op(o: OpCode) -> u8 {
    u8::from(o)
}

fn errors(source: &str) -> Vec<CompileError> {
    match compile(source).0 {
        Ok(_) => panic!("expected errors"),
        Err(errors) => errors,
    }
}

#[test]
fn empty_script_just_returns() {
    let (chunk, heap) = script("");
    assert_eq!(chunk.codes, vec![op(OpCode::Nil), op(OpCode::Return)]);
    assert_eq!(heap.objects.len(), 1);
    let (chunk, _) = script("  // nothing here\n");
    assert_eq!(chunk.codes, vec![op(OpCode::Nil), op(OpCode::Return)]);
    assert_eq!(chunk.lines, vec![2, 2]);
}

#[test]
fn arithmetic_and_print() {
    let (chunk, heap) = script("print 1 + 2 * 3;");
    assert_eq!(
        chunk.codes,
        vec![
            op(OpCode::Constant), 0,
            op(OpCode::Constant), 1,
            op(OpCode::Constant), 2,
            op(OpCode::Multiply),
            op(OpCode::Add),
            op(OpCode::Print),
            op(OpCode::Nil),
            op(OpCode::Return),
        ]
    );
    let texts: Vec<String> = chunk
        .constants
        .iter()
        .map(|v| match &heap.objects[v.as_obj() as usize] {
            Object::Number(t) => t.clone(),
            other => panic!("{other:?}"),
        })
        .collect();
    assert_eq!(texts, vec!["1", "2", "3"]);
}

#[test]
fn grouping_and_unary() {
    let (chunk, _) = script("print -(1 - 2) == !true;");
    assert_eq!(
        chunk.codes,
        vec![
            op(OpCode::Constant), 0,
            op(OpCode::Constant), 1,
            op(OpCode::Subtract),
            op(OpCode::Negate),
            op(OpCode::True),
            op(OpCode::Not),
            op(OpCode::Equal),
            op(OpCode::Print),
            op(OpCode::Nil),
            op(OpCode::Return),
        ]
    );
}

#[test]
fn comparisons_compile_to_three_instructions() {
    let (chunk, _) = script("1 != 2; 1 >= 2; 1 <= 2; 1 < 2; 1 > 2;");
    let c = op(OpCode::Constant);
    let pop = op(OpCode::Pop);
    assert_eq!(
        chunk.codes,
        vec![
            c, 0, c, 1, op(OpCode::Equal), op(OpCode::Not), pop,
            c, 2, c, 3, op(OpCode::Less), op(OpCode::Not), pop,
            c, 4, c, 5, op(OpCode::Greater), op(OpCode::Not), pop,
            c, 6, c, 7, op(OpCode::Less), pop,
            c, 8, c, 9, op(OpCode::Greater), pop,
            op(OpCode::Nil), op(OpCode::Return),
        ]
    );
}

#[test]
fn globals_are_named_by_interned_strings() {
    let (chunk, heap) = script("var x = \"hi\"; print x;");
    assert_eq!(
        chunk.codes,
        vec![
            op(OpCode::Constant), 1,
            op(OpCode::DefineGlobal), 0,
            op(OpCode::GetGlobal), 2,
            op(OpCode::Print),
            op(OpCode::Nil),
            op(OpCode::Return),
        ]
    );
    assert_eq!(chunk.constants[0].as_obj(), 0);
    assert_eq!(chunk.constants[2].as_obj(), 0);
    assert!(matches!(&heap.objects[0], Object::String(s) if s == "x"));
    assert!(matches!(&heap.objects[1], Object::String(s) if s == "hi"));
    assert_eq!(heap.strings, vec![("x".to_string(), 0), ("hi".to_string(), 1)]);
}

#[test]
fn uninitialized_global_is_nil() {
    let (chunk, _) = script("var y;");
    assert_eq!(
        chunk.codes,
        vec![op(OpCode::Nil), op(OpCode::DefineGlobal), 0, op(OpCode::Nil), op(OpCode::Return)]
    );
}

#[test]
fn global_assignment() {
    let (chunk, _) = script("a = 1;");
    assert_eq!(
        chunk.codes,
        vec![
            op(OpCode::Constant), 1,
            op(OpCode::SetGlobal), 0,
            op(OpCode::Pop),
            op(OpCode::Nil),
            op(OpCode::Return),
        ]
    );
}

#[test]
fn locals_live_in_slots() {
    let (chunk, _) = script("{ var a = 1; var b = a; b = 2; }");
    assert_eq!(
        chunk.codes,
        vec![
            op(OpCode::Constant), 0,
            op(OpCode::GetLocal), 1,
            op(OpCode::Constant), 1,
            op(OpCode::SetLocal), 2,
            op(OpCode::Pop),
            op(OpCode::Pop),
            op(OpCode::Pop),
            op(OpCode::Nil),
            op(OpCode::Return),
        ]
    );
}

#[test]
fn if_else_patches_both_jumps() {
    let (chunk, _) = script("if (true) print 1; else print 2;");
    assert_eq!(
        chunk.codes,
        vec![
            op(OpCode::True),
            op(OpCode::JumpIfFalse), 0, 7,
            op(OpCode::Pop),
            op(OpCode::Constant), 0,
            op(OpCode::Print),
            op(OpCode::Jump), 0, 4,
            op(OpCode::Pop),
            op(OpCode::Constant), 1,
            op(OpCode::Print),
            op(OpCode::Nil),
            op(OpCode::Return),
        ]
    );
}

#[test]
fn while_loops_back() {
    let (chunk, _) = script("while (false) print 1;");
    assert_eq!(
        chunk.codes,
        vec![
            op(OpCode::False),
            op(OpCode::JumpIfFalse), 0, 7,
            op(OpCode::Pop),
            op(OpCode::Constant), 0,
            op(OpCode::Print),
            op(OpCode::Loop), 0, 11,
            op(OpCode::Pop),
            op(OpCode::Nil),
            op(OpCode::Return),
        ]
    );
}

#[test]
fn and_or_short_circuit() {
    let (chunk, _) = script("true and false; true or false;");
    assert_eq!(
        chunk.codes,
        vec![
            op(OpCode::True),
            op(OpCode::JumpIfFalse), 0, 2,
            op(OpCode::Pop),
            op(OpCode::False),
            op(OpCode::Pop),
            op(OpCode::True),
            op(OpCode::JumpIfFalse), 0, 3,
            op(OpCode::Jump), 0, 2,
            op(OpCode::Pop),
            op(OpCode::False),
            op(OpCode::Pop),
            op(OpCode::Nil),
            op(OpCode::Return),
        ]
    );
}

#[test]
fn for_loop_with_all_clauses() {
    let (chunk, _) = script("for (var i = 0; i < 2; i = i + 1) print i;");
    let c = op(OpCode::Constant);
    assert_eq!(
        chunk.codes,
        vec![
            c, 0,
            op(OpCode::GetLocal), 1,
            c, 1,
            op(OpCode::Less),
            op(OpCode::JumpIfFalse), 0, 21,
            op(OpCode::Pop),
            op(OpCode::Jump), 0, 11,
            op(OpCode::GetLocal), 1,
            c, 2,
            op(OpCode::Add),
            op(OpCode::SetLocal), 1,
            op(OpCode::Pop),
            op(OpCode::Loop), 0, 23,
            op(OpCode::GetLocal), 1,
            op(OpCode::Print),
            op(OpCode::Loop), 0, 17,
            op(OpCode::Pop),
            op(OpCode::Pop),
            op(OpCode::Nil),
            op(OpCode::Return),
        ]
    );
}

#[test]
fn functions_become_closures() {
    let (chunk, heap) = script("fun f(a) { return a; } print f(1);");
    assert_eq!(
        chunk.codes,
        vec![
            op(OpCode::Closure), 1,
            op(OpCode::DefineGlobal), 0,
            op(OpCode::GetGlobal), 2,
            op(OpCode::Constant), 3,
            op(OpCode::Call), 1,
            op(OpCode::Print),
            op(OpCode::Nil),
            op(OpCode::Return),
        ]
    );
    let f = chunk.constants[1].as_obj() as usize;
    match &heap.objects[f] {
        Object::Function { arity, name, chunk, upvalue_count } => {
            assert_eq!(*arity, 1);
            assert_eq!(name, "f");
            assert_eq!(*upvalue_count, 0);
            assert_eq!(
                chunk.codes,
                vec![
                    op(OpCode::GetLocal), 1,
                    op(OpCode::Return),
                    op(OpCode::Nil),
                    op(OpCode::Return),
                ]
            );
        }
        other => panic!("{other:?}"),
    }
}

#[test]
fn closures_capture_enclosing_locals() {
    let source = "fun outer() { var x = 1; fun inner() { x = 2; return x; } return inner; }";
    let (_, heap) = script(source);
    let mut inner = None;
    let mut outer = None;
    for obj in &heap.objects {
        if let Object::Function { name, chunk, upvalue_count, .. } = obj {
            if name == "inner" {
                inner = Some((chunk.clone(), *upvalue_count));
            }
            if name == "outer" {
                outer = Some(chunk.clone());
            }
        }
    }
    let (inner_chunk, inner_upvalues) = inner.unwrap();
    assert_eq!(inner_upvalues, 1);
    assert_eq!(
        inner_chunk.codes,
        vec![
            op(OpCode::Constant), 0,
            op(OpCode::SetUpValue), 0,
            op(OpCode::Pop),
            op(OpCode::GetUpValue), 0,
            op(OpCode::Return),
            op(OpCode::Nil),
            op(OpCode::Return),
        ]
    );
    let outer_chunk = outer.unwrap();
    assert_eq!(
        outer_chunk.codes,
        vec![
            op(OpCode::Constant), 0,
            op(OpCode::Closure), 1, 1, 1,
            op(OpCode::GetLocal), 2,
            op(OpCode::Return),
            op(OpCode::Nil),
            op(OpCode::Return),
        ]
    );
}

#[test]
fn captured_locals_are_closed_at_scope_end() {
    let (chunk, _) = script("{ var a = 1; fun g() { return a; } }");
    let n = chunk.codes.len();
    assert_eq!(
        chunk.codes[n - 4..].to_vec(),
        vec![op(OpCode::Pop), op(OpCode::CloseUpvalue), op(OpCode::Nil), op(OpCode::Return)]
    );
}

#[test]
fn missing_expression_is_reported_at_end() {
    let errs = errors("print");
    assert_eq!(errs.len(), 1);
    assert_eq!(errs[0].line, 1);
    assert!(matches!(errs[0].site, ErrorSite::End));
    assert_eq!(errs[0].message, "Expect expression");
}

#[test]
fn missing_semicolon_is_reported_at_the_token() {
    let errs = errors("print 1\nprint 2;");
    assert_eq!(errs.len(), 1);
    assert_eq!(errs[0].line, 2);
    assert!(matches!(&errs[0].site, ErrorSite::Lexeme(l) if l == "print"));
    assert_eq!(errs[0].message, "Expect ';' after value.");
}

#[test]
fn scanner_errors_are_reported() {
    let errs = errors("@");
    assert_eq!(errs.len(), 1);
    assert!(matches!(errs[0].site, ErrorSite::Scanner));
    assert_eq!(errs[0].message, "Unrecognized character");
}

#[test]
fn errors_resynchronize_at_statements() {
    let errs = errors("print ;\nvar 1;\nprint 3;");
    assert_eq!(errs.len(), 2);
    assert_eq!(errs[0].message, "Expect expression");
    assert_eq!(errs[0].line, 1);
    assert_eq!(errs[1].message, "Expect variable name.");
    assert_eq!(errs[1].line, 2);
}

#[test]
fn return_at_top_level_is_an_error() {
    let errs = errors("return 1;");
    assert_eq!(errs[0].message, "can't return from a top-level script.");
}

#[test]
fn invalid_assignment_target() {
    let errs = errors("1 + 2 = 3;");
    assert_eq!(errs[0].message, "Invalid assignment target.");
}

#[test]
fn redeclared_local_is_an_error() {
    let errs = errors("{ var a = 1; var a = 2; }");
    assert_eq!(errs[0].message, "Already a variable with this name in this scope.");
}

#[test]
fn unterminated_block() {
    let errs = errors("{ print 1;");
    assert_eq!(errs[0].message, "Expect '}' after block.");
    assert!(matches!(errs[0].site, ErrorSite::End));
}

#[test]
fn too_many_constants() {
    let mut source = String::new();
    for i in 0..300 {
        source.push_str(&format!("{i};"));
    }
    let errs = errors(&source);
    assert_eq!(errs[0].message, "too many constants for one chunk");
}

#[test]
fn debug_records_finished_functions() {
    let mut compiler =
        Compiler::new(Lexer::from("fun a() {} fun b() {}"), Heap::new()).with_debug();
    let script = compiler.compile().unwrap();
    let finished = compiler.finished().clone();
    let heap = compiler.into_heap();
    assert_eq!(finished.len(), 3);
    assert_eq!(*finished.last().unwrap(), script);
    for h in &finished {
        assert!(matches!(heap.objects[*h as usize], Object::Function { .. }));
    }
    let plain = Compiler::new(Lexer::from("fun a() {}"), Heap::new());
    assert!(plain.finished().is_empty());
}

#[test]
fn no_disassembly_after_an_error() {
    let mut compiler =
        Compiler::new(Lexer::from("fun a() {} print ; fun b() {}"), Heap::new()).with_debug();
    assert!(compiler.compile().is_err());
    assert_eq!(compiler.finished().len(), 1);
}

#[test]
fn unquote_drops_surrounding_quotes() {
    assert_eq!(unquote("\"abc\""), "abc");
    assert_eq!(unquote("\"\""), "");
    assert_eq!(unquote("plain"), "plain");
    assert_eq!(unquote("\"\"x\"\""), "x");
    assert_eq!(unquote("\"é\""), "é");
}

#[test]
fn interning_gives_one_object_per_text() {
    let mut heap = Heap::new();
    let a = heap.intern("name".to_string());
    let b = heap.intern("other".to_string());
    let c = heap.intern("name".to_string());
    assert_eq!(a, c);
    assert_ne!(a, b);
    assert_eq!(heap.objects.len(), 2);
}

#[test]
fn string_literals_are_interned_once() {
    let (chunk, heap) = script("print \"a\"; print \"a\";");
    assert_eq!(chunk.constants[0].as_obj(), chunk.constants[1].as_obj());
    assert_eq!(heap.strings.len(), 1);
}

fn function_named(heap: &Heap, wanted: &str) -> (usize, Chunk, usize) {
    for obj in &heap.objects {
        if let Object::Function { arity, name, chunk, upvalue_count } = obj {
            if name == wanted {
                return (*arity, chunk.clone(), *upvalue_count);
            }
        }
    }
    panic!("no function {wanted}");
}

#[test]
fn class_with_a_method() {
    let (chunk, heap) = script("class A { m() { return this; } }");
    assert_eq!(
        chunk.codes,
        vec![
            op(OpCode::Class), 0,
            op(OpCode::DefineGlobal), 0,
            op(OpCode::GetGlobal), 1,
            op(OpCode::Closure), 3,
            op(OpCode::Method), 2,
            op(OpCode::Pop),
            op(OpCode::Nil),
            op(OpCode::Return),
        ]
    );
    let (arity, m, upvalues) = function_named(&heap, "m");
    assert_eq!((arity, upvalues), (0, 0));
    assert_eq!(
        m.codes,
        vec![op(OpCode::GetLocal), 0, op(OpCode::Return), op(OpCode::Nil), op(OpCode::Return)]
    );
}

#[test]
fn initializer_returns_its_receiver() {
    let (_, heap) = script("class B { init(x) { this.x = x; } }");
    let (arity, init, _) = function_named(&heap, "init");
    assert_eq!(arity, 1);
    assert_eq!(
        init.codes,
        vec![
            op(OpCode::GetLocal), 0,
            op(OpCode::GetLocal), 1,
            op(OpCode::SetProperty), 0,
            op(OpCode::Pop),
            op(OpCode::GetLocal), 0,
            op(OpCode::Return),
        ]
    );
}

#[test]
fn property_reads_and_method_calls() {
    let (chunk, _) = script("print a.b;");
    assert_eq!(
        chunk.codes,
        vec![
            op(OpCode::GetGlobal), 0,
            op(OpCode::GetProperty), 1,
            op(OpCode::Print),
            op(OpCode::Nil),
            op(OpCode::Return),
        ]
    );
    let (chunk, _) = script("a.b(1);");
    assert_eq!(
        chunk.codes,
        vec![
            op(OpCode::GetGlobal), 0,
            op(OpCode::Constant), 2,
            op(OpCode::Invoke), 1, 1,
            op(OpCode::Pop),
            op(OpCode::Nil),
            op(OpCode::Return),
        ]
    );
}

#[test]
fn subclass_calls_its_superclass() {
    let (chunk, heap) = script("class A {} class B < A { f() { super.f(1); } }");
    assert_eq!(
        chunk.codes,
        vec![
            op(OpCode::Class), 0,
            op(OpCode::DefineGlobal), 0,
            op(OpCode::GetGlobal), 1,
            op(OpCode::Pop),
            op(OpCode::Class), 2,
            op(OpCode::DefineGlobal), 2,
            op(OpCode::GetGlobal), 3,
            op(OpCode::GetGlobal), 4,
            op(OpCode::Inherit),
            op(OpCode::GetGlobal), 5,
            op(OpCode::Closure), 7, 1, 1,
            op(OpCode::Method), 6,
            op(OpCode::Pop),
            op(OpCode::CloseUpvalue),
            op(OpCode::Nil),
            op(OpCode::Return),
        ]
    );
    let (_, f, upvalues) = function_named(&heap, "f");
    assert_eq!(upvalues, 1);
    assert_eq!(
        f.codes,
        vec![
            op(OpCode::GetLocal), 0,
            op(OpCode::Constant), 1,
            op(OpCode::GetUpValue), 0,
            op(OpCode::SuperInvoke), 0, 1,
            op(OpCode::Pop),
            op(OpCode::Nil),
            op(OpCode::Return),
        ]
    );
}

#[test]
fn class_errors() {
    assert_eq!(errors("print this;")[0].message, "Can't use 'this' outside of a class.");
    assert_eq!(errors("print super.x;")[0].message, "Can't use 'super' outside of a class.");
    assert_eq!(
        errors("class A { f() { super.f(); } }")[0].message,
        "Can't use 'super' in a class with no superclass."
    );
    assert_eq!(errors("class A < A {}")[0].message, "A class can't inherit from itself.");
    assert_eq!(
        errors("class A { init() { return 1; } }")[0].message,
        "Can't return a value from an initializer."
    );
    assert_eq!(errors("class { }")[0].message, "Expect class name.");
    assert_eq!(errors("class A { 1 }")[0].message, "Expect method name.");
}

#[test]
fn empty_return_in_initializer_returns_the_receiver() {
    let (_, heap) = script("class A { init() { return; } }");
    let (_, init, _) = function_named(&heap, "init");
    assert_eq!(
        init.codes,
        vec![
            op(OpCode::GetLocal), 0,
            op(OpCode::Return),
            op(OpCode::GetLocal), 0,
            op(OpCode::Return),
        ]
    );
}

#[test]
fn blank_source_always_compiles() {
    for source in ["", "   ", "\n\n", "// only a comment", "  // a\n// b\n\t"] {
        assert!(compile(source).0.is_ok(), "{source:?}");
    }
}

#[test]
fn first_token_error_always_fails() {
    for source in ["@", "  \"open", "# x = 1;", "\n$print 1;"] {
        assert!(compile(source).0.is_err(), "{source:?}");
    }
}

#[test]
fn jump_operands_are_the_distances() {
    let (chunk, _) = script("if (true) print 1; else print 2;");
    assert_eq!(chunk.decode(1), (Instruction::Jump(OpCode::JumpIfFalse, 7), 4));
    assert_eq!(chunk.decode(8), (Instruction::Jump(OpCode::Jump, 4), 11));
    assert_eq!(chunk.codes[4 + 7], op(OpCode::Pop));
}

#[test]
fn classes_closures_and_inheritance_compile() {
    let source = "class Animal {
    init(name) { this.name = name; }
    speak() { print this.name + \" makes a sound.\"; }
}

class Dog < Animal {
    speak() { print this.name + \" barks.\"; }
}

var d = Dog(\"Rex\");
d.speak();
d.describe();

fun make_counter(start) {
    var n = start;
    fun increment() { n = n + 1; return n; }
    return increment;
}

var counter = make_counter(0);
print counter();
print counter();
";
    let (_, heap) = script(source);
    for name in ["init", "speak", "make_counter", "increment"] {
        function_named(&heap, name);
    }
    let (_, increment, upvalues) = function_named(&heap, "increment");
    assert_eq!(upvalues, 1);
    assert_eq!(&increment.codes[..2], &[op(OpCode::GetUpValue), 0]);
}

#[test]
fn a_function_captures_a_variable_once() {
    let (_, heap) = script("fun f() { var a = 1; fun g() { return a + a; } }");
    let (_, g, upvalues) = function_named(&heap, "g");
    assert_eq!(upvalues, 1);
    assert_eq!(
        g.codes,
        vec![
            op(OpCode::GetUpValue), 0,
            op(OpCode::GetUpValue), 0,
            op(OpCode::Add),
            op(OpCode::Return),
            op(OpCode::Nil),
            op(OpCode::Return),
        ]
    );
}

#[test]
fn shadowing_in_an_inner_scope_is_allowed() {
    let (chunk, _) = script("{ var a = 1; { var a = 2; print a; } }");
    assert_eq!(
        chunk.codes,
        vec![
            op(OpCode::Constant), 0,
            op(OpCode::Constant), 1,
            op(OpCode::GetLocal), 2,
            op(OpCode::Print),
            op(OpCode::Pop),
            op(OpCode::Pop),
            op(OpCode::Nil),
            op(OpCode::Return),
        ]
    );
}

#[test]
fn recursive_function_compiles() {
    let (_, heap) = script("fun fib(n) { if (n < 2) return n; return fib(n - 1) + fib(n - 2); }");
    let (arity, fib, upvalues) = function_named(&heap, "fib");
    assert_eq!((arity, upvalues), (1, 0));
    assert_eq!(fib.codes[..4].to_vec(), vec![op(OpCode::GetLocal), 1, op(OpCode::Constant), 0]);
    assert_eq!(fib.lines.len(), fib.codes.len());
}

#[test]
fn errors_carry_their_lines() {
    let errs = errors("var a = 1;\nvar b = ;\n\nprint (1;");
    assert_eq!(errs.len(), 2);
    assert_eq!((errs[0].line, errs[0].message.as_str()), (2, "Expect expression"));
    assert!(matches!(&errs[0].site, ErrorSite::Lexeme(l) if l == ";"));
    assert_eq!((errs[1].line, errs[1].message.as_str()), (4, "Expect ')' after expression."));
}

#[test]
fn reading_a_local_in_its_own_initializer_falls_back_to_globals() {
    let (chunk, _) = script("{ var a = a; }");
    assert_eq!(
        chunk.codes,
        vec![
            op(OpCode::GetGlobal), 0,
            op(OpCode::Pop),
            op(OpCode::Nil),
            op(OpCode::Return),
        ]
    );
}

/// The objects that `from` leads to by following the constants of
/// function objects.
fn reachable_from(heap: &Heap, from: usize) -> Vec<bool> {
    let mut seen = vec![false; heap.objects.len()];
    let mut work = vec![from];
    while let Some(i) = work.pop() {
        if seen[i] {
            continue;
        }
        seen[i] = true;
        if let Object::Function { chunk, .. } = &heap.objects[i] {
            for v in &chunk.constants {
                work.push(v.as_obj() as usize);
            }
        }
    }
    seen
}

#[test]
fn every_compiled_object_is_reachable_from_the_script() {
    let mut heap = Heap::new();
    let before = heap.intern("kept apart".to_owned()) as usize + 1;
    let source = "var greeting = \"hi\";
fun outer(a) {
    var b = 2.5;
    fun inner() { return a + b + \"x\"; }
    return inner;
}
class Point { init(x) { this.x = x; } norm() { return this.x * 1; } }
print outer(1)();";
    let mut compiler = Compiler::new(Lexer::from(source), heap);
    let script = compiler.compile().expect("compiles") as usize;
    heap = compiler.into_heap();
    assert_eq!(script + 1, heap.objects.len());
    let seen = reachable_from(&heap, script);
    for i in before..=script {
        assert!(seen[i], "object {i} is not reachable: {:?}", heap.objects[i]);
    }
    assert!(!seen[0]);
}

#[test]
fn debug_records_every_function_in_the_order_finished() {
    let source = "class C { m() { fun inner() {} } } fun f(x) { return \"s\"; }";
    let mut compiler = Compiler::new(Lexer::from(source), Heap::new()).with_debug();
    let script = compiler.compile().unwrap();
    let finished = compiler.finished().clone();
    let heap = compiler.into_heap();
    let functions: Vec<u64> = (0..heap.objects.len() as u64)
        .filter(|&h| matches!(heap.objects[h as usize], Object::Function { .. }))
        .collect();
    assert_eq!(finished, functions);
    let names: Vec<String> = finished
        .iter()
        .map(|&h| match &heap.objects[h as usize] {
            Object::Function { name, .. } => name.clone(),
            _ => unreachable!(),
        })
        .collect();
    assert_eq!(names, vec!["inner", "m", "f", ""]);
    assert_eq!(*finished.last().unwrap(), script);
}

#[test]
fn every_compiled_function_ends_with_a_return() {
    let (_, heap) = script("fun f() { if (true) return 1; } class A { init() { return; } m() {} }");
    for object in &heap.objects {
        if let Object::Function { chunk, .. } = object {
            assert_eq!(*chunk.codes.last().unwrap(), op(OpCode::Return));
        }
    }
}

#[test]
fn upvalues_relay_through_intermediate_functions() {
    let source = "fun a() { var x = 1; var y = 2; fun b() { fun c() { return y; } } }";
    let (_, heap) = script(source);
    let (_, c, c_upvalues) = function_named(&heap, "c");
    assert_eq!(c_upvalues, 1);
    assert_eq!(&c.codes[..2], &[op(OpCode::GetUpValue), 0]);
    // b captures a's local `y` (slot 2) and hands it on to c as its upvalue 0.
    let (_, b, b_upvalues) = function_named(&heap, "b");
    assert_eq!(b_upvalues, 1);
    assert_eq!(&b.codes[..4], &[op(OpCode::Closure), 0, 0, 0]);
    let (_, a, _) = function_named(&heap, "a");
    assert_eq!(&a.codes[4..8], &[op(OpCode::Closure), 2, 1, 2]);
}

#[test]
fn a_block_keeps_its_locals_in_slots_and_pops_them() {
    let (chunk, heap) = script("{ var a = 1; var b = a; }");
    assert_eq!(
        chunk.codes,
        vec![
            op(OpCode::Constant), 0,
            op(OpCode::GetLocal), 1,
            op(OpCode::Pop),
            op(OpCode::Pop),
            op(OpCode::Nil),
            op(OpCode::Return),
        ]
    );
    assert_eq!(chunk.constants.len(), 1);
    assert!(heap.strings.is_empty());
}

#[test]
fn a_function_declaration_compiles_to_a_closure_and_a_global() {
    let (chunk, heap) = script("fun f(a, b) { return a; }");
    assert_eq!(
        chunk.codes,
        vec![op(OpCode::Closure), 1, op(OpCode::DefineGlobal), 0, op(OpCode::Nil), op(OpCode::Return)]
    );
    let (arity, f, upvalues) = function_named(&heap, "f");
    assert_eq!((arity, upvalues), (2, 0));
    assert_eq!(f.codes, vec![op(OpCode::GetLocal), 1, op(OpCode::Return), op(OpCode::Nil), op(OpCode::Return)]);
    assert!(matches!(&heap.objects[chunk.constants[0].as_obj() as usize], Object::String(s) if s == "f"));
}

#[test]
fn panic_mode_reports_one_error_per_statement() {
    let errs = errors("print ; print ;");
    assert_eq!(errs.len(), 2);
    for e in &errs {
        assert_eq!((e.line, e.message.as_str()), (1, "Expect expression"));
        assert!(matches!(&e.site, ErrorSite::Lexeme(l) if l == ";"));
    }
}

#[test]
fn common_mistakes_do_not_compile() {
    for source in ["return 1;", "a + b = 1;", "{ var a; var a; }"] {
        assert!(compile(source).0.is_err(), "{source:?}");
    }
}

#[test]
fn too_many_arguments_do_not_compile() {
    let args = vec!["nil"; 256].join(", ");
    let errs = errors(&format!("f({args});"));
    assert!(errs.iter().any(|e| e.message == "Can't have more than 255 arguments."));
}

#[test]
fn too_many_constants_do_not_compile() {
    let source = "0;".repeat(257);
    let errs = errors(&source);
    assert!(errs.iter().any(|e| e.message == "too many constants for one chunk"));
}

#[test]
fn a_lone_variable_declaration_with_trivia_compiles_to_define_global() {
    let (chunk, heap) = script("  // leading comment\n var   name_1 ;  // trailing\n");
    assert_eq!(
        chunk.codes,
        vec![op(OpCode::Nil), op(OpCode::DefineGlobal), 0, op(OpCode::Nil), op(OpCode::Return)]
    );
    assert_eq!(chunk.constants.len(), 1);
    let handle = chunk.constants[0].as_obj() as usize;
    assert!(matches!(&heap.objects[handle], Object::String(s) if s == "name_1"));
}

#[test]
fn declaring_a_name_twice_at_the_start_of_a_block_fails_whatever_follows() {
    let errors = errors("{ var abc; // again\n var abc; print 1; }");
    assert!(!errors.is_empty());
    assert!(errors[0].message.contains("Already a variable with this name in this scope"));
    assert!(compile("{ var abc; var abd; }").0.is_ok());
}

#[test]
fn a_script_that_starts_with_return_fails() {
    assert!(compile("return;").0.is_err());
    assert!(compile("return 1 + 2; print 3;").0.is_err());
}
