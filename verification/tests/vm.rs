use rlox::chunk::{Chunk, OpCode};
use rlox::value::Value;
use rlox::vecmap::VecMap;
use rlox::vm::{
    call_value, close_upvalues, enter_call, find_member, return_from, step, CallError, CallKind, Callee, InterpretResult, OpenUpvalues,
    Member, Returned, StepOutcome, FRAMES_MAX, STACK_MAX,
};

#[test]
fn limits() {
    assert_eq!(FRAMES_MAX, 64);
    assert_eq!(STACK_MAX, 64 * 255);
    assert_ne!(InterpretResult::Success, InterpretResult::RuntimeError);
}

#[test]
fn a_call_starts_its_frame_at_the_callee() {
    assert_eq!(enter_call(2, 2, 1, 10), Ok(7));
    assert_eq!(enter_call(0, 0, 0, 1), Ok(0));
    assert_eq!(enter_call(1, 1, FRAMES_MAX - 1, 5), Ok(3));
}

#[test]
fn a_call_with_the_wrong_argument_count_is_refused() {
    assert_eq!(enter_call(2, 1, 1, 10), Err(CallError::Arity { expected: 2, got: 1 }));
    assert_eq!(enter_call(0, 3, 0, 4), Err(CallError::Arity { expected: 0, got: 3 }));
    // The argument count is checked before the frames.
    assert_eq!(
        enter_call(1, 0, FRAMES_MAX, 4),
        Err(CallError::Arity { expected: 1, got: 0 })
    );
}

#[test]
fn a_call_past_the_last_frame_overflows() {
    assert_eq!(enter_call(1, 1, FRAMES_MAX, 4), Err(CallError::StackOverflow));
}

#[test]
fn closures_share_the_upvalue_of_a_slot() {
    let mut open: OpenUpvalues<u32> = OpenUpvalues::new();
    assert_eq!(open.find(3), None);
    open.add(3, 30);
    open.add(7, 70);
    assert_eq!(open.find(3), Some(30));
    assert_eq!(open.find(3), Some(30));
    assert_eq!(open.find(7), Some(70));
    assert_eq!(open.find(5), None);
    assert_eq!(open.values(), vec![30, 70]);
}

#[test]
fn closing_takes_the_upvalues_at_or_above_the_base() {
    let mut open: OpenUpvalues<u32> = OpenUpvalues::new();
    for (slot, uv) in [(4, 40), (1, 10), (9, 90), (6, 60), (2, 20)] {
        open.add(slot, uv);
    }
    let closed = open.close_from(5);
    assert_eq!(closed, vec![(9, 90), (6, 60)]);
    assert_eq!(open.values(), vec![40, 10, 20]);
    assert_eq!(open.find(9), None);
    assert_eq!(open.find(4), Some(40));
    let closed = open.close_from(0);
    assert_eq!(closed, vec![(4, 40), (1, 10), (2, 20)]);
    assert_eq!(open.values(), Vec::<u32>::new());
    assert_eq!(open.close_from(0), vec![]);
}

#[test]
fn each_kind_of_callee_proceeds_its_own_way() {
    assert_eq!(call_value(Callee::NotObject, 0, 0, 1), Err(CallError::NotObject));
    assert_eq!(call_value(Callee::Other, 1, 0, 2), Err(CallError::NotCallable));
    assert_eq!(call_value(Callee::Native, 2, 3, 10), Ok(CallKind::Native { args: 8 }));
    assert_eq!(call_value(Callee::Function { arity: 2 }, 2, 3, 10), Ok(CallKind::Frame { base: 7 }));
    assert_eq!(
        call_value(Callee::Function { arity: 1 }, 2, 3, 10),
        Err(CallError::Arity { expected: 1, got: 2 })
    );
    assert_eq!(call_value(Callee::BoundMethod { arity: 0 }, 0, 1, 4), Ok(CallKind::Frame { base: 3 }));
    assert_eq!(
        call_value(Callee::BoundMethod { arity: 0 }, 0, FRAMES_MAX, 4),
        Err(CallError::StackOverflow)
    );
}

#[test]
fn a_class_call_constructs_and_runs_its_initializer() {
    assert_eq!(
        call_value(Callee::Class { init_arity: Some(1) }, 1, 2, 6),
        Ok(CallKind::Construct { slot: 4, init: Some(4) })
    );
    assert_eq!(
        call_value(Callee::Class { init_arity: Some(1) }, 0, 2, 6),
        Err(CallError::Arity { expected: 1, got: 0 })
    );
    assert_eq!(call_value(Callee::Class { init_arity: None }, 0, 2, 6), Ok(CallKind::Construct { slot: 5, init: None }));
    assert_eq!(
        call_value(Callee::Class { init_arity: None }, 2, 2, 6),
        Err(CallError::Arity { expected: 0, got: 2 })
    );
}

fn chunk_of(codes: Vec<u8>, constants: Vec<Value>) -> Chunk {
    let lines = vec![1; codes.len()];
    Chunk { codes, constants, lines }
}

fn op(o: OpCode) -> u8 {
    u8::from(o)
}

#[test]
fn step_runs_stack_global_and_jump_instructions() {
    let name = Value::from_obj(40);
    let mut stack: Vec<Value> = Vec::new();
    let mut globals: VecMap<Value> = VecMap::default();

    let c = chunk_of(vec![op(OpCode::Constant), 0], vec![Value::from_bool(true)]);
    let (ip, out) = step(&mut stack, &mut globals, &c, 0, 0);
    assert_eq!(ip, 2);
    assert!(matches!(out, StepOutcome::Continue));
    assert_eq!(stack.len(), 1);
    assert!(stack[0].as_bool());

    // Reading a global that was never defined is an error that changes nothing.
    let g = chunk_of(vec![op(OpCode::GetGlobal), 0], vec![name]);
    let (ip, out) = step(&mut stack, &mut globals, &g, 0, 0);
    assert_eq!(ip, 2);
    assert!(matches!(out, StepOutcome::UndefinedVariable(v) if v.as_obj() == 40));
    assert_eq!(stack.len(), 1);

    // Define it from the top of the stack, then read it back.
    let d = chunk_of(vec![op(OpCode::DefineGlobal), 0], vec![name]);
    let (ip, out) = step(&mut stack, &mut globals, &d, 0, 0);
    assert_eq!(ip, 2);
    assert!(matches!(out, StepOutcome::Continue));
    assert!(stack.is_empty());
    let (_, out) = step(&mut stack, &mut globals, &g, 0, 0);
    assert!(matches!(out, StepOutcome::Continue));
    assert_eq!(stack.len(), 1);
    assert!(stack[0].as_bool());

    // `not` of true is false; a false condition jumps.
    let n = chunk_of(vec![op(OpCode::Not)], vec![]);
    let (ip, _) = step(&mut stack, &mut globals, &n, 0, 0);
    assert_eq!(ip, 1);
    assert!(stack[0].is_falsey());
    let j = chunk_of(vec![op(OpCode::Nil), op(OpCode::JumpIfFalse), 0, 5], vec![]);
    let (ip, _) = step(&mut stack, &mut globals, &j, 1, 0);
    assert_eq!(ip, 9);
    stack[0] = Value::from_bool(true);
    let (ip, _) = step(&mut stack, &mut globals, &j, 1, 0);
    assert_eq!(ip, 4);
    let l = chunk_of(vec![op(OpCode::Nil), op(OpCode::Nil), op(OpCode::Loop), 0, 5], vec![]);
    let (ip, _) = step(&mut stack, &mut globals, &l, 2, 0);
    assert_eq!(ip, 0);
    let k = chunk_of(vec![op(OpCode::Jump), 1, 0], vec![]);
    let (ip, _) = step(&mut stack, &mut globals, &k, 0, 0);
    assert_eq!(ip, 259);

    // Locals are counted from the frame's base.
    stack.push(Value::nil());
    let s = chunk_of(vec![op(OpCode::SetLocal), 0], vec![]);
    let (_, _) = step(&mut stack, &mut globals, &s, 0, 1);
    assert!(stack[1].is_nil());
    let gl = chunk_of(vec![op(OpCode::GetLocal), 0], vec![]);
    let (_, _) = step(&mut stack, &mut globals, &gl, 0, 0);
    assert_eq!(stack.len(), 3);
    assert!(stack[2].as_bool());

    // `print` hands the top of the stack to the machine.
    let p = chunk_of(vec![op(OpCode::Print)], vec![]);
    let (ip, out) = step(&mut stack, &mut globals, &p, 0, 0);
    assert_eq!(ip, 1);
    assert!(matches!(out, StepOutcome::Print(v) if v.as_bool()));
    assert_eq!(stack.len(), 2);

    // Arithmetic is left to the machine, untouched.
    let a = chunk_of(vec![op(OpCode::Add)], vec![]);
    let (ip, out) = step(&mut stack, &mut globals, &a, 0, 0);
    assert_eq!(ip, 0);
    assert!(matches!(out, StepOutcome::Delegate(OpCode::Add)));
    assert_eq!(stack.len(), 2);
}

#[test]
fn a_field_shadows_a_method_of_the_same_name() {
    let mut fields: VecMap<Value> = VecMap::default();
    let mut methods: VecMap<Value> = VecMap::default();
    methods.insert(1, Value::from_obj(100));
    methods.insert(2, Value::from_obj(200));
    fields.insert(1, Value::from_bool(true));
    assert!(matches!(find_member(&fields, &methods, 1), Member::Field(v) if v.as_bool()));
    assert!(matches!(find_member(&fields, &methods, 2), Member::Method(v) if v.as_obj() == 200));
    assert!(matches!(find_member(&fields, &methods, 3), Member::Undefined));
}

#[test]
fn returning_closes_the_frames_upvalues_and_leaves_the_result() {
    let v = |n: u64| Value::from_obj(n);
    // Caller slots 0..2, callee frame from slot 2, result on top.
    let mut stack = vec![v(1), v(2), v(3), v(4), v(5), v(6)];
    let mut open: OpenUpvalues<u32> = OpenUpvalues::new();
    open.add(1, 10);
    open.add(3, 30);
    open.add(4, 40);
    match return_from(&mut stack, &mut open, 2, false) {
        Returned::Resumed(closed) => {
            let got: Vec<(u32, u64)> = closed.iter().map(|(u, val)| (*u, val.as_obj())).collect();
            assert_eq!(got, vec![(30, 4), (40, 5)]);
        }
        Returned::Finished => panic!("the caller goes on"),
    }
    let left: Vec<u64> = stack.iter().map(|x| x.as_obj()).collect();
    assert_eq!(left, vec![1, 2, 6]);
    assert_eq!(open.values(), vec![10]);

    // The script's own frame: result and script leave the stack.
    let mut stack = vec![v(1), v(2)];
    assert!(matches!(return_from(&mut stack, &mut open, 0, true), Returned::Finished));
    assert!(stack.is_empty());
    assert_eq!(open.values(), vec![10]);
}

#[test]
fn closing_a_scope_closes_only_the_upvalues_at_or_above_it() {
    let stack = vec![Value::from_obj(1), Value::from_obj(2), Value::from_obj(3)];
    let mut open: OpenUpvalues<u32> = OpenUpvalues::new();
    open.add(2, 20);
    open.add(0, 0);
    let closed = close_upvalues(&stack, &mut open, 2);
    assert_eq!(closed.len(), 1);
    assert_eq!(closed[0].0, 20);
    assert_eq!(closed[0].1.as_obj(), 3);
    assert_eq!(open.values(), vec![0]);
}

#[test]
fn step_compares_values_that_are_not_numbers() {
    let mut globals: VecMap<Value> = VecMap::default();
    let eq = chunk_of(vec![op(OpCode::Equal)], vec![]);
    let cases = [
        (Value::nil(), Value::nil(), true),
        (Value::nil(), Value::from_bool(false), false),
        (Value::from_bool(true), Value::from_bool(true), true),
        (Value::from_bool(true), Value::from_bool(false), false),
        (Value::from_obj(7), Value::from_obj(7), true),
        (Value::from_obj(7), Value::from_obj(8), false),
        (Value::from_obj(7), Value::nil(), false),
    ];
    for (a, b, expected) in cases {
        let mut stack = vec![a, b];
        let (ip, out) = step(&mut stack, &mut globals, &eq, 0, 0);
        assert_eq!(ip, 1);
        assert!(matches!(out, StepOutcome::Continue));
        assert_eq!(stack.len(), 1);
        assert_eq!(stack[0].as_bool(), expected);
    }
    // A number on the left is compared by the machine, as a double.
    let mut stack = vec![Value(1.5f64.to_bits()), Value(1.5f64.to_bits())];
    let (ip, out) = step(&mut stack, &mut globals, &eq, 0, 0);
    assert_eq!(ip, 0);
    assert!(matches!(out, StepOutcome::Delegate(OpCode::Equal)));
    assert_eq!(stack.len(), 2);
}
