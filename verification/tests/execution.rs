use brainfuck::runner::{CAPACITY, run_code_test};

#[test]
fn test_input_operation() {
    let source = ",.";
    let input = vec![b'A'];
    let runtime = run_code_test(source, input).unwrap();
    assert_eq!(runtime.io.get_output(), "A");
    assert_eq!(runtime.get_memory_at(0), Some(b'A'));
}

#[test]
fn test_basic_increment() {
    let source = "++++.";
    let runtime = run_code_test(source, vec![]).unwrap();
    assert_eq!(runtime.io.get_output(), "\u{4}");
    assert_eq!(runtime.get_memory_at(0), Some(4));
}

#[test]
fn test_hello_world() {
    let source = "++++++++[>++++[>++>+++>+++>+<<<<-]>+>+>->>+[<]<-]>>.>---.+++++++..+++.>>.<-.<.+++.------.--------.>>+.>++.";
    let runtime = run_code_test(source, vec![]).unwrap();
    assert_eq!(runtime.io.get_output(), "Hello World!\n");
}

#[test]
fn test_memory_operations() {
    let source = "+++>++>+";
    let runtime = run_code_test(source, vec![]).unwrap();
    assert_eq!(runtime.get_memory_at(0), Some(3));
    assert_eq!(runtime.get_memory_at(1), Some(2));
    assert_eq!(runtime.get_memory_at(2), Some(1));
}

#[test]
fn test_simple_loop() {
    let source = "++[>+++<-]>";
    let runtime = run_code_test(source, vec![]).unwrap();
    assert_eq!(runtime.get_memory_at(1), Some(6));
    assert_eq!(runtime.get_memory_at(0), Some(0));
}

#[test]
fn test_out_of_bounds_memory_access() {
    let source = ">";
    let runtime = run_code_test(source, vec![]).unwrap();
    assert_eq!(runtime.get_memory_at(CAPACITY), None);
}

#[test]
fn test_increment_wraps_modulo_256() {
    let mut source = "+".repeat(260);
    source.push('.');
    let runtime = run_code_test(&source, vec![]).unwrap();
    assert_eq!(runtime.get_memory_at(0), Some(4));
    assert_eq!(runtime.io.get_output(), "\u{4}");
}

#[test]
fn test_decrement_wraps_modulo_256() {
    let runtime = run_code_test("-", vec![]).unwrap();
    assert_eq!(runtime.get_memory_at(0), Some(255));
}

#[test]
fn test_exhausted_input_leaves_cell_unchanged() {
    let runtime = run_code_test("+++,", vec![]).unwrap();
    assert_eq!(runtime.get_memory_at(0), Some(3));
}

#[test]
fn test_input_consumed_in_order() {
    let runtime = run_code_test(",>,", vec![b'A', b'B']).unwrap();
    assert_eq!(runtime.get_memory_at(0), Some(b'A'));
    assert_eq!(runtime.get_memory_at(1), Some(b'B'));
}

#[test]
fn test_pointer_fault_moving_left_of_zero() {
    assert!(run_code_test("<", vec![]).is_none());
}

#[test]
fn test_parse_error_yields_no_runtime() {
    assert!(run_code_test("[", vec![]).is_none());
    assert!(run_code_test("]", vec![]).is_none());
    assert!(run_code_test("nope", vec![]).is_none());
}

#[test]
fn test_loop_skipped_on_zero_cell() {
    let runtime = run_code_test("[+++]>+", vec![]).unwrap();
    assert_eq!(runtime.get_memory_at(0), Some(0));
    assert_eq!(runtime.get_memory_at(1), Some(1));
}

#[test]
fn test_output_log_matches_io_output() {
    let runtime = run_code_test("+.+.", vec![]).unwrap();
    assert_eq!(runtime.output, vec![1u8, 2u8]);
    assert_eq!(runtime.io.get_output(), "\u{1}\u{2}");
}

#[test]
fn test_empty_program_runs_to_untouched_state() {
    let runtime = run_code_test("", vec![]).unwrap();
    assert_eq!(runtime.get_memory_at(0), Some(0));
    assert_eq!(runtime.io.get_output(), "");
    assert_eq!(runtime.output, Vec::<u8>::new());
}
