use libbrainsight::{parse, Interpreter, Op, RuntimeError};

#[test]
fn a_new_machine_is_all_zero() {
    let interpreter = Interpreter::new();
    assert_eq!(interpreter.get_data_ptr(), 0);
    assert_eq!(interpreter.get_memory().len(), 30000);
    assert!(interpreter.get_memory().iter().all(|c| *c == 0));
}

#[test]
fn decrement_wraps_below_the_range() {
    let mut interpreter = Interpreter::new();
    interpreter.set_memory(0, -128);
    interpreter.run(&[Op::Dec(1)]).unwrap();
    assert_eq!(interpreter.get_memory()[0], 127);
}

#[test]
fn increments_of_256_in_all_return_to_the_start() {
    for start in [-128i8, -1, 0, 1, 77, 127] {
        let mut interpreter = Interpreter::new();
        interpreter.set_memory(0, start);
        for _ in 0..256 {
            interpreter.run(&[Op::Inc(1)]).unwrap();
        }
        assert_eq!(interpreter.get_memory()[0], start);

        interpreter.run(&[Op::Inc(256)]).unwrap();
        assert_eq!(interpreter.get_memory()[0], start);
        interpreter.run(&[Op::Dec(512)]).unwrap();
        assert_eq!(interpreter.get_memory()[0], start);
    }
}

#[test]
fn large_counts_wrap() {
    let mut interpreter = Interpreter::new();
    interpreter.run(&[Op::Inc(200)]).unwrap();
    assert_eq!(interpreter.get_memory()[0], -56);
    interpreter.run(&[Op::Inc(1000)]).unwrap();
    assert_eq!(interpreter.get_memory()[0], -80);
    interpreter.run(&[Op::Dec(300)]).unwrap();
    assert_eq!(interpreter.get_memory()[0], -124);
    interpreter.increment(usize::MAX);
    assert_eq!(interpreter.get_memory()[0], -125);
}

#[test]
fn forward_to_the_last_cell_is_allowed() {
    let mut interpreter = Interpreter::new();
    interpreter.run(&[Op::Next(29999)]).unwrap();
    assert_eq!(interpreter.get_data_ptr(), 29999);
    assert_eq!(interpreter.run(&[Op::Next(0)]), Ok(()));
    assert_eq!(interpreter.get_data_ptr(), 29999);
}

#[test]
fn overflow_leaves_the_pointer() {
    let mut interpreter = Interpreter::new();
    interpreter.set_data_ptr(29998);
    assert_eq!(
        interpreter.run(&[Op::Next(2)]),
        Err(RuntimeError::PointerOverflow)
    );
    assert_eq!(interpreter.get_data_ptr(), 29998);
    assert_eq!(
        interpreter.move_forward(usize::MAX),
        Err(RuntimeError::PointerOverflow)
    );
    assert_eq!(interpreter.get_data_ptr(), 29998);
    assert_eq!(interpreter.move_forward(1), Ok(()));
    assert_eq!(interpreter.get_data_ptr(), 29999);
}

#[test]
fn underflow_leaves_the_pointer() {
    let mut interpreter = Interpreter::new();
    interpreter.set_data_ptr(5);
    assert_eq!(
        interpreter.run(&[Op::Prev(6)]),
        Err(RuntimeError::PointerUnderflow)
    );
    assert_eq!(interpreter.get_data_ptr(), 5);
    assert_eq!(interpreter.move_backward(5), Ok(()));
    assert_eq!(interpreter.get_data_ptr(), 0);
}

#[test]
fn an_error_stops_the_run_where_it_stands() {
    let mut interpreter = Interpreter::new();
    let result = interpreter.run(&[Op::Inc(4), Op::Prev(1), Op::Inc(1)]);
    assert_eq!(result, Err(RuntimeError::PointerUnderflow));
    assert_eq!(interpreter.get_memory()[0], 4);
}

#[test]
fn an_error_inside_a_loop_ends_the_run() {
    let mut interpreter = Interpreter::new();
    let program = parse(b"+[>+<<]+").unwrap();
    assert_eq!(
        interpreter.run(&program),
        Err(RuntimeError::PointerUnderflow)
    );
    assert_eq!(interpreter.get_memory()[0], 1);
    assert_eq!(interpreter.get_memory()[1], 1);
    assert_eq!(interpreter.get_data_ptr(), 1);
}

#[test]
fn a_loop_entered_on_zero_runs_no_round() {
    let mut interpreter = Interpreter::new();
    let program = vec![Op::Loop(vec![Op::Next(1), Op::Inc(1), Op::Prev(2)])];
    assert_eq!(interpreter.run(&program), Ok(()));
    assert_eq!(interpreter.get_data_ptr(), 0);
    assert!(interpreter.get_memory().iter().all(|c| *c == 0));
}

#[test]
fn a_loop_entered_on_three_runs_three_rounds() {
    let mut interpreter = Interpreter::new();
    interpreter.set_memory(0, 3);
    let program = vec![Op::Loop(vec![
        Op::Dec(1),
        Op::Next(1),
        Op::Inc(7),
        Op::Prev(1),
    ])];
    interpreter.run(&program).unwrap();
    assert_eq!(interpreter.get_memory()[0], 0);
    assert_eq!(interpreter.get_memory()[1], 21);
}

#[test]
fn a_loop_on_a_negative_cell_wraps_round() {
    let mut interpreter = Interpreter::new();
    interpreter.set_memory(0, -2);
    let program = parse(b"[->+<]").unwrap();
    interpreter.run(&program).unwrap();
    assert_eq!(interpreter.get_memory()[0], 0);
    assert_eq!(interpreter.get_memory()[1], -2);
}

#[test]
fn nested_loops_multiply() {
    let mut interpreter = Interpreter::new();
    let program = parse(b"++++[>+++[>++<-]<-]").unwrap();
    interpreter.run(&program).unwrap();
    assert_eq!(interpreter.get_memory()[0], 0);
    assert_eq!(interpreter.get_memory()[1], 0);
    assert_eq!(interpreter.get_memory()[2], 24);
}

#[test]
fn parsed_text_runs() {
    let mut interpreter = Interpreter::new();
    let program = parse(b"+++ add three\n>++<[->+<]").unwrap();
    interpreter.run(&program).unwrap();
    assert_eq!(interpreter.get_memory()[0], 0);
    assert_eq!(interpreter.get_memory()[1], 5);
}

#[test]
fn store_input_turns_carriage_return_into_line_feed() {
    let mut interpreter = Interpreter::new();
    interpreter.store_input(Some(13));
    assert_eq!(interpreter.get_memory()[0], 10);
    interpreter.store_input(Some(10));
    assert_eq!(interpreter.get_memory()[0], 10);
    interpreter.store_input(Some(65));
    assert_eq!(interpreter.get_memory()[0], 65);
}

#[test]
fn store_input_reads_high_bytes_as_negative() {
    let mut interpreter = Interpreter::new();
    interpreter.store_input(Some(255));
    assert_eq!(interpreter.get_memory()[0], -1);
    interpreter.store_input(Some(128));
    assert_eq!(interpreter.get_memory()[0], -128);
    interpreter.store_input(Some(127));
    assert_eq!(interpreter.get_memory()[0], 127);
}

#[test]
fn end_of_input_leaves_the_cell() {
    let mut interpreter = Interpreter::new();
    interpreter.set_memory(0, 42);
    interpreter.store_input(None);
    assert_eq!(interpreter.get_memory()[0], 42);
}

#[test]
fn output_byte_is_the_cell_read_as_unsigned() {
    let mut interpreter = Interpreter::new();
    assert_eq!(interpreter.output_byte(), 0);
    interpreter.set_memory(0, 65);
    assert_eq!(interpreter.output_byte(), 65);
    interpreter.set_memory(0, -1);
    assert_eq!(interpreter.output_byte(), 255);
    interpreter.set_memory(0, -128);
    assert_eq!(interpreter.output_byte(), 128);
}

#[test]
fn printing_leaves_the_machine() {
    let mut interpreter = Interpreter::new();
    interpreter.set_memory(0, 66);
    assert_eq!(interpreter.run(&[Op::Print, Op::Print]), Ok(()));
    assert_eq!(interpreter.get_memory()[0], 66);
    assert_eq!(interpreter.get_data_ptr(), 0);
}

#[test]
fn runtime_error_messages() {
    assert_eq!(
        RuntimeError::PointerOverflow.message(),
        "Data pointer overflow"
    );
    assert_eq!(
        RuntimeError::PointerUnderflow.message(),
        "Data pointer underflow"
    );
    assert_eq!(
        RuntimeError::Flush(String::from("broken pipe")).message(),
        "broken pipe"
    );
    assert_eq!(
        RuntimeError::RoundLimit.message(),
        "Loop round limit reached"
    );
}
