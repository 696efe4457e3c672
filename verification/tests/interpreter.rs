use quark::data::{QuarkMarker, QuarkStack, QuarkType};
use quark::exec::{Action, Executor, Fault};
use quark::format::{code_list_text, format_arr, format_qsen, print_text};
use quark::number::{BigNum, Decimal};
use quark::parse::{
    blocks_balanced, decode, decode_id, parse_to_executable, unencoded_to_id, CodePiece,
};

fn codepage() -> Vec<char> {
    let mut cp = vec!['\n', ' '];
    for d in "0123456789".chars() {
        cp.push(d);
    }
    for c in "+-*/".chars() {
        cp.push(c);
    }
    cp
}

fn num(n: u64) -> QuarkType {
    QuarkType::Number(Decimal::from_u64(n))
}

fn run(tokens: Vec<usize>) -> (Executor, Vec<Action>) {
    let code = parse_to_executable(tokens);
    let mut e = Executor::new(code);
    let mut actions = Vec::new();
    for _ in 0..1000 {
        let a = e.step();
        match a {
            Action::Continue => {}
            Action::Halt | Action::Abort(_) | Action::Diverge => {
                actions.push(a);
                break;
            }
            other => actions.push(other),
        }
    }
    (e, actions)
}

fn stack_text(e: &Executor) -> String {
    e.stack().text()
}

// ------------------------------------------------------------ the stack

#[test]
fn pop_of_empty_stack_gives_zero() {
    let mut s = QuarkStack::new();
    let v = s.pop();
    assert_eq!(print_text(&v), "0");
    assert!(s.is_end());
}

#[test]
fn pop_after_push_gives_the_value_back() {
    let mut s = QuarkStack::new();
    s.push(num(4));
    s.push(num(9));
    assert_eq!(print_text(&s.pop()), "9");
    assert_eq!(s.len(), 1);
    assert_eq!(print_text(&s.pop()), "4");
    assert!(s.is_end());
}

#[test]
fn pinned_top_stays_when_popped() {
    let mut s = QuarkStack::new();
    s.push(num(5));
    s.pin();
    assert_eq!(print_text(&s.pop()), "5");
    assert_eq!(print_text(&s.pop()), "5");
    assert_eq!(s.len(), 1);
    assert!(s.flags().contains(QuarkMarker::pinned()));
    s.pin();
    assert!(!s.flags().contains(QuarkMarker::pinned()));
    assert_eq!(print_text(&s.pop()), "5");
    assert!(s.is_end());
}

#[test]
fn flags_on_empty_stack_pushes_zero() {
    let mut s = QuarkStack::new();
    let f = s.flags();
    assert_eq!(f.bits(), 0);
    assert_eq!(s.len(), 1);
    assert_eq!(s.text(), "STACK\n0:NONE\nEND STACK\n");
}

#[test]
fn flag_and_arraymark_mark_the_top() {
    let mut s = QuarkStack::new();
    s.push(num(1));
    s.arraymark();
    s.flag(QuarkMarker::pinned());
    assert_eq!(s.flags().bits(), 0b1100_0000);
    assert_eq!(s.text(), "STACK\n1:ARRAY_BEGIN | PINNED\nEND STACK\n");
    s.flag(QuarkMarker::input_var());
    assert_eq!(s.flags().bits(), 0b1110_0000);
    s.arraymark();
    assert_eq!(s.flags().bits(), 0b0110_0000);
}

#[test]
fn get_copies_an_element() {
    let mut s = QuarkStack::new();
    s.push(num(3));
    s.push(num(8));
    s.pin();
    let (v, m) = s.get(1).unwrap();
    assert_eq!(print_text(&v), "8");
    assert_eq!(m.bits(), 0b0100_0000);
    assert!(s.get(2).is_none());
    assert_eq!(s.len(), 2);
}

#[test]
fn marker_texts() {
    assert_eq!(QuarkMarker::none().debug_text(), "NONE");
    assert_eq!(QuarkMarker::pinned().debug_text(), "PINNED");
    let mut m = QuarkMarker::none();
    m.set(QuarkMarker::array_begin(), true);
    m.set(QuarkMarker::input_var(), true);
    assert_eq!(m.debug_text(), "ARRAY_BEGIN | INPUT_VAR");
    m.set(QuarkMarker::array_begin(), false);
    assert_eq!(m.debug_text(), "INPUT_VAR");
    m.toggle(QuarkMarker::input_var());
    assert_eq!(m.bits(), 0);
}

// -------------------------------------------------------------- decoding

#[test]
fn decode_id_reads_only_the_first_nine_bits() {
    assert_eq!(decode_id(&[0b1000_0000, 0]), vec![1]);
    assert_eq!(decode_id(&[0, 0b1000_0000]), vec![256]);
    assert_eq!(decode_id(&[0b1100_0000, 0b1000_0000, 0xFF, 0xFF]), vec![259]);
    assert_eq!(decode_id(&[0xFF]), Vec::<usize>::new());
    assert_eq!(decode_id(&[]), Vec::<usize>::new());
}

#[test]
fn decode_maps_the_first_id_through_the_code_page() {
    let cp = codepage();
    assert_eq!(decode(&[0b1000_0000, 0], &cp), " ");
    assert_eq!(decode(&[0b0100_0000, 0], &cp), "0");
    assert_eq!(decode(&[0b0011_0000, 0, 0xAA], &cp), "+");
    assert_eq!(decode(&[0x12], &cp), "");
}

#[test]
fn unencoded_to_id_looks_up_characters() {
    let cp = codepage();
    assert_eq!(unencoded_to_id("12+x 3".to_string(), &cp), vec![3, 4, 12, 1, 5]);
    assert_eq!(unencoded_to_id(String::new(), &cp), Vec::<usize>::new());
    let dup = vec!['a', 'b', 'a'];
    assert_eq!(unencoded_to_id("ab".to_string(), &dup), vec![0, 1]);
}

// --------------------------------------------------------------- parsing

#[test]
fn parse_builds_numbers_from_digits() {
    let prog = parse_to_executable(vec![5, 6, 1, 11, 2, 12]);
    assert_eq!(code_list_text(&prog), "[Number(34), Point(1), Number(90), Point(12)]");
}

#[test]
fn parse_drops_a_number_at_the_end() {
    let prog = parse_to_executable(vec![12, 5, 6]);
    assert_eq!(code_list_text(&prog), "[Point(12)]");
}

#[test]
fn parse_flattens_nested_blocks() {
    let prog = parse_to_executable(vec![32, 3, 32, 4, 33, 5, 33]);
    assert_eq!(
        code_list_text(&prog),
        "[Block([Number(2)]), Block([Number(1), Number(3)])]"
    );
}

#[test]
fn parse_drops_an_unclosed_block() {
    let prog = parse_to_executable(vec![41, 32, 3]);
    assert_eq!(code_list_text(&prog), "[Point(41)]");
}

#[test]
fn blocks_balanced_finds_unmatched_closes() {
    assert!(blocks_balanced(&vec![32, 33, 32, 32, 33]));
    assert!(!blocks_balanced(&vec![33]));
    assert!(!blocks_balanced(&vec![32, 33, 33, 32]));
    assert!(blocks_balanced(&vec![]));
}

#[test]
fn code_piece_texts() {
    let v = vec![
        CodePiece::Point(7),
        CodePiece::Number(BigNum { negative: true, magnitude: vec![12] }),
        CodePiece::Block(vec![]),
    ];
    assert_eq!(code_list_text(&v), "[Point(7), Number(-12), Block([])]");
    let big = vec![CodePiece::Number(BigNum::from_u64(10_000_000_000))];
    assert_eq!(code_list_text(&big), "[Number(10000000000)]");
}

// -------------------------------------------------------------- executing

#[test]
fn add_pushes_the_sum() {
    // 3 4 +
    let (e, actions) = run(vec![5, 1, 6, 12]);
    assert!(matches!(actions.last(), Some(Action::Halt)));
    assert_eq!(stack_text(&e), "STACK\n7:NONE\nEND STACK\n");
}

#[test]
fn subtract_takes_the_second_from_the_top() {
    // 3 10 -  gives 10 - 3
    let (e, _) = run(vec![5, 1, 3, 2, 13]);
    assert_eq!(stack_text(&e), "STACK\n7:NONE\nEND STACK\n");
}

#[test]
fn multiply_and_divide() {
    // 6 7 *
    let (e, _) = run(vec![8, 1, 9, 14]);
    assert_eq!(stack_text(&e), "STACK\n42:NONE\nEND STACK\n");
    // 4 2 /  gives 2 / 4
    let (e, _) = run(vec![6, 1, 4, 15]);
    assert_eq!(stack_text(&e), "STACK\n0.5:NONE\nEND STACK\n");
}

#[test]
fn divide_by_zero_aborts() {
    // 0 5 /  gives 5 / 0
    let (_, actions) = run(vec![2, 1, 7, 15]);
    assert!(matches!(actions.last(), Some(Action::Abort(Fault::DivisionByZero))));
}

#[test]
fn arithmetic_on_a_block_drops_it() {
    // {} +  : the block is popped and dropped
    let (e, _) = run(vec![32, 33, 12]);
    assert_eq!(stack_text(&e), "STACK\nEND STACK\n");
}

#[test]
fn arithmetic_on_an_empty_stack_gives_zero() {
    let (e, _) = run(vec![12]);
    assert_eq!(stack_text(&e), "STACK\n0:NONE\nEND STACK\n");
}

#[test]
fn constants_are_pushed() {
    let (e, _) = run(vec![19, 20, 21, 22]);
    assert_eq!(
        stack_text(&e),
        "STACK\n360:NONE\n180:NONE\n90:NONE\n270:NONE\nEND STACK\n"
    );
}

#[test]
fn print_hands_the_value_out() {
    // 5 print
    let (e, actions) = run(vec![7, 41]);
    match &actions[0] {
        Action::Print(v) => assert_eq!(print_text(v), "5"),
        other => panic!("unexpected {:?}", other),
    }
    assert_eq!(stack_text(&e), "STACK\nEND STACK\n");
}

#[test]
fn unknown_command_warns() {
    let (_, actions) = run(vec![50, 0, 1]);
    assert!(matches!(actions[0], Action::Warn(50)));
    assert!(matches!(actions[1], Action::Halt));
}

#[test]
fn duplicate_pushes_twice() {
    let (e, _) = run(vec![7, 37]);
    assert_eq!(stack_text(&e), "STACK\n5:NONE\n5:NONE\nEND STACK\n");
}

#[test]
fn duplicate_of_pinned_keeps_it() {
    // 5 pin dup
    let (e, _) = run(vec![7, 74, 37]);
    assert_eq!(stack_text(&e), "STACK\n5:PINNED\n5:NONE\n5:NONE\nEND STACK\n");
}

#[test]
fn collect_array_stops_at_the_mark() {
    // 1 mark 2 3 collect length
    let (e, _) = run(vec![3, 53, 4, 1, 5, 54]);
    assert_eq!(stack_text(&e), "STACK\n[\n3,\n2,\n1,\n]\nEND STACK\n");
    let (e, _) = run(vec![3, 53, 4, 1, 5, 54, 69]);
    assert_eq!(stack_text(&e), "STACK\n3:NONE\nEND STACK\n");
}

#[test]
fn collect_array_without_mark_diverges() {
    let (_, actions) = run(vec![3, 1, 4, 54]);
    assert!(matches!(actions.last(), Some(Action::Diverge)));
}

#[test]
fn range_gives_the_numbers_between() {
    // 2 5 range
    let (e, _) = run(vec![4, 1, 7, 18]);
    assert_eq!(
        stack_text(&e),
        "STACK\n[\n2,\n3,\n4,\n5,\n]\nEND STACK\n"
    );
    // 5 2 range is empty
    let (e, _) = run(vec![7, 1, 4, 18]);
    assert_eq!(stack_text(&e), "STACK\n[\n]\nEND STACK\n");
}

#[test]
fn range_with_negative_bound_aborts() {
    let mut e = Executor::new(parse_to_executable(vec![18]));
    e.push_number(Decimal { digits: BigNum { negative: true, magnitude: vec![1] }, scale: 0 });
    e.push_number(Decimal::from_u64(5));
    assert!(matches!(e.step(), Action::Abort(Fault::RangeBound)));
}

#[test]
fn multiply_with_overflowing_scale_aborts() {
    let mut e = Executor::new(parse_to_executable(vec![14]));
    let big = Decimal { digits: BigNum::from_u64(3), scale: i64::MAX };
    e.push_number(big);
    e.push_number(Decimal { digits: BigNum::from_u64(3), scale: 1 });
    assert!(matches!(e.step(), Action::Abort(Fault::ScaleOverflow)));
}

#[test]
fn floor_and_ceil_hand_the_number_out() {
    let (e, actions) = run(vec![7, 26]);
    match &actions[0] {
        Action::Floor(d) => assert_eq!(d.digits.magnitude, vec![5]),
        other => panic!("unexpected {:?}", other),
    }
    assert_eq!(stack_text(&e), "STACK\nEND STACK\n");
    let (_, actions) = run(vec![7, 25]);
    assert!(matches!(actions[0], Action::Ceil(_)));
    // a block is pushed back
    let (e, actions) = run(vec![32, 33, 26]);
    assert!(matches!(actions[0], Action::Halt));
    assert_eq!(stack_text(&e), "STACK\n[]:NONE\nEND STACK\n");
}

#[test]
fn input_is_requested_and_pushed() {
    let mut e = Executor::new(parse_to_executable(vec![28]));
    assert!(matches!(e.step(), Action::RequestInput));
    assert!(!e.provide_input("twelve"));
    assert!(e.provide_input("12.5"));
    assert_eq!(stack_text(&e), "STACK\n12.5:NONE\nEND STACK\n");
    assert!(matches!(e.step(), Action::Halt));
}

#[test]
fn exec_block_runs_the_block() {
    // {7 8} exec 9
    let (e, _) = run(vec![32, 9, 1, 10, 33, 16, 1, 11, 1]);
    assert_eq!(stack_text(&e), "STACK\n7:NONE\n8:NONE\n9:NONE\nEND STACK\n");
}

#[test]
fn while_loop_runs_the_body_then_tests() {
    // 0 {0} while : the body runs once, its 0 ends the loop
    let (e, actions) = run(vec![2, 32, 2, 33, 34]);
    assert!(matches!(actions.last(), Some(Action::Halt)));
    assert_eq!(stack_text(&e), "STACK\n0:NONE\nEND STACK\n");
}

#[test]
fn while_loop_repeats_while_nonzero() {
    // {41 1 ... } : body prints the top then pushes 0 ; stack starts with 2 1
    // 1 2 {print} while : prints 2 (pops it), then tests 1 -> again,
    // prints 0 (empty stack), tests 0 -> ends.
    let (e, actions) = run(vec![3, 1, 4, 32, 41, 33, 34]);
    let printed: Vec<String> = actions
        .iter()
        .filter_map(|a| match a {
            Action::Print(v) => Some(print_text(v)),
            _ => None,
        })
        .collect();
    assert_eq!(printed, vec!["2".to_string(), "0".to_string()]);
    assert!(matches!(actions.last(), Some(Action::Halt)));
    assert_eq!(stack_text(&e), "STACK\nEND STACK\n");
}

#[test]
fn while_loop_on_empty_body_aborts() {
    // 1 {} while
    let (_, actions) = run(vec![3, 32, 33, 34]);
    assert!(matches!(actions.last(), Some(Action::Abort(Fault::EmptyLoopBody))));
}

#[test]
fn repeat_loop_runs_forever() {
    // {9} repeat
    let code = parse_to_executable(vec![32, 11, 33, 31]);
    let mut e = Executor::new(code);
    for _ in 0..20 {
        assert!(matches!(e.step(), Action::Continue));
    }
    assert!(e.stack().len() >= 8);
}

#[test]
fn formats_of_values() {
    let arr = QuarkType::Array(vec![num(1), QuarkType::Array(vec![num(2)]), QuarkType::Block(vec![CodePiece::Point(3)])]);
    assert_eq!(format_arr(&arr), "[\n1,\n[\n2,\n][Point(3)],\n]");
    let entry = (num(6), QuarkMarker::pinned());
    assert_eq!(format_qsen(&entry), "6:PINNED");
    let p = print_text(&QuarkType::Array(vec![num(4)]));
    assert!(p.starts_with("[Number(BigDecimal("));
    assert!(p.ends_with(")]"));
}

fn dec(digits: u64, scale: i64) -> Decimal {
    Decimal { digits: BigNum::from_u64(digits), scale }
}

#[test]
fn add_aligns_scales() {
    let mut e = Executor::new(parse_to_executable(vec![12]));
    e.push_number(dec(2, 0));
    e.push_number(dec(15, 1));
    assert!(matches!(e.step(), Action::Continue));
    assert_eq!(stack_text(&e), "STACK\n3.5:NONE\nEND STACK\n");
}

#[test]
fn subtract_with_a_zero_operand() {
    // top 0, then 0.5 below: 0 - 0.5
    let mut e = Executor::new(parse_to_executable(vec![13]));
    e.push_number(dec(5, 1));
    e.push_number(dec(0, 0));
    e.step();
    assert_eq!(stack_text(&e), "STACK\n-0.5:NONE\nEND STACK\n");
    // top 0.5, then 0 below: 0.5 - 0
    let mut e = Executor::new(parse_to_executable(vec![13]));
    e.push_number(dec(0, 0));
    e.push_number(dec(5, 1));
    e.step();
    assert_eq!(stack_text(&e), "STACK\n0.5:NONE\nEND STACK\n");
}

#[test]
fn range_truncates_fractional_bounds() {
    // y = 1.9, x = 3.2 : the range 1..=3
    let mut e = Executor::new(parse_to_executable(vec![18]));
    e.push_number(dec(19, 1));
    e.push_number(dec(32, 1));
    e.step();
    assert_eq!(stack_text(&e), "STACK\n[\n1,\n2,\n3,\n]\nEND STACK\n");
}

#[test]
fn divide_with_overflowing_scale_aborts() {
    // 1e-9223372036854775807 / 3: the quotient's scale would pass i64::MAX
    let mut e = Executor::new(parse_to_executable(vec![15]));
    e.push_number(dec(3, 0));
    e.push_number(dec(1, i64::MAX));
    assert!(matches!(e.step(), Action::Abort(Fault::ScaleOverflow)));
}

#[test]
fn divide_shortcuts_run_at_extreme_scales() {
    // a zero dividend is handed back
    let mut e = Executor::new(parse_to_executable(vec![15]));
    e.push_number(dec(3, i64::MAX));
    e.push_number(dec(0, i64::MIN));
    assert!(matches!(e.step(), Action::Continue));
    // a divisor of one is handed back the dividend
    let mut e = Executor::new(parse_to_executable(vec![15]));
    e.push_number(dec(1, 0));
    e.push_number(dec(7, i64::MIN));
    assert!(matches!(e.step(), Action::Continue));
    assert_eq!(e.stack().len(), 1);
}

#[test]
fn multiply_by_one_runs_at_extreme_scales() {
    let mut e = Executor::new(parse_to_executable(vec![14]));
    e.push_number(dec(5, i64::MAX));
    e.push_number(dec(1, 0));
    assert!(matches!(e.step(), Action::Continue));
    assert_eq!(e.stack().len(), 1);
}

#[test]
fn debug_text_of_numbers() {
    assert_eq!(
        print_text(&QuarkType::Array(vec![num(4)])),
        "[Number(BigDecimal(sign=Plus, scale=0, digits=[4]))]"
    );
    let big = Decimal { digits: BigNum { negative: true, magnitude: vec![1, 0, 1] }, scale: -3 };
    assert_eq!(
        print_text(&QuarkType::Array(vec![QuarkType::Number(big), num(0)])),
        "[Number(BigDecimal(sign=Minus, scale=-3, digits=[1, 1])), Number(BigDecimal(sign=NoSign, scale=0, digits=[]))]"
    );
}

#[test]
fn multiply_by_a_scaled_one_hands_back_the_other_factor() {
    // 1.00 * 3 gives 3 as it stands, not 3.00
    let mut e = Executor::new(parse_to_executable(vec![14]));
    e.push_number(dec(3, 0));
    e.push_number(dec(100, 2));
    assert!(matches!(e.step(), Action::Continue));
    assert_eq!(stack_text(&e), "STACK\n3:NONE\nEND STACK\n");
    // 3 * 1.0 gives 3 too
    let mut e = Executor::new(parse_to_executable(vec![14]));
    e.push_number(dec(10, 1));
    e.push_number(dec(3, 0));
    assert!(matches!(e.step(), Action::Continue));
    assert_eq!(stack_text(&e), "STACK\n3:NONE\nEND STACK\n");
    // 2.0 is no one: the scales add up
    let mut e = Executor::new(parse_to_executable(vec![14]));
    e.push_number(dec(3, 0));
    e.push_number(dec(20, 1));
    assert!(matches!(e.step(), Action::Continue));
    assert_eq!(stack_text(&e), "STACK\n6.0:NONE\nEND STACK\n");
}

#[test]
fn multiply_by_a_scaled_one_runs_at_extreme_scales() {
    let mut e = Executor::new(parse_to_executable(vec![14]));
    e.push_number(dec(5, i64::MAX));
    e.push_number(dec(10, 1));
    assert!(matches!(e.step(), Action::Continue));
    assert_eq!(e.stack().len(), 1);
}

#[test]
fn divide_by_a_scaled_one_hands_back_the_dividend() {
    let mut e = Executor::new(parse_to_executable(vec![15]));
    e.push_number(dec(1000, 3));
    e.push_number(dec(7, 0));
    assert!(matches!(e.step(), Action::Continue));
    assert_eq!(stack_text(&e), "STACK\n7:NONE\nEND STACK\n");
}

#[test]
fn add_with_scales_too_far_apart_aborts() {
    let mut e = Executor::new(parse_to_executable(vec![12]));
    e.push_number(dec(1, i64::MAX));
    e.push_number(dec(1, -1));
    assert!(matches!(e.step(), Action::Abort(Fault::ScaleGap)));
    // a zero operand at a distant scale is no trouble when it is the smaller scale
    let mut e = Executor::new(parse_to_executable(vec![12]));
    e.push_number(dec(0, i64::MIN));
    e.push_number(dec(5, 1));
    assert!(matches!(e.step(), Action::Continue));
    assert_eq!(stack_text(&e), "STACK\n0.5:NONE\nEND STACK\n");
}

#[test]
fn subtract_with_scales_too_far_apart_aborts() {
    let mut e = Executor::new(parse_to_executable(vec![13]));
    e.push_number(dec(1, i64::MIN));
    e.push_number(dec(1, 0));
    assert!(matches!(e.step(), Action::Abort(Fault::ScaleGap)));
    // with a zero operand nothing is rescaled
    let mut e = Executor::new(parse_to_executable(vec![13]));
    e.push_number(dec(0, i64::MIN));
    e.push_number(dec(4, i64::MAX));
    assert!(matches!(e.step(), Action::Continue));
    assert_eq!(e.stack().len(), 1);
}

#[test]
fn range_with_bound_at_the_lowest_scale_aborts() {
    let mut e = Executor::new(parse_to_executable(vec![18]));
    e.push_number(dec(1, i64::MIN));
    e.push_number(dec(5, 0));
    assert!(matches!(e.step(), Action::Abort(Fault::ScaleGap)));
    // a zero bound at that scale is simply zero
    let mut e = Executor::new(parse_to_executable(vec![18]));
    e.push_number(dec(0, i64::MIN));
    e.push_number(dec(2, 0));
    assert!(matches!(e.step(), Action::Continue));
    assert_eq!(stack_text(&e), "STACK\n[\n0,\n1,\n2,\n]\nEND STACK\n");
}

#[test]
fn running_a_block_equals_inlining_it() {
    // 4 {7 8 print +} exec 9 + print  against  4 7 8 print + 9 + print
    let with_block = vec![6, 1, 32, 9, 1, 10, 41, 12, 33, 16, 1, 11, 12, 41];
    let inlined = vec![6, 1, 9, 1, 10, 41, 12, 1, 11, 12, 41];
    let (x, xa) = run(with_block);
    let (y, ya) = run(inlined);
    assert_eq!(stack_text(&x), stack_text(&y));
    assert_eq!(xa.len(), ya.len());
    for (a, b) in xa.iter().zip(ya.iter()) {
        match (a, b) {
            (Action::Print(u), Action::Print(v)) => assert_eq!(print_text(u), print_text(v)),
            (Action::Halt, Action::Halt) => {}
            _ => panic!("the runs differ"),
        }
    }
    assert!(matches!(xa.last(), Some(Action::Halt)));
}
