use algo_toolkit::stdio::StdIn;

fn drain(input: &mut StdIn) -> Vec<String> {
    let mut all = Vec::new();
    while let Some(token) = input.take() {
        all.push(token);
    }
    all
}

#[test]
fn a_new_buffer_hands_out_nothing() {
    let mut input = StdIn::new();
    assert_eq!(input.take(), None);
    assert_eq!(input.take(), None);
}

#[test]
fn tokens_come_in_the_order_of_the_line() {
    let mut input = StdIn::new();
    input.feed("3 1 4\n");
    assert_eq!(input.take().unwrap(), "3");
    assert_eq!(input.take().unwrap(), "1");
    assert_eq!(input.take().unwrap(), "4");
    assert_eq!(input.take(), None);
}

#[test]
fn white_space_of_any_kind_and_length_parts_tokens() {
    let mut input = StdIn::new();
    input.feed("  alpha\t\tbeta \u{3000}gamma\r\n");
    assert_eq!(drain(&mut input), ["alpha", "beta", "gamma"]);
}

#[test]
fn a_line_of_white_space_holds_no_token() {
    let mut input = StdIn::new();
    input.feed("");
    assert_eq!(input.take(), None);
    input.feed(" \t \n");
    assert_eq!(input.take(), None);
}

#[test]
fn a_line_without_white_space_is_one_token() {
    let mut input = StdIn::new();
    input.feed("x");
    assert_eq!(drain(&mut input), ["x"]);
    input.feed("-12.5e3");
    assert_eq!(drain(&mut input), ["-12.5e3"]);
}

#[test]
fn characters_beyond_ascii_stay_whole() {
    let mut input = StdIn::new();
    input.feed("żółw 🐢\u{a0}naïve");
    assert_eq!(drain(&mut input), ["żółw", "🐢", "naïve"]);
}

#[test]
fn a_later_line_waits_before_what_is_left_of_an_earlier_one() {
    let mut input = StdIn::new();
    input.feed("1 2 3");
    assert_eq!(input.take().unwrap(), "1");
    input.feed("a b");
    assert_eq!(drain(&mut input), ["a", "b", "2", "3"]);
}

#[test]
fn lines_fed_one_after_the_other_when_empty() {
    let mut input = StdIn::new();
    input.feed("10 20\n");
    assert_eq!(drain(&mut input), ["10", "20"]);
    input.feed("30\n");
    assert_eq!(drain(&mut input), ["30"]);
}
