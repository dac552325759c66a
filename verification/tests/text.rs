use pomodoro::command::Command;
use pomodoro::console::{LineSource, Script, TextSink, Transcript};
use pomodoro::text::{is_space, push_clock_face, push_decimal, push_two_digits, trim};

#[test]
fn whitespace_is_what_std_takes_for_whitespace() {
    for code in 0..=0x10FFFFu32 {
        if let Some(c) = char::from_u32(code) {
            assert_eq!(is_space(c), c.is_whitespace(), "U+{:04X}", code);
        }
    }
}

#[test]
fn trim_agrees_with_std() {
    let samples = [
        "",
        " ",
        "\n",
        "start",
        "start\n",
        "  start  ",
        "\t quit \r\n",
        "a b",
        " a  b ",
        "\u{a0}x\u{3000}",
        "\u{2003}caf\u{e9}\u{2028}",
        " \u{200b} ",
        "x\u{85}",
        "\u{1680}\u{1680}",
        "\u{feff}x",
    ];
    for sample in samples {
        assert_eq!(trim(sample), sample.trim(), "{:?}", sample);
    }
}

#[test]
fn trim_keeps_inner_whitespace() {
    assert_eq!(trim("  Design   spec \n"), "Design   spec");
    assert_eq!(trim("\n\n"), "");
}

#[test]
fn decimal_is_written_without_leading_zeros() {
    for (n, text) in [
        (0u128, "0"),
        (7, "7"),
        (10, "10"),
        (99, "99"),
        (100, "100"),
        (1205, "1205"),
        (u64::MAX as u128, "18446744073709551615"),
        (u128::MAX, "340282366920938463463374607431768211455"),
    ] {
        let mut out = String::from("n=");
        push_decimal(&mut out, n);
        assert_eq!(out, format!("n={}", text));
    }
}

#[test]
fn two_digits_pad_with_a_zero() {
    for n in [0u128, 1, 9, 10, 59, 99, 100, 12345] {
        let mut out = String::new();
        push_two_digits(&mut out, n);
        assert_eq!(out, format!("{:02}", n));
    }
}

#[test]
fn clock_face_is_minutes_and_seconds() {
    for (seconds, face) in [
        (0u128, "00:00"),
        (1, "00:01"),
        (59, "00:59"),
        (60, "01:00"),
        (61, "01:01"),
        (599, "09:59"),
        (600, "10:00"),
        (1200, "20:00"),
        (5999, "99:59"),
        (6000, "100:00"),
        (360000, "6000:00"),
    ] {
        let mut out = String::new();
        push_clock_face(&mut out, seconds);
        assert_eq!(out, face);
    }
}

#[test]
fn commands_are_found_after_trimming() {
    assert_eq!(Command::parse("start"), Command::Start);
    assert_eq!(Command::parse("start\n"), Command::Start);
    assert_eq!(Command::parse("  start \r\n"), Command::Start);
    assert_eq!(Command::parse("quit"), Command::Quit);
    assert_eq!(Command::parse("\tquit\n"), Command::Quit);
}

#[test]
fn other_lines_are_invalid_commands() {
    for line in ["START", "Start", "QUIT", "Quit", "", "\n", "bogus", "start now", "st art", "quit!", "startquit"] {
        assert_eq!(Command::parse(line), Command::Invalid, "{:?}", line);
    }
}

#[test]
fn script_hands_out_lines_with_their_line_feeds() {
    let mut script = Script::new("one\n\nthree\r\nlast");
    assert_eq!(script.read_line().unwrap(), "one\n");
    assert_eq!(script.rest, "\nthree\r\nlast");
    assert_eq!(script.read_line().unwrap(), "\n");
    assert_eq!(script.read_line().unwrap(), "three\r\n");
    assert_eq!(script.read_line().unwrap(), "last");
    assert_eq!(script.read_line().unwrap(), "");
    assert_eq!(script.read_line().unwrap(), "");
    assert_eq!(script.rest, "");
}

#[test]
fn script_reads_lines_that_are_not_ascii() {
    let mut script = Script::new("caf\u{e9} \u{1F345}\nnext\n");
    assert_eq!(script.read_line().unwrap(), "caf\u{e9} \u{1F345}\n");
    assert_eq!(script.read_line().unwrap(), "next\n");
}

#[test]
fn transcript_appends_what_is_written() {
    let mut transcript = Transcript::new();
    assert_eq!(transcript.text, "");
    transcript.write_text("one").unwrap();
    transcript.flush().unwrap();
    transcript.write_text(" two\n").unwrap();
    assert_eq!(transcript.text, "one two\n");
}
