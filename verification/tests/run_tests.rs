use one_billion_rows::error::Error;
use one_billion_rows::pipeline::run;

#[test]
fn example_scenario() {
    let input = b"Hamburg;22.4\nKiel;0.1\nHamburg;-2.4\n";
    let out = run(input).unwrap();
    assert_eq!(out, b"Hamburg: -2.4/10.0/22.4\nKiel: 0.1/0.1/0.1\n".to_vec());
}

#[test]
fn single_record_min_max_average_coincide() {
    let out = run(b"Oslo;7.6\n").unwrap();
    assert_eq!(out, b"Oslo: 7.6/7.6/7.6\n".to_vec());
}

#[test]
fn missing_separator_fails_with_no_output() {
    let r = run(b"Hamburg,22.4\n");
    assert_eq!(r, Err(Error::MissingSeparator));
}

#[test]
fn missing_separator_fails_even_after_good_lines() {
    let r = run(b"Kiel;0.1\nHamburg\n");
    assert_eq!(r, Err(Error::MissingSeparator));
}

#[test]
fn missing_terminator_fails() {
    assert_eq!(run(b"Hamburg;22.4"), Err(Error::MissingTerminator));
}

#[test]
fn missing_terminator_fails_regardless_of_good_lines() {
    assert_eq!(run(b"A;1.0\nB;2.0\nC;3.0"), Err(Error::MissingTerminator));
}

#[test]
fn empty_file_fails() {
    assert_eq!(run(b""), Err(Error::MissingTerminator));
}

#[test]
fn lone_terminator_yields_empty_report() {
    assert_eq!(run(b"\n"), Ok(Vec::new()));
}

#[test]
fn invalid_value_names_offending_text() {
    let r = run(b"Hamburg;22.44\n");
    assert_eq!(r, Err(Error::InvalidValue(b"22.44".to_vec())));
    let r = run(b"Kiel;abc\n");
    assert_eq!(r, Err(Error::InvalidValue(b"abc".to_vec())));
}

#[test]
fn first_bad_line_decides_the_error() {
    let r = run(b"A;1.0\nB;x\nC,2.0\n");
    assert_eq!(r, Err(Error::InvalidValue(b"x".to_vec())));
}

#[test]
fn output_sorted_by_key_bytes() {
    let out = run(b"b;1.0\nA;1.0\nC;1.0\na;1.0\n").unwrap();
    assert_eq!(
        out,
        b"A: 1.0/1.0/1.0\nC: 1.0/1.0/1.0\na: 1.0/1.0/1.0\nb: 1.0/1.0/1.0\n".to_vec()
    );
}

#[test]
fn average_truncates_toward_zero() {
    let out = run(b"A;-0.1\nA;-0.2\n").unwrap();
    assert_eq!(out, b"A: -0.2/-0.1/-0.1\n".to_vec());
    let out = run(b"B;0.1\nB;0.2\n").unwrap();
    assert_eq!(out, b"B: 0.1/0.1/0.2\n".to_vec());
}

#[test]
fn identical_input_gives_identical_output() {
    let input = b"Rostock;19.9\nEmden;-2.4\nRostock;7.6\nKiel;0.1\nEmden;-7.1\n";
    let first = run(input).unwrap();
    let second = run(input).unwrap();
    assert_eq!(first, second);
}

#[test]
fn extreme_values_round_trip_through_the_report() {
    let out = run(b"hot;999.9\ncold;-999.9\n").unwrap();
    assert_eq!(out, b"cold: -999.9/-999.9/-999.9\nhot: 999.9/999.9/999.9\n".to_vec());
}

#[test]
fn empty_key_is_accepted() {
    let out = run(b";1.5\n").unwrap();
    assert_eq!(out, b": 1.5/1.5/1.5\n".to_vec());
}
