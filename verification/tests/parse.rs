use oarray::parse::{parse_row, parse_rows, trim_bounds, ParseError};
use oarray::{FitnessFunction, OArray};

#[test]
fn test_parse() {
    let string = "0 0 0
                  1 0 1
                  0 1 0
                  1 0 0";
    let oa = OArray::from(string).unwrap();
    println!("{}", String::from_utf8(oa.render()).unwrap());
    assert_eq!(oa.ngrande, 4);
    assert_eq!(oa.k, 3);
    assert_eq!(oa.target_t, 1);
    assert_eq!(oa.fitness_f, FitnessFunction::DeltaFast);
    assert_eq!(
        oa.d,
        vec![
            false, true, false, true, false, false, true, false, false, true, false, false
        ]
    );
}

#[test]
fn test_parse2() {
    let string = "0 0 0
                  1 0 1
                  0 1 
                  1 0 0";
    assert_eq!(OArray::from(string), Err(ParseError::UnevenRows));
}

#[test]
fn test_parse3() {
    let string = "0 0 0
                  1 0 1
                  0 1 2
                  1 0 0";
    assert_eq!(OArray::from(string), Err(ParseError::UnexpectedToken));
}

#[test]
fn texts_that_are_no_arrays() {
    assert_eq!(OArray::from(""), Err(ParseError::Empty));
    assert_eq!(OArray::from("  \n \t\n"), Err(ParseError::Empty));
    assert_eq!(OArray::from("0 1\n1 0\n0 0"), Err(ParseError::InvalidShape));
    assert_eq!(OArray::from("0 1"), Err(ParseError::InvalidShape));
    assert_eq!(OArray::from("01\n10"), Err(ParseError::UnexpectedToken));
    assert_eq!(OArray::from("0 1\n\n1 0"), Err(ParseError::UnevenRows));
    assert_eq!(OArray::from("0 1\n1 0 1\n0 x"), Err(ParseError::UnevenRows));
    assert_eq!(OArray::from("0 1\n1 x 1\n0"), Err(ParseError::UnexpectedToken));
    assert_eq!(OArray::parse(b"0 1\n1 -"), Err(ParseError::UnexpectedToken));
}

#[test]
fn white_space_is_passed_over() {
    let oa = OArray::from("\n\n  1\t0 \r\n0   1\n\n").unwrap();
    assert_eq!(oa.ngrande, 2);
    assert_eq!(oa.k, 2);
    assert_eq!(oa.d, vec![true, false, false, true]);
    assert_eq!(trim_bounds(b"  ab \n"), (2, 4));
    assert_eq!(trim_bounds(b" \n "), (3, 3));
    assert_eq!(parse_row(b" 1 0\t1 "), Some(vec![true, false, true]));
    assert_eq!(parse_row(b""), Some(vec![]));
    assert_eq!(parse_row(b"1 10"), None);
    assert_eq!(
        parse_rows(b"1 0\n0"),
        Err(ParseError::UnevenRows)
    );
    assert_eq!(parse_rows(b"1\n0\n1"), Ok(vec![vec![true], vec![false], vec![true]]));
}

#[test]
fn a_rendered_array_reads_back() {
    let d = vec![false, true, true, true, false, true, false, true];
    let oa = OArray::new(4, 2, 1, d, FitnessFunction::DeltaFast);
    let text = oa.render();
    assert_eq!(text, b"0 0 \n1 1 \n1 0 \n1 1 \n".to_vec());
    let back = OArray::parse(&text).unwrap();
    assert_eq!(back, oa);
}
