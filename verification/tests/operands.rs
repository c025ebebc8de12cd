use vmdef::le_value::{buf_as_usize, buf_as_usize_len};
use vmdef::parser_arg::{
    parse_arg_list, ArgStringError, OutOfBounds, ParserArg, ParserArgDirection, ParserArgType,
};
use vmdef::sum_as_string;
use vmdef::text::{decimal_string, parse_unsigned_at, IntErrorKind};

fn arg(s: &str) -> Result<ParserArg, ArgStringError> {
    ParserArg::from_string(s.to_string())
}

fn chars(s: &str) -> Vec<char> {
    s.chars().collect()
}

#[test]
fn destination_register_of_two_bytes() {
    let a = arg("rd2").unwrap();
    assert_eq!(a.t, ParserArgType::Register);
    assert_eq!(a.direction, ParserArgDirection::Destination);
    assert_eq!(a.arg_size, 2);
}

#[test]
fn flags_in_any_order_last_one_wins() {
    let a = arg("is1").unwrap();
    assert_eq!((a.t, a.direction, a.arg_size), (ParserArgType::Immediate, ParserArgDirection::Source, 1));
    let b = arg("mds8").unwrap();
    assert_eq!((b.t, b.direction, b.arg_size), (ParserArgType::Memory, ParserArgDirection::Source, 8));
    let c = arg("drim4").unwrap();
    assert_eq!((c.t, c.direction, c.arg_size), (ParserArgType::Memory, ParserArgDirection::Destination, 4));
}

#[test]
fn leading_zeros_and_largest_size() {
    assert_eq!(arg("rd002").unwrap().arg_size, 2);
    assert_eq!(arg("rs65535").unwrap().arg_size, 65535);
}

#[test]
fn unrecognized_flag() {
    assert_eq!(arg("x2"), Err(ArgStringError::UnrecognizedChar('x')));
    assert_eq!(arg("rq2"), Err(ArgStringError::UnrecognizedChar('q')));
}

#[test]
fn size_at_start_or_missing() {
    assert_eq!(arg("2"), Err(ArgStringError::SizeAtStart));
    assert_eq!(arg("rd"), Err(ArgStringError::SizeAtStart));
    assert_eq!(arg(""), Err(ArgStringError::SizeAtStart));
}

#[test]
fn type_or_direction_missing() {
    assert_eq!(arg("r2"), Err(ArgStringError::MissingTypeOrDirection));
    assert_eq!(arg("d2"), Err(ArgStringError::MissingTypeOrDirection));
    // a numeric character beyond ASCII ends the flags too
    assert_eq!(arg("r\u{0663}"), Err(ArgStringError::MissingTypeOrDirection));
}

#[test]
fn invalid_sizes() {
    assert_eq!(arg("rd70000"), Err(ArgStringError::InvalidSize(IntErrorKind::PosOverflow)));
    assert_eq!(arg("rd2x"), Err(ArgStringError::InvalidSize(IntErrorKind::InvalidDigit)));
    assert_eq!(arg("rd\u{0663}"), Err(ArgStringError::InvalidSize(IntErrorKind::InvalidDigit)));
    assert_eq!(arg("rd99999x"), Err(ArgStringError::InvalidSize(IntErrorKind::PosOverflow)));
}

#[test]
fn error_messages() {
    assert_eq!(
        ArgStringError::UnrecognizedChar('x').message("x2"),
        "Unrecognized char (x) when deserializing argstring (x2)"
    );
    assert_eq!(ArgStringError::SizeAtStart.message("2"), "Address size cannot be at position 0: 2");
    assert_eq!(
        ArgStringError::MissingTypeOrDirection.message("r2"),
        "Argtype and direction must be specified: r2"
    );
    assert_eq!(
        ArgStringError::InvalidSize(IntErrorKind::PosOverflow).message("rd70000"),
        "number too large to fit in target type"
    );
}

#[test]
fn writing_operands() {
    let a = ParserArg { t: ParserArgType::Register, direction: ParserArgDirection::Destination, arg_size: 2 };
    assert_eq!(a.as_string(), "rd2");
    let b = ParserArg { t: ParserArgType::Unset, direction: ParserArgDirection::Unset, arg_size: 300 };
    assert_eq!(b.as_string(), "ms300");
    let c = ParserArg { t: ParserArgType::Immediate, direction: ParserArgDirection::Source, arg_size: 0 };
    assert_eq!(c.as_string(), "is0");
}

#[test]
fn write_then_read_gives_same_operand() {
    for t in [ParserArgType::Register, ParserArgType::Memory, ParserArgType::Immediate] {
        for d in [ParserArgDirection::Source, ParserArgDirection::Destination] {
            for size in [0u16, 1, 9, 10, 255, 65535] {
                let a = ParserArg { t, direction: d, arg_size: size };
                assert_eq!(ParserArg::from_string(a.as_string()), Ok(a));
            }
        }
    }
    assert_eq!(arg("rd002").unwrap().as_string(), "rd2");
}

#[test]
fn populate_cuts_bytes() {
    let a = arg("rs2").unwrap();
    let buf = [1u8, 2, 3, 4];
    let p = a.populate(&buf, 1).unwrap();
    assert_eq!(p.arg_val, vec![2, 3]);
    assert_eq!(p.t, ParserArgType::Register);
    assert!(p.memory_region.is_none());
    assert_eq!(a.populate(&buf, 2).unwrap().arg_val, vec![3, 4]);
    assert_eq!(a.populate(&buf, 3).unwrap_err(), OutOfBounds);
    assert_eq!(a.populate(&buf, usize::MAX).unwrap_err(), OutOfBounds);
}

#[test]
fn argument_lists() {
    let ok = parse_arg_list(&vec!["rd1".to_string(), "is2".to_string()]).unwrap();
    assert_eq!(ok.len(), 2);
    assert_eq!(ok[1].arg_size, 2);
    assert_eq!(
        parse_arg_list(&vec!["rd1".to_string(), "q".to_string(), "2".to_string()]),
        Err((1, ArgStringError::UnrecognizedChar('q')))
    );
    assert_eq!(parse_arg_list(&vec![]), Ok(vec![]));
}

#[test]
fn register_number_from_little_endian_bytes() {
    assert_eq!(buf_as_usize(&[0x02, 0x00]), 2);
    assert_eq!(buf_as_usize(&[0x00, 0x02]), 0x200);
    assert_eq!(buf_as_usize(&[]), 0);
    assert_eq!(buf_as_usize_len(&[1, 2, 3], 2), 0x0201);
    let long = [1u8, 2, 3, 4, 5, 6, 7, 8, 9];
    if usize::BITS == 64 {
        assert_eq!(buf_as_usize(&long), 0x0807060504030201);
    } else {
        assert_eq!(buf_as_usize(&long), 0x04030201);
    }
}

#[test]
fn decimal_numbers() {
    assert_eq!(decimal_string(0), "0");
    assert_eq!(decimal_string(12345), "12345");
    assert_eq!(decimal_string(usize::MAX), usize::MAX.to_string());
    assert_eq!(sum_as_string(2, 3), "5");
}

#[test]
fn unsigned_parsing_like_std() {
    let max = u16::MAX as usize;
    for s in ["", "+", "+12", "12", "0", "65535", "65536", "70000", "12a", "99999a", "-1", "+-1", "1+"] {
        let expected = s.parse::<u16>().map(|v| v as usize);
        let got = parse_unsigned_at(&chars(s), 0, max);
        match (expected, got) {
            (Ok(a), Ok(b)) => assert_eq!(a, b),
            (Err(e), Err(k)) => assert_eq!(e.to_string(), k.message(), "{}", s),
            (e, g) => panic!("{}: {:?} vs {:?}", s, e, g),
        }
    }
    assert_eq!(parse_unsigned_at(&chars(" 12"), 1, max), Ok(12));
    assert_eq!(parse_unsigned_at(&chars("+"), 0, max), Err(IntErrorKind::InvalidDigit));
    assert_eq!(parse_unsigned_at(&chars(""), 0, max), Err(IntErrorKind::Empty));
}
