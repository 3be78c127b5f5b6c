use waywallen::cli::{
    mode, parse_advertise, parse_args, parse_fourcc, parse_u64_loose, ArgError, Cli, Mode, Opt,
    Parsed, ValueError,
};
use waywallen::text::{show_hex, NumberError};

fn args(list: &[&str]) -> Vec<String> {
    list.iter().map(|s| s.to_string()).collect()
}

fn run(list: &[&str]) -> Cli {
    match parse_args(&args(list)) {
        Ok(Parsed::Run(cli)) => cli,
        other => panic!("{other:?}"),
    }
}

#[test]
fn fourcc_as_hex_text_or_number() {
    assert_eq!(parse_fourcc("0x34324241"), Ok(0x34324241));
    assert_eq!(parse_fourcc("0X34324241"), Ok(0x34324241));
    assert_eq!(parse_fourcc("AB24"), Ok(0x34324241));
    assert_eq!(parse_fourcc("'AB24'"), Ok(0x34324241));
    assert_eq!(parse_fourcc("875713089"), Ok(875713089));
    assert_eq!(parse_fourcc("7"), Ok(7));
    assert_eq!(parse_fourcc("1234"), Ok(0x34333231));
}

#[test]
fn fourcc_errors() {
    let hex = |cause: NumberError| Err(ValueError::HexFourcc { cause });
    let decimal = |cause: NumberError| Err(ValueError::DecimalFourcc { cause });
    assert_eq!(parse_fourcc("0xzz"), hex(NumberError::InvalidDigit));
    assert_eq!(parse_fourcc("0x"), hex(NumberError::Empty));
    assert_eq!(parse_fourcc("0x100000000"), hex(NumberError::TooLarge));
    assert_eq!(parse_fourcc("abcde"), decimal(NumberError::InvalidDigit));
    assert_eq!(parse_fourcc(""), decimal(NumberError::Empty));
    assert_eq!(parse_fourcc("4294967296"), decimal(NumberError::TooLarge));
}

fn refused_modifier(cause: NumberError) -> Result<u64, ValueError> {
    Err(ValueError::Modifier { cause })
}

#[test]
fn modifier_as_hex_or_decimal() {
    assert_eq!(parse_u64_loose("0"), Ok(0));
    assert_eq!(parse_u64_loose("0x100000000000001"), Ok(0x100000000000001));
    assert_eq!(parse_u64_loose("0XfF"), Ok(255));
    assert_eq!(parse_u64_loose("18446744073709551615"), Ok(u64::MAX));
    assert_eq!(parse_u64_loose("+5"), Ok(5));
    assert_eq!(
        parse_u64_loose("18446744073709551616"),
        refused_modifier(NumberError::TooLarge)
    );
    assert_eq!(parse_u64_loose("0x"), refused_modifier(NumberError::Empty));
    assert_eq!(
        parse_u64_loose("-1"),
        refused_modifier(NumberError::InvalidDigit)
    );
}

#[test]
fn advertised_pair() {
    assert_eq!(parse_advertise("AB24:0"), Ok((0x34324241, 0)));
    assert_eq!(
        parse_advertise("0x34324241:0x0000000000000001"),
        Ok((0x34324241, 1))
    );
    assert_eq!(parse_advertise("AB24"), Err(ValueError::NoColon));
    assert_eq!(
        parse_advertise("AB24:x"),
        Err(ValueError::Modifier {
            cause: NumberError::InvalidDigit
        })
    );
    assert_eq!(
        parse_advertise("toolong:x"),
        Err(ValueError::DecimalFourcc {
            cause: NumberError::InvalidDigit
        })
    );
    assert_eq!(parse_advertise("'AB24':7"), Ok((0x34324241, 7)));
}

#[test]
fn shown_numbers_read_back() {
    for fourcc in [0u32, 1, 0x34324241, u32::MAX] {
        for width in [0, 1, 8, 20] {
            assert_eq!(parse_fourcc(&show_hex(fourcc as u64, width)), Ok(fourcc));
        }
    }
    for fourcc in [0u32, 999, 10_000, u32::MAX] {
        assert_eq!(parse_fourcc(&format!("{fourcc}")), Ok(fourcc));
    }
    for modifier in [0u64, 9, 0x0100_0000_0000_0001, u64::MAX] {
        assert_eq!(parse_u64_loose(&show_hex(modifier, 16)), Ok(modifier));
        assert_eq!(parse_u64_loose(&format!("{modifier}")), Ok(modifier));
        for pair in [
            format!("{}:{}", show_hex(7, 8), show_hex(modifier, 16)),
            format!("{}:{}", show_hex(7, 0), show_hex(modifier, 3)),
            format!("{}:{modifier}", show_hex(7, 8)),
        ] {
            assert_eq!(parse_advertise(&pair), Ok((7, modifier)));
        }
    }
}

#[test]
fn defaults() {
    let cli = run(&[]);
    assert_eq!(cli.frames, 1);
    assert_eq!(cli.name, "dump-display");
    assert!(!cli.print_caps);
    assert!(cli.socket.is_none() && cli.dump_dir.is_none() && cli.advertise.is_empty());
}

#[test]
fn every_option() {
    let cli = run(&[
        "--socket", "/run/s", "--advertise", "AB24:0", "--advertise", "XR24:1", "--dump-dir",
        "/tmp/d", "--frames", "12", "--name", "n", "--print-caps",
    ]);
    assert_eq!(cli.socket.as_deref(), Some("/run/s"));
    assert_eq!(cli.advertise, vec![(0x34324241, 0), (0x34325258, 1)]);
    assert_eq!(cli.dump_dir.as_deref(), Some("/tmp/d"));
    assert_eq!(cli.frames, 12);
    assert_eq!(cli.name, "n");
    assert!(cli.print_caps);
}

fn refused(list: &[&str]) -> ArgError {
    match parse_args(&args(list)) {
        Err(e) => e,
        other => panic!("{other:?}"),
    }
}

#[test]
fn argument_errors() {
    assert_eq!(refused(&["--socket"]), ArgError::MissingValue(Opt::Socket));
    assert_eq!(
        refused(&["--print-caps", "--advertise"]),
        ArgError::MissingValue(Opt::Advertise)
    );
    assert_eq!(refused(&["--dump-dir"]), ArgError::MissingValue(Opt::DumpDir));
    assert_eq!(refused(&["--frames"]), ArgError::MissingValue(Opt::Frames));
    assert_eq!(refused(&["--name"]), ArgError::MissingValue(Opt::Name));
    let frames = |cause: NumberError| ArgError::Frames { cause };
    assert_eq!(refused(&["--frames", "x"]), frames(NumberError::InvalidDigit));
    assert_eq!(refused(&["--frames", ""]), frames(NumberError::Empty));
    assert_eq!(
        refused(&["--frames", "4294967296"]),
        frames(NumberError::TooLarge)
    );
    let refused_value = |at: usize, error: ValueError| ArgError::Advertise { at, error };
    assert_eq!(
        refused(&["--advertise", "AB24"]),
        refused_value(1, ValueError::NoColon)
    );
    assert_eq!(
        refused(&["--name", "--advertise", "--advertise", "AB24"]),
        refused_value(3, ValueError::NoColon)
    );
    assert_eq!(
        refused(&["--advertise", "AB24:0", "--advertise", "0xg:0"]),
        refused_value(
            3,
            ValueError::HexFourcc {
                cause: NumberError::InvalidDigit
            }
        )
    );
    assert_eq!(
        refused(&["--advertise", "AB24:y"]),
        refused_value(
            1,
            ValueError::Modifier {
                cause: NumberError::InvalidDigit
            }
        )
    );
    assert_eq!(refused(&["--name", "a", "b"]), ArgError::Unknown(2));
}

#[test]
fn help_ends_parsing() {
    assert!(matches!(parse_args(&args(&["-h", "--bogus"])), Ok(Parsed::Help)));
    assert!(matches!(parse_args(&args(&["--help"])), Ok(Parsed::Help)));
    assert_eq!(refused(&["--bogus", "-h"]), ArgError::Unknown(0));
}

#[test]
fn modes() {
    assert_eq!(mode(&run(&["--print-caps"])), Mode::PrintCaps);
    assert_eq!(mode(&run(&[])), Mode::NoSocket);
    assert_eq!(mode(&run(&["--socket", "s"])), Mode::NothingAdvertised);
    assert_eq!(
        mode(&run(&["--socket", "s", "--advertise", "AB24:0"])),
        Mode::Consume
    );
}
