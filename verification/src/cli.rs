//! Command line of the headless dump display.
use crate::text::{self, NumberError};
use vstd::prelude::*;

verus! {

/// Why the value of `--advertise` was refused.
#[derive(Debug, Clone, Copy, PartialEq, Eq, Structural)]
pub enum ValueError {
    /// There is no colon between the two halves.
    NoColon,
    /// A fourcc written as `0x` and something that is no 32-bit hex number.
    HexFourcc { cause: NumberError },
    /// A fourcc that is neither four bytes long nor a 32-bit number.
    DecimalFourcc { cause: NumberError },
    /// A modifier that is no 64-bit number.
    Modifier { cause: NumberError },
}

/// Why the arguments were refused. Places count from the first argument after
/// the program's name.
#[derive(Debug, Clone, Copy, PartialEq, Eq, Structural)]
pub enum ArgError {
    /// The argument at this place is no value for `--advertise`.
    Advertise { at: usize, error: ValueError },
    /// `--frames` with something that is no 32-bit number.
    Frames { cause: NumberError },
    /// An option that needs a value is the last argument.
    MissingValue(Opt),
    /// The argument at this place is no option.
    Unknown(usize),
}

/// The options that take a value.
#[derive(Debug, Clone, Copy, PartialEq, Eq, Structural)]
pub enum Opt {
    Socket,
    Advertise,
    DumpDir,
    Frames,
    Name,
}

// ---------------------------------------------------------------------------
// Numbers
// ---------------------------------------------------------------------------

/// Whether `s` begins with `0x` or `0X`.
pub open spec fn has_hex_prefix(s: Seq<char>) -> bool {
    s.len() >= 2 && s[0] == '0' && (s[1] == 'x' || s[1] == 'X')
}

/// The number whose little-endian bytes are `b`.
pub open spec fn le_u32(b: Seq<u8>) -> int {
    b[0] + b[1] * 0x100 + b[2] * 0x1_0000 + b[3] * 0x100_0000
}

/// What [`parse_fourcc`] reads: after white space and then quotation marks are
/// trimmed off, `0x` and hex digits, or any four bytes of text, or decimal
/// digits.
pub open spec fn fourcc_value(s: Seq<char>) -> Result<u32, ValueError> {
    let t = text::trim_quotes(text::trim_space(s));
    if has_hex_prefix(t) {
        match text::parsed(t.skip(2), 16, u32::MAX as int) {
            Ok(n) => Ok(n as u32),
            Err(cause) => Err(ValueError::HexFourcc { cause }),
        }
    } else if vstd::utf8::encode_utf8(t).len() == 4 {
        Ok(le_u32(vstd::utf8::encode_utf8(t)) as u32)
    } else {
        match text::parsed(t, 10, u32::MAX as int) {
            Ok(n) => Ok(n as u32),
            Err(cause) => Err(ValueError::DecimalFourcc { cause }),
        }
    }
}

/// What [`parse_u64_loose`] reads: after white space is trimmed off, `0x` and
/// hex digits, or decimal digits.
pub open spec fn loose_value(s: Seq<char>) -> Result<u64, ValueError> {
    let t = text::trim_space(s);
    let n = if has_hex_prefix(t) {
        text::parsed(t.skip(2), 16, u64::MAX as int)
    } else {
        text::parsed(t, 10, u64::MAX as int)
    };
    match n {
        Ok(n) => Ok(n as u64),
        Err(cause) => Err(ValueError::Modifier { cause }),
    }
}

/// What [`parse_advertise`] reads: a fourcc, the first colon, a modifier. The
/// fourcc is looked at first.
pub open spec fn advertise_value(s: Seq<char>) -> Result<(u32, u64), ValueError> {
    let at = text::find_first(s, ':');
    if !s.contains(':') {
        Err(ValueError::NoColon)
    } else {
        match fourcc_value(s.take(at)) {
            Err(e) => Err(e),
            Ok(fourcc) => match loose_value(s.skip(at + 1)) {
                Err(e) => Err(e),
                Ok(modifier) => Ok((fourcc, modifier)),
            },
        }
    }
}

fn hex_prefix(s: &Vec<char>) -> (yes: bool)
    ensures
        yes == has_hex_prefix(s@),
{
    s.len() >= 2 && s[0] == '0' && (s[1] == 'x' || s[1] == 'X')
}

/// Reads a fourcc: `0x1234abcd`, four bytes of text such as `'AB24'` (quotes
/// optional), or a decimal number.
pub fn parse_fourcc(s: &str) -> (r: Result<u32, ValueError>)
    ensures
        r == fourcc_value(s@),
{
    fourcc_of(&text::chars_of(s))
}

fn fourcc_of(s: &Vec<char>) -> (r: Result<u32, ValueError>)
    ensures
        r == fourcc_value(s@),
{
    let t: Vec<char> = text::without_quotes(&text::without_space(s));
    if hex_prefix(&t) {
        let digits: Vec<char> = text::sub_chars(&t, 2, t.len());
        assert(digits@ =~= t@.skip(2));
        return match text::parse_number(&digits, 16, u32::MAX as u64) {
            Ok(n) => Ok(n as u32),
            Err(cause) => Err(ValueError::HexFourcc { cause }),
        };
    }
    let owned: String = text::text_of(&t);
    let bytes: &[u8] = owned.as_str().as_bytes();
    if bytes.len() == 4 {
        let n: u32 = bytes[0] as u32 + bytes[1] as u32 * 0x100 + bytes[2] as u32 * 0x1_0000
            + bytes[3] as u32 * 0x100_0000;
        return Ok(n);
    }
    match text::parse_number(&t, 10, u32::MAX as u64) {
        Ok(n) => Ok(n as u32),
        Err(cause) => Err(ValueError::DecimalFourcc { cause }),
    }
}

/// Reads a 64-bit number, hexadecimal with `0x` or else decimal.
pub fn parse_u64_loose(s: &str) -> (r: Result<u64, ValueError>)
    ensures
        r == loose_value(s@),
{
    loose_of(&text::chars_of(s))
}

fn loose_of(s: &Vec<char>) -> (r: Result<u64, ValueError>)
    ensures
        r == loose_value(s@),
{
    let t: Vec<char> = text::without_space(s);
    let n: Result<u64, NumberError> = if hex_prefix(&t) {
        let digits: Vec<char> = text::sub_chars(&t, 2, t.len());
        assert(digits@ =~= t@.skip(2));
        text::parse_number(&digits, 16, u64::MAX)
    } else {
        text::parse_number(&t, 10, u64::MAX)
    };
    match n {
        Ok(n) => Ok(n),
        Err(cause) => Err(ValueError::Modifier { cause }),
    }
}

/// Reads `FOURCC:MODIFIER`.
pub fn parse_advertise(s: &str) -> (r: Result<(u32, u64), ValueError>)
    ensures
        r == advertise_value(s@),
{
    let chars: Vec<char> = text::chars_of(s);
    let at: usize = text::position_of(&chars, ':');
    if at == chars.len() {
        return Err(ValueError::NoColon);
    }
    let left: Vec<char> = text::sub_chars(&chars, 0, at);
    let right: Vec<char> = text::sub_chars(&chars, at + 1, chars.len());
    assert(left@ =~= s@.take(at as int));
    assert(right@ =~= s@.skip(at + 1));
    let fourcc: u32 = match fourcc_of(&left) {
        Ok(n) => n,
        Err(e) => {
            return Err(e);
        },
    };
    match loose_of(&right) {
        Ok(modifier) => Ok((fourcc, modifier)),
        Err(e) => Err(e),
    }
}

// ---------------------------------------------------------------------------
// Options
// ---------------------------------------------------------------------------

/// What the command line asks for.
#[derive(Debug)]
pub struct Cli {
    pub socket: Option<String>,
    pub advertise: Vec<(u32, u64)>,
    pub dump_dir: Option<String>,
    pub frames: u32,
    pub print_caps: bool,
    pub name: String,
}

/// [`Cli`] over texts.
pub struct CliView {
    pub socket: Option<Seq<char>>,
    pub advertise: Seq<(u32, u64)>,
    pub dump_dir: Option<Seq<char>>,
    pub frames: u32,
    pub print_caps: bool,
    pub name: Seq<char>,
}

impl View for Cli {
    type V = CliView;

    open spec fn view(&self) -> CliView {
        CliView {
            socket: text::opt_text(self.socket),
            advertise: self.advertise@,
            dump_dir: text::opt_text(self.dump_dir),
            frames: self.frames,
            print_caps: self.print_caps,
            name: self.name@,
        }
    }
}

/// What holds before the first argument: one frame, and a name of its own.
pub open spec fn default_cli() -> CliView {
    CliView {
        socket: None,
        advertise: Seq::empty(),
        dump_dir: None,
        frames: 1,
        print_caps: false,
        name: "dump-display"@,
    }
}

/// The option that an argument names, where it takes a value.
pub open spec fn valued_option(arg: Seq<char>) -> Option<Opt> {
    if arg == "--socket"@ {
        Some(Opt::Socket)
    } else if arg == "--advertise"@ {
        Some(Opt::Advertise)
    } else if arg == "--dump-dir"@ {
        Some(Opt::DumpDir)
    } else if arg == "--frames"@ {
        Some(Opt::Frames)
    } else if arg == "--name"@ {
        Some(Opt::Name)
    } else {
        None
    }
}

/// The settings after an option and its value, which stands at place `at`.
pub open spec fn with_option(cli: CliView, opt: Opt, value: Seq<char>, at: int) -> Result<
    CliView,
    ArgError,
> {
    match opt {
        Opt::Socket => Ok(CliView { socket: Some(value), ..cli }),
        Opt::Advertise => match advertise_value(value) {
            Ok(pair) => Ok(CliView { advertise: cli.advertise.push(pair), ..cli }),
            Err(error) => Err(ArgError::Advertise { at: at as usize, error }),
        },
        Opt::DumpDir => Ok(CliView { dump_dir: Some(value), ..cli }),
        Opt::Frames => match text::parsed(value, 10, u32::MAX as int) {
            Ok(n) => Ok(CliView { frames: n as u32, ..cli }),
            Err(cause) => Err(ArgError::Frames { cause }),
        },
        Opt::Name => Ok(CliView { name: value, ..cli }),
    }
}

/// Reads the arguments from place `i` on, with `cli` what the earlier ones
/// set. A request for help ends the reading, and so does the first argument
/// that is refused. `None` stands for help.
pub open spec fn args_value(args: Seq<Seq<char>>, i: int, cli: CliView) -> Result<
    Option<CliView>,
    ArgError,
>
    decreases args.len() - i,
{
    if i < 0 || i >= args.len() {
        Ok(Some(cli))
    } else if let Some(opt) = valued_option(args[i]) {
        if i + 1 >= args.len() {
            Err(ArgError::MissingValue(opt))
        } else {
            match with_option(cli, opt, args[i + 1], i + 1) {
                Ok(next) => args_value(args, i + 2, next),
                Err(e) => Err(e),
            }
        }
    } else if args[i] == "--print-caps"@ {
        args_value(args, i + 1, CliView { print_caps: true, ..cli })
    } else if args[i] == "-h"@ || args[i] == "--help"@ {
        Ok(None)
    } else {
        Err(ArgError::Unknown(i as usize))
    }
}

/// What the arguments come to.
#[derive(Debug)]
pub enum Parsed {
    Run(Cli),
    Help,
}

fn option_of(arg: &str) -> (opt: Option<Opt>)
    ensures
        opt == valued_option(arg@),
{
    if text::same_text(arg, "--socket") {
        Some(Opt::Socket)
    } else if text::same_text(arg, "--advertise") {
        Some(Opt::Advertise)
    } else if text::same_text(arg, "--dump-dir") {
        Some(Opt::DumpDir)
    } else if text::same_text(arg, "--frames") {
        Some(Opt::Frames)
    } else if text::same_text(arg, "--name") {
        Some(Opt::Name)
    } else {
        None
    }
}

/// Sets one option to the value at place `at`. On an error the settings are
/// left as they were.
fn set_option(cli: &mut Cli, opt: Opt, value: &String, at: usize) -> (r: Result<(), ArgError>)
    ensures
        match r {
            Ok(()) => with_option(old(cli)@, opt, value@, at as int) == Ok::<CliView, ArgError>(
                final(cli)@,
            ),
            Err(e) => with_option(old(cli)@, opt, value@, at as int) == Err::<CliView, ArgError>(e)
                && final(cli)@ == old(cli)@,
        },
{
    match opt {
        Opt::Socket => {
            cli.socket = Some(value.clone());
        },
        Opt::Advertise => match parse_advertise(value.as_str()) {
            Ok(pair) => {
                cli.advertise.push(pair);
            },
            Err(error) => {
                return Err(ArgError::Advertise { at, error });
            },
        },
        Opt::DumpDir => {
            cli.dump_dir = Some(value.clone());
        },
        Opt::Frames => match text::parse_number(
            &text::chars_of(value.as_str()),
            10,
            u32::MAX as u64,
        ) {
            Ok(n) => {
                cli.frames = n as u32;
            },
            Err(cause) => {
                return Err(ArgError::Frames { cause });
            },
        },
        Opt::Name => {
            cli.name = value.clone();
        },
    }
    Ok(())
}

/// What was read of the arguments.
pub open spec fn is_reading_of(args: Seq<Seq<char>>, r: Result<Parsed, ArgError>) -> bool {
    args_value(args, 0, default_cli()) == match r {
        Ok(Parsed::Run(cli)) => Ok::<Option<CliView>, ArgError>(Some(cli@)),
        Ok(Parsed::Help) => Ok(None),
        Err(e) => Err(e),
    }
}

/// Reads the arguments that follow the program's name.
pub fn parse_args(args: &Vec<String>) -> (r: Result<Parsed, ArgError>)
    ensures
        is_reading_of(text::texts(args@), r),
{
    let mut cli = Cli {
        socket: None,
        advertise: Vec::new(),
        dump_dir: None,
        frames: 1,
        print_caps: false,
        name: "dump-display".to_owned(),
    };
    let ghost words = text::texts(args@);
    let mut i: usize = 0;
    while i < args.len()
        invariant
            i <= args@.len(),
            words == text::texts(args@),
            args_value(words, 0, default_cli()) == args_value(words, i as int, cli@),
        decreases args@.len() - i,
    {
        let arg: &str = args[i].as_str();
        assert(words[i as int] == arg@);
        match option_of(arg) {
            Some(opt) => {
                if i + 1 >= args.len() {
                    return Err(ArgError::MissingValue(opt));
                }
                assert(words[i + 1] == args@[i + 1]@);
                match set_option(&mut cli, opt, &args[i + 1], i + 1) {
                    Ok(()) => {},
                    Err(e) => {
                        return Err(e);
                    },
                }
                i += 2;
            },
            None => {
                if text::same_text(arg, "--print-caps") {
                    cli.print_caps = true;
                } else if text::same_text(arg, "-h") || text::same_text(arg, "--help") {
                    return Ok(Parsed::Help);
                } else {
                    return Err(ArgError::Unknown(i));
                }
                i += 1;
            },
        }
    }
    Ok(Parsed::Run(cli))
}

/// What the program does.
#[derive(Debug, Clone, Copy, PartialEq, Eq, Structural)]
pub enum Mode {
    /// Print the capabilities of the local device.
    PrintCaps,
    /// Connect to the daemon and dump frames.
    Consume,
    /// Refuse: the socket is missing.
    NoSocket,
    /// Refuse: nothing to advertise.
    NothingAdvertised,
}

/// What the settings ask for. Printing capabilities needs no other option.
pub open spec fn mode_of(cli: CliView) -> Mode {
    if cli.print_caps {
        Mode::PrintCaps
    } else if cli.socket is None {
        Mode::NoSocket
    } else if cli.advertise.len() == 0 {
        Mode::NothingAdvertised
    } else {
        Mode::Consume
    }
}

/// Chooses what to do.
pub fn mode(cli: &Cli) -> (m: Mode)
    ensures
        m == mode_of(cli@),
{
    if cli.print_caps {
        Mode::PrintCaps
    } else if cli.socket.is_none() {
        Mode::NoSocket
    } else if cli.advertise.len() == 0 {
        Mode::NothingAdvertised
    } else {
        Mode::Consume
    }
}

// ---------------------------------------------------------------------------
// Laws
// ---------------------------------------------------------------------------

proof fn lemma_hex_text(n: nat, width: int)
    ensures
        has_hex_prefix(text::hex_text(n, width)),
        text::trim_quotes(text::trim_space(text::hex_text(n, width))) == text::hex_text(n, width),
        text::trim_space(text::hex_text(n, width)) == text::hex_text(n, width),
        text::hex_text(n, width).skip(2) == text::zero_padded(text::digits(n, 16), width),
        text::all_digits(text::hex_text(n, width).skip(2), 16),
        text::hex_text(n, width).skip(2).len() > 0,
        text::value_of(text::hex_text(n, width).skip(2), 16) == n,
{
    let s = text::hex_text(n, width);
    let d = text::zero_padded(text::digits(n, 16), width);
    text::lemma_digits(n, 16);
    text::lemma_zero_padded(text::digits(n, 16), width, 16);
    assert(s.skip(2) =~= d);
    assert(s.last() == d.last());
    assert(text::is_digit(d[d.len() - 1], 16));
}

/// A fourcc written in hexadecimal, with however many leading zeros, reads
/// back as that fourcc; with a width of eight that is the key under which it
/// stands in a capability document.
pub proof fn law_fourcc_reads_back(fourcc: u32, width: int)
    ensures
        fourcc_value(text::hex_text(fourcc as nat, width)) == Ok::<u32, ValueError>(fourcc),
{
    lemma_hex_text(fourcc as nat, width);
    let d = text::hex_text(fourcc as nat, width).skip(2);
    assert(text::is_digit(d[0], 16));
    text::lemma_parsed(d, 16, u32::MAX as int);
}

/// A decimal fourcc reads back too, unless its digits are four in number: then
/// they are taken for four characters.
pub proof fn law_decimal_fourcc_reads_back(fourcc: u32)
    requires
        text::digits(fourcc as nat, 10).len() != 4,
    ensures
        fourcc_value(text::digits(fourcc as nat, 10)) == Ok::<u32, ValueError>(fourcc),
{
    let d = text::digits(fourcc as nat, 10);
    lemma_decimal_text(fourcc as nat);
    assert(vstd::utf8::is_ascii_chars(d)) by {
        assert forall|i: int| 0 <= i < d.len() implies 0 <= #[trigger] d[i] as int
            && (d[i] as int) < 128 by {
            assert(text::is_digit(d[i], 10));
        }
    }
    vstd::utf8::is_ascii_chars_encode_utf8(d);
    text::lemma_parsed(d, 10, u32::MAX as int);
}

/// A modifier written in hexadecimal reads back as that modifier.
pub proof fn law_modifier_reads_back(modifier: u64, width: int)
    ensures
        loose_value(text::hex_text(modifier as nat, width)) == Ok::<u64, ValueError>(modifier),
{
    lemma_hex_text(modifier as nat, width);
    let d = text::hex_text(modifier as nat, width).skip(2);
    assert(text::is_digit(d[0], 16));
    text::lemma_parsed(d, 16, u64::MAX as int);
}

/// Trimming leaves decimal digits alone, and they are no hex number.
proof fn lemma_decimal_text(n: nat)
    ensures
        !has_hex_prefix(text::digits(n, 10)),
        text::trim_space(text::digits(n, 10)) == text::digits(n, 10),
        text::trim_quotes(text::digits(n, 10)) == text::digits(n, 10),
        text::digits(n, 10).len() > 0,
        text::digits(n, 10)[0] != '+',
        text::all_digits(text::digits(n, 10), 10),
        text::value_of(text::digits(n, 10), 10) == n,
{
    let d = text::digits(n, 10);
    text::lemma_digits(n, 10);
    assert(text::is_digit(d[0], 10));
    assert(text::is_digit(d[d.len() - 1], 10));
    if d.len() >= 2 {
        assert(text::is_digit(d[1], 10));
    }
}

/// A decimal modifier reads back too.
pub proof fn law_decimal_modifier_reads_back(modifier: u64)
    ensures
        loose_value(text::digits(modifier as nat, 10)) == Ok::<u64, ValueError>(modifier),
{
    lemma_decimal_text(modifier as nat);
    text::lemma_parsed(text::digits(modifier as nat, 10), 10, u64::MAX as int);
}

proof fn lemma_first_colon(left: Seq<char>, right: Seq<char>)
    requires
        !left.contains(':'),
    ensures
        text::find_first(left + seq![':'] + right, ':') == left.len(),
    decreases left.len(),
{
    let s = left + seq![':'] + right;
    if left.len() > 0 {
        assert(left[0] == s[0]);
        assert(left.contains(left[0]));
        assert(s.skip(1) =~= left.skip(1) + seq![':'] + right);
        assert forall|i: int| 0 <= i < left.skip(1).len() implies left.skip(1)[i] != ':' by {
            assert(left[i + 1] == left.skip(1)[i]);
            assert(left.contains(left[i + 1]));
        }
        lemma_first_colon(left.skip(1), right);
    }
}

/// The two halves are read apart from each other: what stands before the first
/// colon is the fourcc, and the rest is the modifier.
pub proof fn law_halves_are_read_apart(left: Seq<char>, right: Seq<char>)
    requires
        !left.contains(':'),
    ensures
        advertise_value(left + seq![':'] + right) == match (
            fourcc_value(left),
            loose_value(right),
        ) {
            (Ok(fourcc), Ok(modifier)) => Ok::<(u32, u64), ValueError>((fourcc, modifier)),
            (Ok(_), Err(e)) => Err(e),
            (Err(e), _) => Err(e),
        },
{
    let s = left + seq![':'] + right;
    lemma_first_colon(left, right);
    assert(s[left.len() as int] == ':');
    assert(s.take(left.len() as int) =~= left);
    assert(s.skip(left.len() as int + 1) =~= right);
}

/// Any pair can be advertised: the fourcc in hexadecimal, a colon, and the
/// modifier in hexadecimal or decimal read back as that pair, whatever leading
/// zeros the hexadecimal numbers have.
pub proof fn law_advertised_pair_reads_back(
    fourcc: u32,
    modifier: u64,
    fourcc_width: int,
    modifier_width: int,
)
    ensures
        advertise_value(
            text::hex_text(fourcc as nat, fourcc_width) + seq![':'] + text::hex_text(
                modifier as nat,
                modifier_width,
            ),
        ) == Ok::<(u32, u64), ValueError>((fourcc, modifier)),
        advertise_value(
            text::hex_text(fourcc as nat, fourcc_width) + seq![':'] + text::digits(
                modifier as nat,
                10,
            ),
        ) == Ok::<(u32, u64), ValueError>((fourcc, modifier)),
{
    let left = text::hex_text(fourcc as nat, fourcc_width);
    law_fourcc_reads_back(fourcc, fourcc_width);
    law_modifier_reads_back(modifier, modifier_width);
    law_decimal_modifier_reads_back(modifier);
    lemma_hex_text(fourcc as nat, fourcc_width);
    assert forall|i: int| 0 <= i < left.len() implies left[i] != ':' by {
        if i >= 2 {
            assert(text::is_digit(left.skip(2)[i - 2], 16));
        }
    }
    law_halves_are_read_apart(left, text::hex_text(modifier as nat, modifier_width));
    law_halves_are_read_apart(left, text::digits(modifier as nat, 10));
}

/// Four ASCII characters that do not look like a hex number stand for
/// themselves, least significant first, with or without quotation marks.
pub proof fn law_four_characters_stand_for_themselves(s: Seq<char>)
    requires
        s.len() == 4,
        vstd::utf8::is_ascii_chars(s),
        !has_hex_prefix(s),
        !text::is_white_space(s.first()) && !text::is_white_space(s.last()),
        !text::is_quote(s.first()) && !text::is_quote(s.last()),
    ensures
        fourcc_value(s) == Ok::<u32, ValueError>(
            (s[0] as int + s[1] as int * 0x100 + s[2] as int * 0x1_0000 + s[3] as int * 0x100_0000) as u32,
        ),
        fourcc_value(seq!['\''] + s + seq!['\'']) == fourcc_value(s),
{
    let quote = |c: char| text::is_quote(c);
    vstd::utf8::is_ascii_chars_encode_utf8(s);
    let q = seq!['\''] + s + seq!['\''];
    assert(q.skip(1).first() == s.first());
    assert(q.skip(1).drop_last() =~= s);
    reveal_with_fuel(text::trim_start, 2);
    assert(text::trim_start(q, quote) == q.skip(1));
    assert(text::trim_end(q.skip(1), quote) == s);
}

// ---------------------------------------------------------------------------
// Laws on whole command lines
// ---------------------------------------------------------------------------

/// The words that a value follows.
pub open spec fn wants_value(word: Seq<char>) -> bool {
    word == "--socket"@ || word == "--advertise"@ || word == "--dump-dir"@ || word == "--frames"@
        || word == "--name"@
}

/// Where the option after the one at place `i` stands.
pub open spec fn next_place(args: Seq<Seq<char>>, i: int) -> int {
    if wants_value(args[i]) {
        i + 2
    } else {
        i + 1
    }
}

/// The option at place `i` is known and has a value that can be read, where it
/// takes one.
pub open spec fn is_sound_at(args: Seq<Seq<char>>, i: int) -> bool {
    if wants_value(args[i]) {
        &&& i + 1 < args.len()
        &&& args[i] == "--advertise"@ ==> advertise_value(args[i + 1]) is Ok
        &&& args[i] == "--frames"@ ==> text::parsed(args[i + 1], 10, u32::MAX as int) is Ok
    } else {
        args[i] == "--print-caps"@
    }
}

/// Where the first option from place `i` on stands that is not sound.
pub open spec fn first_fault(args: Seq<Seq<char>>, i: int) -> Option<int>
    decreases args.len() - i,
{
    if i < 0 || i >= args.len() {
        None
    } else if is_sound_at(args, i) {
        first_fault(args, next_place(args, i))
    } else {
        Some(i)
    }
}

/// The values of an option from place `i` on, in order.
pub open spec fn values_after(args: Seq<Seq<char>>, i: int, word: Seq<char>) -> Seq<Seq<char>>
    decreases
            if i < args.len() {
                args.len() - i
            } else {
                0
            },
{
    if i < 0 || i >= args.len() {
        Seq::empty()
    } else {
        let rest = values_after(args, next_place(args, i), word);
        if args[i] == word && i + 1 < args.len() {
            seq![args[i + 1]] + rest
        } else {
            rest
        }
    }
}

/// Whether an option stands at place `i` or at the place of a later option.
pub open spec fn is_given(args: Seq<Seq<char>>, i: int, word: Seq<char>) -> bool
    decreases
            if i < args.len() {
                args.len() - i
            } else {
                0
            },
{
    0 <= i < args.len() && (args[i] == word || is_given(args, next_place(args, i), word))
}

/// The last of some values, or what holds without any.
pub open spec fn last_or<T>(values: Seq<T>, otherwise: T) -> T {
    if values.len() > 0 {
        values.last()
    } else {
        otherwise
    }
}

/// Settings `to` follow from `from` by the options from place `i` on.
pub open spec fn follows(args: Seq<Seq<char>>, i: int, from: CliView, to: CliView) -> bool {
    let pairs = values_after(args, i, "--advertise"@);
    let sockets = values_after(args, i, "--socket"@);
    let dirs = values_after(args, i, "--dump-dir"@);
    let counts = values_after(args, i, "--frames"@);
    &&& to.advertise.len() == from.advertise.len() + pairs.len()
    &&& to.advertise.take(from.advertise.len() as int) == from.advertise
    &&& forall|k: int|
        0 <= k < pairs.len() ==> advertise_value(#[trigger] pairs[k]) == Ok::<
            (u32, u64),
            ValueError,
        >(to.advertise[from.advertise.len() + k])
    &&& to.socket == if sockets.len() > 0 {
        Some(sockets.last())
    } else {
        from.socket
    }
    &&& to.dump_dir == if dirs.len() > 0 {
        Some(dirs.last())
    } else {
        from.dump_dir
    }
    &&& to.name == last_or(values_after(args, i, "--name"@), from.name)
    &&& if counts.len() > 0 {
        text::parsed(counts.last(), 10, u32::MAX as int) == Ok::<int, text::NumberError>(
            to.frames as int,
        )
    } else {
        to.frames == from.frames
    }
    &&& to.print_caps == (from.print_caps || is_given(args, i, "--print-caps"@))
}

proof fn lemma_words_differ()
    ensures
        "--socket"@ != "--advertise"@,
        "--socket"@ != "--dump-dir"@,
        "--socket"@ != "--frames"@,
        "--socket"@ != "--name"@,
        "--advertise"@ != "--dump-dir"@,
        "--advertise"@ != "--frames"@,
        "--advertise"@ != "--name"@,
        "--dump-dir"@ != "--frames"@,
        "--dump-dir"@ != "--name"@,
        "--frames"@ != "--name"@,
        !wants_value("--print-caps"@),
        !wants_value("-h"@),
        !wants_value("--help"@),
        "-h"@ != "--print-caps"@,
        "--help"@ != "--print-caps"@,
{
    reveal_strlit("--socket");
    reveal_strlit("--advertise");
    reveal_strlit("--dump-dir");
    reveal_strlit("--frames");
    reveal_strlit("--name");
    reveal_strlit("--print-caps");
    reveal_strlit("-h");
    reveal_strlit("--help");
    assert("--socket"@[2] == 's' && "--advertise"@[2] == 'a' && "--dump-dir"@[2] == 'd');
    assert("--frames"@[2] == 'f' && "--name"@[2] == 'n' && "--print-caps"@[2] == 'p');
    assert("--help"@[2] == 'h' && "-h"@.len() == 2);
    assert("--socket"@.len() == 8 && "--advertise"@.len() == 11 && "--dump-dir"@.len() == 10);
    assert("--frames"@.len() == 8 && "--name"@.len() == 6);
}

proof fn lemma_args_follow(args: Seq<Seq<char>>, i: int, cli: CliView)
    requires
        0 <= i,
        args.len() <= usize::MAX,
    ensures
        match first_fault(args, i) {
            None => args_value(args, i, cli) is Ok && args_value(args, i, cli)->Ok_0 is Some
                && follows(args, i, cli, args_value(args, i, cli)->Ok_0->0),
            Some(p) => {
                &&& i <= p < args.len()
                &&& (args_value(args, i, cli) == Ok::<Option<CliView>, ArgError>(None)) == (args[p]
                    == "-h"@ || args[p] == "--help"@)
                &&& !(args[p] == "-h"@ || args[p] == "--help"@) ==> args_value(args, i, cli) is Err
                    && explains(args, p, args_value(args, i, cli)->Err_0)
            },
        },
    decreases args.len() - i,
{
    lemma_words_differ();
    if i < args.len() {
        if is_sound_at(args, i) {
            let next = next_place(args, i);
            let mid = if args[i] == "--socket"@ {
                CliView { socket: Some(args[i + 1]), ..cli }
            } else if args[i] == "--advertise"@ {
                CliView {
                    advertise: cli.advertise.push(advertise_value(args[i + 1])->Ok_0),
                    ..cli
                }
            } else if args[i] == "--dump-dir"@ {
                CliView { dump_dir: Some(args[i + 1]), ..cli }
            } else if args[i] == "--frames"@ {
                CliView {
                    frames: text::parsed(args[i + 1], 10, u32::MAX as int)->Ok_0 as u32,
                    ..cli
                }
            } else if args[i] == "--name"@ {
                CliView { name: args[i + 1], ..cli }
            } else {
                CliView { print_caps: true, ..cli }
            };
            assert(args_value(args, i, cli) == args_value(args, next, mid));
            lemma_args_follow(args, next, mid);
            if first_fault(args, i) is None {
                let to = args_value(args, i, cli)->Ok_0->0;
                if args[i] == "--frames"@ {
                    lemma_parsed_fits(args[i + 1]);
                }
                if args[i] == "--advertise"@ {
                    lemma_pair_follows(args, i, cli, mid, to);
                }
                assert(follows(args, i, cli, to));
            }
        }
    } else {
        assert(cli.advertise.take(cli.advertise.len() as int) =~= cli.advertise);
    }
}

proof fn lemma_parsed_fits(s: Seq<char>)
    requires
        text::parsed(s, 10, u32::MAX as int) is Ok,
    ensures
        0 <= text::parsed(s, 10, u32::MAX as int)->Ok_0 <= u32::MAX,
{
    text::law_only_digits_are_read(
        s,
        10,
        u32::MAX as int,
        text::parsed(s, 10, u32::MAX as int)->Ok_0,
    );
    text::lemma_value_is_natural(text::without_plus(s), 10);
}

proof fn lemma_pair_follows(
    args: Seq<Seq<char>>,
    i: int,
    cli: CliView,
    mid: CliView,
    to: CliView,
)
    requires
        0 <= i,
        i + 1 < args.len(),
        args[i] == "--advertise"@,
        advertise_value(args[i + 1]) is Ok,
        mid == (CliView {
            advertise: cli.advertise.push(advertise_value(args[i + 1])->Ok_0),
            ..cli
        }),
        follows(args, i + 2, mid, to),
    ensures
        ({
            let pairs = values_after(args, i, "--advertise"@);
            &&& to.advertise.len() == cli.advertise.len() + pairs.len()
            &&& to.advertise.take(cli.advertise.len() as int) == cli.advertise
            &&& forall|k: int|
                0 <= k < pairs.len() ==> advertise_value(#[trigger] pairs[k]) == Ok::<
                    (u32, u64),
                    ValueError,
                >(to.advertise[cli.advertise.len() + k])
        }),
{
    let pairs = values_after(args, i, "--advertise"@);
    let rest = values_after(args, i + 2, "--advertise"@);
    let n = cli.advertise.len() as int;
    assert(pairs =~= seq![args[i + 1]] + rest);
    assert forall|j: int| 0 <= j < n + 1 implies #[trigger] to.advertise[j]
        == mid.advertise[j] by {
        assert(to.advertise.take(n + 1)[j] == mid.advertise[j]);
    }
    assert(to.advertise.take(n) =~= cli.advertise);
    assert forall|k: int| 0 <= k < pairs.len() implies advertise_value(#[trigger] pairs[k])
        == Ok::<(u32, u64), ValueError>(to.advertise[n + k]) by {
        if k > 0 {
            assert(pairs[k] == rest[k - 1]);
        }
    }
}

/// An error fits the option at place `p`: it is unknown, or its value is
/// missing, or the value cannot be read.
pub open spec fn explains(args: Seq<Seq<char>>, p: int, error: ArgError) -> bool {
    if !wants_value(args[p]) {
        error matches ArgError::Unknown(at) && at == p
    } else if p + 1 >= args.len() {
        error matches ArgError::MissingValue(opt) && args[p] == match opt {
            Opt::Socket => "--socket"@,
            Opt::Advertise => "--advertise"@,
            Opt::DumpDir => "--dump-dir"@,
            Opt::Frames => "--frames"@,
            Opt::Name => "--name"@,
        }
    } else {
        ||| args[p] == "--advertise"@ && (error matches ArgError::Advertise { at, error: cause }
            && at == p + 1 && advertise_value(args[p + 1]) == Err::<(u32, u64), ValueError>(cause))
        ||| args[p] == "--frames"@ && (error matches ArgError::Frames { cause } && text::parsed(
            args[p + 1],
            10,
            u32::MAX as int,
        ) == Err::<int, text::NumberError>(cause))
    }
}

/// A command line whose options are all sound leads to a run with exactly these
/// settings: one advertised pair for every `--advertise`, in order and as its
/// value reads; of every other option the last value, or else the default; and
/// the capabilities are printed exactly if that is asked for.
pub proof fn law_settings_are_those_of_the_options(args: Seq<Seq<char>>)
    requires
        first_fault(args, 0) is None,
        args.len() <= usize::MAX,
    ensures
        ({
            let pairs = values_after(args, 0, "--advertise"@);
            let sockets = values_after(args, 0, "--socket"@);
            let dirs = values_after(args, 0, "--dump-dir"@);
            let counts = values_after(args, 0, "--frames"@);
            let names = values_after(args, 0, "--name"@);
            &&& args_value(args, 0, default_cli()) matches Ok(Some(cli)) && {
                &&& cli.advertise.len() == pairs.len()
                &&& forall|k: int|
                    0 <= k < pairs.len() ==> advertise_value(#[trigger] pairs[k]) == Ok::<
                        (u32, u64),
                        ValueError,
                    >(cli.advertise[k])
                &&& sockets.len() == 0 ==> cli.socket is None
                &&& sockets.len() > 0 ==> cli.socket == Some(sockets.last())
                &&& dirs.len() == 0 ==> cli.dump_dir is None
                &&& dirs.len() > 0 ==> cli.dump_dir == Some(dirs.last())
                &&& names.len() == 0 ==> cli.name == "dump-display"@
                &&& names.len() > 0 ==> cli.name == names.last()
                &&& counts.len() == 0 ==> cli.frames == 1
                &&& counts.len() > 0 ==> text::parsed(counts.last(), 10, u32::MAX as int) == Ok::<
                    int,
                    text::NumberError,
                >(cli.frames as int)
                &&& cli.print_caps == is_given(args, 0, "--print-caps"@)
            }
        }),
{
    lemma_args_follow(args, 0, default_cli());
}

/// The first option that is not sound ends the reading: with the help text if
/// it asks for that, and else with an error that fits it.
pub proof fn law_first_fault_is_answered(args: Seq<Seq<char>>)
    requires
        first_fault(args, 0) is Some,
        args.len() <= usize::MAX,
    ensures
        ({
            let p = first_fault(args, 0)->0;
            let answer = args_value(args, 0, default_cli());
            &&& 0 <= p < args.len() && !is_sound_at(args, p)
            &&& args[p] == "-h"@ || args[p] == "--help"@ ==> answer == Ok::<
                Option<CliView>,
                ArgError,
            >(None)
            &&& !(args[p] == "-h"@ || args[p] == "--help"@) ==> answer is Err && explains(
                args,
                p,
                answer->Err_0,
            )
        }),
{
    lemma_args_follow(args, 0, default_cli());
    lemma_fault_is_no_sound_place(args, 0);
}

proof fn lemma_fault_is_no_sound_place(args: Seq<Seq<char>>, i: int)
    requires
        0 <= i,
        first_fault(args, i) is Some,
    ensures
        i <= first_fault(args, i)->0 < args.len(),
        !is_sound_at(args, first_fault(args, i)->0),
    decreases args.len() - i,
{
    if i < args.len() && is_sound_at(args, i) {
        lemma_fault_is_no_sound_place(args, next_place(args, i));
    }
}

/// Settings are looked at as they are.
pub proof fn law_settings_are_seen_as_they_are(cli: Cli)
    ensures
        cli@.socket is Some <==> cli.socket is Some,
        cli.socket is Some ==> cli@.socket->0 == cli.socket->0@,
        cli@.dump_dir is Some <==> cli.dump_dir is Some,
        cli.dump_dir is Some ==> cli@.dump_dir->0 == cli.dump_dir->0@,
        cli@.advertise == cli.advertise@,
        cli@.frames == cli.frames,
        cli@.print_caps == cli.print_caps,
        cli@.name == cli.name@,
{
}

/// White space around a number does not matter, nor do quotation marks around a
/// fourcc.
pub proof fn law_surroundings_do_not_matter(
    front: Seq<char>,
    marks: Seq<char>,
    s: Seq<char>,
    more_marks: Seq<char>,
    back: Seq<char>,
)
    requires
        forall|i: int| 0 <= i < front.len() ==> text::is_white_space(#[trigger] front[i]),
        forall|i: int| 0 <= i < back.len() ==> text::is_white_space(#[trigger] back[i]),
        forall|i: int| 0 <= i < marks.len() ==> #[trigger] marks[i] == '\'' || marks[i] == '"',
        forall|i: int|
            0 <= i < more_marks.len() ==> #[trigger] more_marks[i] == '\'' || more_marks[i] == '"',
        s.len() > 0,
        !text::is_white_space(s.first()) && s.first() != '\'' && s.first() != '"',
        !text::is_white_space(s.last()) && s.last() != '\'' && s.last() != '"',
    ensures
        loose_value(front + s + back) == loose_value(s),
        fourcc_value(front + (marks + s + more_marks) + back) == fourcc_value(s),
{
    let space = |c: char| text::is_white_space(c);
    let quote = |c: char| text::is_quote(c);
    let none = Seq::<char>::empty();
    let quoted = marks + s + more_marks;
    assert(none + s + none =~= s);
    text::law_trimmed_text_is_alike(front, s, back, space);
    text::law_trimmed_text_is_alike(none, s, none, space);
    text::law_trimmed_text_is_alike(none, s, none, quote);
    text::law_trimmed_text_is_alike(marks, s, more_marks, quote);
    assert(quoted.first() == if marks.len() > 0 {
        marks[0]
    } else {
        s.first()
    });
    assert(quoted.last() == if more_marks.len() > 0 {
        more_marks[more_marks.len() - 1]
    } else {
        s.last()
    });
    text::law_trimmed_text_is_alike(front, quoted, back, space);
}

/// The `x` of a hexadecimal number may be small or capital.
pub proof fn law_hex_marker_in_either_case(d: Seq<char>)
    requires
        d.len() > 0,
        !text::is_white_space(d.last()) && d.last() != '\'' && d.last() != '"',
    ensures
        loose_value(seq!['0', 'X'] + d) == loose_value(seq!['0', 'x'] + d),
        fourcc_value(seq!['0', 'X'] + d) == fourcc_value(seq!['0', 'x'] + d),
        fourcc_value(seq!['0', 'x'] + d) == match text::parsed(d, 16, u32::MAX as int) {
            Ok(n) => Ok::<u32, ValueError>(n as u32),
            Err(cause) => Err(ValueError::HexFourcc { cause }),
        },
        loose_value(seq!['0', 'x'] + d) == match text::parsed(d, 16, u64::MAX as int) {
            Ok(n) => Ok::<u64, ValueError>(n as u64),
            Err(cause) => Err(ValueError::Modifier { cause }),
        },
{
    let none = Seq::<char>::empty();
    let space = |c: char| text::is_white_space(c);
    let quote = |c: char| text::is_quote(c);
    let a = seq!['0', 'X'] + d;
    let b = seq!['0', 'x'] + d;
    assert(a.last() == d.last() && b.last() == d.last());
    assert(none + a + none =~= a);
    assert(none + b + none =~= b);
    text::law_trimmed_text_is_alike(none, a, none, space);
    text::law_trimmed_text_is_alike(none, a, none, quote);
    text::law_trimmed_text_is_alike(none, b, none, space);
    text::law_trimmed_text_is_alike(none, b, none, quote);
    assert(a.skip(2) =~= d);
    assert(b.skip(2) =~= d);
}

/// Without a colon nothing is advertised, whatever else the text holds.
pub proof fn law_pair_needs_a_colon(s: Seq<char>)
    ensures
        advertise_value(s) == Err::<(u32, u64), ValueError>(ValueError::NoColon) <==> forall|i: int|
            0 <= i < s.len() ==> #[trigger] s[i] != ':',
{
    if s.contains(':') {
        let i = s.index_of(':');
        assert(s[i] == ':');
    }
}

/// Text that is no hexadecimal number and not four bytes long is a decimal
/// number or refused; a modifier without `0x` is a decimal number or refused.
pub proof fn law_everything_else_is_decimal(s: Seq<char>)
    requires
        s.len() > 0,
        !text::is_white_space(s.first()) && s.first() != '\'' && s.first() != '"',
        !text::is_white_space(s.last()) && s.last() != '\'' && s.last() != '"',
        !(s.len() >= 2 && s[0] == '0' && (s[1] == 'x' || s[1] == 'X')),
    ensures
        vstd::utf8::encode_utf8(s).len() != 4 ==> fourcc_value(s) == match text::parsed(
            s,
            10,
            u32::MAX as int,
        ) {
            Ok(n) => Ok::<u32, ValueError>(n as u32),
            Err(cause) => Err(ValueError::DecimalFourcc { cause }),
        },
        loose_value(s) == match text::parsed(s, 10, u64::MAX as int) {
            Ok(n) => Ok::<u64, ValueError>(n as u64),
            Err(cause) => Err(ValueError::Modifier { cause }),
        },
        vstd::utf8::encode_utf8(s).len() == 4 ==> fourcc_value(s) is Ok && {
            let b = vstd::utf8::encode_utf8(s);
            let n = fourcc_value(s)->Ok_0;
            n == b[0] + b[1] * 0x100 + b[2] * 0x1_0000 + b[3] * 0x100_0000
        },
{
    let none = Seq::<char>::empty();
    assert(none + s + none =~= s);
    text::law_trimmed_text_is_alike(none, s, none, |c: char| text::is_white_space(c));
    text::law_trimmed_text_is_alike(none, s, none, |c: char| text::is_quote(c));
}

/// What is read of a command line: the settings of its options where all are
/// sound, each pair and text as it was given; and else the help text or the
/// error that the first fault calls for.
pub proof fn law_reading_gives_the_settings(args: Seq<Seq<char>>, r: Result<Parsed, ArgError>)
    requires
        is_reading_of(args, r),
        args.len() <= usize::MAX,
    ensures
        match first_fault(args, 0) {
            None => r matches Ok(Parsed::Run(cli)) && {
                let pairs = values_after(args, 0, "--advertise"@);
                let sockets = values_after(args, 0, "--socket"@);
                let dirs = values_after(args, 0, "--dump-dir"@);
                &&& cli.advertise@.len() == pairs.len()
                &&& forall|k: int|
                    0 <= k < pairs.len() ==> advertise_value(#[trigger] pairs[k]) == Ok::<
                        (u32, u64),
                        ValueError,
                    >(cli.advertise@[k])
                &&& cli.socket is Some <==> sockets.len() > 0
                &&& cli.socket is Some ==> cli.socket->0@ == sockets.last()
                &&& cli.dump_dir is Some <==> dirs.len() > 0
                &&& cli.dump_dir is Some ==> cli.dump_dir->0@ == dirs.last()
                &&& cli.name@ == last_or(values_after(args, 0, "--name"@), "dump-display"@)
                &&& cli.print_caps <==> is_given(args, 0, "--print-caps"@)
            },
            Some(p) => if args[p] == "-h"@ || args[p] == "--help"@ {
                r matches Ok(Parsed::Help)
            } else {
                r is Err && explains(args, p, r->Err_0)
            },
        },
{
    if first_fault(args, 0) is None {
        law_settings_are_those_of_the_options(args);
    } else {
        law_first_fault_is_answered(args);
    }
}

/// Frames are consumed exactly if a socket and at least one pair are given and
/// nothing is to be printed; the capabilities are printed exactly if that is
/// asked for; and a missing socket is refused before missing pairs.
pub proof fn law_mode_follows_from_the_options(cli: CliView)
    ensures
        mode_of(cli) == Mode::Consume <==> !cli.print_caps && cli.socket is Some
            && cli.advertise.len() >= 1,
        mode_of(cli) == Mode::PrintCaps <==> cli.print_caps,
        mode_of(cli) == Mode::NoSocket <==> !cli.print_caps && cli.socket is None,
        mode_of(cli) == Mode::NothingAdvertised <==> !cli.print_caps && cli.socket is Some
            && cli.advertise.len() < 1,
{
}

/// White space alone is no number, and neither is nothing at all.
pub proof fn law_space_is_no_number(s: Seq<char>)
    requires
        forall|i: int| 0 <= i < s.len() ==> text::is_white_space(#[trigger] s[i]),
    ensures
        fourcc_value(s) == Err::<u32, ValueError>(
            ValueError::DecimalFourcc { cause: NumberError::Empty },
        ),
        loose_value(s) == Err::<u64, ValueError>(
            ValueError::Modifier { cause: NumberError::Empty },
        ),
{
    let space = |c: char| text::is_white_space(c);
    let ends = text::law_trimming_takes_off_both_ends(s, space);
    let t = text::trim_space(s);
    if t.len() > 0 {
        assert(s[ends.0.len() as int] == t.first());
    }
    assert(t =~= Seq::<char>::empty());
    assert(text::trim_quotes(t) =~= Seq::<char>::empty());
    assert(vstd::utf8::is_ascii_chars(t));
    vstd::utf8::is_ascii_chars_encode_utf8(t);
}

/// The number that a text without marks around it stands for, or why it is none:
/// hexadecimal digits behind `0x` or `0X`, and decimal ones otherwise.
pub open spec fn bare_number(s: Seq<char>, max: int) -> Result<int, NumberError> {
    if s.len() >= 2 && s[0] == '0' && (s[1] == 'x' || s[1] == 'X') {
        text::parsed(s.skip(2), 16, max)
    } else {
        text::parsed(s, 10, max)
    }
}

proof fn lemma_trimmed_away(s: Seq<char>, drop: spec_fn(char) -> bool)
    requires
        forall|i: int| 0 <= i < s.len() ==> drop(#[trigger] s[i]),
    ensures
        text::trim_both(s, drop) == Seq::<char>::empty(),
{
    let ends = text::law_trimming_takes_off_both_ends(s, drop);
    let t = text::trim_both(s, drop);
    if t.len() > 0 {
        assert(s[ends.0.len() as int] == t.first());
    }
    assert(t =~= Seq::<char>::empty());
}

/// Any modifier in full: white space, what is left of the text without it, and
/// white space again.
pub proof fn law_modifier_in_full(front: Seq<char>, s: Seq<char>, back: Seq<char>)
    requires
        forall|i: int| 0 <= i < front.len() ==> text::is_white_space(#[trigger] front[i]),
        forall|i: int| 0 <= i < back.len() ==> text::is_white_space(#[trigger] back[i]),
        s.len() > 0 ==> !text::is_white_space(s.first()) && !text::is_white_space(s.last()),
    ensures
        loose_value(front + s + back) == match bare_number(s, 0xffff_ffff_ffff_ffff) {
            Ok(n) => Ok::<u64, ValueError>(n as u64),
            Err(cause) => Err(ValueError::Modifier { cause }),
        },
{
    let space = |c: char| text::is_white_space(c);
    if s.len() > 0 {
        text::law_trimmed_text_is_alike(front, s, back, space);
    } else {
        lemma_trimmed_away(front + s + back, space);
        assert(s =~= Seq::<char>::empty());
    }
}

/// Any fourcc in full: white space, quotation marks inside it, and inside these
/// what is left of the text. That is a hexadecimal number where it begins like
/// one, and else four bytes where it has so many, and else a decimal number.
pub proof fn law_fourcc_in_full(
    front: Seq<char>,
    marks: Seq<char>,
    s: Seq<char>,
    more_marks: Seq<char>,
    back: Seq<char>,
)
    requires
        forall|i: int| 0 <= i < front.len() ==> text::is_white_space(#[trigger] front[i]),
        forall|i: int| 0 <= i < back.len() ==> text::is_white_space(#[trigger] back[i]),
        forall|i: int| 0 <= i < marks.len() ==> #[trigger] marks[i] == '\'' || marks[i] == '"',
        forall|i: int|
            0 <= i < more_marks.len() ==> #[trigger] more_marks[i] == '\'' || more_marks[i] == '"',
        s.len() > 0 ==> s.first() != '\'' && s.first() != '"' && s.last() != '\'' && s.last() != '"',
        s.len() > 0 && marks.len() == 0 ==> !text::is_white_space(s.first()),
        s.len() > 0 && more_marks.len() == 0 ==> !text::is_white_space(s.last()),
    ensures
        ({
            let value = fourcc_value(front + (marks + s + more_marks) + back);
            let bytes = vstd::utf8::encode_utf8(s);
            let hex = s.len() >= 2 && s[0] == '0' && (s[1] == 'x' || s[1] == 'X');
            &&& !hex && bytes.len() == 4 ==> value is Ok && value->Ok_0 == bytes[0] + bytes[1] * 0x100
                + bytes[2] * 0x1_0000 + bytes[3] * 0x100_0000
            &&& hex || bytes.len() != 4 ==> value == match bare_number(s, 0xffff_ffff) {
                Ok(n) => Ok::<u32, ValueError>(n as u32),
                Err(cause) => if hex {
                    Err(ValueError::HexFourcc { cause })
                } else {
                    Err(ValueError::DecimalFourcc { cause })
                },
            }
        }),
{
    let space = |c: char| text::is_white_space(c);
    let quote = |c: char| text::is_quote(c);
    let quoted = marks + s + more_marks;
    if quoted.len() > 0 {
        assert(quoted.first() == if marks.len() > 0 {
            marks[0]
        } else if s.len() > 0 {
            s.first()
        } else {
            more_marks[0]
        });
        assert(quoted.last() == if more_marks.len() > 0 {
            more_marks[more_marks.len() - 1]
        } else if s.len() > 0 {
            s.last()
        } else {
            marks[marks.len() - 1]
        });
        text::law_trimmed_text_is_alike(front, quoted, back, space);
    } else {
        lemma_trimmed_away(front + quoted + back, space);
        assert(quoted =~= Seq::<char>::empty());
    }
    if s.len() > 0 {
        text::law_trimmed_text_is_alike(marks, s, more_marks, quote);
    } else {
        lemma_trimmed_away(quoted, quote);
        assert(s =~= Seq::<char>::empty());
    }
}

} // verus!
