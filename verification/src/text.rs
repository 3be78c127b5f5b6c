//! Text as sequences of characters: digits, trimming and ordering.
use vstd::prelude::*;

verus! {

/// `std::string::String::push` appends one character.
pub assume_specification[ std::string::String::push ](s: &mut String, c: char)
    ensures
        final(s)@ == old(s)@.push(c),
;

// ---------------------------------------------------------------------------
// Characters of a string
// ---------------------------------------------------------------------------

/// The text behind an optional string.
pub open spec fn opt_text(s: Option<String>) -> Option<Seq<char>> {
    match s {
        Some(t) => Some(t@),
        None => None,
    }
}

/// The texts of a list of strings.
pub open spec fn texts(list: Seq<String>) -> Seq<Seq<char>> {
    Seq::new(list.len(), |i: int| list[i]@)
}

/// The characters of `s`, in order.
pub fn chars_of(s: &str) -> (out: Vec<char>)
    ensures
        out@ == s@,
{
    let mut out: Vec<char> = Vec::new();
    for c in it: s.chars()
        invariant
            it.seq() == s@,
            out@ == s@.take(it.index()),
    {
        out.push(c);
        assert(s@.take(it.index() + 1) =~= s@.take(it.index()).push(c));
    }
    assert(s@.take(s@.len() as int) =~= s@);
    out
}

/// Whether two strings hold the same characters.
pub fn same_text(a: &str, b: &str) -> (same: bool)
    ensures
        same == (a@ == b@),
{
    a.to_owned() == b.to_owned()
}

/// Whether `s` begins with `prefix`.
pub open spec fn has_prefix(s: Seq<char>, prefix: Seq<char>) -> bool {
    s.len() >= prefix.len() && s.take(prefix.len() as int) == prefix
}

/// Decides [`has_prefix`] on two lists of characters.
pub fn starts_with(s: &Vec<char>, prefix: &Vec<char>) -> (yes: bool)
    ensures
        yes == has_prefix(s@, prefix@),
{
    if s.len() < prefix.len() {
        return false;
    }
    let mut i: usize = 0;
    while i < prefix.len()
        invariant
            i <= prefix.len() <= s.len(),
            forall|j: int| 0 <= j < i ==> s[j] == prefix[j],
        decreases prefix.len() - i,
    {
        if s[i] != prefix[i] {
            assert(s@.take(prefix@.len() as int)[i as int] != prefix@[i as int]);
            return false;
        }
        i += 1;
    }
    assert(s@.take(prefix@.len() as int) =~= prefix@);
    true
}

/// The characters from `from` to `to`, as a list of their own.
pub fn sub_chars(s: &Vec<char>, from: usize, to: usize) -> (out: Vec<char>)
    requires
        from <= to <= s.len(),
    ensures
        out@ == s@.subrange(from as int, to as int),
{
    let mut out: Vec<char> = Vec::new();
    let mut i: usize = from;
    while i < to
        invariant
            from <= i <= to <= s.len(),
            out@ == s@.subrange(from as int, i as int),
        decreases to - i,
    {
        out.push(s[i]);
        assert(s@.subrange(from as int, i + 1) =~= s@.subrange(from as int, i as int).push(s[i as int]));
        i += 1;
    }
    out
}

// ---------------------------------------------------------------------------
// Numbers
// ---------------------------------------------------------------------------

/// The digit `d` in lower case: `0` to `9`, then `a` to `f`.
pub open spec fn digit_char(d: int) -> char {
    if d < 10 {
        ('0' as int + d) as char
    } else {
        ('a' as int + (d - 10)) as char
    }
}

/// The number that `c` stands for as a digit of any radix up to 16.
pub open spec fn digit_value(c: char) -> Option<int> {
    if '0' <= c <= '9' {
        Some(c as int - '0' as int)
    } else if 'a' <= c <= 'f' {
        Some(c as int - 'a' as int + 10)
    } else if 'A' <= c <= 'F' {
        Some(c as int - 'A' as int + 10)
    } else {
        None
    }
}

/// Whether `c` is a digit of `radix`.
pub open spec fn is_digit(c: char, radix: int) -> bool {
    match digit_value(c) {
        Some(d) => d < radix,
        None => false,
    }
}

/// Whether `s` is a run of digits of `radix`.
pub open spec fn all_digits(s: Seq<char>, radix: int) -> bool {
    forall|i: int| 0 <= i < s.len() ==> is_digit(#[trigger] s[i], radix)
}

/// The number that the digits `s` spell in `radix`.
pub open spec fn value_of(s: Seq<char>, radix: int) -> int
    decreases s.len(),
{
    if s.len() == 0 {
        0
    } else {
        value_of(s.drop_last(), radix) * radix + match digit_value(s.last()) {
            Some(d) => d,
            None => 0,
        }
    }
}

/// `s` without one leading plus sign.
pub open spec fn without_plus(s: Seq<char>) -> Seq<char> {
    if s.len() > 0 && s[0] == '+' {
        s.skip(1)
    } else {
        s
    }
}

/// Why a text is no number.
#[derive(Debug, Clone, Copy, PartialEq, Eq, Structural)]
pub enum NumberError {
    /// There is nothing to read.
    Empty,
    /// Something else than a digit stands where a digit should.
    InvalidDigit,
    /// The number is larger than it may be.
    TooLarge,
}

/// How many digits of `radix` `s` begins with.
pub open spec fn digit_count(s: Seq<char>, radix: int) -> int
    decreases s.len(),
{
    if s.len() == 0 || !is_digit(s[0], radix) {
        0
    } else {
        1 + digit_count(s.skip(1), radix)
    }
}

/// The unsigned number up to `max` that `s` spells in `radix`: an optional
/// plus sign followed by at least one digit and nothing else. The text is read
/// from the left, so that digits that are too large in themselves count before
/// what follows them.
pub open spec fn parsed(s: Seq<char>, radix: int, max: int) -> Result<int, NumberError> {
    let body = without_plus(s);
    let leading = body.take(digit_count(body, radix));
    if s.len() == 0 {
        Err(NumberError::Empty)
    } else if value_of(leading, radix) > max {
        Err(NumberError::TooLarge)
    } else if leading.len() == 0 || leading.len() < body.len() {
        Err(NumberError::InvalidDigit)
    } else {
        Ok(value_of(body, radix))
    }
}

proof fn lemma_digit_count(s: Seq<char>, k: int, radix: int)
    requires
        0 <= k <= s.len(),
        all_digits(s.take(k), radix),
    ensures
        k <= digit_count(s, radix) <= s.len(),
        all_digits(s.take(digit_count(s, radix)), radix),
        k < s.len() && !is_digit(s[k], radix) ==> digit_count(s, radix) == k,
    decreases s.len(),
{
    if s.len() > 0 && is_digit(s[0], radix) {
        let rest = s.skip(1);
        let less = if k > 0 {
            k - 1
        } else {
            0
        };
        assert forall|i: int| 0 <= i < rest.take(less).len() implies is_digit(
            #[trigger] rest.take(less)[i],
            radix,
        ) by {
            assert(s.take(k)[i + 1] == rest.take(less)[i]);
        }
        lemma_digit_count(rest, less, radix);
        let n = digit_count(s, radix);
        assert forall|i: int| 0 <= i < n implies is_digit(#[trigger] s.take(n)[i], radix) by {
            if i > 0 {
                assert(rest.take(n - 1)[i - 1] == s.take(n)[i]);
            }
        }
        if k > 0 && k < s.len() {
            assert(rest[k - 1] == s[k]);
        }
    } else if s.len() > 0 && k > 0 {
        assert(s.take(k)[0] == s[0]);
    }
}

/// Digits alone that spell no more than `max` are read as what they spell.
pub proof fn lemma_parsed(s: Seq<char>, radix: int, max: int)
    requires
        s.len() > 0,
        s[0] != '+',
        all_digits(s, radix),
        value_of(s, radix) <= max,
    ensures
        parsed(s, radix, max) == Ok::<int, NumberError>(value_of(s, radix)),
{
    assert(s.take(s.len() as int) =~= s);
    lemma_digit_count(s, s.len() as int, radix);
}

/// The value of a prefix never exceeds the value of the whole.
proof fn lemma_value_grows(s: Seq<char>, k: int, radix: int)
    requires
        0 <= k <= s.len(),
        2 <= radix <= 16,
        all_digits(s.take(k), radix),
    ensures
        0 <= value_of(s.take(k), radix) <= value_of(s, radix),
    decreases s.len(),
{
    if k == s.len() {
        assert(s.take(k) =~= s);
        if s.len() > 0 {
            assert(s.drop_last() =~= s.take(k - 1));
            assert(s.drop_last().take(k - 1) =~= s.drop_last());
            assert forall|i: int| 0 <= i < s.drop_last().len() implies is_digit(
                #[trigger] s.drop_last()[i],
                radix,
            ) by {
                assert(s.take(k)[i] == s.drop_last()[i]);
            }
            lemma_value_grows(s.drop_last(), k - 1, radix);
            let v = value_of(s.drop_last(), radix);
            assert(v * radix >= 0) by (nonlinear_arith)
                requires
                    v >= 0,
                    radix >= 2,
            ;
        }
    } else {
        assert(s.drop_last().take(k) =~= s.take(k));
        lemma_value_grows(s.drop_last(), k, radix);
        let v = value_of(s.drop_last(), radix);
        assert(v * radix >= v) by (nonlinear_arith)
            requires
                v >= 0,
                radix >= 2,
        ;
    }
}

/// Reads one digit.
pub fn read_digit(c: char, radix: u64) -> (d: Option<u64>)
    requires
        2 <= radix <= 16,
    ensures
        d is Some <==> is_digit(c, radix as int),
        d is Some ==> digit_value(c) == Some(d->0 as int),
{
    let raw: u64 = if '0' <= c && c <= '9' {
        (c as u64) - ('0' as u64)
    } else if 'a' <= c && c <= 'f' {
        (c as u64) - ('a' as u64) + 10
    } else if 'A' <= c && c <= 'F' {
        (c as u64) - ('A' as u64) + 10
    } else {
        return None;
    };
    if raw < radix {
        Some(raw)
    } else {
        None
    }
}

/// Reads `s` as an unsigned number of `radix` that is at most `max`.
pub fn parse_number(s: &Vec<char>, radix: u64, max: u64) -> (n: Result<u64, NumberError>)
    requires
        2 <= radix <= 16,
    ensures
        match n {
            Ok(v) => parsed(s@, radix as int, max as int) == Ok::<int, NumberError>(v as int),
            Err(e) => parsed(s@, radix as int, max as int) == Err::<int, NumberError>(e),
        },
{
    if s.len() == 0 {
        return Err(NumberError::Empty);
    }
    let start: usize = if s[0] == '+' {
        1
    } else {
        0
    };
    let ghost body = without_plus(s@);
    assert(body =~= s@.skip(start as int));
    if start == s.len() {
        return Err(NumberError::InvalidDigit);
    }
    let mut i: usize = start;
    let mut acc: u64 = 0;
    while i < s.len()
        invariant
            start <= i <= s.len(),
            start < s.len(),
            body == s@.skip(start as int),
            body == without_plus(s@),
            2 <= radix <= 16,
            all_digits(body.take(i - start), radix as int),
            acc == value_of(body.take(i - start), radix as int),
            acc <= max,
        decreases s.len() - i,
    {
        let ghost k = i - start;
        assert(body.take(k + 1).drop_last() =~= body.take(k));
        assert(body.take(k + 1).last() == s[i as int]);
        match read_digit(s[i], radix) {
            Some(d) => {
                assert(0 <= acc * radix <= 16 * u64::MAX) by (nonlinear_arith)
                    requires
                        0 <= acc <= u64::MAX,
                        2 <= radix <= 16,
                ;
                let wide: u128 = (acc as u128) * (radix as u128) + (d as u128);
                proof {
                    assert forall|j: int| 0 <= j < k + 1 implies is_digit(
                        #[trigger] body.take(k + 1)[j],
                        radix as int,
                    ) by {
                        if j < k {
                            assert(body.take(k)[j] == body.take(k + 1)[j]);
                        }
                    }
                    assert(wide == value_of(body.take(k + 1), radix as int));
                }
                if wide > max as u128 {
                    proof {
                        lemma_digit_count(body, k + 1, radix as int);
                        let leading = body.take(digit_count(body, radix as int));
                        assert(leading.take(k + 1) =~= body.take(k + 1));
                        lemma_value_grows(leading, k + 1, radix as int);
                    }
                    return Err(NumberError::TooLarge);
                }
                acc = wide as u64;
            },
            None => {
                assert(!is_digit(body[k], radix as int));
                proof {
                    lemma_digit_count(body, k, radix as int);
                }
                return Err(NumberError::InvalidDigit);
            },
        }
        i += 1;
    }
    assert(body.take(i - start) =~= body);
    proof {
        lemma_digit_count(body, body.len() as int, radix as int);
    }
    Ok(acc)
}

/// The digits of `n` in `radix`, the most significant first and no leading
/// zero beyond the single digit of zero.
pub open spec fn digits(n: nat, radix: nat) -> Seq<char>
    decreases n,
{
    if radix < 2 || n < radix {
        seq![digit_char(n as int)]
    } else {
        proof {
            assert(n / radix < n) by (nonlinear_arith)
                requires
                    n >= radix,
                    radix >= 2,
            ;
        }
        digits(n / radix, radix).push(digit_char((n % radix) as int))
    }
}

/// `n` zeros.
pub open spec fn zeros(n: int) -> Seq<char> {
    Seq::new(
        if n > 0 {
            n as nat
        } else {
            0
        },
        |i: int| '0',
    )
}

/// `s` with zeros in front so that it is at least `width` long.
pub open spec fn zero_padded(s: Seq<char>, width: int) -> Seq<char> {
    zeros(width - s.len()) + s
}

/// What `0x` and at least `width` hexadecimal digits show of `n`.
pub open spec fn hex_text(n: nat, width: int) -> Seq<char> {
    seq!['0', 'x'] + zero_padded(digits(n, 16), width)
}

/// Digits spell the number they were made from.
pub proof fn lemma_digits(n: nat, radix: nat)
    requires
        2 <= radix <= 16,
    ensures
        digits(n, radix).len() >= 1,
        all_digits(digits(n, radix), radix as int),
        value_of(digits(n, radix), radix as int) == n,
    decreases n,
{
    if n < radix {
        let s = digits(n, radix);
        assert(s.drop_last() =~= Seq::<char>::empty());
        assert(value_of(s.drop_last(), radix as int) == 0);
        assert(0 * radix == 0);
    } else {
        assert(n / radix < n) by (nonlinear_arith)
            requires
                n >= radix,
                radix >= 2,
        ;
        lemma_digits(n / radix, radix);
        let s = digits(n, radix);
        let d = (n % radix) as int;
        assert(0 <= d < radix) by (nonlinear_arith)
            requires
                d == n % radix,
                radix >= 2,
        ;
        assert(s.drop_last() =~= digits(n / radix, radix));
        assert(n == (n / radix) * radix + n % radix) by (nonlinear_arith)
            requires
                radix >= 2,
        ;
        assert forall|i: int| 0 <= i < s.len() implies is_digit(#[trigger] s[i], radix as int) by {
            if i < s.len() - 1 {
                assert(s[i] == digits(n / radix, radix)[i]);
            }
        }
    }
}

/// Zeros in front change neither the value nor that all are digits.
pub proof fn lemma_zero_padded(s: Seq<char>, width: int, radix: int)
    requires
        2 <= radix <= 16,
        all_digits(s, radix),
    ensures
        all_digits(zero_padded(s, width), radix),
        value_of(zero_padded(s, width), radix) == value_of(s, radix),
    decreases s.len(),
{
    let z = zeros(width - s.len());
    assert forall|i: int| 0 <= i < (z + s).len() implies is_digit(#[trigger] (z + s)[i], radix) by {
        if i >= z.len() {
            assert((z + s)[i] == s[i - z.len()]);
        }
    }
    lemma_leading_zeros(z.len() as int, s, radix);
    assert(z =~= zeros(z.len() as int));
}

proof fn lemma_leading_zeros(k: int, s: Seq<char>, radix: int)
    requires
        k >= 0,
    ensures
        value_of(zeros(k) + s, radix) == value_of(s, radix),
    decreases k + s.len(),
{
    let w = zeros(k) + s;
    if s.len() > 0 {
        assert(w.drop_last() =~= zeros(k) + s.drop_last());
        lemma_leading_zeros(k, s.drop_last(), radix);
    } else if k > 0 {
        assert(w.drop_last() =~= zeros(k - 1) + s);
        lemma_leading_zeros(k - 1, s, radix);
        assert(0 * radix == 0);
    } else {
        assert(w =~= s);
    }
}

/// A number below `radix^width` has at most `width` digits.
pub proof fn lemma_digits_len(n: nat, radix: nat, width: nat)
    requires
        2 <= radix,
        width >= 1,
        n < vstd::arithmetic::power::pow(radix as int, width),
    ensures
        1 <= digits(n, radix).len() <= width,
    decreases width,
{
    reveal(vstd::arithmetic::power::pow);
    if n >= radix {
        let p = vstd::arithmetic::power::pow(radix as int, (width - 1) as nat);
        assert(n < radix * p);
        assert(n / radix < p) by (nonlinear_arith)
            requires
                n < radix * p,
                radix >= 2,
        ;
        if width == 1 {
            assert(p == 1);
            assert(radix * p == radix);
        }
        lemma_digits_len(n / radix, radix, (width - 1) as nat);
    }
}

/// The digits of `n`, padded with zeros to `width`.
pub fn show_padded(n: u64, radix: u64, width: usize) -> (out: String)
    requires
        2 <= radix <= 16,
    ensures
        out@ == zero_padded(digits(n as nat, radix as nat), width as int),
{
    let mut low_first: Vec<char> = Vec::new();
    let mut rest: u64 = n;
    let ghost full = digits(n as nat, radix as nat);
    while rest >= radix
        invariant
            2 <= radix <= 16,
            full == digits(rest as nat, radix as nat) + low_first@.reverse(),
        decreases rest,
    {
        let d: u64 = rest % radix;
        let ghost before = low_first@;
        let c: char = show_digit(d);
        low_first.push(c);
        proof {
            assert(low_first@.reverse() =~= seq![c] + before.reverse());
            assert(digits(rest as nat, radix as nat) == digits(
                (rest / radix) as nat,
                radix as nat,
            ).push(c));
            assert(digits(rest as nat, radix as nat) + before.reverse() =~= digits(
                (rest / radix) as nat,
                radix as nat,
            ) + low_first@.reverse());
            assert(rest / radix < rest) by (nonlinear_arith)
                requires
                    rest >= radix,
                    radix >= 2,
            ;
        }
        rest = rest / radix;
    }
    let ghost before = low_first@;
    let c: char = show_digit(rest);
    low_first.push(c);
    proof {
        assert(low_first@.reverse() =~= seq![c] + before.reverse());
        assert(full =~= low_first@.reverse());
    }
    let mut out: String = String::new();
    let mut pad: usize = low_first.len();
    while pad < width
        invariant
            full.len() == low_first@.len(),
            full.len() <= pad,
            pad <= width || pad == full.len(),
            out@ == zeros(pad - full.len()),
        decreases width - pad,
    {
        out.push('0');
        assert(zeros(pad + 1 - full.len()) =~= zeros(pad - full.len()).push('0'));
        pad += 1;
    }
    assert(out@ =~= zeros(width - full.len()));
    let mut i: usize = low_first.len();
    while i > 0
        invariant
            i <= low_first.len(),
            full == low_first@.reverse(),
            full.len() == low_first@.len(),
            out@ == zeros(width - full.len()) + full.take(full.len() - i),
        decreases i,
    {
        i -= 1;
        out.push(low_first[i]);
        assert(full.take(full.len() - i) =~= full.take(full.len() - i - 1).push(
            low_first[i as int],
        ));
        assert(out@ =~= zeros(width - full.len()) + full.take(full.len() - i));
    }
    assert(full.take(full.len() as int) =~= full);
    out
}

/// Shows `n` as `0x` and at least `width` hex digits.
pub fn show_hex(n: u64, width: usize) -> (out: String)
    ensures
        out@ == hex_text(n as nat, width as int),
{
    let mut out: String = "0x".to_owned();
    let digits: String = show_padded(n, 16, width);
    out.append(digits.as_str());
    proof {
        reveal_strlit("0x");
        assert("0x"@ =~= seq!['0', 'x']);
    }
    out
}

/// Shows one digit.
fn show_digit(d: u64) -> (c: char)
    requires
        d < 16,
    ensures
        c == digit_char(d as int),
{
    if d < 10 {
        ('0' as u8 + d as u8) as char
    } else {
        ('a' as u8 + (d as u8 - 10)) as char
    }
}

// ---------------------------------------------------------------------------
// Trimming and splitting
// ---------------------------------------------------------------------------

/// The characters with the Unicode property `White_Space`.
pub open spec fn is_white_space(c: char) -> bool {
    let n = c as int;
    ||| 0x9 <= n <= 0xd
    ||| n == 0x20
    ||| n == 0x85
    ||| n == 0xa0
    ||| n == 0x1680
    ||| 0x2000 <= n <= 0x200a
    ||| n == 0x2028
    ||| n == 0x2029
    ||| n == 0x202f
    ||| n == 0x205f
    ||| n == 0x3000
}

/// The single and the double quotation mark.
pub open spec fn is_quote(c: char) -> bool {
    c == '\'' || c == '"'
}

/// `s` without the characters at its front that satisfy `drop`.
pub open spec fn trim_start(s: Seq<char>, drop: spec_fn(char) -> bool) -> Seq<char>
    decreases s.len(),
{
    if s.len() > 0 && drop(s.first()) {
        trim_start(s.skip(1), drop)
    } else {
        s
    }
}

/// `s` without the characters at its end that satisfy `drop`.
pub open spec fn trim_end(s: Seq<char>, drop: spec_fn(char) -> bool) -> Seq<char>
    decreases s.len(),
{
    if s.len() > 0 && drop(s.last()) {
        trim_end(s.drop_last(), drop)
    } else {
        s
    }
}

/// `s` without the characters at either end that satisfy `drop`.
pub open spec fn trim_both(s: Seq<char>, drop: spec_fn(char) -> bool) -> Seq<char> {
    trim_end(trim_start(s, drop), drop)
}

/// `s` without white space at either end.
pub open spec fn trim_space(s: Seq<char>) -> Seq<char> {
    trim_both(s, |c: char| is_white_space(c))
}

/// `s` without quotation marks at either end.
pub open spec fn trim_quotes(s: Seq<char>) -> Seq<char> {
    trim_both(s, |c: char| is_quote(c))
}

fn white_space(c: char) -> (yes: bool)
    ensures
        yes == is_white_space(c),
{
    let n: u32 = c as u32;
    (0x9 <= n && n <= 0xd) || n == 0x20 || n == 0x85 || n == 0xa0 || n == 0x1680 || (0x2000 <= n
        && n <= 0x200a) || n == 0x2028 || n == 0x2029 || n == 0x202f || n == 0x205f || n == 0x3000
}

/// Trims white space off both ends.
pub fn without_space(s: &Vec<char>) -> (out: Vec<char>)
    ensures
        out@ == trim_space(s@),
{
    let ghost drop = |c: char| is_white_space(c);
    let mut from: usize = 0;
    assert(s@.skip(0) =~= s@);
    while from < s.len() && white_space(s[from])
        invariant
            from <= s.len(),
            drop == (|c: char| is_white_space(c)),
            trim_start(s@.skip(from as int), drop) == trim_start(s@, drop),
        decreases s.len() - from,
    {
        assert(s@.skip(from as int).skip(1) =~= s@.skip(from + 1));
        from += 1;
    }
    let mut to: usize = s.len();
    assert(s@.subrange(from as int, to as int) =~= s@.skip(from as int));
    while to > from && white_space(s[to - 1])
        invariant
            from <= to <= s.len(),
            drop == (|c: char| is_white_space(c)),
            trim_end(s@.subrange(from as int, to as int), drop) == trim_both(s@, drop),
        decreases to,
    {
        assert(s@.subrange(from as int, to as int).drop_last() =~= s@.subrange(
            from as int,
            to - 1,
        ));
        to -= 1;
    }
    sub_chars(s, from, to)
}

/// Trims quotation marks off both ends.
pub fn without_quotes(s: &Vec<char>) -> (out: Vec<char>)
    ensures
        out@ == trim_quotes(s@),
{
    let ghost drop = |c: char| is_quote(c);
    let mut from: usize = 0;
    assert(s@.skip(0) =~= s@);
    while from < s.len() && (s[from] == '\'' || s[from] == '"')
        invariant
            from <= s.len(),
            drop == (|c: char| is_quote(c)),
            trim_start(s@.skip(from as int), drop) == trim_start(s@, drop),
        decreases s.len() - from,
    {
        assert(s@.skip(from as int).skip(1) =~= s@.skip(from + 1));
        from += 1;
    }
    let mut to: usize = s.len();
    assert(s@.subrange(from as int, to as int) =~= s@.skip(from as int));
    while to > from && (s[to - 1] == '\'' || s[to - 1] == '"')
        invariant
            from <= to <= s.len(),
            drop == (|c: char| is_quote(c)),
            trim_end(s@.subrange(from as int, to as int), drop) == trim_both(s@, drop),
        decreases to,
    {
        assert(s@.subrange(from as int, to as int).drop_last() =~= s@.subrange(
            from as int,
            to - 1,
        ));
        to -= 1;
    }
    sub_chars(s, from, to)
}

/// The position of the first `c` in `s`, or the length of `s`.
pub open spec fn find_first(s: Seq<char>, c: char) -> int
    decreases s.len(),
{
    if s.len() == 0 || s.first() == c {
        0
    } else {
        1 + find_first(s.skip(1), c)
    }
}

/// Decides [`find_first`].
pub fn position_of(s: &Vec<char>, c: char) -> (at: usize)
    ensures
        at == find_first(s@, c),
        at <= s.len(),
        at < s.len() <==> s@.contains(c),
        at < s.len() ==> s[at as int] == c,
{
    let mut at: usize = 0;
    assert(s@.skip(0) =~= s@);
    while at < s.len() && s[at] != c
        invariant
            at <= s.len(),
            find_first(s@, c) == at + find_first(s@.skip(at as int), c),
            forall|j: int| 0 <= j < at ==> s[j] != c,
        decreases s.len() - at,
    {
        assert(s@.skip(at as int).skip(1) =~= s@.skip(at + 1));
        at += 1;
    }
    at
}

/// The text of a list of characters.
pub fn text_of(s: &Vec<char>) -> (out: String)
    ensures
        out@ == s@,
{
    let mut out: String = String::new();
    let mut i: usize = 0;
    while i < s.len()
        invariant
            i <= s.len(),
            out@ == s@.take(i as int),
        decreases s.len() - i,
    {
        out.push(s[i]);
        assert(s@.take(i + 1) =~= s@.take(i as int).push(s[i as int]));
        i += 1;
    }
    assert(s@.take(i as int) =~= s@);
    out
}

// ---------------------------------------------------------------------------
// Ordering
// ---------------------------------------------------------------------------

/// Whether `a` comes before `b`: the first difference decides, by code point,
/// and a proper prefix comes first.
pub open spec fn text_before(a: Seq<char>, b: Seq<char>) -> bool
    decreases a.len(),
{
    if b.len() == 0 {
        false
    } else if a.len() == 0 {
        true
    } else if a.first() != b.first() {
        (a.first() as int) < (b.first() as int)
    } else {
        text_before(a.skip(1), b.skip(1))
    }
}

/// Decides [`text_before`].
pub fn comes_before(a: &Vec<char>, b: &Vec<char>) -> (yes: bool)
    ensures
        yes == text_before(a@, b@),
{
    let mut i: usize = 0;
    assert(a@.skip(0) =~= a@);
    assert(b@.skip(0) =~= b@);
    while i < a.len() && i < b.len() && a[i] == b[i]
        invariant
            i <= a.len(),
            i <= b.len(),
            text_before(a@, b@) == text_before(a@.skip(i as int), b@.skip(i as int)),
        decreases a.len() - i,
    {
        assert(a@.skip(i as int).skip(1) =~= a@.skip(i + 1));
        assert(b@.skip(i as int).skip(1) =~= b@.skip(i + 1));
        i += 1;
    }
    if i == b.len() {
        false
    } else if i == a.len() {
        true
    } else {
        let x: char = a[i];
        let y: char = b[i];
        x < y
    }
}

/// No text comes before itself.
pub proof fn lemma_text_irreflexive(a: Seq<char>)
    ensures
        !text_before(a, a),
    decreases a.len(),
{
    if a.len() > 0 {
        lemma_text_irreflexive(a.skip(1));
    }
}

/// Two texts of which neither comes before the other are equal.
pub proof fn lemma_text_total(a: Seq<char>, b: Seq<char>)
    ensures
        text_before(a, b) || text_before(b, a) || a == b,
    decreases a.len(),
{
    if a.len() > 0 && b.len() > 0 && a.first() == b.first() {
        lemma_text_total(a.skip(1), b.skip(1));
        if a.skip(1) == b.skip(1) {
            assert(a =~= seq![a.first()] + a.skip(1));
            assert(b =~= seq![b.first()] + b.skip(1));
        }
    } else if a.len() == 0 && b.len() == 0 {
        assert(a =~= b);
    }
}

/// The order of texts is transitive.
pub proof fn lemma_text_transitive(a: Seq<char>, b: Seq<char>, c: Seq<char>)
    requires
        text_before(a, b),
        text_before(b, c),
    ensures
        text_before(a, c),
    decreases a.len(),
{
    if a.len() > 0 && a.first() == b.first() && b.first() == c.first() {
        lemma_text_transitive(a.skip(1), b.skip(1), c.skip(1));
    }
}

/// Two texts agree up to place `k`, where `a` ends, or has the smaller
/// character.
pub open spec fn smaller_from(a: Seq<char>, b: Seq<char>, k: int) -> bool {
    &&& 0 <= k <= a.len()
    &&& k < b.len()
    &&& forall|i: int| 0 <= i < k ==> #[trigger] a[i] == b[i]
    &&& k < a.len() ==> (a[k] as int) < (b[k] as int)
}

/// The order of texts is the dictionary order: one comes before another
/// exactly if it ends, or has the smaller character, at the first place where
/// they differ.
pub proof fn law_texts_are_in_dictionary_order(a: Seq<char>, b: Seq<char>)
    ensures
        text_before(a, b) <==> exists|k: int| smaller_from(a, b, k),
    decreases a.len(),
{
    if b.len() == 0 {
    } else if a.len() == 0 {
        assert(smaller_from(a, b, 0));
    } else if a.first() != b.first() {
        if text_before(a, b) {
            assert(smaller_from(a, b, 0));
        }
        if exists|k: int| smaller_from(a, b, k) {
            let k = choose|k: int| smaller_from(a, b, k);
            if k > 0 {
                assert(a[0] == b[0]);
            }
        }
    } else {
        let x = a.skip(1);
        let y = b.skip(1);
        law_texts_are_in_dictionary_order(x, y);
        if text_before(a, b) {
            let k = choose|k: int| smaller_from(x, y, k);
            assert forall|i: int| 0 <= i < k + 1 implies #[trigger] a[i] == b[i] by {
                if i > 0 {
                    assert(x[i - 1] == y[i - 1]);
                }
            }
            assert(smaller_from(a, b, k + 1));
        }
        if exists|k: int| smaller_from(a, b, k) {
            let k = choose|k: int| smaller_from(a, b, k);
            assert(k > 0);
            assert forall|i: int| 0 <= i < k - 1 implies #[trigger] x[i] == y[i] by {
                assert(a[i + 1] == b[i + 1]);
            }
            assert(smaller_from(x, y, k - 1));
        }
    }
}

// ---------------------------------------------------------------------------
// Laws on numbers and trimming
// ---------------------------------------------------------------------------

/// A digit is worth its place among the sixteen digits, in small or in capital
/// letters, and nothing else is a digit.
pub proof fn law_digit_is_worth_its_place(c: char, d: int)
    ensures
        digit_value(c) == Some(d) <==> 0 <= d < 16 && (c == "0123456789abcdef"@[d] || c
            == "0123456789ABCDEF"@[d]),
{
    reveal_strlit("0123456789abcdef");
    reveal_strlit("0123456789ABCDEF");
}

/// Digits in front weigh more, by one power of the radix for every digit that
/// follows them.
pub proof fn law_leading_digits_weigh_more(a: Seq<char>, b: Seq<char>, radix: int)
    ensures
        value_of(a + b, radix) == value_of(a, radix) * vstd::arithmetic::power::pow(radix, b.len())
            + value_of(b, radix),
    decreases b.len(),
{
    vstd::arithmetic::power::lemma_pow0(radix);
    if b.len() == 0 {
        assert(a + b =~= a);
    } else {
        let rest = b.drop_last();
        law_leading_digits_weigh_more(a, rest, radix);
        assert((a + b).drop_last() =~= a + rest);
        let x = value_of(a, radix);
        let y = value_of(rest, radix);
        let p = vstd::arithmetic::power::pow(radix, rest.len());
        let q = vstd::arithmetic::power::pow(radix, b.len());
        let d = match digit_value(b.last()) {
            Some(d) => d,
            None => 0,
        };
        assert(q == radix * p) by {
            reveal(vstd::arithmetic::power::pow);
        }
        assert((x * p + y) * radix + d == x * (radix * p) + (y * radix + d)) by (nonlinear_arith);
    }
}

/// A single digit is worth its value.
pub proof fn law_single_digit(c: char, d: int, radix: int)
    requires
        digit_value(c) == Some(d),
    ensures
        value_of(seq![c], radix) == d,
        is_digit(c, radix) <==> d < radix,
{
    assert(seq![c].drop_last() =~= Seq::<char>::empty());
    assert(value_of(seq![c].drop_last(), radix) == 0);
}

/// The text is these digits, with or without a plus sign before them, and they
/// are worth `n`.
pub open spec fn is_written_as(s: Seq<char>, d: Seq<char>, radix: int, n: int) -> bool {
    &&& s == d || s == seq!['+'] + d
    &&& d.len() > 0
    &&& all_digits(d, radix)
    &&& value_of(d, radix) == n
}

proof fn lemma_digits_are_read(s: Seq<char>, d: Seq<char>, radix: int, max: int, n: int)
    requires
        2 <= radix <= 16,
        is_written_as(s, d, radix, n),
        n <= max,
    ensures
        parsed(s, radix, max) == Ok::<int, NumberError>(n),
{
    assert(is_digit(d[0], radix));
    assert((seq!['+'] + d).skip(1) =~= d);
    assert(without_plus(s) == d);
    assert(d.take(d.len() as int) =~= d);
    lemma_digit_count(d, d.len() as int, radix);
}

proof fn lemma_read_text_is_digits(s: Seq<char>, radix: int, max: int, n: int)
    requires
        2 <= radix <= 16,
        parsed(s, radix, max) == Ok::<int, NumberError>(n),
    ensures
        is_written_as(s, without_plus(s), radix, n),
        n <= max,
{
    let body = without_plus(s);
    assert(body.take(0) =~= Seq::<char>::empty());
    lemma_digit_count(body, 0, radix);
    assert(body.take(body.len() as int) =~= body);
    if s[0] == '+' {
        assert(s =~= seq!['+'] + body);
    }
}

/// A text is read as a number exactly if it is made of digits, at least one,
/// with or without a plus sign before them, that are worth no more than the
/// largest number.
pub proof fn law_only_digits_are_read(s: Seq<char>, radix: int, max: int, n: int)
    requires
        2 <= radix <= 16,
    ensures
        parsed(s, radix, max) == Ok::<int, NumberError>(n) <==> n <= max && exists|d: Seq<char>|
            is_written_as(s, d, radix, n),
{
    if parsed(s, radix, max) == Ok::<int, NumberError>(n) {
        lemma_read_text_is_digits(s, radix, max, n);
    }
    if n <= max && exists|d: Seq<char>| is_written_as(s, d, radix, n) {
        let d = choose|d: Seq<char>| is_written_as(s, d, radix, n);
        lemma_digits_are_read(s, d, radix, max, n);
    }
}

/// What digits spell is never negative.
pub proof fn lemma_value_is_natural(s: Seq<char>, radix: int)
    requires
        0 <= radix,
    ensures
        value_of(s, radix) >= 0,
    decreases s.len(),
{
    if s.len() > 0 {
        let v = value_of(s.drop_last(), radix);
        lemma_value_is_natural(s.drop_last(), radix);
        assert(v * radix >= 0) by (nonlinear_arith)
            requires
                v >= 0,
                radix >= 0,
        ;
    }
}

/// What stands behind one leading plus sign, or the whole text without one.
pub open spec fn after_sign(s: Seq<char>) -> Seq<char> {
    if s.len() > 0 && s[0] == '+' {
        s.skip(1)
    } else {
        s
    }
}

/// The first `k` characters are digits that are worth more than `max`.
pub open spec fn is_too_large_at(s: Seq<char>, k: int, radix: int, max: int) -> bool {
    0 <= k <= s.len() && all_digits(s.take(k), radix) && value_of(s.take(k), radix) > max
}

/// What is wrong with a text that is no number: there is nothing, or its first
/// digits are already worth too much, or else something in it is no digit.
pub proof fn law_number_errors(s: Seq<char>, radix: int, max: int)
    requires
        2 <= radix <= 16,
        0 <= max,
    ensures
        ({
            let body = after_sign(s);
            let too_large = exists|k: int| is_too_large_at(body, k, radix, max);
            &&& parsed(s, radix, max) == Err::<int, NumberError>(NumberError::Empty) <==> s.len()
                == 0
            &&& parsed(s, radix, max) == Err::<int, NumberError>(NumberError::TooLarge)
                <==> too_large
            &&& parsed(s, radix, max) == Err::<int, NumberError>(NumberError::InvalidDigit)
                <==> s.len() > 0 && !too_large && (body.len() == 0 || !all_digits(body, radix))
        }),
{
    let body = after_sign(s);
    assert(body =~= without_plus(s));
    assert(body.take(0) =~= Seq::<char>::empty());
    lemma_digit_count(body, 0, radix);
    let n = digit_count(body, radix);
    let leading = body.take(n);
    assert(value_of(Seq::<char>::empty(), radix) == 0);
    assert forall|k: int| is_too_large_at(body, k, radix, max) implies value_of(leading, radix)
        > max by {
        lemma_digit_count(body, k, radix);
        assert(leading.take(k) =~= body.take(k));
        lemma_value_grows(leading, k, radix);
    }
    if value_of(leading, radix) > max {
        assert(is_too_large_at(body, n, radix, max));
    }
    assert(body.take(body.len() as int) =~= body);
    if all_digits(body, radix) {
        lemma_digit_count(body, body.len() as int, radix);
    }
    if n == body.len() {
        assert(leading =~= body);
    }
}

/// Trimming takes off what is to be dropped at either end and nothing else:
/// the text is what was taken off in front, what is left, and what was taken
/// off behind, and what is left begins and ends with something to keep.
pub proof fn law_trimming_takes_off_both_ends(s: Seq<char>, drop: spec_fn(char) -> bool) -> (ends: (
    Seq<char>,
    Seq<char>,
))
    ensures
        s == ends.0 + trim_both(s, drop) + ends.1,
        forall|i: int| 0 <= i < ends.0.len() ==> drop(#[trigger] ends.0[i]),
        forall|i: int| 0 <= i < ends.1.len() ==> drop(#[trigger] ends.1[i]),
        trim_both(s, drop).len() > 0 ==> !drop(trim_both(s, drop).first()) && !drop(
            trim_both(s, drop).last(),
        ),
{
    let front = lemma_trim_start(s, drop);
    let mid = trim_start(s, drop);
    let back = lemma_trim_end(mid, drop);
    let t = trim_both(s, drop);
    assert(s =~= front + t + back);
    if t.len() > 0 {
        assert(t.first() == mid.first());
    }
    (front, back)
}

proof fn lemma_trim_start(s: Seq<char>, drop: spec_fn(char) -> bool) -> (front: Seq<char>)
    ensures
        s == front + trim_start(s, drop),
        forall|i: int| 0 <= i < front.len() ==> drop(#[trigger] front[i]),
        trim_start(s, drop).len() > 0 ==> !drop(trim_start(s, drop).first()),
    decreases s.len(),
{
    if s.len() > 0 && drop(s.first()) {
        let rest = lemma_trim_start(s.skip(1), drop);
        let front = seq![s.first()] + rest;
        assert(s =~= seq![s.first()] + s.skip(1));
        assert(s.skip(1) == rest + trim_start(s, drop));
        assert(s =~= front + trim_start(s, drop));
        front
    } else {
        assert(s =~= Seq::<char>::empty() + s);
        Seq::empty()
    }
}

proof fn lemma_trim_end(s: Seq<char>, drop: spec_fn(char) -> bool) -> (back: Seq<char>)
    ensures
        s == trim_end(s, drop) + back,
        forall|i: int| 0 <= i < back.len() ==> drop(#[trigger] back[i]),
        trim_end(s, drop).len() > 0 ==> !drop(trim_end(s, drop).last()),
    decreases s.len(),
{
    if s.len() > 0 && drop(s.last()) {
        let rest = lemma_trim_end(s.drop_last(), drop);
        let back = rest.push(s.last());
        assert(s =~= s.drop_last().push(s.last()));
        assert(s.drop_last() == trim_end(s, drop) + rest);
        assert(s =~= trim_end(s, drop) + back);
        back
    } else {
        assert(s =~= s + Seq::<char>::empty());
        Seq::empty()
    }
}

/// Trimming is the only thing that what is dropped at the ends is good for.
pub proof fn law_trimmed_text_is_alike(
    front: Seq<char>,
    s: Seq<char>,
    back: Seq<char>,
    drop: spec_fn(char) -> bool,
)
    requires
        forall|i: int| 0 <= i < front.len() ==> drop(#[trigger] front[i]),
        forall|i: int| 0 <= i < back.len() ==> drop(#[trigger] back[i]),
        s.len() > 0,
        !drop(s.first()),
        !drop(s.last()),
    ensures
        trim_both(front + s + back, drop) == s,
    decreases front.len() + back.len(),
{
    let whole = front + s + back;
    if front.len() > 0 {
        assert(whole.first() == front[0]);
        assert(whole.skip(1) =~= front.skip(1) + s + back);
        assert forall|i: int| 0 <= i < front.skip(1).len() implies drop(
            #[trigger] front.skip(1)[i],
        ) by {
            assert(front[i + 1] == front.skip(1)[i]);
        }
        law_trimmed_text_is_alike(front.skip(1), s, back, drop);
    } else {
        assert(whole =~= s + back);
        assert(whole.first() == s.first());
        if back.len() > 0 {
            let shorter = back.drop_last();
            assert(whole.last() == back.last());
            assert(drop(back[back.len() - 1]));
            assert(whole.drop_last() =~= front + s + shorter);
            assert forall|i: int| 0 <= i < shorter.len() implies drop(#[trigger] shorter[i]) by {
                assert(back[i] == shorter[i]);
            }
            law_trimmed_text_is_alike(front, s, shorter, drop);
            assert((front + s + shorter).first() == s.first());
        } else {
            assert(whole =~= s);
        }
    }
}

/// White space is trimmed by trimming space, and the two quotation marks by
/// trimming quotes.
pub proof fn law_space_and_quotes_are_trimmed(s: Seq<char>)
    ensures
        trim_space(s) == trim_both(s, |c: char| is_white_space(c)),
        trim_quotes(s) == trim_both(s, |c: char| c == '\'' || c == '"'),
{
    let quote = |c: char| is_quote(c);
    let marks = |c: char| c == '\'' || c == '"';
    assert(quote =~= marks);
}

/// A number is shown without a leading zero of its own and in small letters.
pub proof fn law_digits_are_canonical(n: nat, radix: nat)
    requires
        2 <= radix <= 16,
    ensures
        digits(n, radix).len() > 0,
        digits(n, radix).len() > 1 ==> digits(n, radix)[0] != '0',
        forall|i: int|
            0 <= i < digits(n, radix).len() ==> "0123456789abcdef"@.contains(
                #[trigger] digits(n, radix)[i],
            ),
        value_of(digits(n, radix), radix as int) == n,
    decreases n,
{
    reveal_strlit("0123456789abcdef");
    let all = "0123456789abcdef"@;
    lemma_digits(n, radix);
    assert forall|d: int| 0 <= d < 16 implies all.contains(#[trigger] digit_char(d)) by {
        assert(all[d] == digit_char(d));
    }
    let s = digits(n, radix);
    if n >= radix {
        assert(n / radix < n && 1 <= n / radix) by (nonlinear_arith)
            requires
                n >= radix,
                radix >= 2,
        ;
        assert(0 <= n % radix < radix) by (nonlinear_arith)
            requires
                radix >= 2,
        ;
        let head = digits(n / radix, radix);
        law_digits_are_canonical(n / radix, radix);
        assert(s[0] == head[0]);
        assert forall|i: int| 0 <= i < s.len() implies all.contains(#[trigger] s[i]) by {
            if i < head.len() {
                assert(s[i] == head[i]);
            }
        }
        if head.len() == 1 && head[0] == '0' {
            assert(head =~= seq!['0']);
            law_single_digit('0', 0, radix as int);
        }
    }
}

/// A text that is padded is as long as the width or longer, ends with the text
/// and has nothing but zeros before it; a number in hexadecimal is the two
/// characters `0x` and then its padded digits.
pub proof fn law_padding_adds_zeros_in_front(s: Seq<char>, width: int, n: nat)
    ensures
        ({
            let padded = zero_padded(s, width);
            let extra = padded.len() - s.len();
            &&& padded.len() == if s.len() < width {
                width
            } else {
                s.len() as int
            }
            &&& padded.skip(extra) == s
            &&& forall|i: int| 0 <= i < extra ==> #[trigger] padded[i] == '0'
        }),
        hex_text(n, width).len() >= 2,
        hex_text(n, width)[0] == '0',
        hex_text(n, width)[1] == 'x',
        hex_text(n, width).skip(2) == zero_padded(digits(n, 16), width),
{
    let padded = zero_padded(s, width);
    assert(padded.skip(padded.len() - s.len()) =~= s);
    assert(hex_text(n, width).skip(2) =~= zero_padded(digits(n, 16), width));
}

/// The first place of a character is where it stands with none of its kind
/// before it, or the end where it does not stand at all.
pub proof fn law_first_place(s: Seq<char>, c: char)
    ensures
        0 <= find_first(s, c) <= s.len(),
        forall|i: int| 0 <= i < find_first(s, c) ==> #[trigger] s[i] != c,
        find_first(s, c) < s.len() ==> s[find_first(s, c)] == c,
    decreases s.len(),
{
    if s.len() > 0 && s[0] != c {
        law_first_place(s.skip(1), c);
        let at = find_first(s.skip(1), c);
        assert forall|i: int| 0 <= i < at + 1 implies #[trigger] s[i] != c by {
            if i > 0 {
                assert(s.skip(1)[i - 1] == s[i]);
            }
        }
    }
}

/// Texts taken out of strings are those of the strings, one for one.
pub proof fn law_texts_of_strings(list: Seq<String>, one: Option<String>)
    ensures
        texts(list).len() == list.len(),
        forall|i: int| 0 <= i < list.len() ==> #[trigger] texts(list)[i] == list[i]@,
        opt_text(one) is Some <==> one is Some,
        one is Some ==> opt_text(one)->0 == one->0@,
{
}

/// White space is the space bar's and the tabulator's, the line and page ends,
/// and the spaces of a typesetter that Unicode has besides: twenty-five
/// characters in all.
pub proof fn law_white_space_by_code_point(c: char)
    ensures
        is_white_space(c) <==> {
            ||| c == ' ' || c == '\t' || c == '\n' || c == '\r'
            ||| c as int == 11 || c as int == 12 || c as int == 133 || c as int == 160
            ||| c as int == 5760 || c as int == 8232 || c as int == 8233
            ||| exists|k: int| 0 <= k <= 10 && c as int == #[trigger] (8192 + k)
            ||| c as int == 8239 || c as int == 8287 || c as int == 12288
        },
{
    if 8192 <= c as int <= 8202 {
        let k = c as int - 8192;
        assert(c as int == 8192 + k);
    }
}

} // verus!
