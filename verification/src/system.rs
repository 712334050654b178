//! How the engine describes the machine it runs on in its log: graphics
//! cards and their drivers, the system, and the monitors.

use vstd::prelude::*;
use vstd::string::{StrSliceExecFns, StringExecFns};

use crate::protocol::push_char;

verus! {

/// The PCI vendor id of NVIDIA.
pub const NVIDIA: u32 = 0x10DE;

/// A graphics card as the system reports it.
#[derive(Debug, Clone)]
pub struct Gpu {
    pub name: String,
    pub vendor: u32,
    pub driver: Option<String>,
    pub memory_mb: u64,
}

/// The decimal digit `d`, for `d < 10`.
pub open spec fn digit(d: nat) -> char {
    (48 + d) as char
}

/// The decimal digits of `n`, without leading zeros ("0" for zero).
pub open spec fn decimal(n: nat) -> Seq<char>
    decreases n,
{
    if n < 10 {
        seq![digit(n)]
    } else {
        decimal(n / 10).push(digit(n % 10))
    }
}

fn digit_char(d: u64) -> (c: char)
    requires
        d < 10,
    ensures
        c == digit(d as nat),
{
    let b: u8 = 48 + d as u8;
    b as char
}

fn push_decimal(s: &mut String, n: u64)
    ensures
        final(s)@ == old(s)@ + decimal(n as nat),
    decreases n,
{
    if n >= 10 {
        push_decimal(s, n / 10);
    }
    push_char(s, digit_char(n % 10));
    proof {
        if n >= 10 {
            assert(old(s)@ + decimal(n as nat) =~= old(s)@ + decimal((n / 10) as nat) + seq![
                digit((n % 10) as nat),
            ]);
        }
    }
}

/// The four 16-bit parts of a driver's version number, most significant
/// first.
pub open spec fn driver_parts(umd: u64) -> (nat, nat, nat, nat) {
    (
        (umd / 0x1_0000_0000_0000) as nat,
        ((umd / 0x1_0000_0000) % 0x10000) as nat,
        ((umd / 0x10000) % 0x10000) as nat,
        (umd % 0x10000) as nat,
    )
}

/// The four parts written out with dots between them.
pub open spec fn dotted(parts: (nat, nat, nat, nat)) -> Seq<char> {
    decimal(parts.0) + seq!['.'] + decimal(parts.1) + seq!['.'] + decimal(parts.2) + seq!['.']
        + decimal(parts.3)
}

/// `n`, below a hundred, written with at least two digits.
pub open spec fn two_digits(n: nat) -> Seq<char> {
    if n < 10 {
        seq!['0'] + decimal(n)
    } else {
        decimal(n)
    }
}

/// How a driver's version is shown: its four parts with dots between them,
/// and for an NVIDIA card, in brackets after it, the release number NVIDIA
/// itself uses, read off the last digit of the third part and the fourth
/// part (as in `32.0.15.9597 (595.97)`).
pub open spec fn driver_text(umd: u64, vendor: u32) -> Seq<char> {
    let parts = driver_parts(umd);
    if vendor != NVIDIA {
        dotted(parts)
    } else {
        let release = (parts.2 % 10) * 10_000 + parts.3;
        dotted(parts) + seq![' ', '('] + decimal(release / 100) + seq!['.'] + two_digits(
            release % 100,
        ) + seq![')']
    }
}

/// An NVIDIA driver's version starts with the plain version every other
/// vendor's driver shows.
pub proof fn law_an_nvidia_version_starts_with_the_plain_one(umd: u64, vendor: u32)
    requires
        vendor != NVIDIA,
    ensures
        driver_text(umd, NVIDIA).take(driver_text(umd, vendor).len() as int) == driver_text(
            umd,
            vendor,
        ),
{
    let plain = dotted(driver_parts(umd));
    let release = (driver_parts(umd).2 % 10) * 10_000 + driver_parts(umd).3;
    let tail = seq![' ', '('] + decimal(release / 100) + seq!['.'] + two_digits(release % 100) + seq![')'];
    assert(driver_text(umd, NVIDIA) =~= plain + tail);
    assert((plain + tail).take(plain.len() as int) =~= plain);
}

/// The version of a graphics driver, from the number the system reports
/// for it and the card's vendor.
pub fn driver_version(umd: u64, vendor: u32) -> (text: String)
    ensures
        text@ == driver_text(umd, vendor),
{
    let first = umd >> 48;
    let second = (umd >> 32) & 0xFFFF;
    let third = (umd >> 16) & 0xFFFF;
    let fourth = umd & 0xFFFF;
    assert(first == umd / 0x1_0000_0000_0000 && second == (umd / 0x1_0000_0000) % 0x10000 && third
        == (umd / 0x10000) % 0x10000 && fourth == umd % 0x10000) by (bit_vector)
        requires
            first == umd >> 48,
            second == (umd >> 32) & 0xFFFF,
            third == (umd >> 16) & 0xFFFF,
            fourth == umd & 0xFFFF,
    ;
    let mut text = String::new();
    push_decimal(&mut text, first);
    push_char(&mut text, '.');
    push_decimal(&mut text, second);
    push_char(&mut text, '.');
    push_decimal(&mut text, third);
    push_char(&mut text, '.');
    push_decimal(&mut text, fourth);
    let ghost plain = text@;
    assert(plain =~= dotted(driver_parts(umd)));
    if vendor != NVIDIA {
        return text;
    }
    let release = (third % 10) * 10_000 + fourth;
    push_char(&mut text, ' ');
    push_char(&mut text, '(');
    push_decimal(&mut text, release / 100);
    push_char(&mut text, '.');
    if release % 100 < 10 {
        push_char(&mut text, '0');
    }
    push_decimal(&mut text, release % 100);
    push_char(&mut text, ')');
    assert(text@ =~= driver_text(umd, vendor));
    text
}

/// The log line that describes a graphics card.
pub open spec fn gpu_line(gpu: Gpu) -> Seq<char> {
    "Graphics card: "@ + gpu.name@ + " ("@ + decimal(gpu.memory_mb as nat) + " MB), driver "@ + match gpu.driver {
        Some(driver) => driver@,
        None => "unknown"@,
    }
}

/// The log line that describes monitor `number`, counting from one.
pub open spec fn monitor_line(number: nat, monitor: Seq<char>) -> Seq<char> {
    "Monitor "@ + decimal(number) + ": "@ + monitor
}

/// The log line that names the system and the FFmpeg build.
pub open spec fn system_line(system: Seq<char>, ffmpeg: Seq<char>) -> Seq<char> {
    "System: "@ + system + ", FFmpeg "@ + ffmpeg
}

fn describe_gpu(gpu: &Gpu) -> (line: String)
    ensures
        line@ == gpu_line(*gpu),
{
    let mut line = String::from_str("Graphics card: ");
    line.append(gpu.name.as_str());
    line.append(" (");
    push_decimal(&mut line, gpu.memory_mb);
    line.append(" MB), driver ");
    match &gpu.driver {
        Some(driver) => line.append(driver.as_str()),
        None => line.append("unknown"),
    }
    assert(line@ =~= gpu_line(*gpu));
    line
}

/// The lines the engine writes to its log about the machine, in order:
/// the system and FFmpeg build, then each graphics card, then each monitor,
/// numbered from one.
pub fn log_system(system: &str, ffmpeg: &str, gpus: &[Gpu], monitors: &[String]) -> (lines: Vec<String>)
    ensures
        lines@.len() == 1 + gpus@.len() + monitors@.len(),
        lines@[0]@ == system_line(system@, ffmpeg@),
        forall|i: int| 0 <= i < gpus@.len() ==> (#[trigger] lines@[1 + i])@ == gpu_line(gpus@[i]),
        forall|i: int|
            0 <= i < monitors@.len() ==> (#[trigger] lines@[1 + gpus@.len() + i])@ == monitor_line(
                (i + 1) as nat,
                monitors@[i]@,
            ),
{
    let mut lines: Vec<String> = Vec::new();
    let mut first = String::from_str("System: ");
    first.append(system);
    first.append(", FFmpeg ");
    first.append(ffmpeg);
    assert(first@ =~= system_line(system@, ffmpeg@));
    lines.push(first);
    let mut i: usize = 0;
    while i < gpus.len()
        invariant
            0 <= i <= gpus@.len(),
            lines@.len() == 1 + i,
            lines@[0]@ == system_line(system@, ffmpeg@),
            forall|j: int| 0 <= j < i ==> (#[trigger] lines@[1 + j])@ == gpu_line(gpus@[j]),
        decreases gpus@.len() - i,
    {
        lines.push(describe_gpu(&gpus[i]));
        i = i + 1;
    }
    let count = monitors.len();
    let mut k: usize = 0;
    while k < count
        invariant
            0 <= k <= monitors@.len(),
            count == monitors@.len(),
            lines@.len() == 1 + gpus@.len() + k,
            lines@[0]@ == system_line(system@, ffmpeg@),
            forall|j: int| 0 <= j < gpus@.len() ==> (#[trigger] lines@[1 + j])@ == gpu_line(gpus@[j]),
            forall|j: int|
                0 <= j < k ==> (#[trigger] lines@[1 + gpus@.len() + j])@ == monitor_line(
                    (j + 1) as nat,
                    monitors@[j]@,
                ),
        decreases monitors@.len() - k,
    {
        let mut line = String::from_str("Monitor ");
        push_decimal(&mut line, (k + 1) as u64);
        line.append(": ");
        line.append(monitors[k].as_str());
        assert(line@ =~= monitor_line((k + 1) as nat, monitors@[k as int]@));
        lines.push(line);
        k = k + 1;
    }
    lines
}

/// The number the decimal digits `digits` write.
pub open spec fn digits_value(digits: Seq<char>) -> int
    decreases digits.len(),
{
    if digits.len() == 0 {
        0
    } else {
        digits_value(digits.drop_last()) * 10 + (digits.last() as int - 48)
    }
}

/// Whether every character of `text` is a decimal digit.
pub open spec fn all_digits(text: Seq<char>) -> bool {
    forall|i: int| 0 <= i < text.len() ==> '0' <= #[trigger] text[i] <= '9'
}

/// `text` without the `+` it may start with.
pub open spec fn unsigned_digits(text: Seq<char>) -> Seq<char> {
    if text.len() > 0 && text[0] == '+' {
        text.drop_first()
    } else {
        text
    }
}

/// What `str::parse::<u32>` makes of `text`: an optional `+`, then one or
/// more decimal digits writing a number that fits in a `u32`.
pub open spec fn parsed_u32(text: Seq<char>) -> Option<int> {
    let digits = unsigned_digits(text);
    if digits.len() > 0 && all_digits(digits) && digits_value(digits) <= u32::MAX {
        Some(digits_value(digits))
    } else {
        None
    }
}

proof fn lemma_digits_value_grows(digits: Seq<char>, n: int)
    requires
        0 <= n <= digits.len(),
        forall|i: int| 0 <= i < digits.len() ==> '0' <= #[trigger] digits[i] <= '9',
    ensures
        0 <= digits_value(digits.take(n)) <= digits_value(digits),
    decreases digits.len() - n,
{
    if n < digits.len() {
        lemma_digits_value_grows(digits, n + 1);
        assert(digits.take(n + 1).drop_last() =~= digits.take(n));
        assert(digits.take(n + 1).last() == digits[n]);
    } else {
        assert(digits.take(n) =~= digits);
    }
    lemma_digits_value_nonnegative(digits.take(n));
}

proof fn lemma_digits_value_nonnegative(digits: Seq<char>)
    requires
        forall|i: int| 0 <= i < digits.len() ==> '0' <= #[trigger] digits[i] <= '9',
    ensures
        digits_value(digits) >= 0,
    decreases digits.len(),
{
    if digits.len() > 0 {
        let rest = digits.drop_last();
        assert forall|i: int| 0 <= i < rest.len() implies '0' <= #[trigger] rest[i] <= '9' by {
            assert(rest[i] == digits[i]);
        }
        lemma_digits_value_nonnegative(rest);
        assert(digits.last() == digits[digits.len() - 1]);
    }
}

/// The number `text` writes, read as `str::parse::<u32>` reads it.
fn parse_u32(text: &str) -> (r: Option<u32>)
    ensures
        r matches Some(n) ==> parsed_u32(text@) == Some(n as int),
        r is None ==> parsed_u32(text@) is None,
{
    let n = text.unicode_len();
    let mut start: usize = 0;
    if n > 0 && text.get_char(0) == '+' {
        start = 1;
    }
    let ghost digits = if start == 1 {
        text@.drop_first()
    } else {
        text@
    };
    assert(digits =~= text@.skip(start as int));
    assert(digits == unsigned_digits(text@));
    if start >= n {
        return None;
    }
    let mut value: u64 = 0;
    let mut i: usize = start;
    while i < n
        invariant
            n == text@.len(),
            start <= i <= n,
            digits =~= text@.skip(start as int),
            digits == unsigned_digits(text@),
            forall|j: int| 0 <= j < i - start ==> '0' <= #[trigger] digits[j] <= '9',
            value == digits_value(digits.take(i - start)),
            value <= u32::MAX,
        decreases n - i,
    {
        let c = text.get_char(i);
        assert(c == digits[i - start]);
        if c < '0' || c > '9' {
            assert(!('0' <= digits[i - start] <= '9'));
            assert(!all_digits(digits));
            return None;
        }
        let d = (c as u32 - 48) as u64;
        let next = value * 10 + d;
        proof {
            assert(digits.take(i - start + 1).drop_last() =~= digits.take(i - start));
            assert(digits.take(i - start + 1).last() == c);
        }
        if next > 0xffff_ffff {
            proof {
                let k = i - start + 1;
                assert(digits_value(digits.take(k)) == next);
                if all_digits(digits) {
                    lemma_digits_value_grows(digits, k);
                }
            }
            return None;
        }
        value = next;
        i = i + 1;
    }
    assert(digits.take(n - start) =~= digits);
    Some(value as u32)
}

/// The name of a Windows release, by the build number it carries.
pub open spec fn windows_family(build: Seq<char>) -> Seq<char> {
    match parsed_u32(build) {
        Some(number) => if number >= 22_000 {
            "Windows 11"@
        } else {
            "Windows 10"@
        },
        None => "Windows"@,
    }
}

/// How the system is named in the log: its family, its build (`?` when
/// unknown) with the update revision after a dot, and the release's display
/// name in brackets, each when known.
pub open spec fn windows_text(build: Option<Seq<char>>, revision: Option<u32>, release: Option<Seq<char>>) -> Seq<char> {
    let build = match build {
        Some(b) => b,
        None => "?"@,
    };
    windows_family(build) + " build "@ + build + match revision {
        Some(r) => seq!['.'] + decimal(r as nat),
        None => Seq::empty(),
    } + match release {
        Some(name) => " ("@ + name + ")"@,
        None => Seq::empty(),
    }
}

/// The name of the system as the log gives it, from what the registry
/// says of the current build, its update revision and its release.
pub fn windows_version(build: Option<&str>, revision: Option<u32>, release: Option<&str>) -> (text: String)
    ensures
        text@ == windows_text(
            match build {
                Some(b) => Some(b@),
                None => None,
            },
            revision,
            match release {
                Some(r) => Some(r@),
                None => None,
            },
        ),
{
    let build_text: &str = match build {
        Some(b) => b,
        None => "?",
    };
    let mut text = match parse_u32(build_text) {
        Some(number) => if number >= 22_000 {
            String::from_str("Windows 11")
        } else {
            String::from_str("Windows 10")
        },
        None => String::from_str("Windows"),
    };
    text.append(" build ");
    text.append(build_text);
    let ghost before_revision = text@;
    match revision {
        Some(r) => {
            push_char(&mut text, '.');
            push_decimal(&mut text, r as u64);
        },
        None => {},
    }
    let ghost before_release = text@;
    match release {
        Some(name) => {
            text.append(" (");
            text.append(name);
            text.append(")");
        },
        None => {},
    }
    proof {
        let b = match build {
            Some(b) => b@,
            None => "?"@,
        };
        assert(before_revision =~= windows_family(b) + " build "@ + b);
    }
    assert(text@ =~= windows_text(
        match build {
            Some(b) => Some(b@),
            None => None,
        },
        revision,
        match release {
            Some(r) => Some(r@),
            None => None,
        },
    ));
    text
}

/// How a monitor is described in the log: its size in pixels, its scale
/// (its DPI against the 96 of an unscaled screen, in percent, rounded
/// down), and whether it is the primary one.
pub open spec fn monitor_text(width: int, height: int, dpi: u32, primary: bool) -> Seq<char> {
    signed_decimal(width) + seq!['x'] + signed_decimal(height) + " at "@ + decimal(
        (dpi * 100 / 96) as nat,
    ) + seq!['%'] + if primary {
        " (primary)"@
    } else {
        Seq::empty()
    }
}

/// `n` in decimal, with a minus sign when it is negative.
pub open spec fn signed_decimal(n: int) -> Seq<char> {
    if n < 0 {
        seq!['-'] + decimal((-n) as nat)
    } else {
        decimal(n as nat)
    }
}

fn push_signed(s: &mut String, n: i64)
    ensures
        final(s)@ == old(s)@ + signed_decimal(n as int),
{
    if n < 0 {
        push_char(s, '-');
        let magnitude: u64 = if n == i64::MIN {
            0x8000_0000_0000_0000
        } else {
            (-n) as u64
        };
        push_decimal(s, magnitude);
        assert(final(s)@ =~= old(s)@ + signed_decimal(n as int));
    } else {
        push_decimal(s, n as u64);
    }
}

/// How a monitor whose area runs from `left`, `top` to `right`, `bottom`
/// is described in the log.
pub fn monitor_description(left: i32, top: i32, right: i32, bottom: i32, dpi: u32, primary: bool) -> (text: String)
    ensures
        text@ == monitor_text(right - left, bottom - top, dpi, primary),
{
    let mut text = String::new();
    push_signed(&mut text, right as i64 - left as i64);
    push_char(&mut text, 'x');
    push_signed(&mut text, bottom as i64 - top as i64);
    text.append(" at ");
    push_decimal(&mut text, dpi as u64 * 100 / 96);
    push_char(&mut text, '%');
    if primary {
        text.append(" (primary)");
    }
    assert(text@ =~= monitor_text(right - left, bottom - top, dpi, primary));
    text
}

/// Writing a number in decimal and reading it back gives the number: the
/// text is one or more decimal digits, with no leading zero unless the
/// number is zero.
pub proof fn law_decimal_reads_back(n: nat)
    ensures
        decimal(n).len() > 0,
        all_digits(decimal(n)),
        digits_value(decimal(n)) == n,
        n > 0 ==> decimal(n)[0] != '0',
    decreases n,
{
    if n >= 10 {
        law_decimal_reads_back(n / 10);
        let d = decimal(n / 10);
        let s = decimal(n);
        assert(s == d.push(digit(n % 10)));
        assert(s.drop_last() =~= d);
        assert forall|i: int| 0 <= i < s.len() implies '0' <= #[trigger] s[i] <= '9' by {
            if i < d.len() {
                assert(s[i] == d[i]);
            }
        }
        assert(s[0] == d[0]);
        assert(s.last() == digit((n % 10) as nat));
        assert(digit((n % 10) as nat) as int == 48 + n % 10);
        assert(digits_value(s) == digits_value(d) * 10 + (n % 10));
    } else {
        let s = decimal(n);
        assert(s.drop_last() =~= Seq::<char>::empty());
        assert(s.last() == digit(n));
        assert(digit(n) as int == 48 + n);
        assert(digits_value(Seq::<char>::empty()) == 0);
    }
}

/// A number that fits in a `u32`, written in decimal, parses back as
/// itself.
pub proof fn law_a_written_number_parses_back(n: nat)
    requires
        n <= u32::MAX,
    ensures
        parsed_u32(decimal(n)) == Some(n as int),
{
    law_decimal_reads_back(n);
    assert('0' <= decimal(n)[0] <= '9');
    assert(unsigned_digits(decimal(n)) == decimal(n));
}

/// The four parts of a driver's version are the number read in 16-bit
/// pieces, most significant first: they put the number back together.
pub proof fn law_driver_parts_make_up_the_number(umd: u64)
    ensures
        ({
            let (a, b, c, d) = driver_parts(umd);
            &&& a < 0x10000 && b < 0x10000 && c < 0x10000 && d < 0x10000
            &&& a * 0x1_0000_0000_0000 + b * 0x1_0000_0000 + c * 0x10000 + d == umd
        }),
{
    let (a, b, c, d) = driver_parts(umd);
    assert(a < 0x10000) by (nonlinear_arith)
        requires
            a == umd / 0x1_0000_0000_0000,
            umd <= u64::MAX,
    ;
    assert(a * 0x1_0000_0000_0000 + b * 0x1_0000_0000 + c * 0x10000 + d == umd) by (nonlinear_arith)
        requires
            a == umd / 0x1_0000_0000_0000,
            b == (umd / 0x1_0000_0000) % 0x10000,
            c == (umd / 0x10000) % 0x10000,
            d == umd % 0x10000,
            umd >= 0,
    ;
}

} // verus!
