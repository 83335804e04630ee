//! Errors that can occur while reading a `.slime` file.

use vstd::prelude::*;

verus! {

#[verifier::external_type_specification]
#[verifier::external_body]
pub struct ExIoError(std::io::Error);

/// Errors that can occur while reading a `.slime` file.
#[derive(Debug)]
pub enum SlimeError {
    /// The decompressor failed in the middle of a payload.
    Io(std::io::Error),
    /// The file does not start with the SlimeWorld magic.
    BadMagic,
    /// The file has another format version than the supported one.
    UnsupportedVersion(u8),
    /// The data ends before what it announces.
    Truncated,
    /// The data holds a value that no writer produces.
    Corrupt(&'static str),
    /// A payload does not start with a zstd frame.
    Decompress,
}

/// What a [`SlimeError`] says, without the text of an I/O error.
pub enum SlimeFailure {
    Io,
    BadMagic,
    UnsupportedVersion(u8),
    Truncated,
    Corrupt(Seq<char>),
    Decompress,
}

impl View for SlimeError {
    type V = SlimeFailure;

    open spec fn view(&self) -> SlimeFailure {
        match self {
            SlimeError::Io(_) => SlimeFailure::Io,
            SlimeError::BadMagic => SlimeFailure::BadMagic,
            SlimeError::UnsupportedVersion(v) => SlimeFailure::UnsupportedVersion(*v),
            SlimeError::Truncated => SlimeFailure::Truncated,
            SlimeError::Corrupt(what) => SlimeFailure::Corrupt(what@),
            SlimeError::Decompress => SlimeFailure::Decompress,
        }
    }
}

/// The decimal digits of a number.
pub open spec fn decimal(n: nat) -> Seq<char>
    decreases n,
{
    if n < 10 {
        seq![('0' as int + n) as char]
    } else {
        decimal(n / 10).push(('0' as int + n % 10) as char)
    }
}

/// `text` is what [`io_text`] may give for an I/O error.
pub closed spec fn is_io_text(error: &std::io::Error, text: String) -> bool {
    call_ensures(io_text, (error,), text)
}

/// `text` is the message of an error: fixed words, and behind those of an I/O
/// error its own text.
pub open spec fn is_message(error: SlimeError, text: Seq<char>) -> bool {
    match error {
        SlimeError::Io(inner) => exists|own: String| #[trigger]
            is_io_text(&inner, own) && text == "io error: "@ + own@,
        SlimeError::BadMagic => text == "not a slime file (invalid magic)"@,
        SlimeError::UnsupportedVersion(version) => text == "unsupported slime format version "@
            + decimal(version as nat) + " (only version 13 is supported)"@,
        SlimeError::Truncated => text == "unexpected end of slime data"@,
        SlimeError::Corrupt(what) => text == "corrupt slime data: "@ + what@,
        SlimeError::Decompress => text == "zstd decompression of slime data failed"@,
    }
}

/// `<std::io::Error as ToString>::to_string`: the text of an I/O error, of which
/// nothing is claimed.
#[verifier::external_body]
fn io_text(error: &std::io::Error) -> (text: String) {
    error.to_string()
}

fn digit(n: u8) -> (c: &'static str)
    requires
        n < 10,
    ensures
        c@ == seq![('0' as int + n) as char],
{
    proof {
        reveal_strlit("0");
        reveal_strlit("1");
        reveal_strlit("2");
        reveal_strlit("3");
        reveal_strlit("4");
        reveal_strlit("5");
        reveal_strlit("6");
        reveal_strlit("7");
        reveal_strlit("8");
        reveal_strlit("9");
    }
    match n {
        0 => "0",
        1 => "1",
        2 => "2",
        3 => "3",
        4 => "4",
        5 => "5",
        6 => "6",
        7 => "7",
        8 => "8",
        _ => "9",
    }
}

fn decimal_text(n: u8) -> (text: String)
    ensures
        text@ == decimal(n as nat),
{
    let mut text = String::new();
    if n >= 100 {
        text.append(digit(n / 100));
    }
    if n >= 10 {
        text.append(digit(n / 10 % 10));
    }
    text.append(digit(n % 10));
    proof {
        reveal_with_fuel(decimal, 3);
        assert(text@ =~= decimal(n as nat));
    }
    text
}

impl SlimeError {
    /// The error as a text for a log.
    pub fn message(&self) -> (text: String)
        ensures
            is_message(*self, text@),
    {
        match self {
            SlimeError::Io(error) => {
                let mut text = String::from_str("io error: ");
                let own = io_text(error);
                assert(is_io_text(error, own));
                text.append(own.as_str());
                text
            },
            SlimeError::BadMagic => String::from_str("not a slime file (invalid magic)"),
            SlimeError::UnsupportedVersion(version) => {
                let mut text = String::from_str("unsupported slime format version ");
                text.append(decimal_text(*version).as_str());
                text.append(" (only version 13 is supported)");
                text
            },
            SlimeError::Truncated => String::from_str("unexpected end of slime data"),
            SlimeError::Corrupt(what) => {
                let mut text = String::from_str("corrupt slime data: ");
                text.append(what);
                text
            },
            SlimeError::Decompress => String::from_str("zstd decompression of slime data failed"),
        }
    }
}

/// An error says what it is.
pub proof fn law_error_is_what_it_says(error: SlimeError, version: u8, reason: Seq<char>)
    ensures
        error@ == SlimeFailure::Io <==> error is Io,
        error@ == SlimeFailure::BadMagic <==> error is BadMagic,
        error@ == SlimeFailure::Truncated <==> error is Truncated,
        error@ == SlimeFailure::Decompress <==> error is Decompress,
        error@ == SlimeFailure::UnsupportedVersion(version) <==> error
            == SlimeError::UnsupportedVersion(version),
        error@ == SlimeFailure::Corrupt(reason) <==> (error matches SlimeError::Corrupt(what)
            && what@ == reason),
{
}

/// A number is written with the digits that it has, the most significant first and
/// none of them a leading zero.
pub proof fn law_decimal_digits(n: u8)
    ensures
        n < 10 ==> decimal(n as nat) == seq![(0x30 + n) as char],
        10 <= n < 100 ==> decimal(n as nat) == seq![
            (0x30 + n / 10) as char,
            (0x30 + n % 10) as char,
        ],
        n >= 100 ==> decimal(n as nat) == seq![
            (0x30 + n / 100) as char,
            (0x30 + n / 10 % 10) as char,
            (0x30 + n % 10) as char,
        ],
{
    reveal_with_fuel(decimal, 3);
    assert('0' as int == 0x30);
    if n < 10 {
        assert(decimal(n as nat) =~= seq![(0x30 + n) as char]);
    } else if n < 100 {
        assert(decimal(n as nat) =~= seq![(0x30 + n / 10) as char, (0x30 + n % 10) as char]);
    } else {
        assert(decimal(n as nat) =~= seq![
            (0x30 + n / 100) as char,
            (0x30 + n / 10 % 10) as char,
            (0x30 + n % 10) as char,
        ]);
    }
}

/// The message of each error.
pub proof fn law_messages(error: SlimeError, text: Seq<char>)
    requires
        is_message(error, text),
    ensures
        error is BadMagic ==> text == "not a slime file (invalid magic)"@,
        error is Truncated ==> text == "unexpected end of slime data"@,
        error is Decompress ==> text == "zstd decompression of slime data failed"@,
        error matches SlimeError::Corrupt(what) ==> text == "corrupt slime data: "@ + what@,
        error matches SlimeError::UnsupportedVersion(version) ==> text
            == "unsupported slime format version "@ + decimal(version as nat)
            + " (only version 13 is supported)"@,
        error matches SlimeError::Io(inner) ==> exists|own: String| #[trigger]
            is_io_text(&inner, own) && text == "io error: "@ + own@,
{
}

} // verus!
