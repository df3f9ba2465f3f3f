use vstd::prelude::*;
use vstd::utf8::{decode_utf8, valid_utf8};

verus! {

/// The character of a decimal digit.
pub open spec fn digit_char(d: nat) -> char {
    if d == 0 {
        '0'
    } else if d == 1 {
        '1'
    } else if d == 2 {
        '2'
    } else if d == 3 {
        '3'
    } else if d == 4 {
        '4'
    } else if d == 5 {
        '5'
    } else if d == 6 {
        '6'
    } else if d == 7 {
        '7'
    } else if d == 8 {
        '8'
    } else {
        '9'
    }
}

/// The decimal notation of `n`, as `{}` prints an unsigned integer.
pub open spec fn decimal(n: nat) -> Seq<char>
    decreases n,
{
    if n < 10 {
        seq![digit_char(n)]
    } else {
        decimal(n / 10).push(digit_char(n % 10))
    }
}

/// The number that a string of decimal digits stands for.
pub open spec fn digits_value(s: Seq<char>) -> int
    decreases s.len(),
{
    if s.len() == 0 {
        0
    } else {
        digits_value(s.drop_last()) * 10 + (s.last() as u32 - 48)
    }
}

/// The decimal notation of `n` is made of the digits `0` to `9` alone,
/// starts with `0` only where it is `0` itself, and stands for `n`.
pub proof fn lemma_decimal(n: nat)
    ensures
        decimal(n).len() > 0,
        forall|i: int| 0 <= i < decimal(n).len() ==> '0' <= #[trigger] decimal(n)[i] <= '9',
        decimal(n)[0] == '0' ==> n == 0,
        digits_value(decimal(n)) == n,
    decreases n,
{
    if n >= 10 {
        lemma_decimal(n / 10);
        let r = decimal(n / 10);
        assert(decimal(n).drop_last() =~= r);
        assert(decimal(n)[0] == r[0]);
        assert(n == (n / 10) * 10 + n % 10) by (nonlinear_arith);
        assert(digit_char(n % 10) as u32 - 48 == n % 10);
        assert(decimal(n).last() == digit_char(n % 10));
        assert(digits_value(decimal(n)) == digits_value(r) * 10 + (n % 10));
    } else {
        assert(seq![digit_char(n)].drop_last() =~= Seq::<char>::empty());
        assert(digit_char(n) as u32 - 48 == n);
        assert(digits_value(decimal(n)) == digits_value(Seq::<char>::empty()) * 10 + (n as int));
    }
}

fn digit_str(d: u64) -> (s: &'static str)
    requires
        d < 10,
    ensures
        s@ == seq![digit_char(d as nat)],
{
    proof {
        reveal_strlit("0");
        reveal_strlit("1");
        reveal_strlit("2");
        reveal_strlit("3");
        reveal_strlit("4");
        reveal_strlit("5");
        reveal_strlit("6");
        reveal_strlit("7");
        reveal_strlit("8");
        reveal_strlit("9");
    }
    if d == 0 {
        "0"
    } else if d == 1 {
        "1"
    } else if d == 2 {
        "2"
    } else if d == 3 {
        "3"
    } else if d == 4 {
        "4"
    } else if d == 5 {
        "5"
    } else if d == 6 {
        "6"
    } else if d == 7 {
        "7"
    } else if d == 8 {
        "8"
    } else {
        "9"
    }
}

/// The decimal notation of `n`.
pub fn decimal_string(n: u64) -> (r: String)
    ensures
        r@ == decimal(n as nat),
    decreases n,
{
    if n < 10 {
        digit_str(n).to_owned()
    } else {
        let mut r = decimal_string(n / 10);
        r.append(digit_str(n % 10));
        r
    }
}

/// What `String::from_utf8_lossy` makes of some bytes.
pub uninterp spec fn utf8_lossy(bytes: Seq<u8>) -> Seq<char>;

/// Calls `String::from_utf8_lossy`. Trusted: the text is the one that
/// function gives for these bytes, which for valid UTF-8 is the decoded
/// text; what it puts in place of invalid sequences is left unsaid.
#[verifier::external_body]
fn lossy_text(bytes: &[u8]) -> (r: String)
    ensures
        r@ == utf8_lossy(bytes@),
        valid_utf8(bytes@) ==> r@ == decode_utf8(bytes@),
{
    String::from_utf8_lossy(bytes).into_owned()
}

/// Calls `String::from_utf8`. Trusted: it gives the text exactly where the
/// bytes are valid UTF-8, and that text is their decoding, as std documents.
#[verifier::external_body]
pub(crate) fn utf8_string(bytes: Vec<u8>) -> (r: Option<String>)
    ensures
        match r {
            Some(s) => valid_utf8(bytes@) && s@ == decode_utf8(bytes@),
            None => !valid_utf8(bytes@),
        },
{
    String::from_utf8(bytes).ok()
}

/// What a shell command answers: its standard output, or, where it failed,
/// `command failed: ` and its error output; either read as lossy UTF-8.
pub open spec fn command_output_spec(success: bool, stdout: Seq<u8>, stderr: Seq<u8>) -> Seq<
    char,
> {
    if success {
        utf8_lossy(stdout)
    } else {
        "command failed: "@ + utf8_lossy(stderr)
    }
}

/// The answer of the shell tool to a command that has run.
pub fn command_output_text(success: bool, stdout: &[u8], stderr: &[u8]) -> (r: String)
    ensures
        r@ == command_output_spec(success, stdout@, stderr@),
        success && valid_utf8(stdout@) ==> r@ == decode_utf8(stdout@),
        !success && valid_utf8(stderr@) ==> r@ == "command failed: "@ + decode_utf8(stderr@),
{
    if !success {
        let mut r = "command failed: ".to_owned();
        let err = lossy_text(stderr);
        r.append(err.as_str());
        return r;
    }
    lossy_text(stdout)
}

/// The largest file, in bytes, that the search tool reads.
pub const MAX_FILE_SIZE: u64 = 1000000;

/// The refusal of a file of `len` bytes, where it is too big.
pub open spec fn file_size_spec(len: u64) -> Result<(), Seq<char>> {
    if len > MAX_FILE_SIZE {
        Err(
            "File too big: "@ + decimal(len as nat) + " bytes, limit is "@ + decimal(
                MAX_FILE_SIZE as nat,
            ),
        )
    } else {
        Ok(())
    }
}

/// Accepts a file of `len` bytes for searching, or says that it is too big.
pub fn check_file_size(len: u64) -> (r: Result<(), String>)
    ensures
        match r {
            Ok(()) => file_size_spec(len) == Ok::<(), Seq<char>>(()),
            Err(e) => file_size_spec(len) == Err::<(), Seq<char>>(e@),
        },
{
    if len > MAX_FILE_SIZE {
        let mut e = "File too big: ".to_owned();
        e.append(decimal_string(len).as_str());
        e.append(" bytes, limit is ");
        e.append(decimal_string(MAX_FILE_SIZE).as_str());
        Err(e)
    } else {
        Ok(())
    }
}

} // verus!
