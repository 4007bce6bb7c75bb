//! Text: decimal numbers, UTF-8, and the few conversions that std makes.

use vstd::prelude::*;

verus! {

/// The character that stands for the digit `d`.
pub open spec fn digit_char(d: nat) -> char {
    (48 + d) as char
}

/// `n` in decimal, most significant digit first and without leading zeros.
pub open spec fn decimal(n: nat) -> Seq<char>
    decreases n,
{
    if n < 10 {
        seq![digit_char(n)]
    } else {
        decimal(n / 10).push(digit_char(n % 10))
    }
}

/// A decimal number consists of digits, at least one.
pub proof fn lemma_decimal_digits(n: nat)
    ensures
        decimal(n).len() > 0,
        forall|i: int|
            0 <= i < decimal(n).len() ==> '0' <= #[trigger] decimal(n)[i]
                <= '9',
    decreases n,
{
    if n >= 10 {
        lemma_decimal_digits(n / 10);
        let d = decimal(n);
        assert forall|i: int| 0 <= i < d.len() implies '0' <= #[trigger] d[i] <= '9' by {
            if i < d.len() - 1 {
                assert(d[i] == decimal(n / 10)[i]);
            }
        }
    }
}

/// Different numbers are different in decimal.
pub proof fn lemma_decimal_injective(a: nat, b: nat)
    requires
        decimal(a) == decimal(b),
    ensures
        a == b,
    decreases a,
{
    let da = decimal(a);
    let db = decimal(b);
    assert(da.last() == db.last());
    if a < 10 {
        if b >= 10 {
            lemma_decimal_digits(b / 10);
            assert(db.len() >= 2);
        }
    } else {
        lemma_decimal_digits(a / 10);
        assert(da.len() >= 2);
        assert(b >= 10);
        assert(da.drop_last() =~= decimal(a / 10));
        assert(db.drop_last() =~= decimal(b / 10));
        lemma_decimal_injective(a / 10, b / 10);
    }
}

/// The text of the digit `d`.
pub(crate) fn digit_text(d: u64) -> (text: &'static str)
    requires
        d < 10,
    ensures
        text@ == seq![digit_char(d as nat)],
{
    proof {
        reveal_strlit("0");
        reveal_strlit("1");
        reveal_strlit("2");
        reveal_strlit("3");
        reveal_strlit("4");
        reveal_strlit("5");
        reveal_strlit("6");
        reveal_strlit("7");
        reveal_strlit("8");
        reveal_strlit("9");
    }
    if d == 0 {
        "0"
    } else if d == 1 {
        "1"
    } else if d == 2 {
        "2"
    } else if d == 3 {
        "3"
    } else if d == 4 {
        "4"
    } else if d == 5 {
        "5"
    } else if d == 6 {
        "6"
    } else if d == 7 {
        "7"
    } else if d == 8 {
        "8"
    } else {
        "9"
    }
}

/// Writes `n` in decimal.
pub fn decimal_text(n: u64) -> (text: String)
    ensures
        text@ == decimal(n as nat),
    decreases n,
{
    if n < 10 {
        String::from_str(digit_text(n))
    } else {
        let mut text = decimal_text(n / 10);
        text.append(digit_text(n % 10));
        assert(text@ =~= decimal((n / 10) as nat).push(digit_char((n % 10) as nat)));
        text
    }
}

/// `before`, then `after`.
pub fn join2(before: &str, after: &str) -> (text: String)
    ensures
        text@ == before@ + after@,
{
    let mut text = String::from_str(before);
    text.append(after);
    text
}

/// `before`, then `middle`, then `after`.
pub fn join3(before: &str, middle: &str, after: &str) -> (text: String)
    ensures
        text@ == before@ + middle@ + after@,
{
    let mut text = String::from_str(before);
    text.append(middle);
    text.append(after);
    text
}

/// Whether two byte strings are the same.
pub fn same_bytes(a: &[u8], b: &[u8]) -> (same: bool)
    ensures
        same == (a@ == b@),
{
    if a.len() != b.len() {
        return false;
    }
    let mut i: usize = 0;
    while i < a.len()
        invariant
            a@.len() == b@.len(),
            i <= a@.len(),
            forall|j: int| 0 <= j < i ==> a@[j] == b@[j],
        decreases a@.len() - i,
    {
        if a[i] != b[i] {
            return false;
        }
        i = i + 1;
    }
    assert(a@ =~= b@);
    true
}

/// Calls [`std::str::from_utf8`].
///
/// Claimed: it accepts exactly the byte strings that are UTF-8, and the text it gives is their
/// decoding.
#[verifier::external_body]
pub(crate) fn utf8_text(raw: &[u8]) -> (text: Option<&str>)
    ensures
        match text {
            Some(t) => vstd::utf8::valid_utf8(raw@) && t@ == vstd::utf8::decode_utf8(raw@),
            None => !vstd::utf8::valid_utf8(raw@),
        },
{
    std::str::from_utf8(raw).ok()
}

/// What [`String::from_utf8_lossy`] makes of `raw`.
pub uninterp spec fn lossy(raw: Seq<u8>) -> Seq<char>;

/// Calls [`String::from_utf8_lossy`].
///
/// Claimed: the text depends on the bytes alone, and is their decoding where they are UTF-8.
#[verifier::external_body]
pub(crate) fn lossy_text(raw: &[u8]) -> (text: String)
    ensures
        text@ == lossy(raw@),
        vstd::utf8::valid_utf8(raw@) ==> text@ == vstd::utf8::decode_utf8(raw@),
{
    String::from_utf8_lossy(raw).into_owned()
}

/// What [`str::to_lowercase`] makes of `text`.
pub uninterp spec fn lowercase(text: Seq<char>) -> Seq<char>;

/// Calls [`str::to_lowercase`].
///
/// Claimed: the result depends on the text alone.
#[verifier::external_body]
pub(crate) fn lowercase_text(text: &str) -> (lower: String)
    ensures
        lower@ == lowercase(text@),
{
    text.to_lowercase()
}

/// Gives up ownership of `message` for good, so that it can be held as a `&'static str`.
///
/// Calls [`String::leak`]. Claimed: the text stays what it was.
#[verifier::external_body]
pub fn leak(message: String) -> (text: &'static str)
    ensures
        text@ == message@,
{
    message.leak()
}

} // verus!
