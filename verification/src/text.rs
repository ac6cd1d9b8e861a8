//! Text helpers: comparison, concatenation and number formatting.
use vstd::prelude::*;
use vstd::string::StrSliceExecFns;

verus! {

/// The text without the white space around it, as `str::trim` removes it.
pub uninterp spec fn trimmed(text: Seq<char>) -> Seq<char>;

/// Whether a character is one of the graphic characters of ASCII, none of which is
/// white space.
pub open spec fn is_graphic(c: char) -> bool {
    '!' <= c <= '~'
}

/// Whether a character is a space, a tab or a line feed, each of which is white
/// space.
pub open spec fn is_space(c: char) -> bool {
    c == ' ' || c == '\t' || c == '\n'
}

/// Whether `inner` is the part of `text` from `start` to `end`, with no graphic
/// character left out.
pub open spec fn is_core(text: Seq<char>, inner: Seq<char>, start: int, end: int) -> bool {
    &&& 0 <= start <= end <= text.len()
    &&& inner == text.subrange(start, end)
    &&& forall|i: int|
        0 <= i < start || end <= i < text.len() ==> !is_graphic(#[trigger] text[i])
}

/// `str::trim` returns the text without leading and trailing white space; the
/// result depends on the text alone. It is a part of the text that leaves out no
/// graphic character of ASCII, and neither begins nor ends with a space, a tab or a
/// line feed. Which other characters are white space is left unsaid.
pub assume_specification[ str::trim ](s: &str) -> (result: &str)
    ensures
        result@ == trimmed(s@),
        exists|start: int, end: int| #[trigger] is_core(s@, result@, start, end),
        result@.len() > 0 ==> !is_space(result@[0]) && !is_space(result@.last()),
;

/// Whether two texts hold the same characters.
pub fn same_text(a: &str, b: &str) -> (same: bool)
    ensures
        same == (a@ == b@),
{
    let a: String = a.to_owned();
    let b: String = b.to_owned();
    a == b
}

/// The text as an owned string.
pub fn owned(a: &str) -> (text: String)
    ensures
        text@ == a@,
{
    a.to_owned()
}

/// Concatenation of two texts.
pub fn concat2(a: &str, b: &str) -> (text: String)
    ensures
        text@ == a@ + b@,
{
    a.to_owned().concat(b)
}

/// Concatenation of three texts.
pub fn concat3(a: &str, b: &str, c: &str) -> (text: String)
    ensures
        text@ == a@ + b@ + c@,
{
    a.to_owned().concat(b).concat(c)
}

/// Concatenation of four texts.
pub fn concat4(a: &str, b: &str, c: &str, d: &str) -> (text: String)
    ensures
        text@ == a@ + b@ + c@ + d@,
{
    a.to_owned().concat(b).concat(c).concat(d)
}

/// Concatenation of five texts.
pub fn concat5(a: &str, b: &str, c: &str, d: &str, e: &str) -> (text: String)
    ensures
        text@ == a@ + b@ + c@ + d@ + e@,
{
    a.to_owned().concat(b).concat(c).concat(d).concat(e)
}

/// Concatenation of six texts.
pub fn concat6(a: &str, b: &str, c: &str, d: &str, e: &str, f: &str) -> (text: String)
    ensures
        text@ == a@ + b@ + c@ + d@ + e@ + f@,
{
    a.to_owned().concat(b).concat(c).concat(d).concat(e).concat(f)
}

/// Concatenation of seven texts.
pub fn concat7(a: &str, b: &str, c: &str, d: &str, e: &str, f: &str, g: &str) -> (text: String)
    ensures
        text@ == a@ + b@ + c@ + d@ + e@ + f@ + g@,
{
    a.to_owned().concat(b).concat(c).concat(d).concat(e).concat(f).concat(g)
}

/// The digit character of a value below sixteen.
pub open spec fn digit_char(d: nat) -> char {
    if d == 0 { '0' }
    else if d == 1 { '1' }
    else if d == 2 { '2' }
    else if d == 3 { '3' }
    else if d == 4 { '4' }
    else if d == 5 { '5' }
    else if d == 6 { '6' }
    else if d == 7 { '7' }
    else if d == 8 { '8' }
    else if d == 9 { '9' }
    else if d == 10 { 'a' }
    else if d == 11 { 'b' }
    else if d == 12 { 'c' }
    else if d == 13 { 'd' }
    else if d == 14 { 'e' }
    else { 'f' }
}

/// The digit of a value below sixteen, as text.
pub fn digit_text(d: u64) -> (text: &'static str)
    requires
        d < 16,
    ensures
        text@ == seq![digit_char(d as nat)],
{
    proof {
        reveal_strlit("0");
        reveal_strlit("1");
        reveal_strlit("2");
        reveal_strlit("3");
        reveal_strlit("4");
        reveal_strlit("5");
        reveal_strlit("6");
        reveal_strlit("7");
        reveal_strlit("8");
        reveal_strlit("9");
        reveal_strlit("a");
        reveal_strlit("b");
        reveal_strlit("c");
        reveal_strlit("d");
        reveal_strlit("e");
        reveal_strlit("f");
    }
    if d == 0 { "0" }
    else if d == 1 { "1" }
    else if d == 2 { "2" }
    else if d == 3 { "3" }
    else if d == 4 { "4" }
    else if d == 5 { "5" }
    else if d == 6 { "6" }
    else if d == 7 { "7" }
    else if d == 8 { "8" }
    else if d == 9 { "9" }
    else if d == 10 { "a" }
    else if d == 11 { "b" }
    else if d == 12 { "c" }
    else if d == 13 { "d" }
    else if d == 14 { "e" }
    else { "f" }
}

/// Decimal notation without leading zeros.
pub open spec fn decimal(n: nat) -> Seq<char>
    decreases n,
{
    if n < 10 {
        seq![digit_char(n)]
    } else {
        decimal(n / 10).push(digit_char(n % 10))
    }
}

/// Notation in `base` with exactly `width` digits: the last `width` digits,
/// padded with zeros on the left.
pub open spec fn fixed_digits(n: nat, base: nat, width: nat) -> Seq<char>
    decreases width,
{
    if width == 0 || base == 0 {
        Seq::empty()
    } else {
        fixed_digits(n / base, base, (width - 1) as nat).push(digit_char(n % base))
    }
}

/// The decimal notation of `n`.
pub fn decimal_text(n: u64) -> (text: String)
    ensures
        text@ == decimal(n as nat),
    decreases n,
{
    if n < 10 {
        digit_text(n).to_owned()
    } else {
        let head: String = decimal_text(n / 10);
        let text: String = head.concat(digit_text(n % 10));
        assert(text@ =~= decimal((n / 10) as nat).push(digit_char((n % 10) as nat)));
        text
    }
}

/// The decimal notation of a number of any size that a timestamp can have.
pub fn wide_decimal_text(n: u128) -> (text: String)
    ensures
        text@ == decimal(n as nat),
    decreases n,
{
    if n < 10 {
        digit_text(n as u64).to_owned()
    } else {
        let head: String = wide_decimal_text(n / 10);
        let text: String = head.concat(digit_text((n % 10) as u64));
        assert(text@ =~= decimal((n / 10) as nat).push(digit_char((n % 10) as nat)));
        text
    }
}

/// The decimal notation of a signed number.
pub open spec fn signed_decimal(n: int) -> Seq<char> {
    if n < 0 {
        seq!['-'] + decimal((-n) as nat)
    } else {
        decimal(n as nat)
    }
}

/// The decimal notation of `n`.
pub fn signed_decimal_text(n: i64) -> (text: String)
    ensures
        text@ == signed_decimal(n as int),
{
    if n < 0 {
        proof {
            reveal_strlit("-");
        }
        let magnitude: u128 = (-(n as i128)) as u128;
        let text: String = concat2("-", wide_decimal_text(magnitude).as_str());
        assert(text@ =~= signed_decimal(n as int));
        text
    } else {
        decimal_text(n as u64)
    }
}

/// The last `width` digits of `n` in `base`.
pub fn fixed_digits_text(n: u64, base: u64, width: u32) -> (text: String)
    requires
        0 < base <= 16,
    ensures
        text@ == fixed_digits(n as nat, base as nat, width as nat),
    decreases width,
{
    if width == 0 {
        String::new()
    } else {
        let head: String = fixed_digits_text(n / base, base, width - 1);
        let text: String = head.concat(digit_text(n % base));
        assert(text@ =~= fixed_digits((n / base) as nat, base as nat, (width - 1) as nat).push(
            digit_char((n % base) as nat),
        ));
        text
    }
}


/// Whether `part` stands in a text at `at`.
pub open spec fn stands_at(text: Seq<char>, part: Seq<char>, at: int) -> bool {
    &&& 0 <= at
    &&& at + part.len() <= text.len()
    &&& text.subrange(at, at + part.len()) == part
}

/// The first place from `from` on where `part` stands in a text.
pub open spec fn found_from(text: Seq<char>, part: Seq<char>, from: int) -> Option<int>
    decreases text.len() - from,
{
    if from + part.len() > text.len() {
        None
    } else if stands_at(text, part, from) {
        Some(from)
    } else if from >= text.len() {
        None
    } else {
        found_from(text, part, from + 1)
    }
}

/// The first place where `part` stands in a text.
pub fn find(s: &str, part: &str) -> (at: Option<usize>)
    ensures
        match at {
            Some(i) => found_from(s@, part@, 0) == Some(i as int) && stands_at(s@, part@, i as int),
            None => found_from(s@, part@, 0) is None,
        },
{
    let length: usize = s.unicode_len();
    let size: usize = part.unicode_len();
    let mut from: usize = 0;
    while from <= length && length - from >= size
        invariant
            length == s@.len(),
            size == part@.len(),
            from <= length,
            found_from(s@, part@, 0) == found_from(s@, part@, from as int),
        decreases length - from,
    {
        if same_text(s.substring_char(from, from + size), part) {
            return Some(from);
        }
        if from == length {
            return None;
        }
        from = from + 1;
    }
    None
}

} // verus!
