//! Text formatting utilities

use vstd::prelude::*;

use vstd::string::StrSliceExecFns;

verus! {

/// `String::push` appends the given character.
pub assume_specification[ String::push ](s: &mut String, ch: char)
    ensures
        final(s)@ == old(s)@.push(ch),
;

/// `String::pop` removes the last character and returns it, if there is one.
pub assume_specification[ String::pop ](s: &mut String) -> (r: Option<char>)
    ensures
        old(s)@.len() == 0 ==> r is None && final(s)@ == old(s)@,
        old(s)@.len() > 0 ==> r == Some(old(s)@.last()) && final(s)@ == old(s)@.drop_last(),
;

/// The decimal representation of a number
pub open spec fn decimal_chars(n: nat) -> Seq<char>
    decreases n,
{
    if n < 10 {
        seq![(48 + n) as char]
    } else {
        decimal_chars(n / 10).push((48 + n % 10) as char)
    }
}

/// A sequence of the given number of spaces
pub open spec fn spaces(n: int) -> Seq<char> {
    Seq::new(if n > 0 { n as nat } else { 0 }, |i: int| ' ')
}

/// The text padded with spaces on the left to the given width
pub open spec fn padded_left(text: Seq<char>, width: int) -> Seq<char> {
    spaces(width - text.len()) + text
}

/// The text padded with spaces on the right to the given width
pub open spec fn padded_right(text: Seq<char>, width: int) -> Seq<char> {
    text + spaces(width - text.len())
}

/// The text centered within the given width, any odd space going to the right
pub open spec fn centered(text: Seq<char>, width: int) -> Seq<char> {
    let pad = width - text.len();
    spaces(pad / 2) + text + spaces(pad - pad / 2)
}

/// Append the decimal representation of a number
pub fn push_decimal_chars(s: &mut String, n: u32)
    ensures
        final(s)@ == old(s)@ + decimal_chars(n as nat),
    decreases n,
{
    if n >= 10 {
        push_decimal_chars(s, n / 10);
    }
    let digit = n % 10;
    let c: char = if digit == 0 {
        '0'
    } else if digit == 1 {
        '1'
    } else if digit == 2 {
        '2'
    } else if digit == 3 {
        '3'
    } else if digit == 4 {
        '4'
    } else if digit == 5 {
        '5'
    } else if digit == 6 {
        '6'
    } else if digit == 7 {
        '7'
    } else if digit == 8 {
        '8'
    } else {
        '9'
    };
    assert(c == (48 + n % 10) as char);
    s.push(c);
    proof {
        if n < 10 {
            assert(decimal_chars(n as nat) =~= seq![(48 + n) as char]);
        }
        assert(s@ =~= old(s)@ + decimal_chars(n as nat));
    }
}

/// Append the given number of spaces
pub fn push_spaces(s: &mut String, n: usize)
    ensures
        final(s)@ == old(s)@ + spaces(n as int),
{
    let mut i: usize = 0;
    while i < n
        invariant
            i <= n,
            s@ == old(s)@ + spaces(i as int),
        decreases n - i,
    {
        s.push(' ');
        assert(spaces(i + 1) =~= spaces(i as int).push(' '));
        i = i + 1;
    }
}

/// The number of characters of a text
pub fn char_count(s: &str) -> (r: usize)
    ensures
        r == s@.len(),
{
    s.unicode_len()
}

/// Pad the text with spaces on the left to the given width
pub fn pad_left(text: &str, width: usize) -> (r: String)
    ensures
        r@ == padded_left(text@, width as int),
{
    let len = char_count(text);
    let mut r = String::new();
    if len < width {
        push_spaces(&mut r, width - len);
    }
    r.append(text);
    assert(r@ =~= padded_left(text@, width as int));
    r
}

/// Pad the text with spaces on the right to the given width
pub fn pad_right(text: &str, width: usize) -> (r: String)
    ensures
        r@ == padded_right(text@, width as int),
{
    let len = char_count(text);
    let mut r = String::new();
    r.append(text);
    if len < width {
        push_spaces(&mut r, width - len);
    }
    assert(r@ =~= padded_right(text@, width as int));
    r
}

/// Center the text within the given width
///
/// Any odd space goes to the right. Text wider than the width is left as it is.
pub fn center(text: &str, width: usize) -> (r: String)
    ensures
        r@ == centered(text@, width as int),
{
    let len = char_count(text);
    let mut r = String::new();
    if len < width {
        let pad = width - len;
        push_spaces(&mut r, pad / 2);
        r.append(text);
        push_spaces(&mut r, pad - pad / 2);
    } else {
        r.append(text);
    }
    assert(r@ =~= centered(text@, width as int));
    r
}

/// The decimal representation of a number
pub fn decimal(n: u32) -> (r: String)
    ensures
        r@ == decimal_chars(n as nat),
{
    let mut r = String::new();
    push_decimal_chars(&mut r, n);
    assert(r@ =~= decimal_chars(n as nat));
    r
}

} // verus!
