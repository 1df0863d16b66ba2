//! Wording of error messages.
//!
//! A fault says what its message is made of as a sequence of [`Word`]s; one
//! function puts the words together.

use vstd::prelude::*;
use vstd::string::StringExecFns;

verus! {

/// One part of a message.
#[derive(Clone, Debug, PartialEq, Eq)]
pub enum Word {
    Lit(&'static str),
    Num(i64),
    Count(usize),
    Wide(u64),
    Name(String),
    /// A name in quotes, with what needs it escaped.
    Quoted(String),
    Digest([u8; 32]),
}

/// The decimal digit `d`, as a character.
pub open spec fn digit_char(d: int) -> char {
    if d == 0 { '0' } else if d == 1 { '1' } else if d == 2 { '2' } else if d == 3 { '3' }
    else if d == 4 { '4' } else if d == 5 { '5' } else if d == 6 { '6' } else if d == 7 { '7' }
    else if d == 8 { '8' } else { '9' }
}

/// The decimal writing of a natural number, without leading zeros.
pub open spec fn nat_text(n: nat) -> Seq<char>
    decreases n,
{
    if n < 10 {
        seq![digit_char(n as int)]
    } else {
        nat_text(n / 10).push(digit_char((n % 10) as int))
    }
}

/// The decimal writing of an integer.
pub open spec fn int_text(i: int) -> Seq<char> {
    if i < 0 {
        "-"@ + nat_text((-i) as nat)
    } else {
        nat_text(i as nat)
    }
}

/// The lower-case hexadecimal digit `d`.
pub open spec fn hex_digit(d: int) -> char {
    if d < 10 { digit_char(d) } else if d == 10 { 'a' } else if d == 11 { 'b' }
    else if d == 12 { 'c' } else if d == 13 { 'd' } else if d == 14 { 'e' } else { 'f' }
}

/// Two lower-case hexadecimal digits for each byte.
pub open spec fn hex_text(bytes: Seq<u8>) -> Seq<char> {
    Seq::new(
        2 * bytes.len(),
        |i: int| hex_digit(if i % 2 == 0 { bytes[i / 2] as int / 16 } else { bytes[i / 2] as int % 16 }),
    )
}

/// What the `Debug` form of a string is.
pub uninterp spec fn quoted_text(s: Seq<char>) -> Seq<char>;

/// What one word contributes to a message.
pub open spec fn word_text(w: Word) -> Seq<char> {
    match w {
        Word::Lit(s) => s@,
        Word::Num(i) => int_text(i as int),
        Word::Count(n) => nat_text(n as nat),
        Word::Wide(n) => nat_text(n as nat),
        Word::Name(s) => s@,
        Word::Quoted(s) => quoted_text(s@),
        Word::Digest(d) => hex_text(d@),
    }
}

/// The message that the words make up, in order.
pub open spec fn words_text(words: Seq<Word>) -> Seq<char>
    decreases words.len(),
{
    if words.len() == 0 {
        ""@
    } else {
        words_text(words.drop_last()) + word_text(words.last())
    }
}

fn digit_str(d: u64) -> (s: &'static str)
    requires
        d < 10,
    ensures
        s@ =~= seq![digit_char(d as int)],
{
    proof {
        reveal_strlit("0");
        reveal_strlit("1");
        reveal_strlit("2");
        reveal_strlit("3");
        reveal_strlit("4");
        reveal_strlit("5");
        reveal_strlit("6");
        reveal_strlit("7");
        reveal_strlit("8");
        reveal_strlit("9");
    }
    match d {
        0 => "0",
        1 => "1",
        2 => "2",
        3 => "3",
        4 => "4",
        5 => "5",
        6 => "6",
        7 => "7",
        8 => "8",
        _ => "9",
    }
}

fn push_nat(out: &mut String, n: u64)
    ensures
        final(out)@ =~= old(out)@ + nat_text(n as nat),
    decreases n,
{
    if n >= 10 {
        push_nat(out, n / 10);
    }
    out.append(digit_str(n % 10));
}

fn push_int(out: &mut String, i: i64)
    ensures
        final(out)@ =~= old(out)@ + int_text(i as int),
{
    if i >= 0 {
        push_nat(out, i as u64);
    } else {
        out.append("-");
        if i == i64::MIN {
            push_nat(out, 9223372036854775808u64);
        } else {
            push_nat(out, (-i) as u64);
        }
    }
}

/// Calls `hex::encode`, which writes each byte as two lower-case hexadecimal
/// digits, high nibble first.
#[verifier::external_body]
fn hex_string(bytes: &[u8]) -> (s: String)
    ensures
        s@ == hex_text(bytes@),
{
    hex::encode(bytes)
}

/// Formats a string with `Debug` of `str`. What that gives is named: the string
/// in quotes, with some of its characters escaped.
#[verifier::external_body]
fn quoted_string(s: &str) -> (q: String)
    ensures
        q@ == quoted_text(s@),
{
    format!("{:?}", s)
}

/// The words of a list of names: each in quotes, with commas between them, in
/// square brackets.
pub open spec fn list_words(names: Seq<String>) -> Seq<Word> {
    seq![Word::Lit("[")] + quoted_words(names) + seq![Word::Lit("]")]
}

pub open spec fn quoted_words(names: Seq<String>) -> Seq<Word>
    decreases names.len(),
{
    if names.len() == 0 {
        Seq::empty()
    } else if names.len() == 1 {
        seq![Word::Quoted(names[0])]
    } else {
        quoted_words(names.drop_last()) + seq![Word::Lit(", "), Word::Quoted(names.last())]
    }
}

pub(crate) fn words_of_list(names: &Vec<String>) -> (words: Vec<Word>)
    ensures
        words@ == list_words(names@),
{
    let mut words: Vec<Word> = vec![Word::Lit("[")];
    let ghost open = words@;
    let mut i: usize = 0;
    assert(open + quoted_words(names@.take(0)) =~= open);
    while i < names.len()
        invariant
            i <= names.len(),
            open == seq![Word::Lit("[")],
            words@ == open + quoted_words(names@.take(i as int)),
        decreases names.len() - i,
    {
        proof {
            assert(names@.take(i + 1).drop_last() =~= names@.take(i as int));
        }
        if i > 0 {
            words.push(Word::Lit(", "));
        }
        words.push(Word::Quoted(names[i].clone()));
        assert(words@ =~= open + quoted_words(names@.take(i + 1)));
        i = i + 1;
    }
    assert(names@.take(i as int) =~= names@);
    words.push(Word::Lit("]"));
    assert(words@ =~= list_words(names@));
    words
}

/// Puts a message together from its words.
pub fn render(words: &Vec<Word>) -> (m: String)
    ensures
        m@ == words_text(words@),
{
    let mut m = String::from_str("");
    let mut i: usize = 0;
    while i < words.len()
        invariant
            i <= words.len(),
            m@ == words_text(words@.take(i as int)),
        decreases words.len() - i,
    {
        let ghost before = m@;
        proof {
            assert(words@.take(i + 1).drop_last() =~= words@.take(i as int));
        }
        match &words[i] {
            Word::Lit(s) => m.append(s),
            Word::Num(n) => push_int(&mut m, *n),
            Word::Count(n) => push_nat(&mut m, *n as u64),
            Word::Wide(n) => push_nat(&mut m, *n),
            Word::Name(s) => m.append(s.as_str()),
            Word::Quoted(s) => {
                let q = quoted_string(s.as_str());
                m.append(q.as_str());
            },
            Word::Digest(d) => {
                let h = hex_string(d.as_slice());
                m.append(h.as_str());
            },
        }
        i = i + 1;
    }
    proof {
        assert(words@.take(words@.len() as int) =~= words@);
    }
    m
}

} // verus!
