use vstd::prelude::*;

verus! {

/// Number of symbols: `0` for any non-letter, `1..=26` for the letters.
pub const ALPHABET: usize = 27;

/// Whether `c` is an ASCII letter.
pub open spec fn is_ascii_letter(c: char) -> bool {
    ('a' <= c && c <= 'z') || ('A' <= c && c <= 'Z')
}

/// ASCII lower case of a letter; other characters are left alone.
pub open spec fn ascii_lower(c: char) -> char {
    if 'A' <= c && c <= 'Z' {
        ((c as u32 + 32) as u8) as char
    } else {
        c
    }
}

/// The symbol of a character: ASCII letters fold to `1..=26`, anything else is `0`.
pub open spec fn symbol_of(c: char) -> nat {
    if 'a' <= c && c <= 'z' {
        (c as u32 - 'a' as u32 + 1) as nat
    } else if 'A' <= c && c <= 'Z' {
        (c as u32 - 'A' as u32 + 1) as nat
    } else {
        0
    }
}

/// The character that a symbol prints as: `0` is a space, `n` is the `n`-th lower-case letter.
pub open spec fn char_of(n: nat) -> char {
    if n == 0 {
        ' '
    } else {
        ((n + 96) as u8) as char
    }
}

/// Encodes one character as a symbol.
pub fn char2num(c: char) -> (r: usize)
    ensures
        r == symbol_of(c),
        r < ALPHABET,
{
    if 'a' <= c && c <= 'z' {
        (c as u32 - 'a' as u32 + 1) as usize
    } else if 'A' <= c && c <= 'Z' {
        (c as u32 - 'A' as u32 + 1) as usize
    } else {
        0
    }
}

/// Decodes one symbol as a character.
pub fn num2char(n: usize) -> (r: char)
    requires
        n < ALPHABET,
    ensures
        r == char_of(n as nat),
{
    if n == 0 {
        ' '
    } else {
        ((n + 96) as u8) as char
    }
}

/// Encodes a text symbol by symbol.
pub fn encode_text(text: &Vec<char>) -> (out: Vec<usize>)
    ensures
        out@.len() == text@.len(),
        forall|k: int| 0 <= k < text@.len() ==> out@[k] == symbol_of(#[trigger] text@[k]),
{
    let mut out: Vec<usize> = Vec::new();
    let mut k: usize = 0;
    while k < text.len()
        invariant
            k <= text@.len(),
            out@.len() == k,
            forall|j: int| 0 <= j < k ==> out@[j] == symbol_of(#[trigger] text@[j]),
        decreases text@.len() - k,
    {
        out.push(char2num(text[k]));
        k = k + 1;
    }
    out
}

/// Decodes symbols into the characters they print as.
pub fn decode_symbols(symbols: &Vec<usize>) -> (out: Vec<char>)
    requires
        forall|k: int| 0 <= k < symbols@.len() ==> symbols@[k] < ALPHABET,
    ensures
        out@.len() == symbols@.len(),
        forall|k: int| 0 <= k < symbols@.len() ==> out@[k] == char_of(#[trigger] symbols@[k] as nat),
{
    let mut out: Vec<char> = Vec::new();
    let mut k: usize = 0;
    while k < symbols.len()
        invariant
            k <= symbols@.len(),
            out@.len() == k,
            forall|j: int| 0 <= j < symbols@.len() ==> symbols@[j] < ALPHABET,
            forall|j: int| 0 <= j < k ==> out@[j] == char_of(#[trigger] symbols@[j] as nat),
        decreases symbols@.len() - k,
    {
        out.push(num2char(symbols[k]));
        k = k + 1;
    }
    out
}

/// Decoding an encoded character gives back its lower case if it is an ASCII
/// letter, and a space otherwise.
pub proof fn lemma_codec_round_trip(c: char)
    ensures
        symbol_of(c) < ALPHABET,
        is_ascii_letter(c) ==> char_of(symbol_of(c)) == ascii_lower(c),
        !is_ascii_letter(c) ==> char_of(symbol_of(c)) == ' ',
{
}

} // verus!
