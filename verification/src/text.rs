use vstd::prelude::*;

verus! {

/// The ASCII lowercase form of a character: `'A'..='Z'` move to
/// `'a'..='z'`, every other character stays.
pub open spec fn lower_char(c: char) -> char {
    if 'A' <= c && c <= 'Z' {
        ((c as u8) + 32) as char
    } else {
        c
    }
}

/// The text with each character in its ASCII lowercase form.
pub open spec fn lower_ascii(text: Seq<char>) -> Seq<char> {
    text.map_values(|c: char| lower_char(c))
}

/// `str::to_ascii_lowercase` of std: a copy of the text in which the ASCII
/// letters `'A'..='Z'` are replaced by `'a'..='z'` and nothing else changes.
pub assume_specification[ str::to_ascii_lowercase ](text: &str) -> (lowered: String)
    ensures
        lowered@ == lower_ascii(text@),
;

/// The parts in a row, each followed by a comma.
pub open spec fn listed(parts: Seq<Seq<char>>) -> Seq<char>
    decreases parts.len(),
{
    if parts.len() == 0 {
        Seq::empty()
    } else {
        listed(parts.drop_last()) + parts.last() + seq![',']
    }
}

/// The parts as a list in square brackets: `[a,b,]`.
pub open spec fn bracketed(parts: Seq<Seq<char>>) -> Seq<char> {
    seq!['['] + listed(parts) + seq![']']
}

/// Two texts as a pair: `(key->value)`.
pub open spec fn paired(key: Seq<char>, value: Seq<char>) -> Seq<char> {
    seq!['('] + key + seq!['-', '>'] + value + seq![')']
}

} // verus!
