//! What the bytes of an 8.3 name stand for.
//!
//! FAT stores short names in whatever codepage the machine that wrote them
//! used, and does not record which. The ASCII half is common to all of them.
use vstd::prelude::*;

verus! {

/// A pair of lookups between the bytes of an 8.3 name and characters.
#[derive(Debug, Clone)]
pub struct Codepage {
    pages: Pages,
}

/// The lookups: the ASCII half alone, or tables.
#[derive(Debug, Clone)]
enum Pages {
    Ascii,
    Tables { decode: Vec<Option<char>>, encode: Vec<(char, u8)> },
}

/// The byte of the first pair that holds `character`.
pub open spec fn first_match(pairs: Seq<(char, u8)>, character: char) -> Option<u8>
    decreases pairs.len(),
{
    if pairs.len() == 0 {
        None
    } else if pairs[0].0 == character {
        Some(pairs[0].1)
    } else {
        first_match(pairs.skip(1), character)
    }
}

impl Codepage {
    /// The character a byte stands for, if any.
    pub closed spec fn decodes(self, byte: u8) -> Option<char> {
        match self.pages {
            Pages::Ascii => if byte < 0x80 {
                Some(byte as char)
            } else {
                None
            },
            Pages::Tables { decode, encode } => if byte < decode@.len() {
                decode@[byte as int]
            } else {
                None
            },
        }
    }

    /// The byte that stores a character, if any.
    pub closed spec fn encodes(self, character: char) -> Option<u8> {
        match self.pages {
            Pages::Ascii => if (character as u32) < 0x80 {
                Some(character as u8)
            } else {
                None
            },
            Pages::Tables { decode, encode } => first_match(encode@, character),
        }
    }

    /// A codepage given by its lookups: `decode` holds, by byte, the character
    /// it stands for, and `encode` pairs characters with the bytes that store
    /// them, the first pair of a character deciding. A byte or a character
    /// that is not covered has no counterpart. The two are not checked
    /// against one another.
    pub fn new(decode: Vec<Option<char>>, encode: Vec<(char, u8)>) -> (codepage: Self)
        ensures
            forall|byte: u8| #[trigger]
                codepage.decodes(byte) == (if byte < decode@.len() {
                    decode@[byte as int]
                } else {
                    None
                }),
            forall|character: char| #[trigger]
                codepage.encodes(character) == first_match(encode@, character),
    {
        Codepage { pages: Pages::Tables { decode, encode } }
    }

    /// The ASCII half that all codepages share: a byte below 128 stands for
    /// itself, and nothing else is covered.
    #[allow(non_snake_case)]
    pub fn ASCII() -> (codepage: Self)
        ensures
            codepage == Codepage::spec_ascii(),
    {
        Codepage { pages: Pages::Ascii }
    }

    /// The ASCII codepage.
    pub closed spec fn spec_ascii() -> Codepage {
        Codepage { pages: Pages::Ascii }
    }

    /// What the ASCII codepage covers.
    pub proof fn lemma_ascii()
        ensures
            forall|byte: u8| #[trigger]
                Codepage::spec_ascii().decodes(byte) == (if byte < 0x80 {
                    Some(byte as char)
                } else {
                    None
                }),
            forall|character: char| #[trigger]
                Codepage::spec_ascii().encodes(character) == (if (character as u32) < 0x80 {
                    Some(character as u8)
                } else {
                    None
                }),
    {
    }

    /// The character `byte` stands for, if any.
    pub fn decode(&self, byte: u8) -> (character: Option<char>)
        ensures
            character == self.decodes(byte),
    {
        match &self.pages {
            Pages::Ascii => if byte < 0x80 {
                Some(byte as char)
            } else {
                None
            },
            Pages::Tables { decode, .. } => if (byte as usize) < decode.len() {
                decode[byte as usize]
            } else {
                None
            },
        }
    }

    /// The byte that stores `character`, if any.
    pub fn encode(&self, character: char) -> (byte: Option<u8>)
        ensures
            byte == self.encodes(character),
    {
        match &self.pages {
            Pages::Ascii => if (character as u32) < 0x80 {
                Some(character as u8)
            } else {
                None
            },
            Pages::Tables { encode, .. } => find_pair(encode, character),
        }
    }
}

/// The byte of the first pair that holds `character`.
fn find_pair(pairs: &Vec<(char, u8)>, character: char) -> (byte: Option<u8>)
    ensures
        byte == first_match(pairs@, character),
{
    let mut n: usize = 0;
    assert(pairs@.skip(0) =~= pairs@);
    while n < pairs.len()
        invariant
            n <= pairs@.len(),
            first_match(pairs@, character) == first_match(pairs@.skip(n as int), character),
        decreases pairs@.len() - n,
    {
        assert(pairs@.skip(n as int).skip(1) =~= pairs@.skip(n + 1));
        if pairs[n].0 == character {
            return Some(pairs[n].1);
        }
        n += 1;
    }
    None
}

impl Default for Codepage {
    /// The ASCII half, which all codepages share.
    fn default() -> (codepage: Self)
        ensures
            codepage == Codepage::spec_ascii(),
    {
        Codepage::ASCII()
    }
}

} // verus!
