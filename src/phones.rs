//! Pronunciations in the notation of the CMU pronouncing dictionary: a word,
//! two spaces, then its phones, each written as a name with an optional
//! stress digit (`HYUN  HH AY1 AH0 N`).

use crate::text::{lines_of, push_char, split_on};
use bstr::ByteSlice;
use vstd::prelude::*;

verus! {

/// One of the 39 phones of the CMU pronouncing dictionary.
#[derive(Clone, Copy, Debug, PartialEq, Eq, Hash, Structural)]
pub enum Phone {
    AA,
    AE,
    AH,
    AO,
    AW,
    AY,
    B,
    CH,
    D,
    DH,
    EH,
    ER,
    EY,
    F,
    G,
    HH,
    IH,
    IY,
    JH,
    K,
    L,
    M,
    N,
    NG,
    OW,
    OY,
    P,
    R,
    S,
    SH,
    T,
    TH,
    UH,
    UW,
    V,
    W,
    Y,
    Z,
    ZH,
}

impl Phone {
    /// The phone's name as the dictionary writes it.
    pub open spec fn name(self) -> Seq<char> {
        match self {
            Phone::AA => seq!['A', 'A'],
            Phone::AE => seq!['A', 'E'],
            Phone::AH => seq!['A', 'H'],
            Phone::AO => seq!['A', 'O'],
            Phone::AW => seq!['A', 'W'],
            Phone::AY => seq!['A', 'Y'],
            Phone::B => seq!['B'],
            Phone::CH => seq!['C', 'H'],
            Phone::D => seq!['D'],
            Phone::DH => seq!['D', 'H'],
            Phone::EH => seq!['E', 'H'],
            Phone::ER => seq!['E', 'R'],
            Phone::EY => seq!['E', 'Y'],
            Phone::F => seq!['F'],
            Phone::G => seq!['G'],
            Phone::HH => seq!['H', 'H'],
            Phone::IH => seq!['I', 'H'],
            Phone::IY => seq!['I', 'Y'],
            Phone::JH => seq!['J', 'H'],
            Phone::K => seq!['K'],
            Phone::L => seq!['L'],
            Phone::M => seq!['M'],
            Phone::N => seq!['N'],
            Phone::NG => seq!['N', 'G'],
            Phone::OW => seq!['O', 'W'],
            Phone::OY => seq!['O', 'Y'],
            Phone::P => seq!['P'],
            Phone::R => seq!['R'],
            Phone::S => seq!['S'],
            Phone::SH => seq!['S', 'H'],
            Phone::T => seq!['T'],
            Phone::TH => seq!['T', 'H'],
            Phone::UH => seq!['U', 'H'],
            Phone::UW => seq!['U', 'W'],
            Phone::V => seq!['V'],
            Phone::W => seq!['W'],
            Phone::Y => seq!['Y'],
            Phone::Z => seq!['Z'],
            Phone::ZH => seq!['Z', 'H'],
        }
    }

    /// Vowel phones; the others are consonants.
    pub open spec fn is_vowel(self) -> bool {
        match self {
            Phone::AA | Phone::AE | Phone::AH | Phone::AO | Phone::AW | Phone::AY | Phone::EH | Phone::ER | Phone::EY | Phone::IH | Phone::IY | Phone::OW | Phone::OY | Phone::UH | Phone::UW => true,
            _ => false,
        }
    }

    pub fn contains_vowel(&self) -> (r: bool)
        ensures
            r == self.is_vowel(),
    {
        match self {
            Phone::AA => true,
            Phone::AE => true,
            Phone::AH => true,
            Phone::AO => true,
            Phone::AW => true,
            Phone::AY => true,
            Phone::EH => true,
            Phone::ER => true,
            Phone::EY => true,
            Phone::IH => true,
            Phone::IY => true,
            Phone::OW => true,
            Phone::OY => true,
            Phone::UH => true,
            Phone::UW => true,
            _ => false,
        }
    }

    /// The phone that `raw` names exactly; `None` for any other text.
    pub fn from(raw: &str) -> (r: Option<Phone>)
        ensures
            r == phone_named(raw@),
    {
        let n = raw.unicode_len();
        let r = if n == 1 {
            match raw.get_char(0) {
                'B' => Some(Phone::B),
                'D' => Some(Phone::D),
                'F' => Some(Phone::F),
                'G' => Some(Phone::G),
                'K' => Some(Phone::K),
                'L' => Some(Phone::L),
                'M' => Some(Phone::M),
                'N' => Some(Phone::N),
                'P' => Some(Phone::P),
                'R' => Some(Phone::R),
                'S' => Some(Phone::S),
                'T' => Some(Phone::T),
                'V' => Some(Phone::V),
                'W' => Some(Phone::W),
                'Y' => Some(Phone::Y),
                'Z' => Some(Phone::Z),
                _ => None,
            }
        } else if n == 2 {
            match (raw.get_char(0), raw.get_char(1)) {
                ('A', 'A') => Some(Phone::AA),
                ('A', 'E') => Some(Phone::AE),
                ('A', 'H') => Some(Phone::AH),
                ('A', 'O') => Some(Phone::AO),
                ('A', 'W') => Some(Phone::AW),
                ('A', 'Y') => Some(Phone::AY),
                ('C', 'H') => Some(Phone::CH),
                ('D', 'H') => Some(Phone::DH),
                ('E', 'H') => Some(Phone::EH),
                ('E', 'R') => Some(Phone::ER),
                ('E', 'Y') => Some(Phone::EY),
                ('H', 'H') => Some(Phone::HH),
                ('I', 'H') => Some(Phone::IH),
                ('I', 'Y') => Some(Phone::IY),
                ('J', 'H') => Some(Phone::JH),
                ('N', 'G') => Some(Phone::NG),
                ('O', 'W') => Some(Phone::OW),
                ('O', 'Y') => Some(Phone::OY),
                ('S', 'H') => Some(Phone::SH),
                ('T', 'H') => Some(Phone::TH),
                ('U', 'H') => Some(Phone::UH),
                ('U', 'W') => Some(Phone::UW),
                ('Z', 'H') => Some(Phone::ZH),
                _ => None,
            }
        } else {
            None
        };
        proof {
            if let Some(p) = r {
                assert(raw@ =~= p.name());
            }
            lemma_phone_named(raw@, r);
        }
        r
    }
}

/// The phone whose name is exactly `s`, if any.
pub open spec fn phone_named(s: Seq<char>) -> Option<Phone> {
    if exists|p: Phone| p.name() == s {
        Some(choose|p: Phone| p.name() == s)
    } else {
        None
    }
}

/// Reads a phone's name back, one or two letters at a time.
spec fn decode_name(s: Seq<char>) -> Option<Phone> {
    if s.len() == 1 {
        match s[0] {
            'B' => Some(Phone::B),
            'D' => Some(Phone::D),
            'F' => Some(Phone::F),
            'G' => Some(Phone::G),
            'K' => Some(Phone::K),
            'L' => Some(Phone::L),
            'M' => Some(Phone::M),
            'N' => Some(Phone::N),
            'P' => Some(Phone::P),
            'R' => Some(Phone::R),
            'S' => Some(Phone::S),
            'T' => Some(Phone::T),
            'V' => Some(Phone::V),
            'W' => Some(Phone::W),
            'Y' => Some(Phone::Y),
            'Z' => Some(Phone::Z),
            _ => None,
        }
    } else if s.len() == 2 {
        match (s[0], s[1]) {
            ('A', 'A') => Some(Phone::AA),
            ('A', 'E') => Some(Phone::AE),
            ('A', 'H') => Some(Phone::AH),
            ('A', 'O') => Some(Phone::AO),
            ('A', 'W') => Some(Phone::AW),
            ('A', 'Y') => Some(Phone::AY),
            ('C', 'H') => Some(Phone::CH),
            ('D', 'H') => Some(Phone::DH),
            ('E', 'H') => Some(Phone::EH),
            ('E', 'R') => Some(Phone::ER),
            ('E', 'Y') => Some(Phone::EY),
            ('H', 'H') => Some(Phone::HH),
            ('I', 'H') => Some(Phone::IH),
            ('I', 'Y') => Some(Phone::IY),
            ('J', 'H') => Some(Phone::JH),
            ('N', 'G') => Some(Phone::NG),
            ('O', 'W') => Some(Phone::OW),
            ('O', 'Y') => Some(Phone::OY),
            ('S', 'H') => Some(Phone::SH),
            ('T', 'H') => Some(Phone::TH),
            ('U', 'H') => Some(Phone::UH),
            ('U', 'W') => Some(Phone::UW),
            ('Z', 'H') => Some(Phone::ZH),
            _ => None,
        }
    } else {
        None
    }
}

proof fn lemma_decode_name(p: Phone)
    ensures
        decode_name(p.name()) == Some(p),
{
    match p {
        Phone::AA => {},
        Phone::AE => {},
        Phone::AH => {},
        Phone::AO => {},
        Phone::AW => {},
        Phone::AY => {},
        Phone::B => {},
        Phone::CH => {},
        Phone::D => {},
        Phone::DH => {},
        Phone::EH => {},
        Phone::ER => {},
        Phone::EY => {},
        Phone::F => {},
        Phone::G => {},
        Phone::HH => {},
        Phone::IH => {},
        Phone::IY => {},
        Phone::JH => {},
        Phone::K => {},
        Phone::L => {},
        Phone::M => {},
        Phone::N => {},
        Phone::NG => {},
        Phone::OW => {},
        Phone::OY => {},
        Phone::P => {},
        Phone::R => {},
        Phone::S => {},
        Phone::SH => {},
        Phone::T => {},
        Phone::TH => {},
        Phone::UH => {},
        Phone::UW => {},
        Phone::V => {},
        Phone::W => {},
        Phone::Y => {},
        Phone::Z => {},
        Phone::ZH => {},
    }
}

/// No two phones share a name.
proof fn lemma_name_injective(p: Phone, q: Phone)
    requires
        p.name() == q.name(),
    ensures
        p == q,
{
    lemma_decode_name(p);
    lemma_decode_name(q);
}

/// `r` is what `Phone::from` found for `s`.
proof fn lemma_phone_named(s: Seq<char>, r: Option<Phone>)
    requires
        match r {
            Some(p) => p.name() == s,
            None => forall|p: Phone| p.name() != s,
        },
    ensures
        r == phone_named(s),
{
    if let Some(p) = r {
        let q = choose|q: Phone| q.name() == s;
        lemma_name_injective(p, q);
    }
}

/// How strongly a vowel is stressed.
#[derive(Debug, Clone, Copy, PartialOrd, PartialEq, Eq, Hash, Structural)]
pub enum LexicalStress {
    NoStress,
    Primary,
    Secondary,
}

pub open spec fn is_digit(c: char) -> bool {
    '0' <= c && c <= '9'
}

fn digit(c: char) -> (r: bool)
    ensures
        r == is_digit(c),
{
    '0' <= c && c <= '9'
}

/// Where the first digit of `s` stands; the length of `s` when it has none.
pub open spec fn digit_index(s: Seq<char>) -> nat
    decreases s.len(),
{
    if s.len() == 0 {
        0
    } else if is_digit(s[0]) {
        0
    } else {
        1 + digit_index(s.drop_first())
    }
}

proof fn lemma_digit_index(s: Seq<char>, i: int)
    requires
        0 <= i <= s.len(),
        forall|k: int| 0 <= k < i ==> !is_digit(#[trigger] s[k]),
        i == s.len() || is_digit(s[i]),
    ensures
        digit_index(s) == i,
    decreases i,
{
    if i > 0 {
        assert(!is_digit(s[0]));
        assert forall|k: int| 0 <= k < i - 1 implies !is_digit(#[trigger] s.drop_first()[k]) by {
            assert(s.drop_first()[k] == s[k + 1]);
        }
        lemma_digit_index(s.drop_first(), i - 1);
    }
}

/// The stress that the first digit of `s` marks: `1` primary, `2`
/// secondary, anything else (or no digit) none.
pub open spec fn stress_of(s: Seq<char>) -> LexicalStress {
    let k = digit_index(s);
    if k < s.len() && s[k as int] == '1' {
        LexicalStress::Primary
    } else if k < s.len() && s[k as int] == '2' {
        LexicalStress::Secondary
    } else {
        LexicalStress::NoStress
    }
}

/// The phoneme that `s` writes: the phone named by the text before its
/// first digit, with the stress that digit marks.
pub open spec fn phoneme_of(s: Seq<char>) -> Option<Phoneme> {
    match phone_named(s.take(digit_index(s) as int)) {
        Some(phone) => Some(Phoneme { phone, stress: stress_of(s) }),
        None => None,
    }
}

/// The phonemes written by those of `pieces` that write one, in order.
pub open spec fn phonemes_in(pieces: Seq<Seq<char>>) -> Seq<Phoneme>
    decreases pieces.len(),
{
    if pieces.len() == 0 {
        Seq::empty()
    } else {
        match phoneme_of(pieces.last()) {
            Some(ph) => phonemes_in(pieces.drop_last()).push(ph),
            None => phonemes_in(pieces.drop_last()),
        }
    }
}

/// A phone with its stress.
#[derive(Debug, Clone, Copy, PartialEq, Eq, Hash, Structural)]
pub struct Phoneme {
    pub phone: Phone,
    pub stress: LexicalStress,
}

impl Phoneme {
    /// Reads `AA`, `AA0`, `AA1` or `AA2`, where `AA` is any phone's name.
    pub fn from(phone_and_stress: &str) -> (r: Option<Self>)
        ensures
            r == phoneme_of(phone_and_stress@),
    {
        let ghost s = phone_and_stress@;
        let n = phone_and_stress.unicode_len();
        let mut k: usize = 0;
        while k < n && !digit(phone_and_stress.get_char(k))
            invariant
                s == phone_and_stress@,
                n == s.len(),
                k <= n,
                forall|j: int| 0 <= j < k ==> !is_digit(#[trigger] s[j]),
            decreases n - k,
        {
            k = k + 1;
        }
        proof {
            lemma_digit_index(s, k as int);
        }
        let stress = if k < n {
            let c = phone_and_stress.get_char(k);
            if c == '1' {
                LexicalStress::Primary
            } else if c == '2' {
                LexicalStress::Secondary
            } else {
                LexicalStress::NoStress
            }
        } else {
            LexicalStress::NoStress
        };
        let raw_phone = phone_and_stress.substring_char(0, k);
        assert(raw_phone@ =~= s.take(k as int));
        match Phone::from(raw_phone) {
            Some(phone) => Some(Phoneme { phone, stress }),
            None => None,
        }
    }
}

/// Whether two spaces in a row start at `i` in `s`.
pub open spec fn double_space_at(s: Seq<char>, i: int) -> bool {
    0 <= i && i + 1 < s.len() && s[i] == ' ' && s[i + 1] == ' '
}

/// Where the first two spaces in a row stand in `s`; the length of `s` when
/// there are none.
pub open spec fn double_space_index(s: Seq<char>) -> nat
    decreases s.len(),
{
    if s.len() < 2 {
        s.len()
    } else if s[0] == ' ' && s[1] == ' ' {
        0
    } else {
        1 + double_space_index(s.drop_first())
    }
}

proof fn lemma_double_space_index(s: Seq<char>, i: int)
    requires
        0 <= i <= s.len(),
        forall|j: int| 0 <= j < i ==> !double_space_at(s, j),
        i == s.len() || double_space_at(s, i) || (i + 1 == s.len()),
    ensures
        double_space_index(s) == if double_space_at(s, i) { i } else { s.len() as int },
    decreases i,
{
    if s.len() >= 2 && i > 0 {
        assert(!double_space_at(s, 0));
        assert forall|j: int| 0 <= j < i - 1 implies !double_space_at(s.drop_first(), j) by {
            assert(!double_space_at(s, j + 1));
        }
        if double_space_at(s, i) {
            assert(double_space_at(s.drop_first(), i - 1));
        }
        lemma_double_space_index(s.drop_first(), i - 1);
    }
}

/// The entry that a dictionary line holds: the word before the first two
/// spaces in a row, and the phonemes after them; none without two spaces.
pub open spec fn entry_of(line: Seq<char>) -> Option<(Seq<char>, Seq<Phoneme>)> {
    let k = double_space_index(line);
    if k < line.len() {
        Some((line.take(k as int), phonemes_in(split_on(line.skip(k as int), ' '))))
    } else {
        None
    }
}

/// The number of vowels among `set`.
pub open spec fn vowels_in(set: Seq<Phoneme>) -> nat
    decreases set.len(),
{
    if set.len() == 0 {
        0
    } else {
        vowels_in(set.drop_last()) + if set.last().phone.is_vowel() {
            1nat
        } else {
            0nat
        }
    }
}

/// A word with its pronunciation.
#[derive(Debug, Clone, PartialEq, Eq, Hash)]
pub struct PhonemeSet {
    pub set: Vec<Phoneme>,
    pub word: String,
}

impl PhonemeSet {
    /// Reads one dictionary line: the word before the first two spaces in a
    /// row, the phonemes after them. A line without two spaces in a row is
    /// not an entry.
    pub fn from(raw_line: &str) -> (r: Option<Self>)
        ensures
            match r {
                None => entry_of(raw_line@) is None,
                Some(entry) => entry_of(raw_line@) == Some((entry.word@, entry.set@)),
            },
    {
        let ghost s = raw_line@;
        let n = raw_line.unicode_len();
        if n < 2 {
            return None;
        }
        let mut i: usize = 0;
        while i < n - 1
            invariant
                s == raw_line@,
                n == s.len(),
                n >= 2,
                i <= n - 1,
                forall|j: int| 0 <= j < i ==> !double_space_at(s, j),
            decreases n - 1 - i,
        {
            if raw_line.get_char(i) == ' ' && raw_line.get_char(i + 1) == ' ' {
                let word = raw_line.substring_char(0, i).to_owned();
                let rest = raw_line.substring_char(i, n);
                assert(rest@ =~= s.skip(i as int));
                let set = PhonemeSet::parse_phoneme(rest);
                let entry = PhonemeSet { set, word };
                assert(entry.word@ =~= s.take(i as int));
                proof {
                    lemma_double_space_index(s, i as int);
                }
                return Some(entry);
            }
            i = i + 1;
        }
        proof {
            lemma_double_space_index(s, i as int);
        }
        None
    }

    /// The phonemes written by the space-separated pieces of `raw_line_data`
    /// that write one; other pieces (empty ones included) are skipped.
    fn parse_phoneme(raw_line_data: &str) -> (r: Vec<Phoneme>)
        ensures
            r@ == phonemes_in(split_on(raw_line_data@, ' ')),
    {
        let ghost s = raw_line_data@;
        let n = raw_line_data.unicode_len();
        let mut out: Vec<Phoneme> = Vec::new();
        let ghost mut pieces: Seq<Seq<char>> = Seq::empty();
        let mut start: usize = 0;
        let mut i: usize = 0;
        proof {
            assert(s.take(0) =~= Seq::<char>::empty());
            assert(s.subrange(0, 0) =~= Seq::<char>::empty());
        }
        while i < n
            invariant
                s == raw_line_data@,
                n == s.len(),
                start <= i <= n,
                split_on(s.take(i as int), ' ') == pieces.push(s.subrange(start as int, i as int)),
                out@ == phonemes_in(pieces),
            decreases n - i,
        {
            assert(s.take(i + 1).drop_last() =~= s.take(i as int));
            assert(s.take(i + 1).last() == s[i as int]);
            if raw_line_data.get_char(i) == ' ' {
                let piece = raw_line_data.substring_char(start, i);
                let found = Phoneme::from(piece);
                match found {
                    Some(ph) => out.push(ph),
                    None => {},
                }
                proof {
                    let next = pieces.push(s.subrange(start as int, i as int));
                    assert(next.drop_last() =~= pieces);
                    pieces = next;
                    assert(s.subrange(i + 1, i + 1) =~= Seq::<char>::empty());
                }
                start = i + 1;
            } else {
                proof {
                    assert(s.subrange(start as int, i + 1) =~= s.subrange(start as int, i as int).push(
                        s[i as int],
                    ));
                    assert(pieces.push(s.subrange(start as int, i as int)).update(
                        pieces.len() as int,
                        s.subrange(start as int, i + 1),
                    ) =~= pieces.push(s.subrange(start as int, i + 1)));
                }
            }
            i = i + 1;
        }
        let last = raw_line_data.substring_char(start, n);
        match Phoneme::from(last) {
            Some(ph) => out.push(ph),
            None => {},
        }
        proof {
            assert(s.take(n as int) =~= s);
            assert(pieces.push(s.subrange(start as int, n as int)).drop_last() =~= pieces);
        }
        out
    }

    /// How many of the word's phonemes are vowels.
    pub fn vowel_count(&self) -> (r: usize)
        ensures
            r == vowels_in(self.set@),
    {
        let mut count: usize = 0;
        let mut i: usize = 0;
        while i < self.set.len()
            invariant
                i <= self.set@.len(),
                count == vowels_in(self.set@.take(i as int)),
                count <= i,
            decreases self.set@.len() - i,
        {
            assert(self.set@.take(i + 1).drop_last() =~= self.set@.take(i as int));
            if self.set[i].phone.contains_vowel() {
                count = count + 1;
            }
            i = i + 1;
        }
        assert(self.set@.take(i as int) =~= self.set@);
        count
    }
}

/// The text that `bytes` encode as UTF-8, as `std::str::from_utf8` decodes
/// it; none when they are not valid UTF-8.
pub uninterp spec fn utf8_text(bytes: Seq<u8>) -> Option<Seq<char>>;

/// Relies on `std::str::from_utf8`: the decoded text when the bytes are
/// valid UTF-8 and an error otherwise, which depends on the bytes alone.
#[verifier::external_body]
fn utf8_decode(bytes: &[u8]) -> (r: Option<String>)
    ensures
        match r {
            Some(text) => utf8_text(bytes@) == Some(text@),
            None => utf8_text(bytes@) is None,
        },
{
    std::str::from_utf8(bytes).ok().map(|text| text.to_owned())
}

/// Relies on `bstr::ByteSlice::lines`: the lines of the bytes, each without
/// its `\n` or `\r\n` terminator; a final terminator starts no further line.
#[verifier::external_body]
fn byte_lines(bytes: &[u8]) -> (r: Vec<Vec<u8>>)
    ensures
        r@.map_values(|line: Vec<u8>| line@) == lines_of(bytes@, 10u8, 13u8),
{
    bytes.lines().map(|line| line.to_vec()).collect()
}

/// Each byte read as the character with the same code (ISO-8859-1).
pub open spec fn latin1(bytes: Seq<u8>) -> Seq<char> {
    bytes.map_values(|b: u8| b as char)
}

/// The text of a dictionary line: its UTF-8 reading when it is valid UTF-8,
/// its ISO-8859-1 reading otherwise.
pub open spec fn decoded(bytes: Seq<u8>) -> Seq<char> {
    match utf8_text(bytes) {
        Some(text) => text,
        None => latin1(bytes),
    }
}

fn decode(line: &[u8]) -> (r: String)
    ensures
        r@ == decoded(line@),
{
    match utf8_decode(line) {
        Some(text) => text,
        None => {
            let mut text = String::new();
            let mut i: usize = 0;
            while i < line.len()
                invariant
                    i <= line@.len(),
                    text@ == latin1(line@.take(i as int)),
                decreases line@.len() - i,
            {
                push_char(&mut text, line[i] as char);
                assert(latin1(line@.take(i + 1)) =~= latin1(line@.take(i as int)).push(
                    line@[i as int] as char,
                ));
                i = i + 1;
            }
            assert(line@.take(i as int) =~= line@);
            text
        },
    }
}

/// A comment line of the dictionary starts with three semicolons.
pub open spec fn is_comment(text: Seq<char>) -> bool {
    text.len() >= 3 && text[0] == ';' && text[1] == ';' && text[2] == ';'
}

/// The entries of a dictionary's lines, in order: comment lines and lines
/// that hold no entry are skipped.
pub open spec fn dictionary_of(lines: Seq<Seq<u8>>) -> Seq<(Seq<char>, Seq<Phoneme>)>
    decreases lines.len(),
{
    if lines.len() == 0 {
        Seq::empty()
    } else {
        let text = decoded(lines.last());
        let before = dictionary_of(lines.drop_last());
        if !is_comment(text) && entry_of(text) is Some {
            before.push(entry_of(text)->Some_0)
        } else {
            before
        }
    }
}

/// `entries` holds the words and phonemes of `expected`, in order.
pub open spec fn entries_match(entries: Seq<PhonemeSet>, expected: Seq<(Seq<char>, Seq<Phoneme>)>) -> bool {
    &&& entries.len() == expected.len()
    &&& forall|k: int|
        0 <= k < entries.len() ==> (#[trigger] entries[k]).word@ == expected[k].0 && entries[k].set@
            == expected[k].1
}

fn starts_comment(text: &str) -> (r: bool)
    ensures
        r == is_comment(text@),
{
    text.unicode_len() >= 3 && text.get_char(0) == ';' && text.get_char(1) == ';' && text.get_char(2)
        == ';'
}

/// The entries of a whole dictionary file, in the order of its lines.
pub fn dictionary_entries(contents: &[u8]) -> (r: Vec<PhonemeSet>)
    ensures
        entries_match(r@, dictionary_of(lines_of(contents@, 10u8, 13u8))),
{
    let lines = byte_lines(contents);
    let ghost views = lines@.map_values(|line: Vec<u8>| line@);
    let mut out: Vec<PhonemeSet> = Vec::new();
    let mut i: usize = 0;
    while i < lines.len()
        invariant
            i <= lines@.len(),
            views == lines@.map_values(|line: Vec<u8>| line@),
            entries_match(out@, dictionary_of(views.take(i as int))),
        decreases lines@.len() - i,
    {
        assert(views.take(i + 1).drop_last() =~= views.take(i as int));
        assert(views.take(i + 1).last() == lines@[i as int]@);
        let text = decode(lines[i].as_slice());
        if !starts_comment(text.as_str()) {
            match PhonemeSet::from(text.as_str()) {
                Some(entry) => {
                    let ghost before = out@;
                    out.push(entry);
                    assert(out@[before.len() as int] == entry);
                },
                None => {},
            }
        }
        i = i + 1;
    }
    assert(views.take(i as int) =~= views);
    out
}

} // verus!
