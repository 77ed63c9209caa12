//! Note names in the song text format (Dutch style: `-is` is sharp, `-es` is flat), and
//! notes as a length, a name and an octave.

use vstd::prelude::*;

verus! {

/// Name of a note within an octave; `Rest` is silence.
#[derive(Debug, Clone, Copy, PartialEq, Eq, Structural)]
pub enum NoteName {
    Rest,
    C,
    Cis,
    Cisis,
    Deses,
    Des,
    D,
    Dis,
    Disis,
    Eses,
    Es,
    E,
    Eis,
    Eisis,
    Feses,
    Fes,
    F,
    Fis,
    Fisis,
    Geses,
    Ges,
    G,
    Gis,
    Gisis,
    Ases,
    As,
    A,
    Ais,
    Aisis,
    Beses,
    Bes,
    B,
    Bis,
    Bisis,
    Ceses,
    Ces,
}

/// Semitones above C of a note name.
pub open spec fn exponent_of(name: NoteName) -> int {
    match name {
        NoteName::C => 0,
        NoteName::Cis => 1,
        NoteName::Cisis => 2,
        NoteName::Deses => 0,
        NoteName::Des => 1,
        NoteName::D => 2,
        NoteName::Dis => 3,
        NoteName::Disis => 4,
        NoteName::Eses => 2,
        NoteName::Es => 3,
        NoteName::E => 4,
        NoteName::Eis => 5,
        NoteName::Eisis => 6,
        NoteName::Feses => 3,
        NoteName::Fes => 4,
        NoteName::F => 5,
        NoteName::Fis => 6,
        NoteName::Fisis => 7,
        NoteName::Geses => 5,
        NoteName::Ges => 6,
        NoteName::G => 7,
        NoteName::Gis => 8,
        NoteName::Gisis => 9,
        NoteName::Ases => 7,
        NoteName::As => 8,
        NoteName::A => 9,
        NoteName::Ais => 10,
        NoteName::Aisis => 11,
        NoteName::Beses => 9,
        NoteName::Bes => 10,
        NoteName::B => 11,
        NoteName::Bis => 12,
        NoteName::Bisis => 13,
        NoteName::Ceses => -2,
        NoteName::Ces => -1,
        NoteName::Rest => 0,
    }
}

/// The text of a note name.
pub open spec fn name_text(name: NoteName) -> Seq<char> {
    match name {
        NoteName::Rest => seq!['r'],
        NoteName::C => seq!['c'],
        NoteName::Cis => seq!['c', 'i', 's'],
        NoteName::Cisis => seq!['c', 'i', 's', 'i', 's'],
        NoteName::Deses => seq!['d', 'e', 's', 'e', 's'],
        NoteName::Des => seq!['d', 'e', 's'],
        NoteName::D => seq!['d'],
        NoteName::Dis => seq!['d', 'i', 's'],
        NoteName::Disis => seq!['d', 'i', 's', 'i', 's'],
        NoteName::Eses => seq!['e', 's', 'e', 's'],
        NoteName::Es => seq!['e', 's'],
        NoteName::E => seq!['e'],
        NoteName::Eis => seq!['e', 'i', 's'],
        NoteName::Eisis => seq!['e', 'i', 's', 'i', 's'],
        NoteName::Feses => seq!['f', 'e', 's', 'e', 's'],
        NoteName::Fes => seq!['f', 'e', 's'],
        NoteName::F => seq!['f'],
        NoteName::Fis => seq!['f', 'i', 's'],
        NoteName::Fisis => seq!['f', 'i', 's', 'i', 's'],
        NoteName::Geses => seq!['g', 'e', 's', 'e', 's'],
        NoteName::Ges => seq!['g', 'e', 's'],
        NoteName::G => seq!['g'],
        NoteName::Gis => seq!['g', 'i', 's'],
        NoteName::Gisis => seq!['g', 'i', 's', 'i', 's'],
        NoteName::Ases => seq!['a', 's', 'e', 's'],
        NoteName::As => seq!['a', 's'],
        NoteName::A => seq!['a'],
        NoteName::Ais => seq!['a', 'i', 's'],
        NoteName::Aisis => seq!['a', 'i', 's', 'i', 's'],
        NoteName::Beses => seq!['b', 'e', 's', 'e', 's'],
        NoteName::Bes => seq!['b', 'e', 's'],
        NoteName::B => seq!['b'],
        NoteName::Bis => seq!['b', 'i', 's'],
        NoteName::Bisis => seq!['b', 'i', 's', 'i', 's'],
        NoteName::Ceses => seq!['c', 'e', 's', 'e', 's'],
        NoteName::Ces => seq!['c', 'e', 's'],
    }
}

/// The name that a pitch class (semitones above C, 0 to 11) takes, leaning sharp.
pub open spec fn name_of_pitch_class(p: int) -> NoteName {
    if p == 0 {
        NoteName::C
    } else if p == 1 {
        NoteName::Cis
    } else if p == 2 {
        NoteName::D
    } else if p == 3 {
        NoteName::Dis
    } else if p == 4 {
        NoteName::E
    } else if p == 5 {
        NoteName::F
    } else if p == 6 {
        NoteName::Fis
    } else if p == 7 {
        NoteName::G
    } else if p == 8 {
        NoteName::Gis
    } else if p == 9 {
        NoteName::A
    } else if p == 10 {
        NoteName::Ais
    } else {
        NoteName::B
    }
}

/// A decimal digit.
pub open spec fn is_decimal_digit(c: char) -> bool {
    '0' <= c <= '9'
}

/// A lower case ASCII letter.
pub open spec fn is_lower_letter(c: char) -> bool {
    'a' <= c <= 'z'
}

/// Value of a string of decimal digits.
pub open spec fn decimal(s: Seq<char>) -> nat
    decreases s.len(),
{
    if s.len() == 0 {
        0
    } else {
        decimal(s.drop_last()) * 10 + (s.last() as nat - '0' as nat) as nat
    }
}

/// Whether every character of `s` is a decimal digit.
pub open spec fn all_digits(s: Seq<char>) -> bool {
    forall|i: int| 0 <= i < s.len() ==> is_decimal_digit(#[trigger] s[i])
}

/// End of the run of characters from `from` on that are digits (`digits`) or lower
/// case letters.
pub open spec fn run_end(s: Seq<char>, from: int, digits: bool) -> int
    decreases s.len() - from,
{
    if from < 0 || from >= s.len() {
        from
    } else if (if digits { is_decimal_digit(s[from]) } else { is_lower_letter(s[from]) }) {
        run_end(s, from + 1, digits)
    } else {
        from
    }
}

/// The note name whose text is `t`, if any.
pub open spec fn name_of(t: Seq<char>) -> Option<NoteName> {
    if t == name_text(NoteName::Rest) {
        Some(NoteName::Rest)
    } else if t == name_text(NoteName::C) {
        Some(NoteName::C)
    } else if t == name_text(NoteName::Cis) {
        Some(NoteName::Cis)
    } else if t == name_text(NoteName::Cisis) {
        Some(NoteName::Cisis)
    } else if t == name_text(NoteName::Deses) {
        Some(NoteName::Deses)
    } else if t == name_text(NoteName::Des) {
        Some(NoteName::Des)
    } else if t == name_text(NoteName::D) {
        Some(NoteName::D)
    } else if t == name_text(NoteName::Dis) {
        Some(NoteName::Dis)
    } else if t == name_text(NoteName::Disis) {
        Some(NoteName::Disis)
    } else if t == name_text(NoteName::Eses) {
        Some(NoteName::Eses)
    } else if t == name_text(NoteName::Es) {
        Some(NoteName::Es)
    } else if t == name_text(NoteName::E) {
        Some(NoteName::E)
    } else if t == name_text(NoteName::Eis) {
        Some(NoteName::Eis)
    } else if t == name_text(NoteName::Eisis) {
        Some(NoteName::Eisis)
    } else if t == name_text(NoteName::Feses) {
        Some(NoteName::Feses)
    } else if t == name_text(NoteName::Fes) {
        Some(NoteName::Fes)
    } else if t == name_text(NoteName::F) {
        Some(NoteName::F)
    } else if t == name_text(NoteName::Fis) {
        Some(NoteName::Fis)
    } else if t == name_text(NoteName::Fisis) {
        Some(NoteName::Fisis)
    } else if t == name_text(NoteName::Geses) {
        Some(NoteName::Geses)
    } else if t == name_text(NoteName::Ges) {
        Some(NoteName::Ges)
    } else if t == name_text(NoteName::G) {
        Some(NoteName::G)
    } else if t == name_text(NoteName::Gis) {
        Some(NoteName::Gis)
    } else if t == name_text(NoteName::Gisis) {
        Some(NoteName::Gisis)
    } else if t == name_text(NoteName::Ases) {
        Some(NoteName::Ases)
    } else if t == name_text(NoteName::As) {
        Some(NoteName::As)
    } else if t == name_text(NoteName::A) {
        Some(NoteName::A)
    } else if t == name_text(NoteName::Ais) {
        Some(NoteName::Ais)
    } else if t == name_text(NoteName::Aisis) {
        Some(NoteName::Aisis)
    } else if t == name_text(NoteName::Beses) {
        Some(NoteName::Beses)
    } else if t == name_text(NoteName::Bes) {
        Some(NoteName::Bes)
    } else if t == name_text(NoteName::B) {
        Some(NoteName::B)
    } else if t == name_text(NoteName::Bis) {
        Some(NoteName::Bis)
    } else if t == name_text(NoteName::Bisis) {
        Some(NoteName::Bisis)
    } else if t == name_text(NoteName::Ceses) {
        Some(NoteName::Ceses)
    } else if t == name_text(NoteName::Ces) {
        Some(NoteName::Ces)
    } else {
        None
    }
}

/// The note a text stands for: its length in decimal, then `r` for a rest, or else a
/// name and the octave in decimal. Lengths and octaves above 255 stand for none.
pub open spec fn note_of_text(s: Seq<char>) -> Option<Note> {
    let i = run_end(s, 0, true);
    let j = run_end(s, i, false);
    let length = decimal(s.take(i));
    let name = s.subrange(i, j);
    let octave = s.skip(j);
    if i == 0 || length > 255 {
        None
    } else if name == seq!['r'] {
        if octave.len() == 0 {
            Some(Note { length: length as u8, name: NoteName::Rest, octave: 0 })
        } else {
            None
        }
    } else if octave.len() == 0 || !all_digits(octave) || decimal(octave) > 255 {
        None
    } else {
        match name_of(name) {
            Some(n) => Some(Note { length: length as u8, name: n, octave: decimal(octave) as u8 }),
            None => None,
        }
    }
}

impl NoteName {
    /// Semitones above C of this name.
    pub fn exponent(self) -> (r: i8)
        requires
            self != NoteName::Rest,
        ensures
            r == exponent_of(self),
    {
        match self {
            NoteName::Rest => 0,
            NoteName::C => 0,
            NoteName::Cis => 1,
            NoteName::Cisis => 2,
            NoteName::Deses => 0,
            NoteName::Des => 1,
            NoteName::D => 2,
            NoteName::Dis => 3,
            NoteName::Disis => 4,
            NoteName::Eses => 2,
            NoteName::Es => 3,
            NoteName::E => 4,
            NoteName::Eis => 5,
            NoteName::Eisis => 6,
            NoteName::Feses => 3,
            NoteName::Fes => 4,
            NoteName::F => 5,
            NoteName::Fis => 6,
            NoteName::Fisis => 7,
            NoteName::Geses => 5,
            NoteName::Ges => 6,
            NoteName::G => 7,
            NoteName::Gis => 8,
            NoteName::Gisis => 9,
            NoteName::Ases => 7,
            NoteName::As => 8,
            NoteName::A => 9,
            NoteName::Ais => 10,
            NoteName::Aisis => 11,
            NoteName::Beses => 9,
            NoteName::Bes => 10,
            NoteName::B => 11,
            NoteName::Bis => 12,
            NoteName::Bisis => 13,
            NoteName::Ceses => -2,
            NoteName::Ces => -1,
        }
    }

    /// The name of a pitch class, 0 to 11 semitones above C, leaning sharp.
    fn from_pitch(pitch: u8) -> (r: NoteName)
        requires
            pitch < 12,
        ensures
            r == name_of_pitch_class(pitch as int),
            r != NoteName::Rest,
    {
        match pitch {
            0 => NoteName::C,
            1 => NoteName::Cis,
            2 => NoteName::D,
            3 => NoteName::Dis,
            4 => NoteName::E,
            5 => NoteName::F,
            6 => NoteName::Fis,
            7 => NoteName::G,
            8 => NoteName::Gis,
            9 => NoteName::A,
            10 => NoteName::Ais,
            _ => NoteName::B,
        }
    }

    /// The text of this name, as the song format writes it.
    pub fn name(self) -> (r: &'static str)
        ensures
            r@ == name_text(self),
    {
        match self {
            NoteName::Rest => {
                proof {
                    reveal_strlit("r");
                    assert("r"@ =~= seq!['r']);
                }
                "r"
            },
            NoteName::C => {
                proof {
                    reveal_strlit("c");
                    assert("c"@ =~= seq!['c']);
                }
                "c"
            },
            NoteName::Cis => {
                proof {
                    reveal_strlit("cis");
                    assert("cis"@ =~= seq!['c', 'i', 's']);
                }
                "cis"
            },
            NoteName::Cisis => {
                proof {
                    reveal_strlit("cisis");
                    assert("cisis"@ =~= seq!['c', 'i', 's', 'i', 's']);
                }
                "cisis"
            },
            NoteName::Deses => {
                proof {
                    reveal_strlit("deses");
                    assert("deses"@ =~= seq!['d', 'e', 's', 'e', 's']);
                }
                "deses"
            },
            NoteName::Des => {
                proof {
                    reveal_strlit("des");
                    assert("des"@ =~= seq!['d', 'e', 's']);
                }
                "des"
            },
            NoteName::D => {
                proof {
                    reveal_strlit("d");
                    assert("d"@ =~= seq!['d']);
                }
                "d"
            },
            NoteName::Dis => {
                proof {
                    reveal_strlit("dis");
                    assert("dis"@ =~= seq!['d', 'i', 's']);
                }
                "dis"
            },
            NoteName::Disis => {
                proof {
                    reveal_strlit("disis");
                    assert("disis"@ =~= seq!['d', 'i', 's', 'i', 's']);
                }
                "disis"
            },
            NoteName::Eses => {
                proof {
                    reveal_strlit("eses");
                    assert("eses"@ =~= seq!['e', 's', 'e', 's']);
                }
                "eses"
            },
            NoteName::Es => {
                proof {
                    reveal_strlit("es");
                    assert("es"@ =~= seq!['e', 's']);
                }
                "es"
            },
            NoteName::E => {
                proof {
                    reveal_strlit("e");
                    assert("e"@ =~= seq!['e']);
                }
                "e"
            },
            NoteName::Eis => {
                proof {
                    reveal_strlit("eis");
                    assert("eis"@ =~= seq!['e', 'i', 's']);
                }
                "eis"
            },
            NoteName::Eisis => {
                proof {
                    reveal_strlit("eisis");
                    assert("eisis"@ =~= seq!['e', 'i', 's', 'i', 's']);
                }
                "eisis"
            },
            NoteName::Feses => {
                proof {
                    reveal_strlit("feses");
                    assert("feses"@ =~= seq!['f', 'e', 's', 'e', 's']);
                }
                "feses"
            },
            NoteName::Fes => {
                proof {
                    reveal_strlit("fes");
                    assert("fes"@ =~= seq!['f', 'e', 's']);
                }
                "fes"
            },
            NoteName::F => {
                proof {
                    reveal_strlit("f");
                    assert("f"@ =~= seq!['f']);
                }
                "f"
            },
            NoteName::Fis => {
                proof {
                    reveal_strlit("fis");
                    assert("fis"@ =~= seq!['f', 'i', 's']);
                }
                "fis"
            },
            NoteName::Fisis => {
                proof {
                    reveal_strlit("fisis");
                    assert("fisis"@ =~= seq!['f', 'i', 's', 'i', 's']);
                }
                "fisis"
            },
            NoteName::Geses => {
                proof {
                    reveal_strlit("geses");
                    assert("geses"@ =~= seq!['g', 'e', 's', 'e', 's']);
                }
                "geses"
            },
            NoteName::Ges => {
                proof {
                    reveal_strlit("ges");
                    assert("ges"@ =~= seq!['g', 'e', 's']);
                }
                "ges"
            },
            NoteName::G => {
                proof {
                    reveal_strlit("g");
                    assert("g"@ =~= seq!['g']);
                }
                "g"
            },
            NoteName::Gis => {
                proof {
                    reveal_strlit("gis");
                    assert("gis"@ =~= seq!['g', 'i', 's']);
                }
                "gis"
            },
            NoteName::Gisis => {
                proof {
                    reveal_strlit("gisis");
                    assert("gisis"@ =~= seq!['g', 'i', 's', 'i', 's']);
                }
                "gisis"
            },
            NoteName::Ases => {
                proof {
                    reveal_strlit("ases");
                    assert("ases"@ =~= seq!['a', 's', 'e', 's']);
                }
                "ases"
            },
            NoteName::As => {
                proof {
                    reveal_strlit("as");
                    assert("as"@ =~= seq!['a', 's']);
                }
                "as"
            },
            NoteName::A => {
                proof {
                    reveal_strlit("a");
                    assert("a"@ =~= seq!['a']);
                }
                "a"
            },
            NoteName::Ais => {
                proof {
                    reveal_strlit("ais");
                    assert("ais"@ =~= seq!['a', 'i', 's']);
                }
                "ais"
            },
            NoteName::Aisis => {
                proof {
                    reveal_strlit("aisis");
                    assert("aisis"@ =~= seq!['a', 'i', 's', 'i', 's']);
                }
                "aisis"
            },
            NoteName::Beses => {
                proof {
                    reveal_strlit("beses");
                    assert("beses"@ =~= seq!['b', 'e', 's', 'e', 's']);
                }
                "beses"
            },
            NoteName::Bes => {
                proof {
                    reveal_strlit("bes");
                    assert("bes"@ =~= seq!['b', 'e', 's']);
                }
                "bes"
            },
            NoteName::B => {
                proof {
                    reveal_strlit("b");
                    assert("b"@ =~= seq!['b']);
                }
                "b"
            },
            NoteName::Bis => {
                proof {
                    reveal_strlit("bis");
                    assert("bis"@ =~= seq!['b', 'i', 's']);
                }
                "bis"
            },
            NoteName::Bisis => {
                proof {
                    reveal_strlit("bisis");
                    assert("bisis"@ =~= seq!['b', 'i', 's', 'i', 's']);
                }
                "bisis"
            },
            NoteName::Ceses => {
                proof {
                    reveal_strlit("ceses");
                    assert("ceses"@ =~= seq!['c', 'e', 's', 'e', 's']);
                }
                "ceses"
            },
            NoteName::Ces => {
                proof {
                    reveal_strlit("ces");
                    assert("ces"@ =~= seq!['c', 'e', 's']);
                }
                "ces"
            },
        }
    }

    /// The name whose text is `s`.
    pub fn from_str(s: &str) -> (r: Result<NoteName, NoSuchNoteName>)
        ensures
            r is Ok <==> name_of(s@) is Some,
            r is Ok ==> name_of(s@) == Some(r->Ok_0),
    {
        if same_text(s, NoteName::Rest.name()) {
            Ok(NoteName::Rest)
        } else if same_text(s, NoteName::C.name()) {
            Ok(NoteName::C)
        } else if same_text(s, NoteName::Cis.name()) {
            Ok(NoteName::Cis)
        } else if same_text(s, NoteName::Cisis.name()) {
            Ok(NoteName::Cisis)
        } else if same_text(s, NoteName::Deses.name()) {
            Ok(NoteName::Deses)
        } else if same_text(s, NoteName::Des.name()) {
            Ok(NoteName::Des)
        } else if same_text(s, NoteName::D.name()) {
            Ok(NoteName::D)
        } else if same_text(s, NoteName::Dis.name()) {
            Ok(NoteName::Dis)
        } else if same_text(s, NoteName::Disis.name()) {
            Ok(NoteName::Disis)
        } else if same_text(s, NoteName::Eses.name()) {
            Ok(NoteName::Eses)
        } else if same_text(s, NoteName::Es.name()) {
            Ok(NoteName::Es)
        } else if same_text(s, NoteName::E.name()) {
            Ok(NoteName::E)
        } else if same_text(s, NoteName::Eis.name()) {
            Ok(NoteName::Eis)
        } else if same_text(s, NoteName::Eisis.name()) {
            Ok(NoteName::Eisis)
        } else if same_text(s, NoteName::Feses.name()) {
            Ok(NoteName::Feses)
        } else if same_text(s, NoteName::Fes.name()) {
            Ok(NoteName::Fes)
        } else if same_text(s, NoteName::F.name()) {
            Ok(NoteName::F)
        } else if same_text(s, NoteName::Fis.name()) {
            Ok(NoteName::Fis)
        } else if same_text(s, NoteName::Fisis.name()) {
            Ok(NoteName::Fisis)
        } else if same_text(s, NoteName::Geses.name()) {
            Ok(NoteName::Geses)
        } else if same_text(s, NoteName::Ges.name()) {
            Ok(NoteName::Ges)
        } else if same_text(s, NoteName::G.name()) {
            Ok(NoteName::G)
        } else if same_text(s, NoteName::Gis.name()) {
            Ok(NoteName::Gis)
        } else if same_text(s, NoteName::Gisis.name()) {
            Ok(NoteName::Gisis)
        } else if same_text(s, NoteName::Ases.name()) {
            Ok(NoteName::Ases)
        } else if same_text(s, NoteName::As.name()) {
            Ok(NoteName::As)
        } else if same_text(s, NoteName::A.name()) {
            Ok(NoteName::A)
        } else if same_text(s, NoteName::Ais.name()) {
            Ok(NoteName::Ais)
        } else if same_text(s, NoteName::Aisis.name()) {
            Ok(NoteName::Aisis)
        } else if same_text(s, NoteName::Beses.name()) {
            Ok(NoteName::Beses)
        } else if same_text(s, NoteName::Bes.name()) {
            Ok(NoteName::Bes)
        } else if same_text(s, NoteName::B.name()) {
            Ok(NoteName::B)
        } else if same_text(s, NoteName::Bis.name()) {
            Ok(NoteName::Bis)
        } else if same_text(s, NoteName::Bisis.name()) {
            Ok(NoteName::Bisis)
        } else if same_text(s, NoteName::Ceses.name()) {
            Ok(NoteName::Ceses)
        } else if same_text(s, NoteName::Ces.name()) {
            Ok(NoteName::Ces)
        } else {
            Err(NoSuchNoteName)
        }
    }
}

/// Read a decimal number of at most three digits' worth (up to 255) from `from` on,
/// stopping at the first character that is no digit.
fn read_decimal(s: &str, from: usize) -> (r: (Option<u8>, usize))
    requires
        from <= s@.len(),
    ensures
        r.1 == run_end(s@, from as int, true),
        r.1 <= s@.len(),
        all_digits(s@.subrange(from as int, r.1 as int)),
        r.0 is Some <==> decimal(s@.subrange(from as int, r.1 as int)) <= 255,
        r.0 is Some ==> r.0->Some_0 == decimal(s@.subrange(from as int, r.1 as int)),
{
    let n = s.unicode_len();
    let mut i = from;
    let mut value: u32 = 0;
    let mut fits = true;
    while i < n && is_digit_char(s.get_char(i))
        invariant
            from <= i <= n,
            n == s@.len(),
            run_end(s@, from as int, true) == run_end(s@, i as int, true),
            all_digits(s@.subrange(from as int, i as int)),
            fits ==> value == decimal(s@.subrange(from as int, i as int)) && value <= 255,
            !fits ==> decimal(s@.subrange(from as int, i as int)) > 255,
        decreases n - i,
    {
        let c = s.get_char(i);
        let ghost before = s@.subrange(from as int, i as int);
        let ghost after = s@.subrange(from as int, i + 1);
        proof {
            assert(after.drop_last() =~= before);
            assert(after.last() == c);
            assert(all_digits(after)) by {
                assert forall|k: int| 0 <= k < after.len() implies is_decimal_digit(#[trigger] after[k]) by {
                    if k < before.len() {
                        assert(after[k] == before[k]);
                    }
                }
            }
        }
        if fits {
            value = value * 10 + (c as u32 - '0' as u32);
            if value > 255 {
                fits = false;
            }
        } else {
            proof {
                assert(decimal(after) >= decimal(before) * 10) by (nonlinear_arith)
                    requires
                        decimal(after) == decimal(before) * 10 + (c as nat - '0' as nat) as nat,
                        c as nat >= '0' as nat,
                ;
            }
        }
        i = i + 1;
    }
    if fits {
        (Some(value as u8), i)
    } else {
        (None, i)
    }
}

/// End of the run of lower case letters from `from` on.
fn letter_run_end(s: &str, from: usize) -> (r: usize)
    requires
        from <= s@.len(),
    ensures
        r == run_end(s@, from as int, false),
        from <= r <= s@.len(),
{
    let n = s.unicode_len();
    let mut i = from;
    while i < n && is_letter_char(s.get_char(i))
        invariant
            from <= i <= n,
            n == s@.len(),
            run_end(s@, from as int, false) == run_end(s@, i as int, false),
        decreases n - i,
    {
        i = i + 1;
    }
    i
}

fn is_digit_char(c: char) -> (r: bool)
    ensures
        r == is_decimal_digit(c),
{
    c >= '0' && c <= '9'
}

fn is_letter_char(c: char) -> (r: bool)
    ensures
        r == is_lower_letter(c),
{
    c >= 'a' && c <= 'z'
}

/// A run ends at the end of the text or at a character outside it.
proof fn lemma_run_stops(s: Seq<char>, from: int, digits: bool)
    requires
        0 <= from <= s.len(),
    ensures
        from <= run_end(s, from, digits) <= s.len(),
        run_end(s, from, digits) < s.len() ==> !(if digits {
            is_decimal_digit(s[run_end(s, from, digits)])
        } else {
            is_lower_letter(s[run_end(s, from, digits)])
        }),
    decreases s.len() - from,
{
    if from < s.len() && (if digits { is_decimal_digit(s[from]) } else { is_lower_letter(s[from]) }) {
        lemma_run_stops(s, from + 1, digits);
    }
}

/// Whether two strings hold the same characters.
fn same_text(a: &str, b: &str) -> (r: bool)
    ensures
        r == (a@ == b@),
{
    let n = a.unicode_len();
    if n != b.unicode_len() {
        return false;
    }
    let mut i: usize = 0;
    while i < n
        invariant
            i <= n,
            n == a@.len(),
            n == b@.len(),
            forall|k: int| 0 <= k < i ==> a@[k] == b@[k],
        decreases n - i,
    {
        if a.get_char(i) != b.get_char(i) {
            return false;
        }
        i = i + 1;
    }
    proof {
        assert(a@ =~= b@);
    }
    true
}

/// No note name has the text that was given.
#[derive(Debug)]
pub struct NoSuchNoteName;

/// A note: how many ticks it lasts, its name, and its octave.
#[derive(Debug, Copy, Clone)]
pub struct Note {
    pub length: u8,
    pub name: NoteName,
    pub octave: u8,
}

/// Semitones above C0 of a note that is not a rest.
pub open spec fn pitch_of(note: Note) -> int {
    exponent_of(note.name) + note.octave * 12
}

impl Note {
    /// The pitch as an 8-bit integer: `None` for a rest, 0 for C0, 1 for Cis0, and so on.
    /// Pitches below C0 (Ceses0, Ces0) wrap around to the top of the byte.
    pub fn pitch(self) -> (r: Option<u8>)
        requires
            self.name != NoteName::Rest ==> self.octave * 12 + exponent_of(self.name) <= 127,
        ensures
            self.name == NoteName::Rest ==> r is None,
            self.name != NoteName::Rest ==> r == Some(
                (if pitch_of(self) < 0 { pitch_of(self) + 256 } else { pitch_of(self) }) as u8,
            ),
    {
        match self.name {
            NoteName::Rest => None,
            name => {
                let v: i8 = name.exponent() + self.octave as i8 * 12;
                if v < 0 {
                    Some((v as i16 + 256) as u8)
                } else {
                    Some(v as u8)
                }
            },
        }
    }

    /// Read a note from its text, such as `4cis5` (four ticks of C sharp in octave five)
    /// or `2r` (a rest of two ticks).
    pub fn from_text(s: &str) -> (r: Option<Note>)
        ensures
            r == note_of_text(s@),
    {
        let n = s.unicode_len();
        let (length, i) = read_decimal(s, 0);
        let j = letter_run_end(s, i);
        proof {
            assert(s@.take(i as int) =~= s@.subrange(0, i as int));
        }
        if i == 0 {
            return None;
        }
        let length = match length {
            Some(v) => v,
            None => {
                return None;
            },
        };
        let name = s.substring_char(i, j);
        let (octave, k) = read_decimal(s, j);
        proof {
            assert(s@.skip(j as int) =~= s@.subrange(j as int, n as int));
        }
        if same_text(name, "r") {
            proof {
                reveal_strlit("r");
                assert("r"@ =~= seq!['r']);
            }
            if j == n {
                return Some(Note { length, name: NoteName::Rest, octave: 0 });
            } else {
                return None;
            }
        }
        proof {
            reveal_strlit("r");
            assert("r"@ =~= seq!['r']);
        }
        if j == n || k != n {
            proof {
                if j < n {
                    lemma_run_stops(s@, j as int, true);
                    let octave_text = s@.skip(j as int);
                    assert(j <= k < n);
                    assert(octave_text[k - j] == s@[k as int]);
                    assert(!is_decimal_digit(octave_text[k - j]));
                }
            }
            return None;
        }
        let octave = match octave {
            Some(v) => v,
            None => {
                return None;
            },
        };
        match NoteName::from_str(name) {
            Ok(name) => Some(Note { length, name, octave }),
            Err(_) => None,
        }
    }

    /// A note of the given length and pitch (`None` for a rest).
    pub fn from_length_pitch(length: u8, pitch: Option<u8>) -> (r: Note)
        ensures
            r.length == length,
            pitch is None ==> r.name == NoteName::Rest && r.octave == 0,
            pitch is Some ==> r.name == name_of_pitch_class(pitch->Some_0 as int % 12) && r.octave
                == pitch->Some_0 / 12,
    {
        match pitch {
            Some(p) => Note { length, name: NoteName::from_pitch(p % 12), octave: p / 12 },
            None => Note { length, name: NoteName::Rest, octave: 0 },
        }
    }
}

/// A sequence of notes.
#[derive(Debug, Clone)]
pub struct Notes(pub Vec<Note>);

} // verus!
