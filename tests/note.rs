use asciimusic::note::{Note, NoteName};

#[test]
fn note_name_exponents() {
    assert_eq!(NoteName::C.exponent(), 0);
    assert_eq!(NoteName::Cis.exponent(), 1);
    assert_eq!(NoteName::Des.exponent(), 1);
    assert_eq!(NoteName::B.exponent(), 11);
    assert_eq!(NoteName::Bisis.exponent(), 13);
    assert_eq!(NoteName::Ceses.exponent(), -2);
    assert_eq!(NoteName::Feses.exponent(), 3);
}

#[test]
fn note_name_text_round_trip() {
    let names = [
        NoteName::Rest, NoteName::C, NoteName::Cis, NoteName::Cisis, NoteName::Deses, NoteName::Des,
        NoteName::D, NoteName::Dis, NoteName::Disis, NoteName::Eses, NoteName::Es, NoteName::E,
        NoteName::Eis, NoteName::Eisis, NoteName::Feses, NoteName::Fes, NoteName::F, NoteName::Fis,
        NoteName::Fisis, NoteName::Geses, NoteName::Ges, NoteName::G, NoteName::Gis, NoteName::Gisis,
        NoteName::Ases, NoteName::As, NoteName::A, NoteName::Ais, NoteName::Aisis, NoteName::Beses,
        NoteName::Bes, NoteName::B, NoteName::Bis, NoteName::Bisis, NoteName::Ceses, NoteName::Ces,
    ];
    for name in names {
        assert_eq!(NoteName::from_str(name.name()).unwrap(), name);
    }
    assert_eq!(NoteName::Rest.name(), "r");
    assert_eq!(NoteName::Aisis.name(), "aisis");
}

#[test]
fn unknown_note_name_is_refused() {
    assert!(NoteName::from_str("h").is_err());
    assert!(NoteName::from_str("").is_err());
    assert!(NoteName::from_str("C").is_err());
    assert!(NoteName::from_str("ciss").is_err());
}

#[test]
fn note_pitch() {
    assert_eq!(Note { length: 1, name: NoteName::Rest, octave: 3 }.pitch(), None);
    assert_eq!(Note { length: 1, name: NoteName::C, octave: 0 }.pitch(), Some(0));
    assert_eq!(Note { length: 1, name: NoteName::A, octave: 4 }.pitch(), Some(57));
    assert_eq!(Note { length: 1, name: NoteName::Bis, octave: 9 }.pitch(), Some(120));
    assert_eq!(Note { length: 1, name: NoteName::Ceses, octave: 0 }.pitch(), Some(254));
}

#[test]
fn note_from_length_pitch() {
    let note = Note::from_length_pitch(4, Some(57));
    assert_eq!((note.length, note.name, note.octave), (4, NoteName::A, 4));
    let note = Note::from_length_pitch(2, Some(13));
    assert_eq!((note.length, note.name, note.octave), (2, NoteName::Cis, 1));
    let rest = Note::from_length_pitch(3, None);
    assert_eq!((rest.length, rest.name, rest.octave), (3, NoteName::Rest, 0));
    assert_eq!(Note::from_length_pitch(1, Some(70)).pitch(), Some(70));
}

fn parts(note: Option<Note>) -> Option<(u8, NoteName, u8)> {
    note.map(|n| (n.length, n.name, n.octave))
}

#[test]
fn note_text_is_read() {
    assert_eq!(parts(Note::from_text("4cis5")), Some((4, NoteName::Cis, 5)));
    assert_eq!(parts(Note::from_text("2r")), Some((2, NoteName::Rest, 0)));
    assert_eq!(parts(Note::from_text("16ases3")), Some((16, NoteName::Ases, 3)));
    assert_eq!(parts(Note::from_text("004c04")), Some((4, NoteName::C, 4)));
    assert_eq!(parts(Note::from_text("255b255")), Some((255, NoteName::B, 255)));
}

#[test]
fn malformed_note_text_is_refused() {
    for text in ["", "r", "c4", "2r1", "4h4", "4c", "300c4", "4c256", "4cisisis4", "4C4", "4c4x", "4 c4"] {
        assert!(Note::from_text(text).is_none(), "{}", text);
    }
}
