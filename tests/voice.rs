use asciimusic::error::{AsciiLoadError, GenerateSamplesError, LoadError};
use asciimusic::instrument::Instrument;
use asciimusic::voice::{NoteClock, SongClock, Tick};

fn run(counts: Vec<u64>) -> Vec<Tick> {
    let mut clock = NoteClock::new(counts).unwrap();
    let mut ticks = Vec::new();
    loop {
        let tick = clock.tick();
        if tick == Tick::End {
            assert_eq!(clock.tick(), Tick::End);
            return ticks;
        }
        ticks.push(tick);
    }
}

#[test]
fn single_note_sample_count() {
    // Four ticks a second at 48000 samples a second: a note of two ticks.
    let per_tick = 48000 / 4;
    let ticks = run(vec![per_tick * 2]);
    assert_eq!(ticks.len(), 24000);
    assert_eq!(ticks[0], Tick::Sample { note: 0, started: true, elapsed: 1 });
    assert_eq!(ticks[23999], Tick::Sample { note: 0, started: false, elapsed: 24000 });
}

#[test]
fn notes_follow_one_another() {
    let ticks = run(vec![2, 3]);
    assert_eq!(
        ticks,
        vec![
            Tick::Sample { note: 0, started: true, elapsed: 1 },
            Tick::Sample { note: 0, started: false, elapsed: 2 },
            Tick::Sample { note: 1, started: true, elapsed: 1 },
            Tick::Sample { note: 1, started: false, elapsed: 2 },
            Tick::Sample { note: 1, started: false, elapsed: 3 },
        ]
    );
}

#[test]
fn empty_notes_yield_nothing() {
    assert_eq!(run(vec![0, 0, 1]), vec![Tick::Sample { note: 2, started: true, elapsed: 1 }]);
    assert_eq!(
        run(vec![2, 0, 1]),
        vec![
            Tick::Sample { note: 0, started: true, elapsed: 1 },
            Tick::Sample { note: 0, started: false, elapsed: 2 },
            Tick::Sample { note: 2, started: true, elapsed: 1 },
        ]
    );
    assert_eq!(run(vec![0]).len(), 0);
    assert_eq!(run(vec![3, 0]).len(), 3);
}

#[test]
fn voice_without_notes_is_refused() {
    assert_eq!(NoteClock::new(vec![]).unwrap_err(), GenerateSamplesError::EmptyVoice);
}

#[test]
fn default_instrument_is_square() {
    assert_eq!(Instrument::default(), Instrument::Square);
}

#[test]
fn load_errors_wrap_their_causes() {
    let format = AsciiLoadError::from(String::from("bad note"));
    assert!(matches!(&format, AsciiLoadError::Format(text) if text == "bad note"));
    assert!(matches!(LoadError::from(format), LoadError::Ascii(AsciiLoadError::Format(_))));
    assert!(matches!(
        LoadError::from(GenerateSamplesError::EmptyVoice),
        LoadError::GenerateSamples(GenerateSamplesError::EmptyVoice)
    ));
    let io = std::io::Error::new(std::io::ErrorKind::Other, "disk");
    assert!(matches!(AsciiLoadError::from(io), AsciiLoadError::IO(_)));
    let utf8 = std::str::from_utf8(&[0xff, 0xfe]).unwrap_err();
    assert!(matches!(AsciiLoadError::from(utf8), AsciiLoadError::Utf8(_)));
}

#[test]
fn song_lasts_as_long_as_its_longest_voice() {
    let clocks = vec![NoteClock::new(vec![2]).unwrap(), NoteClock::new(vec![1, 3]).unwrap()];
    let mut song = SongClock::new(clocks);
    let mut steps = Vec::new();
    while let Some(ticks) = song.tick() {
        steps.push(ticks);
    }
    assert_eq!(steps.len(), 4);
    assert_eq!(steps[0], vec![
        Tick::Sample { note: 0, started: true, elapsed: 1 },
        Tick::Sample { note: 0, started: true, elapsed: 1 },
    ]);
    assert_eq!(steps[2], vec![Tick::End, Tick::Sample { note: 1, started: false, elapsed: 2 }]);
    assert_eq!(steps[3], vec![Tick::End, Tick::Sample { note: 1, started: false, elapsed: 3 }]);
    assert_eq!(song.tick(), None);
}
