use soundmaker::midi::{EventKind, MidiMsg, MsgType, SmfEvent};
use soundmaker::score::{Bar, Dynamic, Key, Note, Score, Section};

#[test]
fn note_degree_wraps_at_seven() {
    let n = Note::new(480, 9, 4, None);
    assert_eq!(n.pitch, 2);
    assert_eq!(n.length, 480);
    assert_eq!(n.octave, 4);
}

#[test]
fn key_places_degrees() {
    let major = Key::new(0, true);
    let minor = Key::new(0, false);
    assert_eq!(Key::gen_scale(true), [0, 2, 4, 5, 7, 9, 11]);
    assert_eq!(Key::gen_scale(false), [0, 2, 3, 5, 7, 8, 11]);
    assert_eq!(major.midi(&Note::new(1, 2, 5, None)), 64);
    assert_eq!(minor.midi(&Note::new(1, 2, 5, None)), 63);
    assert_eq!(major.midi(&Note::new(1, 2, 5, Some(true))), 65);
    assert_eq!(major.midi(&Note::new(1, 2, 5, Some(false))), 63);
}

#[test]
fn key_tonic_shifts_notes() {
    let d = Key::new(2, true);
    assert_eq!(d.midi(&Note::new(1, 0, 4, None)), 50);
}

#[test]
fn dynamics_give_velocities() {
    assert_eq!(Dynamic::Piano.velocity(), 52);
    assert_eq!(Dynamic::MezzoPiano.velocity(), 77);
    assert_eq!(Dynamic::MezzoForte.velocity(), 102);
    assert_eq!(Dynamic::Forte.velocity(), 127);
}

fn ev(delta: u32, kind: EventKind) -> SmfEvent {
    SmfEvent { delta, kind }
}

fn two_voice_score() -> Score<2> {
    let key = Key::new(60, true);
    let mut first = Bar::<2>::new(4, 500_000, key, Dynamic::Forte);
    first.add_note(0, 0, Note::new(480, 0, 0, None));
    first.add_note(0, 480, Note::new(240, 2, 0, None));
    first.add_note(1, 0, Note::new(960, 4, 0, None));
    let mut second = Bar::<2>::new(2, 250_000, key, Dynamic::Piano);
    second.add_note(0, 0, Note::new(960, 0, 1, Some(true)));
    Score::from_sections(vec![Section::from_bars(vec![first, second])])
}

#[test]
fn score_writes_one_track_per_voice() {
    let file = two_voice_score().to_midi();
    assert_eq!(file.ticks_per_quarter, 480);
    let tracks = file.tracks;
    assert_eq!(tracks.len(), 2);
    assert_eq!(
        tracks[0],
        vec![
            ev(0, EventKind::Tempo(500_000)),
            ev(0, EventKind::NoteOn { key: 60, vel: 127 }),
            ev(480, EventKind::NoteOff { key: 60 }),
            ev(0, EventKind::NoteOn { key: 64, vel: 127 }),
            ev(240, EventKind::NoteOff { key: 64 }),
            ev(1200, EventKind::Tempo(250_000)),
            ev(0, EventKind::NoteOn { key: 73, vel: 52 }),
            ev(960, EventKind::NoteOff { key: 73 }),
            ev(0, EventKind::EndOfTrack),
        ]
    );
    assert_eq!(
        tracks[1],
        vec![
            ev(0, EventKind::Tempo(500_000)),
            ev(0, EventKind::NoteOn { key: 67, vel: 127 }),
            ev(960, EventKind::NoteOff { key: 67 }),
            ev(960, EventKind::Tempo(250_000)),
            ev(0, EventKind::EndOfTrack),
        ]
    );
}

#[test]
fn score_tracks_read_back_at_absolute_ticks() {
    let tracks = two_voice_score().to_midi().tracks;
    let msgs = MidiMsg::convert_track(&tracks[1]);
    assert_eq!(
        msgs,
        vec![
            MidiMsg::new(MsgType::Tempo(500_000), 0),
            MidiMsg::new(MsgType::NoteOn(67, 127), 0),
            MidiMsg::new(MsgType::NoteOff(67), 960),
            MidiMsg::new(MsgType::Tempo(250_000), 1920),
        ]
    );
}

#[test]
fn empty_score_writes_empty_tracks() {
    let score: Score<3> = Score::from_sections(vec![]);
    let tracks = score.to_midi().tracks;
    assert_eq!(tracks, vec![vec![ev(0, EventKind::EndOfTrack)]; 3]);
}
