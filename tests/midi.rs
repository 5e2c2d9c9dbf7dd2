use soundmaker::midi::{
    render_length, EventKind, MidiMsg, MidiWrapper, MsgType, SampleTime, SmfEvent, DEFAULT_TEMPO,
};
use soundmaker::smf::{load_midi, read_smf, MidiError};
use midly::{Format, Header, MetaMessage, MidiMessage, Smf, Timing, TrackEvent, TrackEventKind};

fn ev(delta: u32, kind: EventKind) -> SmfEvent {
    SmfEvent { delta, kind }
}

fn at(sample: u64, rate: u32) -> SampleTime {
    SampleTime { sample, rate }
}

#[test]
fn track_conversion_accumulates_ticks() {
    let track = vec![
        ev(0, EventKind::Tempo(1_000_000)),
        ev(10, EventKind::NoteOn { key: 60, vel: 100 }),
        ev(5, EventKind::Other),
        ev(5, EventKind::NoteOn { key: 60, vel: 0 }),
        ev(20, EventKind::NoteOff { key: 64 }),
    ];
    let msgs = MidiMsg::convert_track(&track);
    assert_eq!(
        msgs,
        vec![
            MidiMsg::new(MsgType::Tempo(1_000_000), 0),
            MidiMsg::new(MsgType::NoteOn(60, 100), 10),
            MidiMsg::new(MsgType::NoteOff(60), 20),
            MidiMsg::new(MsgType::NoteOff(64), 40),
        ]
    );
}

#[test]
fn sort_keeps_order_of_equal_ticks() {
    let msgs = vec![
        MidiMsg::new(MsgType::NoteOn(1, 1), 30),
        MidiMsg::new(MsgType::NoteOn(2, 1), 10),
        MidiMsg::new(MsgType::NoteOn(3, 1), 30),
        MidiMsg::new(MsgType::NoteOn(4, 1), 10),
    ];
    let sorted = MidiMsg::sort_by_ticks(msgs);
    let pitches: Vec<u8> = sorted
        .iter()
        .map(|m| match m.kind {
            MsgType::NoteOn(p, _) => p,
            _ => 0,
        })
        .collect();
    assert_eq!(pitches, vec![2, 4, 1, 3]);
}

#[test]
fn tempo_changes_are_shared() {
    let a = vec![
        MidiMsg::new(MsgType::Tempo(400_000), 0),
        MidiMsg::new(MsgType::NoteOn(60, 90), 0),
        MidiMsg::new(MsgType::Tempo(300_000), 100),
    ];
    let b = vec![MidiMsg::new(MsgType::NoteOn(62, 90), 50)];
    let r = MidiMsg::distributed_tempos(vec![a, b]);
    assert_eq!(
        r[0],
        vec![
            MidiMsg::new(MsgType::Tempo(400_000), 0),
            MidiMsg::new(MsgType::NoteOn(60, 90), 0),
            MidiMsg::new(MsgType::Tempo(300_000), 100),
        ]
    );
    assert_eq!(
        r[1],
        vec![
            MidiMsg::new(MsgType::Tempo(400_000), 0),
            MidiMsg::new(MsgType::NoteOn(62, 90), 50),
            MidiMsg::new(MsgType::Tempo(300_000), 100),
        ]
    );
}

#[test]
fn each_track_holds_each_tempo_change_once() {
    let a = vec![MidiMsg::new(MsgType::Tempo(400_000), 0)];
    let b = vec![MidiMsg::new(MsgType::Tempo(300_000), 10), MidiMsg::new(MsgType::NoteOn(62, 90), 10)];
    let c = vec![MidiMsg::new(MsgType::NoteOff(62), 5)];
    let r = MidiMsg::distributed_tempos(vec![a, b, c]);
    let t4 = MidiMsg::new(MsgType::Tempo(400_000), 0);
    let t3 = MidiMsg::new(MsgType::Tempo(300_000), 10);
    assert_eq!(r[0], vec![t4, t3]);
    assert_eq!(r[1], vec![t4, t3, MidiMsg::new(MsgType::NoteOn(62, 90), 10)]);
    assert_eq!(r[2], vec![t4, MidiMsg::new(MsgType::NoteOff(62), 5), t3]);
}

#[test]
fn duration_at_default_tempo() {
    // 960 ticks at 120 beats per minute take one second.
    assert_eq!(DEFAULT_TEMPO, 500_000);
    assert_eq!(MidiMsg::calc_duration(&vec![], 960), 1_000_000_000);
}

#[test]
fn duration_across_tempo_changes() {
    let tempos = vec![MidiMsg::new(MsgType::Tempo(250_000), 480)];
    // 480 ticks at 500000 us per quarter, then 480 at 250000.
    assert_eq!(MidiMsg::calc_duration(&tempos, 960), 750_000_000);
    let slow = vec![MidiMsg::new(MsgType::Tempo(1_000_000), 0)];
    assert_eq!(MidiMsg::calc_duration(&slow, 480), 1_000_000_000);
    assert_eq!(MidiMsg::calc_duration(&slow, 1), 2_083_333);
}

#[test]
fn convert_smf_measures_to_last_message() {
    let a = vec![MidiMsg::new(MsgType::NoteOn(60, 90), 0), MidiMsg::new(MsgType::NoteOff(60), 1920)];
    let b = vec![MidiMsg::new(MsgType::Tempo(250_000), 960)];
    let (tracks, d) = MidiMsg::convert_smf(vec![a, b]);
    assert_eq!(tracks.len(), 2);
    assert_eq!(tracks[0].len(), 3);
    assert_eq!(d, 1_500_000_000);
    let (none, zero) = MidiMsg::convert_smf(vec![]);
    assert!(none.is_empty());
    assert_eq!(zero, 0);
}

#[test]
fn render_length_adds_silence_and_rounds() {
    assert_eq!(render_length(1_000_000_000, 48_000), 288_000);
    assert_eq!(render_length(0, 44_100), 220_500);
    // 5.00001 s at 100 Hz is 500.001 samples.
    assert_eq!(render_length(10_000, 100), 500);
    assert_eq!(render_length(5_000_000, 100), 501);
}

#[test]
fn reader_hands_out_due_messages() {
    let msgs = vec![
        MidiMsg::new(MsgType::NoteOn(60, 100), 0),
        MidiMsg::new(MsgType::NoteOn(64, 90), 96),
        MidiMsg::new(MsgType::NoteOff(60), 96),
        MidiMsg::new(MsgType::NoteOff(64), 200),
    ];
    let mut w = MidiWrapper::new(msgs);
    assert_eq!(w.tick(at(0, 1000)), (vec![], vec![(60, 100)]));
    // 960 ticks per second: tick 95 at 99 ms, tick 96 at 100 ms.
    assert_eq!(w.tick(at(99, 1000)), (vec![], vec![]));
    assert_eq!(w.tick(at(100, 1000)), (vec![60], vec![(64, 90)]));
    assert_eq!(w.tick(at(100, 1000)), (vec![], vec![]));
    w.reset();
    assert_eq!(w.tick(at(1, 1)), (vec![60, 64], vec![(60, 100), (64, 90)]));
}

#[test]
fn tempo_change_reanchors_the_map() {
    let msgs = vec![
        MidiMsg::new(MsgType::Tempo(1_000_000), 0),
        MidiMsg::new(MsgType::NoteOn(60, 100), 480),
    ];
    let mut w = MidiWrapper::new(msgs);
    assert_eq!(w.tick(at(0, 48_000)), (vec![], vec![]));
    // 480 ticks per second from here on.
    assert_eq!(w.tick(at(47_999, 48_000)), (vec![], vec![]));
    assert_eq!(w.tick(at(48_000, 48_000)), (vec![], vec![(60, 100)]));
}

#[test]
fn time_in_another_rate_reads_the_same_tick() {
    let msgs = vec![MidiMsg::new(MsgType::NoteOn(60, 100), 96)];
    let mut w = MidiWrapper::new(msgs.clone());
    assert_eq!(w.tick(at(4_799, 48_000)), (vec![], vec![]));
    let mut v = MidiWrapper::new(msgs);
    assert_eq!(v.tick(at(4_410, 44_100)), (vec![], vec![(60, 100)]));
}

#[test]
fn zero_tempo_makes_everything_due() {
    let msgs = vec![
        MidiMsg::new(MsgType::Tempo(0), 0),
        MidiMsg::new(MsgType::NoteOn(60, 100), 1_000_000),
    ];
    let mut w = MidiWrapper::new(msgs);
    assert_eq!(w.tick(at(0, 10)), (vec![], vec![]));
    assert_eq!(w.tick(at(1, 10)), (vec![], vec![(60, 100)]));
}

fn midi_file() -> Vec<u8> {
    let mut smf = Smf::new(Header::new(Format::Parallel, Timing::Metrical(480.into())));
    smf.tracks.push(vec![
        TrackEvent { delta: 0.into(), kind: TrackEventKind::Meta(MetaMessage::Tempo(250_000.into())) },
        TrackEvent { delta: 0.into(), kind: TrackEventKind::Meta(MetaMessage::EndOfTrack) },
    ]);
    smf.tracks.push(vec![
        TrackEvent {
            delta: 0.into(),
            kind: TrackEventKind::Midi {
                channel: 0.into(),
                message: MidiMessage::NoteOn { key: 60.into(), vel: 100.into() },
            },
        },
        TrackEvent {
            delta: 960.into(),
            kind: TrackEventKind::Midi {
                channel: 0.into(),
                message: MidiMessage::NoteOn { key: 60.into(), vel: 0.into() },
            },
        },
        TrackEvent { delta: 0.into(), kind: TrackEventKind::Meta(MetaMessage::EndOfTrack) },
    ]);
    let mut bytes = Vec::new();
    smf.write_std(&mut bytes).unwrap();
    bytes
}

#[test]
fn file_is_read_into_events() {
    let tracks = read_smf(&midi_file()).unwrap();
    assert_eq!(tracks.len(), 2);
    assert_eq!(tracks[0][0], ev(0, EventKind::Tempo(250_000)));
    assert_eq!(tracks[0][1], ev(0, EventKind::EndOfTrack));
    assert_eq!(tracks[1][1], ev(960, EventKind::NoteOn { key: 60, vel: 0 }));
}

#[test]
fn file_loads_into_shared_tracks() {
    let (tracks, d) = load_midi(&midi_file()).unwrap();
    assert_eq!(tracks.len(), 2);
    assert_eq!(
        tracks[1],
        vec![
            MidiMsg::new(MsgType::NoteOn(60, 100), 0),
            MidiMsg::new(MsgType::Tempo(250_000), 0),
            MidiMsg::new(MsgType::NoteOff(60), 960),
        ]
    );
    // 960 ticks at 250000 us per quarter note.
    assert_eq!(d, 500_000_000);
}

#[test]
fn bad_bytes_are_refused() {
    assert_eq!(load_midi(b"not a midi file").unwrap_err(), MidiError::Parse);
    assert!(read_smf(&[]).is_err());
}

#[test]
fn time_carries_over_to_a_new_rate() {
    assert_eq!(at(48_000, 48_000).at_rate(44_100), at(44_100, 44_100));
    assert_eq!(at(1, 3).at_rate(2), at(0, 2));
    assert_eq!(at(u64::MAX, 1).at_rate(2), at(u64::MAX, 2));
}
