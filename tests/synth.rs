use soundmaker::midi::{MidiMsg, MsgType, SampleTime};
use soundmaker::synth::{percussion_slot, SimpleSynth, Voice};

fn at(sample: u64) -> SampleTime {
    SampleTime { sample, rate: 1000 }
}

fn track() -> Vec<MidiMsg> {
    vec![
        MidiMsg::new(MsgType::Tempo(1_000_000), 0),
        MidiMsg::new(MsgType::NoteOn(60, 100), 0),
        MidiMsg::new(MsgType::NoteOn(64, 100), 10),
        MidiMsg::new(MsgType::NoteOn(67, 100), 20),
        MidiMsg::new(MsgType::NoteOff(60), 500),
    ]
}

fn held(s: &SimpleSynth) -> usize {
    (0..s.voice_count()).filter(|&i| s.voice(i).gate).count()
}

#[test]
fn three_voices_held_until_note_off() {
    // 480 ticks per second at 1000 samples per second: tick 20 falls on
    // sample 42, tick 500 on sample 1042.
    let mut s = SimpleSynth::new(3);
    s.set_midi(track());
    let mut restarted = Vec::new();
    for n in 0..2000u64 {
        restarted.extend(s.tick(at(n)));
        if (42..1042).contains(&n) {
            assert_eq!(held(&s), 3, "sample {}", n);
        }
        if n == 1041 {
            assert!(s.voice(0).gate);
        }
        if n >= 1042 {
            assert_eq!(s.voice(0), Voice { pitch: 60, velocity: 100, gate: false });
            assert_eq!(held(&s), 2);
        }
    }
    assert_eq!(restarted, vec![0, 1, 2]);
}

#[test]
fn fourth_note_takes_the_oldest_voice() {
    let mut s = SimpleSynth::new(3);
    let mut t = track();
    t.insert(4, MidiMsg::new(MsgType::NoteOn(72, 80), 30));
    s.set_midi(t);
    let mut restarted = Vec::new();
    for n in 0..100u64 {
        restarted.extend(s.tick(at(n)));
    }
    assert_eq!(restarted, vec![0, 1, 2, 0]);
    assert_eq!(s.voice(0), Voice { pitch: 72, velocity: 80, gate: true });
    assert_eq!(s.voice(1).pitch, 64);
    assert_eq!(s.voice(2).pitch, 67);
    // The cut note's note-off finds no voice holding it.
    for n in 100..1100u64 {
        s.tick(at(n));
    }
    assert_eq!(held(&s), 3);
}

#[test]
fn note_off_releases_every_holder_of_the_pitch() {
    let mut s = SimpleSynth::new(4);
    let taken = s.update_notes(vec![], vec![(60, 10), (60, 20), (62, 30)]);
    assert_eq!(taken, vec![0, 1, 2]);
    s.update_notes(vec![60], vec![(65, 40)]);
    assert!(!s.voice(0).gate && !s.voice(1).gate);
    assert!(s.voice(2).gate);
    assert_eq!(s.voice(3), Voice { pitch: 65, velocity: 40, gate: true });
    let wrapped = s.update_notes(vec![], vec![(70, 1), (71, 1)]);
    assert_eq!(wrapped, vec![0, 1]);
}

#[test]
fn note_off_then_on_in_one_step_keeps_new_note() {
    let mut s = SimpleSynth::new(2);
    s.update_notes(vec![], vec![(60, 10)]);
    s.update_notes(vec![60], vec![(60, 50)]);
    assert_eq!(s.voice(0), Voice { pitch: 60, velocity: 10, gate: false });
    assert_eq!(s.voice(1), Voice { pitch: 60, velocity: 50, gate: true });
}

#[test]
fn reset_silences_and_rewinds() {
    let mut s = SimpleSynth::new(2);
    s.set_midi(track());
    s.tick(at(100));
    assert_eq!(held(&s), 2);
    s.reset();
    assert_eq!(held(&s), 0);
    assert_eq!(s.voice(1), Voice { pitch: 0, velocity: 0, gate: false });
    assert_eq!(s.tick(at(0)), vec![0]);
}

#[test]
fn percussion_note_finds_first_mapped_slot() {
    let keys = vec![36, 38, 44, 38];
    assert_eq!(percussion_slot(&keys, 38), Some(1));
    assert_eq!(percussion_slot(&keys, 44), Some(2));
    assert_eq!(percussion_slot(&keys, 70), None);
    assert_eq!(percussion_slot(&vec![], 36), None);
}

#[test]
fn free_voice_is_taken_before_a_held_one() {
    let mut s = SimpleSynth::new(2);
    assert_eq!(s.update_notes(vec![], vec![(60, 1), (62, 1)]), vec![0, 1]);
    assert_eq!(s.update_notes(vec![62], vec![(64, 1)]), vec![1]);
    assert_eq!(s.voice(0), Voice { pitch: 60, velocity: 1, gate: true });
    assert_eq!(s.voice(1), Voice { pitch: 64, velocity: 1, gate: true });
}

#[test]
fn with_every_voice_held_the_oldest_is_cut() {
    let mut s = SimpleSynth::new(3);
    s.update_notes(vec![], vec![(60, 1), (62, 1), (64, 1)]);
    assert_eq!(s.update_notes(vec![62], vec![(65, 1)]), vec![1]);
    assert_eq!(s.update_notes(vec![], vec![(67, 1)]), vec![0]);
    assert_eq!(s.update_notes(vec![], vec![(69, 1)]), vec![2]);
    assert_eq!(s.update_notes(vec![], vec![(71, 1)]), vec![1]);
}
