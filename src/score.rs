//! Notation: notes written as scale degrees of a key, bars of notes for a
//! fixed number of voices, and the tracks of file events that a score makes.
use crate::midi::{EventKind, MidiFile, MidiMsg, MsgType, SmfEvent, TICKS_PER_QUARTER, lemma_sort_by_ticks, sort_by_ticks, ticks_sorted};
use vstd::prelude::*;

verus! {

/// A note written as a scale degree of a key, with an octave and an optional
/// accidental (`Some(true)` sharp, `Some(false)` flat).
#[derive(Clone, Copy, Debug)]
pub struct Note {
    pub length: u32,
    pub pitch: u8,
    pub octave: u8,
    pub accidental: Option<bool>,
}

impl Note {
    /// The scale degree is taken modulo the seven degrees of a key.
    pub fn new(length: u32, pitch: u8, octave: u8, accidental: Option<bool>) -> (r: Note)
        ensures
            r.length == length,
            r.pitch == pitch % 7,
            r.octave == octave,
            r.accidental == accidental,
    {
        Note { length, pitch: pitch % 7, octave, accidental }
    }
}

/// The semitone offsets of the seven degrees of a major (`true`) or minor
/// (`false`) scale.
pub open spec fn scale_of(mode: bool) -> Seq<i8> {
    if mode {
        seq![0i8, 2, 4, 5, 7, 9, 11]
    } else {
        seq![0i8, 2, 3, 5, 7, 8, 11]
    }
}

/// The semitone shift of an accidental.
pub open spec fn accidental_shift(accidental: Option<bool>) -> int {
    match accidental {
        Some(true) => 1,
        Some(false) => -1,
        None => 0,
    }
}

/// The arithmetic of `Key::midi` stays within signed bytes.
pub open spec fn key_fits(key: Key, note: Note) -> bool {
    &&& note.pitch < 7
    &&& note.octave * 12 <= u8::MAX
    &&& i8::MIN <= ((note.octave * 12) as i8) + accidental_shift(note.accidental) <= i8::MAX
    &&& i8::MIN <= key.spec_tonic() + key.spec_scale()[note.pitch as int] <= i8::MAX
    &&& i8::MIN <= key.spec_tonic() + key.spec_scale()[note.pitch as int] + ((note.octave * 12) as i8)
        + accidental_shift(note.accidental) <= i8::MAX
}

/// The MIDI note number of `note` in `key`.
pub open spec fn midi_key(key: Key, note: Note) -> u8 {
    (key.spec_tonic() + key.spec_scale()[note.pitch as int] + ((note.octave * 12) as i8)
        + accidental_shift(note.accidental)) as u8
}

/// A key: a tonic (as a MIDI note number) and the scale built on it.
#[derive(Clone, Copy, Debug)]
pub struct Key {
    tonic: i8,
    scale: [i8; 7],
}

impl Key {
    pub closed spec fn spec_tonic(&self) -> i8 {
        self.tonic
    }

    pub closed spec fn spec_scale(&self) -> Seq<i8> {
        self.scale@
    }

    pub fn new(tonic: i8, mode: bool) -> (r: Key)
        ensures
            r.spec_tonic() == tonic,
            r.spec_scale() == scale_of(mode),
    {
        Key { tonic, scale: Self::gen_scale(mode) }
    }

    pub fn gen_scale(mode: bool) -> (r: [i8; 7])
        ensures
            r@ == scale_of(mode),
    {
        let r: [i8; 7] = if mode {
            [0, 2, 4, 5, 7, 9, 11]
        } else {
            [0, 2, 3, 5, 7, 8, 11]
        };
        assert(r@ =~= scale_of(mode));
        r
    }

    /// The MIDI note number of a note in this key, as the sum of the tonic,
    /// the degree's offset, the octave's twelve semitones (read as a signed
    /// byte) and the accidental, read back as an unsigned byte.
    pub fn midi(&self, note: &Note) -> (r: u8)
        requires
            key_fits(*self, *note),
        ensures
            r == midi_key(*self, *note),
    {
        let octave = (note.octave * 12) as i8;
        let shift: i8 = match note.accidental {
            Some(true) => 1,
            Some(false) => -1,
            None => 0,
        };
        let offset = octave + shift;
        (self.tonic + self.scale[note.pitch as usize] + offset) as u8
    }
}

/// A dynamic marking, which fixes the velocity of the notes under it.
#[derive(Clone, Copy, Debug)]
pub enum Dynamic {
    Piano,
    MezzoPiano,
    MezzoForte,
    Forte,
}

impl Dynamic {
    pub open spec fn spec_velocity(&self) -> u8 {
        match self {
            Dynamic::Piano => 52,
            Dynamic::MezzoPiano => 77,
            Dynamic::MezzoForte => 102,
            Dynamic::Forte => 127,
        }
    }

    pub fn velocity(&self) -> (r: u8)
        ensures
            r == self.spec_velocity(),
    {
        match self {
            Dynamic::Piano => 52,
            Dynamic::MezzoPiano => 77,
            Dynamic::MezzoForte => 102,
            Dynamic::Forte => 127,
        }
    }
}

/// A bar for `N` voices: its length in beats, the notes of each voice (each
/// at an offset in ticks from the start of the bar), its tempo in
/// microseconds per quarter note, its key and its dynamic.
#[derive(Clone, Debug)]
pub struct Bar<const N: usize> {
    pub beats: u8,
    pub notes: Vec<Vec<(u32, Note)>>,
    pub tempo: u32,
    pub key: Key,
    pub dynamic: Dynamic,
}

/// Bars in order.
#[derive(Clone, Debug)]
pub struct Section<const N: usize> {
    pub bars: Vec<Bar<N>>,
}

/// Sections in order.
#[derive(Clone, Debug)]
pub struct Score<const N: usize> {
    pub sections: Vec<Section<N>>,
}

/// How many ticks a bar lasts.
pub open spec fn bar_ticks<const N: usize>(bar: Bar<N>) -> int {
    bar.beats * (TICKS_PER_QUARTER as int)
}

/// The messages of `notes` in a bar that starts at tick `start`: for each
/// note, in order, a note-on at its offset and a note-off `length` ticks
/// later.
pub open spec fn notes_events(notes: Seq<(u32, Note)>, key: Key, vel: u8, start: int) -> Seq<MidiMsg>
    decreases notes.len(),
{
    if notes.len() == 0 {
        Seq::empty()
    } else {
        let (off, n) = notes.last();
        let k = midi_key(key, n);
        notes_events(notes.drop_last(), key, vel, start) + seq![
            MidiMsg { kind: MsgType::NoteOn(k, vel), abs_ticks: (start + off) as u32 },
            MidiMsg { kind: MsgType::NoteOff(k), abs_ticks: (start + off + n.length) as u32 },
        ]
    }
}

/// The messages of voice `track` of a bar that starts at tick `start`: its
/// tempo, then its notes.
pub open spec fn bar_events<const N: usize>(bar: Bar<N>, track: int, start: int) -> Seq<MidiMsg> {
    seq![MidiMsg { kind: MsgType::Tempo(bar.tempo), abs_ticks: start as u32 }] + notes_events(
        bar.notes@[track]@,
        bar.key,
        bar.dynamic.spec_velocity(),
        start,
    )
}

/// Voice `track` of a bar starting at `start` exists, its notes have keys,
/// and its ticks fit a `u32`.
pub open spec fn bar_fits<const N: usize>(bar: Bar<N>, track: int, start: int) -> bool {
    &&& 0 <= track < bar.notes@.len()
    &&& 0 <= start
    &&& start + bar_ticks(bar) <= u32::MAX
    &&& forall|j: int|
        0 <= j < bar.notes@[track]@.len() ==> start + (#[trigger] bar.notes@[track]@[j]).0
            + bar.notes@[track]@[j].1.length <= u32::MAX && key_fits(bar.key, bar.notes@[track]@[j].1)
}

pub open spec fn bars_ticks<const N: usize>(bars: Seq<Bar<N>>) -> int
    decreases bars.len(),
{
    if bars.len() == 0 {
        0
    } else {
        bars_ticks(bars.drop_last()) + bar_ticks(bars.last())
    }
}

/// The messages of voice `track` of bars played one after another from
/// tick `start`.
pub open spec fn bars_events<const N: usize>(bars: Seq<Bar<N>>, track: int, start: int) -> Seq<MidiMsg>
    decreases bars.len(),
{
    if bars.len() == 0 {
        Seq::empty()
    } else {
        bars_events(bars.drop_last(), track, start) + bar_events(
            bars.last(),
            track,
            start + bars_ticks(bars.drop_last()),
        )
    }
}

pub open spec fn bars_fit<const N: usize>(bars: Seq<Bar<N>>, track: int, start: int) -> bool
    decreases bars.len(),
{
    if bars.len() == 0 {
        0 <= start <= u32::MAX
    } else {
        bars_fit(bars.drop_last(), track, start) && bar_fits(
            bars.last(),
            track,
            start + bars_ticks(bars.drop_last()),
        )
    }
}

pub open spec fn sections_ticks<const N: usize>(sections: Seq<Section<N>>) -> int
    decreases sections.len(),
{
    if sections.len() == 0 {
        0
    } else {
        sections_ticks(sections.drop_last()) + bars_ticks(sections.last().bars@)
    }
}

/// The messages of voice `track` of sections played one after another from
/// tick `start`.
pub open spec fn sections_events<const N: usize>(sections: Seq<Section<N>>, track: int, start: int) -> Seq<MidiMsg>
    decreases sections.len(),
{
    if sections.len() == 0 {
        Seq::empty()
    } else {
        sections_events(sections.drop_last(), track, start) + bars_events(
            sections.last().bars@,
            track,
            start + sections_ticks(sections.drop_last()),
        )
    }
}

pub open spec fn sections_fit<const N: usize>(sections: Seq<Section<N>>, track: int, start: int) -> bool
    decreases sections.len(),
{
    if sections.len() == 0 {
        0 <= start <= u32::MAX
    } else {
        sections_fit(sections.drop_last(), track, start) && bars_fit(
            sections.last().bars@,
            track,
            start + sections_ticks(sections.drop_last()),
        )
    }
}

/// The file event of a message `delta` ticks after the previous event.
pub open spec fn file_event(m: MidiMsg, delta: int) -> SmfEvent {
    SmfEvent {
        delta: delta as u32,
        kind: match m.kind {
            MsgType::NoteOn(k, v) => EventKind::NoteOn { key: k, vel: v },
            MsgType::NoteOff(k) => EventKind::NoteOff { key: k },
            MsgType::Tempo(t) => EventKind::Tempo(t),
        },
    }
}

/// Messages sorted by tick, as file events: each one's delta from the one
/// before (the first from tick 0), then the end of the track.
pub open spec fn file_track(msgs: Seq<MidiMsg>) -> Seq<SmfEvent> {
    Seq::new(
        msgs.len(),
        |j: int|
            file_event(
                msgs[j],
                msgs[j].abs_ticks - if j == 0 {
                    0
                } else {
                    msgs[j - 1].abs_ticks as int
                },
            ),
    ).push(SmfEvent { delta: 0, kind: EventKind::EndOfTrack })
}

proof fn lemma_bars_fit_prefix<const N: usize>(bars: Seq<Bar<N>>, track: int, start: int, k: int)
    requires
        bars_fit(bars, track, start),
        0 <= k <= bars.len(),
    ensures
        bars_fit(bars.take(k), track, start),
        k < bars.len() ==> bar_fits(bars[k], track, start + bars_ticks(bars.take(k))),
        0 <= start + bars_ticks(bars.take(k)) <= start + bars_ticks(bars) <= u32::MAX,
    decreases bars.len(),
{
    lemma_bars_ticks_nonneg(bars);
    if k == bars.len() {
        assert(bars.take(k) =~= bars);
        if bars.len() > 0 {
            lemma_bars_ticks_nonneg(bars.drop_last());
        }
    } else {
        let d = bars.drop_last();
        lemma_bars_fit_prefix(d, track, start, k);
        assert(d.take(k) =~= bars.take(k));
        lemma_bars_ticks_nonneg(d);
        if k == bars.len() - 1 {
            assert(d =~= bars.take(k));
        } else {
            assert(d[k] == bars[k]);
        }
    }
}

proof fn lemma_bars_ticks_nonneg<const N: usize>(bars: Seq<Bar<N>>)
    ensures
        bars_ticks(bars) >= 0,
    decreases bars.len(),
{
    if bars.len() > 0 {
        lemma_bars_ticks_nonneg(bars.drop_last());
    }
}

proof fn lemma_sections_fit_prefix<const N: usize>(sections: Seq<Section<N>>, track: int, start: int, k: int)
    requires
        sections_fit(sections, track, start),
        0 <= k <= sections.len(),
    ensures
        sections_fit(sections.take(k), track, start),
        k < sections.len() ==> bars_fit(sections[k].bars@, track, start + sections_ticks(sections.take(k))),
    decreases sections.len(),
{
    if k == sections.len() {
        assert(sections.take(k) =~= sections);
    } else {
        let d = sections.drop_last();
        lemma_sections_fit_prefix(d, track, start, k);
        assert(d.take(k) =~= sections.take(k));
        if k == sections.len() - 1 {
            assert(d =~= sections.take(k));
        } else {
            assert(d[k] == sections[k]);
        }
    }
}

proof fn lemma_bars_fit_end<const N: usize>(bars: Seq<Bar<N>>, track: int, start: int)
    requires
        bars_fit(bars, track, start),
    ensures
        0 <= start,
        start + bars_ticks(bars) <= u32::MAX,
    decreases bars.len(),
{
    if bars.len() > 0 {
        lemma_bars_fit_end(bars.drop_last(), track, start);
    }
}

impl<const N: usize> Bar<N> {
    /// A bar of `beats` beats with no notes yet in any of its `N` voices.
    pub fn new(beats: u8, tempo: u32, key: Key, dynamic: Dynamic) -> (r: Bar<N>)
        ensures
            r.beats == beats,
            r.tempo == tempo,
            r.key == key,
            r.dynamic == dynamic,
            r.notes@.len() == N,
            forall|i: int| 0 <= i < N ==> (#[trigger] r.notes@[i])@.len() == 0,
    {
        let mut notes: Vec<Vec<(u32, Note)>> = Vec::new();
        let mut i: usize = 0;
        while i < N
            invariant
                i <= N,
                notes@.len() == i,
                forall|k: int| 0 <= k < i ==> (#[trigger] notes@[k])@.len() == 0,
            decreases N - i,
        {
            notes.push(Vec::new());
            i += 1;
        }
        Bar { beats, notes, tempo, key, dynamic }
    }

    /// Adds `note` to voice `voice`, `beat` ticks into the bar.
    pub fn add_note(&mut self, voice: usize, beat: u32, note: Note)
        requires
            voice < old(self).notes@.len(),
        ensures
            final(self).beats == old(self).beats,
            final(self).tempo == old(self).tempo,
            final(self).key == old(self).key,
            final(self).dynamic == old(self).dynamic,
            final(self).notes@.len() == old(self).notes@.len(),
            final(self).notes@[voice as int]@ == old(self).notes@[voice as int]@.push((beat, note)),
            forall|i: int|
                0 <= i < old(self).notes@.len() && i != voice ==> #[trigger] final(self).notes@[i]
                    == old(self).notes@[i],
    {
        let mut line: Vec<(u32, Note)> = Vec::new();
        std::mem::swap(&mut line, &mut self.notes[voice]);
        line.push((beat, note));
        std::mem::swap(&mut line, &mut self.notes[voice]);
    }

    /// Appends the messages of voice `track` of this bar, starting at tick
    /// `ticks`, and moves `ticks` to the end of the bar.
    pub fn to_midi(&self, events: &mut Vec<MidiMsg>, track: usize, ticks: &mut u32)
        requires
            bar_fits(*self, track as int, *old(ticks) as int),
        ensures
            final(events)@ == old(events)@ + bar_events(*self, track as int, *old(ticks) as int),
            *final(ticks) == *old(ticks) + bar_ticks(*self),
    {
        let start = *ticks;
        let ghost e0 = events@;
        events.push(MidiMsg { kind: MsgType::Tempo(self.tempo), abs_ticks: start });
        let vel = self.dynamic.velocity();
        let notes = &self.notes[track];
        let mut j: usize = 0;
        while j < notes.len()
            invariant
                bar_fits(*self, track as int, start as int),
                notes@ == self.notes@[track as int]@,
                vel == self.dynamic.spec_velocity(),
                j <= notes@.len(),
                events@ == e0 + seq![MidiMsg { kind: MsgType::Tempo(self.tempo), abs_ticks: start }]
                    + notes_events(notes@.take(j as int), self.key, vel, start as int),
            decreases notes@.len() - j,
        {
            let (off, note) = notes[j];
            assert(notes@[j as int] == (off, note));
            let k = self.key.midi(&note);
            let on = start + off;
            events.push(MidiMsg { kind: MsgType::NoteOn(k, vel), abs_ticks: on });
            events.push(MidiMsg { kind: MsgType::NoteOff(k), abs_ticks: on + note.length });
            proof {
                let t = notes@.take(j + 1);
                assert(t.drop_last() =~= notes@.take(j as int));
                assert(t.last() == (off, note));
                assert(events@ =~= e0 + seq![MidiMsg { kind: MsgType::Tempo(self.tempo), abs_ticks: start }]
                    + notes_events(t, self.key, vel, start as int));
            }
            j += 1;
        }
        assert(notes@.take(notes@.len() as int) =~= notes@);
        assert(events@ =~= e0 + bar_events(*self, track as int, start as int));
        *ticks = start + self.beats as u32 * 480;
    }
}

impl<const N: usize> Section<N> {
    pub fn from_bars(bars: Vec<Bar<N>>) -> (r: Section<N>)
        ensures
            r.bars@ == bars@,
    {
        Section { bars }
    }

    /// Appends the messages of voice `track` of this section's bars, starting
    /// at tick `ticks`, and moves `ticks` to the end of the section.
    pub fn to_midi(&self, events: &mut Vec<MidiMsg>, track: usize, ticks: &mut u32)
        requires
            bars_fit(self.bars@, track as int, *old(ticks) as int),
        ensures
            final(events)@ == old(events)@ + bars_events(self.bars@, track as int, *old(ticks) as int),
            *final(ticks) == *old(ticks) + bars_ticks(self.bars@),
    {
        let ghost e0 = events@;
        let ghost t0 = *ticks as int;
        let mut k: usize = 0;
        while k < self.bars.len()
            invariant
                bars_fit(self.bars@, track as int, t0),
                k <= self.bars@.len(),
                events@ == e0 + bars_events(self.bars@.take(k as int), track as int, t0),
                *ticks == t0 + bars_ticks(self.bars@.take(k as int)),
            decreases self.bars@.len() - k,
        {
            proof {
                lemma_bars_fit_prefix(self.bars@, track as int, t0, k as int);
                let t = self.bars@.take(k + 1);
                assert(t.drop_last() =~= self.bars@.take(k as int));
                assert(t.last() == self.bars@[k as int]);
            }
            self.bars[k].to_midi(events, track, ticks);
            assert(events@ =~= e0 + bars_events(self.bars@.take(k + 1), track as int, t0));
            k += 1;
        }
        assert(self.bars@.take(self.bars@.len() as int) =~= self.bars@);
    }
}

impl<const N: usize> Score<N> {
    pub fn from_sections(sections: Vec<Section<N>>) -> (r: Score<N>)
        ensures
            r.sections@ == sections@,
    {
        Score { sections }
    }

    /// The score as a file at 480 ticks per quarter note, one track per
    /// voice: each voice's messages sorted by tick (messages at one tick in
    /// the order written), as events with deltas, closed by an end-of-track
    /// event.
    pub fn to_midi(&self) -> (r: MidiFile)
        requires
            forall|i: int| 0 <= i < N ==> sections_fit(#[trigger] self.sections@, i, 0),
        ensures
            r.ticks_per_quarter == TICKS_PER_QUARTER,
            r.tracks@.len() == N,
            forall|i: int|
                0 <= i < N ==> (#[trigger] r.tracks@[i])@ == file_track(
                    sort_by_ticks(sections_events(self.sections@, i, 0)),
                ),
    {
        let mut tracks: Vec<Vec<SmfEvent>> = Vec::new();
        let mut i: usize = 0;
        while i < N
            invariant
                forall|i: int| 0 <= i < N ==> sections_fit(#[trigger] self.sections@, i, 0),
                i <= N,
                tracks@.len() == i,
                forall|c: int|
                    0 <= c < i ==> (#[trigger] tracks@[c])@ == file_track(sort_by_ticks(sections_events(self.sections@, c, 0))),
            decreases N - i,
        {
            let mut events: Vec<MidiMsg> = Vec::new();
            let mut ticks: u32 = 0;
            let mut s: usize = 0;
            while s < self.sections.len()
                invariant
                    sections_fit(self.sections@, i as int, 0),
                    s <= self.sections@.len(),
                    events@ == sections_events(self.sections@.take(s as int), i as int, 0),
                    ticks == sections_ticks(self.sections@.take(s as int)),
                decreases self.sections@.len() - s,
            {
                proof {
                    lemma_sections_fit_prefix(self.sections@, i as int, 0, s as int);
                    let t = self.sections@.take(s + 1);
                    assert(t.drop_last() =~= self.sections@.take(s as int));
                    assert(t.last() == self.sections@[s as int]);
                    lemma_bars_fit_end(self.sections@[s as int].bars@, i as int, ticks as int);
                }
                self.sections[s].to_midi(&mut events, i, &mut ticks);
                assert(events@ =~= sections_events(self.sections@.take(s + 1), i as int, 0));
                s += 1;
            }
            assert(self.sections@.take(self.sections@.len() as int) =~= self.sections@);
            let sorted = MidiMsg::sort_by_ticks(events);
            proof {
                lemma_sort_by_ticks(sections_events(self.sections@, i as int, 0));
            }
            let mut track: Vec<SmfEvent> = Vec::new();
            let mut prev: u32 = 0;
            let mut j: usize = 0;
            while j < sorted.len()
                invariant
                    ticks_sorted(sorted@),
                    j <= sorted@.len(),
                    j == 0 ==> prev == 0,
                    j > 0 ==> prev == sorted@[j - 1].abs_ticks,
                    track@ == file_track(sorted@).take(j as int),
                decreases sorted@.len() - j,
            {
                let m = sorted[j];
                if j > 0 {
                    assert(sorted@[j - 1].abs_ticks <= sorted@[j as int].abs_ticks);
                }
                let kind = match m.kind {
                    MsgType::NoteOn(k, v) => EventKind::NoteOn { key: k, vel: v },
                    MsgType::NoteOff(k) => EventKind::NoteOff { key: k },
                    MsgType::Tempo(t) => EventKind::Tempo(t),
                };
                track.push(SmfEvent { delta: m.abs_ticks - prev, kind });
                assert(track@ =~= file_track(sorted@).take(j + 1));
                prev = m.abs_ticks;
                j += 1;
            }
            track.push(SmfEvent { delta: 0, kind: EventKind::EndOfTrack });
            assert(track@ =~= file_track(sorted@));
            tracks.push(track);
            i += 1;
        }
        MidiFile { ticks_per_quarter: 480, tracks }
    }
}

} // verus!
