//! MIDI event tracks: events with absolute tick times, their conversion from
//! a file's delta-timed events, the sharing of tempo changes between tracks,
//! and the tempo map that says which events are due at a given time.
use vstd::prelude::*;

verus! {

/// Ticks per quarter note.
pub const TICKS_PER_QUARTER: u64 = 480;

/// The tempo before any tempo change, in microseconds per quarter note
/// (120 beats per minute).
pub const DEFAULT_TEMPO: u32 = 500_000;

/// What a message does: start a note (pitch, velocity), end a note (pitch),
/// or change the tempo (microseconds per quarter note, so that a tempo of
/// `t` runs `480_000_000 / t` ticks per second).
#[derive(Clone, Copy, Debug, PartialEq, Eq, Structural)]
pub enum MsgType {
    NoteOn(u8, u8),
    NoteOff(u8),
    Tempo(u32),
}

/// A message at an absolute tick of its track.
#[derive(Clone, Copy, Debug, PartialEq, Eq, Structural)]
pub struct MidiMsg {
    pub kind: MsgType,
    pub abs_ticks: u32,
}

/// What a file event carries that the tracks need.
#[derive(Clone, Copy, Debug, PartialEq, Eq, Structural)]
pub enum EventKind {
    NoteOn { key: u8, vel: u8 },
    NoteOff { key: u8 },
    Tempo(u32),
    EndOfTrack,
    Other,
}

/// A file as tracks of events, with the ticks per quarter note that its
/// deltas count in.
#[derive(Clone, Debug, PartialEq, Eq)]
pub struct MidiFile {
    pub ticks_per_quarter: u16,
    pub tracks: Vec<Vec<SmfEvent>>,
}

/// An event of a file track: its distance in ticks from the previous event,
/// and what it is.
#[derive(Clone, Copy, Debug, PartialEq, Eq, Structural)]
pub struct SmfEvent {
    pub delta: u32,
    pub kind: EventKind,
}

/// The sum of the deltas of `events`.
pub open spec fn total_delta(events: Seq<SmfEvent>) -> int
    decreases events.len(),
{
    if events.len() == 0 {
        0
    } else {
        total_delta(events.drop_last()) + events.last().delta
    }
}

/// The message an event becomes at absolute tick `at`: a note-on of
/// velocity 0 ends the note.
pub open spec fn message_of(kind: EventKind, at: u32) -> Option<MidiMsg> {
    match kind {
        EventKind::NoteOn { key, vel } => if vel == 0 {
            Some(MidiMsg { kind: MsgType::NoteOff(key), abs_ticks: at })
        } else {
            Some(MidiMsg { kind: MsgType::NoteOn(key, vel), abs_ticks: at })
        },
        EventKind::NoteOff { key } => Some(MidiMsg { kind: MsgType::NoteOff(key), abs_ticks: at }),
        EventKind::Tempo(t) => Some(MidiMsg { kind: MsgType::Tempo(t), abs_ticks: at }),
        EventKind::EndOfTrack => None,
        EventKind::Other => None,
    }
}

/// The messages of a file track, each at the sum of the deltas up to and
/// including its event.
pub open spec fn converted(events: Seq<SmfEvent>) -> Seq<MidiMsg>
    decreases events.len(),
{
    if events.len() == 0 {
        Seq::empty()
    } else {
        let r = converted(events.drop_last());
        match message_of(events.last().kind, total_delta(events) as u32) {
            Some(m) => r.push(m),
            None => r,
        }
    }
}

/// Where `x` goes into a sequence sorted by tick: after every message that
/// is not later than it.
pub open spec fn insert_pos(s: Seq<MidiMsg>, x: MidiMsg) -> int
    decreases s.len(),
{
    if s.len() == 0 {
        0
    } else if s.last().abs_ticks <= x.abs_ticks {
        s.len() as int
    } else {
        insert_pos(s.drop_last(), x)
    }
}

/// The messages of `s` sorted by tick; messages at the same tick keep their
/// order.
pub open spec fn sort_by_ticks(s: Seq<MidiMsg>) -> Seq<MidiMsg>
    decreases s.len(),
{
    if s.len() == 0 {
        s
    } else {
        let r = sort_by_ticks(s.drop_last());
        let p = insert_pos(r, s.last());
        r.take(p).push(s.last()) + r.skip(p)
    }
}

pub open spec fn is_tempo(m: MidiMsg) -> bool {
    m.kind is Tempo
}

/// The tempo changes of all tracks, track after track.
pub open spec fn tempo_changes(tracks: Seq<Seq<MidiMsg>>) -> Seq<MidiMsg>
    decreases tracks.len(),
{
    if tracks.len() == 0 {
        Seq::empty()
    } else {
        tempo_changes(tracks.drop_last()) + tracks.last().filter(|m: MidiMsg| is_tempo(m))
    }
}

/// The tempo changes of every track but track `c`, track after track.
pub open spec fn tempo_changes_except(tracks: Seq<Seq<MidiMsg>>, c: int) -> Seq<MidiMsg>
    decreases tracks.len(),
{
    if tracks.len() == 0 {
        Seq::empty()
    } else {
        tempo_changes_except(tracks.drop_last(), c) + if tracks.len() - 1 == c {
            Seq::empty()
        } else {
            tracks.last().filter(|m: MidiMsg| is_tempo(m))
        }
    }
}

/// Each track with the tempo changes of all other tracks added, sorted by
/// tick (a track's own messages first where ticks tie), so that every track
/// holds each tempo change of the file once.
pub open spec fn distributed(tracks: Seq<Seq<MidiMsg>>) -> Seq<Seq<MidiMsg>> {
    Seq::new(
        tracks.len(),
        |c: int| sort_by_ticks(tracks[c] + sort_by_ticks(tempo_changes_except(tracks, c))),
    )
}

/// A prefix of a track's deltas sums to no more than the whole track.
pub proof fn lemma_total_delta_prefix(events: Seq<SmfEvent>, i: int)
    requires
        0 <= i <= events.len(),
    ensures
        0 <= total_delta(events.take(i)) <= total_delta(events),
    decreases events.len(),
{
    if i < events.len() {
        lemma_total_delta_prefix(events.drop_last(), i);
        assert(events.drop_last().take(i) =~= events.take(i));
    } else {
        assert(events.take(i) =~= events);
        lemma_total_delta_nonneg(events);
    }
}

proof fn lemma_total_delta_nonneg(events: Seq<SmfEvent>)
    ensures
        total_delta(events) >= 0,
    decreases events.len(),
{
    if events.len() > 0 {
        lemma_total_delta_nonneg(events.drop_last());
    }
}

/// Inserts `x` into `v` where `insert_pos` places it.
fn insert_by_ticks(v: &mut Vec<MidiMsg>, x: MidiMsg)
    ensures
        final(v)@ == old(v)@.take(insert_pos(old(v)@, x)).push(x) + old(v)@.skip(insert_pos(old(v)@, x)),
{
    let ghost s = v@;
    let mut p = v.len();
    assert(s.take(s.len() as int) =~= s);
    while p > 0 && v[p - 1].abs_ticks > x.abs_ticks
        invariant
            v@ == s,
            p <= s.len(),
            insert_pos(s, x) == insert_pos(s.take(p as int), x),
        decreases p,
    {
        assert(s.take(p - 1) =~= s.take(p as int).drop_last());
        p -= 1;
    }
    proof {
        assert(s.take(s.len() as int) =~= s);
        if p > 0 {
            assert(insert_pos(s.take(p as int), x) == p);
        }
    }
    v.insert(p, x);
    assert(v@ =~= s.take(p as int).push(x) + s.skip(p as int));
}

impl MidiMsg {
    pub fn new(kind: MsgType, abs_ticks: u32) -> (r: MidiMsg)
        ensures
            r == (MidiMsg { kind, abs_ticks }),
    {
        MidiMsg { kind, abs_ticks }
    }

    /// The messages of a file track, at absolute ticks.
    pub fn convert_track(track: &Vec<SmfEvent>) -> (r: Vec<MidiMsg>)
        requires
            total_delta(track@) <= u32::MAX,
        ensures
            r@ == converted(track@),
    {
        let mut vec: Vec<MidiMsg> = Vec::new();
        let mut abs_ticks: u32 = 0;
        let mut i: usize = 0;
        while i < track.len()
            invariant
                i <= track@.len(),
                total_delta(track@) <= u32::MAX,
                abs_ticks == total_delta(track@.take(i as int)),
                vec@ == converted(track@.take(i as int)),
            decreases track@.len() - i,
        {
            let ev = track[i];
            proof {
                assert(track@.take(i + 1).drop_last() =~= track@.take(i as int));
                lemma_total_delta_prefix(track@, i + 1);
            }
            abs_ticks = abs_ticks + ev.delta;
            match ev.kind {
                EventKind::NoteOn { key, vel } => {
                    if vel == 0 {
                        vec.push(MidiMsg::new(MsgType::NoteOff(key), abs_ticks));
                    } else {
                        vec.push(MidiMsg::new(MsgType::NoteOn(key, vel), abs_ticks));
                    }
                },
                EventKind::NoteOff { key } => {
                    vec.push(MidiMsg::new(MsgType::NoteOff(key), abs_ticks));
                },
                EventKind::Tempo(t) => {
                    vec.push(MidiMsg::new(MsgType::Tempo(t), abs_ticks));
                },
                EventKind::EndOfTrack => {},
                EventKind::Other => {},
            }
            i += 1;
        }
        assert(track@.take(track@.len() as int) =~= track@);
        vec
    }

    /// Sorts messages by tick, keeping the order of messages at one tick.
    pub fn sort_by_ticks(msgs: Vec<MidiMsg>) -> (r: Vec<MidiMsg>)
        ensures
            r@ == sort_by_ticks(msgs@),
    {
        let mut r: Vec<MidiMsg> = Vec::new();
        let mut i: usize = 0;
        while i < msgs.len()
            invariant
                i <= msgs@.len(),
                r@ == sort_by_ticks(msgs@.take(i as int)),
            decreases msgs@.len() - i,
        {
            assert(msgs@.take(i + 1).drop_last() =~= msgs@.take(i as int));
            insert_by_ticks(&mut r, msgs[i]);
            i += 1;
        }
        assert(msgs@.take(msgs@.len() as int) =~= msgs@);
        r
    }

    /// The tempo changes of every track but track `c`, sorted by tick.
    fn tempos_except(tracks: &Vec<Vec<MidiMsg>>, c: usize) -> (r: Vec<MidiMsg>)
        ensures
            r@ == sort_by_ticks(tempo_changes_except(tracks@.map_values(|t: Vec<MidiMsg>| t@), c as int)),
    {
        let ghost views = tracks@.map_values(|t: Vec<MidiMsg>| t@);
        let mut tempos: Vec<MidiMsg> = Vec::new();
        let mut k: usize = 0;
        while k < tracks.len()
            invariant
                k <= tracks@.len(),
                views == tracks@.map_values(|t: Vec<MidiMsg>| t@),
                tempos@ == tempo_changes_except(views.take(k as int), c as int),
            decreases tracks@.len() - k,
        {
            let ghost before = tempos@;
            proof {
                assert(views.take(k + 1).drop_last() =~= views.take(k as int));
                assert(views[k as int] == tracks@[k as int]@);
            }
            if k != c {
                let track = &tracks[k];
                let mut i: usize = 0;
                while i < track.len()
                    invariant
                        i <= track@.len(),
                        tempos@ == before + track@.take(i as int).filter(|m: MidiMsg| is_tempo(m)),
                    decreases track@.len() - i,
                {
                    let m = track[i];
                    proof {
                        let t = track@.take(i + 1);
                        assert(t.drop_last() =~= track@.take(i as int));
                        assert(t.last() == m);
                        reveal(Seq::filter);
                    }
                    if let MsgType::Tempo(_) = m.kind {
                        tempos.push(m);
                    }
                    assert(tempos@ =~= before + track@.take(i + 1).filter(|m: MidiMsg| is_tempo(m)));
                    i += 1;
                }
                assert(track@.take(track@.len() as int) =~= track@);
            } else {
                assert(tempos@ =~= before + Seq::<MidiMsg>::empty());
            }
            k += 1;
        }
        assert(views.take(tracks@.len() as int) =~= views);
        Self::sort_by_ticks(tempos)
    }

    /// Gives every track the tempo changes of all other tracks, sorted in
    /// among its own messages by tick, so that all tracks share one tempo map
    /// and hold each tempo change once.
    pub fn distributed_tempos(tracks: Vec<Vec<MidiMsg>>) -> (r: Vec<Vec<MidiMsg>>)
        ensures
            r@.len() == tracks@.len(),
            forall|c: int| 0 <= c < r@.len() ==> (#[trigger] r@[c])@ == distributed(tracks@.map_values(|t: Vec<MidiMsg>| t@))[c],
    {
        let ghost all = tracks@.map_values(|t: Vec<MidiMsg>| t@);
        let n = tracks.len();
        let mut others: Vec<Vec<MidiMsg>> = Vec::new();
        let mut c: usize = 0;
        while c < n
            invariant
                c <= n,
                n == tracks@.len(),
                all == tracks@.map_values(|t: Vec<MidiMsg>| t@),
                others@.len() == c,
                forall|k: int| 0 <= k < c ==> (#[trigger] others@[k])@ == sort_by_ticks(tempo_changes_except(all, k)),
            decreases n - c,
        {
            others.push(Self::tempos_except(&tracks, c));
            c += 1;
        }
        let mut r: Vec<Vec<MidiMsg>> = Vec::new();
        let mut tracks = tracks;
        let mut k: usize = 0;
        while k < n
            invariant
                k <= n,
                n == all.len(),
                r@.len() == k,
                others@.len() == n,
                forall|c: int| 0 <= c < n ==> (#[trigger] others@[c])@ == sort_by_ticks(tempo_changes_except(all, c)),
                forall|c: int| 0 <= c < k ==> (#[trigger] r@[c])@ == distributed(all)[c],
                tracks@.len() == n,
                forall|c: int| k <= c < n ==> (#[trigger] tracks@[c])@ == all[c],
            decreases n - k,
        {
            let mut channel: Vec<MidiMsg> = Vec::new();
            std::mem::swap(&mut channel, &mut tracks[k]);
            let tempos = &others[k];
            let mut j: usize = 0;
            let ghost own = channel@;
            while j < tempos.len()
                invariant
                    j <= tempos@.len(),
                    channel@ == own + tempos@.take(j as int),
                decreases tempos@.len() - j,
            {
                channel.push(tempos[j]);
                assert(channel@ =~= own + tempos@.take(j + 1));
                j += 1;
            }
            assert(tempos@.take(tempos@.len() as int) =~= tempos@);
            let sorted = Self::sort_by_ticks(channel);
            r.push(sorted);
            k += 1;
        }
        r
    }
}

/// A point in time: `sample / rate` seconds.
#[derive(Clone, Copy, Debug, PartialEq, Eq, Structural)]
pub struct SampleTime {
    pub sample: u64,
    pub rate: u32,
}

impl SampleTime {
    /// The same instant written at sample rate `rate`, rounded down to a
    /// whole sample; it stops at the largest `u64`.
    pub fn at_rate(self, rate: u32) -> (r: SampleTime)
        requires
            self.rate > 0,
        ensures
            r.rate == rate,
            r.sample == if self.sample * rate / (self.rate as int) > u64::MAX {
                u64::MAX as int
            } else {
                self.sample * rate / (self.rate as int)
            },
    {
        proof {
            lemma_mul_bound(self.sample as int, rate as int);
        }
        let scaled: u128 = self.sample as u128 * rate as u128 / self.rate as u128;
        let sample: u64 = if scaled > u64::MAX as u128 {
            u64::MAX
        } else {
            scaled as u64
        };
        SampleTime { sample, rate }
    }
}

/// Whole ticks that pass from `from` to `to` at `tempo` microseconds per
/// quarter note: none when `to` is not later, and without bound at a tempo of
/// zero, which no time can measure.
pub open spec fn ticks_between(from: SampleTime, to: SampleTime, tempo: u32) -> int {
    let num = to.sample * from.rate - from.sample * to.rate;
    if num <= 0 {
        0
    } else if tempo == 0 {
        u64::MAX as int
    } else {
        (num * (TICKS_PER_QUARTER * 1_000_000)) / (to.rate * from.rate * tempo)
    }
}

/// Where a tempo map stands since its last tempo change: the tick and the
/// time at which the change was taken, and the tempo.
#[derive(Clone, Copy, Debug, PartialEq, Eq, Structural)]
pub struct TempoAnchor {
    pub tick: u64,
    pub time: SampleTime,
    pub tempo: u32,
}

/// The tick position at `now` of a tempo map at `anchor`; it stops at the
/// largest `u64`.
pub open spec fn tick_at(anchor: TempoAnchor, now: SampleTime) -> u64 {
    let t = anchor.tick + ticks_between(anchor.time, now, anchor.tempo);
    if t > u64::MAX {
        u64::MAX
    } else {
        t as u64
    }
}

/// The pitches of the note-off messages of `msgs`, in order.
pub open spec fn note_offs(msgs: Seq<MidiMsg>) -> Seq<u8>
    decreases msgs.len(),
{
    if msgs.len() == 0 {
        Seq::empty()
    } else {
        let r = note_offs(msgs.drop_last());
        match msgs.last().kind {
            MsgType::NoteOff(p) => r.push(p),
            _ => r,
        }
    }
}

/// The pitches and velocities of the note-on messages of `msgs`, in order.
pub open spec fn note_ons(msgs: Seq<MidiMsg>) -> Seq<(u8, u8)>
    decreases msgs.len(),
{
    if msgs.len() == 0 {
        Seq::empty()
    } else {
        let r = note_ons(msgs.drop_last());
        match msgs.last().kind {
            MsgType::NoteOn(p, v) => r.push((p, v)),
            _ => r,
        }
    }
}

/// The tempo of the last tempo change of `msgs`, if there is one.
pub open spec fn last_tempo(msgs: Seq<MidiMsg>) -> Option<u32>
    decreases msgs.len(),
{
    if msgs.len() == 0 {
        None
    } else {
        match msgs.last().kind {
            MsgType::Tempo(t) => Some(t),
            _ => last_tempo(msgs.drop_last()),
        }
    }
}

/// The tempo map before any message: tick 0 at time 0, default tempo.
pub open spec fn initial_anchor() -> TempoAnchor {
    TempoAnchor { tick: 0, time: SampleTime { sample: 0, rate: 1 }, tempo: DEFAULT_TEMPO }
}

fn ticks_since(from: SampleTime, to: SampleTime, tempo: u32) -> (r: u128)
    requires
        from.rate > 0,
        to.rate > 0,
    ensures
        r == ticks_between(from, to, tempo),
{
    proof {
        lemma_mul_bound(to.sample as int, from.rate as int);
        lemma_mul_bound(from.sample as int, to.rate as int);
    }
    let a: u128 = to.sample as u128 * from.rate as u128;
    let b: u128 = from.sample as u128 * to.rate as u128;
    if a <= b {
        return 0;
    }
    if tempo == 0 {
        return u64::MAX as u128;
    }
    let d: u128 = a - b;
    assert(d * 480_000_000 <= 0x1_0000_0000_0000_0000_0000_0000 * 480_000_000) by (nonlinear_arith)
        requires
            d <= 0x1_0000_0000_0000_0000_0000_0000,
    ;
    let num: u128 = d * 480_000_000;
    proof {
        lemma_mul_bound(to.rate as int, from.rate as int);
    }
    let rr: u128 = to.rate as u128 * from.rate as u128;
    assert(rr <= 0xffff_ffff * 0xffff_ffffu128) by (nonlinear_arith)
        requires
            rr == to.rate as u128 * from.rate as u128,
            to.rate <= 0xffff_ffff,
            from.rate <= 0xffff_ffff,
    ;
    assert(rr * tempo as u128 <= 0xffff_ffff * 0xffff_ffffu128 * 0xffff_ffffu128) by (nonlinear_arith)
        requires
            rr <= 0xffff_ffff * 0xffff_ffffu128,
            tempo <= 0xffff_ffff,
    ;
    assert(rr * tempo as u128 > 0) by (nonlinear_arith)
        requires
            rr == to.rate as u128 * from.rate as u128,
            to.rate > 0,
            from.rate > 0,
            tempo > 0,
    ;
    let den: u128 = rr * tempo as u128;
    num / den
}

proof fn lemma_mul_bound(x: int, y: int)
    requires
        0 <= x <= u64::MAX,
        0 <= y <= u32::MAX,
    ensures
        0 <= x * y <= 0x1_0000_0000_0000_0000_0000_0000,
{
    assert(x * y <= u64::MAX * u32::MAX) by (nonlinear_arith)
        requires
            0 <= x <= u64::MAX,
            0 <= y <= u32::MAX,
    ;
    assert(0 <= x * y) by (nonlinear_arith)
        requires
            0 <= x,
            0 <= y,
    ;
}

/// Reads a track against its tempo map: given the time, it hands out the
/// messages that have come due since the last call.
#[derive(Clone)]
pub struct MidiWrapper {
    midi: Vec<MidiMsg>,
    msg_index: usize,
    current_tempo: TempoAnchor,
}

/// The messages that a step from `before` to `after` handed out.
pub open spec fn consumed(before: MidiWrapper, after: MidiWrapper) -> Seq<MidiMsg> {
    before.messages().subrange(before.index(), after.index())
}

/// A step of the reader at `now`: it hands out the run of messages, from
/// where it stood, that are due at the tick the tempo map gives `now`, and
/// stops at the first one that is not; the last tempo change among them
/// re-anchors the map at that tick and `now`.
pub open spec fn advanced(before: MidiWrapper, after: MidiWrapper, now: SampleTime) -> bool {
    let t = tick_at(before.anchor(), now);
    &&& after.wf()
    &&& after.messages() == before.messages()
    &&& before.index() <= after.index()
    &&& forall|k: int| before.index() <= k < after.index() ==> #[trigger] before.messages()[k].abs_ticks <= t
    &&& (after.index() == before.messages().len() || before.messages()[after.index()].abs_ticks > t)
    &&& after.anchor() == match last_tempo(consumed(before, after)) {
        Some(tp) => TempoAnchor { tick: t, time: now, tempo: tp },
        None => before.anchor(),
    }
}

impl MidiWrapper {
    pub closed spec fn messages(&self) -> Seq<MidiMsg> {
        self.midi@
    }

    /// How many messages have been handed out.
    pub closed spec fn index(&self) -> int {
        self.msg_index as int
    }

    /// Where the tempo map stands.
    pub closed spec fn anchor(&self) -> TempoAnchor {
        self.current_tempo
    }

    pub open spec fn wf(&self) -> bool {
        &&& 0 <= self.index() <= self.messages().len()
        &&& self.anchor().time.rate > 0
    }

    pub fn new(midi: Vec<MidiMsg>) -> (r: MidiWrapper)
        ensures
            r.wf(),
            r.messages() == midi@,
            r.index() == 0,
            r.anchor() == initial_anchor(),
    {
        MidiWrapper {
            midi,
            msg_index: 0,
            current_tempo: TempoAnchor {
                tick: 0,
                time: SampleTime { sample: 0, rate: 1 },
                tempo: DEFAULT_TEMPO,
            },
        }
    }

    /// Hands out, at time `now`, the run of messages not yet handed out that
    /// are due by the tempo map: first the pitches of the note-offs, then the
    /// pitches and velocities of the note-ons. A tempo change among them
    /// re-anchors the map at the current tick and time.
    pub fn tick(&mut self, now: SampleTime) -> (r: (Vec<u8>, Vec<(u8, u8)>))
        requires
            old(self).wf(),
            now.rate > 0,
        ensures
            advanced(*old(self), *final(self), now),
            r.0@ == note_offs(consumed(*old(self), *final(self))),
            r.1@ == note_ons(consumed(*old(self), *final(self))),
    {
        let elapsed = ticks_since(self.current_tempo.time, now, self.current_tempo.tempo);
        let ticks: u64 = if elapsed > (u64::MAX - self.current_tempo.tick) as u128 {
            u64::MAX
        } else {
            self.current_tempo.tick + elapsed as u64
        };
        let ghost i0 = self.msg_index as int;
        let ghost anchor0 = self.current_tempo;
        let mut dropped_notes: Vec<u8> = Vec::new();
        let mut new_notes: Vec<(u8, u8)> = Vec::new();
        while self.msg_index < self.midi.len() && self.midi[self.msg_index].abs_ticks as u64 <= ticks
            invariant
                ticks == tick_at(anchor0, now),
                self.midi@ == old(self).midi@,
                anchor0 == old(self).current_tempo,
                i0 == old(self).msg_index,
                now.rate > 0,
                anchor0.time.rate > 0,
                i0 <= self.msg_index <= self.midi@.len(),
                forall|k: int| i0 <= k < self.msg_index ==> #[trigger] self.midi@[k].abs_ticks <= ticks,
                dropped_notes@ == note_offs(self.midi@.subrange(i0, self.msg_index as int)),
                new_notes@ == note_ons(self.midi@.subrange(i0, self.msg_index as int)),
                self.current_tempo == match last_tempo(self.midi@.subrange(i0, self.msg_index as int)) {
                    Some(t) => TempoAnchor { tick: ticks, time: now, tempo: t },
                    None => anchor0,
                },
            decreases self.midi@.len() - self.msg_index,
        {
            let msg = self.midi[self.msg_index];
            proof {
                let s = self.midi@.subrange(i0, self.msg_index + 1);
                assert(s.drop_last() =~= self.midi@.subrange(i0, self.msg_index as int));
                assert(s.last() == msg);
            }
            match msg.kind {
                MsgType::NoteOn(pitch, vel) => {
                    new_notes.push((pitch, vel));
                },
                MsgType::NoteOff(pitch) => {
                    dropped_notes.push(pitch);
                },
                MsgType::Tempo(tempo) => {
                    self.current_tempo = TempoAnchor { tick: ticks, time: now, tempo };
                },
            }
            self.msg_index += 1;
        }
        (dropped_notes, new_notes)
    }

    /// Starts the track over, with the default tempo.
    pub fn reset(&mut self)
        ensures
            final(self).wf(),
            final(self).messages() == old(self).messages(),
            final(self).index() == 0,
            final(self).anchor() == initial_anchor(),
    {
        self.msg_index = 0;
        self.current_tempo = TempoAnchor {
            tick: 0,
            time: SampleTime { sample: 0, rate: 1 },
            tempo: DEFAULT_TEMPO,
        };
    }
}

/// The tick position that a tempo map gives a time does not depend on the
/// sample rate in which the time is written: the same instant at a `k`-fold
/// rate falls on the same tick.
pub proof fn lemma_tick_independent_of_rate(anchor: TempoAnchor, now: SampleTime, k: int)
    requires
        anchor.time.rate > 0,
        now.rate > 0,
        k > 0,
        now.sample * k <= u64::MAX,
        now.rate * k <= u32::MAX,
    ensures
        tick_at(anchor, SampleTime { sample: (now.sample * k) as u64, rate: (now.rate * k) as u32 })
            == tick_at(anchor, now),
{
    let scaled = SampleTime { sample: (now.sample * k) as u64, rate: (now.rate * k) as u32 };
    let from = anchor.time;
    let num = now.sample * from.rate - from.sample * now.rate;
    let num_k = scaled.sample * from.rate - from.sample * scaled.rate;
    assert(num_k == k * num) by (nonlinear_arith)
        requires
            num_k == (now.sample * k) * from.rate - from.sample * (now.rate * k),
            num == now.sample * from.rate - from.sample * now.rate,
    ;
    assert(num_k > 0 <==> num > 0) by (nonlinear_arith)
        requires
            num_k == k * num,
            k > 0,
    ;
    if num > 0 && anchor.tempo > 0 {
        let c = TICKS_PER_QUARTER * 1_000_000;
        let den = now.rate * from.rate * anchor.tempo;
        let den_k = scaled.rate * from.rate * anchor.tempo;
        assert(den_k == k * den) by (nonlinear_arith)
            requires
                den_k == (now.rate * k) * from.rate * anchor.tempo,
                den == now.rate * from.rate * anchor.tempo,
        ;
        assert(num_k * c == k * (num * c)) by (nonlinear_arith)
            requires
                num_k == k * num,
        ;
        assert(den > 0) by (nonlinear_arith)
            requires
                den == now.rate * from.rate * anchor.tempo,
                now.rate > 0,
                from.rate > 0,
                anchor.tempo > 0,
        ;
        assert(num * c >= 0) by (nonlinear_arith)
            requires
                num > 0,
                c > 0,
        ;
        vstd::arithmetic::div_mod::lemma_div_multiples_vanish_quotient(k, num * c, den);
    }
}

/// Messages in ascending order of tick.
pub open spec fn ticks_sorted(s: Seq<MidiMsg>) -> bool {
    forall|i: int, j: int| 0 <= i < j < s.len() ==> #[trigger] s[i].abs_ticks <= #[trigger] s[j].abs_ticks
}

proof fn lemma_insert_pos_split(r: Seq<MidiMsg>, x: MidiMsg)
    requires
        ticks_sorted(r),
    ensures
        0 <= insert_pos(r, x) <= r.len(),
        forall|k: int| 0 <= k < insert_pos(r, x) ==> #[trigger] r[k].abs_ticks <= x.abs_ticks,
        forall|k: int| insert_pos(r, x) <= k < r.len() ==> #[trigger] r[k].abs_ticks > x.abs_ticks,
    decreases r.len(),
{
    if r.len() > 0 {
        let p = r.drop_last();
        assert(ticks_sorted(p));
        lemma_insert_pos_split(p, x);
        if r.last().abs_ticks <= x.abs_ticks {
            assert forall|k: int| 0 <= k < r.len() implies #[trigger] r[k].abs_ticks <= x.abs_ticks by {
                if k < r.len() - 1 {
                    assert(r[k].abs_ticks <= r[r.len() - 1].abs_ticks);
                }
            }
        } else {
            assert forall|k: int| 0 <= k < insert_pos(r, x) implies #[trigger] r[k].abs_ticks <= x.abs_ticks by {
                assert(r[k] == p[k]);
            }
            assert forall|k: int| insert_pos(r, x) <= k < r.len() implies #[trigger] r[k].abs_ticks
                > x.abs_ticks by {
                if k < r.len() - 1 {
                    assert(r[k] == p[k]);
                }
            }
        }
    }
}

/// Sorting by tick gives a sequence sorted by tick, of the same length,
/// whose messages all come from the input.
pub proof fn lemma_sort_by_ticks(s: Seq<MidiMsg>)
    ensures
        ticks_sorted(sort_by_ticks(s)),
        sort_by_ticks(s).len() == s.len(),
        forall|i: int| 0 <= i < s.len() ==> s.contains(#[trigger] sort_by_ticks(s)[i]),
    decreases s.len(),
{
    if s.len() > 0 {
        let d = s.drop_last();
        let x = s.last();
        lemma_sort_by_ticks(d);
        let r = sort_by_ticks(d);
        lemma_insert_pos_split(r, x);
        let p = insert_pos(r, x);
        let t = r.take(p).push(x) + r.skip(p);
        assert(t == sort_by_ticks(s));
        assert forall|i: int| 0 <= i < t.len() implies (if i < p {
            t[i] == r[i]
        } else if i == p {
            t[i] == x
        } else {
            t[i] == r[i - 1]
        }) by {}
        assert forall|i: int, j: int| 0 <= i < j < t.len() implies #[trigger] t[i].abs_ticks
            <= #[trigger] t[j].abs_ticks by {
            if j < p {
                assert(r[i].abs_ticks <= r[j].abs_ticks);
            } else if j == p {
            } else if i == p {
            } else if i < p {
                assert(r[i].abs_ticks <= x.abs_ticks);
            } else {
                assert(r[i - 1].abs_ticks <= r[j - 1].abs_ticks);
            }
        }
        assert forall|i: int| 0 <= i < s.len() implies s.contains(#[trigger] t[i]) by {
            if i == p {
                assert(s[s.len() - 1] == x);
            } else {
                let y = if i < p {
                    r[i]
                } else {
                    r[i - 1]
                };
                assert(t[i] == y);
                assert(d.contains(y));
                let k = choose|k: int| 0 <= k < d.len() && d[k] == y;
                assert(s[k] == y);
            }
        }
    }
}

/// The tempo of a tempo change.
pub open spec fn tempo_value(m: MidiMsg) -> int {
    match m.kind {
        MsgType::Tempo(t) => t as int,
        _ => 0,
    }
}

/// The tempo that holds after `changes`.
pub open spec fn tempo_after(changes: Seq<MidiMsg>) -> int {
    if changes.len() == 0 {
        DEFAULT_TEMPO as int
    } else {
        tempo_value(changes.last())
    }
}

/// The sum, over the stretches between tempo changes up to tick `end`, of
/// each stretch's ticks times the tempo in force over it, starting at the
/// default tempo; divided by the ticks per quarter note, it is microseconds.
pub open spec fn tempo_span(changes: Seq<MidiMsg>, end: int) -> int
    decreases changes.len(),
{
    if changes.len() == 0 {
        end * DEFAULT_TEMPO
    } else {
        tempo_span(changes.drop_last(), changes.last().abs_ticks as int) + (end
            - changes.last().abs_ticks) * tempo_value(changes.last())
    }
}

/// How long the first `end` ticks take under the tempo changes `changes`, in
/// nanoseconds, rounded down.
pub open spec fn duration_nanos(changes: Seq<MidiMsg>, end: int) -> int {
    tempo_span(changes, end) * 1000 / (TICKS_PER_QUARTER as int)
}

proof fn lemma_span_shift(changes: Seq<MidiMsg>, e1: int, e2: int)
    ensures
        tempo_span(changes, e2) == tempo_span(changes, e1) + (e2 - e1) * tempo_after(changes),
{
    if changes.len() == 0 {
        assert(e2 * DEFAULT_TEMPO == e1 * DEFAULT_TEMPO + (e2 - e1) * DEFAULT_TEMPO) by (nonlinear_arith);
    } else {
        let l = changes.last().abs_ticks as int;
        let t = tempo_value(changes.last());
        assert((e2 - l) * t == (e1 - l) * t + (e2 - e1) * t) by (nonlinear_arith);
    }
}

/// The last tick of any message of any track, or 0 when there is none.
pub open spec fn last_tick(tracks: Seq<Seq<MidiMsg>>) -> int
    decreases tracks.len(),
{
    if tracks.len() == 0 {
        0
    } else {
        let a = last_tick(tracks.drop_last());
        let b = last_tick_of(tracks.last());
        if a >= b {
            a
        } else {
            b
        }
    }
}

/// The last tick of any message of `s`, or 0 when it is empty.
pub open spec fn last_tick_of(s: Seq<MidiMsg>) -> int
    decreases s.len(),
{
    if s.len() == 0 {
        0
    } else {
        let a = last_tick_of(s.drop_last());
        if a >= s.last().abs_ticks {
            a
        } else {
            s.last().abs_ticks as int
        }
    }
}

proof fn lemma_last_tick_of_bound(s: Seq<MidiMsg>, i: int)
    requires
        0 <= i < s.len(),
    ensures
        s[i].abs_ticks <= last_tick_of(s) <= u32::MAX,
    decreases s.len(),
{
    if i < s.len() - 1 {
        lemma_last_tick_of_bound(s.drop_last(), i);
    } else {
        lemma_last_tick_of_range(s.drop_last());
    }
}

proof fn lemma_last_tick_of_range(s: Seq<MidiMsg>)
    ensures
        0 <= last_tick_of(s) <= u32::MAX,
    decreases s.len(),
{
    if s.len() > 0 {
        lemma_last_tick_of_range(s.drop_last());
    }
}

proof fn lemma_last_tick_bound(tracks: Seq<Seq<MidiMsg>>, c: int, i: int)
    requires
        0 <= c < tracks.len(),
        0 <= i < tracks[c].len(),
    ensures
        tracks[c][i].abs_ticks <= last_tick(tracks),
    decreases tracks.len(),
{
    if c < tracks.len() - 1 {
        lemma_last_tick_bound(tracks.drop_last(), c, i);
    } else {
        lemma_last_tick_of_bound(tracks.last(), i);
    }
}

proof fn lemma_last_tick_range(tracks: Seq<Seq<MidiMsg>>)
    ensures
        0 <= last_tick(tracks) <= u32::MAX,
    decreases tracks.len(),
{
    if tracks.len() > 0 {
        lemma_last_tick_range(tracks.drop_last());
        lemma_last_tick_of_range(tracks.last());
    }
}

proof fn lemma_tempo_filter_member(s: Seq<MidiMsg>, i: int)
    requires
        0 <= i < s.filter(|m: MidiMsg| is_tempo(m)).len(),
    ensures
        is_tempo(s.filter(|m: MidiMsg| is_tempo(m))[i]),
        s.contains(s.filter(|m: MidiMsg| is_tempo(m))[i]),
    decreases s.len(),
{
    reveal(Seq::filter);
    let d = s.drop_last();
    let fd = d.filter(|m: MidiMsg| is_tempo(m));
    if i < fd.len() {
        lemma_tempo_filter_member(d, i);
        let x = fd[i];
        let k = choose|k: int| 0 <= k < d.len() && d[k] == x;
        assert(s[k] == x);
    } else {
        assert(s[s.len() - 1] == s.last());
    }
}

proof fn lemma_tempo_changes_members(tracks: Seq<Seq<MidiMsg>>, i: int)
    requires
        0 <= i < tempo_changes(tracks).len(),
    ensures
        is_tempo(tempo_changes(tracks)[i]),
        exists|c: int, k: int|
            0 <= c < tracks.len() && 0 <= k < tracks[c].len() && #[trigger] tracks[c][k]
                == tempo_changes(tracks)[i],
    decreases tracks.len(),
{
    let p = tracks.drop_last();
    let f = tracks.last().filter(|m: MidiMsg| is_tempo(m));
    assert(tempo_changes(tracks) == tempo_changes(p) + f);
    if i < tempo_changes(p).len() {
        lemma_tempo_changes_members(p, i);
        let (c, k) = choose|c: int, k: int|
            0 <= c < p.len() && 0 <= k < p[c].len() && #[trigger] p[c][k] == tempo_changes(p)[i];
        assert(tracks[c][k] == tempo_changes(tracks)[i]);
    } else {
        let fi = i - tempo_changes(p).len();
        let x = f[fi];
        assert(tempo_changes(tracks)[i] == x);
        lemma_tempo_filter_member(tracks.last(), fi);
        let k = choose|k: int| 0 <= k < tracks.last().len() && tracks.last()[k] == x;
        assert(tracks[tracks.len() - 1][k] == x);
    }
}

impl MidiMsg {
    /// How long the first `total_ticks` ticks take under the tempo changes
    /// `tempo_messages`, in nanoseconds rounded down; it stops at the largest
    /// `u64`.
    pub fn calc_duration(tempo_messages: &Vec<MidiMsg>, total_ticks: u32) -> (r: u64)
        requires
            forall|i: int| 0 <= i < tempo_messages@.len() ==> is_tempo(#[trigger] tempo_messages@[i]),
            ticks_sorted(tempo_messages@),
            forall|i: int|
                0 <= i < tempo_messages@.len() ==> #[trigger] tempo_messages@[i].abs_ticks <= total_ticks,
        ensures
            r == if duration_nanos(tempo_messages@, total_ticks as int) > u64::MAX {
                u64::MAX as int
            } else {
                duration_nanos(tempo_messages@, total_ticks as int)
            },
    {
        let ghost msgs = tempo_messages@;
        let mut span: u128 = 0;
        let mut ticks: u32 = 0;
        let mut current_tempo: u32 = DEFAULT_TEMPO;
        let mut i: usize = 0;
        while i < tempo_messages.len()
            invariant
                msgs == tempo_messages@,
                forall|k: int| 0 <= k < msgs.len() ==> is_tempo(#[trigger] msgs[k]),
                ticks_sorted(msgs),
                i <= msgs.len(),
                span == tempo_span(msgs.take(i as int), ticks as int),
                current_tempo == tempo_after(msgs.take(i as int)),
                span <= ticks as int * 0xffff_ffff,
                i > 0 ==> ticks == msgs[i - 1].abs_ticks,
                i == 0 ==> ticks == 0,
            decreases msgs.len() - i,
        {
            let msg = tempo_messages[i];
            let next = msg.abs_ticks;
            proof {
                if i > 0 {
                    assert(msgs[i - 1].abs_ticks <= msgs[i as int].abs_ticks);
                }
                lemma_span_shift(msgs.take(i as int), ticks as int, next as int);
                let t = msgs.take(i + 1);
                assert(t.drop_last() =~= msgs.take(i as int));
                assert(t.last() == msg);
                assert((next - ticks) * current_tempo <= (next - ticks) * 0xffff_ffff) by (nonlinear_arith)
                    requires
                        next >= ticks,
                        current_tempo <= 0xffff_ffff,
                ;
                assert(ticks as int * 0xffff_ffff + (next - ticks) * 0xffff_ffff == next as int * 0xffff_ffff)
                    by (nonlinear_arith);
                assert((next - ticks) * current_tempo >= 0) by (nonlinear_arith)
                    requires
                        next >= ticks,
                ;
            }
            span = span + (next - ticks) as u128 * current_tempo as u128;
            ticks = next;
            current_tempo = match msg.kind {
                MsgType::Tempo(t) => t,
                _ => current_tempo,
            };
            i += 1;
        }
        proof {
            assert(msgs.take(msgs.len() as int) =~= msgs);
            lemma_span_shift(msgs, ticks as int, total_ticks as int);
            if msgs.len() > 0 {
                assert(msgs[msgs.len() - 1].abs_ticks <= total_ticks);
            }
            assert((total_ticks - ticks) * current_tempo <= (total_ticks - ticks) * 0xffff_ffff) by (nonlinear_arith)
                requires
                    total_ticks >= ticks,
                    current_tempo <= 0xffff_ffff,
            ;
            assert((total_ticks - ticks) * current_tempo >= 0) by (nonlinear_arith)
                requires
                    total_ticks >= ticks,
            ;
            assert(ticks as int * 0xffff_ffff + (total_ticks - ticks) * 0xffff_ffff == total_ticks as int
                * 0xffff_ffff) by (nonlinear_arith);
        }
        span = span + (total_ticks - ticks) as u128 * current_tempo as u128;
        let nanos: u128 = span * 1000 / 480;
        if nanos > u64::MAX as u128 {
            u64::MAX
        } else {
            nanos as u64
        }
    }

    /// Shares the tempo changes of all tracks among them, and measures how
    /// long the tracks take up to their last message.
    pub fn convert_smf(tracks: Vec<Vec<MidiMsg>>) -> (r: (Vec<Vec<MidiMsg>>, u64))
        ensures
            r.0@.len() == tracks@.len(),
            forall|c: int| 0 <= c < r.0@.len() ==> (#[trigger] r.0@[c])@ == distributed(tracks@.map_values(|t: Vec<MidiMsg>| t@))[c],
            r.1 == if duration_nanos(
                sort_by_ticks(tempo_changes(tracks@.map_values(|t: Vec<MidiMsg>| t@))),
                last_tick(tracks@.map_values(|t: Vec<MidiMsg>| t@)),
            ) > u64::MAX {
                u64::MAX as int
            } else {
                duration_nanos(
                    sort_by_ticks(tempo_changes(tracks@.map_values(|t: Vec<MidiMsg>| t@))),
                    last_tick(tracks@.map_values(|t: Vec<MidiMsg>| t@)),
                )
            },
    {
        let ghost views = tracks@.map_values(|t: Vec<MidiMsg>| t@);
        let mut tempos: Vec<MidiMsg> = Vec::new();
        let mut last: u32 = 0;
        let mut c: usize = 0;
        while c < tracks.len()
            invariant
                c <= tracks@.len(),
                views == tracks@.map_values(|t: Vec<MidiMsg>| t@),
                tempos@ == tempo_changes(views.take(c as int)),
                last == last_tick(views.take(c as int)),
            decreases tracks@.len() - c,
        {
            let track = &tracks[c];
            let ghost before = tempos@;
            let mut best: u32 = 0;
            let mut i: usize = 0;
            while i < track.len()
                invariant
                    i <= track@.len(),
                    tempos@ == before + track@.take(i as int).filter(|m: MidiMsg| is_tempo(m)),
                    best == last_tick_of(track@.take(i as int)),
                decreases track@.len() - i,
            {
                let m = track[i];
                proof {
                    let t = track@.take(i + 1);
                    assert(t.drop_last() =~= track@.take(i as int));
                    assert(t.last() == m);
                    reveal(Seq::filter);
                }
                if let MsgType::Tempo(_) = m.kind {
                    tempos.push(m);
                    assert(tempos@ =~= before + track@.take(i + 1).filter(|m: MidiMsg| is_tempo(m)));
                } else {
                    assert(tempos@ =~= before + track@.take(i + 1).filter(|m: MidiMsg| is_tempo(m)));
                }
                if m.abs_ticks > best {
                    best = m.abs_ticks;
                }
                i += 1;
            }
            proof {
                assert(track@.take(track@.len() as int) =~= track@);
                assert(views.take(c + 1).drop_last() =~= views.take(c as int));
                assert(views[c as int] == track@);
            }
            if best > last {
                last = best;
            }
            c += 1;
        }
        assert(views.take(tracks@.len() as int) =~= views);
        let sorted_tempos = Self::sort_by_ticks(tempos);
        proof {
            let tc = tempo_changes(views);
            lemma_sort_by_ticks(tc);
            lemma_last_tick_range(views);
            assert forall|i: int| 0 <= i < sorted_tempos@.len() implies is_tempo(#[trigger] sorted_tempos@[i])
                && sorted_tempos@[i].abs_ticks <= last by {
                assert(tc.contains(sorted_tempos@[i]));
                let j = choose|j: int| 0 <= j < tc.len() && tc[j] == sorted_tempos@[i];
                lemma_tempo_changes_members(views, j);
                let (cc, k) = choose|cc: int, k: int|
                    0 <= cc < views.len() && 0 <= k < views[cc].len() && #[trigger] views[cc][k] == tc[j];
                lemma_last_tick_bound(views, cc, k);
            }
        }
        let duration = Self::calc_duration(&sorted_tempos, last);
        let distributed = Self::distributed_tempos(tracks);
        (distributed, duration)
    }
}

/// Silence added after the last message when rendering, in nanoseconds.
pub const TRAILING_SILENCE_NANOS: u64 = 5_000_000_000;

/// How many samples at `sample_rate` a render of `duration_nanos` plus the
/// trailing silence takes, rounded to the nearest sample (halves up); it
/// stops at the largest `u64`.
pub open spec fn render_samples(duration_nanos: int, sample_rate: int) -> int {
    ((duration_nanos + TRAILING_SILENCE_NANOS) * sample_rate + 500_000_000) / 1_000_000_000
}

/// The number of samples to render for tracks that last `duration_nanos`.
pub fn render_length(duration_nanos: u64, sample_rate: u32) -> (r: u64)
    ensures
        r == if render_samples(duration_nanos as int, sample_rate as int) > u64::MAX {
            u64::MAX as int
        } else {
            render_samples(duration_nanos as int, sample_rate as int)
        },
{
    let total: u128 = duration_nanos as u128 + TRAILING_SILENCE_NANOS as u128;
    assert(total * sample_rate as u128 <= 0x2_0000_0000_0000_0000 * 0xffff_ffffu128) by (nonlinear_arith)
        requires
            total <= 0x2_0000_0000_0000_0000,
            sample_rate <= 0xffff_ffff,
    ;
    let n: u128 = (total * sample_rate as u128 + 500_000_000) / 1_000_000_000;
    if n > u64::MAX as u128 {
        u64::MAX
    } else {
        n as u64
    }
}

} // verus!
