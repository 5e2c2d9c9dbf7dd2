//! Standard MIDI files, parsed by midly and read into the tracks of
//! messages that the synthesizers play.
use crate::midi::{
    EventKind, MidiMsg, SmfEvent, converted, distributed, duration_nanos, last_tick,
    lemma_total_delta_prefix, sort_by_ticks, tempo_changes, total_delta,
};
use midly::{MetaMessage, MidiMessage, Smf, TrackEventKind};
use vstd::prelude::*;

verus! {

/// midly's parsed file, opaque: its tracks are read through the names and
/// wrappers below.
#[verifier::external_type_specification]
#[verifier::external_body]
pub struct ExSmf<'a>(Smf<'a>);

/// midly's parse error; only its presence is used.
#[verifier::external_type_specification]
#[verifier::external_body]
pub struct ExMidlyError(midly::Error);

/// The tracks of a parsed file, each a sequence of its events.
pub uninterp spec fn smf_tracks(s: Smf) -> Seq<Seq<SmfEvent>>;

/// What parsing the bytes of a file gives: its tracks, or nothing when the
/// bytes are not a MIDI file.
pub uninterp spec fn parsed_tracks(bytes: Seq<u8>) -> Option<Seq<Seq<SmfEvent>>>;

/// Relies on midly's `Smf::parse`: its result depends on the bytes alone.
#[verifier::external_body]
fn smf_parse(bytes: &[u8]) -> (r: Result<Smf<'_>, midly::Error>)
    ensures
        match r {
            Ok(s) => parsed_tracks(bytes@) == Some(smf_tracks(s)),
            Err(_) => parsed_tracks(bytes@) is None,
        },
{
    Smf::parse(bytes)
}

/// Relies on the length of midly's `Smf::tracks`.
#[verifier::external_body]
fn smf_track_count(s: &Smf) -> (r: usize)
    ensures
        r == smf_tracks(*s).len(),
{
    s.tracks.len()
}

/// Relies on the length of a track of midly's `Smf::tracks`.
#[verifier::external_body]
fn smf_track_len(s: &Smf, t: usize) -> (r: usize)
    requires
        t < smf_tracks(*s).len(),
    ensures
        r == smf_tracks(*s)[t as int].len(),
{
    s.tracks[t].len()
}

/// Relies on midly's `TrackEvent`: its delta, and its kind read as a note-on
/// (key, velocity), a note-off (key), a tempo change (microseconds per
/// quarter note), the end of the track, or another event.
#[verifier::external_body]
fn smf_event(s: &Smf, t: usize, i: usize) -> (r: SmfEvent)
    requires
        t < smf_tracks(*s).len(),
        i < smf_tracks(*s)[t as int].len(),
    ensures
        r == smf_tracks(*s)[t as int][i as int],
{
    let ev = &s.tracks[t][i];
    let kind = match ev.kind {
        TrackEventKind::Midi { message: MidiMessage::NoteOn { key, vel }, .. } => EventKind::NoteOn {
            key: key.as_int(),
            vel: vel.as_int(),
        },
        TrackEventKind::Midi { message: MidiMessage::NoteOff { key, .. }, .. } => EventKind::NoteOff {
            key: key.as_int(),
        },
        TrackEventKind::Meta(MetaMessage::Tempo(t)) => EventKind::Tempo(t.as_int()),
        TrackEventKind::Meta(MetaMessage::EndOfTrack) => EventKind::EndOfTrack,
        _ => EventKind::Other,
    };
    SmfEvent { delta: ev.delta.as_int(), kind }
}

/// Why a file cannot be read into tracks.
#[derive(Clone, Copy, Debug, PartialEq, Eq, Structural)]
pub enum MidiError {
    /// The bytes are not a MIDI file.
    Parse,
    /// A track runs past the last tick that a `u32` can hold.
    TooLong,
}

/// Parses the bytes of a MIDI file into its tracks of events.
pub fn read_smf(bytes: &[u8]) -> (r: Result<Vec<Vec<SmfEvent>>, MidiError>)
    ensures
        r is Err <==> parsed_tracks(bytes@) is None,
        r is Err ==> r == Err::<Vec<Vec<SmfEvent>>, MidiError>(MidiError::Parse),
        r matches Ok(tracks) ==> tracks@.map_values(|t: Vec<SmfEvent>| t@) == parsed_tracks(bytes@).unwrap(),
{
    let smf = match smf_parse(bytes) {
        Ok(s) => s,
        Err(_) => {
            return Err(MidiError::Parse);
        },
    };
    let ghost all = smf_tracks(smf);
    let n = smf_track_count(&smf);
    let mut tracks: Vec<Vec<SmfEvent>> = Vec::new();
    let mut t: usize = 0;
    while t < n
        invariant
            all == smf_tracks(smf),
            n == all.len(),
            t <= n,
            tracks@.len() == t,
            forall|c: int| 0 <= c < t ==> (#[trigger] tracks@[c])@ == all[c],
        decreases n - t,
    {
        let len = smf_track_len(&smf, t);
        let mut events: Vec<SmfEvent> = Vec::new();
        let mut i: usize = 0;
        while i < len
            invariant
                all == smf_tracks(smf),
                n == all.len(),
                t < n,
                len == all[t as int].len(),
                i <= len,
                events@ == all[t as int].take(i as int),
            decreases len - i,
        {
            events.push(smf_event(&smf, t, i));
            assert(events@ =~= all[t as int].take(i + 1));
            i += 1;
        }
        assert(all[t as int].take(len as int) =~= all[t as int]);
        tracks.push(events);
        t += 1;
    }
    assert(tracks@.map_values(|t: Vec<SmfEvent>| t@) =~= all);
    Ok(tracks)
}

/// The tracks of messages of a file's tracks of events, with the tempo
/// changes shared between them, and how long they take in nanoseconds.
pub open spec fn loaded(tracks: Seq<Seq<SmfEvent>>) -> (Seq<Seq<MidiMsg>>, int) {
    let msgs = Seq::new(tracks.len(), |c: int| converted(tracks[c]));
    let d = duration_nanos(sort_by_ticks(tempo_changes(msgs)), last_tick(msgs));
    (distributed(msgs), if d > u64::MAX { u64::MAX as int } else { d })
}

/// Some track runs past the last tick that a `u32` can hold.
pub open spec fn has_long_track(tracks: Seq<Seq<SmfEvent>>) -> bool {
    exists|c: int| 0 <= c < tracks.len() && total_delta(#[trigger] tracks[c]) > u32::MAX
}

/// Reads a MIDI file into tracks of messages, one per file track, each
/// holding every track's tempo changes, and how long they take in
/// nanoseconds (up to the last message).
pub fn load_midi(bytes: &[u8]) -> (r: Result<(Vec<Vec<MidiMsg>>, u64), MidiError>)
    ensures
        parsed_tracks(bytes@) is None ==> r == Err::<(Vec<Vec<MidiMsg>>, u64), MidiError>(MidiError::Parse),
        parsed_tracks(bytes@) is Some && has_long_track(parsed_tracks(bytes@).unwrap()) ==> r
            == Err::<(Vec<Vec<MidiMsg>>, u64), MidiError>(MidiError::TooLong),
        parsed_tracks(bytes@) is Some && !has_long_track(parsed_tracks(bytes@).unwrap()) ==> (r matches Ok(
            (msgs, d),
        ) && msgs@.map_values(|t: Vec<MidiMsg>| t@) == loaded(parsed_tracks(bytes@).unwrap()).0 && d
            == loaded(parsed_tracks(bytes@).unwrap()).1),
{
    let tracks = read_smf(bytes)?;
    let ghost views = tracks@.map_values(|t: Vec<SmfEvent>| t@);
    assert(parsed_tracks(bytes@) == Some(views));
    let mut msgs: Vec<Vec<MidiMsg>> = Vec::new();
    let mut c: usize = 0;
    while c < tracks.len()
        invariant
            views == tracks@.map_values(|t: Vec<SmfEvent>| t@),
            parsed_tracks(bytes@) == Some(views),
            c <= tracks@.len(),
            msgs@.len() == c,
            forall|k: int| 0 <= k < c ==> total_delta(#[trigger] views[k]) <= u32::MAX,
            forall|k: int| 0 <= k < c ==> (#[trigger] msgs@[k])@ == converted(views[k]),
        decreases tracks@.len() - c,
    {
        let track = &tracks[c];
        let mut total: u64 = 0;
        let mut i: usize = 0;
        while i < track.len()
            invariant
                views == tracks@.map_values(|t: Vec<SmfEvent>| t@),
                parsed_tracks(bytes@) == Some(views),
                c < tracks@.len(),
                track@ == views[c as int],
                i <= track@.len(),
                total == total_delta(track@.take(i as int)),
                total <= u32::MAX,
            decreases track@.len() - i,
        {
            assert(track@.take(i + 1).drop_last() =~= track@.take(i as int));
            total = total + track[i].delta as u64;
            if total > u32::MAX as u64 {
                proof {
                    lemma_total_delta_prefix(track@, i + 1);
                    assert(total_delta(views[c as int]) > u32::MAX);
                    assert(exists|k: int| 0 <= k < views.len() && total_delta(#[trigger] views[k]) > u32::MAX);
                }
                return Err(MidiError::TooLong);
            }
            i += 1;
        }
        assert(track@.take(track@.len() as int) =~= track@);
        msgs.push(MidiMsg::convert_track(track));
        c += 1;
    }
    let ghost mviews = msgs@.map_values(|t: Vec<MidiMsg>| t@);
    assert(mviews =~= Seq::new(views.len(), |k: int| converted(views[k])));
    let r = MidiMsg::convert_smf(msgs);
    assert(r.0@.map_values(|t: Vec<MidiMsg>| t@) =~= loaded(views).0);
    Ok(r)
}

} // verus!
