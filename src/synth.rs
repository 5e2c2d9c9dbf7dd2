//! Voice allocation: note events from a track given to a fixed pool of
//! voices, each with the pitch, velocity and gate that drive its sound.
use crate::midi::{
    MidiMsg, MidiWrapper, SampleTime, advanced, consumed, initial_anchor, note_offs, note_ons,
};
use vstd::prelude::*;

verus! {

/// What a voice plays: a pitch, the velocity it was struck with, and whether
/// its note is held.
#[derive(Clone, Copy, Debug, PartialEq, Eq, Structural)]
pub struct Voice {
    pub pitch: u8,
    pub velocity: u8,
    pub gate: bool,
}

/// A silent voice.
pub open spec fn idle_voice() -> Voice {
    Voice { pitch: 0, velocity: 0, gate: false }
}

/// The voices after the notes `dropped` end: every held voice whose pitch
/// is among them is released.
pub open spec fn release(voices: Seq<Voice>, dropped: Seq<u8>) -> Seq<Voice> {
    voices.map_values(
        |v: Voice|
            if v.gate && dropped.contains(v.pitch) {
                Voice { gate: false, ..v }
            } else {
                v
            },
    )
}

/// The position in `order` of the slot a new note takes, searching from
/// position `k`: the first slot whose voice is free; 0 when none is.
pub open spec fn first_free(voices: Seq<Voice>, order: Seq<usize>, k: int) -> int
    decreases order.len() - k,
{
    if k < 0 || k >= order.len() {
        0
    } else if !voices[order[k] as int].gate {
        k
    } else {
        first_free(voices, order, k + 1)
    }
}

/// The position in `order` (slots from least to most recently taken) of the
/// slot that a new note takes: the least recently taken free slot, or, when
/// every voice is held, the least recently taken slot.
pub open spec fn pick(voices: Seq<Voice>, order: Seq<usize>) -> int {
    first_free(voices, order, 0)
}

/// One new note (pitch, velocity) takes the slot `pick` chooses, which
/// becomes the most recently taken.
pub open spec fn take_slot(voices: Seq<Voice>, order: Seq<usize>, note: (u8, u8)) -> (Seq<Voice>, Seq<usize>) {
    let k = pick(voices, order);
    let s = order[k];
    (
        voices.update(s as int, Voice { pitch: note.0, velocity: note.1, gate: true }),
        order.remove(k).push(s),
    )
}

/// The voices and the order of slots after the notes `new` start, one after
/// another.
pub open spec fn assign(voices: Seq<Voice>, order: Seq<usize>, new: Seq<(u8, u8)>) -> (Seq<Voice>, Seq<usize>)
    decreases new.len(),
{
    if new.len() == 0 {
        (voices, order)
    } else {
        let p = assign(voices, order, new.drop_last());
        take_slot(p.0, p.1, new.last())
    }
}

/// The slots that the notes `new` take, in order.
pub open spec fn taken(voices: Seq<Voice>, order: Seq<usize>, new: Seq<(u8, u8)>) -> Seq<usize>
    decreases new.len(),
{
    if new.len() == 0 {
        Seq::empty()
    } else {
        let p = assign(voices, order, new.drop_last());
        taken(voices, order, new.drop_last()).push(p.1[pick(p.0, p.1)])
    }
}

/// `order` lists every one of `n` slots, once each.
pub open spec fn covers(order: Seq<usize>, n: nat) -> bool {
    &&& order.len() == n
    &&& forall|k: int| 0 <= k < n ==> #[trigger] order[k] < n
    &&& forall|x: usize| x < n ==> #[trigger] order.contains(x)
}

/// The slots in order of index, as the order of a pool where none has been
/// taken yet.
pub open spec fn fresh_order(n: nat) -> Seq<usize> {
    Seq::new(n, |k: int| k as usize)
}

proof fn lemma_first_free(voices: Seq<Voice>, order: Seq<usize>, k: int)
    requires
        0 <= k <= order.len(),
        order.len() > 0,
        forall|j: int| 0 <= j < order.len() ==> #[trigger] order[j] < voices.len(),
    ensures
        0 <= first_free(voices, order, k) < order.len(),
        (exists|j: int| k <= j < order.len() && !voices[#[trigger] order[j] as int].gate) ==> {
            &&& k <= first_free(voices, order, k)
            &&& !voices[order[first_free(voices, order, k)] as int].gate
        },
        (forall|j: int| k <= j < order.len() ==> voices[#[trigger] order[j] as int].gate) ==> first_free(
            voices,
            order,
            k,
        ) == 0,
    decreases order.len() - k,
{
    if k < order.len() {
        lemma_first_free(voices, order, k + 1);
        if voices[order[k] as int].gate {
            if exists|j: int| k <= j < order.len() && !voices[#[trigger] order[j] as int].gate {
                let j = choose|j: int| k <= j < order.len() && !voices[#[trigger] order[j] as int].gate;
                assert(j != k);
                assert(k + 1 <= j);
            }
        }
    }
}

/// A new note never cuts a held voice while some voice is free, and when
/// every voice is held it cuts the one taken least recently.
pub proof fn lemma_free_voice_first(voices: Seq<Voice>, order: Seq<usize>)
    requires
        0 < voices.len() <= usize::MAX,
        covers(order, voices.len()),
    ensures
        0 <= pick(voices, order) < voices.len(),
        (exists|i: int| 0 <= i < voices.len() && !(#[trigger] voices[i]).gate) ==> !voices[order[pick(
            voices,
            order,
        )] as int].gate,
        (forall|i: int| 0 <= i < voices.len() ==> (#[trigger] voices[i]).gate) ==> pick(voices, order) == 0,
{
    lemma_first_free(voices, order, 0);
    if exists|i: int| 0 <= i < voices.len() && !(#[trigger] voices[i]).gate {
        let i = choose|i: int| 0 <= i < voices.len() && !(#[trigger] voices[i]).gate;
        assert(order.contains(i as usize));
        let j = choose|j: int| 0 <= j < order.len() && order[j] == i as usize;
        assert(!voices[order[j] as int].gate);
    }
}

proof fn lemma_take_slot_covers(voices: Seq<Voice>, order: Seq<usize>, note: (u8, u8))
    requires
        0 < voices.len() <= usize::MAX,
        covers(order, voices.len()),
    ensures
        take_slot(voices, order, note).0.len() == voices.len(),
        covers(take_slot(voices, order, note).1, voices.len()),
{
    lemma_free_voice_first(voices, order);
    let k = pick(voices, order);
    let s = order[k];
    let o = order.remove(k).push(s);
    let n = voices.len();
    assert forall|j: int| 0 <= j < n implies #[trigger] o[j] < n by {
        if j < k {
            assert(o[j] == order[j]);
        } else if j < n - 1 {
            assert(o[j] == order[j + 1]);
        }
    }
    assert forall|x: usize| x < n implies #[trigger] o.contains(x) by {
        assert(order.contains(x));
        let j = choose|j: int| 0 <= j < order.len() && order[j] == x;
        if j < k {
            assert(o[j] == x);
        } else if j == k {
            assert(o[n - 1] == x);
        } else {
            assert(o[j - 1] == x);
        }
    }
}

/// Starting notes replaces voices but never adds or removes one, and keeps
/// every slot in the order.
pub proof fn lemma_assign_keeps_voice_count(voices: Seq<Voice>, order: Seq<usize>, new: Seq<(u8, u8)>)
    requires
        0 < voices.len() <= usize::MAX,
        covers(order, voices.len()),
    ensures
        assign(voices, order, new).0.len() == voices.len(),
        covers(assign(voices, order, new).1, voices.len()),
    decreases new.len(),
{
    if new.len() > 0 {
        lemma_assign_keeps_voice_count(voices, order, new.drop_last());
        let p = assign(voices, order, new.drop_last());
        lemma_take_slot_covers(p.0, p.1, new.last());
    }
}

/// A synthesizer's voice pool: it reads its track, releases the voices of
/// ended notes, and gives each new note the free voice taken least
/// recently; only when every voice is held is one cut, the one taken least
/// recently.
#[derive(Clone)]
pub struct SimpleSynth {
    midi_wrapper: MidiWrapper,
    last_notes: Vec<Voice>,
    order: Vec<usize>,
}

impl SimpleSynth {
    pub closed spec fn reader(&self) -> MidiWrapper {
        self.midi_wrapper
    }

    pub closed spec fn voices(&self) -> Seq<Voice> {
        self.last_notes@
    }

    /// The slots from least to most recently taken.
    pub closed spec fn order(&self) -> Seq<usize> {
        self.order@
    }

    pub open spec fn wf(&self) -> bool {
        &&& self.reader().wf()
        &&& self.voices().len() > 0
        &&& covers(self.order(), self.voices().len())
    }

    fn fresh(n: usize) -> (r: (Vec<Voice>, Vec<usize>))
        requires
            n > 0,
        ensures
            r.0@ == Seq::new(n as nat, |i: int| idle_voice()),
            r.1@ == fresh_order(n as nat),
            covers(r.1@, n as nat),
    {
        let mut voices: Vec<Voice> = Vec::new();
        let mut order: Vec<usize> = Vec::new();
        let mut i: usize = 0;
        while i < n
            invariant
                i <= n,
                voices@ == Seq::new(i as nat, |k: int| idle_voice()),
                order@ == fresh_order(i as nat),
            decreases n - i,
        {
            voices.push(Voice { pitch: 0, velocity: 0, gate: false });
            order.push(i);
            assert(voices@ =~= Seq::new((i + 1) as nat, |k: int| idle_voice()));
            assert(order@ =~= fresh_order((i + 1) as nat));
            i += 1;
        }
        proof {
            assert forall|x: usize| x < n implies #[trigger] order@.contains(x) by {
                assert(order@[x as int] == x);
            }
        }
        (voices, order)
    }

    /// A pool of `voices` silent voices with an empty track.
    pub fn new(voices: usize) -> (r: SimpleSynth)
        requires
            voices > 0,
        ensures
            r.wf(),
            r.voices() == Seq::new(voices as nat, |i: int| idle_voice()),
            r.order() == fresh_order(voices as nat),
            r.reader().messages() == Seq::<MidiMsg>::empty(),
            r.reader().index() == 0,
            r.reader().anchor() == initial_anchor(),
    {
        let (last_notes, order) = Self::fresh(voices);
        SimpleSynth { midi_wrapper: MidiWrapper::new(Vec::new()), last_notes, order }
    }

    /// Gives the pool a track to play, read from its start with the default
    /// tempo.
    pub fn set_midi(&mut self, midi: Vec<MidiMsg>)
        requires
            old(self).wf(),
        ensures
            final(self).wf(),
            final(self).reader().messages() == midi@,
            final(self).reader().index() == 0,
            final(self).reader().anchor() == initial_anchor(),
            final(self).voices() == old(self).voices(),
            final(self).order() == old(self).order(),
    {
        self.midi_wrapper = MidiWrapper::new(midi);
    }

    /// Releases the held voices of the notes `dropped`, then gives each of
    /// the notes `new` (pitch, velocity) a slot as `pick` chooses. Returns the
    /// slots taken, in order: each of their sounds starts over.
    pub fn update_notes(&mut self, dropped: Vec<u8>, new: Vec<(u8, u8)>) -> (r: Vec<usize>)
        requires
            old(self).wf(),
        ensures
            final(self).wf(),
            final(self).reader() == old(self).reader(),
            final(self).voices().len() == old(self).voices().len(),
            final(self).voices() == assign(release(old(self).voices(), dropped@), old(self).order(), new@).0,
            final(self).order() == assign(release(old(self).voices(), dropped@), old(self).order(), new@).1,
            r@ == taken(release(old(self).voices(), dropped@), old(self).order(), new@),
    {
        let n = self.last_notes.len();
        let ghost v0 = self.last_notes@;
        let mut d: usize = 0;
        while d < dropped.len()
            invariant
                self.last_notes@.len() == n,
                n == v0.len(),
                d <= dropped@.len(),
                self.last_notes@ == release(v0, dropped@.take(d as int)),
                self.midi_wrapper == old(self).midi_wrapper,
                self.order == old(self).order,
                v0 == old(self).last_notes@,
            decreases dropped@.len() - d,
        {
            let note = dropped[d];
            let ghost before = self.last_notes@;
            let mut i: usize = 0;
            while i < n
                invariant
                    self.last_notes@.len() == n,
                    n == v0.len(),
                    d < dropped@.len(),
                    note == dropped@[d as int],
                    before == release(v0, dropped@.take(d as int)),
                    i <= n,
                    forall|k: int|
                        0 <= k < n ==> #[trigger] self.last_notes@[k] == if k < i
                            && before[k].gate && before[k].pitch == note {
                            Voice { gate: false, ..before[k] }
                        } else {
                            before[k]
                        },
                    self.midi_wrapper == old(self).midi_wrapper,
                    self.order == old(self).order,
                    v0 == old(self).last_notes@,
                decreases n - i,
            {
                let v = self.last_notes[i];
                if v.pitch == note && v.gate {
                    self.last_notes.set(i, Voice { gate: false, ..v });
                }
                i += 1;
            }
            proof {
                let t = dropped@.take(d + 1);
                assert(t =~= dropped@.take(d as int).push(note));
                assert forall|k: int| 0 <= k < n implies #[trigger] self.last_notes@[k] == release(v0, t)[k] by {
                    let w = v0[k];
                    assert(t.contains(w.pitch) <==> (dropped@.take(d as int).contains(w.pitch) || w.pitch == note)) by {
                        if w.pitch == note {
                            assert(t[d as int] == note);
                        }
                        if dropped@.take(d as int).contains(w.pitch) {
                            let j = choose|j: int| 0 <= j < d && dropped@.take(d as int)[j] == w.pitch;
                            assert(t[j] == w.pitch);
                        }
                        if t.contains(w.pitch) {
                            let j = choose|j: int| 0 <= j <= d && t[j] == w.pitch;
                            if j < d {
                                assert(dropped@.take(d as int)[j] == w.pitch);
                            }
                        }
                    }
                }
                assert(self.last_notes@ =~= release(v0, t));
            }
            d += 1;
        }
        assert(dropped@.take(dropped@.len() as int) =~= dropped@);
        let ghost released = self.last_notes@;
        let mut slots_taken: Vec<usize> = Vec::new();
        let mut j: usize = 0;
        while j < new.len()
            invariant
                n == released.len(),
                n > 0,
                released == release(old(self).last_notes@, dropped@),
                covers(old(self).order@, n as nat),
                j <= new@.len(),
                self.last_notes@ == assign(released, old(self).order@, new@.take(j as int)).0,
                self.order@ == assign(released, old(self).order@, new@.take(j as int)).1,
                self.last_notes@.len() == n,
                covers(self.order@, n as nat),
                slots_taken@ == taken(released, old(self).order@, new@.take(j as int)),
                self.midi_wrapper == old(self).midi_wrapper,
            decreases new@.len() - j,
        {
            let note = new[j];
            let ghost v = self.last_notes@;
            let ghost o = self.order@;
            proof {
                let t = new@.take(j + 1);
                assert(t.drop_last() =~= new@.take(j as int));
                assert(t.last() == note);
                lemma_free_voice_first(v, o);
                lemma_take_slot_covers(v, o, note);
            }
            let mut k: usize = 0;
            while k < n && self.last_notes[self.order[k]].gate
                invariant
                    k <= n,
                    v == self.last_notes@,
                    o == self.order@,
                    v.len() == n,
                    covers(o, n as nat),
                    first_free(v, o, k as int) == pick(v, o),
                decreases n - k,
            {
                k += 1;
            }
            if k == n {
                k = 0;
            }
            assert(k as int == pick(v, o));
            let s = self.order[k];
            self.last_notes.set(s, Voice { pitch: note.0, velocity: note.1, gate: true });
            self.order.remove(k);
            self.order.push(s);
            slots_taken.push(s);
            j += 1;
        }
        assert(new@.take(new@.len() as int) =~= new@);
        slots_taken
    }

    /// Advances to time `now`: the track's due note-offs release their held
    /// voices, then its due note-ons take voices round. Returns the slots
    /// taken, in order: each of their sounds starts over.
    pub fn tick(&mut self, now: SampleTime) -> (r: Vec<usize>)
        requires
            old(self).wf(),
            now.rate > 0,
        ensures
            final(self).wf(),
            advanced(old(self).reader(), final(self).reader(), now),
            final(self).voices().len() == old(self).voices().len(),
            final(self).voices() == assign(
                release(old(self).voices(), note_offs(consumed(old(self).reader(), final(self).reader()))),
                old(self).order(),
                note_ons(consumed(old(self).reader(), final(self).reader())),
            ).0,
            final(self).order() == assign(
                release(old(self).voices(), note_offs(consumed(old(self).reader(), final(self).reader()))),
                old(self).order(),
                note_ons(consumed(old(self).reader(), final(self).reader())),
            ).1,
            r@ == taken(
                release(old(self).voices(), note_offs(consumed(old(self).reader(), final(self).reader()))),
                old(self).order(),
                note_ons(consumed(old(self).reader(), final(self).reader())),
            ),
    {
        let (dropped, new) = self.midi_wrapper.tick(now);
        self.update_notes(dropped, new)
    }

    /// Silences every voice, frees every slot, and starts the track over
    /// with the default tempo.
    pub fn reset(&mut self)
        requires
            old(self).wf(),
        ensures
            final(self).wf(),
            final(self).voices() == Seq::new(old(self).voices().len(), |i: int| idle_voice()),
            final(self).order() == fresh_order(old(self).voices().len()),
            final(self).reader().messages() == old(self).reader().messages(),
            final(self).reader().index() == 0,
            final(self).reader().anchor() == initial_anchor(),
    {
        let (last_notes, order) = Self::fresh(self.last_notes.len());
        self.last_notes = last_notes;
        self.order = order;
        self.midi_wrapper.reset();
    }

    pub fn voice_count(&self) -> (r: usize)
        ensures
            r == self.voices().len(),
    {
        self.last_notes.len()
    }

    pub fn voice(&self, i: usize) -> (r: Voice)
        requires
            i < self.voices().len(),
        ensures
            r == self.voices()[i as int],
    {
        self.last_notes[i]
    }
}

/// The sample slot that a percussion note plays: the first slot mapped to
/// its note number, if any is.
pub fn percussion_slot(keys: &Vec<u8>, note: u8) -> (r: Option<usize>)
    ensures
        r matches Some(i) ==> i < keys@.len() && keys@[i as int] == note && forall|k: int|
            0 <= k < i ==> keys@[k] != note,
        r is None ==> forall|k: int| 0 <= k < keys@.len() ==> keys@[k] != note,
{
    let mut i: usize = 0;
    while i < keys.len()
        invariant
            i <= keys@.len(),
            forall|k: int| 0 <= k < i ==> keys@[k] != note,
        decreases keys@.len() - i,
    {
        if keys[i] == note {
            return Some(i);
        }
        i += 1;
    }
    None
}

} // verus!
