//! Standard MIDI File contents as plain values, read through `midly`, and the
//! first pass over them: absolute ticks, tempo changes and channels.

use vstd::prelude::*;
use crate::timing::{TempoChange, TempoMap, DEFAULT_TEMPO};
use crate::error::MidiError;
use crate::types::{Channel, CHANNEL_COUNT, DRUM_CHANNEL};

verus! {

#[verifier::external_type_specification]
#[verifier::external_body]
pub struct ExMidlyError(midly::Error);

#[verifier::external_type_specification]
#[verifier::external_body]
pub struct ExMidlyMessage(midly::MidiMessage);

#[verifier::external_type_specification]
#[verifier::external_body]
pub struct ExMidlyTrackEvent<'a>(midly::TrackEvent<'a>);

/// A message on a MIDI channel.
#[derive(Debug, Clone, Copy, PartialEq, Eq, Structural)]
pub enum VoiceMessage {
    NoteOff { key: u8, vel: u8 },
    NoteOn { key: u8, vel: u8 },
    Aftertouch { key: u8, vel: u8 },
    Controller { controller: u8, value: u8 },
    ProgramChange { program: u8 },
    ChannelAftertouch { vel: u8 },
    PitchBend { bend: u16 },
}

/// What a track event carries.
#[derive(Debug, Clone, Copy, PartialEq, Eq, Structural)]
pub enum EventKind {
    /// A channel voice message.
    Voice { channel: u8, message: VoiceMessage },
    /// A tempo meta event, in microseconds per quarter note.
    Tempo(u32),
    /// Any other meta event.
    Meta,
    /// A system exclusive message.
    SysEx,
    /// An escape sequence.
    Escape,
}

/// An event of a track, timed relative to the event before it.
#[derive(Debug, Clone, Copy, PartialEq, Eq, Structural)]
pub struct SmfEvent {
    /// Ticks since the previous event of the same track.
    pub delta: u32,
    pub kind: EventKind,
}

/// The time division of a file.
#[derive(Debug, Clone, Copy, PartialEq, Eq, Structural)]
pub enum TimeDivision {
    /// Ticks per quarter note.
    Metrical(u16),
    /// Frames per second and subframes (SMPTE timing).
    Timecode,
}

/// The header timing and tracks of a MIDI file.
#[derive(Debug, Clone)]
pub struct SmfData {
    pub timing: TimeDivision,
    pub tracks: Vec<Vec<SmfEvent>>,
}

/// A ghost view of a MIDI file.
pub ghost struct SmfModel {
    pub timing: TimeDivision,
    pub tracks: Seq<Seq<SmfEvent>>,
}

impl View for SmfData {
    type V = SmfModel;

    open spec fn view(&self) -> SmfModel {
        SmfModel { timing: self.timing, tracks: self.tracks@.map_values(|t: Vec<SmfEvent>| t@) }
    }
}

/// Channels fit in four bits, keys, velocities and programs in seven.
pub open spec fn message_wf(channel: u8, m: VoiceMessage) -> bool {
    &&& channel < 16
    &&& match m {
        VoiceMessage::NoteOff { key, vel } => key < 128 && vel < 128,
        VoiceMessage::NoteOn { key, vel } => key < 128 && vel < 128,
        VoiceMessage::ProgramChange { program } => program < 128,
        _ => true,
    }
}

/// Every voice event of every track is within the ranges of the MIDI format.
pub open spec fn tracks_wf(tracks: Seq<Seq<SmfEvent>>) -> bool {
    forall|i: int, j: int|
        0 <= i < tracks.len() && 0 <= j < tracks[i].len() ==> match #[trigger] tracks[i][j].kind {
            EventKind::Voice { channel, message } => message_wf(channel, message),
            _ => true,
        }
}

/// What `midly` reads from the bytes of a file: `None` where it rejects them.
pub uninterp spec fn decoded_smf(raw: Seq<u8>) -> Option<SmfModel>;

/// Relies on `midly::Smf::parse`: the same bytes give the same file, and
/// midly's restricted integers (`u4`, `u7`) keep channels below 16 and keys,
/// velocities and programs below 128. Each event is converted by
/// `track_event_of`.
#[verifier::external_body]
pub(crate) fn read_smf(raw: &[u8]) -> (r: Result<SmfData, midly::Error>)
    ensures
        r is Ok <==> decoded_smf(raw@) is Some,
        r matches Ok(d) ==> decoded_smf(raw@) == Some(d@) && tracks_wf(d@.tracks),
{
    let smf = midly::Smf::parse(raw)?;
    let timing = match smf.header.timing {
        midly::Timing::Metrical(ticks) => TimeDivision::Metrical(ticks.as_int()),
        midly::Timing::Timecode(_, _) => TimeDivision::Timecode,
    };
    let tracks = smf.tracks.iter().map(|t| t.iter().map(track_event_of).collect()).collect();
    Ok(SmfData { timing, tracks })
}

/// Relies on `midly::TrackEvent`: its delta and the kind of event it carries,
/// converted field by field for `read_smf`.
#[verifier::external_body]
fn track_event_of(e: &midly::TrackEvent) -> SmfEvent {
    let kind = match e.kind {
        midly::TrackEventKind::Midi { channel, message } => EventKind::Voice {
            channel: channel.as_int(),
            message: voice_message_of(message),
        },
        midly::TrackEventKind::Meta(midly::MetaMessage::Tempo(t)) => EventKind::Tempo(t.as_int()),
        midly::TrackEventKind::Meta(_) => EventKind::Meta,
        midly::TrackEventKind::SysEx(_) => EventKind::SysEx,
        midly::TrackEventKind::Escape(_) => EventKind::Escape,
    };
    SmfEvent { delta: e.delta.as_int(), kind }
}

/// Relies on `midly::MidiMessage`: one variant for each of its variants, with
/// the same fields, for `track_event_of`.
#[verifier::external_body]
fn voice_message_of(m: midly::MidiMessage) -> VoiceMessage {
    match m {
        midly::MidiMessage::NoteOff { key, vel } => VoiceMessage::NoteOff { key: key.as_int(), vel: vel.as_int() },
        midly::MidiMessage::NoteOn { key, vel } => VoiceMessage::NoteOn { key: key.as_int(), vel: vel.as_int() },
        midly::MidiMessage::Aftertouch { key, vel } => VoiceMessage::Aftertouch { key: key.as_int(), vel: vel.as_int() },
        midly::MidiMessage::Controller { controller, value } => VoiceMessage::Controller { controller: controller.as_int(), value: value.as_int() },
        midly::MidiMessage::ProgramChange { program } => VoiceMessage::ProgramChange { program: program.as_int() },
        midly::MidiMessage::ChannelAftertouch { vel } => VoiceMessage::ChannelAftertouch { vel: vel.as_int() },
        midly::MidiMessage::PitchBend { bend } => VoiceMessage::PitchBend { bend: bend.0.as_int() },
    }
}

/// A voice message at an absolute tick of its track.
#[derive(Debug, Clone, Copy, PartialEq, Eq, Structural)]
pub struct TimedMessage {
    pub tick: u64,
    pub channel: u8,
    pub message: VoiceMessage,
}

/// Absolute tick of event `i` of a track: the sum of the deltas up to and
/// including it, held to the range of `u64`.
pub open spec fn abs_tick(track: Seq<SmfEvent>, i: int) -> u64
    decreases i + 1,
{
    if i < 0 {
        0
    } else {
        let x = abs_tick(track, i - 1) as int + track[i].delta as int;
        if x > u64::MAX {
            u64::MAX
        } else {
            x as u64
        }
    }
}

/// The voice messages among the first `n` events of a track, with their ticks.
pub open spec fn track_messages(track: Seq<SmfEvent>, n: int) -> Seq<TimedMessage>
    decreases n,
{
    if n <= 0 {
        seq![]
    } else {
        let prev = track_messages(track, n - 1);
        match track[n - 1].kind {
            EventKind::Voice { channel, message } => prev.push(
                TimedMessage { tick: abs_tick(track, n - 1), channel, message },
            ),
            _ => prev,
        }
    }
}

/// The tempo events among the first `n` events of a track, with their ticks.
pub open spec fn track_tempos(track: Seq<SmfEvent>, n: int) -> Seq<TempoChange>
    decreases n,
{
    if n <= 0 {
        seq![]
    } else {
        let prev = track_tempos(track, n - 1);
        match track[n - 1].kind {
            EventKind::Tempo(tempo) => prev.push(TempoChange { tick: abs_tick(track, n - 1), tempo }),
            _ => prev,
        }
    }
}

/// The voice messages of the first `n` tracks, track after track.
pub open spec fn all_messages(tracks: Seq<Seq<SmfEvent>>, n: int) -> Seq<TimedMessage>
    decreases n,
{
    if n <= 0 {
        seq![]
    } else {
        all_messages(tracks, n - 1) + track_messages(tracks[n - 1], tracks[n - 1].len() as int)
    }
}

/// The tempo events of the first `n` tracks, track after track.
pub open spec fn all_tempos(tracks: Seq<Seq<SmfEvent>>, n: int) -> Seq<TempoChange>
    decreases n,
{
    if n <= 0 {
        seq![]
    } else {
        all_tempos(tracks, n - 1) + track_tempos(tracks[n - 1], tracks[n - 1].len() as int)
    }
}

/// Every message is within the ranges of the MIDI format.
pub open spec fn messages_wf(msgs: Seq<TimedMessage>) -> bool {
    forall|i: int| 0 <= i < msgs.len() ==> message_wf(#[trigger] msgs[i].channel, msgs[i].message)
}

/// Whether any message is on channel `ch`.
pub open spec fn channel_seen(msgs: Seq<TimedMessage>, ch: int) -> bool
    decreases msgs.len(),
{
    if msgs.len() == 0 {
        false
    } else {
        msgs.last().channel == ch || channel_seen(msgs.drop_last(), ch)
    }
}

/// The program of the last program change on channel `ch`, or 0.
pub open spec fn instrument_of(msgs: Seq<TimedMessage>, ch: int) -> u8
    decreases msgs.len(),
{
    if msgs.len() == 0 {
        0
    } else {
        match msgs.last().message {
            VoiceMessage::ProgramChange { program } if msgs.last().channel == ch => program,
            _ => instrument_of(msgs.drop_last(), ch),
        }
    }
}

/// The channels below `n` that carry a message, in order of channel number.
pub open spec fn channels_below(msgs: Seq<TimedMessage>, n: int) -> Seq<Channel>
    decreases n,
{
    if n <= 0 {
        seq![]
    } else {
        let prev = channels_below(msgs, n - 1);
        if channel_seen(msgs, n - 1) {
            prev.push(
                Channel {
                    id: (n - 1) as u8,
                    instrument: instrument_of(msgs, n - 1),
                    is_drum: n - 1 == DRUM_CHANNEL,
                },
            )
        } else {
            prev
        }
    }
}

/// Position at which a change at tick `t` goes in a map sorted by tick: after
/// every change with a smaller tick.
pub open spec fn tempo_slot(map: Seq<TempoChange>, t: u64) -> int
    decreases map.len(),
{
    if map.len() == 0 {
        0
    } else if map.last().tick < t {
        map.len() as int
    } else {
        tempo_slot(map.drop_last(), t)
    }
}

/// A map with one more change: it replaces the change at the same tick, or
/// stands in order of tick among the others.
pub open spec fn merge_tempo(map: Seq<TempoChange>, c: TempoChange) -> Seq<TempoChange> {
    let p = tempo_slot(map, c.tick);
    if p < map.len() && map[p].tick == c.tick {
        map.update(p, c)
    } else {
        map.insert(p, c)
    }
}

/// A map after merging changes one after the other: the last change at a
/// tick wins.
pub open spec fn merge_tempos(base: Seq<TempoChange>, cs: Seq<TempoChange>) -> Seq<TempoChange>
    decreases cs.len(),
{
    if cs.len() == 0 {
        base
    } else {
        merge_tempo(merge_tempos(base, cs.drop_last()), cs.last())
    }
}

/// Strictly increasing in tick, starting at tick zero.
pub open spec fn tempo_seq_wf(map: Seq<TempoChange>) -> bool {
    &&& map.len() >= 1
    &&& map[0].tick == 0
    &&& forall|i: int, j: int| 0 <= i < j < map.len() ==> #[trigger] map[i].tick < #[trigger] map[j].tick
}

proof fn lemma_tempo_slot(map: Seq<TempoChange>, t: u64)
    requires
        forall|i: int, j: int| 0 <= i < j < map.len() ==> #[trigger] map[i].tick < #[trigger] map[j].tick,
    ensures
        0 <= tempo_slot(map, t) <= map.len(),
        forall|i: int| 0 <= i < tempo_slot(map, t) ==> #[trigger] map[i].tick < t,
        forall|i: int| tempo_slot(map, t) <= i < map.len() ==> #[trigger] map[i].tick >= t,
    decreases map.len(),
{
    if map.len() > 0 {
        let d = map.drop_last();
        lemma_tempo_slot(d, t);
        if map.last().tick >= t {
            assert forall|i: int| tempo_slot(map, t) <= i < map.len() implies #[trigger] map[i].tick >= t by {
                if i < map.len() - 1 {
                    assert(d[i] == map[i]);
                }
            }
            assert forall|i: int| 0 <= i < tempo_slot(map, t) implies #[trigger] map[i].tick < t by {
                assert(d[i] == map[i]);
            }
        } else {
            assert forall|i: int| 0 <= i < tempo_slot(map, t) implies #[trigger] map[i].tick < t by {
                if i < map.len() - 1 {
                    assert(map[i].tick < map[map.len() - 1].tick);
                }
            }
        }
    }
}

proof fn lemma_merge_tempo_wf(map: Seq<TempoChange>, c: TempoChange)
    requires
        tempo_seq_wf(map),
    ensures
        tempo_seq_wf(merge_tempo(map, c)),
{
    lemma_tempo_slot(map, c.tick);
    let p = tempo_slot(map, c.tick);
    let r = merge_tempo(map, c);
    if p < map.len() && map[p].tick == c.tick {
        assert forall|i: int, j: int| 0 <= i < j < r.len() implies #[trigger] r[i].tick < #[trigger] r[j].tick by {
            assert(map[i].tick < map[j].tick);
        }
    } else {
        if p == 0 {
            assert(map[0].tick >= c.tick);
        }
        assert forall|i: int, j: int| 0 <= i < j < r.len() implies #[trigger] r[i].tick < #[trigger] r[j].tick by {
            if i < p && j > p {
                assert(map[i].tick < map[j - 1].tick);
            } else if i > p {
                assert(map[i - 1].tick < map[j - 1].tick);
            }
        }
    }
}

/// Merging changes into a well-formed map keeps it well formed.
proof fn lemma_merge_tempos_wf(base: Seq<TempoChange>, cs: Seq<TempoChange>)
    requires
        tempo_seq_wf(base),
    ensures
        tempo_seq_wf(merge_tempos(base, cs)),
    decreases cs.len(),
{
    if cs.len() > 0 {
        lemma_merge_tempos_wf(base, cs.drop_last());
        lemma_merge_tempo_wf(merge_tempos(base, cs.drop_last()), cs.last());
    }
}

/// Collects, track after track, every voice message and every tempo change
/// with its absolute tick (each track keeps its own running tick count), and
/// registers the channels: one entry per channel that carries any voice
/// message, in order of channel number, with the program of its last program
/// change (0 before any) and the drum flag of channel 10.
pub fn collect_events_from_tracks(smf: &SmfData) -> (r: (Vec<TempoChange>, Vec<TimedMessage>, Vec<Channel>))
    requires
        tracks_wf(smf@.tracks),
    ensures
        r.0@ == all_tempos(smf@.tracks, smf@.tracks.len() as int),
        r.1@ == all_messages(smf@.tracks, smf@.tracks.len() as int),
        r.2@ == channels_below(r.1@, CHANNEL_COUNT as int),
        forall|i: int|
            0 <= i < r.2@.len() ==> channel_seen(r.1@, #[trigger] r.2@[i].id as int) && r.2@[i].instrument
                == instrument_of(r.1@, r.2@[i].id as int) && r.2@[i].is_drum == (r.2@[i].id == DRUM_CHANNEL),
        forall|c: int| 0 <= c < CHANNEL_COUNT && channel_seen(r.1@, c) ==> exists|i: int| 0 <= i < r.2@.len() && #[trigger] r.2@[i].id == c,
        forall|i: int, j: int| 0 <= i < j < r.2@.len() ==> #[trigger] r.2@[i].id < #[trigger] r.2@[j].id,
{
    let mut tempo_changes: Vec<TempoChange> = Vec::new();
    let mut all_events: Vec<TimedMessage> = Vec::new();
    let ghost tracks = smf@.tracks;
    let mut t: usize = 0;
    while t < smf.tracks.len()
        invariant
            tracks == smf@.tracks,
            0 <= t <= tracks.len(),
            tempo_changes@ == all_tempos(tracks, t as int),
            all_events@ == all_messages(tracks, t as int),
        decreases tracks.len() - t,
    {
        let track = &smf.tracks[t];
        assert(track@ == tracks[t as int]);
        let ghost tempos_before = tempo_changes@;
        let ghost events_before = all_events@;
        let mut track_time: u64 = 0;
        let mut i: usize = 0;
        while i < track.len()
            invariant
                track@ == tracks[t as int],
                0 <= i <= track@.len(),
                track_time == abs_tick(track@, i as int - 1),
                tempo_changes@ == tempos_before + track_tempos(track@, i as int),
                all_events@ == events_before + track_messages(track@, i as int),
            decreases track@.len() - i,
        {
            let ev = track[i];
            track_time = track_time.saturating_add(ev.delta as u64);
            match ev.kind {
                EventKind::Tempo(tempo) => {
                    tempo_changes.push(TempoChange { tick: track_time, tempo });
                },
                EventKind::Voice { channel, message } => {
                    all_events.push(TimedMessage { tick: track_time, channel, message });
                },
                _ => {},
            }
            proof {
                assert(tempo_changes@ =~= tempos_before + track_tempos(track@, i as int + 1));
                assert(all_events@ =~= events_before + track_messages(track@, i as int + 1));
            }
            i = i + 1;
        }
        t = t + 1;
    }
    proof {
        lemma_all_messages_wf(smf@.tracks, smf@.tracks.len() as int);
        lemma_channels_below(all_events@, CHANNEL_COUNT as int);
    }
    let channels = channels_of(&all_events);
    (tempo_changes, all_events, channels)
}

/// The channel list holds each channel below `n` that carries a message,
/// once, in increasing order, with its last program and drum flag.
proof fn lemma_channels_below(msgs: Seq<TimedMessage>, n: int)
    requires
        0 <= n <= CHANNEL_COUNT,
    ensures
        ({
            let r = channels_below(msgs, n);
            &&& forall|i: int|
                0 <= i < r.len() ==> 0 <= #[trigger] r[i].id < n && channel_seen(msgs, r[i].id as int)
                    && r[i].instrument == instrument_of(msgs, r[i].id as int) && r[i].is_drum == (r[i].id
                    == DRUM_CHANNEL)
            &&& forall|c: int| 0 <= c < n && channel_seen(msgs, c) ==> exists|i: int| 0 <= i < r.len() && #[trigger] r[i].id == c
            &&& forall|i: int, j: int| 0 <= i < j < r.len() ==> #[trigger] r[i].id < #[trigger] r[j].id
        }),
    decreases n,
{
    if n > 0 {
        lemma_channels_below(msgs, n - 1);
        let prev = channels_below(msgs, n - 1);
        let r = channels_below(msgs, n);
        if channel_seen(msgs, n - 1) {
            assert(r[prev.len() as int].id == n - 1);
            assert forall|c: int| 0 <= c < n && channel_seen(msgs, c) implies exists|i: int| 0 <= i < r.len() && #[trigger] r[i].id == c by {
                if c < n - 1 {
                    let i = choose|i: int| 0 <= i < prev.len() && #[trigger] prev[i].id == c;
                    assert(r[i] == prev[i]);
                } else {
                    assert(r[prev.len() as int].id == c);
                }
            }
            assert forall|i: int, j: int| 0 <= i < j < r.len() implies #[trigger] r[i].id < #[trigger] r[j].id by {
                if j < prev.len() {
                    assert(prev[i].id < prev[j].id);
                } else {
                    assert(prev[i].id < n - 1);
                }
            }
        } else {
            assert forall|c: int| 0 <= c < n && channel_seen(msgs, c) implies exists|i: int| 0 <= i < r.len() && #[trigger] r[i].id == c by {
                let i = choose|i: int| 0 <= i < prev.len() && #[trigger] prev[i].id == c;
            }
        }
    }
}

/// Merges tempo changes into a map in order: sorted by tick, and where several
/// share a tick the last one is kept, overwriting in place.
#[verifier::rlimit(40)]
pub fn process_tempo_changes(tempo_map: &mut TempoMap, tempo_changes: &Vec<TempoChange>)
    requires
        old(tempo_map).wf(),
    ensures
        final(tempo_map).wf(),
        final(tempo_map).ticks_per_quarter == old(tempo_map).ticks_per_quarter,
        final(tempo_map).changes@ == merge_tempos(old(tempo_map).changes@, tempo_changes@),
{
    let ghost base = tempo_map.changes@;
    let mut k: usize = 0;
    while k < tempo_changes.len()
        invariant
            0 <= k <= tempo_changes@.len(),
            tempo_map.ticks_per_quarter == old(tempo_map).ticks_per_quarter,
            tempo_map.ticks_per_quarter > 0,
            base == old(tempo_map).changes@,
            tempo_map.changes@ == merge_tempos(base, tempo_changes@.subrange(0, k as int)),
            tempo_seq_wf(tempo_map.changes@),
        decreases tempo_changes@.len() - k,
    {
        let c = tempo_changes[k];
        let ghost before = tempo_map.changes@;
        proof {
            lemma_tempo_slot(before, c.tick);
            assert(tempo_changes@.subrange(0, k as int + 1).drop_last() =~= tempo_changes@.subrange(0, k as int));
            lemma_merge_tempo_wf(before, c);
        }
        let mut p: usize = tempo_map.changes.len();
        proof {
            assert(before.subrange(0, before.len() as int) =~= before);
        }
        while p > 0 && tempo_map.changes[p - 1].tick >= c.tick
            invariant
                tempo_map.changes@ == before,
                0 <= p <= before.len(),
                tempo_slot(before, c.tick) == tempo_slot(before.subrange(0, p as int), c.tick),
            decreases p,
        {
            proof {
                assert(before.subrange(0, p as int).drop_last() =~= before.subrange(0, p as int - 1));
            }
            p = p - 1;
        }
        proof {
            if p > 0 {
                assert(before.subrange(0, p as int).last() == before[p - 1]);
            }
        }
        if p < tempo_map.changes.len() && tempo_map.changes[p].tick == c.tick {
            tempo_map.changes.set(p, c);
        } else {
            tempo_map.changes.insert(p, c);
        }
        k = k + 1;
    }
    proof {
        assert(tempo_changes@.subrange(0, tempo_changes@.len() as int) =~= tempo_changes@);
    }
}

proof fn lemma_track_messages_wf(tracks: Seq<Seq<SmfEvent>>, ti: int, n: int)
    requires
        tracks_wf(tracks),
        0 <= ti < tracks.len(),
        0 <= n <= tracks[ti].len(),
    ensures
        messages_wf(track_messages(tracks[ti], n)),
    decreases n,
{
    if n > 0 {
        lemma_track_messages_wf(tracks, ti, n - 1);
        let k = tracks[ti][n - 1].kind;
        let prev = track_messages(tracks[ti], n - 1);
        let cur = track_messages(tracks[ti], n);
        assert forall|i: int| 0 <= i < cur.len() implies message_wf(#[trigger] cur[i].channel, cur[i].message) by {
            if i < prev.len() {
                assert(cur[i] == prev[i]);
            }
        }
    }
}

proof fn lemma_all_messages_wf(tracks: Seq<Seq<SmfEvent>>, n: int)
    requires
        tracks_wf(tracks),
        0 <= n <= tracks.len(),
    ensures
        messages_wf(all_messages(tracks, n)),
    decreases n,
{
    if n > 0 {
        lemma_all_messages_wf(tracks, n - 1);
        lemma_track_messages_wf(tracks, n - 1, tracks[n - 1].len() as int);
        let a = all_messages(tracks, n - 1);
        let b = track_messages(tracks[n - 1], tracks[n - 1].len() as int);
        assert forall|i: int| 0 <= i < (a + b).len() implies message_wf(#[trigger] (a + b)[i].channel, (a + b)[i].message) by {
            if i < a.len() {
                assert((a + b)[i] == a[i]);
            } else {
                assert((a + b)[i] == b[i - a.len()]);
            }
        }
    }
}

/// The channels that carry any voice message, in order of channel number,
/// each with the program of its last program change (0 before any) and marked
/// as drums on the drum channel.
pub fn channels_of(events: &Vec<TimedMessage>) -> (r: Vec<Channel>)
    requires
        messages_wf(events@),
    ensures
        r@ == channels_below(events@, CHANNEL_COUNT as int),
{
    let mut seen: Vec<bool> = vec![false; CHANNEL_COUNT];
    let mut instruments: Vec<u8> = vec![0u8; CHANNEL_COUNT];
    let mut i: usize = 0;
    while i < events.len()
        invariant
            messages_wf(events@),
            0 <= i <= events@.len(),
            seen@.len() == CHANNEL_COUNT,
            instruments@.len() == CHANNEL_COUNT,
            forall|ch: int|
                0 <= ch < CHANNEL_COUNT ==> #[trigger] seen@[ch] == channel_seen(
                    events@.subrange(0, i as int),
                    ch,
                ) && instruments@[ch] == instrument_of(events@.subrange(0, i as int), ch),
        decreases events@.len() - i,
    {
        let e = events[i];
        assert(message_wf(events@[i as int].channel, events@[i as int].message));
        let ch = e.channel as usize;
        let ghost seen0 = seen@;
        let ghost inst0 = instruments@;
        let ghost pre = events@.subrange(0, i as int);
        assert forall|c: int| 0 <= c < CHANNEL_COUNT implies #[trigger] seen0[c] == channel_seen(pre, c)
            && inst0[c] == instrument_of(pre, c) by {
            assert(seen@[c] == channel_seen(pre, c));
        }
        seen.set(ch, true);
        match e.message {
            VoiceMessage::ProgramChange { program } => {
                instruments.set(ch, program);
            },
            _ => {},
        }
        proof {
            let post = events@.subrange(0, i as int + 1);
            assert(post.drop_last() =~= pre);
            assert(post.last() == e);
            assert forall|c: int| 0 <= c < CHANNEL_COUNT implies #[trigger] seen@[c] == channel_seen(
                post,
                c,
            ) && instruments@[c] == instrument_of(post, c) by {
                assert(seen0[c] == channel_seen(pre, c));
                assert(inst0[c] == instrument_of(pre, c));
                assert(channel_seen(post, c) == (e.channel == c || channel_seen(pre, c)));
                assert(instrument_of(post, c) == match e.message {
                    VoiceMessage::ProgramChange { program } if e.channel == c => program,
                    _ => instrument_of(pre, c),
                });
            }
        }
        i = i + 1;
    }
    proof {
        assert(events@.subrange(0, events@.len() as int) =~= events@);
    }
    let mut out: Vec<Channel> = Vec::new();
    let mut c: usize = 0;
    while c < CHANNEL_COUNT
        invariant
            0 <= c <= CHANNEL_COUNT,
            seen@.len() == CHANNEL_COUNT,
            instruments@.len() == CHANNEL_COUNT,
            forall|ch: int|
                0 <= ch < CHANNEL_COUNT ==> #[trigger] seen@[ch] == channel_seen(events@, ch)
                    && instruments@[ch] == instrument_of(events@, ch),
            out@ == channels_below(events@, c as int),
        decreases CHANNEL_COUNT - c,
    {
        if seen[c] {
            out.push(Channel { id: c as u8, instrument: instruments[c], is_drum: c as u8 == DRUM_CHANNEL });
        }
        c = c + 1;
    }
    out
}

/// Ticks per quarter note of a file: only metrical timing with a non-zero
/// division is supported.
pub fn extract_ticks_per_quarter(smf: &SmfData) -> (r: Result<u32, MidiError>)
    ensures
        match smf.timing {
            TimeDivision::Metrical(t) => if t > 0 {
                r == Ok::<u32, MidiError>(t as u32)
            } else {
                r matches Err(MidiError::UnsupportedTimingFormat)
            },
            TimeDivision::Timecode => r matches Err(MidiError::UnsupportedTimingFormat),
        },
{
    match smf.timing {
        TimeDivision::Metrical(t) => if t > 0 {
            Ok(t as u32)
        } else {
            Err(MidiError::UnsupportedTimingFormat)
        },
        TimeDivision::Timecode => Err(MidiError::UnsupportedTimingFormat),
    }
}

/// The tempo changes of a file's tempo map.
pub open spec fn tempo_changes_of(smf: SmfModel) -> Seq<TempoChange> {
    merge_tempos(
        seq![TempoChange { tick: 0, tempo: DEFAULT_TEMPO }],
        all_tempos(smf.tracks, smf.tracks.len() as int),
    )
}

/// Tempo map, channels and voice messages of a file.
pub fn extract_midi_metadata(smf: &SmfData, ticks_per_quarter: u32) -> (r: (TempoMap, Vec<Channel>, Vec<TimedMessage>))
    requires
        ticks_per_quarter > 0,
        tracks_wf(smf@.tracks),
    ensures
        r.0.wf(),
        r.0.changes@ == tempo_changes_of(smf@),
        r.0.ticks_per_quarter == ticks_per_quarter,
        r.1@ == channels_below(r.2@, CHANNEL_COUNT as int),
        r.2@ == all_messages(smf@.tracks, smf@.tracks.len() as int),
        messages_wf(r.2@),
{
    let mut tempo_map = TempoMap::new(ticks_per_quarter);
    let (tempo_changes, all_events, channels) = collect_events_from_tracks(smf);
    process_tempo_changes(&mut tempo_map, &tempo_changes);
    proof {
        lemma_all_messages_wf(smf@.tracks, smf@.tracks.len() as int);
    }
    (tempo_map, channels, all_events)
}

} // verus!
