//! A dry run over a whole file: how many commands it has, how long it waits
//! and how its stream ends.

use crate::bytes::stands_at;
use crate::command::{
    cut_off, lemma_step_of_command, lemma_step_of_cut_command, undefined_command, Command,
};
use crate::event::{Error, Event};
use crate::reader::{step, Reader};
use crate::stream::{end_from, events_from, lemma_step_progress};
use vstd::prelude::*;

verus! {

/// A stream with more events than this is taken to have no end.
pub const SCAN_LIMIT: u64 = 200_000_000;

/// How a scan ended.
#[derive(Debug, Clone, Copy, PartialEq, Eq, Structural)]
pub enum ScanEnd {
    /// At the end marker.
    Complete,
    /// With an error of the stream.
    Failed(Error),
    /// After too many events.
    Endless,
}

/// The result of a scan.
#[derive(Debug, Clone, Copy, PartialEq, Eq, Structural)]
pub struct Scan {
    /// Events before the end, the end marker not among them.
    pub events: u64,
    /// Ticks of the wait commands among them.
    pub waits: u64,
    pub end: ScanEnd,
}

/// The ticks of a wait command; 0 for any other event.
pub open spec fn wait_of(ev: Event) -> int {
    match ev {
        Event::Wait { ticks } => ticks as int,
        _ => 0,
    }
}

/// The ticks of all wait commands among `evs`.
pub open spec fn total_wait(evs: Seq<Event>) -> int
    decreases evs.len(),
{
    if evs.len() == 0 {
        0
    } else {
        total_wait(evs.drop_last()) + wait_of(evs.last())
    }
}

/// What a scan of `d` from `start` finds. The walk is cut off when it has
/// passed [`SCAN_LIMIT`].
pub open spec fn scan_of(d: Seq<u8>, start: int) -> Scan {
    let evs = events_from(d, start, 0);
    if evs.len() > SCAN_LIMIT {
        Scan {
            events: (SCAN_LIMIT + 1) as u64,
            waits: total_wait(evs.take(SCAN_LIMIT + 1)) as u64,
            end: ScanEnd::Endless,
        }
    } else {
        Scan {
            events: evs.len() as u64,
            waits: total_wait(evs) as u64,
            end: match end_from(d, start, 0) {
                Ok(_) => ScanEnd::Complete,
                Err(e) => ScanEnd::Failed(e),
            },
        }
    }
}

/// Runs through the commands of `data` from `start` to their end.
pub fn scan(data: &[u8], start: usize) -> (r: Scan)
    ensures
        r == scan_of(data@, start as int),
        r.events <= SCAN_LIMIT + 1,
{
    let mut reader = Reader::new(data, start);
    let mut events: u64 = 0;
    let mut waits: u64 = 0;
    let ghost all = events_from(data@, start as int, 0);
    assert(all.take(0) =~= Seq::<Event>::empty());
    assert(all.skip(0) =~= all);
    loop
        invariant
            reader.data@ == data@,
            all == events_from(data@, start as int, 0),
            events <= SCAN_LIMIT,
            events <= all.len(),
            all.skip(events as int) == events_from(data@, reader.pos as int, reader.dac_ptr),
            end_from(data@, start as int, 0) == end_from(
                data@,
                reader.pos as int,
                reader.dac_ptr,
            ),
            waits == total_wait(all.take(events as int)),
            waits <= events * 0xFFFF,
        decreases data@.len() - reader.pos,
    {
        let ghost pos = reader.pos as int;
        let ghost dac_ptr = reader.dac_ptr;
        let ghost rest = events_from(data@, pos, dac_ptr);
        proof {
            lemma_step_progress(data@, pos, dac_ptr);
            if rest.len() == 0 {
                assert(all.len() == events);
                assert(all.take(events as int) =~= all);
            }
        }
        match reader.next_event() {
            Ok(ev) => {
                if ev == Event::End {
                    return Scan { events, waits, end: ScanEnd::Complete };
                }
                proof {
                    let s = step(data@, pos, dac_ptr);
                    let tail = events_from(data@, s.pos, s.dac_ptr);
                    assert(rest =~= seq![ev] + tail);
                    assert(all.skip(events as int)[0] == ev);
                    assert(all[events as int] == ev);
                    assert(all.skip(events + 1) =~= tail) by {
                        assert(all.skip(events + 1) =~= all.skip(events as int).skip(1));
                        assert(rest.skip(1) =~= tail);
                    }
                    assert(all.take(events + 1).drop_last() =~= all.take(events as int));
                }
                if let Event::Wait { ticks } = ev {
                    waits = waits + ticks as u64;
                }
                events = events + 1;
                if events > SCAN_LIMIT {
                    return Scan { events, waits, end: ScanEnd::Endless };
                }
            },
            Err(e) => {
                return Scan { events, waits, end: ScanEnd::Failed(e) };
            },
        }
    }
}

/// The bytes of the commands `cs`, one behind the other.
pub open spec fn stream_bytes(cs: Seq<Command>) -> Seq<u8>
    decreases cs.len(),
{
    if cs.len() == 0 {
        Seq::empty()
    } else {
        cs[0].bytes() + stream_bytes(cs.drop_first())
    }
}

/// The ticks that the commands `cs` wait.
pub open spec fn stream_ticks(cs: Seq<Command>) -> int
    decreases cs.len(),
{
    if cs.len() == 0 {
        0
    } else {
        cs[0].ticks() + stream_ticks(cs.drop_first())
    }
}

/// `cs` can stand in a stream before its end marker.
pub open spec fn stream_body(cs: Seq<Command>) -> bool {
    forall|i: int| 0 <= i < cs.len() ==> #[trigger] cs[i].valid() && !(cs[i] is End)
}

/// What the commands `cs` say, one behind the other from `pos` on.
spec fn stream_says(cs: Seq<Command>, pos: int, dac_ptr: u32) -> Seq<Event>
    decreases cs.len(),
{
    if cs.len() == 0 {
        Seq::empty()
    } else {
        seq![cs[0].says(pos, dac_ptr)] + stream_says(
            cs.drop_first(),
            pos + cs[0].bytes().len(),
            cs[0].dac_ptr_behind(dac_ptr),
        )
    }
}

/// The DAC bank pointer behind the commands `cs`.
spec fn dac_ptr_behind(cs: Seq<Command>, dac_ptr: u32) -> u32
    decreases cs.len(),
{
    if cs.len() == 0 {
        dac_ptr
    } else {
        dac_ptr_behind(cs.drop_first(), cs[0].dac_ptr_behind(dac_ptr))
    }
}

/// The ticks of two runs of events add up, and no event waits for more than
/// 0xFFFF ticks.
pub proof fn lemma_waits_add_up(a: Seq<Event>, b: Seq<Event>)
    ensures
        total_wait(a + b) == total_wait(a) + total_wait(b),
        0 <= total_wait(b) <= 0xFFFF * b.len(),
    decreases b.len(),
{
    if b.len() == 0 {
        assert(a + b =~= a);
    } else {
        lemma_waits_add_up(a, b.drop_last());
        assert((a + b).drop_last() =~= a + b.drop_last());
        assert((a + b).last() == b.last());
    }
}

/// A walk over written commands meets what they say, and goes on behind them.
#[verifier::rlimit(40)]
proof fn lemma_walk_over_commands(d: Seq<u8>, pos: int, dac_ptr: u32, cs: Seq<Command>)
    requires
        stream_body(cs),
        stands_at(d, pos, stream_bytes(cs)),
    ensures
        ({
            let end = pos + stream_bytes(cs).len();
            let q = dac_ptr_behind(cs, dac_ptr);
            &&& events_from(d, pos, dac_ptr) == stream_says(cs, pos, dac_ptr) + events_from(
                d,
                end,
                q,
            )
            &&& end_from(d, pos, dac_ptr) == end_from(d, end, q)
            &&& stream_says(cs, pos, dac_ptr).len() == cs.len()
            &&& total_wait(stream_says(cs, pos, dac_ptr)) == stream_ticks(cs)
        }),
    decreases cs.len(),
{
    if cs.len() == 0 {
        assert(Seq::<Event>::empty() + events_from(d, pos, dac_ptr) =~= events_from(
            d,
            pos,
            dac_ptr,
        ));
    } else {
        let c = cs[0];
        assert(cs[0].valid());
        let rest = cs.drop_first();
        let all = stream_bytes(cs);
        let next = pos + c.bytes().len();
        let q = c.dac_ptr_behind(dac_ptr);
        assert(d.subrange(pos, next) =~= all.take(c.bytes().len() as int));
        assert(all.take(c.bytes().len() as int) =~= c.bytes());
        assert(d.subrange(next, next + stream_bytes(rest).len()) =~= all.skip(
            c.bytes().len() as int,
        ));
        assert(all.skip(c.bytes().len() as int) =~= stream_bytes(rest));
        assert(stream_body(rest)) by {
            assert forall|i: int| 0 <= i < rest.len() implies #[trigger] rest[i].valid() && !(
            rest[i] is End) by {
                assert(cs[i + 1].valid());
            }
        }
        lemma_step_of_command(d, pos, dac_ptr, c);
        lemma_walk_over_commands(d, next, q, rest);
        let ev = c.says(pos, dac_ptr);
        let tail = stream_says(rest, next, q);
        assert(ev != Event::End);
        lemma_waits_add_up(seq![ev], tail);
        assert(total_wait(seq![ev]) == wait_of(ev)) by {
            reveal_with_fuel(total_wait, 2);
            assert(seq![ev].drop_last() =~= Seq::<Event>::empty());
        }
        assert(wait_of(ev) == c.ticks());
        let behind = events_from(d, next + stream_bytes(rest).len(), dac_ptr_behind(rest, q));
        assert(seq![ev] + (tail + behind) =~= (seq![ev] + tail) + behind);
    }
}

/// A written stream is scanned as it was written: the scan counts its commands
/// and adds up its waits, and it ends as the stream does, at the end marker, at
/// a byte that is no command, or where the buffer ends, between two commands or
/// inside the command `last`.
pub proof fn lemma_written_stream_is_scanned(
    data: &[u8],
    start: usize,
    r: Scan,
    cs: Seq<Command>,
    last: Command,
)
    requires
        call_ensures(scan, (data, start), r),
        stream_body(cs),
        cs.len() <= 200_000_000,
        stands_at(data@, start as int, stream_bytes(cs)),
    ensures
        ({
            let end = start + stream_bytes(cs).len();
            let at_end = end < data@.len() && data@[end] == 0x66;
            let at_no_command = end < data@.len() && undefined_command(data@[end]);
            let cut = end == data@.len() || cut_off(data@, end, last);
            &&& at_end || at_no_command || cut ==> r.events == cs.len() && r.waits == stream_ticks(
                cs,
            )
            &&& at_end ==> r.end == ScanEnd::Complete
            &&& at_no_command ==> r.end == ScanEnd::Failed(
                Error::UnknownCommand { cmd: data@[end], pos: end as usize },
            )
            &&& cut ==> r.end == ScanEnd::Failed(Error::TooShort)
        }),
{
    let d = data@;
    let end = start + stream_bytes(cs).len();
    let q = dac_ptr_behind(cs, 0);
    let evs = stream_says(cs, start as int, 0);
    lemma_walk_over_commands(d, start as int, 0, cs);
    lemma_waits_add_up(Seq::empty(), evs);
    if cut_off(d, end, last) {
        lemma_step_of_cut_command(d, end, q, last);
    }
    if end == d.len() || cut_off(d, end, last) || undefined_command(d[end]) || d[end] == 0x66 {
        assert(evs + events_from(d, end, q) =~= evs);
    }
}

/// Behind the end of the buffer there is nothing to scan.
pub proof fn lemma_nothing_to_scan(data: &[u8], start: usize, r: Scan)
    requires
        call_ensures(scan, (data, start), r),
        start >= data@.len(),
    ensures
        r.events == 0,
        r.waits == 0,
        r.end == ScanEnd::Failed(Error::TooShort),
{
}

/// A stream of more than 200,000,000 commands is given up behind the first one
/// too many, whatever follows.
pub proof fn lemma_long_stream_is_given_up(
    data: &[u8],
    start: usize,
    r: Scan,
    cs: Seq<Command>,
)
    requires
        call_ensures(scan, (data, start), r),
        stream_body(cs),
        cs.len() == 200_000_001,
        stands_at(data@, start as int, stream_bytes(cs)),
    ensures
        r.events == cs.len(),
        r.waits == stream_ticks(cs),
        r.end == ScanEnd::Endless,
{
    let d = data@;
    let evs = stream_says(cs, start as int, 0);
    let rest = events_from(d, start + stream_bytes(cs).len(), dac_ptr_behind(cs, 0));
    lemma_walk_over_commands(d, start as int, 0, cs);
    lemma_waits_add_up(Seq::empty(), evs);
    assert((evs + rest).take(200_000_001) =~= evs);
}

} // verus!
