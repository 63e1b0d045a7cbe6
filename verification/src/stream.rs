//! The stream as a whole: what holds of every command and of whole walks.

use crate::event::{Chip, Error, Event};
use crate::reader::{operand_count, short_field_chip, step};
use vstd::prelude::*;

verus! {

/// All events from `pos` on, up to the end marker or the first error, neither
/// of which is among them.
pub open spec fn events_from(d: Seq<u8>, pos: int, dac_ptr: u32) -> Seq<Event>
    decreases d.len() - pos,
{
    let s = step(d, pos, dac_ptr);
    match s.outcome {
        Ok(ev) => if ev == Event::End || pos < 0 {
            Seq::empty()
        } else {
            proof {
                lemma_step_progress(d, pos, dac_ptr);
            }
            seq![ev] + events_from(d, s.pos, s.dac_ptr)
        },
        Err(_) => Seq::empty(),
    }
}

/// How the walk from `pos` ends: at the end marker, or with an error.
pub open spec fn end_from(d: Seq<u8>, pos: int, dac_ptr: u32) -> Result<(), Error>
    decreases d.len() - pos,
{
    let s = step(d, pos, dac_ptr);
    match s.outcome {
        Ok(ev) => if ev == Event::End || pos < 0 {
            Ok(())
        } else {
            proof {
                lemma_step_progress(d, pos, dac_ptr);
            }
            end_from(d, s.pos, s.dac_ptr)
        },
        Err(e) => Err(e),
    }
}

/// The position and the DAC pointer after `n` steps from `pos`.
pub open spec fn state_after(d: Seq<u8>, pos: int, dac_ptr: u32, n: nat) -> (int, u32)
    decreases n,
{
    if n == 0 {
        (pos, dac_ptr)
    } else {
        let s = step(d, pos, dac_ptr);
        state_after(d, s.pos, s.dac_ptr, (n - 1) as nat)
    }
}

/// The two events are the same, but for the DAC bank offset where both take a
/// byte from the DAC bank.
pub open spec fn same_but_dac_offset(a: Event, b: Event) -> bool {
    ||| a == b
    ||| (a matches Event::Ym2612Dac { ticks: ta, offset: _ } && b matches Event::Ym2612Dac {
        ticks: tb,
        offset: _,
    } && ta == tb)
}

/// An event moves the position forward, by the command byte at least, and
/// never out of the buffer. An error does not move it back or out, and leaves
/// the DAC pointer alone.
pub proof fn lemma_step_progress(d: Seq<u8>, pos: int, dac_ptr: u32)
    ensures
        ({
            let s = step(d, pos, dac_ptr);
            match s.outcome {
                Ok(_) => pos < s.pos <= d.len(),
                Err(_) => pos <= s.pos && (pos <= d.len() ==> s.pos <= d.len()) && s.dac_ptr
                    == dac_ptr,
            }
        }),
{
}

/// An event depends on the bytes that it takes and on nothing else of the
/// buffer: whatever lies before the command and behind it can be replaced.
pub proof fn lemma_step_is_local(a: Seq<u8>, b: Seq<u8>, pos: int, dac_ptr: u32)
    requires
        0 <= pos,
        step(a, pos, dac_ptr).outcome is Ok,
        step(a, pos, dac_ptr).pos <= b.len(),
        forall|i: int| pos <= i < step(a, pos, dac_ptr).pos ==> a[i] == b[i],
    ensures
        step(b, pos, dac_ptr) == step(a, pos, dac_ptr),
{
}

/// The position alone decides what is read. The DAC pointer changes nothing
/// but the bank offset of a DAC event.
pub proof fn lemma_position_decides(d: Seq<u8>, pos: int, a: u32, b: u32)
    ensures
        step(d, pos, a).pos == step(d, pos, b).pos,
        match (step(d, pos, a).outcome, step(d, pos, b).outcome) {
            (Ok(x), Ok(y)) => same_but_dac_offset(x, y),
            (Err(x), Err(y)) => x == y,
            _ => false,
        },
{
}

/// A saved position can be put back, as a loop does: the same events come
/// again and the walk ends in the same way, whatever the DAC pointer is by
/// then, but for the bank offsets of DAC events.
pub proof fn lemma_replay(d: Seq<u8>, pos: int, a: u32, b: u32)
    ensures
        events_from(d, pos, a).len() == events_from(d, pos, b).len(),
        forall|i: int|
            0 <= i < events_from(d, pos, a).len() ==> same_but_dac_offset(
                #[trigger] events_from(d, pos, a)[i],
                events_from(d, pos, b)[i],
            ),
        end_from(d, pos, a) == end_from(d, pos, b),
    decreases d.len() - pos,
{
    lemma_position_decides(d, pos, a, b);
    lemma_step_progress(d, pos, a);
    let sa = step(d, pos, a);
    let sb = step(d, pos, b);
    if let Ok(ev) = sa.outcome {
        if ev != Event::End && pos >= 0 {
            lemma_replay(d, sa.pos, sa.dac_ptr, sb.dac_ptr);
            let ra = events_from(d, sa.pos, sa.dac_ptr);
            let rb = events_from(d, sb.pos, sb.dac_ptr);
            assert forall|i: int| 0 <= i < events_from(d, pos, a).len() implies same_but_dac_offset(
                #[trigger] events_from(d, pos, a)[i],
                events_from(d, pos, b)[i],
            ) by {
                if i > 0 {
                    assert(events_from(d, pos, a)[i] == ra[i - 1]);
                    assert(events_from(d, pos, b)[i] == rb[i - 1]);
                }
            }
        }
    }
}

/// A walk can be interrupted anywhere: what is left after `n` events is the
/// walk from the position and the DAC pointer reached by then.
pub proof fn lemma_resume(d: Seq<u8>, pos: int, dac_ptr: u32, n: nat)
    requires
        n <= events_from(d, pos, dac_ptr).len(),
    ensures
        ({
            let (p, q) = state_after(d, pos, dac_ptr, n);
            &&& events_from(d, pos, dac_ptr).skip(n as int) == events_from(d, p, q)
            &&& end_from(d, pos, dac_ptr) == end_from(d, p, q)
        }),
    decreases n,
{
    let all = events_from(d, pos, dac_ptr);
    if n == 0 {
        assert(all.skip(0) =~= all);
    } else {
        let s = step(d, pos, dac_ptr);
        let rest = events_from(d, s.pos, s.dac_ptr);
        assert(all.skip(1) =~= rest);
        lemma_resume(d, s.pos, s.dac_ptr, (n - 1) as nat);
        assert(all.skip(n as int) =~= rest.skip(n - 1));
    }
}

/// A write for the second instance of a chip does not reach the first. The
/// mirror commands 0xA1-0xAF always give [`Event::SecondChip`]. Where bit 7 of
/// the register byte (the AY-3-8910, NES APU, Game Boy, OKIM6258, OKIM6295 and
/// K053260), the top bit of the offset (SegaPCM) or bit 7 of the port byte
/// (K051649) selects the instance, that bit is never part of a write.
///
/// The HuC6280 (0xB9) is the exception: its register byte is handed on whole,
/// and a bit 7 that is set there stays in the address.
pub proof fn lemma_second_chip_is_kept_apart(d: Seq<u8>, pos: int, dac_ptr: u32)
    requires
        0 <= pos < d.len(),
        step(d, pos, dac_ptr).outcome is Ok,
    ensures
        ({
            let cmd = d[pos];
            let ev = step(d, pos, dac_ptr).outcome->Ok_0;
            &&& 0xA1 <= cmd <= 0xAF ==> ev == (Event::SecondChip { cmd })
            &&& short_field_chip(cmd) is Some ==> (ev == (Event::SecondChip { cmd })
                <==> d[pos + 1] >= 0x80)
            &&& cmd == 0xC0 ==> (ev == (Event::SecondChip { cmd }) <==> d[pos + 2] >= 0x80)
            &&& cmd == 0xD2 ==> (ev == (Event::SecondChip { cmd }) <==> d[pos + 1] >= 0x80)
            &&& cmd == 0xB9 ==> ev == (Event::Write {
                chip: Chip::HuC6280,
                port: 0,
                addr: d[pos + 1],
                data: d[pos + 2],
            })
            &&& ev matches Event::SecondChip { cmd: c } ==> c == cmd && 0xA0 <= cmd <= 0xD2
            &&& ev matches Event::SegaPcmWrite { offset, data: _ } ==> offset < 0x8000
            &&& ev matches Event::Write { chip: Chip::K051649, port, addr: _, data: _ } ==> port
                < 0x80
            &&& ev matches Event::Write { chip, port: _, addr, data: _ } ==> (chip == Chip::Ay8910
                || chip == Chip::NesApu || chip == Chip::GbDmg || chip == Chip::Okim6258 || chip
                == Chip::Okim6295 || chip == Chip::K053260 ==> addr < 0x80)
        }),
{
}

/// The Game Gear stereo mask is no PSG write: 0x4F and 0x3F give the mask and
/// nothing else does, and the only PSG writes are 0x50 and 0x30.
pub proof fn lemma_stereo_mask_is_no_psg_write(d: Seq<u8>, pos: int, dac_ptr: u32)
    requires
        0 <= pos < d.len(),
        step(d, pos, dac_ptr).outcome is Ok,
    ensures
        ({
            let cmd = d[pos];
            let ev = step(d, pos, dac_ptr).outcome->Ok_0;
            &&& ev is GgStereo <==> cmd == 0x4F || cmd == 0x3F
            &&& ev matches Event::GgStereo { chip2, mask } ==> mask == d[pos + 1] && (chip2
                <==> cmd == 0x3F)
            &&& (ev matches Event::Write { chip: Chip::Sn76489, port: _, addr: _, data: _ })
                <==> cmd == 0x50 || cmd == 0x30
        }),
{
}

/// No command is lost: every byte value is either refused as an unknown
/// command or, given its operands, answered with an event. An unplayed
/// command still names itself.
pub proof fn lemma_every_command_is_answered(d: Seq<u8>, pos: int, dac_ptr: u32)
    requires
        0 <= pos < d.len() <= usize::MAX,
    ensures
        ({
            let cmd = d[pos];
            let s = step(d, pos, dac_ptr);
            &&& cmd != 0x67 && operand_count(cmd) is None <==> s.outcome == Err::<Event, Error>(
                Error::UnknownCommand { cmd, pos: pos as usize },
            )
            &&& s.outcome matches Err(e) ==> e == Error::TooShort || e == (Error::UnknownCommand {
                cmd,
                pos: pos as usize,
            })
            &&& s.outcome matches Ok(Event::Write { chip: Chip::Unknown(c), .. }) ==> c == cmd
        }),
{
}

/// The data that an event points to lie inside the buffer and behind its
/// command byte, and the next command starts right behind them.
pub proof fn lemma_blocks_lie_in_the_buffer(d: Seq<u8>, pos: int, dac_ptr: u32)
    requires
        0 <= pos < d.len() <= usize::MAX,
    ensures
        ({
            let s = step(d, pos, dac_ptr);
            &&& s.outcome matches Ok(Event::DataBlock { kind: _, start, len }) ==> start == pos + 7
                && start + len == s.pos && s.pos <= d.len()
            &&& s.outcome matches Ok(Event::DacStream { cmd: _, start, len }) ==> start == pos + 1
                && start + len == s.pos && s.pos <= d.len()
        }),
{
}

} // verus!
