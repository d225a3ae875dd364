//! The PIT timer: tick counting and the uptime label shown in the top-right
//! corner of the screen every second.
use vstd::prelude::*;
use crate::string::dec_str;
use crate::text::{ascii, push_dec};

verus! {

/// Ticks per second the kernel programs.
pub const TICKS_PER_SEC: u32 = 50;
/// Input clock of the PIT in Hz.
pub const PIT_CLOCK: u32 = 1193180;
/// Where the uptime label goes.
pub const LABEL_COL: i32 = 72;
pub const LABEL_ROW: i32 = 0;

/// The uptime label: `UP:` then the seconds, then `s`.
pub open spec fn uptime_label(secs: u32) -> Seq<u8> {
    seq![85u8, 80u8, 58u8] + dec_str(secs as int) + seq![115u8]
}

/// Timer interrupts since boot.
pub struct Timer {
    pub ticks: u32,
}

impl Timer {
    pub fn new() -> (t: Timer)
        ensures
            t.ticks == 0,
    {
        Timer { ticks: 0 }
    }

    /// Ticks so far.
    pub fn ticks(&self) -> (r: u32)
        ensures
            r == self.ticks,
    {
        self.ticks
    }

    /// Counts one tick; on every 50th returns the new uptime label to write
    /// at (72, 0). The label must fit its 12-byte buffer (below ten million
    /// seconds).
    pub fn tick(&mut self) -> (r: Option<Vec<u8>>)
        requires
            old(self).ticks < u32::MAX,
            (old(self).ticks + 1) % 50 == 0 ==> (old(self).ticks + 1) / 50 < 10_000_000,
        ensures
            final(self).ticks == old(self).ticks + 1,
            final(self).ticks % 50 != 0 ==> r is None,
            final(self).ticks % 50 == 0 ==> (r matches Some(l) && l@ == uptime_label(final(self).ticks / 50)),
    {
        self.ticks = self.ticks + 1;
        if self.ticks % 50 != 0 {
            return None;
        }
        let up = self.ticks / 50;
        let mut label: Vec<u8> = Vec::new();
        label.push(85);
        label.push(80);
        label.push(58);
        push_dec(&mut label, up as i32);
        label.push(115);
        proof {
            assert(label@ =~= uptime_label(up));
        }
        Some(label)
    }
}

/// The PIT divisor for `freq` Hz as the low and high bytes written to port
/// 0x40 (after command 0x36 to port 0x43).
pub fn pit_divisor(freq: u32) -> (r: (u8, u8))
    requires
        freq > 0,
    ensures
        r.0 == (PIT_CLOCK / freq) % 256,
        r.1 == ((PIT_CLOCK / freq) / 256) % 256,
{
    let divisor = PIT_CLOCK / freq;
    let lo = (divisor & 0xFF) as u8;
    let hi = ((divisor >> 8) & 0xFF) as u8;
    assert(lo == divisor % 256 && hi == (divisor / 256) % 256) by (bit_vector)
        requires
            lo == (divisor & 0xFF) as u8,
            hi == ((divisor >> 8) & 0xFF) as u8,
    ;
    (lo, hi)
}

} // verus!
