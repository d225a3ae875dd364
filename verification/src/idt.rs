//! The interrupt descriptor table: 256 gates. The caller loads it (`lidt`)
//! with base and `IDT_LIMIT`.
use vstd::prelude::*;

verus! {

pub const IDT_ENTRIES: usize = 256;
pub const KERNEL_CS: u16 = 0x08;
/// Present, ring 0, 32-bit interrupt gate.
pub const GATE_KERNEL: u8 = 0x8E;
/// Present, ring 3 callable, 32-bit interrupt gate (for `int 0x80`).
pub const GATE_USER: u8 = 0xEE;
/// Limit of the IDT register: 256 gates of 8 bytes, minus one.
pub const IDT_LIMIT: u16 = 2047;

/// One 8-byte gate: the handler address split in two halves, the code
/// segment selector and the type/attribute byte.
#[derive(Clone, Copy, PartialEq, Eq, Structural)]
pub struct IdtGate {
    pub low_offset: u16,
    pub sel: u16,
    pub always0: u8,
    pub flags: u8,
    pub high_offset: u16,
}

/// An interrupt gate.
pub open spec fn gate_spec(handler: u32, flags: u8) -> IdtGate {
    IdtGate {
        low_offset: (handler % 0x10000) as u16,
        sel: KERNEL_CS,
        always0: 0,
        flags,
        high_offset: (handler / 0x10000) as u16,
    }
}

/// The all-zero (absent) gate.
pub open spec fn empty_gate() -> IdtGate {
    IdtGate { low_offset: 0, sel: 0, always0: 0, flags: 0, high_offset: 0 }
}

impl IdtGate {
    /// Builds an interrupt gate from a handler address and flags.
    pub fn new(handler: u32, flags: u8) -> (g: IdtGate)
        ensures
            g == gate_spec(handler, flags),
    {
        let lo = (handler & 0xFFFF) as u16;
        let hi = ((handler >> 16) & 0xFFFF) as u16;
        assert(lo == handler % 0x10000 && hi == handler / 0x10000) by (bit_vector)
            requires
                lo == (handler & 0xFFFF) as u16,
                hi == ((handler >> 16) & 0xFFFF) as u16,
        ;
        IdtGate { low_offset: lo, sel: KERNEL_CS, always0: 0, flags, high_offset: hi }
    }
}

/// The interrupt descriptor table.
pub struct Idt {
    pub gates: Vec<IdtGate>,
}

impl Idt {
    pub open spec fn wf(&self) -> bool {
        self.gates@.len() == IDT_ENTRIES
    }

    /// A table of absent gates.
    pub fn new() -> (t: Idt)
        ensures
            t.wf(),
            forall|i: int| 0 <= i < IDT_ENTRIES ==> #[trigger] t.gates@[i] == empty_gate(),
    {
        let mut gates: Vec<IdtGate> = Vec::new();
        let mut i: usize = 0;
        while i < IDT_ENTRIES
            invariant
                i <= IDT_ENTRIES,
                gates@.len() == i,
                forall|k: int| 0 <= k < i ==> #[trigger] gates@[k] == empty_gate(),
            decreases IDT_ENTRIES - i,
        {
            gates.push(IdtGate { low_offset: 0, sel: 0, always0: 0, flags: 0, high_offset: 0 });
            i += 1;
        }
        Idt { gates }
    }

    /// Points gate `n` at `handler` with attribute byte `flags`.
    pub fn set_idt_gate_flags(&mut self, n: usize, handler: u32, flags: u8)
        requires
            old(self).wf(),
            n < IDT_ENTRIES,
        ensures
            final(self).wf(),
            final(self).gates@ == old(self).gates@.update(n as int, gate_spec(handler, flags)),
    {
        let g = IdtGate::new(handler, flags);
        self.gates.set(n, g);
    }

    /// Points gate `n` at `handler` as a ring-0 interrupt gate.
    pub fn set_idt_gate(&mut self, n: usize, handler: u32)
        requires
            old(self).wf(),
            n < IDT_ENTRIES,
        ensures
            final(self).wf(),
            final(self).gates@ == old(self).gates@.update(n as int, gate_spec(handler, GATE_KERNEL)),
    {
        self.set_idt_gate_flags(n, handler, GATE_KERNEL);
    }

    /// Points gates `first`, `first + 1`, ... at `handlers` (ring-0 gates).
    pub fn install(&mut self, first: usize, handlers: &[u32])
        requires
            old(self).wf(),
            first + handlers@.len() <= IDT_ENTRIES,
        ensures
            final(self).wf(),
            forall|i: int| 0 <= i < IDT_ENTRIES ==> #[trigger] final(self).gates@[i] == (
                if first <= i < first + handlers@.len() { gate_spec(handlers@[i - first], GATE_KERNEL) } else { old(self).gates@[i] }),
    {
        let mut k: usize = 0;
        while k < handlers.len()
            invariant
                self.wf(),
                first + handlers@.len() <= IDT_ENTRIES,
                k <= handlers@.len(),
                forall|i: int| 0 <= i < IDT_ENTRIES ==> #[trigger] self.gates@[i] == (
                    if first <= i < first + k { gate_spec(handlers@[i - first], GATE_KERNEL) } else { old(self).gates@[i] }),
            decreases handlers@.len() - k,
        {
            self.set_idt_gate(first + k, handlers[k]);
            k += 1;
        }
    }
}

} // verus!
