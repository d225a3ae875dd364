//! CPU exceptions and hardware interrupts: what the handlers decide. The
//! assembly stubs push a `Registers` frame and call in; the caller prints
//! the reports, acknowledges the PICs and runs registered IRQ callbacks.
use vstd::prelude::*;
use vstd::string::is_ascii;
use crate::paging::{Paging, GROW_BASE, GROW_TOP, pde_index, is_present, entry_frame};
use crate::pmm::{FrameAllocator, count_free, alloc_frame_spec};
use crate::string::{dec_str, hex_str};
use crate::text::{ascii, push_str, push_dec, push_hex};

verus! {

/// The register frame the interrupt stubs save.
#[derive(Clone, Copy, PartialEq, Eq, Structural)]
pub struct Registers {
    pub ds: u32,
    pub edi: u32,
    pub esi: u32,
    pub ebp: u32,
    pub useless: u32,
    pub ebx: u32,
    pub edx: u32,
    pub ecx: u32,
    pub eax: u32,
    pub int_no: u32,
    pub err_code: u32,
    pub eip: u32,
    pub cs: u32,
    pub eflags: u32,
    pub esp: u32,
    pub ss: u32,
}

/// Vector of the page fault exception.
pub const PAGE_FAULT: u32 = 14;

/// Names of the 32 CPU exceptions.
pub open spec fn exception_label(n: u32) -> Seq<char> {
    if n == 0 {
        "Division By Zero"@
    } else if n == 1 {
        "Debug"@
    } else if n == 2 {
        "Non Maskable Interrupt"@
    } else if n == 3 {
        "Breakpoint"@
    } else if n == 4 {
        "Into Detected Overflow"@
    } else if n == 5 {
        "Out of Bounds"@
    } else if n == 6 {
        "Invalid Opcode"@
    } else if n == 7 {
        "No Coprocessor"@
    } else if n == 8 {
        "Double Fault"@
    } else if n == 9 {
        "Coprocessor Segment Overrun"@
    } else if n == 10 {
        "Bad TSS"@
    } else if n == 11 {
        "Segment Not Present"@
    } else if n == 12 {
        "Stack Fault"@
    } else if n == 13 {
        "General Protection Fault"@
    } else if n == 14 {
        "Page Fault"@
    } else if n == 15 {
        "Unknown Interrupt"@
    } else if n == 16 {
        "Coprocessor Fault"@
    } else if n == 17 {
        "Alignment Check"@
    } else if n == 18 {
        "Machine Check"@
    } else if n == 19 {
        "Reserved"@
    } else if n == 20 {
        "Reserved"@
    } else if n == 21 {
        "Reserved"@
    } else if n == 22 {
        "Reserved"@
    } else if n == 23 {
        "Reserved"@
    } else if n == 24 {
        "Reserved"@
    } else if n == 25 {
        "Reserved"@
    } else if n == 26 {
        "Reserved"@
    } else if n == 27 {
        "Reserved"@
    } else if n == 28 {
        "Reserved"@
    } else if n == 29 {
        "Reserved"@
    } else if n == 30 {
        "Reserved"@
    } else if n == 31 {
        "Reserved"@
    } else {
        Seq::empty()
    }
}

/// Name of CPU exception `n` (0..=31).
pub fn exception_message(n: u32) -> (r: &'static str)
    requires
        n < 32,
    ensures
        r@ == exception_label(n),
        is_ascii(r),
{
    match n {
        0 => {
            proof { reveal_strlit("Division By Zero"); }
            "Division By Zero"
        },
        1 => {
            proof { reveal_strlit("Debug"); }
            "Debug"
        },
        2 => {
            proof { reveal_strlit("Non Maskable Interrupt"); }
            "Non Maskable Interrupt"
        },
        3 => {
            proof { reveal_strlit("Breakpoint"); }
            "Breakpoint"
        },
        4 => {
            proof { reveal_strlit("Into Detected Overflow"); }
            "Into Detected Overflow"
        },
        5 => {
            proof { reveal_strlit("Out of Bounds"); }
            "Out of Bounds"
        },
        6 => {
            proof { reveal_strlit("Invalid Opcode"); }
            "Invalid Opcode"
        },
        7 => {
            proof { reveal_strlit("No Coprocessor"); }
            "No Coprocessor"
        },
        8 => {
            proof { reveal_strlit("Double Fault"); }
            "Double Fault"
        },
        9 => {
            proof { reveal_strlit("Coprocessor Segment Overrun"); }
            "Coprocessor Segment Overrun"
        },
        10 => {
            proof { reveal_strlit("Bad TSS"); }
            "Bad TSS"
        },
        11 => {
            proof { reveal_strlit("Segment Not Present"); }
            "Segment Not Present"
        },
        12 => {
            proof { reveal_strlit("Stack Fault"); }
            "Stack Fault"
        },
        13 => {
            proof { reveal_strlit("General Protection Fault"); }
            "General Protection Fault"
        },
        14 => {
            proof { reveal_strlit("Page Fault"); }
            "Page Fault"
        },
        15 => {
            proof { reveal_strlit("Unknown Interrupt"); }
            "Unknown Interrupt"
        },
        16 => {
            proof { reveal_strlit("Coprocessor Fault"); }
            "Coprocessor Fault"
        },
        17 => {
            proof { reveal_strlit("Alignment Check"); }
            "Alignment Check"
        },
        18 => {
            proof { reveal_strlit("Machine Check"); }
            "Machine Check"
        },
        19 => {
            proof { reveal_strlit("Reserved"); }
            "Reserved"
        },
        20 => {
            proof { reveal_strlit("Reserved"); }
            "Reserved"
        },
        21 => {
            proof { reveal_strlit("Reserved"); }
            "Reserved"
        },
        22 => {
            proof { reveal_strlit("Reserved"); }
            "Reserved"
        },
        23 => {
            proof { reveal_strlit("Reserved"); }
            "Reserved"
        },
        24 => {
            proof { reveal_strlit("Reserved"); }
            "Reserved"
        },
        25 => {
            proof { reveal_strlit("Reserved"); }
            "Reserved"
        },
        26 => {
            proof { reveal_strlit("Reserved"); }
            "Reserved"
        },
        27 => {
            proof { reveal_strlit("Reserved"); }
            "Reserved"
        },
        28 => {
            proof { reveal_strlit("Reserved"); }
            "Reserved"
        },
        29 => {
            proof { reveal_strlit("Reserved"); }
            "Reserved"
        },
        30 => {
            proof { reveal_strlit("Reserved"); }
            "Reserved"
        },
        _ => {
            proof { reveal_strlit("Reserved"); }
            "Reserved"
        },
    }
}

/// What an exception handler did.
pub enum IsrOutcome {
    /// A page fault was backed on demand: the instruction is retried.
    Recovered,
    /// Text for the screen and text for the serial line.
    Report(Vec<u8>, Vec<u8>),
}

/// Screen text for an exception other than a recovered page fault.
pub open spec fn interrupt_text(n: u32) -> Seq<u8> {
    ascii("received interrupt: "@) + dec_str(n as int) + seq![10u8]
        + (if n < 32 { ascii(exception_label(n)) + seq![10u8] } else { Seq::empty() })
}

/// Screen text for a page fault that could not be backed.
pub open spec fn fault_screen_text(cr2: u32) -> Seq<u8> {
    ascii("PAGE FAULT (CR2): "@) + seq![48u8, 120u8] + hex_str(cr2) + seq![10u8]
}

/// Serial text for a page fault that could not be backed.
pub open spec fn fault_serial_text(cr2: u32) -> Seq<u8> {
    ascii("PAGE FAULT cr2="@) + seq![48u8, 120u8] + hex_str(cr2) + seq![10u8]
}

/// Handles CPU exception `regs.int_no`; `cr2` is the faulting address for a
/// page fault. A fault inside the demand-paging window is backed with a
/// fresh frame; anything else is reported.
pub fn isr_handler(regs: &Registers, cr2: u32, paging: &mut Paging, pmm: &mut FrameAllocator) -> (r: IsrOutcome)
    requires
        old(paging).wf(old(pmm)),
        old(paging).dir_ok(old(paging).kernel_dir),
        regs.int_no != PAGE_FAULT ==> regs.int_no < 1000,
        regs.int_no == PAGE_FAULT && GROW_BASE <= cr2 < GROW_TOP
            && !is_present(old(paging).entry(old(paging).kernel_dir, pde_index(cr2)))
            ==> count_free(old(pmm).view()) != 1,
    ensures
        final(paging).wf(final(pmm)),
        final(paging).dir_ok(final(paging).kernel_dir),
        final(paging).kernel_dir == old(paging).kernel_dir,
        regs.int_no != PAGE_FAULT ==> *final(paging) == *old(paging) && *final(pmm) == *old(pmm)
            && (r matches IsrOutcome::Report(s, l) && s@ == interrupt_text(regs.int_no) && l@.len() == 0),
        regs.int_no == PAGE_FAULT ==> ({
            let ok = GROW_BASE <= cr2 < GROW_TOP && count_free(old(pmm).view()) > 0;
            &&& ok ==> r is Recovered && final(paging).translate(final(paging).kernel_dir, cr2) == Some(
                (alloc_frame_spec(old(pmm).view()).1.unwrap() as u32) | 3u32)
            &&& !ok ==> *final(paging) == *old(paging) && final(pmm).view() == old(pmm).view()
                && (r matches IsrOutcome::Report(s, l) && s@ == fault_screen_text(cr2) && l@ == fault_serial_text(cr2))
        }),
{
    let n = regs.int_no;
    if n == PAGE_FAULT {
        if paging.handle_fault(pmm, cr2) {
            return IsrOutcome::Recovered;
        }
        let mut screen: Vec<u8> = Vec::new();
        let mut serial: Vec<u8> = Vec::new();
        proof {
            reveal_strlit("PAGE FAULT (CR2): ");
            reveal_strlit("PAGE FAULT cr2=");
        }
        push_str(&mut screen, "PAGE FAULT (CR2): ");
        push_hex(&mut screen, cr2);
        screen.push(10);
        push_str(&mut serial, "PAGE FAULT cr2=");
        push_hex(&mut serial, cr2);
        serial.push(10);
        proof {
            assert(screen@ =~= fault_screen_text(cr2));
            assert(serial@ =~= fault_serial_text(cr2));
        }
        return IsrOutcome::Report(screen, serial);
    }
    let mut screen: Vec<u8> = Vec::new();
    proof {
        reveal_strlit("received interrupt: ");
    }
    push_str(&mut screen, "received interrupt: ");
    push_dec(&mut screen, n as i32);
    screen.push(10);
    if n < 32 {
        let m = exception_message(n);
        push_str(&mut screen, m);
        screen.push(10);
    }
    proof {
        assert(screen@ =~= interrupt_text(n));
    }
    IsrOutcome::Report(screen, Vec::new())
}

/// Ports to acknowledge an IRQ at: the slave PIC too for vectors 40 and up,
/// then the master PIC (each gets 0x20).
pub fn irq_ack_ports(int_no: u32) -> (r: Vec<u16>)
    ensures
        int_no >= 40 ==> r@ == seq![0xA0u16, 0x20u16],
        int_no < 40 ==> r@ == seq![0x20u16],
{
    let mut v: Vec<u16> = Vec::new();
    if int_no >= 40 {
        v.push(0xA0);
    }
    v.push(0x20);
    proof {
        if int_no >= 40 {
            assert(v@ =~= seq![0xA0u16, 0x20u16]);
        } else {
            assert(v@ =~= seq![0x20u16]);
        }
    }
    v
}

/// The port writes that remap the PICs: IRQs 0-7 to vectors 32-39 and
/// 8-15 to vectors 40-47, all unmasked.
pub fn pic_remap_sequence() -> (r: Vec<(u16, u8)>)
    ensures
        r@ == seq![
            (0x20u16, 0x11u8), (0xA0u16, 0x11u8),
            (0x21u16, 0x20u8), (0xA1u16, 0x28u8),
            (0x21u16, 0x04u8), (0xA1u16, 0x02u8),
            (0x21u16, 0x01u8), (0xA1u16, 0x01u8),
            (0x21u16, 0x00u8), (0xA1u16, 0x00u8),
        ],
{
    let mut v: Vec<(u16, u8)> = Vec::new();
    v.push((0x20, 0x11));
    v.push((0xA0, 0x11));
    v.push((0x21, 0x20));
    v.push((0xA1, 0x28));
    v.push((0x21, 0x04));
    v.push((0xA1, 0x02));
    v.push((0x21, 0x01));
    v.push((0xA1, 0x01));
    v.push((0x21, 0x00));
    v.push((0xA1, 0x00));
    proof {
        assert(v@ =~= seq![
            (0x20u16, 0x11u8), (0xA0u16, 0x11u8),
            (0x21u16, 0x20u8), (0xA1u16, 0x28u8),
            (0x21u16, 0x04u8), (0xA1u16, 0x02u8),
            (0x21u16, 0x01u8), (0xA1u16, 0x01u8),
            (0x21u16, 0x00u8), (0xA1u16, 0x00u8),
        ]);
    }
    v
}

/// Interrupt vectors.
pub const VECTORS: usize = 256;

/// The callbacks registered for interrupt vectors, each named by an id the
/// caller chose: slot `n` holds the callback for vector `n`, if any.
pub struct HandlerTable {
    pub handlers: Vec<Option<u32>>,
}

/// What the IRQ entry does for a vector: the PIC ports to acknowledge (each
/// gets 0x20), in order, then the callback to run once, if one is
/// registered.
pub struct IrqAction {
    pub acks: Vec<u16>,
    pub handler: Option<u32>,
}

impl HandlerTable {
    pub open spec fn wf(&self) -> bool {
        self.handlers@.len() == VECTORS
    }

    /// The callback registered for vector `n`.
    pub open spec fn registered(&self, n: int) -> Option<u32> {
        if 0 <= n < VECTORS { self.handlers@[n] } else { None }
    }

    /// No callback registered.
    pub fn new() -> (t: HandlerTable)
        ensures
            t.wf(),
            forall|n: int| #[trigger] t.registered(n) is None,
    {
        let mut handlers: Vec<Option<u32>> = Vec::new();
        let mut i: usize = 0;
        while i < VECTORS
            invariant
                i <= VECTORS,
                handlers@.len() == i,
                forall|k: int| 0 <= k < i ==> #[trigger] handlers@[k] is None,
            decreases VECTORS - i,
        {
            handlers.push(None);
            i += 1;
        }
        HandlerTable { handlers }
    }

    /// Registers `handler` for vector `n`, replacing any earlier one.
    pub fn register_interrupt_handler(&mut self, n: u8, handler: u32)
        requires
            old(self).wf(),
        ensures
            final(self).wf(),
            final(self).handlers@ == old(self).handlers@.update(n as int, Some(handler)),
            final(self).registered(n as int) == Some(handler),
            forall|k: int| k != n ==> #[trigger] final(self).registered(k) == old(self).registered(k),
    {
        self.handlers.set(n as usize, Some(handler));
    }

    /// The callback registered for vector `n`, if any.
    pub fn handler(&self, n: u32) -> (r: Option<u32>)
        requires
            self.wf(),
        ensures
            r == self.registered(n as int),
    {
        if (n as usize) < VECTORS {
            self.handlers[n as usize]
        } else {
            None
        }
    }
}

/// Handles hardware interrupt `int_no`: acknowledge the PICs (the slave
/// too for vectors 40 and up), then run the callback last registered for
/// the vector, once.
pub fn irq_handler(table: &HandlerTable, int_no: u32) -> (r: IrqAction)
    requires
        table.wf(),
    ensures
        int_no >= 40 ==> r.acks@ == seq![0xA0u16, 0x20u16],
        int_no < 40 ==> r.acks@ == seq![0x20u16],
        r.handler == table.registered(int_no as int),
{
    IrqAction { acks: irq_ack_ports(int_no), handler: table.handler(int_no) }
}

} // verus!
