//! The asymmetric critical section. Ordinary code masks interrupts for one short window;
//! the audio interrupt, which ordinary code can never preempt, skips the mask.
use vstd::prelude::*;

verus! {

/// What a mask does: how deep it is entered, and how often it was entered and left.
pub struct MaskState {
    /// The code runs in the audio interrupt.
    pub in_interrupt: bool,
    pub depth: u32,
    pub enters: u64,
    pub exits: u64,
}

impl MaskState {
    /// After entering once more.
    pub open spec fn entered(self) -> MaskState {
        MaskState {
            depth: self.depth.wrapping_add(1),
            enters: self.enters.wrapping_add(1),
            ..self
        }
    }

    /// After leaving once.
    pub open spec fn left(self) -> MaskState {
        MaskState {
            depth: (if self.depth > 0 { self.depth - 1 } else { 0 }) as u32,
            exits: self.exits.wrapping_add(1),
            ..self
        }
    }

    /// At the start of a window: entered, but not in the interrupt.
    pub open spec fn window_start(self) -> MaskState {
        if self.in_interrupt {
            self
        } else {
            self.entered()
        }
    }

    /// At the end of a window that was entered if `active`.
    pub open spec fn window_end(self, active: bool) -> MaskState {
        if active {
            self.left()
        } else {
            self
        }
    }
}

/// The processor's interrupt mask.
pub trait InterruptMask {
    /// How it stands.
    open spec fn state(&self) -> MaskState {
        MaskState { in_interrupt: false, depth: 0, enters: 0, exits: 0 }
    }

    /// Whether the code runs in the audio interrupt.
    fn in_interrupt(&self) -> (r: bool)
        ensures
            r == self.state().in_interrupt,
    ;

    /// Masks interrupts once more.
    fn enter_critical_section(&mut self)
        ensures
            final(self).state() == old(self).state().entered(),
    ;

    /// Undoes one masking.
    fn exit_critical_section(&mut self)
        ensures
            final(self).state() == old(self).state().left(),
    ;
}

/// A mask that only counts, for programs with nothing to preempt.
pub struct CountingMask {
    pub in_isr: bool,
    pub depth: u32,
    pub enter_count: u64,
    pub exit_count: u64,
}

impl CountingMask {
    /// A mask that was never entered, in or out of the interrupt.
    pub fn new(in_isr: bool) -> (r: CountingMask)
        ensures
            r.state() == (MaskState { in_interrupt: in_isr, depth: 0, enters: 0, exits: 0 }),
    {
        CountingMask { in_isr, depth: 0, enter_count: 0, exit_count: 0 }
    }
}

impl InterruptMask for CountingMask {
    open spec fn state(&self) -> MaskState {
        MaskState {
            in_interrupt: self.in_isr,
            depth: self.depth,
            enters: self.enter_count,
            exits: self.exit_count,
        }
    }

    fn in_interrupt(&self) -> (r: bool) {
        self.in_isr
    }

    fn enter_critical_section(&mut self) {
        self.depth = self.depth.wrapping_add(1);
        self.enter_count = self.enter_count.wrapping_add(1);
    }

    fn exit_critical_section(&mut self) {
        self.depth = self.depth.saturating_sub(1);
        self.exit_count = self.exit_count.wrapping_add(1);
    }
}

/// An open window of the critical section; `exit` closes it.
pub struct Masked {
    active: bool,
}

impl Masked {
    /// Whether the window masked interrupts.
    pub closed spec fn active(&self) -> bool {
        self.active
    }

    /// Opens a window: masks interrupts unless the code runs in the audio interrupt.
    pub fn enter<M: InterruptMask>(mask: &mut M) -> (r: Masked)
        ensures
            final(mask).state() == old(mask).state().window_start(),
            r.active() == !old(mask).state().in_interrupt,
    {
        let active = !mask.in_interrupt();
        if active {
            mask.enter_critical_section();
        }
        Masked { active }
    }

    /// Closes the window: undoes the masking if there was one.
    pub fn exit<M: InterruptMask>(self, mask: &mut M)
        ensures
            final(mask).state() == old(mask).state().window_end(self.active()),
    {
        if self.active {
            mask.exit_critical_section();
        }
    }
}

/// The state after a window in which nothing else was masked.
pub open spec fn after_window(s: MaskState) -> MaskState {
    s.window_start().window_end(!s.in_interrupt)
}

/// Reads a cell in a window of its own.
pub fn m_get<T: Copy, M: InterruptMask>(mask: &mut M, c: &T) -> (r: T)
    ensures
        r == *c,
        final(mask).state() == after_window(old(mask).state()),
{
    let m = Masked::enter(mask);
    let r = *c;
    m.exit(mask);
    r
}

/// Writes a cell in a window of its own.
pub fn m_set<T, M: InterruptMask>(mask: &mut M, c: &mut T, v: T)
    ensures
        *final(c) == v,
        final(mask).state() == after_window(old(mask).state()),
{
    let m = Masked::enter(mask);
    *c = v;
    m.exit(mask);
}

/// Reads, changes and writes a cell in one window. `f` gets the mask too, for windows
/// inside this one.
pub fn m_rmw<T: Copy, R, M: InterruptMask, F: FnOnce(&mut M, &mut T) -> R>(
    mask: &mut M,
    c: &mut T,
    f: F,
) -> (r: R)
    requires
        forall|k: &mut M, v: &mut T|
            k.state() == old(mask).state().window_start() && *v == *old(c)
                ==> #[trigger] f.requires((k, v)),
    ensures
        exists|k: &mut M, v: &mut T|
            {
                &&& k.state() == old(mask).state().window_start()
                &&& *v == *old(c)
                &&& #[trigger] f.ensures((k, v), r)
                &&& *final(c) == *final(v)
                &&& final(mask).state() == final(k).state().window_end(
                    !old(mask).state().in_interrupt,
                )
            },
{
    let m = Masked::enter(mask);
    let mut v = *c;
    let r = f(mask, &mut v);
    *c = v;
    m.exit(mask);
    r
}

/// Outside the interrupt a window masks once and unmasks once, and leaves the mask as
/// deep as it was; inside the interrupt it does not touch the mask.
pub proof fn window_is_balanced(s: MaskState)
    requires
        s.depth < u32::MAX,
    ensures
        s.in_interrupt ==> after_window(s) == s,
        !s.in_interrupt ==> {
            &&& after_window(s).depth == s.depth
            &&& after_window(s).enters == s.enters.wrapping_add(1)
            &&& after_window(s).exits == s.exits.wrapping_add(1)
            &&& after_window(s).in_interrupt == s.in_interrupt
        },
{
}

/// While a window is open outside the interrupt, interrupts are masked once more than before,
/// and that was counted; inside the interrupt nothing is masked.
pub proof fn windows_mask_while_they_are_open(s: MaskState)
    requires
        s.depth < u32::MAX,
        s.enters < u64::MAX,
        s.exits < u64::MAX,
    ensures
        !s.in_interrupt ==> s.window_start().depth == s.depth + 1 && s.window_start().enters
            == s.enters + 1 && s.window_start().exits == s.exits,
        s.in_interrupt ==> s.window_start() == s,
        s.window_start().in_interrupt == s.in_interrupt,
        s.depth > 0 ==> s.window_end(true).depth == s.depth - 1,
        s.window_end(true).exits == s.exits + 1,
        s.window_end(true).enters == s.enters,
        s.window_end(false) == s,
{
}

} // verus!
