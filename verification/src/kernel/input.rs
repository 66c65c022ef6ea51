//! Kernel console-input buffer.
//!
//! The UART receive interrupt drains the device into this fixed byte ring the
//! moment data arrives; reads consume from here, never from the device. When
//! the ring fills, the receive interrupt is masked, and it is unmasked again
//! once a consumer frees space (flow control). The mask state is kept here as
//! `rx_irq`; the driver mirrors it into the UART's interrupt-mask register.
use vstd::prelude::*;

verus! {

/// Capacity of the input ring (one slot is sacrificed to tell full from empty).
pub const INPUT_BUF_SIZE: usize = 256;

/// A byte ring: `buf[head..tail)`, cyclically.
pub struct InputBuf {
    pub buf: Vec<u8>,
    /// Read position; `head == tail` means empty.
    pub head: usize,
    /// Write position.
    pub tail: usize,
    /// Whether the UART receive interrupt is unmasked.
    pub rx_irq: bool,
}

impl InputBuf {
    pub open spec fn wf(&self) -> bool {
        &&& self.buf.len() == INPUT_BUF_SIZE
        &&& self.head < INPUT_BUF_SIZE
        &&& self.tail < INPUT_BUF_SIZE
    }

    /// The buffered bytes, oldest first.
    pub open spec fn view(&self) -> Seq<u8> {
        let n = (self.tail as int - self.head as int) % INPUT_BUF_SIZE as int;
        Seq::new(n as nat, |k: int| self.buf@[(self.head as int + k) % INPUT_BUF_SIZE as int])
    }

    /// An empty buffer with the receive interrupt enabled.
    pub fn new() -> (b: InputBuf)
        ensures
            b.wf(),
            b@ == Seq::<u8>::empty(),
            b.rx_irq,
    {
        InputBuf { buf: vec![0u8; INPUT_BUF_SIZE], head: 0, tail: 0, rx_irq: true }
    }

    /// No byte is buffered.
    pub fn is_empty(&self) -> (r: bool)
        requires
            self.wf(),
        ensures
            r == (self@.len() == 0),
    {
        self.head == self.tail
    }

    /// The ring holds its maximum of 255 bytes.
    pub fn is_full(&self) -> (r: bool)
        requires
            self.wf(),
        ensures
            r == (self@.len() == INPUT_BUF_SIZE - 1),
    {
        (self.tail + 1) % INPUT_BUF_SIZE == self.head
    }

    /// Append one received byte.
    pub fn push(&mut self, b: u8)
        requires
            old(self).wf(),
            old(self)@.len() < INPUT_BUF_SIZE - 1,
        ensures
            final(self).wf(),
            final(self)@ == old(self)@.push(b),
            final(self).rx_irq == old(self).rx_irq,
    {
        let tail = self.tail;
        self.buf.set(tail, b);
        self.tail = (tail + 1) % INPUT_BUF_SIZE;
        proof {
            assert(self@ =~= old(self)@.push(b));
        }
    }

    /// Move bytes received by the UART (`rx`, oldest first) into the ring
    /// until it is full. Returns how many were taken; the rest stay in the
    /// device. Masks the receive interrupt once the ring is full.
    pub fn drain_uart(&mut self, rx: &[u8]) -> (taken: usize)
        requires
            old(self).wf(),
        ensures
            final(self).wf(),
            taken <= rx@.len(),
            taken == vstd::math::min(rx@.len() as int, INPUT_BUF_SIZE - 1 - old(self)@.len()),
            final(self)@ == old(self)@ + rx@.subrange(0, taken as int),
            final(self).rx_irq == if final(self)@.len() == INPUT_BUF_SIZE - 1 { false } else { old(self).rx_irq },
    {
        let mut taken: usize = 0;
        loop
            invariant
                self.wf(),
                taken <= rx@.len(),
                self@ == old(self)@ + rx@.subrange(0, taken as int),
                self.rx_irq == old(self).rx_irq,
                old(self)@.len() + taken <= INPUT_BUF_SIZE - 1,
            decreases rx@.len() - taken,
        {
            if self.is_full() {
                self.rx_irq = false;
                return taken;
            }
            if taken == rx.len() {
                return taken;
            }
            self.push(rx[taken]);
            taken = taken + 1;
            proof {
                assert(rx@.subrange(0, taken as int) =~= rx@.subrange(0, taken - 1).push(rx@[taken - 1]));
            }
        }
    }
}

/// `b1` is `b0` after a pop answered `r`: nothing from an empty buffer,
/// else its oldest byte, removed (and the receive interrupt unmasked when the
/// buffer was full).
pub open spec fn byte_popped(b0: InputBuf, b1: InputBuf, r: Option<u8>) -> bool {
    &&& b0@.len() == 0 ==> r.is_none() && b1 == b0
    &&& b0@.len() > 0 ==> {
        &&& r == Some(b0@[0])
        &&& b1@ == b0@.drop_first()
        &&& b1.rx_irq == (b0.rx_irq || b0@.len() == INPUT_BUF_SIZE - 1)
    }
}

/// Take one buffered byte, if any. Unmasks the receive interrupt when
/// consuming from a previously full ring.
pub fn pop(input: &mut InputBuf) -> (r: Option<u8>)
    requires
        old(input).wf(),
    ensures
        final(input).wf(),
        byte_popped(*old(input), *final(input), r),
{
    if input.is_empty() {
        None
    } else {
        let was_full = input.is_full();
        let b = input.buf[input.head];
        input.head = (input.head + 1) % INPUT_BUF_SIZE;
        if was_full {
            input.rx_irq = true;
        }
        proof {
            assert(input@ =~= old(input)@.drop_first());
        }
        Some(b)
    }
}

} // verus!
