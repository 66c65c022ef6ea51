//! The userspace runtime every program links against: completion tags, the
//! print and line-editing helpers, and (in [`uring`]) the user half of the
//! jring. Programs run at EL0; the traps themselves (`svc`) are issued by
//! their hardware-facing part, which performs what these functions decide.
pub mod uring;
pub mod jsh;

use vstd::prelude::*;
use crate::abi::{RingPage, OP_PRINT, OP_READ, Sqe};
use crate::ulib::uring::{sqe, submit};

verus! {

/// Maximum input line length for [`read_line`].
pub const MAX_LINE: usize = 128;

/// The monotonic completion-tag counter (tag 0 is reserved for "empty stash
/// slot", so the counter starts at 1).
pub struct TagCounter {
    pub next: u64,
}

impl TagCounter {
    /// A counter whose first tag is 1.
    pub fn new() -> (t: TagCounter)
        ensures
            t.next == 1,
    {
        TagCounter { next: 1 }
    }
}

/// Next unique completion tag: the counter's value, which then advances
/// (wrapping).
pub fn tag(t: &mut TagCounter) -> (r: u64)
    ensures
        r == old(t).next,
        final(t).next == old(t).next.wrapping_add(1),
{
    let r = t.next;
    t.next = t.next.wrapping_add(1);
    r
}

/// Queue a `PRINT` of the `len` bytes at user address `ptr` under a fresh
/// tag. Returns the tag (to wait for) and whether the submission needs the
/// `SYS_RING_ENTER` trap (the kernel's poller is asleep).
pub fn print_bytes(t: &mut TagCounter, page: &mut RingPage, ptr: u64, len: u64) -> (r: (u64, bool))
    requires
        old(page).wf(),
    ensures
        r.0 == old(t).next,
        final(t).next == old(t).next.wrapping_add(1),
        final(page).wf(),
        *final(page) == (RingPage {
            sq: final(page).sq,
            sq_tail: old(page).sq_tail.wrapping_add(1),
            ..*old(page)
        }),
        final(page).sq@ == old(page).sq@.update(crate::abi::slot_of(old(page).sq_tail),
            Sqe { opcode: OP_PRINT, arg0: ptr, arg1: len, user_data: r.0 }),
        r.1 == (old(page).flags & crate::abi::NEED_WAKEUP != 0),
{
    let tg = tag(t);
    sqe(page, OP_PRINT, ptr, len, tg);
    let need = submit(page);
    (tg, need)
}

/// Queue a `PRINT` of a string at user address `ptr` (see [`print_bytes`]).
pub fn print(t: &mut TagCounter, page: &mut RingPage, ptr: u64, len: u64) -> (r: (u64, bool))
    requires
        old(page).wf(),
    ensures
        r.0 == old(t).next,
        final(t).next == old(t).next.wrapping_add(1),
        final(page).wf(),
        *final(page) == (RingPage {
            sq: final(page).sq,
            sq_tail: old(page).sq_tail.wrapping_add(1),
            ..*old(page)
        }),
        final(page).sq@ == old(page).sq@.update(crate::abi::slot_of(old(page).sq_tail),
            Sqe { opcode: OP_PRINT, arg0: ptr, arg1: len, user_data: r.0 }),
        r.1 == (old(page).flags & crate::abi::NEED_WAKEUP != 0),
{
    print_bytes(t, page, ptr, len)
}

/// Queue an asynchronous one-byte `READ` into user address `dst` under a
/// fresh tag (see [`print_bytes`] for the result). If no key is waiting, the
/// kernel parks the read and posts its completion when input arrives.
pub fn read_byte(t: &mut TagCounter, page: &mut RingPage, dst: u64) -> (r: (u64, bool))
    requires
        old(page).wf(),
    ensures
        r.0 == old(t).next,
        final(t).next == old(t).next.wrapping_add(1),
        final(page).wf(),
        *final(page) == (RingPage {
            sq: final(page).sq,
            sq_tail: old(page).sq_tail.wrapping_add(1),
            ..*old(page)
        }),
        final(page).sq@ == old(page).sq@.update(crate::abi::slot_of(old(page).sq_tail),
            Sqe { opcode: OP_READ, arg0: dst, arg1: 1, user_data: r.0 }),
        r.1 == (old(page).flags & crate::abi::NEED_WAKEUP != 0),
{
    let tg = tag(t);
    sqe(page, OP_READ, dst, 1, tg);
    let need = submit(page);
    (tg, need)
}

/// A line being typed: its bytes so far.
pub struct LineEditor {
    pub line: [u8; 128],
    pub len: usize,
}

impl LineEditor {
    /// An empty line.
    pub fn new() -> (e: LineEditor)
        ensures
            e.len == 0,
            e.wf(),
            e.text() == Seq::<u8>::empty(),
            forall|i: int| 0 <= i < MAX_LINE ==> #[trigger] e.line@[i] == 0,
    {
        let e = LineEditor { line: [0u8; 128], len: 0 };
        proof {
            assert(e.text() =~= Seq::<u8>::empty());
        }
        e
    }

    /// The typed text.
    pub open spec fn text(&self) -> Seq<u8> {
        self.line@.subrange(0, self.len as int)
    }

    pub open spec fn wf(&self) -> bool {
        self.len <= MAX_LINE
    }
}

/// What one keystroke asks the terminal to show.
#[derive(Clone, Copy, PartialEq, Eq, Structural, Debug)]
pub enum LineStep {
    /// Enter: print a newline; the line is complete with this length.
    Done(usize),
    /// Backspace: rub out the last glyph (`"\x08 \x08"`).
    Erase,
    /// A printable byte was added: echo it.
    Echo(u8),
    /// Nothing to show (a control byte, a backspace on an empty line, or a
    /// full line).
    Ignore,
}

/// Typing `byte` turns the line `t0` into `t1` and shows `r`.
pub open spec fn keystroke(t0: Seq<u8>, t1: Seq<u8>, byte: u8, r: LineStep) -> bool {
    if byte == 0x0d || byte == 0x0a {
        r == LineStep::Done(t0.len() as usize) && t1 == t0
    } else if byte == 0x7f || byte == 0x08 {
        if t0.len() > 0 {
            r == LineStep::Erase && t1 == t0.drop_last()
        } else {
            r == LineStep::Ignore && t1 == t0
        }
    } else if 0x20 <= byte <= 0x7e {
        if t0.len() < MAX_LINE {
            r == LineStep::Echo(byte) && t1 == t0.push(byte)
        } else {
            r == LineStep::Ignore && t1 == t0
        }
    } else {
        r == LineStep::Ignore && t1 == t0
    }
}

/// Feed one byte to the line editor (the terminal does not echo locally):
/// Enter (`\r` or `\n`) completes the line; backspace (`0x7f` or `0x08`)
/// removes the last byte; a printable ASCII byte is appended while the line
/// has room; other bytes are ignored.
pub fn read_line(ed: &mut LineEditor, byte: u8) -> (r: LineStep)
    requires
        old(ed).wf(),
    ensures
        final(ed).wf(),
        keystroke(old(ed).text(), final(ed).text(), byte, r),
        forall|i: int| final(ed).len <= i < MAX_LINE ==> #[trigger] final(ed).line@[i] == old(ed).line@[i],
{
    if byte == 0x0d || byte == 0x0a {
        LineStep::Done(ed.len)
    } else if byte == 0x7f || byte == 0x08 {
        if ed.len > 0 {
            ed.len = ed.len - 1;
            proof { assert(ed.text() =~= old(ed).text().drop_last()); }
            LineStep::Erase
        } else {
            LineStep::Ignore
        }
    } else if 0x20 <= byte && byte <= 0x7e {
        if ed.len < MAX_LINE {
            let n = ed.len;
            ed.line[n] = byte;
            ed.len = n + 1;
            proof { assert(ed.text() =~= old(ed).text().push(byte)); }
            LineStep::Echo(byte)
        } else {
            LineStep::Ignore
        }
    } else {
        LineStep::Ignore
    }
}

} // verus!
