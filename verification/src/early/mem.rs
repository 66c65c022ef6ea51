//! The memory primitives the compiler may emit calls to (copies, fills,
//! comparisons), over a byte-addressed memory. They use plain byte loops.
use vstd::prelude::*;

verus! {

/// `mem` with the `n` bytes at `dest` replaced by the `n` bytes that were at
/// `src`.
pub open spec fn copied(mem: Seq<u8>, dest: int, src: int, n: int) -> Seq<u8> {
    Seq::new(mem.len(), |i: int| if dest <= i < dest + n { mem[src + (i - dest)] } else { mem[i] })
}

/// `mem` with the `n` bytes at `dest` set to `b`.
pub open spec fn filled(mem: Seq<u8>, dest: int, b: u8, n: int) -> Seq<u8> {
    Seq::new(mem.len(), |i: int| if dest <= i < dest + n { b } else { mem[i] })
}

/// Where the `n` bytes at `a` and at `b` first differ (from offset `i` on),
/// if they do.
pub open spec fn first_diff(mem: Seq<u8>, a: usize, b: usize, n: usize, i: usize) -> Option<usize>
    decreases n - i,
{
    if i >= n {
        None
    } else if mem[a + i] != mem[b + i] {
        Some(i)
    } else {
        first_diff(mem, a, b, n, (i + 1) as usize)
    }
}

/// The comparison of the `n` bytes at `a` and `b`: the difference of the
/// first pair that differs, or 0.
pub open spec fn diff_result(mem: Seq<u8>, a: usize, b: usize, n: usize) -> i32 {
    match first_diff(mem, a, b, n, 0) {
        Some(i) => byte_diff_spec(mem[a + i], mem[b + i]),
        None => 0,
    }
}

/// Copy `n` bytes from `src` to `dest` (the ranges must not overlap).
/// Returns `dest`.
pub fn memcpy(mem: &mut Vec<u8>, dest: usize, src: usize, n: usize) -> (r: usize)
    requires
        dest + n <= old(mem).len(),
        src + n <= old(mem).len(),
        dest + n <= src || src + n <= dest,
    ensures
        r == dest,
        final(mem)@ == copied(old(mem)@, dest as int, src as int, n as int),
{
    let mut i: usize = 0;
    while i < n
        invariant
            i <= n,
            mem.len() == old(mem).len(),
            dest + n <= mem.len(),
            src + n <= mem.len(),
            dest + n <= src || src + n <= dest,
            forall|k: int| 0 <= k < mem.len() ==> #[trigger] mem@[k]
                == if dest <= k < dest + i { old(mem)@[src + (k - dest)] } else { old(mem)@[k] },
        decreases n - i,
    {
        let b = mem[src + i];
        mem.set(dest + i, b);
        i = i + 1;
    }
    proof { assert(mem@ =~= copied(old(mem)@, dest as int, src as int, n as int)); }
    dest
}

/// Fill `n` bytes at `dest` with the low byte of `value`. Returns `dest`.
pub fn memset(mem: &mut Vec<u8>, dest: usize, value: i32, n: usize) -> (r: usize)
    requires
        dest + n <= old(mem).len(),
    ensures
        r == dest,
        final(mem)@ == filled(old(mem)@, dest as int, value as u8, n as int),
{
    let byte = value as u8;
    let mut i: usize = 0;
    while i < n
        invariant
            i <= n,
            byte == value as u8,
            mem.len() == old(mem).len(),
            dest + n <= mem.len(),
            forall|k: int| 0 <= k < mem.len() ==> #[trigger] mem@[k]
                == if dest <= k < dest + i { byte } else { old(mem)@[k] },
        decreases n - i,
    {
        mem.set(dest + i, byte);
        i = i + 1;
    }
    proof { assert(mem@ =~= filled(old(mem)@, dest as int, value as u8, n as int)); }
    dest
}

/// Copy `n` bytes from `src` to `dest`; the ranges may overlap (the copy
/// runs backwards when `src` lies below `dest`). Returns `dest`.
pub fn memmove(mem: &mut Vec<u8>, dest: usize, src: usize, n: usize) -> (r: usize)
    requires
        dest + n <= old(mem).len(),
        src + n <= old(mem).len(),
    ensures
        r == dest,
        final(mem)@ == copied(old(mem)@, dest as int, src as int, n as int),
{
    if src < dest {
        let mut i: usize = n;
        while i > 0
            invariant
                i <= n,
                src < dest,
                mem.len() == old(mem).len(),
                dest + n <= mem.len(),
                src + n <= mem.len(),
                forall|k: int| 0 <= k < mem.len() ==> #[trigger] mem@[k]
                    == if dest + i <= k < dest + n { old(mem)@[src + (k - dest)] } else { old(mem)@[k] },
            decreases i,
        {
            i = i - 1;
            let b = mem[src + i];
            mem.set(dest + i, b);
        }
    } else {
        let mut i: usize = 0;
        while i < n
            invariant
                i <= n,
                src >= dest,
                mem.len() == old(mem).len(),
                dest + n <= mem.len(),
                src + n <= mem.len(),
                forall|k: int| 0 <= k < mem.len() ==> #[trigger] mem@[k]
                    == if dest <= k < dest + i { old(mem)@[src + (k - dest)] } else { old(mem)@[k] },
            decreases n - i,
        {
            let b = mem[src + i];
            mem.set(dest + i, b);
            i = i + 1;
        }
    }
    proof { assert(mem@ =~= copied(old(mem)@, dest as int, src as int, n as int)); }
    dest
}

/// The difference of two bytes.
pub open spec fn byte_diff_spec(x: u8, y: u8) -> i32 {
    (x as i32 - y as i32) as i32
}

fn byte_diff(x: u8, y: u8) -> (r: i32)
    ensures
        r == byte_diff_spec(x, y),
{
    x as i32 - y as i32
}

/// Compare the `n` bytes at `a` and `b`: the difference of the first pair
/// that differs, or 0 when they are equal.
pub fn memcmp(mem: &Vec<u8>, a: usize, b: usize, n: usize) -> (r: i32)
    requires
        a + n <= mem.len(),
        b + n <= mem.len(),
    ensures
        r == diff_result(mem@, a, b, n),
{
    let mut i: usize = 0;
    while i < n
        invariant
            i <= n,
            a + n <= mem.len(),
            b + n <= mem.len(),
            first_diff(mem@, a, b, n, 0) == first_diff(mem@, a, b, n, i),
        decreases n - i,
    {
        let x = mem[a + i];
        let y = mem[b + i];
        if x != y {
            return byte_diff(x, y);
        }
        i = i + 1;
    }
    0
}

} // verus!
