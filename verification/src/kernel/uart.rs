//! The PL011 UART's output: what reaches the terminal for a string (`\n`
//! becomes `\r\n`) and which byte strings are printable text (well-formed
//! UTF-8). The bytes are written to the device outside.
use vstd::prelude::*;

verus! {

/// The bytes `s` is written as: each `\n` preceded by `\r`.
pub open spec fn crlf(s: Seq<u8>) -> Seq<u8>
    decreases s.len(),
{
    if s.len() == 0 {
        Seq::empty()
    } else {
        crlf(s.drop_last()) + if s.last() == 0x0a { seq![0x0du8, 0x0au8] } else { seq![s.last()] }
    }
}

/// The bytes to send for the string `s`, translating `\n` into `\r\n`.
pub fn write_str(s: &[u8]) -> (out: Vec<u8>)
    ensures
        out@ == crlf(s@),
{
    let mut out: Vec<u8> = Vec::new();
    let mut i: usize = 0;
    while i < s.len()
        invariant
            i <= s.len(),
            out@ == crlf(s@.subrange(0, i as int)),
        decreases s.len() - i,
    {
        let b = s[i];
        proof {
            assert(s@.subrange(0, i + 1).drop_last() =~= s@.subrange(0, i as int));
        }
        if b == 0x0a {
            out.push(0x0d);
        }
        out.push(b);
        i = i + 1;
        proof {
            let t = s@.subrange(0, i as int);
            assert(t.last() == b);
            assert(out@ =~= crlf(t));
        }
    }
    proof { assert(s@.subrange(0, s@.len() as int) =~= s@); }
    out
}

/// A UTF-8 continuation byte.
pub open spec fn utf8_cont(b: u8) -> bool {
    0x80 <= b <= 0xBF
}

/// The length of the well-formed UTF-8 character starting at `s[i]`, or 0
/// when none starts there (RFC 3629: no overlong forms, no surrogates,
/// nothing above U+10FFFF).
pub open spec fn utf8_char(s: Seq<u8>, i: int) -> int {
    let n = s.len() as int;
    let b0 = s[i];
    if b0 < 0x80 {
        1
    } else if 0xC2 <= b0 <= 0xDF {
        if i + 1 < n && utf8_cont(s[i + 1]) { 2 } else { 0 }
    } else if 0xE0 <= b0 <= 0xEF {
        let lo: u8 = if b0 == 0xE0 { 0xA0 } else { 0x80 };
        let hi: u8 = if b0 == 0xED { 0x9F } else { 0xBF };
        if n - i > 2 && lo <= s[i + 1] <= hi && utf8_cont(s[i + 2]) { 3 } else { 0 }
    } else if 0xF0 <= b0 <= 0xF4 {
        let lo: u8 = if b0 == 0xF0 { 0x90 } else { 0x80 };
        let hi: u8 = if b0 == 0xF4 { 0x8F } else { 0xBF };
        if i + 3 < n && lo <= s[i + 1] <= hi && utf8_cont(s[i + 2]) && utf8_cont(s[i + 3]) { 4 } else { 0 }
    } else {
        0
    }
}

/// `s` from index `i` on is a sequence of well-formed UTF-8 characters.
pub open spec fn utf8_from(s: Seq<u8>, i: int) -> bool
    decreases s.len() - i,
{
    if i < 0 || i >= s.len() {
        true
    } else {
        let k = utf8_char(s, i);
        if k <= 0 {
            false
        } else {
            utf8_from(s, i + k)
        }
    }
}

/// `s` is well-formed UTF-8 text.
pub open spec fn utf8_valid(s: Seq<u8>) -> bool {
    utf8_from(s, 0)
}

fn utf8_char_len(s: &[u8], i: usize) -> (k: usize)
    requires
        i < s.len(),
    ensures
        k == utf8_char(s@, i as int),
{
    let n = s.len();
    let b0 = s[i];
    if b0 < 0x80 {
        1
    } else if 0xC2 <= b0 && b0 <= 0xDF {
        if n - i > 1 && 0x80 <= s[i + 1] && s[i + 1] <= 0xBF { 2 } else { 0 }
    } else if 0xE0 <= b0 && b0 <= 0xEF {
        let lo: u8 = if b0 == 0xE0 { 0xA0 } else { 0x80 };
        let hi: u8 = if b0 == 0xED { 0x9F } else { 0xBF };
        if n - i > 2 && lo <= s[i + 1] && s[i + 1] <= hi && 0x80 <= s[i + 2] && s[i + 2] <= 0xBF { 3 } else { 0 }
    } else if 0xF0 <= b0 && b0 <= 0xF4 {
        let lo: u8 = if b0 == 0xF0 { 0x90 } else { 0x80 };
        let hi: u8 = if b0 == 0xF4 { 0x8F } else { 0xBF };
        if n - i > 3 && lo <= s[i + 1] && s[i + 1] <= hi && 0x80 <= s[i + 2] && s[i + 2] <= 0xBF
            && 0x80 <= s[i + 3] && s[i + 3] <= 0xBF { 4 } else { 0 }
    } else {
        0
    }
}

/// Whether `s` is well-formed UTF-8 text (what a `PRINT` shows at all).
pub fn is_utf8(s: &[u8]) -> (ok: bool)
    ensures
        ok == utf8_valid(s@),
{
    let mut i: usize = 0;
    while i < s.len()
        invariant
            i <= s.len(),
            utf8_from(s@, i as int) == utf8_valid(s@),
        decreases s.len() - i,
    {
        let k = utf8_char_len(s, i);
        if k == 0 {
            return false;
        }
        i = i + k;
    }
    true
}

} // verus!
