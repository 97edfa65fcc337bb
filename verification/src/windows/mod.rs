//! Platform-independent decisions behind the native Windows adapters: startup entries,
//! manual-mode authorisation, the session worker's steps, relaunch checks and the update
//! address check.
use vstd::prelude::*;

pub mod startup;
pub mod manual;
pub mod runner;
pub mod update;
pub mod reopen;
pub mod process;
pub mod app_list;
pub mod home;
pub mod advanced;
pub mod settings;
pub mod storage;

verus! {

/// The UTF-16 code units of one character.
pub open spec fn utf16_units(c: char) -> Seq<u16> {
    let n = c as u32;
    if n < 0x10000 {
        seq![n as u16]
    } else {
        let m = n - 0x10000;
        seq![(0xD800 + m / 0x400) as u16, (0xDC00 + m % 0x400) as u16]
    }
}

/// The UTF-16 encoding of a character sequence (`str::encode_utf16`).
pub open spec fn utf16_seq(s: Seq<char>) -> Seq<u16>
    decreases s.len(),
{
    if s.len() == 0 {
        Seq::empty()
    } else {
        utf16_seq(s.drop_last()) + utf16_units(s.last())
    }
}

/// A NUL-terminated UTF-16 string for Win32 calls.
pub fn wide(value: &str) -> (r: Vec<u16>)
    ensures
        r@ == utf16_seq(value@).push(0),
{
    let chars = crate::text::chars_of(value);
    let mut out: Vec<u16> = Vec::new();
    let mut i: usize = 0;
    proof {
        assert(chars@.take(0) =~= Seq::<char>::empty());
    }
    while i < chars.len()
        invariant
            i <= chars@.len(),
            out@ == utf16_seq(chars@.take(i as int)),
        decreases chars@.len() - i,
    {
        let n = chars[i] as u32;
        proof {
            assert(chars@.take(i + 1).drop_last() =~= chars@.take(i as int));
            assert(chars@.take(i + 1).last() == chars@[i as int]);
            vstd::utf8::char_is_scalar(chars@[i as int]);
        }
        let ghost before = out@;
        if n < 0x10000 {
            out.push(n as u16);
        } else {
            let m = n - 0x10000;
            out.push((0xD800 + m / 0x400) as u16);
            out.push((0xDC00 + m % 0x400) as u16);
        }
        proof {
            assert(out@ =~= before + utf16_units(chars@[i as int]));
        }
        i = i + 1;
    }
    proof {
        assert(chars@.take(i as int) =~= chars@);
    }
    out.push(0);
    out
}

} // verus!
