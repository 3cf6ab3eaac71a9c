//! Terminal settings and the serial line's input mapping.
use vstd::prelude::*;

verus! {

#[derive(Clone, Copy)]
pub struct TrmIO {
    pub iflag: u32,
    pub oflag: u32,
    pub cflag: u32,
    pub lflag: u32,
    pub line: u8,
    pub cc: [u8; 32],
    pub ispeed: u32,
    pub ospeed: u32,
}

/// The control characters a terminal starts with.
pub open spec fn default_cc() -> Seq<u8> {
    seq![3u8, 28, 127, 21, 4, 0, 1, 0, 17, 19, 26, 255, 18, 15, 23, 22, 255, 0, 0, 0, 0, 0, 0, 0, 0, 0, 0, 0, 0, 0, 0, 0]
}

impl Default for TrmIO {
    fn default() -> (r: Self)
        ensures
            r.iflag == 0o66402,
            r.oflag == 0o5,
            r.cflag == 0o2277,
            r.lflag == 0o105073,
            r.line == 0,
            r.cc@ == default_cc(),
            r.ispeed == 0,
            r.ospeed == 0,
    {
        let r = TrmIO {
            iflag: 0o66402,
            oflag: 0o5,
            cflag: 0o2277,
            lflag: 0o105073,
            line: 0,
            cc: [3, 28, 127, 21, 4, 0, 1, 0, 17, 19, 26, 255, 18, 15, 23, 22, 255, 0, 0, 0, 0, 0, 0, 0, 0, 0, 0, 0, 0, 0, 0, 0],
            ispeed: 0,
            ospeed: 0,
        };
        assert(r.cc@ =~= default_cc());
        r
    }
}

#[derive(Clone, Copy)]
pub struct WinSz {
    pub row: u16,
    pub col: u16,
    pub xpx: u16,
    pub ypx: u16,
}

impl Default for WinSz {
    fn default() -> (r: Self)
        ensures
            r.row == 0 && r.col == 0 && r.xpx == 0 && r.ypx == 0,
    {
        WinSz { row: 0, col: 0, xpx: 0, ypx: 0 }
    }
}

/// A byte from the serial line: carriage return reads as newline.
pub fn ser(c: u8) -> (r: u8)
    ensures
        r == if c == 13 { 10u8 } else { c },
{
    if c == 13u8 { 10u8 } else { c }
}

} // verus!
