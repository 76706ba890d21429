//! Capture state machine.
//!
//! Driven by scanner results: plain text passes through to the display while
//! waiting; after the opening marker, plain-text spans are read as hex digit
//! pairs and decoded into a binary accumulator; the closing marker finishes
//! the capture, which is handed out once together with the verdict of the
//! magic-signature check, and the session ends in the terminal idle state.

use vstd::prelude::*;

verus! {

/// The four states of a capture session.
#[derive(Debug, Clone, Copy, PartialEq, Eq)]
pub enum CaptureState {
    /// Pass plain text through to the display.
    Waiting,
    /// Accumulate hex-decoded payload bytes.
    Receiving,
    /// One-shot: the finished accumulator is ready to be handed out.
    Done,
    /// Terminal: all further input is discarded.
    Idle,
}

/// Outcome of the magic-signature check on a finished accumulator.
#[derive(Debug, Clone, Copy, PartialEq, Eq)]
pub enum MagicVerdict {
    /// The accumulator starts with the three-byte signature.
    Valid,
    /// The accumulator is non-empty but does not start with the signature.
    Corrupted,
    /// The accumulator is empty; the signature check would read past its end.
    EmptyCapture,
}

/// The one condition that must interrupt a capture.
#[derive(Debug, Clone, Copy, PartialEq, Eq)]
pub enum CaptureError {
    /// A character in a hex pair was not a hex digit.
    InvalidHexDigit,
}

/// Value of an ASCII hex digit, case-insensitive.
pub open spec fn hex_digit_value(c: u8) -> Option<u8> {
    if 0x30 <= c && c <= 0x39 {
        Option::Some((c - 0x30) as u8)
    } else if 0x41 <= c && c <= 0x46 {
        Option::Some((c - 0x41 + 10) as u8)
    } else if 0x61 <= c && c <= 0x66 {
        Option::Some((c - 0x61 + 10) as u8)
    } else {
        Option::None
    }
}

/// Reading a run of hex characters two at a time: the decoded bytes, and the
/// pushed-back leftover character of an odd-length run.  Nothing if some
/// pair holds a character that is not a hex digit.
pub open spec fn decode_hex_run(s: Seq<u8>) -> Option<(Seq<u8>, Option<u8>)>
    decreases s.len(),
{
    if s.len() == 0 {
        Option::Some((Seq::empty(), Option::None))
    } else if s.len() == 1 {
        Option::Some((Seq::empty(), Option::Some(s[0])))
    } else {
        match (hex_digit_value(s[0]), hex_digit_value(s[1])) {
            (Option::Some(h), Option::Some(lo)) => match decode_hex_run(s.skip(2)) {
                Option::Some(rest) => Option::Some((seq![(h * 16 + lo) as u8] + rest.0, rest.1)),
                Option::None => Option::None,
            },
            _ => Option::None,
        }
    }
}

/// The accumulator starts with the three-byte binary-format signature.
pub open spec fn magic_ok(bs: Seq<u8>) -> bool {
    bs.len() >= 3 && bs[0] == 0x7f && bs[1] == 0x45 && bs[2] == 0x4c
}

pub open spec fn magic_verdict_of(bs: Seq<u8>) -> MagicVerdict {
    if bs.len() == 0 {
        MagicVerdict::EmptyCapture
    } else if magic_ok(bs) {
        MagicVerdict::Valid
    } else {
        MagicVerdict::Corrupted
    }
}

/// `s` with the pushed-back character, if any, put back in front.
pub open spec fn with_pushed_back(pb: Option<u8>, s: Seq<u8>) -> Seq<u8> {
    match pb {
        Option::Some(b) => seq![b] + s,
        Option::None => s,
    }
}

/// The opening marker.
pub open spec fn open_token_spec() -> Seq<u8> {
    seq![0x40u8, 0x43, 0x4f, 0x52, 0x45, 0x44, 0x55, 0x4d, 0x50, 0x0a]
}

/// The closing marker.
pub open spec fn close_token_spec() -> Seq<u8> {
    seq![0x40u8, 0x45, 0x4e, 0x44, 0x43, 0x4f, 0x52, 0x45, 0x44, 0x55, 0x4d, 0x50]
}

/// The opening marker as bytes.
pub fn open_token() -> (t: Vec<u8>)
    ensures
        t@ == open_token_spec(),
{
    let mut t: Vec<u8> = Vec::new();
    t.push(0x40);
    t.push(0x43);
    t.push(0x4f);
    t.push(0x52);
    t.push(0x45);
    t.push(0x44);
    t.push(0x55);
    t.push(0x4d);
    t.push(0x50);
    t.push(0x0a);
    proof {
        assert(t@ =~= open_token_spec());
    }
    t
}

/// The closing marker as bytes.
pub fn close_token() -> (t: Vec<u8>)
    ensures
        t@ == close_token_spec(),
{
    let mut t: Vec<u8> = Vec::new();
    t.push(0x40);
    t.push(0x45);
    t.push(0x4e);
    t.push(0x44);
    t.push(0x43);
    t.push(0x4f);
    t.push(0x52);
    t.push(0x45);
    t.push(0x44);
    t.push(0x55);
    t.push(0x4d);
    t.push(0x50);
    proof {
        assert(t@ =~= close_token_spec());
    }
    t
}

/// Value of one hex character, or the distinct failure for any other.
pub fn hex_digit(c: u8) -> (r: Option<u8>)
    ensures
        r == hex_digit_value(c),
{
    if c >= 0x30 && c <= 0x39 {
        Option::Some(c - 0x30)
    } else if c >= 0x41 && c <= 0x46 {
        Option::Some(c - 0x41 + 10)
    } else if c >= 0x61 && c <= 0x66 {
        Option::Some(c - 0x61 + 10)
    } else {
        Option::None
    }
}

/// Decodes a run of hex characters two at a time; an odd trailing character
/// is handed back for push-back; a character that is not a hex digit fails
/// fast and distinctly from "insufficient data".
pub fn decode_hex_pairs(s: &Vec<u8>) -> (r: Result<(Vec<u8>, Option<u8>), CaptureError>)
    ensures
        match r {
            Result::Ok(p) => decode_hex_run(s@) == Option::Some((p.0@, p.1)),
            Result::Err(e) => decode_hex_run(s@) is None && e == CaptureError::InvalidHexDigit,
        },
{
    let mut out: Vec<u8> = Vec::new();
    let mut i: usize = 0;
    proof {
        assert(s@.skip(0) =~= s@);
    }
    while s.len() - i >= 2
        invariant
            i <= s@.len(),
            decode_hex_run(s@) == (match decode_hex_run(s@.skip(i as int)) {
                Option::Some(rest) => Option::Some((out@ + rest.0, rest.1)),
                Option::None => Option::<(Seq<u8>, Option<u8>)>::None,
            }),
        decreases s@.len() - i,
    {
        let h = hex_digit(s[i]);
        let lo = hex_digit(s[i + 1]);
        proof {
            assert(s@.skip(i as int)[0] == s@[i as int]);
            assert(s@.skip(i as int)[1] == s@[i as int + 1]);
            assert(s@.skip(i as int).skip(2) =~= s@.skip(i as int + 2));
        }
        match (h, lo) {
            (Option::Some(hv), Option::Some(lv)) => {
                let ghost out_pre = out@;
                out.push(hv * 16 + lv);
                proof {
                    let rest = decode_hex_run(s@.skip(i as int + 2));
                    if rest is Some {
                        let bs2 = rest.unwrap().0;
                        assert(out_pre + (seq![(hv * 16 + lv) as u8] + bs2) =~= out@ + bs2);
                    }
                }
                i += 2;
            },
            _ => {
                return Result::Err(CaptureError::InvalidHexDigit);
            },
        }
    }
    if i < s.len() {
        proof {
            assert(s@.skip(i as int).len() == 1);
            assert(s@.skip(i as int)[0] == s@[i as int]);
            assert(out@ + Seq::<u8>::empty() =~= out@);
        }
        let b = s[i];
        Result::Ok((out, Option::Some(b)))
    } else {
        proof {
            assert(s@.skip(i as int).len() == 0);
            assert(out@ + Seq::<u8>::empty() =~= out@);
        }
        Result::Ok((out, Option::None))
    }
}

/// The magic-signature check on a finished accumulator: an empty
/// accumulator is reported as a distinct anomaly instead of reading past
/// its end.
pub fn check_magic(bytes: &Vec<u8>) -> (v: MagicVerdict)
    ensures
        v == magic_verdict_of(bytes@),
{
    if bytes.len() == 0 {
        MagicVerdict::EmptyCapture
    } else if bytes.len() >= 3 && bytes[0] == 0x7f && bytes[1] == 0x45 && bytes[2] == 0x4c {
        MagicVerdict::Valid
    } else {
        MagicVerdict::Corrupted
    }
}

/// Are these the same bytes?
fn bytes_equal(a: &[u8], b: &Vec<u8>) -> (r: bool)
    ensures
        r == (a@ == b@),
{
    if a.len() != b.len() {
        return false;
    }
    let mut i: usize = 0;
    while i < a.len()
        invariant
            i <= a@.len(),
            a@.len() == b@.len(),
            forall|q: int| 0 <= q < i ==> a@[q] == b@[q],
        decreases a@.len() - i,
    {
        if a[i] != b[i] {
            return false;
        }
        i += 1;
    }
    proof {
        assert(a@ =~= b@);
    }
    true
}

/// One capture session, from the opening marker to the closing marker,
/// producing one binary accumulator.
pub struct Capture {
    state: CaptureState,
    coredump: Vec<u8>,
    pushed_back: Option<u8>,
}

impl Capture {
    /// The current state.
    pub closed spec fn state_spec(&self) -> CaptureState {
        self.state
    }

    /// The binary accumulator decoded so far.
    pub closed spec fn accumulated(&self) -> Seq<u8> {
        self.coredump@
    }

    /// The pushed-back hex character of an odd-length span, if any.
    pub closed spec fn leftover(&self) -> Option<u8> {
        self.pushed_back
    }

    pub fn new() -> (c: Self)
        ensures
            c.state_spec() == CaptureState::Waiting,
            c.accumulated() == Seq::<u8>::empty(),
            c.leftover() is None,
    {
        Capture { state: CaptureState::Waiting, coredump: Vec::new(), pushed_back: Option::None }
    }

    /// The current state, for a caller that drives the session.
    pub fn current_state(&self) -> (s: CaptureState)
        ensures
            s == self.state_spec(),
    {
        self.state
    }

    /// A view of the accumulator.
    pub fn accumulator(&self) -> (b: &Vec<u8>)
        ensures
            b@ == self.accumulated(),
    {
        &self.coredump
    }

    /// The pushed-back hex character, if any.
    pub fn leftover_digit(&self) -> (p: Option<u8>)
        ensures
            p == self.leftover(),
    {
        self.pushed_back
    }

    /// Handles one plain-text span from the scanner.  The result says
    /// whether the span is to be displayed, which holds exactly while
    /// waiting.  While receiving, the span, with any pushed-back character
    /// in front, is decoded as hex digit pairs into the accumulator; a
    /// character that is not a hex digit aborts the capture.
    pub fn on_data(&mut self, text: &[u8]) -> (r: Result<bool, CaptureError>)
        ensures
            ({
                let combined = with_pushed_back(old(self).leftover(), text@);
                match old(self).state_spec() {
                    CaptureState::Waiting => {
                        &&& r == Result::<bool, CaptureError>::Ok(true)
                        &&& *final(self) == *old(self)
                    },
                    CaptureState::Receiving => (match decode_hex_run(combined) {
                        Option::Some(dec) => {
                            &&& r == Result::<bool, CaptureError>::Ok(false)
                            &&& final(self).state_spec() == CaptureState::Receiving
                            &&& final(self).accumulated() == old(self).accumulated() + dec.0
                            &&& final(self).leftover() == dec.1
                        },
                        Option::None => {
                            &&& r == Result::<bool, CaptureError>::Err(
                                CaptureError::InvalidHexDigit,
                            )
                            &&& final(self).state_spec() == CaptureState::Idle
                            &&& final(self).accumulated() == old(self).accumulated()
                            &&& final(self).leftover() is None
                        },
                    }),
                    _ => {
                        &&& r == Result::<bool, CaptureError>::Ok(false)
                        &&& *final(self) == *old(self)
                    },
                }
            }),
    {
        match self.state {
            CaptureState::Waiting => Result::Ok(true),
            CaptureState::Receiving => {
                let mut combined: Vec<u8> = Vec::new();
                match self.pushed_back {
                    Option::Some(b) => combined.push(b),
                    Option::None => {},
                }
                let ghost pre = combined@;
                let mut i: usize = 0;
                while i < text.len()
                    invariant
                        i <= text@.len(),
                        combined@ == pre + text@.take(i as int),
                    decreases text@.len() - i,
                {
                    combined.push(text[i]);
                    proof {
                        assert(text@.take(i as int + 1) =~= text@.take(i as int).push(
                            text@[i as int],
                        ));
                    }
                    i += 1;
                }
                proof {
                    assert(text@.take(text@.len() as int) =~= text@);
                    assert(combined@ =~= with_pushed_back(self.pushed_back, text@));
                }
                match decode_hex_pairs(&combined) {
                    Result::Ok(dec) => {
                        let (mut bs, pb) = dec;
                        self.coredump.append(&mut bs);
                        self.pushed_back = pb;
                        Result::Ok(false)
                    },
                    Result::Err(e) => {
                        self.state = CaptureState::Idle;
                        self.pushed_back = Option::None;
                        Result::Err(e)
                    },
                }
            },
            CaptureState::Done => Result::Ok(false),
            CaptureState::Idle => Result::Ok(false),
        }
    }

    /// Handles one recognized token.  The opening marker starts receiving;
    /// the closing marker, while receiving, finishes the capture and clears
    /// the pushed-back character; every other combination changes nothing.
    pub fn on_token(&mut self, token: &[u8])
        ensures
            ({
                if old(self).state_spec() == CaptureState::Waiting && token@ == open_token_spec() {
                    &&& final(self).state_spec() == CaptureState::Receiving
                    &&& final(self).accumulated() == old(self).accumulated()
                    &&& final(self).leftover() == old(self).leftover()
                } else if old(self).state_spec() == CaptureState::Receiving && token@
                    == close_token_spec() {
                    &&& final(self).state_spec() == CaptureState::Done
                    &&& final(self).accumulated() == old(self).accumulated()
                    &&& final(self).leftover() is None
                } else {
                    *final(self) == *old(self)
                }
            }),
    {
        match self.state {
            CaptureState::Waiting => {
                let open = open_token();
                if bytes_equal(token, &open) {
                    self.state = CaptureState::Receiving;
                }
            },
            CaptureState::Receiving => {
                let close = close_token();
                if bytes_equal(token, &close) {
                    self.state = CaptureState::Done;
                    self.pushed_back = Option::None;
                }
            },
            CaptureState::Done => {},
            CaptureState::Idle => {},
        }
    }

    /// Consumes the one-shot finished state: hands out the accumulator,
    /// exactly once, together with the verdict of the magic-signature check,
    /// and moves to the terminal idle state.
    pub fn finish(&mut self) -> (r: Option<(Vec<u8>, MagicVerdict)>)
        ensures
            ({
                if old(self).state_spec() == CaptureState::Done {
                    &&& final(self).state_spec() == CaptureState::Idle
                    &&& final(self).accumulated() == Seq::<u8>::empty()
                    &&& final(self).leftover() == old(self).leftover()
                    &&& (match r {
                        Option::Some(p) => p.0@ == old(self).accumulated() && p.1
                            == magic_verdict_of(old(self).accumulated()),
                        Option::None => false,
                    })
                } else {
                    &&& *final(self) == *old(self)
                    &&& r is None
                }
            }),
    {
        match self.state {
            CaptureState::Done => {
                self.state = CaptureState::Idle;
                let mut out: Vec<u8> = Vec::new();
                core::mem::swap(&mut out, &mut self.coredump);
                let v = check_magic(&out);
                Option::Some((out, v))
            },
            _ => Option::None,
        }
    }
}

} // verus!
