//! Visible-width estimation for one line of terminal text.
//!
//! A byte-level scanner counts the columns a line would occupy when
//! rendered, treating recognised SGR escape sequences (`ESC [ ... m`, with
//! the introducer in either its one-byte or two-byte CSI form) as zero
//! width and every other byte as exactly one column. Sequences that turn
//! out not to be SGR are charged at their full byte count, so the estimate
//! errs toward paging rather than hiding text.

use vstd::prelude::*;

verus! {

/// Escape byte that may begin a control sequence.
pub const ESCAPE: u8 = 0x1b;
/// First byte of the two-byte UTF-8 encoding of the CSI codepoint.
pub const CSI_FIRST: u8 = 0xc2;
/// Second byte of the two-byte UTF-8 encoding of the CSI codepoint.
pub const CSI_SECOND: u8 = 0x9b;

/// Scanner state while walking the bytes of one line.
#[derive(Clone, Copy)]
pub enum ScanState {
    /// Ordinary text.
    Normal,
    /// An escape byte was seen; a `[` would open a control sequence.
    Esc,
    /// The first byte of the two-byte CSI encoding was seen.
    Csi,
    /// Inside a control sequence; the payload counts the bytes the
    /// sequence has consumed so far, in case it is not one we recognise.
    MidSequence(usize),
}

/// Whether `b` may stand in the body of an SGR sequence: a digit or `;`.
pub open spec fn is_sgr_body(b: u8) -> bool {
    (48 <= b && b <= 57) || b == 59
}

/// Columns charged for the byte `b` when it is scanned in state `s`.
pub open spec fn step_width(s: ScanState, b: u8) -> int {
    match s {
        ScanState::Normal => if b == ESCAPE || b == CSI_FIRST { 0 } else { 1 },
        ScanState::Esc => if b == 91 { 0 } else { 2 },
        ScanState::Csi => if b == CSI_SECOND { 0 } else { 2 },
        ScanState::MidSequence(n) => if is_sgr_body(b) || b == 109 { 0 } else { n + 1 },
    }
}

/// The state the scanner moves to after `b` is scanned in state `s`.
pub open spec fn next_state(s: ScanState, b: u8) -> ScanState {
    match s {
        ScanState::Normal => if b == ESCAPE {
            ScanState::Esc
        } else if b == CSI_FIRST {
            ScanState::Csi
        } else {
            ScanState::Normal
        },
        ScanState::Esc => if b == 91 {
            ScanState::MidSequence(2)
        } else {
            ScanState::Normal
        },
        ScanState::Csi => if b == CSI_SECOND {
            ScanState::MidSequence(2)
        } else {
            ScanState::Normal
        },
        ScanState::MidSequence(n) => if is_sgr_body(b) {
            ScanState::MidSequence((n + 1) as usize)
        } else {
            ScanState::Normal
        },
    }
}

/// Columns charged for a sequence left unfinished when the line ends: the
/// introducer alone, or everything the sequence had consumed.
pub open spec fn pending_width(s: ScanState) -> int {
    match s {
        ScanState::Normal => 0,
        ScanState::Esc => 1,
        ScanState::Csi => 1,
        ScanState::MidSequence(n) => n as int,
    }
}

/// Columns `bytes` occupies when the scan starts in state `s`.
pub open spec fn scan_width(s: ScanState, bytes: Seq<u8>) -> int
    decreases bytes.len(),
{
    if bytes.len() == 0 {
        pending_width(s)
    } else {
        step_width(s, bytes[0]) + scan_width(next_state(s, bytes[0]), bytes.skip(1))
    }
}

/// Columns a line of bytes occupies on screen.
pub open spec fn visible_len(bytes: Seq<u8>) -> int {
    scan_width(ScanState::Normal, bytes)
}

/// The scan never charges a negative width, and never charges more than
/// the pending columns of the starting state plus one column per byte.
pub proof fn lemma_scan_width_bounds(s: ScanState, bytes: Seq<u8>)
    ensures
        0 <= scan_width(s, bytes) <= pending_width(s) + bytes.len(),
    decreases bytes.len(),
{
    if bytes.len() > 0 {
        lemma_scan_width_bounds(next_state(s, bytes[0]), bytes.skip(1));
    }
}

/// A line never looks wider than it is long.
pub proof fn lemma_visible_len_bounds(bytes: Seq<u8>)
    ensures
        0 <= visible_len(bytes) <= bytes.len(),
{
    lemma_scan_width_bounds(ScanState::Normal, bytes);
}

/// A line with no escape or CSI lead-in byte is exactly as wide as it is
/// long: every byte is one column.
pub proof fn lemma_plain_text_width(bytes: Seq<u8>)
    requires
        forall|i: int| 0 <= i < bytes.len() ==> bytes[i] != ESCAPE && bytes[i] != CSI_FIRST,
    ensures
        visible_len(bytes) == bytes.len(),
    decreases bytes.len(),
{
    if bytes.len() > 0 {
        assert(bytes[0] != ESCAPE && bytes[0] != CSI_FIRST);
        assert(forall|i: int|
            0 <= i < bytes.skip(1).len() ==> bytes.skip(1)[i] == bytes[i + 1]
                && bytes.skip(1)[i] != ESCAPE && bytes.skip(1)[i] != CSI_FIRST);
        lemma_plain_text_width(bytes.skip(1));
    }
}

/// Scanning an SGR body from inside a sequence charges nothing while the
/// body lasts; the terminator then settles the whole sequence: `m` closes
/// it for free, anything else charges every consumed byte plus itself.
proof fn lemma_scan_sequence_body(body: Seq<u8>, n: usize, t: u8)
    requires
        forall|i: int| 0 <= i < body.len() ==> is_sgr_body(#[trigger] body[i]),
        n + body.len() < usize::MAX,
    ensures
        t == 109 ==> scan_width(ScanState::MidSequence(n), body.push(t)) == 0,
        !is_sgr_body(t) && t != 109 ==> scan_width(ScanState::MidSequence(n), body.push(t))
            == n + body.len() + 1,
    decreases body.len(),
{
    let s = body.push(t);
    let mid = ScanState::MidSequence(n);
    if body.len() == 0 {
        assert(s[0] == t);
        assert(s.skip(1) =~= Seq::<u8>::empty());
        assert(scan_width(next_state(mid, t), Seq::<u8>::empty())
            == pending_width(next_state(mid, t)));
        assert(scan_width(mid, s) == step_width(mid, t) + scan_width(next_state(mid, t), s.skip(1)));
    } else {
        assert(s[0] == body[0]);
        assert(is_sgr_body(body[0]));
        assert(s.skip(1) =~= body.skip(1).push(t));
        assert(forall|i: int|
            0 <= i < body.skip(1).len() ==> is_sgr_body(#[trigger] body.skip(1)[i]));
        assert((n + 1) as usize == n + 1);
        lemma_scan_sequence_body(body.skip(1), (n + 1) as usize, t);
        assert(next_state(mid, body[0]) == ScanState::MidSequence((n + 1) as usize));
        assert(step_width(mid, body[0]) == 0);
        assert(scan_width(mid, s)
            == step_width(mid, body[0]) + scan_width(next_state(mid, body[0]), s.skip(1)));
    }
}

/// A recognised SGR sequence — `ESC [`, digits and semicolons, then `m` —
/// contributes no columns at all.
pub proof fn lemma_sgr_sequence_invisible(body: Seq<u8>)
    requires
        forall|i: int| 0 <= i < body.len() ==> is_sgr_body(#[trigger] body[i]),
        body.len() + 3 < usize::MAX,
    ensures
        visible_len(seq![ESCAPE, 91u8] + body.push(109u8)) == 0,
{
    let s = seq![ESCAPE, 91u8] + body.push(109u8);
    assert(s[0] == ESCAPE);
    assert(s.skip(1)[0] == 91u8);
    assert(s.skip(1).skip(1) =~= body.push(109u8));
    lemma_scan_sequence_body(body, 2, 109u8);
    assert(scan_width(ScanState::Esc, s.skip(1))
        == step_width(ScanState::Esc, 91u8)
            + scan_width(ScanState::MidSequence(2), s.skip(1).skip(1)));
    assert(scan_width(ScanState::Normal, s)
        == step_width(ScanState::Normal, ESCAPE) + scan_width(ScanState::Esc, s.skip(1)));
}

/// A sequence with the same shape but an unrecognised terminator is
/// charged at its full byte count: the two introducer bytes, the body,
/// and the terminator are all treated as visible text.
pub proof fn lemma_unrecognised_sequence_visible(body: Seq<u8>, t: u8)
    requires
        forall|i: int| 0 <= i < body.len() ==> is_sgr_body(#[trigger] body[i]),
        !is_sgr_body(t),
        t != 109,
        body.len() + 3 < usize::MAX,
    ensures
        visible_len(seq![ESCAPE, 91u8] + body.push(t)) == body.len() + 3,
{
    let s = seq![ESCAPE, 91u8] + body.push(t);
    assert(s[0] == ESCAPE);
    assert(s.skip(1)[0] == 91u8);
    assert(s.skip(1).skip(1) =~= body.push(t));
    lemma_scan_sequence_body(body, 2, t);
    assert(scan_width(ScanState::Esc, s.skip(1))
        == step_width(ScanState::Esc, 91u8)
            + scan_width(ScanState::MidSequence(2), s.skip(1).skip(1)));
    assert(scan_width(ScanState::Normal, s)
        == step_width(ScanState::Normal, ESCAPE) + scan_width(ScanState::Esc, s.skip(1)));
}

/// Columns `buf` would occupy if rendered in an infinitely wide terminal:
/// recognised SGR sequences are free, everything else is one column per
/// byte. Only an approximation — wide glyphs are deliberately ignored.
pub fn visible_length(buf: &[u8]) -> (width: usize)
    ensures
        width == visible_len(buf@),
{
    let mut state = ScanState::Normal;
    let mut total: usize = 0;
    let mut i: usize = 0;
    proof {
        assert(buf@.skip(0) =~= buf@);
    }
    while i < buf.len()
        invariant
            i <= buf.len(),
            total + pending_width(state) <= i,
            total + scan_width(state, buf@.skip(i as int)) == visible_len(buf@),
        decreases buf.len() - i,
    {
        let b = buf[i];
        proof {
            lemma_scan_width_bounds(state, buf@.skip(i as int));
            assert(buf@.skip(i as int)[0] == b);
            assert(buf@.skip(i as int).skip(1) =~= buf@.skip(i as int + 1));
        }
        match state {
            ScanState::Normal => {
                if b == ESCAPE {
                    state = ScanState::Esc;
                } else if b == CSI_FIRST {
                    state = ScanState::Csi;
                } else {
                    total = total + 1;
                }
            }
            ScanState::Esc => {
                if b == 91 {
                    state = ScanState::MidSequence(2);
                } else {
                    state = ScanState::Normal;
                    total = total + 2;
                }
            }
            ScanState::Csi => {
                if b == CSI_SECOND {
                    state = ScanState::MidSequence(2);
                } else {
                    state = ScanState::Normal;
                    total = total + 2;
                }
            }
            ScanState::MidSequence(n) => {
                if (48 <= b && b <= 57) || b == 59 {
                    state = ScanState::MidSequence(n + 1);
                } else if b == 109 {
                    state = ScanState::Normal;
                } else {
                    state = ScanState::Normal;
                    total = total + n + 1;
                }
            }
        }
        i = i + 1;
    }
    proof {
        assert(buf@.skip(buf@.len() as int) =~= Seq::<u8>::empty());
    }
    let extra: usize = match state {
        ScanState::Normal => 0,
        ScanState::Esc => 1,
        ScanState::Csi => 1,
        ScanState::MidSequence(n) => n,
    };
    total + extra
}

} // verus!
