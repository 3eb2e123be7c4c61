//! The prefix reader and decision engine.
//!
//! Reads just enough of the input to know whether it fits on one screen.
//! The caller owns the input source and performs the actual reads; the
//! [`PrefixReader`] state machine decides, after every chunk, whether to
//! keep reading, to show everything (source exhausted while it still
//! fits), or to hand over to a pager (screen already overflows). The
//! buffer always holds exactly the bytes consumed so far, in order, so no
//! byte is ever lost between the sizing phase and the output phase.

use vstd::prelude::*;
use crate::fit::{
    rows_required, lines_used, lemma_rows_required_pos,
};

verus! {

/// The outcome of the sizing phase, carrying every byte consumed by it.
pub enum Decision {
    /// The source was exhausted before the screen filled; the buffer is
    /// the whole input.
    ShowAll(Vec<u8>),
    /// The buffer already overflows the screen; the unread remainder
    /// stays with the source and must be streamed after the buffer.
    Page(Vec<u8>),
}

impl Decision {
    /// The bytes consumed while deciding.
    pub open spec fn bytes(self) -> Seq<u8> {
        match self {
            Decision::ShowAll(b) => b@,
            Decision::Page(b) => b@,
        }
    }

    /// Whether the decision is to page.
    pub open spec fn is_page(self) -> bool {
        match self {
            Decision::ShowAll(_) => false,
            Decision::Page(_) => true,
        }
    }
}

/// Rows left for content after reserving three for pager chrome.
pub open spec fn usable_height_of(height: int) -> int {
    if height >= 3 {
        height - 3
    } else {
        0
    }
}

/// The incremental prefix reader: geometry, the bytes consumed so far,
/// and the current notional buffer size, which grows one screen block at
/// a time.
pub struct PrefixReader {
    /// Bytes read from the source so far, in order.
    pub buf: Vec<u8>,
    /// Terminal width in columns; at least one.
    pub width: usize,
    /// Terminal rows available for content.
    pub usable_height: usize,
    /// Notional buffer size: reads are sized to fill it, and it grows by
    /// one screen block whenever it fills up.
    pub cap: usize,
}

impl PrefixReader {
    /// One screen's worth of bytes: the unit the buffer grows by.
    pub open spec fn block(self) -> int {
        self.width * self.usable_height
    }

    /// The reader's invariant: sane geometry, and a buffer that never
    /// outruns its notional size nor lags it by more than one block.
    pub open spec fn wf(self) -> bool {
        &&& 1 <= self.width
        &&& self.buf@.len() <= self.cap
        &&& self.cap <= self.buf@.len() + self.block()
        &&& (self.usable_height >= 1 ==> self.buf@.len() < self.cap)
        &&& (self.usable_height == 0 ==> self.buf@.len() == 0 && self.cap == 0)
    }

    /// A fresh reader with an empty buffer and one screen block of room.
    pub fn new(width: u16, height: u16) -> (reader: PrefixReader)
        requires
            width >= 1,
        ensures
            reader.wf(),
            reader.buf@ == Seq::<u8>::empty(),
            reader.width == width as int,
            reader.usable_height == usable_height_of(height as int),
            reader.cap == reader.block(),
    {
        let w = width as usize;
        let uh: usize = if height >= 3 {
            (height - 3) as usize
        } else {
            0
        };
        proof {
            assert(w * uh <= 65535 * 65535) by (nonlinear_arith)
                requires
                    w <= 65535,
                    uh <= 65535,
            ;
        }
        proof {
            if uh >= 1 {
                assert(w * uh >= 1) by (nonlinear_arith)
                    requires
                        w >= 1,
                        uh >= 1,
                ;
            }
        }
        let cap = w * uh;
        let reader = PrefixReader { buf: Vec::new(), width: w, usable_height: uh, cap };
        proof {
            assert(reader.buf@ =~= Seq::<u8>::empty());
        }
        reader
    }

    /// Whether the buffered prefix still fits on the screen — that is,
    /// whether the loop should go on reading.
    pub fn fits(&self) -> (more: bool)
        requires
            self.wf(),
        ensures
            more == (rows_required(self.buf@, self.width as int) <= self.usable_height),
    {
        lines_used(self.buf.as_slice(), self.width) <= self.usable_height
    }

    /// Unused room in the buffer: the most the next read should deliver.
    pub fn room(&self) -> (r: usize)
        requires
            self.wf(),
        ensures
            r == self.cap - self.buf@.len(),
    {
        self.cap - self.buf.len()
    }

    /// Take in one chunk handed back by a read, growing the notional
    /// buffer by another screen block when it fills up.
    pub fn push_chunk(&mut self, chunk: &[u8])
        requires
            old(self).wf(),
            chunk@.len() <= old(self).cap - old(self).buf@.len(),
            old(self).cap + old(self).block() <= usize::MAX,
        ensures
            final(self).wf(),
            final(self).buf@ == old(self).buf@ + chunk@,
            final(self).width == old(self).width,
            final(self).usable_height == old(self).usable_height,
            final(self).cap == if old(self).buf@.len() + chunk@.len() == old(self).cap {
                old(self).cap + old(self).block()
            } else {
                old(self).cap as int
            },
    {
        let mut j: usize = 0;
        proof {
            assert(self.buf@ =~= old(self).buf@ + chunk@.take(0));
        }
        while j < chunk.len()
            invariant
                j <= chunk.len(),
                chunk@.len() <= old(self).cap - old(self).buf@.len(),
                self.buf@ == old(self).buf@ + chunk@.take(j as int),
                self.width == old(self).width,
                self.usable_height == old(self).usable_height,
                self.cap == old(self).cap,
            decreases chunk.len() - j,
        {
            self.buf.push(chunk[j]);
            proof {
                assert(chunk@.take(j as int).push(chunk@[j as int]) =~= chunk@.take(j + 1));
            }
            j = j + 1;
        }
        proof {
            assert(chunk@.take(chunk@.len() as int) =~= chunk@);
        }
        proof {
            if self.usable_height >= 1 {
                assert(self.width * self.usable_height >= 1) by (nonlinear_arith)
                    requires
                        self.width >= 1,
                        self.usable_height >= 1,
                ;
            } else {
                assert(self.width * self.usable_height == 0) by (nonlinear_arith)
                    requires
                        self.usable_height == 0,
                ;
            }
        }
        if self.buf.len() == self.cap {
            self.cap = self.cap + self.width * self.usable_height;
        }
        proof {
            assert(self.buf@ == old(self).buf@ + chunk@);
            assert(self.wf());
        }
    }

    /// The source is exhausted: everything read is everything there is,
    /// so show it directly.
    pub fn into_show_all(self) -> (d: Decision)
        ensures
            d matches Decision::ShowAll(b) && b@ == self.buf@,
    {
        Decision::ShowAll(self.buf)
    }

    /// The screen is already full: page, keeping what was read so far.
    pub fn into_page(self) -> (d: Decision)
        ensures
            d matches Decision::Page(b) && b@ == self.buf@,
    {
        Decision::Page(self.buf)
    }

    /// Surrender the partial buffer: for the failed-read path, where the
    /// caller still owes the user whatever was already read.
    pub fn into_buffer(self) -> (b: Vec<u8>)
        ensures
            b@ == self.buf@,
    {
        self.buf
    }
}

/// Entry to the sizing phase: with no usable geometry there is nothing to
/// size against, so the decision to page (with an empty prefix) is
/// immediate.
pub enum Start {
    /// Geometry is known: keep reading through the returned reader.
    Reading(PrefixReader),
    /// No sizing is possible: the decision is already made.
    Decided(Decision),
}

/// Begin sizing against the terminal, or page at once when the geometry
/// is unknown (not a terminal) or degenerate (zero width).
pub fn begin(geometry: Option<(u16, u16)>) -> (s: Start)
    ensures
        match geometry {
            Some(dims) => if dims.0 >= 1 {
                s matches Start::Reading(r) && r.wf() && r.buf@ == Seq::<u8>::empty()
                    && r.width == dims.0 as int
                    && r.usable_height == usable_height_of(dims.1 as int) && r.cap == r.block()
            } else {
                s matches Start::Decided(d) && d.is_page() && d.bytes() == Seq::<u8>::empty()
            },
            None => s matches Start::Decided(d) && d.is_page() && d.bytes()
                == Seq::<u8>::empty(),
        },
{
    match geometry {
        Some(dims) => {
            if dims.0 >= 1 {
                Start::Reading(PrefixReader::new(dims.0, dims.1))
            } else {
                let empty: Vec<u8> = Vec::new();
                proof {
                    assert(empty@ =~= Seq::<u8>::empty());
                }
                Start::Decided(Decision::Page(empty))
            }
        }
        None => {
            let empty: Vec<u8> = Vec::new();
            proof {
                assert(empty@ =~= Seq::<u8>::empty());
            }
            Start::Decided(Decision::Page(empty))
        }
    }
}

/// One complete run of the prefix loop over a source of known bytes,
/// where every read delivers as much as the buffer has room for: `true`
/// in the first component means the decision is to page, and the second
/// component is the buffer the decision carries.
pub open spec fn run_model(buf: Seq<u8>, cap: int, rest: Seq<u8>, width: int, usable: int) -> (
    bool,
    Seq<u8>,
)
    decreases rest.len(),
{
    if rows_required(buf, width) > usable {
        (true, buf)
    } else if rest.len() == 0 {
        (false, buf)
    } else {
        let room = cap - buf.len();
        // Under the reader's invariant there is always room here; taking
        // the whole rest otherwise keeps the recursion well founded.
        let take = if room < 1 {
            rest.len() as int
        } else if room < rest.len() {
            room
        } else {
            rest.len() as int
        };
        let grown = buf + rest.take(take);
        let cap2 = if grown.len() == cap {
            cap + width * usable
        } else {
            cap
        };
        run_model(grown, cap2, rest.skip(take), width, usable)
    }
}

/// The decision for a source holding `source`, sized against a terminal
/// `width` columns by `height` rows.
pub open spec fn decision_model(source: Seq<u8>, width: int, height: int) -> (bool, Seq<u8>) {
    let usable = usable_height_of(height);
    run_model(Seq::<u8>::empty(), width * usable, source, width, usable)
}

/// Whatever a run decides, its buffer is what it consumed: the starting
/// buffer extended, in order, by a prefix of the rest of the source.
pub proof fn lemma_run_model_prefix(buf: Seq<u8>, cap: int, rest: Seq<u8>, width: int, usable: int)
    ensures
        buf.len() <= run_model(buf, cap, rest, width, usable).1.len() <= buf.len() + rest.len(),
        run_model(buf, cap, rest, width, usable).1 == (buf + rest).take(
            run_model(buf, cap, rest, width, usable).1.len() as int,
        ),
    decreases rest.len(),
{
    let out = run_model(buf, cap, rest, width, usable).1;
    if rows_required(buf, width) > usable || rest.len() == 0 {
        assert(out =~= (buf + rest).take(out.len() as int));
    } else {
        let room = cap - buf.len();
        let take = if room < 1 {
            rest.len() as int
        } else if room < rest.len() {
            room
        } else {
            rest.len() as int
        };
        let grown = buf + rest.take(take);
        let cap2 = if grown.len() == cap {
            cap + width * usable
        } else {
            cap
        };
        lemma_run_model_prefix(grown, cap2, rest.skip(take), width, usable);
        assert(grown + rest.skip(take) =~= buf + rest);
    }
}

/// A run that ends in `ShowAll` consumed the whole source and the result
/// fits the screen; a run that ends in `Page` carries a buffer that
/// overflows it.
pub proof fn lemma_run_model_outcome(
    buf: Seq<u8>,
    cap: int,
    rest: Seq<u8>,
    width: int,
    usable: int,
)
    requires
        width >= 1,
    ensures
        !run_model(buf, cap, rest, width, usable).0 ==> run_model(buf, cap, rest, width, usable).1
            == buf + rest && rows_required(run_model(buf, cap, rest, width, usable).1, width)
            <= usable,
        run_model(buf, cap, rest, width, usable).0 ==> rows_required(
            run_model(buf, cap, rest, width, usable).1,
            width,
        ) > usable,
    decreases rest.len(),
{
    if rows_required(buf, width) > usable {
    } else if rest.len() == 0 {
        assert(buf + rest =~= buf);
    } else {
        let room = cap - buf.len();
        let take = if room < 1 {
            rest.len() as int
        } else if room < rest.len() {
            room
        } else {
            rest.len() as int
        };
        let grown = buf + rest.take(take);
        let cap2 = if grown.len() == cap {
            cap + width * usable
        } else {
            cap
        };
        lemma_run_model_outcome(grown, cap2, rest.skip(take), width, usable);
        assert(grown + rest.skip(take) =~= buf + rest);
    }
}

/// The decision is a function of the source bytes and the geometry alone:
/// sizing the same content against the same terminal twice yields the
/// same variant and the same buffer.
pub proof fn lemma_decision_deterministic(
    source_a: Seq<u8>,
    source_b: Seq<u8>,
    width: int,
    height: int,
)
    requires
        source_a == source_b,
    ensures
        decision_model(source_a, width, height) == decision_model(source_b, width, height),
{
}

/// What each variant of the decision guarantees: `ShowAll` carries the
/// whole source, which fits the screen; `Page` carries a prefix of the
/// source that overflows it, so the bytes the pager receives — buffer,
/// then unread remainder — are exactly the source.
pub proof fn lemma_decision_model_outcome(source: Seq<u8>, width: int, height: int)
    requires
        width >= 1,
    ensures
        !decision_model(source, width, height).0 ==> decision_model(source, width, height).1
            == source && rows_required(source, width) <= usable_height_of(height),
        decision_model(source, width, height).0 ==> rows_required(
            decision_model(source, width, height).1,
            width,
        ) > usable_height_of(height),
        decision_model(source, width, height).1 == source.take(
            decision_model(source, width, height).1.len() as int,
        ),
{
    let usable = usable_height_of(height);
    let empty = Seq::<u8>::empty();
    lemma_run_model_outcome(empty, width * usable, source, width, usable);
    lemma_run_model_prefix(empty, width * usable, source, width, usable);
    assert(empty + source =~= source);
    assert((empty + source).take(decision_model(source, width, height).1.len() as int)
        =~= source.take(decision_model(source, width, height).1.len() as int));
}

/// The whole sizing loop over a source already in memory, each read
/// delivering as much as the buffer has room for: the reference run of
/// the engine, and the way to size content that needs no streaming.
pub fn decide_bytes(source: &[u8], width: u16, height: u16) -> (d: Decision)
    requires
        width >= 1,
        source@.len() + 2 * (width as int) * usable_height_of(height as int) <= usize::MAX,
    ensures
        d.is_page() == decision_model(source@, width as int, height as int).0,
        d.bytes() == decision_model(source@, width as int, height as int).1,
{
    let mut reader = PrefixReader::new(width, height);
    let mut pos: usize = 0;
    proof {
        assert(source@.skip(0) =~= source@);
    }
    loop
        invariant
            reader.wf(),
            reader.width == width as int,
            reader.usable_height == usable_height_of(height as int),
            pos <= source@.len(),
            reader.buf@.len() <= pos,
            run_model(
                reader.buf@,
                reader.cap as int,
                source@.skip(pos as int),
                width as int,
                usable_height_of(height as int),
            ) == decision_model(source@, width as int, height as int),
            source@.len() + 2 * (width as int) * usable_height_of(height as int) <= usize::MAX,
        decreases source@.len() - pos,
    {
        let ghost rest = source@.skip(pos as int);
        let ghost w = width as int;
        let ghost u = usable_height_of(height as int);
        if !reader.fits() {
            proof {
                assert(run_model(reader.buf@, reader.cap as int, rest, w, u)
                    == (true, reader.buf@));
            }
            return reader.into_page();
        }
        proof {
            lemma_rows_required_pos(reader.buf@, width as int);
        }
        if pos == source.len() {
            proof {
                assert(rest.len() == 0);
                assert(run_model(reader.buf@, reader.cap as int, rest, w, u)
                    == (false, reader.buf@));
            }
            return reader.into_show_all();
        }
        let room = reader.room();
        let remaining = source.len() - pos;
        let take = if room < remaining {
            room
        } else {
            remaining
        };
        let chunk = vstd::slice::slice_subrange(source, pos, pos + take);
        proof {
            assert(rest.take(take as int) =~= chunk@);
            assert(rest.skip(take as int) =~= source@.skip(pos + take));
            assert(reader.cap + reader.block() <= usize::MAX) by (nonlinear_arith)
                requires
                    reader.cap <= reader.buf@.len() + reader.width * reader.usable_height,
                    reader.buf@.len() <= pos <= source@.len(),
                    reader.block() == reader.width * reader.usable_height,
                    source@.len() + 2 * (reader.width as int) * (reader.usable_height as int)
                        <= usize::MAX,
            ;
        }
        let ghost buf0 = reader.buf@;
        let ghost cap0 = reader.cap as int;
        reader.push_chunk(chunk);
        pos = pos + take;
        proof {
            let room0 = cap0 - buf0.len();
            let take0 = if room0 < 1 {
                rest.len() as int
            } else if room0 < rest.len() {
                room0
            } else {
                rest.len() as int
            };
            assert(take0 == take as int);
            let grown = buf0 + rest.take(take0);
            let cap2 = if grown.len() == cap0 {
                cap0 + w * u
            } else {
                cap0
            };
            assert(run_model(buf0, cap0, rest, w, u)
                == run_model(grown, cap2, rest.skip(take0), w, u));
            assert(grown == reader.buf@);
            assert(cap2 == reader.cap as int);
        }
    }
}

} // verus!
