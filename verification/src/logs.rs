//! A bounded log buffer per project.
//!
//! Long-running dev servers are chatty, so the buffer holds the most recent `CAPACITY` lines
//! and drops the oldest. Each line carries a sequence number one above the previous line's,
//! which lets the interface ask for "everything after what I already have" without the
//! whole buffer being re-sent.
use vstd::prelude::*;
use std::collections::VecDeque;

verus! {

pub const CAPACITY: usize = 1000;

#[derive(Clone, Copy, Debug, PartialEq, Eq, Structural)]
pub enum Stream {
    Stdout,
    Stderr,
    /// Emitted by Oracle itself, not the child process.
    System,
}

pub struct LogLine {
    pub seq: u64,
    pub stream: Stream,
    pub text: String,
    /// Milliseconds since the Unix epoch.
    pub at: i64,
}

impl Clone for LogLine {
    fn clone(&self) -> (r: Self)
        ensures
            r == *self,
    {
        LogLine { seq: self.seq, stream: self.stream, text: self.text.clone(), at: self.at }
    }
}

/// Where the system clock stands against the Unix epoch, as whole seconds and the
/// nanoseconds beyond them: `Ok` at or after the epoch, `Err` for how far before it.
///
/// Calls `std::time::SystemTime::now().duration_since(UNIX_EPOCH)`, which reports a clock
/// set before the epoch as an error carrying the distance, and splits either distance with
/// `Duration::as_secs` and `Duration::subsec_nanos`, the second always below a billion. The
/// reading depends on the clock, so nothing more is claimed of it.
#[verifier::external_body]
fn clock_reading() -> (r: Result<(u64, u32), (u64, u32)>)
    ensures
        match r {
            Ok((_, n)) => n < 1_000_000_000,
            Err((_, n)) => n < 1_000_000_000,
        },
{
    match std::time::SystemTime::now().duration_since(std::time::UNIX_EPOCH) {
        Ok(after) => Ok((after.as_secs(), after.subsec_nanos())),
        Err(before) => Err((before.duration().as_secs(), before.duration().subsec_nanos())),
    }
}

/// The milliseconds since the epoch a clock reading stands for, rounded down as
/// `timestamp_millis` rounds: towards the past, so a moment a fraction of a millisecond
/// before the epoch is -1.
pub open spec fn reading_millis(reading: Result<(u64, u32), (u64, u32)>) -> int {
    match reading {
        Ok((s, n)) => s * 1000 + n / 1_000_000,
        Err((s, n)) => -(s * 1000 + (n + 999_999) / 1_000_000),
    }
}

/// A clock reading in milliseconds since the Unix epoch, held to what an `i64` can say.
pub fn millis_from_clock(reading: Result<(u64, u32), (u64, u32)>) -> (r: i64)
    ensures
        r == (if reading_millis(reading) > i64::MAX {
            i64::MAX as int
        } else if reading_millis(reading) < i64::MIN {
            i64::MIN as int
        } else {
            reading_millis(reading)
        }),
{
    match reading {
        Ok((s, n)) => {
            let ms: u128 = (s as u128) * 1000 + (n as u128) / 1_000_000;
            if ms > i64::MAX as u128 {
                i64::MAX
            } else {
                ms as i64
            }
        },
        Err((s, n)) => {
            let ms: u128 = (s as u128) * 1000 + ((n as u128) + 999_999) / 1_000_000;
            if ms >= 0x8000_0000_0000_0000u128 {
                i64::MIN
            } else {
                -(ms as i64)
            }
        },
    }
}

/// The current time in milliseconds since the Unix epoch, negative for a clock set before
/// it.
pub(crate) fn now_millis() -> (r: i64) {
    millis_from_clock(clock_reading())
}

pub struct LogRing {
    lines: VecDeque<LogLine>,
    next_seq: u64,
    /// Every push (`Some` of what was pushed) and every clear (`None`), oldest first.
    history: Ghost<Seq<Option<(Stream, Seq<char>)>>>,
}

/// What a ring has been asked to do since it was made: `Some` for a pushed line, `None` for
/// a clear.
pub type LogHistory = Seq<Option<(Stream, Seq<char>)>>;

/// How many lines a history pushed.
pub open spec fn pushes(h: LogHistory) -> nat
    decreases h.len(),
{
    if h.len() == 0 {
        0
    } else {
        pushes(h.drop_last()) + if h.last() is Some { 1nat } else { 0nat }
    }
}

/// The lines a history pushed since its last clear, oldest first.
pub open spec fn since_clear(h: LogHistory) -> Seq<(Stream, Seq<char>)>
    decreases h.len(),
{
    if h.len() == 0 {
        Seq::empty()
    } else {
        match h.last() {
            Some(l) => since_clear(h.drop_last()).push(l),
            None => Seq::empty(),
        }
    }
}

/// The lines a ring with this history holds: each push appends, dropping the oldest once
/// `CAPACITY` are held, and a clear empties it.
pub open spec fn kept(h: LogHistory) -> Seq<(Stream, Seq<char>)>
    decreases h.len(),
{
    if h.len() == 0 {
        Seq::empty()
    } else {
        match h.last() {
            Some(l) => {
                let before = kept(h.drop_last());
                (if before.len() == CAPACITY { before.drop_first() } else { before }).push(l)
            },
            None => Seq::empty(),
        }
    }
}

/// What a line says, leaving out its number and time.
pub open spec fn said(l: LogLine) -> (Stream, Seq<char>) {
    (l.stream, l.text@)
}

/// The lines of `ls` whose sequence number is at least `seq`, in order.
pub open spec fn lines_since(ls: Seq<LogLine>, seq: u64) -> Seq<LogLine>
    decreases ls.len(),
{
    if ls.len() == 0 {
        ls
    } else if ls.last().seq >= seq {
        lines_since(ls.drop_last(), seq).push(ls.last())
    } else {
        lines_since(ls.drop_last(), seq)
    }
}

impl LogRing {
    /// Every line currently held, oldest first.
    pub closed spec fn held(&self) -> Seq<LogLine> {
        self.lines@
    }

    /// The sequence number the next line will get.
    pub closed spec fn next(&self) -> u64 {
        self.next_seq
    }

    /// Every push and clear since the ring was made.
    pub closed spec fn history(&self) -> LogHistory {
        self.history@
    }

    /// At most `CAPACITY` lines, numbered consecutively up to just below `next`, and
    /// exactly what the history leaves held.
    pub open spec fn wf(&self) -> bool {
        &&& self.held().map_values(|l: LogLine| said(l)) == kept(self.history())
        &&& self.next() == pushes(self.history())
        &&& self.held().len() <= CAPACITY
        &&& self.held().len() <= self.next()
        &&& forall|i: int|
            0 <= i < self.held().len() ==> #[trigger] self.held()[i].seq == self.next()
                - self.held().len() + i
    }

    pub fn new() -> (r: LogRing)
        ensures
            r.wf(),
            r.held().len() == 0,
            r.next() == 0,
            r.history().len() == 0,
    {
        let r = LogRing {
            lines: VecDeque::with_capacity(CAPACITY),
            next_seq: 0,
            history: Ghost(Seq::empty()),
        };
        assert(r.held().map_values(|l: LogLine| said(l)) =~= Seq::empty());
        r
    }

    /// The sequence number the next line will get.
    pub fn next_seq(&self) -> (r: u64)
        ensures
            r == self.next(),
    {
        self.next_seq
    }

    /// Appends a line, dropping the oldest when the buffer is full, and returns it.
    pub fn push(&mut self, stream: Stream, text: String) -> (r: LogLine)
        requires
            old(self).wf(),
            old(self).next() < u64::MAX,
        ensures
            final(self).wf(),
            r.seq == old(self).next(),
            r.stream == stream,
            r.text == text,
            final(self).next() == old(self).next() + 1,
            final(self).held() == (if old(self).held().len() == CAPACITY {
                old(self).held().drop_first()
            } else {
                old(self).held()
            }).push(r),
            final(self).history() == old(self).history().push(Some((stream, text@))),
    {
        let ghost h0 = self.history@;
        let ghost held0 = self.lines@;
        let line = LogLine { seq: self.next_seq, stream, text, at: now_millis() };
        self.next_seq = self.next_seq + 1;
        if self.lines.len() == CAPACITY {
            self.lines.pop_front();
        }
        let out = line.clone();
        self.lines.push_back(line);
        proof {
            let h = h0.push(Some((out.stream, out.text@)));
            self.history = Ghost(h);
            assert(h.drop_last() =~= h0);
            let f = |l: LogLine| said(l);
            let mid = if held0.len() == CAPACITY { held0.drop_first() } else { held0 };
            assert(mid.map_values(f) =~= if held0.map_values(f).len() == CAPACITY {
                held0.map_values(f).drop_first()
            } else {
                held0.map_values(f)
            });
            assert(self.lines@ =~= mid.push(out));
            assert(self.lines@.map_values(f) =~= mid.map_values(f).push(said(out)));
        }
        out
    }

    /// Every line currently held, oldest first.
    pub fn all(&self) -> (r: Vec<LogLine>)
        ensures
            r@ == self.held(),
    {
        let mut r: Vec<LogLine> = Vec::new();
        let mut i: usize = 0;
        while i < self.lines.len()
            invariant
                i <= self.held().len(),
                r@ == self.held().take(i as int),
            decreases self.held().len() - i,
        {
            r.push(self.lines[i].clone());
            assert(self.held().take(i + 1) =~= self.held().take(i as int).push(self.held()[i as int]));
            i += 1;
        }
        assert(self.held().take(self.held().len() as int) =~= self.held());
        r
    }

    /// Lines with a sequence number at or above `seq`, oldest first. Used to catch a
    /// reconnecting interface up without resending what it already has.
    pub fn since(&self, seq: u64) -> (r: Vec<LogLine>)
        ensures
            r@ == lines_since(self.held(), seq),
    {
        let mut r: Vec<LogLine> = Vec::new();
        let mut i: usize = 0;
        while i < self.lines.len()
            invariant
                i <= self.held().len(),
                r@ == lines_since(self.held().take(i as int), seq),
            decreases self.held().len() - i,
        {
            assert(self.held().take(i + 1).drop_last() =~= self.held().take(i as int));
            if self.lines[i].seq >= seq {
                r.push(self.lines[i].clone());
            }
            i += 1;
        }
        assert(self.held().take(self.held().len() as int) =~= self.held());
        r
    }

    /// Drops every line. Numbering carries on where it was.
    pub fn clear(&mut self)
        requires
            old(self).wf(),
        ensures
            final(self).wf(),
            final(self).held().len() == 0,
            final(self).next() == old(self).next(),
            final(self).history() == old(self).history().push(None),
    {
        self.lines.clear();
        proof {
            let h = self.history@.push(None);
            assert(h.drop_last() =~= self.history@);
            self.history = Ghost(h);
            assert(self.lines@.map_values(|l: LogLine| said(l)) =~= Seq::empty());
        }
    }

    pub fn len(&self) -> (r: usize)
        ensures
            r == self.held().len(),
    {
        self.lines.len()
    }
}


/// Where `since(seq)` starts in a buffer whose oldest line is numbered `first` and which
/// holds `len` lines: at the line numbered `seq`, or the oldest or past the newest when
/// `seq` is outside the buffer.
pub open spec fn since_start(first: int, len: int, seq: int) -> int {
    if seq <= first {
        0
    } else if seq >= first + len {
        len
    } else {
        seq - first
    }
}

proof fn lemma_since_consecutive(ls: Seq<LogLine>, first: int, seq: u64)
    requires
        forall|i: int| 0 <= i < ls.len() ==> #[trigger] ls[i].seq == first + i,
    ensures
        lines_since(ls, seq) == ls.skip(since_start(first, ls.len() as int, seq as int)),
    decreases ls.len(),
{
    if ls.len() > 0 {
        let t = ls.drop_last();
        assert forall|i: int| 0 <= i < t.len() implies #[trigger] t[i].seq == first + i by {
            assert(t[i] == ls[i]);
        }
        lemma_since_consecutive(t, first, seq);
        let k = since_start(first, ls.len() as int, seq as int);
        let k1 = since_start(first, t.len() as int, seq as int);
        assert(ls.last().seq == first + ls.len() - 1);
        if ls.last().seq >= seq {
            assert(k == k1);
            assert(t.skip(k1).push(ls.last()) =~= ls.skip(k));
        } else {
            assert(k == ls.len());
            assert(t.skip(k1) =~= ls.skip(k));
        }
    } else {
        assert(ls.skip(0) =~= ls);
    }
}

/// What `since` returns is exactly the newest lines of the buffer, from the one numbered
/// `seq` on, oldest first: nothing the caller already has is re-sent, nothing newer is
/// missed, and asking from `next_seq` or beyond yields nothing.
pub proof fn lemma_since_is_the_newer_tail(ring: &LogRing, seq: u64)
    requires
        ring.wf(),
    ensures
        lines_since(ring.held(), seq) == ring.held().skip(
            since_start(ring.next() - ring.held().len(), ring.held().len() as int, seq as int),
        ),
        seq >= ring.next() ==> lines_since(ring.held(), seq).len() == 0,
{
    lemma_since_consecutive(ring.held(), ring.next() - ring.held().len(), seq);
}

/// Every line held is numbered below `next_seq`, so the line a push returns, numbered
/// `next_seq`, is newer than everything already held or ever cleared: numbers never repeat.
pub proof fn lemma_held_below_next(ring: &LogRing)
    requires
        ring.wf(),
    ensures
        forall|i: int| 0 <= i < ring.held().len() ==> #[trigger] ring.held()[i].seq < ring.next(),
        forall|i: int, j: int|
            0 <= i < j < ring.held().len() ==> #[trigger] ring.held()[i].seq < #[trigger] ring.held()[j].seq,
{
}

/// The lines a history leaves held are the newest of those pushed since its last clear, at
/// most `CAPACITY` of them.
proof fn lemma_kept_is_newest(h: LogHistory)
    ensures
        kept(h).len() == if since_clear(h).len() < CAPACITY {
            since_clear(h).len()
        } else {
            CAPACITY as nat
        },
        kept(h) == since_clear(h).skip(since_clear(h).len() - kept(h).len()),
    decreases h.len(),
{
    if h.len() > 0 {
        let t = h.drop_last();
        lemma_kept_is_newest(t);
        let sc = since_clear(t);
        let k = kept(t);
        match h.last() {
            Some(l) => {
                if k.len() == CAPACITY {
                    assert(k.drop_first().push(l) =~= sc.push(l).skip(sc.push(l).len() - CAPACITY));
                } else {
                    assert(k =~= sc);
                    assert(sc.push(l).skip(0) =~= sc.push(l));
                }
            },
            None => {
                assert(Seq::<(Stream, Seq<char>)>::empty().skip(0) =~= Seq::<(Stream, Seq<char>)>::empty());
            },
        }
    }
}

/// Whatever pushes and clears a ring has seen since it was made: its next number is how
/// many lines were pushed; it holds the newest lines pushed since the last clear, at most
/// `CAPACITY`, with their streams and texts as pushed, oldest first; they are numbered
/// consecutively, and the newest is numbered one below the number of pushes.
pub proof fn lemma_ring_follows_its_history(ring: &LogRing)
    requires
        ring.wf(),
    ensures
        ring.next() == pushes(ring.history()),
        ring.held().len() <= CAPACITY,
        ring.held().len() == if since_clear(ring.history()).len() < CAPACITY {
            since_clear(ring.history()).len()
        } else {
            CAPACITY as nat
        },
        ring.held().map_values(|l: LogLine| said(l)) == since_clear(ring.history()).skip(
            since_clear(ring.history()).len() - ring.held().len(),
        ),
        forall|i: int|
            0 <= i < ring.held().len() - 1 ==> #[trigger] ring.held()[i + 1].seq == ring.held()[i].seq
                + 1,
        ring.held().len() > 0 ==> ring.held().last().seq == pushes(ring.history()) - 1,
{
    lemma_kept_is_newest(ring.history());
    assert(ring.held().map_values(|l: LogLine| said(l)).len() == ring.held().len());
}

} // verus!
