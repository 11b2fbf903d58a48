//! Server-sent events: framing, the data of a frame, and feeding frames to an accumulator.
use crate::json::{Json, JsonV, parse_text, string_view, text_parsed};
use crate::local_router::errors::{Failure, FailureV, done_view, fail, fail_with, json_result};
use crate::text::{
    Sep, join, joined, split, split_text, starts_with, strip_prefix, stripped_prefix, texts,
    trim_end_of, trim_start, trimmed_end_of, trimmed_start, utf8_text,
};
use vstd::prelude::*;
use vstd::string::*;
use vstd::utf8::*;

verus! {

/// Bytes of one frame that an upstream may leave open.
pub const MAX_UPSTREAM_SSE_BUFFER_BYTES: usize = 2_097_152;

/// The length of the blank line that starts at a position, or zero where none starts.
pub open spec fn blank_line(b: Seq<u8>, i: int) -> int {
    if 0 <= i && i + 4 <= b.len() && b[i] == 13 && b[i + 1] == 10 && b[i + 2] == 13 && b[i + 3]
        == 10 {
        4
    } else if 0 <= i && i + 2 <= b.len() && b[i] == 10 && b[i + 1] == 10 {
        2
    } else {
        0
    }
}

/// The position of the first blank line at or after a position, or the length.
pub open spec fn first_blank(b: Seq<u8>, from: int) -> int
    decreases b.len() - from,
{
    if from >= b.len() {
        b.len() as int
    } else if blank_line(b, from) > 0 {
        from
    } else {
        first_blank(b, from + 1)
    }
}

/// The first frame of a stream and what follows its blank line.
pub open spec fn next_frame(b: Seq<u8>) -> Option<(Seq<u8>, Seq<u8>)> {
    let i = first_blank(b, 0);
    if 0 <= i < b.len() {
        Some((b.subrange(0, i), b.subrange(i + blank_line(b, i), b.len() as int)))
    } else {
        None
    }
}

/// The complete frames of a stream, and the bytes of the open one.
pub open spec fn frames(b: Seq<u8>) -> (Seq<Seq<u8>>, Seq<u8>)
    decreases b.len(),
{
    match next_frame(b) {
        Some((frame, rest)) => if rest.len() < b.len() {
            (seq![frame] + frames(rest).0, frames(rest).1)
        } else {
            (Seq::empty(), b)
        },
        None => (Seq::empty(), b),
    }
}

proof fn lemma_first_blank(b: Seq<u8>, from: int, k: int)
    requires
        0 <= from <= k <= b.len(),
        forall|j: int| from <= j < k ==> blank_line(b, j) == 0,
        k < b.len() ==> blank_line(b, k) > 0,
    ensures
        first_blank(b, from) == k,
    decreases k - from,
{
    if from < k {
        lemma_first_blank(b, from + 1, k);
    }
}

proof fn lemma_first_blank_bounds(b: Seq<u8>, from: int)
    requires
        0 <= from <= b.len(),
    ensures
        from <= first_blank(b, from) <= b.len(),
        forall|j: int| from <= j < first_blank(b, from) ==> blank_line(b, j) == 0,
        first_blank(b, from) < b.len() ==> blank_line(b, first_blank(b, from)) > 0,
    decreases b.len() - from,
{
    if from < b.len() && blank_line(b, from) == 0 {
        lemma_first_blank_bounds(b, from + 1);
    }
}

/// Splitting a stream at a frame's end changes nothing: the frames of a longer stream start with
/// the frames of its beginning, and go on from the bytes that were left open.
pub proof fn frames_of_a_longer_stream(a: Seq<u8>, b: Seq<u8>)
    ensures
        frames(a + b).0 == frames(a).0 + frames(frames(a).1 + b).0,
        frames(a + b).1 == frames(frames(a).1 + b).1,
    decreases a.len(),
{
    lemma_first_blank_bounds(a, 0);
    match next_frame(a) {
        Some((frame, rest)) => {
            let i = first_blank(a, 0);
            let whole = a + b;
            assert forall|j: int| 0 <= j < i implies blank_line(whole, j) == 0 by {
                assert(blank_line(a, j) == 0);
                if j + 4 > a.len() {
                    assert(blank_line(a, i) == 2);
                    assert(whole[j + 2] == a[j + 2]);
                }
            }
            assert(blank_line(whole, i) == blank_line(a, i));
            lemma_first_blank(whole, 0, i);
            assert(whole.subrange(0, i) =~= frame);
            assert(whole.subrange(i + blank_line(a, i), whole.len() as int) =~= rest + b);
            frames_of_a_longer_stream(rest, b);
            let f = seq![frame];
            assert(f + (frames(rest).0 + frames(frames(rest).1 + b).0) =~= (f + frames(rest).0)
                + frames(frames(rest).1 + b).0);
        },
        None => {
            assert(Seq::<Seq<u8>>::empty() + frames(a + b).0 =~= frames(a + b).0);
        },
    }
}

/// How far a buffer has been read: what was handed out, and what was searched for a blank line.
pub struct SseCursor {
    pub consumed: usize,
    pub scanned: usize,
}

/// The cursor fits the buffer: no blank line starts where it has searched, whatever may still be
/// appended.
pub open spec fn cursor_fits(buffer: Seq<u8>, consumed: int, scanned: int) -> bool {
    &&& 0 <= consumed <= scanned <= buffer.len()
    &&& forall|i: int|
        consumed <= i < scanned ==> #[trigger] blank_line(buffer, i) == 0 && i + 4 <= buffer.len()
}

impl SseCursor {
    pub open spec fn fits(&self, buffer: Seq<u8>) -> bool {
        cursor_fits(buffer, self.consumed as int, self.scanned as int)
    }

    /// A cursor at the start.
    pub fn new() -> (r: SseCursor)
        ensures
            r.consumed == 0,
            r.scanned == 0,
            forall|buffer: Seq<u8>| r.fits(buffer),
    {
        SseCursor { consumed: 0, scanned: 0 }
    }
}

/// The bytes that were not handed out.
pub open spec fn pending(buffer: Seq<u8>, consumed: int) -> Seq<u8> {
    buffer.subrange(consumed, buffer.len() as int)
}

/// A cursor that fits a buffer fits it with more bytes at its end.
pub proof fn cursor_fits_more(buffer: Seq<u8>, more: Seq<u8>, consumed: int, scanned: int)
    requires
        cursor_fits(buffer, consumed, scanned),
    ensures
        cursor_fits(buffer + more, consumed, scanned),
        pending(buffer + more, consumed) == pending(buffer, consumed) + more,
{
    assert forall|i: int| consumed <= i < scanned implies #[trigger] blank_line(buffer + more, i)
        == 0 && i + 4 <= (buffer + more).len() by {
        assert(blank_line(buffer, i) == 0);
    }
    assert(pending(buffer + more, consumed) =~= pending(buffer, consumed) + more);
}

fn blank_line_at(buffer: &Vec<u8>, i: usize) -> (r: usize)
    requires
        i < buffer.len(),
    ensures
        r == blank_line(buffer@, i as int),
{
    if buffer.len() - i >= 4 && buffer[i] == 13 && buffer[i + 1] == 10 && buffer[i + 2] == 13
        && buffer[i + 3] == 10 {
        4
    } else if buffer.len() - i >= 2 && buffer[i] == 10 && buffer[i + 1] == 10 {
        2
    } else {
        0
    }
}

/// Some of the bytes.
fn bytes_of(buffer: &Vec<u8>, from: usize, to: usize) -> (r: Vec<u8>)
    requires
        from <= to <= buffer.len(),
    ensures
        r@ == buffer@.subrange(from as int, to as int),
{
    let mut out: Vec<u8> = Vec::new();
    let mut i = from;
    while i < to
        invariant
            from <= i <= to <= buffer.len(),
            out@ == buffer@.subrange(from as int, i as int),
        decreases to - i,
    {
        out.push(buffer[i]);
        proof {
            assert(buffer@.subrange(from as int, i + 1) =~= buffer@.subrange(
                from as int,
                i as int,
            ).push(buffer@[i as int]));
        }
        i = i + 1;
    }
    out
}

/// Hands out the next complete frame, if there is one, and moves the cursor behind it.
pub fn take_next_sse_frame(buffer: &Vec<u8>, cursor: &mut SseCursor) -> (r: Option<Vec<u8>>)
    requires
        old(cursor).fits(buffer@),
    ensures
        final(cursor).fits(buffer@),
        match r {
            Some(frame) => next_frame(pending(buffer@, old(cursor).consumed as int)) == Some(
                (frame@, pending(buffer@, final(cursor).consumed as int)),
            ) && final(cursor).consumed > old(cursor).consumed,
            None => next_frame(pending(buffer@, old(cursor).consumed as int)) is None
                && final(cursor).consumed == old(cursor).consumed,
        },
{
    let mut index = cursor.scanned;
    let start = cursor.consumed;
    let ghost open = pending(buffer@, start as int);
    while index < buffer.len()
        invariant
            start <= index <= buffer.len(),
            *cursor == *old(cursor),
            start == cursor.consumed,
            open == pending(buffer@, start as int),
            forall|i: int| start <= i < index ==> blank_line(buffer@, i) == 0,
        decreases buffer.len() - index,
    {
        let length = blank_line_at(buffer, index);
        if length > 0 {
            let frame = bytes_of(buffer, start, index);
            cursor.consumed = index + length;
            cursor.scanned = index + length;
            proof {
                let k = index - start;
                assert forall|j: int| 0 <= j < k implies blank_line(open, j) == 0 by {
                    assert(blank_line(buffer@, start + j) == 0);
                }
                assert(blank_line(open, k) == length);
                lemma_first_blank(open, 0, k);
                assert(open.subrange(0, k) =~= frame@);
                assert(open.subrange(k + length, open.len() as int) =~= pending(
                    buffer@,
                    index + length,
                ));
            }
            return Some(frame);
        }
        index = index + 1;
    }
    let tail: usize = if buffer.len() >= 3 {
        buffer.len() - 3
    } else {
        0
    };
    cursor.scanned = if tail > start {
        tail
    } else {
        start
    };
    proof {
        assert forall|j: int| 0 <= j < open.len() implies blank_line(open, j) == 0 by {
            assert(blank_line(buffer@, start + j) == 0);
        }
        lemma_first_blank(open, 0, open.len() as int);
    }
    None
}

/// Drops bytes that were handed out, once they are worth dropping.
pub fn compact_sse_buffer(buffer: &mut Vec<u8>, cursor: &mut SseCursor)
    requires
        old(cursor).fits(old(buffer)@),
    ensures
        final(cursor).fits(final(buffer)@),
        pending(final(buffer)@, final(cursor).consumed as int) == pending(
            old(buffer)@,
            old(cursor).consumed as int,
        ),
        final(cursor).consumed == 0 || (final(buffer)@ == old(buffer)@ && final(cursor).consumed
            == old(cursor).consumed && old(cursor).consumed < 65536 && 2 * old(cursor).consumed
            < old(buffer).len()),
{
    if cursor.consumed == 0 {
        return ;
    }
    let consumed = cursor.consumed;
    if consumed == buffer.len() || consumed >= 65536 || consumed >= buffer.len() - consumed {
        let ghost before = buffer@;
        let kept = bytes_of(buffer, consumed, buffer.len());
        *buffer = kept;
        cursor.scanned = cursor.scanned - consumed;
        cursor.consumed = 0;
        proof {
            assert forall|i: int| 0 <= i < cursor.scanned implies #[trigger] blank_line(buffer@, i)
                == 0 && i + 4 <= buffer@.len() by {
                assert(blank_line(before, i + consumed) == 0);
            }
            assert(pending(buffer@, 0) =~= pending(before, consumed as int));
        }
    }
}

/// The texts behind `data:` in the lines of a frame.
pub open spec fn data_lines(lines: Seq<Seq<char>>) -> Seq<Seq<char>>
    decreases lines.len(),
{
    if lines.len() == 0 {
        Seq::empty()
    } else {
        let rest = data_lines(lines.drop_last());
        match strip_prefix(trim_end_of(lines.last(), '\r'), "data:"@) {
            Some(data) => rest.push(trim_start(data)),
            None => rest,
        }
    }
}

/// The data of a frame: its data lines, with a line end between them. A frame without such a line
/// has none; bytes that are no UTF-8 are an error.
pub open spec fn frame_data(frame: Seq<u8>) -> Result<Option<Seq<char>>, FailureV> {
    if !valid_utf8(frame) {
        Err(FailureV::Text("上游 SSE 不是 UTF-8"@))
    } else {
        let data = data_lines(split(decode_utf8(frame), Sep::Char('\n')));
        if data.len() == 0 {
            Ok(None)
        } else {
            Ok(Some(joined(data, "\n"@)))
        }
    }
}

/// The view of a frame's data.
pub open spec fn data_view(r: Result<Option<String>, Failure>) -> Result<
    Option<Seq<char>>,
    FailureV,
> {
    match r {
        Ok(d) => Ok(string_view(d)),
        Err(e) => Err(e@),
    }
}

/// Reads the data of a frame.
pub fn sse_frame_data(frame: &Vec<u8>) -> (r: Result<Option<String>, Failure>)
    ensures
        data_view(r) == frame_data(frame@),
{
    let text = match utf8_text(frame.as_slice()) {
        Some(t) => t,
        None => {
            return Err(fail("上游 SSE 不是 UTF-8"));
        },
    };
    let lines = split_text(text, Sep::Char('\n'));
    let mut data: Vec<String> = Vec::new();
    let mut i: usize = 0;
    proof {
        assert(texts(data@) =~= data_lines(texts(lines@).subrange(0, 0)));
    }
    while i < lines.len()
        invariant
            i <= lines.len(),
            texts(data@) == data_lines(texts(lines@).subrange(0, i as int)),
        decreases lines.len() - i,
    {
        proof {
            let all = texts(lines@);
            assert(all.subrange(0, i + 1).drop_last() =~= all.subrange(0, i as int));
            assert(all.subrange(0, i + 1).last() == lines@[i as int]@);
        }
        let line = trimmed_end_of(lines[i].as_str(), '\r');
        if let Some(rest) = stripped_prefix(line.as_str(), "data:") {
            let piece = trimmed_start(rest.as_str());
            let ghost before = data@;
            data.push(piece);
            proof {
                assert(texts(data@) =~= texts(before).push(piece@));
            }
        }
        i = i + 1;
    }
    proof {
        assert(texts(lines@).subrange(0, i as int) =~= texts(lines@));
        assert(texts(data@).len() == data.len());
    }
    if data.len() == 0 {
        Ok(None)
    } else {
        Ok(Some(join(&data, "\n")))
    }
}

/// What one protocol makes of the data of a frame.
pub trait SseFrameAccumulator: Sized {
    /// The mathematical state.
    type S;

    spec fn state(&self) -> Self::S;

    /// The state after the data of one more frame, and whether it could be taken in.
    spec fn step(state: Self::S, data: Seq<char>, trailing: bool) -> (Self::S, Result<
        (),
        FailureV,
    >);

    /// The protocol's last frame has been seen.
    spec fn is_finished(state: Self::S) -> bool;

    /// What holds of every accumulator between two frames.
    spec fn inv(&self) -> bool;

    fn ingest_frame(&mut self, data: &str, trailing: bool) -> (r: Result<(), Failure>)
        requires
            old(self).inv(),
        ensures
            final(self).inv(),
            (final(self).state(), done_view(r)) == Self::step(old(self).state(), data@, trailing),
    ;

    fn finished(&self) -> (r: bool)
        ensures
            r == Self::is_finished(self.state()),
    ;
}

/// What has become of an accumulator and a stream: the state, the bytes not handed to it, whether
/// it stopped at its last frame, and whether all went well.
pub struct Driven<S> {
    pub state: S,
    pub rest: Seq<u8>,
    pub stopped: bool,
    pub outcome: Result<(), FailureV>,
}

/// Hands the complete frames of a stream to an accumulator, up to its last frame or an error.
pub open spec fn drive<A: SseFrameAccumulator>(state: A::S, b: Seq<u8>) -> Driven<A::S>
    decreases b.len(),
{
    match next_frame(b) {
        None => Driven { state, rest: b, stopped: false, outcome: Ok(()) },
        Some((frame, rest)) => if rest.len() >= b.len() {
            Driven { state, rest: b, stopped: false, outcome: Ok(()) }
        } else {
            match frame_data(frame) {
                Err(e) => Driven { state, rest, stopped: false, outcome: Err(e) },
                Ok(None) => drive::<A>(state, rest),
                Ok(Some(data)) => {
                    let (next, r) = A::step(state, data, false);
                    if r is Err {
                        Driven { state: next, rest, stopped: false, outcome: r }
                    } else if A::is_finished(next) {
                        Driven { state: next, rest, stopped: true, outcome: Ok(()) }
                    } else {
                        drive::<A>(next, rest)
                    }
                },
            }
        },
    }
}

pub open spec fn all_ascii_white(b: Seq<u8>) -> bool {
    forall|i: int| 0 <= i < b.len() ==> ascii_white(#[trigger] b[i])
}

pub open spec fn ascii_white(b: u8) -> bool {
    b == 32 || b == 9 || b == 10 || b == 12 || b == 13
}

/// Hands the open frame at the end of a stream to an accumulator.
pub open spec fn drive_tail<A: SseFrameAccumulator>(state: A::S, rest: Seq<u8>) -> (A::S, Result<
    (),
    FailureV,
>) {
    if all_ascii_white(rest) {
        (state, Ok(()))
    } else {
        match frame_data(rest) {
            Err(e) => (state, Err(e)),
            Ok(None) => (state, Ok(())),
            Ok(Some(data)) => A::step(state, data, true),
        }
    }
}

/// The state after a whole stream.
pub open spec fn drive_all<A: SseFrameAccumulator>(state: A::S, b: Seq<u8>) -> (A::S, Result<
    (),
    FailureV,
>) {
    let d = drive::<A>(state, b);
    if d.outcome is Err || d.stopped {
        (d.state, d.outcome)
    } else {
        drive_tail::<A>(d.state, d.rest)
    }
}

fn is_all_ascii_white(b: &Vec<u8>) -> (r: bool)
    ensures
        r == all_ascii_white(b@),
{
    let mut i: usize = 0;
    while i < b.len()
        invariant
            i <= b.len(),
            forall|j: int| 0 <= j < i ==> ascii_white(#[trigger] b@[j]),
        decreases b.len() - i,
    {
        let x = b[i];
        if !(x == 32 || x == 9 || x == 10 || x == 12 || x == 13) {
            return false;
        }
        i = i + 1;
    }
    true
}

/// Hands out complete frames to the accumulator; says whether it stopped at its last frame.
fn drain<A: SseFrameAccumulator>(buffer: &Vec<u8>, cursor: &mut SseCursor, accumulator: &mut A) -> (r:
    Result<bool, Failure>)
    requires
        old(cursor).fits(buffer@),
        old(accumulator).inv(),
    ensures
        final(cursor).fits(buffer@),
        final(accumulator).inv(),
        ({
            let d = drive::<A>(
                old(accumulator).state(),
                pending(buffer@, old(cursor).consumed as int),
            );
            &&& final(accumulator).state() == d.state
            &&& pending(buffer@, final(cursor).consumed as int) == d.rest
            &&& match r {
                Ok(stopped) => d.outcome == Ok::<(), FailureV>(()) && stopped == d.stopped,
                Err(e) => d.outcome == Err::<(), FailureV>(e@),
            }
        }),
{
    let ghost goal = drive::<A>(accumulator.state(), pending(buffer@, cursor.consumed as int));
    loop
        invariant
            cursor.fits(buffer@),
            accumulator.inv(),
            drive::<A>(accumulator.state(), pending(buffer@, cursor.consumed as int)) == goal,
            goal == drive::<A>(
                old(accumulator).state(),
                pending(buffer@, old(cursor).consumed as int),
            ),
        decreases buffer.len() - cursor.consumed,
    {
        let ghost open = pending(buffer@, cursor.consumed as int);
        match take_next_sse_frame(buffer, cursor) {
            None => {
                return Ok(false);
            },
            Some(frame) => {
                proof {
                    assert(pending(buffer@, cursor.consumed as int).len() < open.len());
                }
                match sse_frame_data(&frame) {
                    Err(e) => {
                        return Err(e);
                    },
                    Ok(None) => {},
                    Ok(Some(data)) => {
                        match accumulator.ingest_frame(data.as_str(), false) {
                            Err(e) => {
                                return Err(e);
                            },
                            Ok(()) => {},
                        }
                        if accumulator.finished() {
                            return Ok(true);
                        }
                    },
                }
            },
        }
    }
}

/// Hands the open frame at the end to the accumulator.
fn drain_tail<A: SseFrameAccumulator>(rest: &Vec<u8>, accumulator: &mut A) -> (r: Result<(), Failure>)
    requires
        old(accumulator).inv(),
    ensures
        final(accumulator).inv(),
        (final(accumulator).state(), done_view(r)) == drive_tail::<A>(
            old(accumulator).state(),
            rest@,
        ),
{
    if is_all_ascii_white(rest) {
        return Ok(());
    }
    match sse_frame_data(rest) {
        Err(e) => Err(e),
        Ok(None) => Ok(()),
        Ok(Some(data)) => accumulator.ingest_frame(data.as_str(), true),
    }
}

/// Takes in a stream that has been read whole.
pub fn parse_sse_frames<A: SseFrameAccumulator>(bytes: &Vec<u8>, accumulator: &mut A) -> (r: Result<
    (),
    Failure,
>)
    requires
        old(accumulator).inv(),
    ensures
        final(accumulator).inv(),
        (final(accumulator).state(), done_view(r)) == drive_all::<A>(
            old(accumulator).state(),
            bytes@,
        ),
{
    let mut cursor = SseCursor::new();
    proof {
        assert(pending(bytes@, 0) =~= bytes@);
    }
    let r = match drain(bytes, &mut cursor, accumulator) {
        Err(e) => Err(e),
        Ok(true) => Ok(()),
        Ok(false) => {
            let rest = bytes_of(bytes, cursor.consumed, bytes.len());
            drain_tail(&rest, accumulator)
        },
    };
    proof {
        assert(done_view(r) =~= drive_all::<A>(old(accumulator).state(), bytes@).1);
    }
    r
}

/// A stream that arrives in pieces.
pub struct SseFeed {
    buffer: Vec<u8>,
    cursor: SseCursor,
}

impl SseFeed {
    pub closed spec fn inv(&self) -> bool {
        self.cursor.fits(self.buffer@)
    }

    /// The bytes that were not handed to an accumulator.
    pub closed spec fn open_bytes(&self) -> Seq<u8> {
        pending(self.buffer@, self.cursor.consumed as int)
    }

    pub fn new() -> (r: SseFeed)
        ensures
            r.inv(),
            r.open_bytes() == Seq::<u8>::empty(),
    {
        let r = SseFeed { buffer: Vec::new(), cursor: SseCursor::new() };
        proof {
            assert(r.open_bytes() =~= Seq::<u8>::empty());
        }
        r
    }

    /// Takes in a piece of the stream. A frame that grows beyond `limit` bytes is an error. Says
    /// whether the accumulator stopped at its last frame.
    pub fn feed<A: SseFrameAccumulator>(
        &mut self,
        chunk: &Vec<u8>,
        limit: usize,
        accumulator: &mut A,
    ) -> (r: Result<bool, Failure>)
        requires
            old(self).inv(),
            old(accumulator).inv(),
        ensures
            final(self).inv(),
            final(accumulator).inv(),
            ({
                let b = old(self).open_bytes() + chunk@;
                if b.len() > limit {
                    &&& final(accumulator).state() == old(accumulator).state()
                    &&& final(self).open_bytes() == b
                    &&& r matches Err(e) && e@ == FailureV::Text("上游 SSE 单帧超过 Codey 安全上限"@)
                } else {
                    let d = drive::<A>(old(accumulator).state(), b);
                    &&& final(accumulator).state() == d.state
                    &&& final(self).open_bytes() == d.rest
                    &&& match r {
                        Ok(stopped) => d.outcome == Ok::<(), FailureV>(()) && stopped == d.stopped,
                        Err(e) => d.outcome == Err::<(), FailureV>(e@),
                    }
                }
            }),
    {
        compact_sse_buffer(&mut self.buffer, &mut self.cursor);
        let ghost before = self.buffer@;
        let mut i: usize = 0;
        while i < chunk.len()
            invariant
                i <= chunk.len(),
                self.buffer@ == before + chunk@.subrange(0, i as int),
                self.cursor.fits(before),
                pending(before, self.cursor.consumed as int) == old(self).open_bytes(),
            decreases chunk.len() - i,
        {
            self.buffer.push(chunk[i]);
            i = i + 1;
            proof {
                assert(self.buffer@ =~= before + chunk@.subrange(0, i as int));
            }
        }
        proof {
            assert(chunk@.subrange(0, i as int) =~= chunk@);
            cursor_fits_more(
                before,
                chunk@,
                self.cursor.consumed as int,
                self.cursor.scanned as int,
            );
        }
        ensure_then_drain(&self.buffer, &mut self.cursor, limit, accumulator)
    }

    /// Takes in the open frame at the end of the stream, unless the accumulator has seen its last
    /// frame.
    pub fn finish<A: SseFrameAccumulator>(&self, accumulator: &mut A) -> (r: Result<(), Failure>)
        requires
            self.inv(),
            old(accumulator).inv(),
        ensures
            final(accumulator).inv(),
            (final(accumulator).state(), done_view(r)) == if A::is_finished(
                old(accumulator).state(),
            ) {
                (old(accumulator).state(), Ok(()))
            } else {
                drive_tail::<A>(old(accumulator).state(), self.open_bytes())
            },
    {
        if accumulator.finished() {
            return Ok(());
        }
        let rest = bytes_of(&self.buffer, self.cursor.consumed, self.buffer.len());
        drain_tail(&rest, accumulator)
    }
}

/// Whether the bytes of an open frame are within a limit.
pub fn ensure_sse_buffer_within_limit(length: usize, consumed: usize, limit: usize) -> (r: Result<
    (),
    Failure,
>)
    ensures
        done_view(r) == if length - consumed > limit {
            Err::<(), FailureV>(FailureV::Text("上游 SSE 单帧超过 Codey 安全上限"@))
        } else {
            Ok(())
        },
{
    if length > consumed && length - consumed > limit {
        Err(fail("上游 SSE 单帧超过 Codey 安全上限"))
    } else {
        Ok(())
    }
}

fn ensure_then_drain<A: SseFrameAccumulator>(
    buffer: &Vec<u8>,
    cursor: &mut SseCursor,
    limit: usize,
    accumulator: &mut A,
) -> (r: Result<bool, Failure>)
    requires
        old(cursor).fits(buffer@),
        old(accumulator).inv(),
    ensures
        final(cursor).fits(buffer@),
        final(accumulator).inv(),
        ({
            let b = pending(buffer@, old(cursor).consumed as int);
            if b.len() > limit {
                &&& final(accumulator).state() == old(accumulator).state()
                &&& *final(cursor) == *old(cursor)
                &&& r matches Err(e) && e@ == FailureV::Text("上游 SSE 单帧超过 Codey 安全上限"@)
            } else {
                let d = drive::<A>(old(accumulator).state(), b);
                &&& final(accumulator).state() == d.state
                &&& pending(buffer@, final(cursor).consumed as int) == d.rest
                &&& match r {
                    Ok(stopped) => d.outcome == Ok::<(), FailureV>(()) && stopped == d.stopped,
                    Err(e) => d.outcome == Err::<(), FailureV>(e@),
                }
            }
        }),
{
    match ensure_sse_buffer_within_limit(buffer.len(), cursor.consumed, limit) {
        Err(e) => Err(e),
        Ok(()) => drain(buffer, cursor, accumulator),
    }
}

/// The document in the data of a frame, for a protocol.
pub open spec fn json_frame(data: Seq<char>, protocol: Seq<char>, trailing: bool) -> Result<
    JsonV,
    FailureV,
> {
    match text_parsed(data) {
        Ok(v) => Ok(v),
        Err(_) => Err(
            FailureV::Text(
                protocol + if trailing {
                    " SSE 末尾 data 不是有效 JSON"@
                } else {
                    " SSE data 不是有效 JSON"@
                },
            ),
        ),
    }
}

/// Reads the document in the data of a frame.
pub fn sse_json_frame(data: &str, protocol: &str, trailing: bool) -> (r: Result<Json, Failure>)
    ensures
        json_result(r) == json_frame(data@, protocol@, trailing),
{
    match parse_text(data) {
        Ok(v) => Ok(v),
        Err(_) => Err(
            fail_with(
                protocol,
                if trailing {
                    " SSE 末尾 data 不是有效 JSON"
                } else {
                    " SSE data 不是有效 JSON"
                },
            ),
        ),
    }
}

/// Feeding a stream in two pieces is feeding it whole: a stream's frames reach the accumulator in
/// the same way wherever the stream was cut.
pub proof fn feeding_in_pieces<A: SseFrameAccumulator>(state: A::S, a: Seq<u8>, b: Seq<u8>)
    ensures
        ({
            let first = drive::<A>(state, a);
            let whole = drive::<A>(state, a + b);
            if first.outcome is Err || first.stopped {
                &&& whole.state == first.state
                &&& whole.outcome == first.outcome
                &&& whole.stopped == first.stopped
                &&& whole.rest == first.rest + b
            } else {
                whole == drive::<A>(first.state, first.rest + b)
            }
        }),
    decreases a.len(),
{
    lemma_first_blank_bounds(a, 0);
    match next_frame(a) {
        Some((frame, rest)) => {
            let i = first_blank(a, 0);
            let whole = a + b;
            assert forall|j: int| 0 <= j < i implies blank_line(whole, j) == 0 by {
                assert(blank_line(a, j) == 0);
                if j + 4 > a.len() {
                    assert(blank_line(a, i) == 2);
                    assert(whole[j + 2] == a[j + 2]);
                }
            }
            assert(blank_line(whole, i) == blank_line(a, i));
            lemma_first_blank(whole, 0, i);
            assert(whole.subrange(0, i) =~= frame);
            assert(whole.subrange(i + blank_line(a, i), whole.len() as int) =~= rest + b);
            match frame_data(frame) {
                Err(e) => {},
                Ok(None) => {
                    feeding_in_pieces::<A>(state, rest, b);
                },
                Ok(Some(data)) => {
                    let (next, r) = A::step(state, data, false);
                    feeding_in_pieces::<A>(next, rest, b);
                },
            }
        },
        None => {},
    }
}

/// A frame ends at its blank line, whether that is of line feeds or of both characters; what follows is
/// what comes next. A frame holds no blank line of its own.
pub proof fn a_frame_ends_at_its_blank_line(frame: Seq<u8>, rest: Seq<u8>)
    requires
        frame.len() > 0 ==> frame.last() != 10 && frame.last() != 13,
        forall|i: int| 0 <= i < frame.len() ==> #[trigger] blank_line(frame, i) == 0,
    ensures
        next_frame(frame + seq![10u8, 10u8] + rest) == Some((frame, rest)),
        next_frame(frame + seq![13u8, 10u8, 13u8, 10u8] + rest) == Some((frame, rest)),
{
    let n = frame.len() as int;
    let short = frame + seq![10u8, 10u8] + rest;
    let long = frame + seq![13u8, 10u8, 13u8, 10u8] + rest;
    assert forall|j: int| 0 <= j < n implies blank_line(short, j) == 0 && blank_line(long, j) == 0 by {
        assert(blank_line(frame, j) == 0);
        assert(frame.last() == frame[n - 1]);
        assert(short[j] == frame[j] && long[j] == frame[j]);
        if j + 1 < n {
            assert(short[j + 1] == frame[j + 1] && long[j + 1] == frame[j + 1]);
        }
        if j + 2 < n {
            assert(short[j + 2] == frame[j + 2] && long[j + 2] == frame[j + 2]);
        }
        if j + 3 < n {
            assert(short[j + 3] == frame[j + 3] && long[j + 3] == frame[j + 3]);
        }
    }
    assert(short[n] == 10 && short[n + 1] == 10);
    assert(long[n] == 13 && long[n + 1] == 10 && long[n + 2] == 13 && long[n + 3] == 10);
    assert(blank_line(short, n) == 2);
    assert(blank_line(long, n) == 4);
    lemma_first_blank(short, 0, n);
    lemma_first_blank(long, 0, n);
    assert(short.subrange(0, n) =~= frame);
    assert(long.subrange(0, n) =~= frame);
    assert(short.subrange(n + 2, short.len() as int) =~= rest);
    assert(long.subrange(n + 4, long.len() as int) =~= rest);
}

/// The data of a frame are read line by line.
pub proof fn data_come_line_by_line(first: Seq<Seq<char>>, second: Seq<Seq<char>>)
    ensures
        data_lines(first + second) == data_lines(first) + data_lines(second),
    decreases second.len(),
{
    if second.len() == 0 {
        assert(first + second =~= first);
        assert(data_lines(first) + data_lines(second) =~= data_lines(first));
    } else {
        assert((first + second).drop_last() =~= first + second.drop_last());
        assert((first + second).last() == second.last());
        data_come_line_by_line(first, second.drop_last());
        assert(data_lines(first + second) =~= data_lines(first) + data_lines(second));
    }
}

/// A data line brings what stands behind `data:`, without the space before it, however the line ends;
/// any other line brings nothing.
pub proof fn a_data_line_brings_its_text(text: Seq<char>, line: Seq<char>)
    requires
        text.len() > 0 ==> text.last() != '\r',
        !starts_with(line, "data:"@),
    ensures
        data_lines(seq!["data:"@ + text]) == seq![trim_start(text)],
        data_lines(seq![("data:"@ + text).push('\r')]) == seq![trim_start(text)],
        data_lines(seq![line]) == Seq::<Seq<char>>::empty(),
{
    reveal_strlit("data:");
    let whole = "data:"@ + text;
    assert(whole.last() != '\r') by {
        if text.len() > 0 {
            assert(whole.last() == text.last());
        } else {
            assert(whole =~= "data:"@);
            assert(whole.last() == ':');
        }
    }
    assert(whole.subrange(0, "data:"@.len() as int) =~= "data:"@);
    assert(whole.subrange("data:"@.len() as int, whole.len() as int) =~= text);
    lemma_one_data_line(whole, trim_start(text));
    let ended = whole.push('\r');
    assert(ended.subrange(0, ended.len() - 1) =~= whole);
    assert(trim_end_of(ended, '\r') == trim_end_of(whole, '\r'));
    assert(trim_end_of(whole, '\r') == whole);
    lemma_one_data_line(ended, trim_start(text));
    let other = seq![line];
    assert(other.drop_last() =~= Seq::<Seq<char>>::empty());
    assert(data_lines(other.drop_last()) =~= Seq::<Seq<char>>::empty());
    assert(other.last() == line);
    let cut = trim_end_of(line, '\r');
    lemma_cut_is_start(line, '\r');
    if starts_with(cut, "data:"@) {
        assert(line.subrange(0, "data:"@.len() as int) =~= cut.subrange(0, "data:"@.len() as int));
    }
}

proof fn lemma_one_data_line(line: Seq<char>, data: Seq<char>)
    requires
        strip_prefix(trim_end_of(line, '\r'), "data:"@) matches Some(d) && trim_start(d) == data,
    ensures
        data_lines(seq![line]) == seq![data],
{
    let one = seq![line];
    assert(one.drop_last() =~= Seq::<Seq<char>>::empty());
    assert(data_lines(one.drop_last()) =~= Seq::<Seq<char>>::empty());
    assert(one.last() == line);
    assert(data_lines(one) =~= Seq::<Seq<char>>::empty().push(data));
    assert(Seq::<Seq<char>>::empty().push(data) =~= seq![data]);
}

proof fn lemma_cut_is_start(s: Seq<char>, c: char)
    ensures
        trim_end_of(s, c).len() <= s.len(),
        s.subrange(0, trim_end_of(s, c).len() as int) == trim_end_of(s, c),
    decreases s.len(),
{
    if s.len() > 0 && s[s.len() - 1] == c {
        let cut = s.subrange(0, s.len() - 1);
        lemma_cut_is_start(cut, c);
        let n = trim_end_of(s, c).len() as int;
        assert(s.subrange(0, n) =~= cut.subrange(0, n));
    } else {
        assert(s.subrange(0, s.len() as int) =~= s);
    }
}

/// An accumulator is handed the data of the frames of a stream, one after the other: the first frame's
/// now, and then those of the rest, up to an error or to the end that the protocol tells.
pub proof fn every_frame_is_handed_on<A: SseFrameAccumulator>(
    state: A::S,
    frame: Seq<u8>,
    data: Seq<char>,
    rest: Seq<u8>,
)
    requires
        frame.len() > 0 ==> frame.last() != 10 && frame.last() != 13,
        forall|i: int| 0 <= i < frame.len() ==> #[trigger] blank_line(frame, i) == 0,
        frame_data(frame) == Ok::<Option<Seq<char>>, FailureV>(Some(data)),
        A::step(state, data, false).1 is Ok,
    ensures
        !A::is_finished(A::step(state, data, false).0) ==> drive::<A>(
            state,
            frame + seq![10u8, 10u8] + rest,
        ) == drive::<A>(A::step(state, data, false).0, rest),
        A::is_finished(A::step(state, data, false).0) ==> drive::<A>(
            state,
            frame + seq![10u8, 10u8] + rest,
        ).state == A::step(state, data, false).0,
{
    a_frame_ends_at_its_blank_line(frame, rest);
}

/// A frame that is left open at the end of a stream counts where it holds data, and white space counts
/// for nothing.
pub proof fn an_open_frame_at_the_end_counts<A: SseFrameAccumulator>(
    state: A::S,
    frame: Seq<u8>,
    data: Seq<char>,
)
    requires
        forall|i: int| 0 <= i < frame.len() ==> #[trigger] blank_line(frame, i) == 0,
    ensures
        frame_data(frame) == Ok::<Option<Seq<char>>, FailureV>(Some(data)) && (exists|i: int|
            0 <= i < frame.len() && !ascii_white(#[trigger] frame[i])) ==> drive_all::<A>(
            state,
            frame,
        ) == A::step(state, data, true),
        (forall|i: int| 0 <= i < frame.len() ==> ascii_white(#[trigger] frame[i])) ==> drive_all::<A>(
            state,
            frame,
        ).0 == state && drive_all::<A>(state, frame).1 is Ok,
{
    lemma_first_blank(frame, 0, frame.len() as int);
    assert(next_frame(frame) is None);
}

} // verus!
