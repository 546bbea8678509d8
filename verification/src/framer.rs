//! The frame reader: a three-state machine that cuts an export stream into
//! objects.  It is fed the stream in chunks of any size and hands back each
//! object as soon as its closing progress marker has been seen.

use vstd::prelude::*;
use vstd::slice::slice_subrange;
use vstd::string::*;

use crate::text::{
    ascii, ascii_bytes, decimal_usize, lemma_scan_to, parse_decimal, push_bytes, scan, scan_to,
    starts_with, to_vec, Stop, NEWLINE,
};
use crate::{
    frames_view, make_expected_progress_string, progress_marker, Frame, ParseState,
    UnparsedFastExportObject,
};

verus! {

/// Why a stream could not be cut into objects.
#[derive(Clone, Copy, PartialEq, Eq, Debug)]
pub enum FramingError {
    /// The stream ended inside a payload.
    ShortPayload,
    /// A `data` line does not hold a decimal length that fits in memory.
    MalformedLength,
    /// The stream ended behind a payload, before the progress marker.
    UnterminatedStream,
    /// The object counter cannot count past the object just read.
    TooManyObjects,
}

/// Reads an export stream chunk by chunk.
pub struct FrameReader {
    state: ParseState,
    expected_object: u32,
    before_data_str: Vec<u8>,
    data: Vec<u8>,
    after_data_str: Vec<u8>,
    pending: Vec<u8>,
    failed: Option<FramingError>,
}

/// The state of a [`FrameReader`].
pub struct ReaderView {
    pub state: ParseState,
    /// The number of the object being read, counted from 1.
    pub expected: nat,
    pub before: Seq<u8>,
    pub data: Seq<u8>,
    pub after: Seq<u8>,
    /// Bytes received that do not yet make a whole line or payload.
    pub pending: Seq<u8>,
    /// Set once the stream has been found malformed; nothing is read after.
    pub failed: Option<FramingError>,
}

impl View for FrameReader {
    type V = ReaderView;

    closed spec fn view(&self) -> ReaderView {
        ReaderView {
            state: self.state,
            expected: self.expected_object as nat,
            before: self.before_data_str@,
            data: self.data@,
            after: self.after_data_str@,
            pending: self.pending@,
            failed: self.failed,
        }
    }
}

/// One frame or none, as a sequence.
pub open spec fn emitted(f: Option<Frame>) -> Seq<Frame> {
    match f {
        Some(x) => seq![x],
        None => Seq::empty(),
    }
}

impl ReaderView {
    /// A reader that has seen nothing.
    pub open spec fn start() -> ReaderView {
        ReaderView {
            state: ParseState::BeforeData,
            expected: 1,
            before: Seq::empty(),
            data: Seq::empty(),
            after: Seq::empty(),
            pending: Seq::empty(),
            failed: None,
        }
    }

    pub open spec fn with_pending(self, pending: Seq<u8>) -> ReaderView {
        ReaderView { pending, ..self }
    }

    /// The reader after a header line (given without its line feed).
    pub open spec fn after_header_line(self, line: Seq<u8>) -> ReaderView {
        let before = self.before + line + seq![NEWLINE];
        if ascii("data "@).is_prefix_of(line) {
            match decimal_usize(line.skip(5)) {
                Some(n) => ReaderView { state: ParseState::Data(n), before, ..self },
                None => ReaderView { failed: Some(FramingError::MalformedLength), before, ..self },
            }
        } else {
            ReaderView { before, ..self }
        }
    }

    /// The reader after a line behind the payload, and the frame that the
    /// line closes if it is the expected progress marker.
    pub open spec fn after_trailer_line(self, line: Seq<u8>) -> (ReaderView, Option<Frame>) {
        if progress_marker(self.expected).is_prefix_of(line) {
            let frame = Frame { before: self.before, data: self.data, after: self.after };
            let next = ReaderView {
                state: ParseState::BeforeData,
                expected: self.expected + 1,
                before: Seq::empty(),
                data: Seq::empty(),
                after: Seq::empty(),
                ..self
            };
            if self.expected >= u32::MAX {
                (
                    ReaderView {
                        expected: self.expected,
                        failed: Some(FramingError::TooManyObjects),
                        ..next
                    },
                    Some(frame),
                )
            } else {
                (next, Some(frame))
            }
        } else {
            (ReaderView { after: self.after + line + seq![NEWLINE], ..self }, None)
        }
    }

    /// The reader after one line (given without its line feed), outside a
    /// payload.
    pub open spec fn after_line(self, line: Seq<u8>) -> (ReaderView, Option<Frame>) {
        match self.state {
            ParseState::AfterData => self.after_trailer_line(line),
            _ => (self.after_header_line(line), None),
        }
    }

    /// The reader after the payload that the `data` line announced.
    pub open spec fn after_payload(self, bytes: Seq<u8>) -> ReaderView {
        ReaderView { state: ParseState::AfterData, data: bytes, ..self }
    }

    /// Reads whole lines and payloads out of `buf` from `pos` on, as far as
    /// they are complete.  Gives the reader behind them, holding the rest of
    /// `buf` as pending, and the frames that were closed.
    pub open spec fn drained(self, buf: Seq<u8>, pos: int) -> (ReaderView, Seq<Frame>)
        decreases buf.len() - pos, (if self.state is Data { 1int } else { 0int }),
    {
        let rest = (self.with_pending(buf.subrange(pos, buf.len() as int)), Seq::<Frame>::empty());
        if self.failed is Some || pos < 0 || pos > buf.len() {
            rest
        } else {
            match self.state {
                ParseState::Data(n) => {
                    if buf.len() - pos >= n {
                        self.after_payload(buf.subrange(pos, pos + n)).drained(buf, pos + n)
                    } else {
                        rest
                    }
                },
                _ => {
                    let end = scan_to(buf, pos, Stop::Newline);
                    if pos <= end < buf.len() {
                        let (reader, frame) = self.after_line(buf.subrange(pos, end));
                        let (last, frames) = reader.drained(buf, end + 1);
                        (last, emitted(frame) + frames)
                    } else {
                        rest
                    }
                },
            }
        }
    }

    /// The reader after one more chunk of the stream, and the frames that the
    /// chunk closed.
    pub open spec fn fed(self, chunk: Seq<u8>) -> (ReaderView, Seq<Frame>) {
        self.with_pending(Seq::empty()).drained(self.pending + chunk, 0)
    }

    /// How reading ends when the stream ends here, and the frame that a last
    /// line without line feed closes.
    pub open spec fn finished(self) -> Result<Option<Frame>, FramingError> {
        if let Some(e) = self.failed {
            Err(e)
        } else if self.state is Data {
            Err(FramingError::ShortPayload)
        } else {
            let (last, frame) = if self.pending.len() == 0 {
                (self, None)
            } else {
                self.after_line(self.pending)
            };
            if let Some(e) = last.failed {
                Err(e)
            } else {
                match last.state {
                    ParseState::BeforeData => Ok(frame),
                    ParseState::AfterData => Err(FramingError::UnterminatedStream),
                    ParseState::Data(n) => if n == 0 {
                        Err(FramingError::UnterminatedStream)
                    } else {
                        Err(FramingError::ShortPayload)
                    },
                }
            }
        }
    }
}

/// The frames that a stream yields before its end or its first framing
/// error, and that error.
pub open spec fn stream_frames(stream: Seq<u8>) -> (Seq<Frame>, Option<FramingError>) {
    let (reader, closed) = ReaderView::start().fed(stream);
    match reader.finished() {
        Ok(last) => (closed + emitted(last), None),
        Err(e) => (closed, Some(e)),
    }
}

/// The objects of a whole stream, or why it cannot be cut into objects.
pub open spec fn frames_of(stream: Seq<u8>) -> Result<Seq<Frame>, FramingError> {
    let (reader, frames) = ReaderView::start().fed(stream);
    match reader.finished() {
        Ok(last) => Ok(frames + emitted(last)),
        Err(e) => Err(e),
    }
}

/// The contents of a frame that may be absent.
pub open spec fn frame_view(f: Option<UnparsedFastExportObject>) -> Option<Frame> {
    match f {
        Some(x) => Some(x@),
        None => None,
    }
}

impl FrameReader {
    /// A reader at the start of a stream.
    pub fn new() -> (r: FrameReader)
        ensures
            r@ == ReaderView::start(),
    {
        FrameReader {
            state: ParseState::BeforeData,
            expected_object: 1,
            before_data_str: Vec::new(),
            data: Vec::new(),
            after_data_str: Vec::new(),
            pending: Vec::new(),
            failed: None,
        }
    }

    /// Where the reader stands within the current object.
    pub fn state(&self) -> (s: ParseState)
        ensures
            s == self@.state,
    {
        self.state
    }

    /// The error that stopped the reader, if any.
    pub fn failure(&self) -> (e: Option<FramingError>)
        ensures
            e == self@.failed,
    {
        self.failed
    }

    fn take_line(&mut self, line: &[u8]) -> (f: Option<UnparsedFastExportObject>)
        ensures
            (final(self)@, frame_view(f)) == old(self)@.after_line(line@),
    {
        match self.state {
            ParseState::AfterData => {
                let marker = make_expected_progress_string(self.expected_object);
                if starts_with(line, marker.as_slice()) {
                    let mut frame = UnparsedFastExportObject {
                        before_data_str: Vec::new(),
                        data: Vec::new(),
                        after_data_str: Vec::new(),
                    };
                    std::mem::swap(&mut frame.before_data_str, &mut self.before_data_str);
                    std::mem::swap(&mut frame.data, &mut self.data);
                    std::mem::swap(&mut frame.after_data_str, &mut self.after_data_str);
                    self.state = ParseState::BeforeData;
                    if self.expected_object == u32::MAX {
                        self.failed = Some(FramingError::TooManyObjects);
                    } else {
                        self.expected_object += 1;
                    }
                    Some(frame)
                } else {
                    push_bytes(&mut self.after_data_str, line);
                    self.after_data_str.push(NEWLINE);
                    assert(self.after_data_str@ == old(self)@.after + line@ + seq![NEWLINE]);
                    None
                }
            },
            _ => {
                proof {
                    reveal_strlit("data ");
                }
                push_bytes(&mut self.before_data_str, line);
                self.before_data_str.push(NEWLINE);
                assert(self.before_data_str@ == old(self)@.before + line@ + seq![NEWLINE]);
                if starts_with(line, ascii_bytes("data ")) {
                    assert(line@.skip(5) == line@.subrange(5, line@.len() as int));
                    match parse_decimal(slice_subrange(line, 5, line.len())) {
                        Some(n) => {
                            self.state = ParseState::Data(n);
                        },
                        None => {
                            self.failed = Some(FramingError::MalformedLength);
                        },
                    }
                }
                None
            },
        }
    }

    /// Takes the next chunk of the stream, of any length, and gives back the
    /// objects that it completes, in stream order.
    ///
    /// Once the stream has been found malformed the reader reads no further:
    /// see [`FrameReader::failure`] and [`FrameReader::finish`].
    pub fn feed(&mut self, chunk: &[u8]) -> (frames: Vec<UnparsedFastExportObject>)
        ensures
            (final(self)@, frames_view(frames@)) == old(self)@.fed(chunk@),
    {
        let mut buf: Vec<u8> = Vec::new();
        std::mem::swap(&mut buf, &mut self.pending);
        push_bytes(&mut buf, chunk);
        let mut frames: Vec<UnparsedFastExportObject> = Vec::new();
        let mut pos: usize = 0;
        assert(self@ == old(self)@.with_pending(Seq::empty()));
        assert(frames_view(frames@) == Seq::<Frame>::empty());
        loop
            invariant
                pos <= buf.len(),
                buf@ == old(self)@.pending + chunk@,
                self@.pending == Seq::<u8>::empty(),
                old(self)@.fed(chunk@) == (
                    self@.drained(buf@, pos as int).0,
                    frames_view(frames@) + self@.drained(buf@, pos as int).1,
                ),
            ensures
                self@.drained(buf@, pos as int) == (
                    self@.with_pending(buf@.subrange(pos as int, buf@.len() as int)),
                    Seq::<Frame>::empty(),
                ),
            decreases buf.len() - pos, (if self.state is Data { 1int } else { 0int }),
        {
            if self.failed.is_some() {
                break;
            }
            match self.state {
                ParseState::Data(n) => {
                    if buf.len() - pos >= n {
                        self.data = to_vec(slice_subrange(buf.as_slice(), pos, pos + n));
                        self.state = ParseState::AfterData;
                        pos += n;
                    } else {
                        break;
                    }
                },
                _ => {
                    let end = scan(buf.as_slice(), pos, Stop::Newline);
                    if end < buf.len() {
                        let ghost before = self@;
                        let ghost done = frames_view(frames@);
                        let f = self.take_line(slice_subrange(buf.as_slice(), pos, end));
                        match f {
                            Some(frame) => {
                                frames.push(frame);
                                assert(frames_view(frames@) == done + emitted(Some(frame@)));
                            },
                            None => {
                                assert(frames_view(frames@) == done + emitted(None));
                            },
                        }
                        pos = end + 1;
                    } else {
                        break;
                    }
                },
            }
        }
        self.pending = buf.split_off(pos);
        frames
    }

    /// Ends the stream.  A last line without line feed is taken as a line,
    /// and the object that it completes, if any, is given back.
    ///
    /// Fails if the stream was malformed or ends inside an object.
    pub fn finish(self) -> (r: Result<Option<UnparsedFastExportObject>, FramingError>)
        ensures
            match r {
                Ok(f) => self@.finished() == Ok::<Option<Frame>, FramingError>(frame_view(f)),
                Err(e) => self@.finished() == Err::<Option<Frame>, FramingError>(e),
            },
    {
        let mut reader = self;
        if let Some(e) = reader.failed {
            return Err(e);
        }
        if let ParseState::Data(_) = reader.state {
            return Err(FramingError::ShortPayload);
        }
        let mut frame: Option<UnparsedFastExportObject> = None;
        if reader.pending.len() > 0 {
            let mut line: Vec<u8> = Vec::new();
            std::mem::swap(&mut line, &mut reader.pending);
            frame = reader.take_line(line.as_slice());
        }
        if let Some(e) = reader.failed {
            return Err(e);
        }
        match reader.state {
            ParseState::BeforeData => Ok(frame),
            ParseState::AfterData => Err(FramingError::UnterminatedStream),
            ParseState::Data(n) => if n == 0 {
                Err(FramingError::UnterminatedStream)
            } else {
                Err(FramingError::ShortPayload)
            },
        }
    }
}

/// Where the last line of `s` begins: behind its last line feed, or at 0.
pub open spec fn last_line_start(s: Seq<u8>) -> int
    decreases s.len(),
{
    if s.len() == 0 {
        0
    } else if s.last() == NEWLINE {
        s.len() as int
    } else {
        last_line_start(s.drop_last())
    }
}

/// The payload length that a header declares: the number behind `data ` on
/// its last line.
pub open spec fn declared_length(before: Seq<u8>) -> Option<usize> {
    if before.len() > 0 && before.last() == NEWLINE {
        let body = before.drop_last();
        let line = body.skip(last_line_start(body));
        if ascii("data "@).is_prefix_of(line) {
            decimal_usize(line.skip(5))
        } else {
            None
        }
    } else {
        None
    }
}

/// The payload of `f` is as long as its header declares.
pub open spec fn payload_as_declared(f: Frame) -> bool {
    f.data.len() <= usize::MAX && declared_length(f.before) == Some(f.data.len() as usize)
}

/// `s` holds no line feed.
pub open spec fn no_newline(s: Seq<u8>) -> bool {
    forall|i: int| 0 <= i < s.len() ==> #[trigger] s[i] != NEWLINE
}

impl ReaderView {
    /// What holds of a reader between lines: its header is made of whole
    /// lines, and once the `data` line has been read the header declares the
    /// length of the payload that is awaited or held.
    pub open spec fn consistent(self) -> bool {
        &&& self.before.len() == 0 || self.before.last() == NEWLINE
        &&& self.failed is None ==> match self.state {
            ParseState::BeforeData => true,
            ParseState::Data(n) => declared_length(self.before) == Some(n),
            ParseState::AfterData => payload_as_declared(
                Frame { before: self.before, data: self.data, after: self.after },
            ),
        }
    }
}

proof fn lemma_last_line_start(head: Seq<u8>, line: Seq<u8>)
    requires
        head.len() == 0 || head.last() == NEWLINE,
        no_newline(line),
    ensures
        last_line_start(head + line) == head.len(),
    decreases line.len(),
{
    if line.len() == 0 {
        assert(head + line == head);
    } else {
        assert((head + line).last() == line[line.len() - 1]);
        assert((head + line).drop_last() == head + line.drop_last());
        lemma_last_line_start(head, line.drop_last());
    }
}

proof fn lemma_after_line_consistent(m: ReaderView, line: Seq<u8>)
    requires
        m.consistent(),
        m.failed is None,
        !(m.state is Data),
        no_newline(line),
    ensures
        m.after_line(line).0.consistent(),
        m.after_line(line).0.pending == m.pending,
        m.after_line(line).1 matches Some(f) ==> payload_as_declared(f),
{
    if m.state is BeforeData {
        let before = m.before + line + seq![NEWLINE];
        lemma_last_line_start(m.before, line);
        assert(before.drop_last() == m.before + line);
        assert((m.before + line).skip(m.before.len() as int) == line);
    }
}

/// Whatever a consistent reader reads, it stays consistent, and the payload
/// of every frame that it closes is as long as the frame's header declares.
pub proof fn lemma_drained_consistent(m: ReaderView, buf: Seq<u8>, pos: int)
    requires
        m.consistent(),
        0 <= pos <= buf.len(),
    ensures
        m.drained(buf, pos).0.consistent(),
        forall|i: int|
            0 <= i < m.drained(buf, pos).1.len() ==> payload_as_declared(
                #[trigger] m.drained(buf, pos).1[i],
            ),
        m.drained(buf, pos).0.failed is None && !(m.drained(buf, pos).0.state is Data)
            ==> no_newline(m.drained(buf, pos).0.pending),
    decreases buf.len() - pos, (if m.state is Data { 1int } else { 0int }),
{
    if m.failed is Some {
    } else {
        match m.state {
            ParseState::Data(n) => {
                if buf.len() - pos >= n {
                    lemma_drained_consistent(
                        m.after_payload(buf.subrange(pos, pos + n)),
                        buf,
                        pos + n,
                    );
                }
            },
            _ => {
                lemma_scan_to(buf, pos, Stop::Newline);
                let end = scan_to(buf, pos, Stop::Newline);
                if end < buf.len() {
                    let line = buf.subrange(pos, end);
                    assert(no_newline(line)) by {
                        assert forall|i: int| 0 <= i < line.len() implies #[trigger] line[i]
                            != NEWLINE by {
                            assert(line[i] == buf[pos + i]);
                        }
                    }
                    lemma_after_line_consistent(m, line);
                    let (reader, frame) = m.after_line(line);
                    lemma_drained_consistent(reader, buf, end + 1);
                    let (last, frames) = reader.drained(buf, end + 1);
                    assert forall|i: int|
                        0 <= i < m.drained(buf, pos).1.len() implies payload_as_declared(
                        #[trigger] m.drained(buf, pos).1[i],
                    ) by {
                        let all = emitted(frame) + frames;
                        if i >= emitted(frame).len() {
                            assert(all[i] == frames[i - emitted(frame).len()]);
                        }
                    }
                } else {
                    let rest = buf.subrange(pos, buf.len() as int);
                    assert(no_newline(rest)) by {
                        assert forall|i: int| 0 <= i < rest.len() implies #[trigger] rest[i]
                            != NEWLINE by {
                            assert(rest[i] == buf[pos + i]);
                        }
                    }
                }
            },
        }
    }
}

/// In every object of a stream the payload is as long as the number behind
/// `data ` in the object's header says.
pub proof fn lemma_payload_length_fidelity(stream: Seq<u8>)
    ensures
        frames_of(stream) matches Ok(frames) ==> forall|i: int|
            0 <= i < frames.len() ==> payload_as_declared(#[trigger] frames[i]),
{
    let start = ReaderView::start();
    assert(start.pending + stream == stream);
    lemma_drained_consistent(start, stream, 0);
    let (reader, closed) = start.fed(stream);
    if let Ok(last) = reader.finished() {
        if reader.pending.len() > 0 {
            lemma_after_line_consistent(reader, reader.pending);
        }
        let frames = closed + emitted(last);
        assert forall|i: int| 0 <= i < frames.len() implies payload_as_declared(
            #[trigger] frames[i],
        ) by {
            if i < closed.len() {
                assert(frames[i] == closed[i]);
            }
        }
    }
}

/// What a reader makes of a buffer does not depend on what it held as
/// pending before.
proof fn lemma_drained_ignores_pending(m: ReaderView, pending: Seq<u8>, buf: Seq<u8>, pos: int)
    ensures
        m.with_pending(pending).drained(buf, pos) == m.drained(buf, pos),
    decreases buf.len() - pos, (if m.state is Data { 1int } else { 0int }),
{
    let other = m.with_pending(pending);
    if m.failed is Some || pos < 0 || pos > buf.len() {
    } else {
        match m.state {
            ParseState::Data(n) => {
                if buf.len() - pos >= n {
                    let bytes = buf.subrange(pos, pos + n);
                    assert(other.after_payload(bytes) == m.after_payload(bytes).with_pending(
                        pending,
                    ));
                    lemma_drained_ignores_pending(m.after_payload(bytes), pending, buf, pos + n);
                }
            },
            _ => {
                lemma_scan_to(buf, pos, Stop::Newline);
                let end = scan_to(buf, pos, Stop::Newline);
                if end < buf.len() {
                    let line = buf.subrange(pos, end);
                    assert(other.after_line(line).0 == m.after_line(line).0.with_pending(pending));
                    assert(other.after_line(line).1 == m.after_line(line).1);
                    lemma_drained_ignores_pending(m.after_line(line).0, pending, buf, end + 1);
                }
            },
        }
    }
}

/// Scanning a buffer from `pos` is scanning what is left of it from there.
proof fn lemma_scan_to_skip(buf: Seq<u8>, pos: int, from: int)
    requires
        0 <= pos <= from <= buf.len(),
    ensures
        scan_to(buf.skip(pos), from - pos, Stop::Newline) == scan_to(buf, from, Stop::Newline) - pos,
    decreases buf.len() - from,
{
    let rest = buf.skip(pos);
    if from < buf.len() {
        assert(rest[from - pos] == buf[from]);
        if buf[from] != NEWLINE {
            lemma_scan_to_skip(buf, pos, from + 1);
        }
    }
}

/// What a reader makes of a buffer from `pos` on depends only on what the
/// buffer holds from there.
proof fn lemma_drained_skip(m: ReaderView, buf: Seq<u8>, pos: int, from: int)
    requires
        0 <= pos <= from <= buf.len(),
    ensures
        m.drained(buf.skip(pos), from - pos) == m.drained(buf, from),
    decreases buf.len() - from, (if m.state is Data { 1int } else { 0int }),
{
    let rest = buf.skip(pos);
    assert(rest.subrange(from - pos, rest.len() as int) == buf.subrange(from, buf.len() as int));
    if m.failed is Some {
    } else {
        match m.state {
            ParseState::Data(n) => {
                if buf.len() - from >= n {
                    assert(rest.subrange(from - pos, from - pos + n) == buf.subrange(
                        from,
                        from + n,
                    ));
                    lemma_drained_skip(
                        m.after_payload(buf.subrange(from, from + n)),
                        buf,
                        pos,
                        from + n,
                    );
                }
            },
            _ => {
                lemma_scan_to(buf, from, Stop::Newline);
                lemma_scan_to_skip(buf, pos, from);
                let end = scan_to(buf, from, Stop::Newline);
                if end < buf.len() {
                    assert(rest.subrange(from - pos, end - pos) == buf.subrange(from, end));
                    lemma_drained_skip(m.after_line(buf.subrange(from, end)).0, buf, pos, end + 1);
                }
            },
        }
    }
}

/// Scanning a longer buffer finds the same line feed, if the shorter one
/// has one.
proof fn lemma_scan_to_longer(buf: Seq<u8>, more: Seq<u8>, from: int)
    requires
        0 <= from <= buf.len(),
        scan_to(buf, from, Stop::Newline) < buf.len(),
    ensures
        scan_to(buf + more, from, Stop::Newline) == scan_to(buf, from, Stop::Newline),
    decreases buf.len() - from,
{
    if from < buf.len() {
        assert((buf + more)[from] == buf[from]);
        if buf[from] != NEWLINE {
            lemma_scan_to_longer(buf, more, from + 1);
        }
    }
}

/// Reading a buffer that has grown goes on where reading the shorter
/// buffer stopped.
proof fn lemma_drained_longer(m: ReaderView, buf: Seq<u8>, more: Seq<u8>, pos: int)
    requires
        0 <= pos <= buf.len(),
    ensures
        ({
            let (stopped, frames) = m.drained(buf, pos);
            let at = buf.len() - stopped.pending.len();
            &&& pos <= at <= buf.len()
            &&& m.drained(buf + more, pos) == (
                stopped.drained(buf + more, at).0,
                frames + stopped.drained(buf + more, at).1,
            )
        }),
    decreases buf.len() - pos, (if m.state is Data { 1int } else { 0int }),
{
    let long = buf + more;
    let here = m.with_pending(buf.subrange(pos, buf.len() as int));
    if m.failed is Some {
        lemma_drained_ignores_pending(m, here.pending, long, pos);
        assert(Seq::<Frame>::empty() + here.drained(long, pos).1 == here.drained(long, pos).1);
    } else {
        match m.state {
            ParseState::Data(n) => {
                if buf.len() - pos >= n {
                    let bytes = buf.subrange(pos, pos + n);
                    assert(long.subrange(pos, pos + n) == bytes);
                    lemma_drained_longer(m.after_payload(bytes), buf, more, pos + n);
                } else {
                    lemma_drained_ignores_pending(m, here.pending, long, pos);
                    assert(Seq::<Frame>::empty() + here.drained(long, pos).1 == here.drained(
                        long,
                        pos,
                    ).1);
                }
            },
            _ => {
                lemma_scan_to(buf, pos, Stop::Newline);
                let end = scan_to(buf, pos, Stop::Newline);
                if end < buf.len() {
                    lemma_scan_to_longer(buf, more, pos);
                    let line = buf.subrange(pos, end);
                    assert(long.subrange(pos, end) == line);
                    let (reader, frame) = m.after_line(line);
                    lemma_drained_longer(reader, buf, more, end + 1);
                    let (stopped, frames) = reader.drained(buf, end + 1);
                    let at = buf.len() - stopped.pending.len();
                    assert(emitted(frame) + (frames + stopped.drained(long, at).1) == (emitted(
                        frame,
                    ) + frames) + stopped.drained(long, at).1);
                } else {
                    lemma_drained_ignores_pending(m, here.pending, long, pos);
                    assert(Seq::<Frame>::empty() + here.drained(long, pos).1 == here.drained(
                        long,
                        pos,
                    ).1);
                }
            },
        }
    }
}

/// The frames do not depend on how the stream is cut into chunks: feeding
/// a reader two chunks one after the other is feeding it both at once.
pub proof fn lemma_fed_in_chunks(r: ReaderView, first: Seq<u8>, second: Seq<u8>)
    ensures
        r.fed(first + second) == (
            r.fed(first).0.fed(second).0,
            r.fed(first).1 + r.fed(first).0.fed(second).1,
        ),
{
    let fresh = r.with_pending(Seq::empty());
    let buf = r.pending + first;
    assert(r.pending + (first + second) == buf + second);
    lemma_drained_longer(fresh, buf, second, 0);
    let (stopped, frames) = fresh.drained(buf, 0);
    let at = buf.len() - stopped.pending.len();
    // where reading stopped, what is pending is the rest of the buffer
    lemma_drained_rest(fresh, buf, 0);
    assert((buf + second).skip(at) == stopped.pending + second);
    lemma_drained_skip(stopped, buf + second, at, at);
    lemma_drained_ignores_pending(stopped, Seq::empty(), stopped.pending + second, 0);
    assert(stopped.with_pending(Seq::empty()).with_pending(Seq::empty()) == stopped.with_pending(
        Seq::empty(),
    ));
}

/// Where reading stops, what is pending is the rest of the buffer.
proof fn lemma_drained_rest(m: ReaderView, buf: Seq<u8>, pos: int)
    requires
        0 <= pos <= buf.len(),
    ensures
        ({
            let stopped = m.drained(buf, pos).0;
            let at = buf.len() - stopped.pending.len();
            pos <= at <= buf.len() && stopped.pending == buf.subrange(at, buf.len() as int)
        }),
    decreases buf.len() - pos, (if m.state is Data { 1int } else { 0int }),
{
    if m.failed is Some {
    } else {
        match m.state {
            ParseState::Data(n) => {
                if buf.len() - pos >= n {
                    lemma_drained_rest(m.after_payload(buf.subrange(pos, pos + n)), buf, pos + n);
                }
            },
            _ => {
                lemma_scan_to(buf, pos, Stop::Newline);
                let end = scan_to(buf, pos, Stop::Newline);
                if end < buf.len() {
                    lemma_drained_rest(m.after_line(buf.subrange(pos, end)).0, buf, end + 1);
                }
            },
        }
    }
}

} // verus!
