//! From an export stream to structured objects in stream order, and the
//! pieces from which a pipeline of parallel parser workers is built.

use vstd::prelude::*;

pub mod dispatch;
pub mod reorder;
pub mod round_trip;
pub mod serialize;
pub mod structured_parse;

pub use crate::export_parser::reorder::ReorderBuffer;
pub use crate::export_parser::serialize::write_to_stream;
pub use crate::export_parser::structured_parse::{
    get_regex_authorline, get_regex_filecopyline, get_regex_filedeleteline,
    get_regex_filemodifyline, get_regex_filerenameline, get_regex_notemodifyline,
    parse_after_data, parse_after_data_line, parse_author_or_committer_line, parse_before_data,
    parse_before_data_line, parse_filecopy_line, parse_filedelete_line, parse_filemodify_line,
    parse_filerename_line, parse_into_structured_object, parse_next_word, parse_next_word2,
    parse_notemodify_line, repeats_reset, set_object_property, AfterDataObject,
    AfterDataParserMode, BeforeDataObject, BeforeDataParserMode, BlobObject, Captures,
    CommitObject, CommitPerson, FileOps, NextWordType, ObjectType, ParseError,
    StructuredBlobObject, StructuredCommitObject, StructuredExportObject, StructuredObjectType,
};
pub use crate::wait_obj::WaitObj;

use crate::export_parser::dispatch::{
    collect_in_order, countable, dispatch, in_turn, lemma_share,
    lemma_shares_come_out_in_stream_order, queues_view, share, shares,
};
use crate::export_parser::reorder::{objects_of, objects_view, ReorderView};
use crate::export_parser::structured_parse::{repeats_reset_in, structured_of, Structured};
use crate::framer::{emitted, stream_frames, FrameReader, FramingError};
use crate::{frames_view, Frame, UnparsedFastExportObject};

verus! {

/// Why a stream could not be turned into structured objects.
#[derive(Clone, Copy, PartialEq, Eq, Debug)]
pub enum StreamError {
    /// The stream cannot be cut into objects.
    Framing(FramingError),
    /// An object does not parse.
    Parse(ParseError),
}

/// Why a run over a stream with a callback that may fail ended early.
#[derive(Debug, Clone, PartialEq, Eq)]
pub enum PipelineError<E> {
    /// The stream cannot be cut into objects.
    Framing(FramingError),
    /// An object does not parse.
    Parse(ParseError),
    /// The callback failed with this error.
    Callback(E),
}

/// The objects of `frames` up to the first frame that does not parse, and
/// that frame's error.
pub open spec fn parsed_until_error(frames: Seq<Frame>) -> (Seq<Structured>, Option<ParseError>)
    decreases frames.len(),
{
    if frames.len() == 0 {
        (Seq::empty(), None)
    } else {
        let (objects, failure) = parsed_until_error(frames.drop_last());
        if failure is Some {
            (objects, failure)
        } else {
            match structured_of(frames.last()) {
                Ok(o) => (objects.push(o), None),
                Err(e) => (objects, Some(e)),
            }
        }
    }
}

/// The structured objects of a stream, in stream order, up to the first
/// error in the stream, and that error: the error of the first object that
/// does not parse or, where all parse, the framing error.
pub open spec fn stream_objects(stream: Seq<u8>) -> (Seq<Structured>, Option<StreamError>) {
    let (frames, cut) = stream_frames(stream);
    let (objects, failure) = parsed_until_error(frames);
    (
        objects,
        match failure {
            Some(e) => Some(StreamError::Parse(e)),
            None => match cut {
                Some(e) => Some(StreamError::Framing(e)),
                None => None,
            },
        },
    )
}

/// No object of the stream has two `reset` lines ahead of it.
pub open spec fn resets_once(stream: Seq<u8>) -> bool {
    forall|i: int|
        0 <= i < stream_frames(stream).0.len() ==> !repeats_reset_in(
            (#[trigger] stream_frames(stream).0[i]).before,
        )
}

/// Cuts a stream into objects and parses them, up to the first error.
///
/// A stream in which an object has two `reset` lines ahead of it is not
/// provided for.
pub fn parse_objects(stream: &[u8]) -> (r: (Vec<StructuredExportObject>, Option<StreamError>))
    requires
        resets_once(stream@),
    ensures
        (objects_view(r.0@), r.1) == stream_objects(stream@),
{
    let mut reader = FrameReader::new();
    let mut frames = reader.feed(stream);
    let ghost closed = frames_view(frames@);
    let cut: Option<FramingError> = match reader.finish() {
        Ok(last) => {
            match last {
                Some(f) => {
                    frames.push(f);
                    assert(frames_view(frames@) == closed + emitted(Some(f@)));
                },
                None => {
                    assert(frames_view(frames@) == closed + emitted(None));
                },
            }
            None
        },
        Err(e) => Some(e),
    };
    let ghost all = frames_view(frames@);
    assert((all, cut) == stream_frames(stream@));
    assert forall|i: int| 0 <= i < all.len() implies !repeats_reset_in(
        (#[trigger] all[i]).before,
    ) by {
        assert(all[i] == stream_frames(stream@).0[i]);
    }
    let mut objects: Vec<StructuredExportObject> = Vec::new();
    let mut failure: Option<ParseError> = None;
    let ghost mut done: int = 0;
    assert(all.take(0) == Seq::<Frame>::empty());
    assert(objects_view(objects@) == Seq::<Structured>::empty());
    for frame in it: frames
        invariant
            it.seq().map_values(|f: UnparsedFastExportObject| f@) == all,
            forall|i: int| 0 <= i < all.len() ==> !repeats_reset_in((#[trigger] all[i]).before),
            (objects_view(objects@), failure) == parsed_until_error(all.take(it.index() as int)),
    {
        let ghost i = it.index() as int;
        proof {
            assert(all[i] == frame@);
            assert(all.take(i + 1).drop_last() == all.take(i));
            assert(all.take(i + 1).last() == frame@);
        }
        if failure.is_none() {
            let ghost before = objects_view(objects@);
            match parse_into_structured_object(frame) {
                Ok(o) => {
                    objects.push(o);
                    assert(objects_view(objects@) == before.push(o@));
                },
                Err(e) => {
                    failure = Some(e);
                },
            }
        }
    }
    assert(all.take(all.len() as int) == all);
    let error = match failure {
        Some(e) => Some(StreamError::Parse(e)),
        None => match cut {
            Some(e) => Some(StreamError::Framing(e)),
            None => None,
        },
    };
    (objects, error)
}

/// Tells whether no object of the stream has two `reset` lines ahead of
/// it: what [`parse_objects`] and the functions built on it ask of a stream.
pub fn stream_resets_once(stream: &[u8]) -> (r: bool)
    ensures
        r == resets_once(stream@),
{
    let mut reader = FrameReader::new();
    let mut frames = reader.feed(stream);
    let ghost closed = frames_view(frames@);
    match reader.finish() {
        Ok(last) => {
            match last {
                Some(f) => {
                    frames.push(f);
                    assert(frames_view(frames@) == closed + emitted(Some(f@)));
                },
                None => {
                    assert(frames_view(frames@) == closed + emitted(None));
                },
            }
        },
        Err(_) => {},
    }
    let ghost all = frames_view(frames@);
    assert(all == stream_frames(stream@).0);
    let mut i: usize = 0;
    while i < frames.len()
        invariant
            i <= frames.len(),
            all == frames_view(frames@),
            all == stream_frames(stream@).0,
            forall|j: int| 0 <= j < i ==> !repeats_reset_in((#[trigger] all[j]).before),
        decreases frames.len() - i,
    {
        assert(all[i as int] == frames@[i as int]@);
        if repeats_reset(frames[i].before_data_str.as_slice()) {
            return false;
        }
        i += 1;
    }
    true
}

/// `cb` can answer `res` when handed the object `obj`.
pub open spec fn answers<O, E, F: FnMut(StructuredExportObject) -> Result<O, E>>(
    cb: F,
    obj: Structured,
    res: Result<O, E>,
) -> bool {
    exists|o: StructuredExportObject| o@ == obj && #[trigger] call_ensures(cb, (o,), res)
}

/// `cb` can answer without error when handed the object `obj`.
pub open spec fn accepts<O, E, F: FnMut(StructuredExportObject) -> Result<O, E>>(
    cb: F,
    obj: Structured,
) -> bool {
    exists|res: Result<O, E>| res is Ok && #[trigger] answers(cb, obj, res)
}

/// `cb` can answer without error when handed each of the first `n` of
/// `objects`.
pub open spec fn accepts_first<O, E, F: FnMut(StructuredExportObject) -> Result<O, E>>(
    cb: F,
    objects: Seq<Structured>,
    n: int,
) -> bool {
    forall|i: int| 0 <= i < n ==> accepts(cb, #[trigger] objects[i])
}

/// How a run over a stream with the callback `cb` may end, for a stream
/// with the structured objects `objects` and the first error `failure`.
///
/// It ends well only for a stream without error and when `cb` can take
/// every object; with the stream's error only when `cb` can take every
/// object ahead of the error; and with an error of `cb` only when that is
/// an answer of `cb` to an object, all objects ahead of which `cb` can
/// take.
pub open spec fn run_ends<O, E, F: FnMut(StructuredExportObject) -> Result<O, E>>(
    cb: F,
    objects: Seq<Structured>,
    failure: Option<StreamError>,
    r: Result<(), PipelineError<E>>,
) -> bool {
    match r {
        Ok(_) => failure is None && accepts_first(cb, objects, objects.len() as int),
        Err(PipelineError::Framing(e)) => failure == Some(StreamError::Framing(e))
            && accepts_first(cb, objects, objects.len() as int),
        Err(PipelineError::Parse(e)) => failure == Some(StreamError::Parse(e)) && accepts_first(
            cb,
            objects,
            objects.len() as int,
        ),
        Err(PipelineError::Callback(e)) => exists|i: int|
            {
                &&& 0 <= i < objects.len()
                &&& #[trigger] answers(cb, objects[i], Err::<O, E>(e))
                &&& accepts_first(cb, objects, i)
            },
    }
}

/// Hands `objects` to `cb`, one by one and in order, up to the first error
/// of `cb`, and then reports `failure`, the error that ended the stream
/// behind these objects, if there is one.
pub fn deliver<O, E, F: FnMut(StructuredExportObject) -> Result<O, E>>(
    objects: Vec<StructuredExportObject>,
    failure: Option<StreamError>,
    cb: F,
) -> (r: Result<(), PipelineError<E>>)
    requires
        forall|o: StructuredExportObject| call_requires(cb, (o,)),
    ensures
        run_ends(cb, objects_view(objects@), failure, r),
{
    let mut call = cb;
    let ghost all = objects_view(objects@);
    for obj in it: objects
        invariant
            call == cb,
            forall|o: StructuredExportObject| call_requires(cb, (o,)),
            it.seq().map_values(|o: StructuredExportObject| o@) == all,
            accepts_first(cb, all, it.index() as int),
    {
        let ghost i = it.index() as int;
        assert(all[i] == obj@);
        match call(obj) {
            Ok(v) => {
                assert(answers(cb, all[i], Ok::<O, E>(v)));
            },
            Err(e) => {
                assert(answers(cb, all[i], Err::<O, E>(e)));
                assert(exists|k: int|
                    {
                        &&& 0 <= k < all.len()
                        &&& #[trigger] answers(cb, all[k], Err::<O, E>(e))
                        &&& accepts_first(cb, all, k)
                    });
                let failed = Err(PipelineError::Callback(e));
                assert(failed matches Err(PipelineError::Callback(x)) && x == e);
                return failed;
            },
        }
    }
    match failure {
        None => Ok(()),
        Some(StreamError::Framing(e)) => Err(PipelineError::Framing(e)),
        Some(StreamError::Parse(e)) => Err(PipelineError::Parse(e)),
    }
}

/// Parses a stream and hands its objects to `cb`, one by one in stream
/// order, up to the first error.
///
/// The first error in stream order ends the run and is returned: the error
/// with which `cb` answers an object, the error of an object that does not
/// parse, or, behind the last whole object, the error that the stream
/// cannot be cut further.
///
/// A stream in which an object has two `reset` lines ahead of it is not
/// provided for: see [`stream_resets_once`].
pub fn parse_git_filter_export<O, E, F: FnMut(StructuredExportObject) -> Result<O, E>>(
    stream: &[u8],
    cb: F,
) -> (r: Result<(), PipelineError<E>>)
    requires
        resets_once(stream@),
        forall|o: StructuredExportObject| call_requires(cb, (o,)),
    ensures
        run_ends(cb, stream_objects(stream@).0, stream_objects(stream@).1, r),
{
    let (objects, failure) = parse_objects(stream);
    deliver(objects, failure, cb)
}

/// The depth of the queues between the reader, the workers and the
/// coordinator: four places for each worker.
pub fn queue_depth(n_parsing_threads: usize) -> (depth: usize)
    ensures
        depth == vstd::math::min(4 * n_parsing_threads, usize::MAX as int),
{
    match n_parsing_threads.checked_mul(4) {
        Some(depth) => depth,
        None => usize::MAX,
    }
}

/// Sends `objects` through `n_parsing_threads` workers and back: they are
/// dealt to the workers in turn, each worker hands back its whole share
/// before the next one does, and a reorder buffer puts them into their
/// order again.
///
/// What comes back is what the reorder buffer releases when the workers'
/// shares come in one behind the other; that is all of the objects, in the
/// order in which they went out.
pub fn through_workers(objects: Vec<StructuredExportObject>, n_parsing_threads: usize) -> (ordered:
    Vec<StructuredExportObject>)
    requires
        n_parsing_threads >= 1,
    ensures
        objects_view(ordered@) == objects_of(
            ReorderView::start().ran(
                in_turn(shares(objects_view(objects@), n_parsing_threads as int)),
            ).1,
        ),
        objects_view(ordered@) == objects_view(objects@),
{
    let ghost all = objects_view(objects@);
    let ghost n = n_parsing_threads as int;
    assert(all.len() == objects.len());
    let queues = dispatch(objects, n_parsing_threads);
    proof {
        lemma_shares_come_out_in_stream_order(all, n);
        assert(countable(queues_view(queues@))) by {
            assert forall|w: int, p: int|
                0 <= w < queues_view(queues@).len() && 0 <= p < queues_view(
                    queues@,
                )[w].len() implies (#[trigger] queues_view(queues@)[w][p]).index
                < usize::MAX by {
                lemma_share(all, n, w, all.len() as int);
                assert(queues_view(queues@)[w] == share(all, n, w, all.len() as int));
            }
        }
    }
    let (ordered, _) = collect_in_order(queues);
    ordered
}

/// Does what [`parse_git_filter_export`] does, by way of
/// `n_parsing_threads` parser workers.  The objects go through the workers
/// in batches of as many as the workers' queues hold: each batch is dealt
/// to the workers in turn and comes back one worker's whole share after the
/// other, and a reorder buffer puts it into stream order again for `cb`.
/// Whatever the number of workers, `cb` is handed the same objects in the
/// same order.
///
/// A stream in which an object has two `reset` lines ahead of it is not
/// provided for: see [`stream_resets_once`].
pub fn parse_git_filter_export_via_channel_and_n_parsing_threads<
    O,
    E,
    F: FnMut(StructuredExportObject) -> Result<O, E>,
>(stream: &[u8], n_parsing_threads: usize, cb: F) -> (r: Result<(), PipelineError<E>>)
    requires
        n_parsing_threads >= 1,
        resets_once(stream@),
        forall|o: StructuredExportObject| call_requires(cb, (o,)),
    ensures
        run_ends(cb, stream_objects(stream@).0, stream_objects(stream@).1, r),
{
    let (objects, failure) = parse_objects(stream);
    let ghost all = objects_view(objects@);
    let in_flight: usize = match queue_depth(n_parsing_threads).checked_mul(n_parsing_threads) {
        Some(places) => places,
        None => usize::MAX,
    };
    let mut ordered: Vec<StructuredExportObject> = Vec::new();
    let mut batch: Vec<StructuredExportObject> = Vec::new();
    assert(objects_view(ordered@) + objects_view(batch@) == all.take(0));
    for obj in it: objects
        invariant
            n_parsing_threads >= 1,
            it.seq().map_values(|o: StructuredExportObject| o@) == all,
            objects_view(ordered@) + objects_view(batch@) == all.take(it.index() as int),
    {
        let ghost i = it.index() as int;
        let ghost done = objects_view(ordered@);
        let ghost held = objects_view(batch@);
        assert(all[i] == obj@);
        batch.push(obj);
        assert(objects_view(batch@) == held.push(all[i]));
        assert(done + held.push(all[i]) == all.take(i + 1)) by {
            assert(all.take(i + 1) == all.take(i).push(all[i]));
        }
        if batch.len() >= in_flight {
            let mut full: Vec<StructuredExportObject> = Vec::new();
            std::mem::swap(&mut full, &mut batch);
            let mut back = through_workers(full, n_parsing_threads);
            ordered.append(&mut back);
            assert(objects_view(ordered@) == done + held.push(all[i]));
            assert(objects_view(batch@) == Seq::<Structured>::empty());
            assert(objects_view(ordered@) + objects_view(batch@) == all.take(i + 1));
        }
    }
    let ghost done = objects_view(ordered@);
    let ghost held = objects_view(batch@);
    let mut back = through_workers(batch, n_parsing_threads);
    ordered.append(&mut back);
    assert(objects_view(ordered@) == done + held);
    assert(all.take(all.len() as int) == all);
    deliver(ordered, failure, cb)
}

/// Does what [`parse_git_filter_export`] does, by way of as many parser
/// workers as suit this machine, and without workers where that is one.
///
/// A stream in which an object has two `reset` lines ahead of it is not
/// provided for: see [`stream_resets_once`].
pub fn parse_git_filter_export_via_channel<
    O,
    E,
    F: FnMut(StructuredExportObject) -> Result<O, E>,
>(stream: &[u8], cb: F) -> (r: Result<(), PipelineError<E>>)
    requires
        resets_once(stream@),
        forall|o: StructuredExportObject| call_requires(cb, (o,)),
    ensures
        run_ends(cb, stream_objects(stream@).0, stream_objects(stream@).1, r),
{
    let spawn_parser_threads = default_parser_threads();
    if spawn_parser_threads > 1 {
        return parse_git_filter_export_via_channel_and_n_parsing_threads(
            stream,
            spawn_parser_threads,
            cb,
        );
    }
    parse_git_filter_export(stream, cb)
}

/// The parser worker that the object at place `index` goes to, of
/// `n_parsing_threads` workers that take objects in turn.
pub fn worker_for(index: usize, n_parsing_threads: usize) -> (worker: usize)
    requires
        n_parsing_threads >= 1,
    ensures
        worker == index % n_parsing_threads,
        worker < n_parsing_threads,
{
    index % n_parsing_threads
}

/// The number of parser workers for a machine with `cpu_count` processors:
/// two processors are left to the threads that read and that coordinate,
/// and there is always one worker.
pub fn parser_thread_count(cpu_count: usize) -> (n: usize)
    ensures
        n == vstd::math::max(1, cpu_count - 2),
{
    if cpu_count > 3 {
        cpu_count - 2
    } else {
        1
    }
}

/// Asks `num_cpus::get` for the number of processors at hand.  It differs
/// from machine to machine and from run to run; the crate documents that it
/// is never below one, and no more is claimed here.
#[verifier::external_body]
fn available_cpus() -> (n: usize)
    ensures
        n >= 1,
{
    num_cpus::get()
}

/// The number of parser workers for this machine.
pub fn default_parser_threads() -> (n: usize)
    ensures
        n >= 1,
{
    parser_thread_count(available_cpus())
}

/// The number of parser workers to run with: the number asked for, or as
/// many as suit this machine where none is asked for; never less than one.
pub fn parser_threads(num_threads: Option<usize>) -> (n: usize)
    ensures
        n >= 1,
        num_threads matches Some(k) ==> n == vstd::math::max(1, k as int),
{
    match num_threads {
        Some(k) => if k >= 1 {
            k
        } else {
            1
        },
        None => default_parser_threads(),
    }
}

} // verus!
