//! Reads a `git fast-export` stream, cuts it into objects, parses each into a
//! structured form, lets a filter inspect or change it, and writes the result
//! back out for `git fast-import`.

use vstd::prelude::*;
use vstd::string::*;

pub mod export_parser;
pub mod filter;
pub mod framer;
pub mod text;
pub mod wait_obj;

pub use crate::export_parser::{
    parse_git_filter_export_via_channel, parse_git_filter_export_via_channel_and_n_parsing_threads,
};
pub use crate::wait_obj::WaitObj;

use crate::framer::{
    emitted, frames_of, lemma_payload_length_fidelity, payload_as_declared, stream_frames,
    FrameReader, FramingError,
};
use crate::text::{ascii, ascii_bytes, decimal, push_bytes, push_decimal};

verus! {

/// Where the frame reader stands within the object it is reading.
#[derive(Clone, Copy, PartialEq, Eq, Debug)]
pub enum ParseState {
    /// Reading header lines, up to and including the `data` line.
    BeforeData,
    /// About to read a payload of the given length.
    Data(usize),
    /// Reading the lines behind the payload, up to the progress marker.
    AfterData,
}

/// One object of the export stream, cut out but not yet parsed.
#[derive(Debug, Clone, PartialEq, Eq)]
pub struct UnparsedFastExportObject {
    /// The header lines, each followed by a line feed; the last one is the
    /// `data` line.
    pub before_data_str: Vec<u8>,
    /// The payload, exactly as long as the `data` line declares.
    pub data: Vec<u8>,
    /// The lines between the payload and the progress marker, each followed
    /// by a line feed.
    pub after_data_str: Vec<u8>,
}

/// The contents of an [`UnparsedFastExportObject`].
pub struct Frame {
    pub before: Seq<u8>,
    pub data: Seq<u8>,
    pub after: Seq<u8>,
}

impl View for UnparsedFastExportObject {
    type V = Frame;

    open spec fn view(&self) -> Frame {
        Frame { before: self.before_data_str@, data: self.data@, after: self.after_data_str@ }
    }
}

/// The contents of a list of unparsed objects.
pub open spec fn frames_view(v: Seq<UnparsedFastExportObject>) -> Seq<Frame> {
    v.map_values(|f: UnparsedFastExportObject| f@)
}

/// The line that closes object number `k` of the stream.
pub open spec fn progress_marker(k: nat) -> Seq<u8> {
    ascii("progress "@) + decimal(k) + ascii(" objects"@)
}

/// The progress line that closes object number `progress_num` of a stream.
pub fn make_expected_progress_string(progress_num: u32) -> (s: Vec<u8>)
    ensures
        s@ == progress_marker(progress_num as nat),
{
    proof {
        reveal_strlit("progress ");
        reveal_strlit(" objects");
    }
    let mut s: Vec<u8> = Vec::new();
    push_bytes(&mut s, ascii_bytes("progress "));
    push_decimal(&mut s, progress_num as u64);
    push_bytes(&mut s, ascii_bytes(" objects"));
    s
}

/// Cuts a whole export stream into its objects.  In each of them the
/// payload is as long as the `data` line of the header says.
///
/// Fails if the stream is cut short inside an object, declares a payload
/// length that is no number, or holds more objects than can be counted.
pub fn parse_git_filter_export(stream: &[u8]) -> (r: Result<
    Vec<UnparsedFastExportObject>,
    FramingError,
>)
    ensures
        match r {
            Ok(v) => frames_of(stream@) == Ok::<Seq<Frame>, FramingError>(frames_view(v@)),
            Err(e) => frames_of(stream@) == Err::<Seq<Frame>, FramingError>(e),
        },
        r matches Ok(v) ==> forall|i: int|
            0 <= i < v.len() ==> payload_as_declared(#[trigger] v[i]@),
{
    proof {
        lemma_payload_length_fidelity(stream@);
    }
    let mut reader = FrameReader::new();
    let mut frames = reader.feed(stream);
    let ghost closed = frames_view(frames@);
    match reader.finish() {
        Ok(last) => {
            match last {
                Some(f) => {
                    frames.push(f);
                    assert(frames_view(frames@) == closed + emitted(Some(f@)));
                },
                None => {
                    assert(frames_view(frames@) == closed + emitted(None));
                },
            }
            let ghost all = frames_view(frames@);
            assert(frames_of(stream@) == Ok::<Seq<Frame>, FramingError>(all));
            assert forall|i: int| 0 <= i < frames.len() implies payload_as_declared(
                #[trigger] frames[i]@,
            ) by {
                assert(payload_as_declared(frames_of(stream@)->Ok_0[i]));
            }
            Ok(frames)
        },
        Err(e) => Err(e),
    }
}

/// `cb` is called with the frame `frame` and returns.
pub open spec fn takes<F: FnMut(UnparsedFastExportObject)>(cb: F, frame: Frame) -> bool {
    exists|f: UnparsedFastExportObject| f@ == frame && #[trigger] call_ensures(cb, (f,), ())
}

/// Cuts a whole export stream into its objects and hands each to `cb`, in
/// stream order.  Objects are handed over up to the end of the stream or
/// the first framing error, which is returned.
pub fn parse_git_filter_export_with_callback<F: FnMut(UnparsedFastExportObject)>(
    stream: &[u8],
    cb: F,
) -> (r: Result<(), FramingError>)
    requires
        forall|f: UnparsedFastExportObject| call_requires(cb, (f,)),
    ensures
        match stream_frames(stream@).1 {
            None => r is Ok,
            Some(e) => r == Err::<(), FramingError>(e),
        },
        forall|i: int|
            0 <= i < stream_frames(stream@).0.len() ==> takes(
                cb,
                #[trigger] stream_frames(stream@).0[i],
            ),
{
    let mut call = cb;
    let mut reader = FrameReader::new();
    let closed = reader.feed(stream);
    let ghost head = frames_view(closed@);
    for frame in it: closed
        invariant
            call == cb,
            forall|f: UnparsedFastExportObject| call_requires(cb, (f,)),
            it.seq().map_values(|f: UnparsedFastExportObject| f@) == head,
            forall|i: int| 0 <= i < it.index() ==> takes(cb, #[trigger] head[i]),
    {
        assert(head[it.index() as int] == frame@);
        call(frame);
    }
    let ghost all = stream_frames(stream@).0;
    match reader.finish() {
        Ok(last) => {
            match last {
                Some(f) => {
                    assert(all == head + emitted(Some(f@)));
                    call(f);
                    assert(takes(cb, all[head.len() as int]));
                },
                None => {
                    assert(all == head + emitted(None));
                },
            }
            assert forall|i: int| 0 <= i < all.len() implies takes(cb, #[trigger] all[i]) by {
                if i < head.len() {
                    assert(all[i] == head[i]);
                }
            }
            Ok(())
        },
        Err(e) => Err(e),
    }
}

/// An error in the manner of an I/O error of the kind "invalid input",
/// with a message.
#[derive(Debug, Clone, PartialEq, Eq)]
pub struct InvalidInput {
    pub message: String,
}

/// An "invalid input" error with the given message.
pub fn make_stdio_err(message: &str) -> (e: InvalidInput)
    ensures
        e.message@ == message@,
{
    InvalidInput { message: message.to_owned() }
}

/// The contents of a list of strings.
pub open spec fn strings_view(v: Seq<String>) -> Seq<Seq<char>> {
    v.map_values(|s: String| s@)
}

/// The command that prints the export stream of a branch (`master` where
/// none is named): `git fast-export` with original ids, signed tags
/// stripped, tags of filtered objects dropped, missing taggers faked,
/// excluded parents referenced, messages re-encoded, a closing `done`, and a
/// progress line behind every object; without blob contents unless
/// `with_blobs`.
pub open spec fn fast_export_arguments(export_branch: Option<Seq<char>>, with_blobs: bool) -> Seq<
    Seq<char>,
> {
    seq![
        "git"@,
        "fast-export"@,
        "--show-original-ids"@,
        "--signed-tags=strip"@,
        "--tag-of-filtered-object=drop"@,
        "--fake-missing-tagger"@,
        "--reference-excluded-parents"@,
        "--reencode=yes"@,
        "--use-done-feature"@,
        match export_branch {
            Some(b) => b,
            None => "master"@,
        },
        "--progress"@,
        "1"@,
    ] + (if with_blobs {
        Seq::empty()
    } else {
        seq!["--no-data"@]
    })
}

/// The contents of a string that may be absent.
pub open spec fn opt_string(s: Option<String>) -> Option<Seq<char>> {
    match s {
        Some(s) => Some(s@),
        None => None,
    }
}

/// The command line of the export, program first.
pub fn fast_export_command(export_branch: Option<String>, with_blobs: bool) -> (command: Vec<
    String,
>)
    ensures
        strings_view(command@) == fast_export_arguments(opt_string(export_branch), with_blobs),
{
    let branch: String = match export_branch {
        Some(b) => b,
        None => "master".to_owned(),
    };
    let mut command: Vec<String> = Vec::new();
    command.push("git".to_owned());
    command.push("fast-export".to_owned());
    command.push("--show-original-ids".to_owned());
    command.push("--signed-tags=strip".to_owned());
    command.push("--tag-of-filtered-object=drop".to_owned());
    command.push("--fake-missing-tagger".to_owned());
    command.push("--reference-excluded-parents".to_owned());
    command.push("--reencode=yes".to_owned());
    command.push("--use-done-feature".to_owned());
    command.push(branch);
    command.push("--progress".to_owned());
    command.push("1".to_owned());
    if !with_blobs {
        command.push("--no-data".to_owned());
    }
    assert(strings_view(command@) =~= fast_export_arguments(
        opt_string(export_branch),
        with_blobs,
    ));
    command
}

} // verus!
