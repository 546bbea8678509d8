use gitfilter::framer::{FrameReader, FramingError};
use gitfilter::{
    fast_export_command, make_expected_progress_string, make_stdio_err, parse_git_filter_export,
    parse_git_filter_export_with_callback, ParseState, UnparsedFastExportObject,
};

fn minimal_commit() -> &'static [u8] {
    b"feature done\nreset refs/heads/master\ncommit refs/heads/master\nmark :1\noriginal-oid 0c0dffba54e509a82483be2f78bf09451d03babb\nauthor Bryan Bryan <bb@email.com> 1548162866 -0800\ncommitter Bryan Bryan <bb@email.com> 1548162866 -0800\ndata 12\nhello commit\nprogress 1 objects\n"
}

fn frame(before: &[u8], data: &[u8], after: &[u8]) -> UnparsedFastExportObject {
    UnparsedFastExportObject {
        before_data_str: before.to_vec(),
        data: data.to_vec(),
        after_data_str: after.to_vec(),
    }
}

#[test]
fn progress_string_names_the_object() {
    assert_eq!(make_expected_progress_string(1), b"progress 1 objects".to_vec());
    assert_eq!(make_expected_progress_string(10), b"progress 10 objects".to_vec());
    assert_eq!(make_expected_progress_string(0), b"progress 0 objects".to_vec());
    assert_eq!(
        make_expected_progress_string(u32::MAX),
        b"progress 4294967295 objects".to_vec()
    );
}

#[test]
fn stdio_error_carries_its_message() {
    assert_eq!(make_stdio_err("failed to take child.stdout").message, "failed to take child.stdout");
}

#[test]
fn export_command_defaults_to_master_without_blobs() {
    assert_eq!(
        fast_export_command(None, false),
        vec![
            "git",
            "fast-export",
            "--show-original-ids",
            "--signed-tags=strip",
            "--tag-of-filtered-object=drop",
            "--fake-missing-tagger",
            "--reference-excluded-parents",
            "--reencode=yes",
            "--use-done-feature",
            "master",
            "--progress",
            "1",
            "--no-data"
        ]
    );
}

#[test]
fn export_command_takes_branch_and_blobs() {
    let command = fast_export_command(Some("topic".to_string()), true);
    assert_eq!(command.len(), 12);
    assert_eq!(command[9], "topic");
    assert!(!command.contains(&"--no-data".to_string()));
}

#[test]
fn minimal_commit_is_one_frame() {
    let frames = parse_git_filter_export(minimal_commit()).unwrap();
    assert_eq!(frames.len(), 1);
    assert_eq!(
        frames[0],
        frame(
            b"feature done\nreset refs/heads/master\ncommit refs/heads/master\nmark :1\noriginal-oid 0c0dffba54e509a82483be2f78bf09451d03babb\nauthor Bryan Bryan <bb@email.com> 1548162866 -0800\ncommitter Bryan Bryan <bb@email.com> 1548162866 -0800\ndata 12\n",
            b"hello commit",
            b"\n"
        )
    );
}

#[test]
fn empty_stream_has_no_frames() {
    assert_eq!(parse_git_filter_export(b""), Ok(vec![]));
}

#[test]
fn lines_behind_the_last_object_are_no_frame() {
    let mut stream = minimal_commit().to_vec();
    stream.extend_from_slice(b"done\n");
    let frames = parse_git_filter_export(&stream).unwrap();
    assert_eq!(frames.len(), 1);
    assert_eq!(parse_git_filter_export(b"done\n"), Ok(vec![]));
}

#[test]
fn payload_is_taken_by_length_not_by_content() {
    let stream = b"blob\nmark :1\ndata 30\nprogress 1 objects\ndata 5\n\x00\xff\n\n\nprogress 1 objects\nblob\nmark :2\ndata 0\n\nprogress 2 objects\n";
    let frames = parse_git_filter_export(stream).unwrap();
    assert_eq!(
        frames,
        vec![
            frame(b"blob\nmark :1\ndata 30\n", b"progress 1 objects\ndata 5\n\x00\xff\n\n", b"\n"),
            frame(b"blob\nmark :2\ndata 0\n", b"", b"\n"),
        ]
    );
}

#[test]
fn payload_length_equals_declared_length() {
    let stream = b"blob\ndata 3\nabc\nprogress 1 objects\ncommit refs/heads/x\ndata 10\n0123456789\nfrom :1\nprogress 2 objects\nblob\ndata 0\n\nprogress 3 objects\n";
    let frames = parse_git_filter_export(stream).unwrap();
    assert_eq!(frames.len(), 3);
    for f in &frames {
        let text = String::from_utf8(f.before_data_str.clone()).unwrap();
        let last = text.lines().last().unwrap();
        let declared: usize = last.strip_prefix("data ").unwrap().parse().unwrap();
        assert_eq!(f.data.len(), declared);
    }
    assert_eq!(frames[1].after_data_str, b"\nfrom :1\n".to_vec());
}

#[test]
fn markers_are_counted_from_one() {
    // a marker with another number is a line like any other
    let stream = b"blob\ndata 1\nx\nprogress 2 objects\nprogress 1 objects\nblob\ndata 1\ny\nprogress 1 objects\nprogress 2 objects\n";
    let frames = parse_git_filter_export(stream).unwrap();
    assert_eq!(
        frames,
        vec![
            frame(b"blob\ndata 1\n", b"x", b"\nprogress 2 objects\n"),
            frame(b"blob\ndata 1\n", b"y", b"\nprogress 1 objects\n"),
        ]
    );
}

#[test]
fn marker_is_recognised_as_a_prefix() {
    let stream = b"blob\ndata 1\nx\nprogress 1 objects and more\n";
    assert_eq!(parse_git_filter_export(stream).unwrap().len(), 1);
    let stream = b"blob\ndata 1\nx\nprogress 10 objects\n";
    assert_eq!(parse_git_filter_export(stream), Err(FramingError::UnterminatedStream));
}

#[test]
fn carriage_returns_are_kept() {
    let stream = b"blob\r\ndata 1\nx\ntail\r\nprogress 1 objects\n";
    let frames = parse_git_filter_export(stream).unwrap();
    assert_eq!(frames, vec![frame(b"blob\r\ndata 1\n", b"x", b"\ntail\r\n")]);
}

#[test]
fn last_line_may_lack_its_line_feed() {
    let stream = b"blob\ndata 1\nx\nprogress 1 objects";
    let frames = parse_git_filter_export(stream).unwrap();
    assert_eq!(frames, vec![frame(b"blob\ndata 1\n", b"x", b"\n")]);
    assert_eq!(parse_git_filter_export(b"blob\ndata 1\nx\ndone"), Err(FramingError::UnterminatedStream));
    assert_eq!(parse_git_filter_export(b"blob\nmark :1"), Ok(vec![]));
}

#[test]
fn end_inside_a_payload_is_a_short_payload() {
    assert_eq!(parse_git_filter_export(b"blob\ndata 5\nabc"), Err(FramingError::ShortPayload));
    assert_eq!(parse_git_filter_export(b"blob\ndata 5\n"), Err(FramingError::ShortPayload));
    assert_eq!(parse_git_filter_export(b"blob\ndata 5"), Err(FramingError::ShortPayload));
}

#[test]
fn end_behind_a_payload_is_an_unterminated_stream() {
    assert_eq!(parse_git_filter_export(b"blob\ndata 3\nabc\n"), Err(FramingError::UnterminatedStream));
    assert_eq!(parse_git_filter_export(b"blob\ndata 3\nabc"), Err(FramingError::UnterminatedStream));
    assert_eq!(parse_git_filter_export(b"blob\ndata 0\n"), Err(FramingError::UnterminatedStream));
    assert_eq!(parse_git_filter_export(b"blob\ndata 0"), Err(FramingError::UnterminatedStream));
}

#[test]
fn length_that_is_no_number_is_malformed() {
    assert_eq!(parse_git_filter_export(b"blob\ndata abc\nabc\n"), Err(FramingError::MalformedLength));
    assert_eq!(parse_git_filter_export(b"blob\ndata \nabc\n"), Err(FramingError::MalformedLength));
    assert_eq!(parse_git_filter_export(b"blob\ndata +3\nabc\n"), Err(FramingError::MalformedLength));
    assert_eq!(parse_git_filter_export(b"blob\ndata 3 \nabc\n"), Err(FramingError::MalformedLength));
    assert_eq!(
        parse_git_filter_export(b"blob\ndata 99999999999999999999999\nabc\n"),
        Err(FramingError::MalformedLength)
    );
    // no space, no data line
    assert_eq!(parse_git_filter_export(b"blob\ndata3\n"), Ok(vec![]));
}

#[test]
fn error_behind_whole_objects_is_still_an_error() {
    let mut stream = minimal_commit().to_vec();
    stream.extend_from_slice(b"blob\ndata 9\nshort");
    assert_eq!(parse_git_filter_export(&stream), Err(FramingError::ShortPayload));
}

#[test]
fn reader_hands_out_frames_as_they_close() {
    let mut reader = FrameReader::new();
    assert_eq!(reader.state(), ParseState::BeforeData);
    assert_eq!(reader.feed(b"blob\nda"), vec![]);
    assert_eq!(reader.state(), ParseState::BeforeData);
    assert_eq!(reader.feed(b"ta 4\n"), vec![]);
    assert_eq!(reader.state(), ParseState::Data(4));
    assert_eq!(reader.feed(b"ab"), vec![]);
    assert_eq!(reader.state(), ParseState::Data(4));
    assert_eq!(reader.feed(b"cd\nprogress 1 obj"), vec![]);
    assert_eq!(reader.state(), ParseState::AfterData);
    assert_eq!(reader.feed(b"ects\nblob\n"), vec![frame(b"blob\ndata 4\n", b"abcd", b"\n")]);
    assert_eq!(reader.state(), ParseState::BeforeData);
    assert_eq!(reader.failure(), None);
    assert_eq!(reader.finish(), Ok(None));
}

#[test]
fn reader_gives_the_same_frames_for_any_chunks() {
    let mut stream = minimal_commit().to_vec();
    stream.extend_from_slice(b"blob\nmark :2\ndata 3\na\nb\nprogress 2 objects\nblob\ndata 0\n\nprogress 3 objects\ndone\n");
    let whole = parse_git_filter_export(&stream).unwrap();
    assert_eq!(whole.len(), 3);
    for size in [1usize, 2, 3, 5, 7, 64, 1000] {
        let mut reader = FrameReader::new();
        let mut frames = Vec::new();
        for chunk in stream.chunks(size) {
            frames.extend(reader.feed(chunk));
        }
        frames.extend(reader.finish().unwrap());
        assert_eq!(frames, whole);
    }
}

#[test]
fn reader_stops_at_the_first_error() {
    let mut reader = FrameReader::new();
    let frames = reader.feed(b"blob\ndata 1\nx\nprogress 1 objects\nblob\ndata x\nblob\ndata 1\ny\nprogress 2 objects\n");
    assert_eq!(frames, vec![frame(b"blob\ndata 1\n", b"x", b"\n")]);
    assert_eq!(reader.failure(), Some(FramingError::MalformedLength));
    assert_eq!(reader.feed(b"blob\ndata 1\ny\nprogress 2 objects\n"), vec![]);
    assert_eq!(reader.finish(), Err(FramingError::MalformedLength));
}

#[test]
fn frames_reach_the_callback_in_stream_order() {
    let stream = b"blob\ndata 1\na\nprogress 1 objects\nblob\ndata 1\nb\nprogress 2 objects\nblob\ndata 1\nc\nprogress 3 objects";
    let mut seen = Vec::new();
    let r = parse_git_filter_export_with_callback(stream, |f| seen.push(f.data));
    assert_eq!(r, Ok(()));
    assert_eq!(seen, vec![b"a".to_vec(), b"b".to_vec(), b"c".to_vec()]);
}

#[test]
fn frames_ahead_of_a_framing_error_reach_the_callback() {
    let stream = b"blob\ndata 1\na\nprogress 1 objects\nblob\ndata 7\nb\n";
    let mut seen = Vec::new();
    let r = parse_git_filter_export_with_callback(stream, |f| seen.push(f.data));
    assert_eq!(r, Err(FramingError::ShortPayload));
    assert_eq!(seen, vec![b"a".to_vec()]);
}
