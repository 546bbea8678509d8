use gitfilter::export_parser::{
    parse_git_filter_export, parse_objects, stream_resets_once, ParseError, PipelineError,
    StreamError, StructuredObjectType,
};
use gitfilter::framer::FramingError;
use gitfilter::{
    parse_git_filter_export_via_channel, parse_git_filter_export_via_channel_and_n_parsing_threads,
};

/// An export of `n` commits with the marks `:1` to `:n`.
fn commits(n: usize) -> Vec<u8> {
    let mut s = String::from("feature done\n");
    for i in 1..=n {
        if i == 1 {
            s.push_str("reset refs/heads/master\n");
        }
        s.push_str("commit refs/heads/master\n");
        s.push_str(&format!("mark :{}\n", i));
        s.push_str(&format!("original-oid {:040x}\n", i));
        s.push_str("author A <a@example.com> 1548162866 -0800\n");
        s.push_str("committer C <c@example.com> 1548162866 -0800\n");
        let message = format!("commit number {}", i);
        s.push_str(&format!("data {}\n{}\n", message.len(), message));
        if i > 1 {
            s.push_str(&format!("from :{}\n", i - 1));
        }
        s.push_str(&format!("M 100644 {:040x} file{}\n", i, i));
        s.push_str("\n");
        s.push_str(&format!("progress {} objects\n", i));
    }
    s.push_str("done\n");
    s.into_bytes()
}

/// An export of blobs and commits by turns, with the marks `:1` to `:n`.
fn blobs_and_commits(n: usize) -> Vec<u8> {
    let mut s = String::from("feature done\n");
    for i in 1..=n {
        if i % 2 == 1 {
            s.push_str("blob\n");
            s.push_str(&format!("mark :{}\n", i));
            s.push_str(&format!("original-oid {:040x}\n", i));
            s.push_str("data 4\nblob\n");
        } else {
            s.push_str("commit refs/heads/master\n");
            s.push_str(&format!("mark :{}\n", i));
            s.push_str("committer C <c@example.com> 1548162866 -0800\n");
            s.push_str("data 2\nhi\n");
            s.push_str(&format!("M 100644 :{} file\n", i - 1));
            s.push_str("\n");
        }
        s.push_str(&format!("progress {} objects\n", i));
    }
    s.push_str("done\n");
    s.into_bytes()
}

#[test]
fn mod_using_multiple_parsing_threads_keeps_order_the_same() {
    let mut expected_count = 1;
    parse_git_filter_export_via_channel_and_n_parsing_threads(&commits(1000), 4, |obj| {
        if let StructuredObjectType::Commit(commit_obj) = obj.object_type {
            let mark_str = String::from_utf8(commit_obj.mark.unwrap()).unwrap();
            let expected_mark_str = format!(":{}", expected_count);
            assert_eq!(expected_mark_str, mark_str);
        } else {
            panic!("Expected commit object");
        }
        expected_count += 1;
        if 1 == 2 {
            return Err(());
        }
        Ok(())
    })
    .unwrap();
    assert_eq!(expected_count, 1001);
}

#[test]
fn using_blobs_and_multiple_parsing_threads_keeps_order_the_same() {
    let mut expected_count = 1;
    parse_git_filter_export_via_channel_and_n_parsing_threads(&blobs_and_commits(101), 4, |obj| {
        if let StructuredObjectType::Commit(commit_obj) = obj.object_type {
            let mark_str = String::from_utf8(commit_obj.mark.unwrap()).unwrap();
            let expected_mark_str = format!(":{}", expected_count);
            assert_eq!(expected_mark_str, mark_str);
        } else if let StructuredObjectType::Blob(blob_obj) = obj.object_type {
            let mark_str = String::from_utf8(blob_obj.mark.unwrap()).unwrap();
            let expected_mark_str = format!(":{}", expected_count);
            assert_eq!(expected_mark_str, mark_str);
        }
        expected_count += 1;
        if 1 == 2 {
            return Err(());
        }
        Ok(())
    })
    .unwrap();
    assert_eq!(expected_count, 102);
}

#[test]
fn mod_test1() {
    parse_git_filter_export_via_channel(&commits(20), |_| if 1 == 1 { Ok(()) } else { Err(()) })
        .unwrap();
}

#[test]
fn works_with_blobs() {
    parse_git_filter_export_via_channel(&blobs_and_commits(20), |_| {
        if 1 == 1 {
            Ok(())
        } else {
            Err(())
        }
    })
    .unwrap();
}

#[test]
fn lib_using_multiple_parsing_threads_keeps_order_the_same() {
    let mut expected_count = 0;
    let mut counter = 0;
    parse_git_filter_export_via_channel_and_n_parsing_threads(&commits(37), 4, |obj| {
        if let StructuredObjectType::Commit(commit_obj) = obj.object_type {
            let mark_str = String::from_utf8(commit_obj.mark.unwrap()).unwrap();
            counter = mark_str[1..].parse::<usize>().unwrap() - 1;
        }
        assert_eq!(counter, expected_count);
        expected_count += 1;
        if 1 == 2 {
            return Err(());
        }
        Ok(())
    })
    .unwrap();
    assert_eq!(expected_count, 37);
}

#[test]
fn lib_test1() {
    let mut seen = 0;
    parse_git_filter_export_via_channel(&commits(5), |_| {
        seen += 1;
        if 1 == 1 {
            Ok(())
        } else {
            Err(())
        }
    })
    .unwrap();
    assert_eq!(seen, 5);
}

#[test]
fn every_number_of_workers_gives_the_same_run() {
    let stream = blobs_and_commits(23);
    let mut plain = Vec::new();
    parse_git_filter_export(&stream, |obj| {
        plain.push(obj);
        Ok::<(), ()>(())
    })
    .unwrap();
    assert_eq!(plain.len(), 23);
    for n in 1..=9 {
        let mut seen = Vec::new();
        parse_git_filter_export_via_channel_and_n_parsing_threads(&stream, n, |obj| {
            seen.push(obj);
            Ok::<(), ()>(())
        })
        .unwrap();
        assert_eq!(seen, plain);
    }
}

#[test]
fn callback_error_ends_the_run() {
    let mut seen = 0;
    let r = parse_git_filter_export(&commits(10), |_| {
        seen += 1;
        if seen == 4 {
            Err("enough")
        } else {
            Ok(())
        }
    });
    assert_eq!(r, Err(PipelineError::Callback("enough")));
    assert_eq!(seen, 4);
    let mut seen = 0;
    let r = parse_git_filter_export_via_channel_and_n_parsing_threads(&commits(10), 3, |_| {
        seen += 1;
        if seen == 4 {
            Err("enough")
        } else {
            Ok(())
        }
    });
    assert_eq!(r, Err(PipelineError::Callback("enough")));
    assert_eq!(seen, 4);
}

#[test]
fn parse_error_ends_the_run_behind_the_objects_ahead_of_it() {
    let mut stream = commits(3);
    stream.truncate(stream.len() - b"done\n".len());
    stream.extend_from_slice(b"commit refs/heads/master\nbogus line\ndata 0\n\nprogress 4 objects\n");
    stream.extend_from_slice(b"blob\ndata 9\nshort");
    let mut seen = 0;
    let r = parse_git_filter_export(&stream, |_| {
        seen += 1;
        Ok::<(), ()>(())
    });
    assert_eq!(r, Err(PipelineError::Parse(ParseError::UnknownKeyword)));
    assert_eq!(seen, 3);
    let (objects, failure) = parse_objects(&stream);
    assert_eq!(objects.len(), 3);
    assert_eq!(failure, Some(StreamError::Parse(ParseError::UnknownKeyword)));
}

#[test]
fn framing_error_ends_the_run_behind_the_whole_objects() {
    let mut stream = commits(3);
    stream.truncate(stream.len() - b"done\n".len());
    stream.extend_from_slice(b"blob\ndata 9\nshort");
    let mut seen = 0;
    let r = parse_git_filter_export_via_channel_and_n_parsing_threads(&stream, 2, |_| {
        seen += 1;
        Ok::<(), ()>(())
    });
    assert_eq!(r, Err(PipelineError::Framing(FramingError::ShortPayload)));
    assert_eq!(seen, 3);
    let (objects, failure) = parse_objects(&stream);
    assert_eq!(objects.len(), 3);
    assert_eq!(failure, Some(StreamError::Framing(FramingError::ShortPayload)));
}

#[test]
fn stream_without_objects_runs_no_callback() {
    let r = parse_git_filter_export(b"feature done\ndone\n", |_| Err::<(), ()>(()));
    assert_eq!(r, Ok(()));
    assert_eq!(parse_objects(b""), (vec![], None));
}

#[test]
fn stream_with_a_second_reset_is_told() {
    assert!(stream_resets_once(&commits(4)));
    assert!(stream_resets_once(b""));
    assert!(!stream_resets_once(
        b"reset refs/heads/a\nfrom :1\nreset refs/heads/b\ncommit refs/heads/b\ndata 0\n\nprogress 1 objects\n"
    ));
    let mut stream = commits(2);
    stream.extend_from_slice(b"reset refs/heads/a\nfrom :1\nreset refs/heads/b\ncommit refs/heads/b\ndata 0\n\nprogress 3 objects\n");
    assert!(!stream_resets_once(&stream));
}
