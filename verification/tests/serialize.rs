use gitfilter::export_parser::{
    parse_into_structured_object, write_to_stream, CommitPerson, FileOps, StructuredBlobObject,
    StructuredCommitObject, StructuredExportObject, StructuredObjectType,
};
use gitfilter::{parse_git_filter_export, UnparsedFastExportObject};

fn person(name: Option<&str>, email: &str, timestr: &str) -> CommitPerson {
    CommitPerson {
        name: name.map(|n| n.as_bytes().to_vec()),
        email: email.as_bytes().to_vec(),
        timestr: timestr.as_bytes().to_vec(),
    }
}

fn full_commit() -> StructuredExportObject {
    StructuredExportObject {
        has_reset: Some(b"refs/heads/master".to_vec()),
        has_reset_from: Some(b":9".to_vec()),
        has_feature_done: true,
        object_type: StructuredObjectType::Commit(StructuredCommitObject {
            commit_ref: b"refs/heads/master".to_vec(),
            mark: Some(b":10".to_vec()),
            oid: b"0c0dffba54e509a82483be2f78bf09451d03babb".to_vec(),
            author: person(Some("Bryan Bryan"), "bb@email.com", "1548162866 -0800"),
            committer: person(None, "cc@email.com", "1548162867 +0100"),
            commit_message: b"two\nlines".to_vec(),
            from: Some(b":9".to_vec()),
            merges: vec![b":7".to_vec(), b":8".to_vec()],
            fileops: vec![
                FileOps::FileModify(b"100644".to_vec(), b":5".to_vec(), b"a b/c".to_vec()),
                FileOps::FileDelete(b"gone".to_vec()),
                FileOps::FileCopy(b"src".to_vec(), b"dst".to_vec()),
                FileOps::FileRename(b"old".to_vec(), b"new".to_vec()),
                FileOps::FileDeleteAll,
                FileOps::NoteModify(b":5".to_vec(), b":10".to_vec()),
            ],
        }),
    }
}

fn written(obj: &StructuredExportObject) -> String {
    let mut out = Vec::new();
    write_to_stream(&mut out, obj);
    String::from_utf8(out).unwrap()
}

#[test]
fn commit_is_written_line_by_line() {
    assert_eq!(
        written(&full_commit()),
        "feature done\n\
reset refs/heads/master\n\
from :9\n\
commit refs/heads/master\n\
mark :10\n\
original-oid 0c0dffba54e509a82483be2f78bf09451d03babb\n\
author Bryan Bryan <bb@email.com> 1548162866 -0800\n\
committer <cc@email.com> 1548162867 +0100\n\
data 9\n\
two\nlines\n\
from :9\n\
merge :7\n\
merge :8\n\
M 100644 :5 a b/c\n\
D gone\n\
C src dst\n\
R old new\n\
deleteall\n\
N :5 :10\n"
    );
}

#[test]
fn absent_parts_are_left_out() {
    let obj = StructuredExportObject {
        has_reset: None,
        has_reset_from: Some(b":1".to_vec()),
        has_feature_done: false,
        object_type: StructuredObjectType::Commit(StructuredCommitObject {
            commit_ref: b"refs/heads/x".to_vec(),
            mark: None,
            oid: vec![],
            author: CommitPerson::default(),
            committer: person(Some("C"), "c@d", "1 +0000"),
            commit_message: vec![],
            from: None,
            merges: vec![],
            fileops: vec![],
        }),
    };
    assert_eq!(written(&obj), "commit refs/heads/x\ncommitter C <c@d> 1 +0000\ndata 0\n\n");
}

#[test]
fn blob_is_written_with_its_payload() {
    let obj = StructuredExportObject {
        has_reset: None,
        has_reset_from: None,
        has_feature_done: false,
        object_type: StructuredObjectType::Blob(StructuredBlobObject {
            mark: Some(b":3".to_vec()),
            oid: Some(b"abc".to_vec()),
            data: vec![0, 10, 255],
        }),
    };
    let mut out = b"before".to_vec();
    write_to_stream(&mut out, &obj);
    assert_eq!(out, b"beforeblob\nmark :3\noriginal-oid abc\ndata 3\n\x00\n\xff\n".to_vec());
    let bare = StructuredExportObject {
        has_reset: None,
        has_reset_from: None,
        has_feature_done: false,
        object_type: StructuredObjectType::Blob(StructuredBlobObject {
            mark: None,
            oid: None,
            data: vec![],
        }),
    };
    assert_eq!(written(&bare), "blob\ndata 0\n\n");
}

/// What was written, with the progress marker that an export has behind
/// each object, parsed again.
fn read_back(obj: &StructuredExportObject) -> StructuredExportObject {
    let mut stream = Vec::new();
    write_to_stream(&mut stream, obj);
    stream.extend_from_slice(b"progress 1 objects\n");
    let mut frames: Vec<UnparsedFastExportObject> = parse_git_filter_export(&stream).unwrap();
    assert_eq!(frames.len(), 1);
    parse_into_structured_object(frames.remove(0)).unwrap()
}

#[test]
fn what_is_written_reads_back_the_same() {
    let obj = full_commit();
    assert_eq!(read_back(&obj), obj);
    let blob = StructuredExportObject {
        has_reset: None,
        has_reset_from: None,
        has_feature_done: true,
        object_type: StructuredObjectType::Blob(StructuredBlobObject {
            mark: Some(b":3".to_vec()),
            oid: Some(b"abc".to_vec()),
            data: b"progress 1 objects\n".to_vec(),
        }),
    };
    assert_eq!(read_back(&blob), blob);
}

#[test]
fn parsing_writing_and_parsing_again_gives_equal_objects() {
    let stream = b"feature done\nreset refs/heads/master\ncommit refs/heads/master\nmark :1\noriginal-oid 0c0dffba54e509a82483be2f78bf09451d03babb\nauthor Bryan Bryan <bb@email.com> 1548162866 -0800\ncommitter <bb@email.com> 1548162866 -0800\ndata 12\nhello commit\nM 100644 dd82933dd7b005c2b3137ffd8c28710c2ecc1e2a lib/rust/.gitignore\n\nprogress 1 objects\n";
    let mut frames = parse_git_filter_export(stream).unwrap();
    let first = parse_into_structured_object(frames.remove(0)).unwrap();
    assert_eq!(read_back(&first), first);
}
