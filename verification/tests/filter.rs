use gitfilter::export_parser::{
    ParseError, StreamError, StructuredBlobObject, StructuredExportObject, StructuredObjectType,
};
use gitfilter::filter::{filter_object, filter_with_cb, filter_with_rules, FilterOptions, FilterRule};
use gitfilter::framer::FramingError;

/// A small export: three commits on master, by Bryan, jerry and Bryan.
fn sample_export() -> Vec<u8> {
    let mut s = String::new();
    s.push_str("feature done\n");
    s.push_str("reset refs/heads/master\n");
    s.push_str("commit refs/heads/master\n");
    s.push_str("mark :1\n");
    s.push_str("original-oid 0c0dffba54e509a82483be2f78bf09451d03babb\n");
    s.push_str("author Bryan Bryan <bb@email.com> 1548162866 -0800\n");
    s.push_str("committer Bryan Bryan <bb@email.com> 1548162866 -0800\n");
    s.push_str("data 12\n");
    s.push_str("hello commit\n");
    s.push_str("M 100644 dd82933dd7b005c2b3137ffd8c28710c2ecc1e2a lib/rust/.gitignore\n");
    s.push_str("\n");
    s.push_str("progress 1 objects\n");
    s.push_str("commit refs/heads/master\n");
    s.push_str("mark :2\n");
    s.push_str("original-oid 1111111111111111111111111111111111111111\n");
    s.push_str("author jerry <jerry@email.com> 1548162900 -0800\n");
    s.push_str("committer jerry <jerry@email.com> 1548162900 -0800\n");
    s.push_str("data 7\n");
    s.push_str("by jerr\n");
    s.push_str("from :1\n");
    s.push_str("D lib/rust/.gitignore\n");
    s.push_str("\n");
    s.push_str("progress 2 objects\n");
    s.push_str("commit refs/heads/master\n");
    s.push_str("mark :3\n");
    s.push_str("original-oid 2222222222222222222222222222222222222222\n");
    s.push_str("author Bryan Bryan <bb@email.com> 1548163000 -0800\n");
    s.push_str("committer Bryan Bryan <bb@email.com> 1548163000 -0800\n");
    s.push_str("data 5\n");
    s.push_str("third\n");
    s.push_str("from :2\n");
    s.push_str("M 100644 3333333333333333333333333333333333333333 a file\n");
    s.push_str("\n");
    s.push_str("progress 3 objects\n");
    s.push_str("done\n");
    s.into_bytes()
}

fn contains(haystack: &[u8], needle: &str) -> bool {
    String::from_utf8_lossy(haystack).contains(needle)
}

#[test]
fn filter_path_works() {
    let mut writer = FilterOptions::from(Vec::new());
    filter_with_cb(&mut writer, &sample_export(), |obj| match &obj.object_type {
        StructuredObjectType::Blob(_) => true,
        StructuredObjectType::Commit(commit_obj) => {
            if contains(&commit_obj.committer.email, "jerry") {
                false
            } else {
                true
            }
        }
    })
    .unwrap();
}

#[test]
fn can_modify_filter_objects() {
    let mut writer = FilterOptions::from(Vec::new());
    filter_with_cb(&mut writer, &sample_export(), |obj| {
        if let Some(reset) = &mut obj.has_reset {
            *reset = "refs/heads/NEWBRANCHNAMEAAAAAAA".into();
        }
        match &mut obj.object_type {
            StructuredObjectType::Blob(_) => true,
            StructuredObjectType::Commit(commit_obj) => {
                commit_obj.commit_ref = String::from_utf8_lossy(&commit_obj.commit_ref)
                    .replace("master", "NEWBRANCHNAMEAAAAAAA")
                    .into_bytes();
                true
            }
        }
    })
    .unwrap();

    let s = String::from_utf8(writer.stream).unwrap();
    assert!(s.contains("refs/heads/NEWBRANCHNAMEAAAAAAA"));
    assert!(!s.contains("refs/heads/master"));
}

#[test]
fn email_drop_filter_drops_exactly_the_matching_commits() {
    let mut writer = FilterOptions::from(Vec::new());
    filter_with_cb(&mut writer, &sample_export(), |obj| match &obj.object_type {
        StructuredObjectType::Blob(_) => true,
        StructuredObjectType::Commit(commit_obj) => !contains(&commit_obj.committer.email, "jerry"),
    })
    .unwrap();
    let s = String::from_utf8(writer.stream).unwrap();
    assert!(!s.contains("jerry"));
    assert!(!s.contains("mark :2"));
    let first = s.find("mark :1").unwrap();
    let third = s.find("mark :3").unwrap();
    assert!(first < third);
    assert!(s.ends_with("done\n"));
}

#[test]
fn identity_filter_writes_every_object() {
    let mut writer = FilterOptions::from(Vec::new());
    filter_with_rules(&mut writer, Vec::new(), &sample_export()).unwrap();
    let expected = "feature done\n\
reset refs/heads/master\n\
commit refs/heads/master\n\
mark :1\n\
original-oid 0c0dffba54e509a82483be2f78bf09451d03babb\n\
author Bryan Bryan <bb@email.com> 1548162866 -0800\n\
committer Bryan Bryan <bb@email.com> 1548162866 -0800\n\
data 12\n\
hello commit\n\
M 100644 dd82933dd7b005c2b3137ffd8c28710c2ecc1e2a lib/rust/.gitignore\n\
commit refs/heads/master\n\
mark :2\n\
original-oid 1111111111111111111111111111111111111111\n\
author jerry <jerry@email.com> 1548162900 -0800\n\
committer jerry <jerry@email.com> 1548162900 -0800\n\
data 7\n\
by jerr\n\
from :1\n\
D lib/rust/.gitignore\n\
commit refs/heads/master\n\
mark :3\n\
original-oid 2222222222222222222222222222222222222222\n\
author Bryan Bryan <bb@email.com> 1548163000 -0800\n\
committer Bryan Bryan <bb@email.com> 1548163000 -0800\n\
data 5\n\
third\n\
from :2\n\
M 100644 3333333333333333333333333333333333333333 a file\n\
done\n";
    assert_eq!(String::from_utf8(writer.stream).unwrap(), expected);
}

#[test]
fn options_start_empty_on_master_without_blobs() {
    let options = FilterOptions::default();
    assert_eq!(options.stream, Vec::<u8>::new());
    assert_eq!(options.branch, None);
    assert_eq!(options.with_blobs, false);
    assert_eq!(options.num_threads, None);
    let options = FilterOptions::from(b"head".to_vec());
    assert_eq!(options.stream, b"head".to_vec());
    assert_eq!(options.branch, None);
    assert_eq!(options.with_blobs, false);
    assert_eq!(options.num_threads, None);
}

#[test]
fn output_goes_behind_what_the_stream_holds() {
    let mut options = FilterOptions::from(b"# head\n".to_vec());
    options.branch = Some("topic".to_string());
    options.with_blobs = true;
    options.num_threads = Some(3);
    filter_with_cb(&mut options, b"blob\nmark :1\ndata 2\nhi\nprogress 1 objects\n", |_| true).unwrap();
    assert_eq!(options.stream, b"# head\nblob\nmark :1\ndata 2\nhi\ndone\n".to_vec());
    assert_eq!(options.branch, Some("topic".to_string()));
    assert_eq!(options.with_blobs, true);
    assert_eq!(options.num_threads, Some(3));
}

#[test]
fn dropped_object_leaves_no_trace() {
    let export = sample_export();
    let mut all = FilterOptions::default();
    filter_with_cb(&mut all, &export, |_| true).unwrap();
    let mut none = FilterOptions::default();
    filter_with_cb(&mut none, &export, |_| false).unwrap();
    assert_eq!(none.stream, b"done\n".to_vec());
    // the export without its second object, renumbered
    let without_second = String::from_utf8(export.clone())
        .unwrap()
        .replace("commit refs/heads/master\nmark :2\noriginal-oid 1111111111111111111111111111111111111111\nauthor jerry <jerry@email.com> 1548162900 -0800\ncommitter jerry <jerry@email.com> 1548162900 -0800\ndata 7\nby jerr\nfrom :1\nD lib/rust/.gitignore\n\nprogress 2 objects\n", "")
        .replace("progress 3 objects", "progress 2 objects");
    let mut expected = FilterOptions::default();
    filter_with_cb(&mut expected, without_second.as_bytes(), |_| true).unwrap();
    let mut dropped = FilterOptions::default();
    let mut seen = 0;
    filter_with_cb(&mut dropped, &export, |_| {
        seen += 1;
        seen != 2
    })
    .unwrap();
    assert_eq!(dropped.stream, expected.stream);
    assert_ne!(dropped.stream, all.stream);
}

#[test]
fn single_object_is_written_as_the_callback_left_it() {
    let mut obj = StructuredExportObject {
        has_reset: None,
        has_reset_from: None,
        has_feature_done: false,
        object_type: StructuredObjectType::Blob(StructuredBlobObject {
            mark: Some(b":1".to_vec()),
            oid: None,
            data: b"x".to_vec(),
        }),
    };
    let mut out = Vec::new();
    let mut rename = |o: &mut StructuredExportObject| {
        o.has_feature_done = true;
        true
    };
    assert!(filter_object(&mut out, &mut obj, &mut rename));
    assert!(obj.has_feature_done);
    assert_eq!(out, b"feature done\nblob\nmark :1\ndata 1\nx\n".to_vec());
    let mut drop_all = |_: &mut StructuredExportObject| false;
    assert!(!filter_object(&mut out, &mut obj, &mut drop_all));
    assert_eq!(out, b"feature done\nblob\nmark :1\ndata 1\nx\n".to_vec());
}

#[test]
fn error_in_the_export_ends_filtering_without_done() {
    let mut options = FilterOptions::default();
    let r = filter_with_cb(
        &mut options,
        b"blob\nmark :1\ndata 2\nhi\nprogress 1 objects\nblob\ndata 9\nshort",
        |_| true,
    );
    assert_eq!(r, Err(StreamError::Framing(FramingError::ShortPayload)));
    assert_eq!(options.stream, b"blob\nmark :1\ndata 2\nhi\n".to_vec());
    let mut options = FilterOptions::default();
    let r = filter_with_rules(
        &mut options,
        Vec::new(),
        b"blob\nmark :1\ndata 2\nhi\nprogress 1 objects\nblob\nbogus\ndata 0\n\nprogress 2 objects\n",
    );
    assert_eq!(r, Err(StreamError::Parse(ParseError::UnknownKeyword)));
    assert_eq!(options.stream, b"blob\nmark :1\ndata 2\nhi\n".to_vec());
}

#[test]
fn rules_take_nothing_out() {
    let rules = vec![
        FilterRule::FilterRulePathInclude("lib".to_string()),
        FilterRule::FilterRulePathExclude("lib/rust".to_string()),
    ];
    let mut with_rules = FilterOptions::default();
    filter_with_rules(&mut with_rules, rules, &sample_export()).unwrap();
    let mut without = FilterOptions::default();
    filter_with_cb(&mut without, &sample_export(), |_| true).unwrap();
    assert_eq!(with_rules.stream, without.stream);
}
