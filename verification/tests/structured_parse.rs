use gitfilter::export_parser::structured_parse::person_from_captures;
use gitfilter::export_parser::{
    get_regex_authorline, get_regex_filecopyline, get_regex_filedeleteline,
    get_regex_filemodifyline, get_regex_filerenameline, get_regex_notemodifyline,
    parse_after_data, parse_after_data_line, parse_before_data, parse_before_data_line,
    parse_filecopy_line, parse_filedelete_line, parse_filemodify_line, parse_filerename_line,
    parse_into_structured_object, parse_next_word, parse_next_word2, parse_notemodify_line,
    repeats_reset, set_object_property, AfterDataObject, AfterDataParserMode, BeforeDataObject,
    BeforeDataParserMode, BlobObject, CommitObject, FileOps, NextWordType, ObjectType, ParseError,
    StructuredBlobObject, StructuredObjectType,
};
use gitfilter::text::Words;

#[test]
fn before_data_object_works1() {
    let test_str = r#"
feature done
reset refs/heads/master
commit refs/heads/master
mark :1
original-oid 0c0dffba54e509a82483be2f78bf09451d03babb
author Bryan Bryan <bb@email.com> 1548162866 -0800
committer Bryan Bryan <bb@email.com> 1548162866 -0800
data 12"#;

    let test_string = String::from(test_str);
    let before_obj = parse_before_data(test_string.as_bytes()).unwrap();

    assert_eq!(before_obj.has_feature_done, true);
    assert_eq!(before_obj.has_reset, Some(b"refs/heads/master".to_vec()));
    assert_eq!(before_obj.data, b"12".to_vec());
    let obj = if let ObjectType::Commit(c) = before_obj.object {
        c
    } else {
        panic!("expected commit object")
    };
    assert_eq!(obj.committer.name, Some(b"Bryan Bryan".to_vec()));
    assert_eq!(obj.committer.email, b"bb@email.com".to_vec());
    assert_eq!(obj.author.timestr, b"1548162866 -0800".to_vec());
}

#[test]
fn regex_author_capture_works() {
    let sample1 = "author Bryan Bryan <bb@email.com> 1548162866 -0800";
    let captures = get_regex_authorline(sample1.as_bytes()).unwrap();
    assert_eq!(captures.get(1).unwrap().as_slice(), b"Bryan Bryan");
    assert_eq!(captures.get(2).unwrap().as_slice(), b"bb@email.com");
    assert_eq!(captures.get(3).unwrap().as_slice(), b"1548162866 -0800");

    // it also works if the starting word is committer
    // and the name can be optional
    let sample2 = "committer <bb@email.com> 1548162866 -0800";
    let captures = get_regex_authorline(sample2.as_bytes()).unwrap();
    assert_eq!(captures.get(1).unwrap().as_slice(), b"");
    assert_eq!(captures.get(2).unwrap().as_slice(), b"bb@email.com");
    assert_eq!(captures.get(3).unwrap().as_slice(), b"1548162866 -0800");
}

#[test]
fn regex_ilemodify_works() {
    let sample1 = "M 100644 dd82933dd7b005c2b3137ffd8c28710c2ecc1e2a lib/rust/.gitignore";
    let captures = get_regex_filemodifyline(sample1.as_bytes()).unwrap();
    assert_eq!(captures.get(1).unwrap().as_slice(), b"100644");
}

#[test]
fn minimal_commit_parses() {
    let unparsed = gitfilter::UnparsedFastExportObject {
        before_data_str: b"feature done\nreset refs/heads/master\ncommit refs/heads/master\nmark :1\noriginal-oid 0c0dffba54e509a82483be2f78bf09451d03babb\nauthor Bryan Bryan <bb@email.com> 1548162866 -0800\ncommitter Bryan Bryan <bb@email.com> 1548162866 -0800\ndata 12\n".to_vec(),
        data: b"hello commit".to_vec(),
        after_data_str: b"\n".to_vec(),
    };
    let obj = gitfilter::export_parser::parse_into_structured_object(unparsed).unwrap();
    assert_eq!(obj.has_feature_done, true);
    assert_eq!(obj.has_reset, Some(b"refs/heads/master".to_vec()));
    assert_eq!(obj.has_reset_from, None);
    let commit = match obj.object_type {
        gitfilter::export_parser::StructuredObjectType::Commit(c) => c,
        _ => panic!("expected commit object"),
    };
    assert_eq!(commit.commit_ref, b"refs/heads/master".to_vec());
    assert_eq!(commit.mark, Some(b":1".to_vec()));
    assert_eq!(commit.oid, b"0c0dffba54e509a82483be2f78bf09451d03babb".to_vec());
    assert_eq!(commit.committer.name, Some(b"Bryan Bryan".to_vec()));
    assert_eq!(commit.committer.email, b"bb@email.com".to_vec());
    assert_eq!(commit.author.timestr, b"1548162866 -0800".to_vec());
    assert_eq!(commit.commit_message, b"hello commit".to_vec());
    assert_eq!(commit.from, None);
    assert!(commit.merges.is_empty());
    assert!(commit.fileops.is_empty());
}

#[test]
fn anonymous_author_has_no_name() {
    let mut object = gitfilter::export_parser::BeforeDataObject::default();
    let r = gitfilter::export_parser::parse_author_or_committer_line(
        b"committer <bb@email.com> 1548162866 -0800",
        &mut object,
        false,
    );
    assert_eq!(r, Some(()));
    let commit = match object.object {
        ObjectType::Commit(c) => c,
        _ => panic!("expected commit object"),
    };
    assert_eq!(commit.committer.name, None);
    assert_eq!(commit.committer.email, b"bb@email.com".to_vec());
    assert_eq!(commit.committer.timestr, b"1548162866 -0800".to_vec());
    assert_eq!(commit.author, gitfilter::export_parser::CommitPerson::default());
}

#[test]
fn author_line_sets_the_author_only() {
    let mut object = gitfilter::export_parser::BeforeDataObject::default();
    let r = gitfilter::export_parser::parse_author_or_committer_line(
        b"author A U Thor <a@example.com> 1 +0000",
        &mut object,
        true,
    );
    assert_eq!(r, Some(()));
    let commit = match object.object {
        ObjectType::Commit(c) => c,
        _ => panic!("expected commit object"),
    };
    assert_eq!(commit.author.name, Some(b"A U Thor".to_vec()));
    assert_eq!(commit.author.email, b"a@example.com".to_vec());
    assert_eq!(commit.author.timestr, b"1 +0000".to_vec());
    assert_eq!(commit.committer, gitfilter::export_parser::CommitPerson::default());
}

#[test]
fn line_that_is_no_author_line_changes_nothing() {
    let mut object = gitfilter::export_parser::BeforeDataObject::default();
    let before = object.clone();
    for line in [&b"author nobody"[..], b"tagger A <a@b> 1 +0000", b"author A <a@b>", b""] {
        assert_eq!(
            gitfilter::export_parser::parse_author_or_committer_line(line, &mut object, true),
            None
        );
        assert_eq!(object, before);
    }
}

#[test]
fn person_is_read_from_groups_one_to_three() {
    let caps = get_regex_authorline(b"author  <> ").unwrap();
    assert_eq!(caps.len(), 4);
    assert_eq!(caps.get(0).unwrap().as_slice(), b"author  <> ");
    assert_eq!(caps.get(4), None);
    let person = person_from_captures(&caps).unwrap();
    assert_eq!(person.name, None);
    assert_eq!(person.email, b"".to_vec());
    assert_eq!(person.timestr, b"".to_vec());
    // a pattern with fewer groups gives no person
    let caps = gitfilter::export_parser::get_regex_filedeleteline(b"D some path").unwrap();
    assert_eq!(caps.len(), 2);
    assert_eq!(person_from_captures(&caps), None);
}

#[test]
fn patterns_do_not_match_other_lines() {
    assert!(get_regex_authorline(b"M 100644 abc path").is_none());
    assert!(get_regex_filemodifyline(b"M abc def path").is_none());
    assert!(get_regex_filemodifyline(b"M 100644 abc").is_none());
    assert!(get_regex_filemodifyline(b" M 100644 abc path").is_none());
    assert!(get_regex_filedeleteline(b"D ").is_none());
    assert!(get_regex_filedeleteline(b"D").is_none());
    assert!(get_regex_filecopyline(b"C one").is_none());
    assert!(get_regex_filerenameline(b"R one").is_none());
    assert!(get_regex_notemodifyline(b"N one").is_none());
    assert!(get_regex_filecopyline(b"R one two").is_none());
}

#[test]
fn file_modify_line_parses() {
    let after = parse_after_data(
        b"M 100644 dd82933dd7b005c2b3137ffd8c28710c2ecc1e2a lib/rust/.gitignore\n",
    )
    .unwrap();
    assert_eq!(
        after.fileops,
        vec![FileOps::FileModify(
            b"100644".to_vec(),
            b"dd82933dd7b005c2b3137ffd8c28710c2ecc1e2a".to_vec(),
            b"lib/rust/.gitignore".to_vec()
        )]
    );
    assert_eq!(after.from, None);
    assert!(after.merges.is_empty());
}

#[test]
fn lines_behind_the_payload_parse_in_order() {
    let after = parse_after_data(
        b"\nfrom :5\nmerge :3\nmerge :4\nM 100755 :9 a path with spaces\nD gone\nC src dst with space\nR old new\ndeleteall\nN :7 :8\nD again\n",
    )
    .unwrap();
    assert_eq!(after.from, Some(b":5".to_vec()));
    assert_eq!(after.merges, vec![b":3".to_vec(), b":4".to_vec()]);
    assert_eq!(
        after.fileops,
        vec![
            FileOps::FileModify(b"100755".to_vec(), b":9".to_vec(), b"a path with spaces".to_vec()),
            FileOps::FileDelete(b"gone".to_vec()),
            FileOps::FileCopy(b"src".to_vec(), b"dst with space".to_vec()),
            FileOps::FileRename(b"old".to_vec(), b"new".to_vec()),
            FileOps::FileDeleteAll,
            FileOps::NoteModify(b":7".to_vec(), b":8".to_vec()),
            FileOps::FileDelete(b"again".to_vec()),
        ]
    );
}

#[test]
fn merge_may_come_without_from() {
    let after = parse_after_data(b"merge :3\nmerge :4\n").unwrap();
    assert_eq!(after.from, None);
    assert_eq!(after.merges, vec![b":3".to_vec(), b":4".to_vec()]);
}

#[test]
fn lines_behind_the_payload_out_of_order_are_errors() {
    assert_eq!(parse_after_data(b"from :1\nfrom :2\n"), Err(ParseError::UnknownKeyword));
    assert_eq!(parse_after_data(b"merge :1\nfrom :2\n"), Err(ParseError::UnknownKeyword));
    assert_eq!(parse_after_data(b"D x\nmerge :2\n"), Err(ParseError::UnknownKeyword));
    assert_eq!(parse_after_data(b"D x\nfrom :2\n"), Err(ParseError::UnknownKeyword));
    assert_eq!(parse_after_data(b"from :1\nwhatever\n"), Err(ParseError::UnknownKeyword));
    assert_eq!(parse_after_data(b"deleteall\nX y\n"), Err(ParseError::UnknownKeyword));
}

#[test]
fn malformed_lines_behind_the_payload_are_errors() {
    assert_eq!(parse_after_data(b"from\n"), Err(ParseError::MalformedLine));
    assert_eq!(parse_after_data(b"merge \n"), Err(ParseError::MalformedLine));
    assert_eq!(parse_after_data(b"M 100644 abc\n"), Err(ParseError::MalformedLine));
    assert_eq!(parse_after_data(b"M mode abc path\n"), Err(ParseError::MalformedLine));
    assert_eq!(parse_after_data(b"D\n"), Err(ParseError::MalformedLine));
    assert_eq!(parse_after_data(b"C one\n"), Err(ParseError::MalformedLine));
    assert_eq!(parse_after_data(b"R one\n"), Err(ParseError::MalformedLine));
    assert_eq!(parse_after_data(b"N one\n"), Err(ParseError::MalformedLine));
    assert_eq!(parse_after_data(b" D path\n"), Err(ParseError::MalformedLine));
}

#[test]
fn unknown_word_ahead_of_the_first_command_is_passed_over() {
    assert_eq!(parse_after_data(b"whatever this is\n\n  \n"), Ok(AfterDataObject::default()));
    assert_eq!(parse_after_data(b""), Ok(AfterDataObject::default()));
    let after = parse_after_data(b"whatever\nfrom :1\n").unwrap();
    assert_eq!(after.from, Some(b":1".to_vec()));
}

#[test]
fn after_data_line_moves_through_the_modes() {
    let mut mode = AfterDataParserMode::Initial;
    let mut object = AfterDataObject::default();
    assert_eq!(parse_after_data_line(b"", &mut mode, &mut object), Ok(()));
    assert_eq!(mode, AfterDataParserMode::Initial);
    assert_eq!(parse_after_data_line(b"from :1", &mut mode, &mut object), Ok(()));
    assert_eq!(mode, AfterDataParserMode::AfterFrom);
    assert_eq!(parse_after_data_line(b"merge :2", &mut mode, &mut object), Ok(()));
    assert_eq!(mode, AfterDataParserMode::AfterFrom);
    assert_eq!(parse_after_data_line(b"deleteall", &mut mode, &mut object), Ok(()));
    assert_eq!(mode, AfterDataParserMode::AfterMerge);
    let before = object.clone();
    assert_eq!(
        parse_after_data_line(b"merge :3", &mut mode, &mut object),
        Err(ParseError::UnknownKeyword)
    );
    assert_eq!(mode, AfterDataParserMode::AfterMerge);
    assert_eq!(object, before);
}

#[test]
fn file_line_functions_add_one_operation_each() {
    let mut mode = AfterDataParserMode::Initial;
    let mut object = AfterDataObject::default();
    assert_eq!(parse_filemodify_line(b"M 100644 :1 p", &mut object, &mut mode), Some(()));
    assert_eq!(mode, AfterDataParserMode::AfterMerge);
    assert_eq!(parse_filedelete_line(b"D p", &mut object, &mut mode), Some(()));
    assert_eq!(parse_filecopy_line(b"C a b", &mut object, &mut mode), Some(()));
    assert_eq!(parse_filerename_line(b"R a b", &mut object, &mut mode), Some(()));
    assert_eq!(parse_notemodify_line(b"N :1 :2", &mut object, &mut mode), Some(()));
    assert_eq!(
        object.fileops,
        vec![
            FileOps::FileModify(b"100644".to_vec(), b":1".to_vec(), b"p".to_vec()),
            FileOps::FileDelete(b"p".to_vec()),
            FileOps::FileCopy(b"a".to_vec(), b"b".to_vec()),
            FileOps::FileRename(b"a".to_vec(), b"b".to_vec()),
            FileOps::NoteModify(b":1".to_vec(), b":2".to_vec()),
        ]
    );
    let mut mode = AfterDataParserMode::AfterFrom;
    let before = object.clone();
    assert_eq!(parse_filemodify_line(b"D p", &mut object, &mut mode), None);
    assert_eq!(parse_filedelete_line(b"M 1 2 3", &mut object, &mut mode), None);
    assert_eq!(mode, AfterDataParserMode::AfterFrom);
    assert_eq!(object, before);
}

#[test]
fn blob_header_parses() {
    let before = parse_before_data(b"blob\nmark :7\noriginal-oid abcdef\ndata 3\n").unwrap();
    assert_eq!(
        before.object,
        ObjectType::Blob(BlobObject { mark: Some(b":7".to_vec()), oid: Some(b"abcdef".to_vec()) })
    );
    assert_eq!(before.data, b"3".to_vec());
    assert_eq!(before.has_reset, None);
    assert_eq!(before.has_feature_done, false);
}

#[test]
fn blob_becomes_a_structured_blob() {
    let unparsed = gitfilter::UnparsedFastExportObject {
        before_data_str: b"blob\nmark :7\ndata 3\n".to_vec(),
        data: b"\x00\x01\x02".to_vec(),
        after_data_str: b"\n".to_vec(),
    };
    let obj = parse_into_structured_object(unparsed).unwrap();
    assert_eq!(
        obj.object_type,
        StructuredObjectType::Blob(StructuredBlobObject {
            mark: Some(b":7".to_vec()),
            oid: None,
            data: b"\x00\x01\x02".to_vec()
        })
    );
}

#[test]
fn reset_may_carry_a_from() {
    let before =
        parse_before_data(b"reset refs/heads/topic\nfrom :12\ncommit refs/heads/topic\nmark :13\ndata 0\n")
            .unwrap();
    assert_eq!(before.has_reset, Some(b"refs/heads/topic".to_vec()));
    assert_eq!(before.has_reset_from, Some(b":12".to_vec()));
    let commit = match before.object {
        ObjectType::Commit(c) => c,
        _ => panic!("expected commit object"),
    };
    assert_eq!(commit.refname, b"refs/heads/topic".to_vec());
    assert_eq!(commit.mark, Some(b":13".to_vec()));
}

#[test]
fn header_without_object_line_is_an_empty_commit() {
    assert_eq!(parse_before_data(b""), Ok(BeforeDataObject::default()));
    assert_eq!(parse_before_data(b"done\nsomething else\n\n"), Ok(BeforeDataObject::default()));
    assert_eq!(BeforeDataObject::default().object, ObjectType::Commit(CommitObject::default()));
    // ahead of the object line these are not commands
    assert_eq!(parse_before_data(b"mark :1\ndata 5\n"), Ok(BeforeDataObject::default()));
}

#[test]
fn encoding_line_is_passed_over() {
    let before = parse_before_data(b"commit refs/heads/x\nencoding iso-8859-7\nmark :2\n").unwrap();
    let commit = match before.object {
        ObjectType::Commit(c) => c,
        _ => panic!("expected commit object"),
    };
    assert_eq!(commit.mark, Some(b":2".to_vec()));
}

#[test]
fn unknown_word_in_an_object_is_an_error() {
    assert_eq!(parse_before_data(b"commit refs/heads/x\ntagger x\n"), Err(ParseError::UnknownKeyword));
    assert_eq!(parse_before_data(b"blob\nfeature done\n"), Err(ParseError::UnknownKeyword));
    assert_eq!(parse_before_data(b"reset refs/heads/x\nmark :1\n"), Err(ParseError::UnknownKeyword));
    assert_eq!(parse_before_data(b"commit refs/heads/x\ncommit refs/heads/y\n"), Err(ParseError::UnknownKeyword));
}

#[test]
fn malformed_header_line_is_an_error() {
    assert_eq!(parse_before_data(b"commit\n"), Err(ParseError::MalformedLine));
    assert_eq!(parse_before_data(b"reset\n"), Err(ParseError::MalformedLine));
    assert_eq!(parse_before_data(b"reset refs/heads/x\nfrom\n"), Err(ParseError::MalformedLine));
    assert_eq!(parse_before_data(b"commit refs/heads/x\nmark\n"), Err(ParseError::MalformedLine));
    assert_eq!(parse_before_data(b"commit refs/heads/x\noriginal-oid \n"), Err(ParseError::MalformedLine));
    assert_eq!(parse_before_data(b"commit refs/heads/x\ndata\n"), Err(ParseError::MalformedLine));
    assert_eq!(parse_before_data(b"commit refs/heads/x\nauthor nobody\n"), Err(ParseError::MalformedLine));
    assert_eq!(parse_before_data(b"commit refs/heads/x\ncommitter a@b 1 +0\n"), Err(ParseError::MalformedLine));
}

#[test]
fn header_error_comes_before_an_error_behind_the_payload() {
    let unparsed = gitfilter::UnparsedFastExportObject {
        before_data_str: b"commit refs/heads/x\nbogus\n".to_vec(),
        data: vec![],
        after_data_str: b"from\n".to_vec(),
    };
    assert_eq!(parse_into_structured_object(unparsed), Err(ParseError::UnknownKeyword));
    let unparsed = gitfilter::UnparsedFastExportObject {
        before_data_str: b"commit refs/heads/x\n".to_vec(),
        data: vec![],
        after_data_str: b"from\n".to_vec(),
    };
    assert_eq!(parse_into_structured_object(unparsed), Err(ParseError::MalformedLine));
}

#[test]
fn before_data_line_moves_through_the_modes() {
    let mut mode = BeforeDataParserMode::Initial;
    let mut object = BeforeDataObject::default();
    assert_eq!(parse_before_data_line(b"feature done", &mut mode, &mut object), Ok(()));
    assert_eq!(mode, BeforeDataParserMode::Initial);
    assert!(object.has_feature_done);
    assert_eq!(parse_before_data_line(b"reset refs/heads/a", &mut mode, &mut object), Ok(()));
    assert_eq!(mode, BeforeDataParserMode::Reset);
    assert_eq!(parse_before_data_line(b"from :1", &mut mode, &mut object), Ok(()));
    assert_eq!(mode, BeforeDataParserMode::Initial);
    assert_eq!(parse_before_data_line(b"commit refs/heads/a", &mut mode, &mut object), Ok(()));
    assert_eq!(mode, BeforeDataParserMode::Commit);
    let before = object.clone();
    assert_eq!(
        parse_before_data_line(b"reset refs/heads/b", &mut mode, &mut object),
        Err(ParseError::UnknownKeyword)
    );
    assert_eq!(mode, BeforeDataParserMode::Commit);
    assert_eq!(object, before);
}

#[test]
fn next_word_goes_where_its_kind_says() {
    let mut object = BeforeDataObject::default();
    let mut mode = BeforeDataParserMode::Commit;
    let mut words = Words::new(b"one two three four");
    assert_eq!(parse_next_word(&mut words, &mut object, NextWordType::Oid, &mut mode), Some(()));
    assert_eq!(parse_next_word(&mut words, &mut object, NextWordType::Mark, &mut mode), Some(()));
    assert_eq!(parse_next_word(&mut words, &mut object, NextWordType::Data, &mut mode), Some(()));
    assert_eq!(parse_next_word(&mut words, &mut object, NextWordType::Merge, &mut mode), Some(()));
    assert_eq!(parse_next_word(&mut words, &mut object, NextWordType::Mark, &mut mode), None);
    assert_eq!(mode, BeforeDataParserMode::Commit);
    assert_eq!(object.data, b"three".to_vec());
    match &object.object {
        ObjectType::Commit(c) => {
            assert_eq!(c.oid, b"one".to_vec());
            assert_eq!(c.mark, Some(b"two".to_vec()));
        }
        _ => panic!("expected commit object"),
    }
    object.object = ObjectType::Blob(BlobObject::default());
    set_object_property(b":4", &mut object, NextWordType::Mark);
    set_object_property(b"abc", &mut object, NextWordType::Oid);
    set_object_property(b"nothing", &mut object, NextWordType::CommitRef);
    assert_eq!(
        object.object,
        ObjectType::Blob(BlobObject { mark: Some(b":4".to_vec()), oid: Some(b"abc".to_vec()) })
    );

    let mut after = AfterDataObject::default();
    let mut mode = AfterDataParserMode::Initial;
    let mut words = Words::new(b":1 :2 :3");
    assert_eq!(parse_next_word2(&mut words, &mut after, NextWordType::Mark, &mut mode), Some(()));
    assert_eq!(mode, AfterDataParserMode::Initial);
    assert_eq!(after, AfterDataObject::default());
    assert_eq!(parse_next_word2(&mut words, &mut after, NextWordType::From, &mut mode), Some(()));
    assert_eq!(mode, AfterDataParserMode::AfterFrom);
    assert_eq!(parse_next_word2(&mut words, &mut after, NextWordType::Merge, &mut mode), Some(()));
    assert_eq!(parse_next_word2(&mut words, &mut after, NextWordType::Merge, &mut mode), None);
    assert_eq!(after.from, Some(b":2".to_vec()));
    assert_eq!(after.merges, vec![b":3".to_vec()]);
}

#[test]
fn second_reset_ahead_of_one_object_is_told() {
    assert!(repeats_reset(b"reset refs/heads/a\nfrom :1\nreset refs/heads/b\ncommit refs/heads/b\n"));
    assert!(repeats_reset(b"reset refs/heads/a\nfrom :1\nfeature done\n\nreset refs/heads/b\n"));
    assert!(!repeats_reset(b"reset refs/heads/a\nfrom :1\ncommit refs/heads/b\n"));
    assert!(!repeats_reset(b"reset refs/heads/a\ncommit refs/heads/b\nmark :1\n"));
    assert!(!repeats_reset(b"reset refs/heads/a\nreset refs/heads/b\n"));
    assert!(!repeats_reset(b"reset refs/heads/a\nfrom :1\nreset\n"));
    assert!(!repeats_reset(b"commit refs/heads/b\nreset refs/heads/a\nreset refs/heads/a\n"));
    assert!(!repeats_reset(b""));
}
