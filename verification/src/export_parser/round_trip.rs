//! Writing and reading back: what the serializer writes for an object is
//! parsed into that object again.
//!
//! The lines of authors, committers and file operations are read with
//! patterns, and what a pattern makes of a line is not known here.  The
//! round trip is therefore stated for the objects whose lines of these
//! kinds the patterns read back as they were written: see [`reads_back`].

use vstd::prelude::*;
use vstd::string::*;

use crate::{progress_marker, Frame, ParseState};

use crate::export_parser::serialize::{
    blob_head, command, commit_head, fileop_line, header_lines, join, lemma_join_add,
    lemma_join_one, optional, payload, person_line, person_lines, prelude_lines, serialized,
    trailer_lines, unparsed_of,
};
use crate::export_parser::structured_parse::{
    after_data_from, after_data_of, after_line, assembled, before_data_from, before_data_of,
    before_line, before_person, fileop_of, person_of, regex_captures, structured_of, AfterData,
    AfterDataParserMode, BeforeData, BeforeDataParserMode, Blob, BlobHeader, Commit, CommitHeader,
    FileLine, FileOp, NextWordType, ObjectBody, ObjectHeader, ParseError, PersonView, Structured,
    Text, AUTHOR_LINE,
};
use crate::export_parser::{parsed_until_error, stream_objects, StreamError};
use crate::framer::{emitted, stream_frames, FramingError, ReaderView};
use crate::text::{
    ascii, decimal, decimal_usize, is_digit, is_space, lemma_decimal_reads_back, lemma_scan_to,
    lemma_scan_to_is, next_line, next_word, scan_to, stops, Stop, CARRIAGE_RETURN, NEWLINE, SPACE,
};

verus! {

/// A word: one or more bytes, none of them white space.
pub open spec fn word(w: Text) -> bool {
    w.len() > 0 && forall|i: int| 0 <= i < w.len() ==> !is_space(#[trigger] w[i])
}

/// A line as it can stand in a header: without line feed, and not ending
/// in a carriage return.
pub open spec fn plain(line: Text) -> bool {
    &&& forall|i: int| 0 <= i < line.len() ==> #[trigger] line[i] != NEWLINE
    &&& line.len() > 0 ==> line.last() != CARRIAGE_RETURN
}

/// All of `lines` are plain.
pub open spec fn all_plain(lines: Seq<Text>) -> bool {
    forall|i: int| 0 <= i < lines.len() ==> plain(#[trigger] lines[i])
}

/// The lines of an object can stand in an export: they hold no line feed
/// and do not end in a carriage return.
pub open spec fn writes_plain(obj: Structured) -> bool {
    all_plain(header_lines(obj)) && all_plain(trailer_lines(obj))
}

/// A plain line that stands in a text at `pos`, followed by a line feed, is
/// the line that is read there.
pub proof fn lemma_line_is_read(text: Seq<u8>, pos: int, line: Text)
    requires
        0 <= pos,
        pos + line.len() < text.len(),
        text.subrange(pos, pos + line.len()) == line,
        text[pos + line.len()] == NEWLINE,
        plain(line),
    ensures
        next_line(text, pos) == (line, pos + line.len() + 1),
{
    let end = pos + line.len();
    assert forall|j: int| pos <= j < end implies !stops(
        Stop::Newline,
        #[trigger] text[j],
    ) by {
        assert(text[j] == line[j - pos]);
    }
    lemma_scan_to_is(text, pos, Stop::Newline, end);
    if line.len() > 0 {
        assert(text[end - 1] == line[line.len() - 1]);
    }
}

/// The first word of a line that opens with a word and a space.
pub proof fn lemma_first_word(first: Text, rest: Text)
    requires
        word(first),
    ensures
        next_word(first + seq![SPACE] + rest, 0) == Some((first, first.len() as int)),
{
    let line = first + seq![SPACE] + rest;
    assert(line[0] == first[0]);
    lemma_scan_to_is(line, 0, Stop::Word, 0);
    assert forall|j: int| 0 <= j < first.len() implies !stops(
        Stop::Space,
        #[trigger] line[j],
    ) by {
        assert(line[j] == first[j]);
    }
    assert(line[first.len() as int] == SPACE);
    lemma_scan_to_is(line, 0, Stop::Space, first.len() as int);
    assert(line.subrange(0, first.len() as int) == first);
}

/// The only word of a line that is one word.
pub proof fn lemma_only_word(first: Text)
    requires
        word(first),
    ensures
        next_word(first, 0) == Some((first, first.len() as int)),
{
    lemma_scan_to_is(first, 0, Stop::Word, 0);
    lemma_scan_to_is(first, 0, Stop::Space, first.len() as int);
    assert(first.subrange(0, first.len() as int) == first);
}

/// The second word of a line made of two words with a space between.
pub proof fn lemma_second_word(first: Text, second: Text)
    requires
        word(first),
        word(second),
    ensures
        next_word(first + seq![SPACE] + second, first.len() as int) == Some(
            (second, (first + seq![SPACE] + second).len() as int),
        ),
{
    let line = first + seq![SPACE] + second;
    let at = first.len() as int;
    assert(line[at] == SPACE);
    assert(line[at + 1] == second[0]);
    lemma_scan_to_is(line, at, Stop::Word, at + 1);
    assert forall|j: int| at + 1 <= j < line.len() implies !stops(
        Stop::Space,
        #[trigger] line[j],
    ) by {
        assert(line[j] == second[j - at - 1]);
    }
    lemma_scan_to_is(line, at + 1, Stop::Space, line.len() as int);
    assert(line.subrange(at + 1, line.len() as int) == second);
}

/// A line made of two words with a space between is plain.
pub proof fn lemma_command_is_plain(first: Text, second: Text)
    requires
        word(first),
        word(second),
    ensures
        plain(first + seq![SPACE] + second),
{
    let line = first + seq![SPACE] + second;
    assert forall|i: int| 0 <= i < line.len() implies #[trigger] line[i] != NEWLINE by {
        if i < first.len() {
            assert(line[i] == first[i]);
        } else if i > first.len() {
            assert(line[i] == second[i - first.len() - 1]);
        }
    }
    assert(line.last() == second[second.len() - 1]);
}

/// A number in decimal is a word.
pub proof fn lemma_decimal_is_word(n: nat)
    ensures
        word(decimal(n)),
{
    lemma_decimal_reads_back(n);
    let d = decimal(n);
    assert forall|i: int| 0 <= i < d.len() implies !is_space(#[trigger] d[i]) by {
        assert(is_digit(d[i]));
    }
}

/// What the header lines `lines`, read one by one, make of a header.
pub open spec fn run_before(lines: Seq<Text>, mode: BeforeDataParserMode, obj: BeforeData) -> Result<
    (BeforeDataParserMode, BeforeData),
    ParseError,
>
    decreases lines.len(),
{
    if lines.len() == 0 {
        Ok((mode, obj))
    } else {
        match before_line(lines.first(), mode, obj) {
            Ok((m, o)) => run_before(lines.drop_first(), m, o),
            Err(e) => Err(e),
        }
    }
}

/// Reading two runs of header lines is reading the first and then the
/// second.
pub proof fn lemma_run_before_add(
    a: Seq<Text>,
    b: Seq<Text>,
    mode: BeforeDataParserMode,
    obj: BeforeData,
)
    ensures
        run_before(a + b, mode, obj) == match run_before(a, mode, obj) {
            Ok((m, o)) => run_before(b, m, o),
            Err(e) => Err(e),
        },
    decreases a.len(),
{
    if a.len() == 0 {
        assert(a + b == b);
    } else {
        assert((a + b).first() == a.first());
        assert((a + b).drop_first() == a.drop_first() + b);
        if let Ok((m, o)) = before_line(a.first(), mode, obj) {
            lemma_run_before_add(a.drop_first(), b, m, o);
        }
    }
}

/// Parsing a header text made of plain lines is reading its lines one by
/// one.
pub proof fn lemma_before_data_of_lines(
    head: Seq<u8>,
    lines: Seq<Text>,
    mode: BeforeDataParserMode,
    obj: BeforeData,
)
    requires
        all_plain(lines),
    ensures
        before_data_from(head + join(lines), head.len() as int, mode, obj) == match run_before(
            lines,
            mode,
            obj,
        ) {
            Ok((_, o)) => Ok::<BeforeData, ParseError>(o),
            Err(e) => Err(e),
        },
    decreases lines.len(),
{
    let text = head + join(lines);
    if lines.len() == 0 {
        assert(text == head);
    } else {
        let line = lines.first();
        let rest = lines.drop_first();
        let pos = head.len() as int;
        assert(plain(lines[0]));
        assert(text.subrange(pos, pos + line.len()) == line);
        assert(text[pos + line.len()] == NEWLINE);
        lemma_line_is_read(text, pos, line);
        let head2 = head + line + seq![NEWLINE];
        assert(text == head2 + join(rest));
        assert(all_plain(rest)) by {
            assert forall|i: int| 0 <= i < rest.len() implies plain(#[trigger] rest[i]) by {
                assert(rest[i] == lines[i + 1]);
            }
        }
        if let Ok((m, o)) = before_line(line, mode, obj) {
            lemma_before_data_of_lines(head2, rest, m, o);
        }
    }
}

/// What the lines `lines` behind a payload, read one by one, add to the
/// contents.
pub open spec fn run_after(lines: Seq<Text>, mode: AfterDataParserMode, obj: AfterData) -> Result<
    (AfterDataParserMode, AfterData),
    ParseError,
>
    decreases lines.len(),
{
    if lines.len() == 0 {
        Ok((mode, obj))
    } else {
        match after_line(lines.first(), mode, obj) {
            Ok((m, o)) => run_after(lines.drop_first(), m, o),
            Err(e) => Err(e),
        }
    }
}

/// Reading two runs of lines behind a payload is reading the first and
/// then the second.
pub proof fn lemma_run_after_add(
    a: Seq<Text>,
    b: Seq<Text>,
    mode: AfterDataParserMode,
    obj: AfterData,
)
    ensures
        run_after(a + b, mode, obj) == match run_after(a, mode, obj) {
            Ok((m, o)) => run_after(b, m, o),
            Err(e) => Err(e),
        },
    decreases a.len(),
{
    if a.len() == 0 {
        assert(a + b == b);
    } else {
        assert((a + b).first() == a.first());
        assert((a + b).drop_first() == a.drop_first() + b);
        if let Ok((m, o)) = after_line(a.first(), mode, obj) {
            lemma_run_after_add(a.drop_first(), b, m, o);
        }
    }
}

/// Parsing a text made of plain lines behind a payload is reading its
/// lines one by one.
pub proof fn lemma_after_data_of_lines(
    head: Seq<u8>,
    lines: Seq<Text>,
    mode: AfterDataParserMode,
    obj: AfterData,
)
    requires
        all_plain(lines),
    ensures
        after_data_from(head + join(lines), head.len() as int, mode, obj) == match run_after(
            lines,
            mode,
            obj,
        ) {
            Ok((_, o)) => Ok::<AfterData, ParseError>(o),
            Err(e) => Err(e),
        },
    decreases lines.len(),
{
    let text = head + join(lines);
    if lines.len() == 0 {
        assert(text == head);
    } else {
        let line = lines.first();
        let rest = lines.drop_first();
        let pos = head.len() as int;
        assert(plain(lines[0]));
        assert(text.subrange(pos, pos + line.len()) == line);
        assert(text[pos + line.len()] == NEWLINE);
        lemma_line_is_read(text, pos, line);
        let head2 = head + line + seq![NEWLINE];
        assert(text == head2 + join(rest));
        assert(all_plain(rest)) by {
            assert forall|i: int| 0 <= i < rest.len() implies plain(#[trigger] rest[i]) by {
                assert(rest[i] == lines[i + 1]);
            }
        }
        if let Ok((m, o)) = after_line(line, mode, obj) {
            lemma_after_data_of_lines(head2, rest, m, o);
        }
    }
}

/// The command words are words, and no two that can stand at one place are
/// the same.
pub proof fn lemma_command_words()
    ensures
        word(ascii("feature"@)),
        word(ascii("done"@)),
        word(ascii("reset"@)),
        word(ascii("from"@)),
        word(ascii("commit"@)),
        word(ascii("blob"@)),
        word(ascii("mark"@)),
        word(ascii("original-oid"@)),
        word(ascii("author"@)),
        word(ascii("committer"@)),
        word(ascii("data"@)),
        word(ascii("merge"@)),
        word(ascii("M"@)),
        word(ascii("D"@)),
        word(ascii("C"@)),
        word(ascii("R"@)),
        word(ascii("N"@)),
        word(ascii("deleteall"@)),
        ascii("feature"@).len() == 7,
        ascii("reset"@).len() == 5,
        ascii("from"@).len() == 4,
        ascii("commit"@).len() == 6,
        ascii("blob"@).len() == 4,
        ascii("mark"@).len() == 4,
        ascii("original-oid"@).len() == 12,
        ascii("author"@).len() == 6,
        ascii("committer"@).len() == 9,
        ascii("encoding"@).len() == 8,
        ascii("data"@).len() == 4,
        ascii("merge"@).len() == 5,
        ascii("deleteall"@).len() == 9,
        ascii("M"@) == seq![77u8],
        ascii("D"@) == seq![68u8],
        ascii("C"@) == seq![67u8],
        ascii("R"@) == seq![82u8],
        ascii("N"@) == seq![78u8],
        ascii("data"@)[0] == 100u8,
        ascii("mark"@)[0] == 109u8,
{
    reveal_strlit("feature");
    reveal_strlit("done");
    reveal_strlit("reset");
    reveal_strlit("from");
    reveal_strlit("commit");
    reveal_strlit("blob");
    reveal_strlit("mark");
    reveal_strlit("original-oid");
    reveal_strlit("author");
    reveal_strlit("committer");
    reveal_strlit("encoding");
    reveal_strlit("data");
    reveal_strlit("merge");
    reveal_strlit("M");
    reveal_strlit("D");
    reveal_strlit("C");
    reveal_strlit("R");
    reveal_strlit("N");
    reveal_strlit("deleteall");
    assert(ascii("M"@) =~= seq![77u8]);
    assert(ascii("D"@) =~= seq![68u8]);
    assert(ascii("C"@) =~= seq![67u8]);
    assert(ascii("R"@) =~= seq![82u8]);
    assert(ascii("N"@) =~= seq![78u8]);
}

/// A text that may be absent is a word where it is there.
pub open spec fn opt_word(o: Option<Text>) -> bool {
    o matches Some(w) ==> word(w)
}

/// The line of the person reads back: it is plain, and the pattern for
/// such lines finds in it the person that it was written for.
pub open spec fn person_reads_back(role: Seq<char>, p: PersonView) -> bool {
    p != PersonView::empty() ==> {
        &&& plain(person_line(role, p))
        &&& regex_captures(AUTHOR_LINE@, person_line(role, p)) matches Some(g)
        &&& person_of(g) == Some(p)
    }
}

/// The kind of line of a file operation; none for `deleteall`, which has
/// no arguments.
pub open spec fn kind_of(op: FileOp) -> Option<FileLine> {
    match op {
        FileOp::Modify(_, _, _) => Some(FileLine::Modify),
        FileOp::Delete(_) => Some(FileLine::Delete),
        FileOp::Copy(_, _) => Some(FileLine::Copy),
        FileOp::Rename(_, _) => Some(FileLine::Rename),
        FileOp::DeleteAll => None,
        FileOp::NoteModify(_, _) => Some(FileLine::NoteModify),
    }
}

/// The line of the file operation reads back: it is plain, and the pattern
/// for its kind finds in it the operation that it was written for.
pub open spec fn fileop_reads_back(op: FileOp) -> bool {
    match kind_of(op) {
        Some(kind) => {
            &&& plain(fileop_line(op))
            &&& regex_captures(kind.pattern(), fileop_line(op)) matches Some(g)
            &&& fileop_of(kind, g) == Some(op)
        },
        None => true,
    }
}

/// What can be said of an object that was parsed, as far as the parser
/// itself sees to it, together with what is asked of the patterns.
///
/// Refs, marks, ids and commit-ishes are words.  A `from` ahead of the
/// object belongs to a `reset`, and a blob with a `reset` ahead of it has
/// such a `from`.  The lines of author, committer and file operations read
/// back.
pub open spec fn reads_back(obj: Structured) -> bool {
    &&& opt_word(obj.has_reset)
    &&& opt_word(obj.has_reset_from)
    &&& obj.has_reset_from is Some ==> obj.has_reset is Some
    &&& match obj.object_type {
        ObjectBody::Commit(c) => {
            &&& word(c.commit_ref)
            &&& opt_word(c.mark)
            &&& c.oid.len() > 0 ==> word(c.oid)
            &&& person_reads_back("author"@, c.author)
            &&& person_reads_back("committer"@, c.committer)
            &&& opt_word(c.from)
            &&& forall|i: int| 0 <= i < c.merges.len() ==> word(#[trigger] c.merges[i])
            &&& forall|i: int| 0 <= i < c.fileops.len() ==> fileop_reads_back(#[trigger] c.fileops[i])
        },
        ObjectBody::Blob(b) => {
            &&& opt_word(b.mark)
            &&& opt_word(b.oid)
            &&& obj.has_reset is Some ==> obj.has_reset_from is Some
        },
    }
}

/// The parsed header of an object.
pub open spec fn header_of(obj: Structured) -> BeforeData {
    BeforeData {
        has_reset: obj.has_reset,
        has_reset_from: obj.has_reset_from,
        has_feature_done: obj.has_feature_done,
        object: match obj.object_type {
            ObjectBody::Commit(c) => ObjectHeader::Commit(
                CommitHeader {
                    refname: c.commit_ref,
                    mark: c.mark,
                    oid: c.oid,
                    author: c.author,
                    committer: c.committer,
                },
            ),
            ObjectBody::Blob(b) => ObjectHeader::Blob(BlobHeader { mark: b.mark, oid: b.oid }),
        },
        data: decimal(payload(obj).len()),
    }
}

/// The parsed lines behind the payload of an object.
pub open spec fn trailer_of(obj: Structured) -> AfterData {
    match obj.object_type {
        ObjectBody::Commit(c) => AfterData { from: c.from, merges: c.merges, fileops: c.fileops },
        ObjectBody::Blob(_) => AfterData::empty(),
    }
}

proof fn lemma_one_before(
    line: Text,
    mode: BeforeDataParserMode,
    obj: BeforeData,
    mode2: BeforeDataParserMode,
    obj2: BeforeData,
)
    requires
        before_line(line, mode, obj) == Ok::<(BeforeDataParserMode, BeforeData), ParseError>(
            (mode2, obj2),
        ),
    ensures
        run_before(seq![line], mode, obj) == Ok::<(BeforeDataParserMode, BeforeData), ParseError>(
            (mode2, obj2),
        ),
{
    let lines = seq![line];
    assert(lines.first() == line);
    assert(lines.drop_first() == Seq::<Text>::empty());
    assert(run_before(lines.drop_first(), mode2, obj2) == Ok::<
        (BeforeDataParserMode, BeforeData),
        ParseError,
    >((mode2, obj2)));
}

proof fn lemma_none_before(mode: BeforeDataParserMode, obj: BeforeData)
    ensures
        run_before(Seq::empty(), mode, obj) == Ok::<(BeforeDataParserMode, BeforeData), ParseError>(
            (mode, obj),
        ),
{
}

/// What a command line with one argument does to a header, for a command
/// that takes the word behind it.
proof fn lemma_command_before(
    name: Seq<char>,
    argument: Text,
    kind: NextWordType,
    mode: BeforeDataParserMode,
    obj: BeforeData,
)
    requires
        word(argument),
        ({
            ||| (name == "reset"@ && kind is ResetLine && mode is Initial)
            ||| (name == "from"@ && kind is ResetFrom && mode is Reset)
            ||| (name == "commit"@ && kind is CommitRef && !(mode is Commit))
            ||| (name == "mark"@ && kind is Mark && mode is Commit)
            ||| (name == "original-oid"@ && kind is Oid && mode is Commit)
            ||| (name == "data"@ && kind is Data && mode is Commit)
        }),
    ensures
        run_before(seq![command(name, argument)], mode, obj) == Ok::<
            (BeforeDataParserMode, BeforeData),
            ParseError,
        >(obj.with_word(mode, argument, kind)),
        plain(command(name, argument)),
{
    lemma_command_words();
    let line = command(name, argument);
    lemma_first_word(ascii(name), argument);
    lemma_second_word(ascii(name), argument);
    lemma_command_is_plain(ascii(name), argument);
    let (m, o) = obj.with_word(mode, argument, kind);
    assert(before_line(line, mode, obj) == Ok::<(BeforeDataParserMode, BeforeData), ParseError>(
        (m, o),
    ));
    lemma_one_before(line, mode, obj, m, o);
}

/// What the lines ahead of an object make of an empty header.
proof fn lemma_prelude_before(obj: Structured)
    requires
        reads_back(obj),
    ensures
        run_before(prelude_lines(obj), BeforeDataParserMode::Initial, BeforeData::empty()) == Ok::<
            (BeforeDataParserMode, BeforeData),
            ParseError,
        >(
            (
                if obj.has_reset is Some && obj.has_reset_from is None {
                    BeforeDataParserMode::Reset
                } else {
                    BeforeDataParserMode::Initial
                },
                BeforeData {
                    has_reset: obj.has_reset,
                    has_reset_from: obj.has_reset_from,
                    has_feature_done: obj.has_feature_done,
                    ..BeforeData::empty()
                },
            ),
        ),
        all_plain(prelude_lines(obj)),
{
    lemma_command_words();
    let initial = BeforeDataParserMode::Initial;
    let empty = BeforeData::empty();
    let feature = if obj.has_feature_done {
        seq![command("feature"@, ascii("done"@))]
    } else {
        Seq::<Text>::empty()
    };
    let featured = BeforeData { has_feature_done: obj.has_feature_done, ..empty };
    if obj.has_feature_done {
        let line = command("feature"@, ascii("done"@));
        lemma_first_word(ascii("feature"@), ascii("done"@));
        lemma_command_is_plain(ascii("feature"@), ascii("done"@));
        assert(before_line(line, initial, empty) == Ok::<
            (BeforeDataParserMode, BeforeData),
            ParseError,
        >((initial, featured)));
        lemma_one_before(line, initial, empty, initial, featured);
    } else {
        lemma_none_before(initial, empty);
    }
    assert(all_plain(feature));
    match obj.has_reset {
        Some(r) => {
            let reset = seq![command("reset"@, r)];
            let from = optional("from"@, obj.has_reset_from);
            lemma_command_before("reset"@, r, NextWordType::ResetLine, initial, featured);
            let was_reset = BeforeData { has_reset: Some(r), ..featured };
            match obj.has_reset_from {
                Some(f) => {
                    lemma_command_before(
                        "from"@,
                        f,
                        NextWordType::ResetFrom,
                        BeforeDataParserMode::Reset,
                        was_reset,
                    );
                },
                None => {
                    lemma_none_before(BeforeDataParserMode::Reset, was_reset);
                },
            }
            lemma_run_before_add(reset, from, initial, featured);
            lemma_run_before_add(feature, reset + from, initial, empty);
            assert(all_plain(feature + (reset + from)));
        },
        None => {
            assert(feature + Seq::<Text>::empty() == feature);
        },
    }
}

proof fn lemma_all_plain_add(a: Seq<Text>, b: Seq<Text>)
    requires
        all_plain(a),
        all_plain(b),
    ensures
        all_plain(a + b),
{
    assert forall|i: int| 0 <= i < (a + b).len() implies plain(#[trigger] (a + b)[i]) by {
        if i < a.len() {
            assert((a + b)[i] == a[i]);
        } else {
            assert((a + b)[i] == b[i - a.len()]);
        }
    }
}

/// What the line of a person does to the header of a commit.
proof fn lemma_person_before(role: Seq<char>, p: PersonView, is_author: bool, obj: BeforeData)
    requires
        person_reads_back(role, p),
        is_author ==> role == "author"@,
        !is_author ==> role == "committer"@,
        obj.object is Commit,
        (if is_author {
            obj.object->Commit_0.author
        } else {
            obj.object->Commit_0.committer
        }) == PersonView::empty(),
    ensures
        run_before(person_lines(role, p), BeforeDataParserMode::Commit, obj) == Ok::<
            (BeforeDataParserMode, BeforeData),
            ParseError,
        >((BeforeDataParserMode::Commit, obj.with_person(p, is_author))),
        all_plain(person_lines(role, p)),
{
    lemma_command_words();
    let mode = BeforeDataParserMode::Commit;
    if p == PersonView::empty() {
        lemma_none_before(mode, obj);
        assert(obj.with_person(p, is_author) == obj);
    } else {
        let line = person_line(role, p);
        let rest = (match p.name {
            Some(name) => name + seq![SPACE],
            None => Seq::empty(),
        }) + ascii("<"@) + p.email + ascii("> "@) + p.timestr;
        assert(line == ascii(role) + seq![SPACE] + rest);
        lemma_first_word(ascii(role), rest);
        assert(before_person(line, obj, is_author) == Ok::<BeforeData, ParseError>(
            obj.with_person(p, is_author),
        ));
        assert(before_line(line, mode, obj) == Ok::<(BeforeDataParserMode, BeforeData), ParseError>(
            (mode, obj.with_person(p, is_author)),
        ));
        lemma_one_before(line, mode, obj, mode, obj.with_person(p, is_author));
    }
}

/// What the header lines of a commit, from its `commit` line on, make of a
/// header.
proof fn lemma_commit_head_before(c: Commit, mode: BeforeDataParserMode, obj: BeforeData)
    requires
        !(mode is Commit),
        word(c.commit_ref),
        opt_word(c.mark),
        c.oid.len() > 0 ==> word(c.oid),
        person_reads_back("author"@, c.author),
        person_reads_back("committer"@, c.committer),
    ensures
        run_before(commit_head(c), mode, obj) == Ok::<
            (BeforeDataParserMode, BeforeData),
            ParseError,
        >(
            (
                BeforeDataParserMode::Commit,
                BeforeData {
                    object: ObjectHeader::Commit(
                        CommitHeader {
                            refname: c.commit_ref,
                            mark: c.mark,
                            oid: c.oid,
                            author: c.author,
                            committer: c.committer,
                        },
                    ),
                    ..obj
                },
            ),
        ),
        all_plain(commit_head(c)),
{
    let commit = BeforeDataParserMode::Commit;
    let l1 = seq![command("commit"@, c.commit_ref)];
    lemma_command_before("commit"@, c.commit_ref, NextWordType::CommitRef, mode, obj);
    let h1 = CommitHeader { refname: c.commit_ref, ..CommitHeader::empty() };
    let o1 = BeforeData { object: ObjectHeader::Commit(h1), ..obj };
    assert(run_before(l1, mode, obj) == Ok::<(BeforeDataParserMode, BeforeData), ParseError>(
        (commit, o1),
    ));
    // mark
    let l2 = optional("mark"@, c.mark);
    let h2 = CommitHeader { mark: c.mark, ..h1 };
    let o2 = BeforeData { object: ObjectHeader::Commit(h2), ..obj };
    match c.mark {
        Some(m) => {
            lemma_command_before("mark"@, m, NextWordType::Mark, commit, o1);
        },
        None => {
            lemma_none_before(commit, o1);
        },
    }
    assert(run_before(l2, commit, o1) == Ok::<(BeforeDataParserMode, BeforeData), ParseError>(
        (commit, o2),
    ));
    assert(all_plain(l2));
    // original id
    let l3 = if c.oid.len() == 0 {
        Seq::<Text>::empty()
    } else {
        seq![command("original-oid"@, c.oid)]
    };
    let h3 = CommitHeader { oid: c.oid, ..h2 };
    let o3 = BeforeData { object: ObjectHeader::Commit(h3), ..obj };
    if c.oid.len() == 0 {
        lemma_none_before(commit, o2);
        assert(c.oid == Seq::<u8>::empty());
    } else {
        lemma_command_before("original-oid"@, c.oid, NextWordType::Oid, commit, o2);
    }
    assert(run_before(l3, commit, o2) == Ok::<(BeforeDataParserMode, BeforeData), ParseError>(
        (commit, o3),
    ));
    assert(all_plain(l3));
    // author and committer
    let l4 = person_lines("author"@, c.author);
    let h4 = CommitHeader { author: c.author, ..h3 };
    let o4 = BeforeData { object: ObjectHeader::Commit(h4), ..obj };
    lemma_person_before("author"@, c.author, true, o3);
    assert(o3.with_person(c.author, true) == o4);
    let l5 = person_lines("committer"@, c.committer);
    let h5 = CommitHeader { committer: c.committer, ..h4 };
    let o5 = BeforeData { object: ObjectHeader::Commit(h5), ..obj };
    lemma_person_before("committer"@, c.committer, false, o4);
    assert(o4.with_person(c.committer, false) == o5);
    // all together
    lemma_run_before_add(l1, l2, mode, obj);
    lemma_all_plain_add(l1, l2);
    lemma_run_before_add(l1 + l2, l3, mode, obj);
    lemma_all_plain_add(l1 + l2, l3);
    lemma_run_before_add(l1 + l2 + l3, l4, mode, obj);
    lemma_all_plain_add(l1 + l2 + l3, l4);
    lemma_run_before_add(l1 + l2 + l3 + l4, l5, mode, obj);
    lemma_all_plain_add(l1 + l2 + l3 + l4, l5);
}

/// What the header lines of a blob, from its `blob` line on, make of a
/// header.
proof fn lemma_blob_head_before(b: Blob, obj: BeforeData)
    requires
        opt_word(b.mark),
        opt_word(b.oid),
    ensures
        run_before(blob_head(b), BeforeDataParserMode::Initial, obj) == Ok::<
            (BeforeDataParserMode, BeforeData),
            ParseError,
        >(
            (
                BeforeDataParserMode::Commit,
                BeforeData {
                    object: ObjectHeader::Blob(BlobHeader { mark: b.mark, oid: b.oid }),
                    ..obj
                },
            ),
        ),
        all_plain(blob_head(b)),
{
    lemma_command_words();
    let initial = BeforeDataParserMode::Initial;
    let commit = BeforeDataParserMode::Commit;
    let line = ascii("blob"@);
    let l1 = seq![line];
    let o1 = BeforeData { object: ObjectHeader::Blob(BlobHeader::empty()), ..obj };
    lemma_only_word(line);
    assert(before_line(line, initial, obj) == Ok::<(BeforeDataParserMode, BeforeData), ParseError>(
        (commit, o1),
    ));
    lemma_one_before(line, initial, obj, commit, o1);
    assert(plain(line));
    assert(all_plain(l1));
    let l2 = optional("mark"@, b.mark);
    let o2 = BeforeData {
        object: ObjectHeader::Blob(BlobHeader { mark: b.mark, oid: None }),
        ..obj
    };
    match b.mark {
        Some(m) => {
            lemma_command_before("mark"@, m, NextWordType::Mark, commit, o1);
        },
        None => {
            lemma_none_before(commit, o1);
        },
    }
    assert(run_before(l2, commit, o1) == Ok::<(BeforeDataParserMode, BeforeData), ParseError>(
        (commit, o2),
    ));
    assert(all_plain(l2));
    let l3 = optional("original-oid"@, b.oid);
    let o3 = BeforeData {
        object: ObjectHeader::Blob(BlobHeader { mark: b.mark, oid: b.oid }),
        ..obj
    };
    match b.oid {
        Some(id) => {
            lemma_command_before("original-oid"@, id, NextWordType::Oid, commit, o2);
        },
        None => {
            lemma_none_before(commit, o2);
        },
    }
    assert(run_before(l3, commit, o2) == Ok::<(BeforeDataParserMode, BeforeData), ParseError>(
        (commit, o3),
    ));
    assert(all_plain(l3));
    lemma_run_before_add(l1, l2, initial, obj);
    lemma_all_plain_add(l1, l2);
    lemma_run_before_add(l1 + l2, l3, initial, obj);
    lemma_all_plain_add(l1 + l2, l3);
}

/// The header that was written for an object is parsed into the header of
/// the object.
pub proof fn lemma_header_reads_back(obj: Structured)
    requires
        reads_back(obj),
    ensures
        before_data_of(unparsed_of(obj).before) == Ok::<BeforeData, ParseError>(header_of(obj)),
        all_plain(header_lines(obj)),
{
    let initial = BeforeDataParserMode::Initial;
    let commit = BeforeDataParserMode::Commit;
    let empty = BeforeData::empty();
    lemma_prelude_before(obj);
    let prelude = prelude_lines(obj);
    let mode1 = if obj.has_reset is Some && obj.has_reset_from is None {
        BeforeDataParserMode::Reset
    } else {
        initial
    };
    let o1 = BeforeData {
        has_reset: obj.has_reset,
        has_reset_from: obj.has_reset_from,
        has_feature_done: obj.has_feature_done,
        ..empty
    };
    let head = match obj.object_type {
        ObjectBody::Commit(c) => commit_head(c),
        ObjectBody::Blob(b) => blob_head(b),
    };
    let o2 = BeforeData { object: header_of(obj).object, ..o1 };
    match obj.object_type {
        ObjectBody::Commit(c) => {
            lemma_commit_head_before(c, mode1, o1);
        },
        ObjectBody::Blob(b) => {
            lemma_blob_head_before(b, o1);
        },
    }
    assert(run_before(head, mode1, o1) == Ok::<(BeforeDataParserMode, BeforeData), ParseError>(
        (commit, o2),
    ));
    let length = decimal(payload(obj).len());
    lemma_decimal_is_word(payload(obj).len());
    let data = seq![command("data"@, length)];
    lemma_command_before("data"@, length, NextWordType::Data, commit, o2);
    assert(all_plain(data));
    assert(BeforeData { data: length, ..o2 } == header_of(obj));
    lemma_run_before_add(prelude, head, initial, empty);
    lemma_all_plain_add(prelude, head);
    lemma_run_before_add(prelude + head, data, initial, empty);
    lemma_all_plain_add(prelude + head, data);
    let lines = header_lines(obj);
    assert(lines == prelude + head + data);
    lemma_before_data_of_lines(Seq::empty(), lines, initial, empty);
    assert(Seq::<u8>::empty() + join(lines) == join(lines));
}

proof fn lemma_one_after(
    line: Text,
    mode: AfterDataParserMode,
    obj: AfterData,
    mode2: AfterDataParserMode,
    obj2: AfterData,
)
    requires
        after_line(line, mode, obj) == Ok::<(AfterDataParserMode, AfterData), ParseError>(
            (mode2, obj2),
        ),
    ensures
        run_after(seq![line], mode, obj) == Ok::<(AfterDataParserMode, AfterData), ParseError>(
            (mode2, obj2),
        ),
{
    let lines = seq![line];
    assert(lines.first() == line);
    assert(lines.drop_first() == Seq::<Text>::empty());
    assert(run_after(lines.drop_first(), mode2, obj2) == Ok::<
        (AfterDataParserMode, AfterData),
        ParseError,
    >((mode2, obj2)));
}

/// The lines of merges.
pub open spec fn merge_lines(merges: Seq<Text>) -> Seq<Text> {
    merges.map_values(|m: Text| command("merge"@, m))
}

/// The lines of file operations.
pub open spec fn fileop_lines(ops: Seq<FileOp>) -> Seq<Text> {
    ops.map_values(|op: FileOp| fileop_line(op))
}

/// What `merge` lines add to the contents.
proof fn lemma_merges_after(merges: Seq<Text>, mode: AfterDataParserMode, obj: AfterData)
    requires
        !(mode is AfterMerge),
        forall|i: int| 0 <= i < merges.len() ==> word(#[trigger] merges[i]),
    ensures
        run_after(merge_lines(merges), mode, obj) == Ok::<
            (AfterDataParserMode, AfterData),
            ParseError,
        >(
            (
                if merges.len() > 0 {
                    AfterDataParserMode::AfterFrom
                } else {
                    mode
                },
                AfterData { merges: obj.merges + merges, ..obj },
            ),
        ),
        all_plain(merge_lines(merges)),
    decreases merges.len(),
{
    lemma_command_words();
    let lines = merge_lines(merges);
    if merges.len() == 0 {
        assert(obj.merges + merges == obj.merges);
    } else {
        let m = merges.first();
        let line = command("merge"@, m);
        assert(lines.first() == line);
        assert(lines.drop_first() == merge_lines(merges.drop_first()));
        assert(word(merges[0]));
        lemma_first_word(ascii("merge"@), m);
        lemma_second_word(ascii("merge"@), m);
        lemma_command_is_plain(ascii("merge"@), m);
        let next = AfterData { merges: obj.merges.push(m), ..obj };
        assert(after_line(line, mode, obj) == Ok::<(AfterDataParserMode, AfterData), ParseError>(
            (AfterDataParserMode::AfterFrom, next),
        ));
        assert forall|i: int| 0 <= i < merges.drop_first().len() implies word(
            #[trigger] merges.drop_first()[i],
        ) by {
            assert(merges.drop_first()[i] == merges[i + 1]);
        }
        lemma_merges_after(merges.drop_first(), AfterDataParserMode::AfterFrom, next);
        assert(next.merges + merges.drop_first() == obj.merges + merges);
        assert forall|i: int| 0 <= i < lines.len() implies plain(#[trigger] lines[i]) by {
            if i > 0 {
                assert(lines[i] == lines.drop_first()[i - 1]);
            }
        }
    }
}

/// What the line of one file operation adds to the contents.
proof fn lemma_fileop_after(op: FileOp, mode: AfterDataParserMode, obj: AfterData)
    requires
        fileop_reads_back(op),
    ensures
        after_line(fileop_line(op), mode, obj) == Ok::<
            (AfterDataParserMode, AfterData),
            ParseError,
        >((AfterDataParserMode::AfterMerge, obj.with_fileop(op))),
        plain(fileop_line(op)),
{
    lemma_command_words();
    let line = fileop_line(op);
    match op {
        FileOp::Modify(mode_text, dataref, path) => {
            let rest = mode_text + seq![SPACE] + dataref + seq![SPACE] + path;
            assert(line == ascii("M"@) + seq![SPACE] + rest);
            lemma_first_word(ascii("M"@), rest);
        },
        FileOp::Delete(path) => {
            lemma_first_word(ascii("D"@), path);
        },
        FileOp::Copy(src, dst) => {
            let rest = src + seq![SPACE] + dst;
            assert(line == ascii("C"@) + seq![SPACE] + rest);
            lemma_first_word(ascii("C"@), rest);
        },
        FileOp::Rename(src, dst) => {
            let rest = src + seq![SPACE] + dst;
            assert(line == ascii("R"@) + seq![SPACE] + rest);
            lemma_first_word(ascii("R"@), rest);
        },
        FileOp::DeleteAll => {
            lemma_only_word(ascii("deleteall"@));
            assert(plain(line));
        },
        FileOp::NoteModify(dataref, commitish) => {
            let rest = dataref + seq![SPACE] + commitish;
            assert(line == ascii("N"@) + seq![SPACE] + rest);
            lemma_first_word(ascii("N"@), rest);
        },
    }
}

/// What the lines of file operations add to the contents.
proof fn lemma_fileops_after(ops: Seq<FileOp>, mode: AfterDataParserMode, obj: AfterData)
    requires
        forall|i: int| 0 <= i < ops.len() ==> fileop_reads_back(#[trigger] ops[i]),
    ensures
        run_after(fileop_lines(ops), mode, obj) == Ok::<
            (AfterDataParserMode, AfterData),
            ParseError,
        >(
            (
                if ops.len() > 0 {
                    AfterDataParserMode::AfterMerge
                } else {
                    mode
                },
                AfterData { fileops: obj.fileops + ops, ..obj },
            ),
        ),
        all_plain(fileop_lines(ops)),
    decreases ops.len(),
{
    let lines = fileop_lines(ops);
    if ops.len() == 0 {
        assert(obj.fileops + ops == obj.fileops);
    } else {
        let op = ops.first();
        let line = fileop_line(op);
        assert(lines.first() == line);
        assert(lines.drop_first() == fileop_lines(ops.drop_first()));
        assert(fileop_reads_back(ops[0]));
        lemma_fileop_after(op, mode, obj);
        let next = obj.with_fileop(op);
        assert forall|i: int| 0 <= i < ops.drop_first().len() implies fileop_reads_back(
            #[trigger] ops.drop_first()[i],
        ) by {
            assert(ops.drop_first()[i] == ops[i + 1]);
        }
        lemma_fileops_after(ops.drop_first(), AfterDataParserMode::AfterMerge, next);
        assert(next.fileops + ops.drop_first() == obj.fileops + ops);
        assert forall|i: int| 0 <= i < lines.len() implies plain(#[trigger] lines[i]) by {
            if i > 0 {
                assert(lines[i] == lines.drop_first()[i - 1]);
            }
        }
    }
}

/// The lines that were written behind the payload of an object are parsed
/// into what the object holds of them.
pub proof fn lemma_trailer_reads_back(obj: Structured)
    requires
        reads_back(obj),
    ensures
        after_data_of(unparsed_of(obj).after) == Ok::<AfterData, ParseError>(trailer_of(obj)),
        all_plain(trailer_lines(obj)),
{
    lemma_command_words();
    let initial = AfterDataParserMode::Initial;
    let empty = AfterData::empty();
    let blank = seq![Seq::<u8>::empty()];
    let trailer = trailer_lines(obj);
    // the line feed that closes the payload reads as a line without words
    assert(next_word(Seq::<u8>::empty(), 0) is None);
    assert(after_line(Seq::<u8>::empty(), initial, empty) == Ok::<
        (AfterDataParserMode, AfterData),
        ParseError,
    >((initial, empty)));
    lemma_one_after(Seq::<u8>::empty(), initial, empty, initial, empty);
    assert(all_plain(blank));
    match obj.object_type {
        ObjectBody::Commit(c) => {
            let from = optional("from"@, c.from);
            let o1 = AfterData { from: c.from, ..empty };
            let mode1 = if c.from is Some {
                AfterDataParserMode::AfterFrom
            } else {
                initial
            };
            match c.from {
                Some(f) => {
                    let line = command("from"@, f);
                    lemma_first_word(ascii("from"@), f);
                    lemma_second_word(ascii("from"@), f);
                    lemma_command_is_plain(ascii("from"@), f);
                    assert(after_line(line, initial, empty) == Ok::<
                        (AfterDataParserMode, AfterData),
                        ParseError,
                    >((mode1, o1)));
                    lemma_one_after(line, initial, empty, mode1, o1);
                },
                None => {},
            }
            assert(run_after(from, initial, empty) == Ok::<
                (AfterDataParserMode, AfterData),
                ParseError,
            >((mode1, o1)));
            assert(all_plain(from));
            let merges = merge_lines(c.merges);
            lemma_merges_after(c.merges, mode1, o1);
            let o2 = AfterData { merges: c.merges, ..o1 };
            assert(o1.merges + c.merges == c.merges);
            let mode2 = if c.merges.len() > 0 {
                AfterDataParserMode::AfterFrom
            } else {
                mode1
            };
            let fileops = fileop_lines(c.fileops);
            lemma_fileops_after(c.fileops, mode2, o2);
            assert(o2.fileops + c.fileops == c.fileops);
            assert(AfterData { fileops: c.fileops, ..o2 } == trailer_of(obj));
            lemma_run_after_add(from, merges, initial, empty);
            lemma_all_plain_add(from, merges);
            lemma_run_after_add(from + merges, fileops, initial, empty);
            lemma_all_plain_add(from + merges, fileops);
            assert(trailer == from + merges + fileops);
        },
        ObjectBody::Blob(_) => {},
    }
    lemma_run_after_add(blank, trailer, initial, empty);
    lemma_all_plain_add(blank, trailer);
    lemma_join_add(blank, trailer);
    lemma_join_one(Seq::<u8>::empty());
    assert(join(blank) == seq![NEWLINE]);
    lemma_after_data_of_lines(Seq::empty(), blank + trailer, initial, empty);
    assert(Seq::<u8>::empty() + join(blank + trailer) == unparsed_of(obj).after);
}

/// Round trip.  What is written for an object that reads back, taken in
/// the three parts in which an export holds an object, is parsed into the
/// same object.
pub proof fn lemma_round_trip(obj: Structured)
    requires
        reads_back(obj),
    ensures
        structured_of(unparsed_of(obj)) == Ok::<Structured, ParseError>(obj),
        writes_plain(obj),
{
    lemma_header_reads_back(obj);
    lemma_trailer_reads_back(obj);
    assert(assembled(header_of(obj), payload(obj), trailer_of(obj)) == obj);
}

/// What the parser finds behind a command is a word.
pub proof fn lemma_next_word_is_word(line: Text, from: int)
    requires
        0 <= from <= line.len(),
    ensures
        next_word(line, from) matches Some((w, end)) ==> word(w) && from <= end <= line.len(),
{
    lemma_scan_to(line, from, Stop::Word);
    let start = scan_to(line, from, Stop::Word);
    if start < line.len() {
        lemma_scan_to(line, start, Stop::Space);
        let end = scan_to(line, start, Stop::Space);
        let w = line.subrange(start, end);
        if end == start {
            assert(stops(Stop::Space, line[start]));
        }
        assert forall|i: int| 0 <= i < w.len() implies !is_space(#[trigger] w[i]) by {
            assert(w[i] == line[start + i]);
            assert(!stops(Stop::Space, line[start + i]));
        }
    }
}

/// What holds of a header while it is parsed: what was read with a command
/// is a word; a `from` ahead of the object came behind a `reset`; there is
/// no blob before its `blob` line; and a blob with a `reset` ahead of it
/// has such a `from`.
pub open spec fn header_in_order(mode: BeforeDataParserMode, obj: BeforeData) -> bool {
    &&& opt_word(obj.has_reset)
    &&& opt_word(obj.has_reset_from)
    &&& obj.has_reset_from is Some ==> obj.has_reset is Some
    &&& mode is Reset ==> obj.has_reset is Some
    &&& mode is Initial ==> (obj.has_reset is Some ==> obj.has_reset_from is Some)
    &&& !(mode is Commit) ==> obj.object is Commit
    &&& match obj.object {
        ObjectHeader::Commit(c) => {
            &&& c.refname.len() > 0 ==> word(c.refname)
            &&& opt_word(c.mark)
            &&& c.oid.len() > 0 ==> word(c.oid)
        },
        ObjectHeader::Blob(b) => {
            &&& opt_word(b.mark)
            &&& opt_word(b.oid)
            &&& obj.has_reset is Some ==> obj.has_reset_from is Some
        },
    }
}

proof fn lemma_before_line_in_order(line: Text, mode: BeforeDataParserMode, obj: BeforeData)
    requires
        header_in_order(mode, obj),
    ensures
        before_line(line, mode, obj) matches Ok((m, o)) ==> header_in_order(m, o),
{
    lemma_next_word_is_word(line, 0);
    if let Some((first, end)) = next_word(line, 0) {
        lemma_next_word_is_word(line, end);
    }
}

proof fn lemma_before_data_in_order(
    text: Text,
    pos: int,
    mode: BeforeDataParserMode,
    obj: BeforeData,
)
    requires
        header_in_order(mode, obj),
    ensures
        before_data_from(text, pos, mode, obj) matches Ok(o) ==> exists|m: BeforeDataParserMode|
            header_in_order(m, o),
    decreases text.len() - pos,
{
    if pos < 0 || pos >= text.len() {
        assert(header_in_order(mode, obj));
    } else {
        let (line, next) = next_line(text, pos);
        lemma_scan_to(text, pos, Stop::Newline);
        lemma_before_line_in_order(line, mode, obj);
        if let Ok((m, o)) = before_line(line, mode, obj) {
            lemma_before_data_in_order(text, next, m, o);
        }
    }
}

/// What holds of the lines behind a payload while they are parsed: what
/// was read with `from` and `merge` are words.
pub open spec fn trailer_in_order(obj: AfterData) -> bool {
    &&& opt_word(obj.from)
    &&& forall|i: int| 0 <= i < obj.merges.len() ==> word(#[trigger] obj.merges[i])
}

proof fn lemma_after_line_in_order(line: Text, mode: AfterDataParserMode, obj: AfterData)
    requires
        trailer_in_order(obj),
    ensures
        after_line(line, mode, obj) matches Ok((m, o)) ==> trailer_in_order(o),
{
    lemma_next_word_is_word(line, 0);
    if let Some((first, end)) = next_word(line, 0) {
        lemma_next_word_is_word(line, end);
        if let Ok((m, o)) = after_line(line, mode, obj) {
            assert forall|i: int| 0 <= i < o.merges.len() implies word(#[trigger] o.merges[i]) by {
                if i < obj.merges.len() {
                    assert(o.merges[i] == obj.merges[i]);
                }
            }
        }
    }
}

proof fn lemma_after_data_in_order(text: Text, pos: int, mode: AfterDataParserMode, obj: AfterData)
    requires
        trailer_in_order(obj),
    ensures
        after_data_from(text, pos, mode, obj) matches Ok(o) ==> trailer_in_order(o),
    decreases text.len() - pos,
{
    if pos < 0 || pos >= text.len() {
    } else {
        let (line, next) = next_line(text, pos);
        lemma_scan_to(text, pos, Stop::Newline);
        lemma_after_line_in_order(line, mode, obj);
        if let Ok((m, o)) = after_line(line, mode, obj) {
            lemma_after_data_in_order(text, next, m, o);
        }
    }
}

/// The lines of an object that are read with patterns read back.
pub open spec fn patterns_read_back(obj: Structured) -> bool {
    match obj.object_type {
        ObjectBody::Commit(c) => {
            &&& person_reads_back("author"@, c.author)
            &&& person_reads_back("committer"@, c.committer)
            &&& forall|i: int| 0 <= i < c.fileops.len() ==> fileop_reads_back(#[trigger] c.fileops[i])
        },
        ObjectBody::Blob(_) => true,
    }
}

/// The object has a ref if it is a commit: its header had a `commit` line.
pub open spec fn is_named(obj: Structured) -> bool {
    obj.object_type matches ObjectBody::Commit(c) ==> c.commit_ref.len() > 0
}

/// Round trip on a filter that changes nothing.  An object that was parsed
/// from an export, written, and parsed again from what was written, is the
/// same object: provided that the patterns read its lines back, and that
/// it is not a commit without a ref, which is what a header without
/// `commit` and `blob` line is parsed into.
pub proof fn lemma_parsed_object_reads_back(frame: Frame, obj: Structured)
    requires
        structured_of(frame) == Ok::<Structured, ParseError>(obj),
        patterns_read_back(obj),
        is_named(obj),
    ensures
        structured_of(unparsed_of(obj)) == Ok::<Structured, ParseError>(obj),
{
    let before = before_data_of(frame.before)->Ok_0;
    let after = after_data_of(frame.after)->Ok_0;
    lemma_before_data_in_order(
        frame.before,
        0,
        BeforeDataParserMode::Initial,
        BeforeData::empty(),
    );
    lemma_after_data_in_order(frame.after, 0, AfterDataParserMode::Initial, AfterData::empty());
    assert(obj == assembled(before, frame.data, after));
    assert(reads_back(obj));
    lemma_round_trip(obj);
}

/// The line opens with the word `first` and a space.
pub open spec fn opens_with(line: Text, first: Text) -> bool {
    (first + seq![SPACE]).is_prefix_of(line)
}

/// None of `lines` opens with the word `first` and a space.
pub open spec fn none_opens_with(lines: Seq<Text>, first: Text) -> bool {
    forall|i: int| 0 <= i < lines.len() ==> !opens_with(#[trigger] lines[i], first)
}

/// A line that opens with one word does not open with another.
proof fn lemma_opens_with_one_word(line: Text, first: Text, rest: Text, other: Text)
    requires
        word(first),
        word(other),
        first != other,
        line == first + seq![SPACE] + rest || line == first,
    ensures
        !opens_with(line, other),
{
    if opens_with(line, other) {
        let probe = other + seq![SPACE];
        assert(line.subrange(0, probe.len() as int) == probe);
        assert(line[other.len() as int] == probe[other.len() as int]);
        if first.len() > other.len() {
            assert(line[other.len() as int] == first[other.len() as int]);
        } else if first.len() < other.len() {
            assert(line == first + seq![SPACE] + rest);
            assert(line[first.len() as int] == SPACE);
            assert(line[first.len() as int] == probe[first.len() as int]);
            assert(probe[first.len() as int] == other[first.len() as int]);
        } else {
            assert forall|j: int| 0 <= j < first.len() implies first[j] == other[j] by {
                assert(line[j] == probe[j]);
                assert(line[j] == first[j]);
                assert(probe[j] == other[j]);
            }
            assert(first =~= other);
        }
    }
}

proof fn lemma_none_opens_with_add(a: Seq<Text>, b: Seq<Text>, first: Text)
    requires
        none_opens_with(a, first),
        none_opens_with(b, first),
    ensures
        none_opens_with(a + b, first),
{
    assert forall|i: int| 0 <= i < (a + b).len() implies !opens_with(
        #[trigger] (a + b)[i],
        first,
    ) by {
        if i < a.len() {
            assert((a + b)[i] == a[i]);
        } else {
            assert((a + b)[i] == b[i - a.len()]);
        }
    }
}

/// The words that open the lines of a frame where they must not be taken
/// for others: `data`, which ends a header, and `progress`, which ends a
/// frame.
proof fn lemma_marker_words()
    ensures
        word(ascii("progress"@)),
        ascii("progress"@).len() == 8,
        ascii("data"@) != ascii("from"@),
        ascii("data"@) != ascii("blob"@),
        ascii("data"@) != ascii("mark"@),
        ascii("data "@) == ascii("data"@) + seq![SPACE],
        forall|k: nat|
            (ascii("progress"@) + seq![SPACE]).is_prefix_of(#[trigger] progress_marker(k)),
        plain(progress_marker(1)),
{
    lemma_command_words();
    reveal_strlit("progress");
    reveal_strlit("progress ");
    reveal_strlit(" objects");
    reveal_strlit("data");
    reveal_strlit("data ");
    reveal_strlit("from");
    reveal_strlit("blob");
    reveal_strlit("mark");
    assert(ascii("data"@)[0] != ascii("from"@)[0]);
    assert(ascii("data"@)[0] != ascii("blob"@)[0]);
    assert(ascii("data "@) =~= ascii("data"@) + seq![SPACE]);
    assert(ascii("progress "@) =~= ascii("progress"@) + seq![SPACE]);
    assert forall|k: nat|
        (ascii("progress"@) + seq![SPACE]).is_prefix_of(#[trigger] progress_marker(k)) by {
        let m = progress_marker(k);
        assert(m.subrange(0, 9) =~= ascii("progress "@));
    }
    let one = progress_marker(1);
    assert(decimal(1) =~= seq![49u8]);
    assert(one =~= ascii("progress "@) + seq![49u8] + ascii(" objects"@));
    assert(one.len() == 18);
    assert forall|i: int| 0 <= i < one.len() implies #[trigger] one[i] != NEWLINE by {
        if i < 9 {
            assert(one[i] == ascii("progress "@)[i]);
        } else if i > 9 {
            assert(one[i] == ascii(" objects"@)[i - 10]);
        }
    }
    assert(one.last() == ascii(" objects"@)[7]);
}

/// The header lines of an object ahead of its `data` line.
pub open spec fn early_lines(obj: Structured) -> Seq<Text> {
    prelude_lines(obj) + (match obj.object_type {
        ObjectBody::Commit(c) => commit_head(c),
        ObjectBody::Blob(b) => blob_head(b),
    })
}

proof fn lemma_command_opens(name: Seq<char>, argument: Text, other: Text)
    requires
        word(ascii(name)),
        word(other),
        ascii(name) != other,
    ensures
        none_opens_with(seq![command(name, argument)], other),
{
    lemma_opens_with_one_word(command(name, argument), ascii(name), argument, other);
}

proof fn lemma_optional_opens(name: Seq<char>, argument: Option<Text>, other: Text)
    requires
        word(ascii(name)),
        word(other),
        ascii(name) != other,
    ensures
        none_opens_with(optional(name, argument), other),
{
    if let Some(a) = argument {
        lemma_command_opens(name, a, other);
    }
}

proof fn lemma_person_opens(role: Seq<char>, p: PersonView, other: Text)
    requires
        word(ascii(role)),
        word(other),
        ascii(role) != other,
    ensures
        none_opens_with(person_lines(role, p), other),
{
    if p != PersonView::empty() {
        let rest = (match p.name {
            Some(name) => name + seq![SPACE],
            None => Seq::empty(),
        }) + ascii("<"@) + p.email + ascii("> "@) + p.timestr;
        assert(person_line(role, p) == ascii(role) + seq![SPACE] + rest);
        lemma_opens_with_one_word(person_line(role, p), ascii(role), rest, other);
    }
}

/// No header line ahead of the `data` line opens with `data`.
proof fn lemma_early_lines_open(obj: Structured)
    ensures
        none_opens_with(early_lines(obj), ascii("data"@)),
{
    lemma_command_words();
    lemma_marker_words();
    let data = ascii("data"@);
    let feature = if obj.has_feature_done {
        seq![command("feature"@, ascii("done"@))]
    } else {
        Seq::<Text>::empty()
    };
    if obj.has_feature_done {
        lemma_command_opens("feature"@, ascii("done"@), data);
    }
    let reset = match obj.has_reset {
        Some(r) => seq![command("reset"@, r)] + optional("from"@, obj.has_reset_from),
        None => Seq::<Text>::empty(),
    };
    if let Some(r) = obj.has_reset {
        lemma_command_opens("reset"@, r, data);
        lemma_optional_opens("from"@, obj.has_reset_from, data);
        lemma_none_opens_with_add(
            seq![command("reset"@, r)],
            optional("from"@, obj.has_reset_from),
            data,
        );
    }
    lemma_none_opens_with_add(feature, reset, data);
    match obj.object_type {
        ObjectBody::Commit(c) => {
            let l1 = seq![command("commit"@, c.commit_ref)];
            lemma_command_opens("commit"@, c.commit_ref, data);
            let l2 = optional("mark"@, c.mark);
            lemma_optional_opens("mark"@, c.mark, data);
            let l3 = if c.oid.len() == 0 {
                Seq::<Text>::empty()
            } else {
                seq![command("original-oid"@, c.oid)]
            };
            if c.oid.len() > 0 {
                lemma_command_opens("original-oid"@, c.oid, data);
            }
            let l4 = person_lines("author"@, c.author);
            lemma_person_opens("author"@, c.author, data);
            let l5 = person_lines("committer"@, c.committer);
            lemma_person_opens("committer"@, c.committer, data);
            lemma_none_opens_with_add(l1, l2, data);
            lemma_none_opens_with_add(l1 + l2, l3, data);
            lemma_none_opens_with_add(l1 + l2 + l3, l4, data);
            lemma_none_opens_with_add(l1 + l2 + l3 + l4, l5, data);
            lemma_none_opens_with_add(prelude_lines(obj), commit_head(c), data);
        },
        ObjectBody::Blob(b) => {
            let l1 = seq![ascii("blob"@)];
            lemma_opens_with_one_word(ascii("blob"@), ascii("blob"@), Seq::empty(), data);
            let l2 = optional("mark"@, b.mark);
            lemma_optional_opens("mark"@, b.mark, data);
            let l3 = optional("original-oid"@, b.oid);
            lemma_optional_opens("original-oid"@, b.oid, data);
            lemma_none_opens_with_add(l1, l2, data);
            lemma_none_opens_with_add(l1 + l2, l3, data);
            lemma_none_opens_with_add(prelude_lines(obj), blob_head(b), data);
        },
    }
}

/// No line behind the payload opens with `progress`; nor does the empty
/// line that the line feed behind the payload makes.
proof fn lemma_late_lines_open(obj: Structured)
    ensures
        none_opens_with(seq![Seq::<u8>::empty()] + trailer_lines(obj), ascii("progress"@)),
{
    lemma_command_words();
    lemma_marker_words();
    let progress = ascii("progress"@);
    let blank = seq![Seq::<u8>::empty()];
    assert(none_opens_with(blank, progress));
    match obj.object_type {
        ObjectBody::Commit(c) => {
            let from = optional("from"@, c.from);
            lemma_optional_opens("from"@, c.from, progress);
            let merges = merge_lines(c.merges);
            assert forall|i: int| 0 <= i < merges.len() implies !opens_with(
                #[trigger] merges[i],
                progress,
            ) by {
                lemma_opens_with_one_word(merges[i], ascii("merge"@), c.merges[i], progress);
            }
            let fileops = fileop_lines(c.fileops);
            assert forall|i: int| 0 <= i < fileops.len() implies !opens_with(
                #[trigger] fileops[i],
                progress,
            ) by {
                let line = fileops[i];
                match c.fileops[i] {
                    FileOp::Modify(mode, dataref, path) => {
                        let rest = mode + seq![SPACE] + dataref + seq![SPACE] + path;
                        assert(line == ascii("M"@) + seq![SPACE] + rest);
                        lemma_opens_with_one_word(line, ascii("M"@), rest, progress);
                    },
                    FileOp::Delete(path) => {
                        lemma_opens_with_one_word(line, ascii("D"@), path, progress);
                    },
                    FileOp::Copy(src, dst) => {
                        let rest = src + seq![SPACE] + dst;
                        assert(line == ascii("C"@) + seq![SPACE] + rest);
                        lemma_opens_with_one_word(line, ascii("C"@), rest, progress);
                    },
                    FileOp::Rename(src, dst) => {
                        let rest = src + seq![SPACE] + dst;
                        assert(line == ascii("R"@) + seq![SPACE] + rest);
                        lemma_opens_with_one_word(line, ascii("R"@), rest, progress);
                    },
                    FileOp::DeleteAll => {
                        lemma_opens_with_one_word(
                            line,
                            ascii("deleteall"@),
                            Seq::empty(),
                            progress,
                        );
                    },
                    FileOp::NoteModify(dataref, commitish) => {
                        let rest = dataref + seq![SPACE] + commitish;
                        assert(line == ascii("N"@) + seq![SPACE] + rest);
                        lemma_opens_with_one_word(line, ascii("N"@), rest, progress);
                    },
                }
            }
            lemma_none_opens_with_add(from, merges, progress);
            lemma_none_opens_with_add(from + merges, fileops, progress);
            assert(trailer_lines(obj) == from + merges + fileops);
        },
        ObjectBody::Blob(_) => {},
    }
    lemma_none_opens_with_add(blank, trailer_lines(obj), progress);
}

/// A reader that reads header lines, none of which opens with `data`,
/// takes them into its header one by one.
proof fn lemma_reader_takes_header(r: ReaderView, buf: Seq<u8>, pos: int, lines: Seq<Text>)
    requires
        r.state is BeforeData,
        r.failed is None,
        0 <= pos,
        pos + join(lines).len() <= buf.len(),
        buf.subrange(pos, pos + join(lines).len()) == join(lines),
        all_plain(lines),
        none_opens_with(lines, ascii("data"@)),
    ensures
        r.drained(buf, pos) == (ReaderView { before: r.before + join(lines), ..r }).drained(
            buf,
            pos + join(lines).len(),
        ),
    decreases lines.len(),
{
    lemma_marker_words();
    if lines.len() == 0 {
        assert(r.before + join(lines) == r.before);
    } else {
        let line = lines.first();
        let rest = lines.drop_first();
        let end = pos + line.len();
        let all = join(lines);
        assert(plain(lines[0]));
        assert(!opens_with(lines[0], ascii("data"@)));
        assert forall|j: int| pos <= j < end implies !stops(
            Stop::Newline,
            #[trigger] buf[j],
        ) by {
            assert(buf[j] == all[j - pos]);
            assert(all[j - pos] == line[j - pos]);
        }
        assert(buf[end] == all[line.len() as int]);
        lemma_scan_to_is(buf, pos, Stop::Newline, end);
        assert(buf.subrange(pos, end) == line);
        let next = ReaderView { before: r.before + line + seq![NEWLINE], ..r };
        assert(r.after_line(line) == (next, None::<Frame>));
        assert(all == line + seq![NEWLINE] + join(rest));
        assert(buf.subrange(end + 1, end + 1 + join(rest).len()) == join(rest)) by {
            let tail = buf.subrange(end + 1, end + 1 + join(rest).len());
            assert forall|k: int| 0 <= k < join(rest).len() implies tail[k] == join(rest)[k] by {
                assert(buf.subrange(pos, pos + all.len())[line.len() + 1 + k] == buf[end + 1 + k]);
                assert(all[line.len() + 1 + k] == join(rest)[k]);
            }
            assert(tail =~= join(rest));
        }
        assert(all_plain(rest)) by {
            assert forall|i: int| 0 <= i < rest.len() implies plain(#[trigger] rest[i]) by {
                assert(rest[i] == lines[i + 1]);
            }
        }
        assert(none_opens_with(rest, ascii("data"@))) by {
            assert forall|i: int| 0 <= i < rest.len() implies !opens_with(
                #[trigger] rest[i],
                ascii("data"@),
            ) by {
                assert(rest[i] == lines[i + 1]);
            }
        }
        lemma_reader_takes_header(next, buf, end + 1, rest);
        assert(next.before + join(rest) == r.before + join(lines));
        assert(emitted(None::<Frame>) + next.drained(buf, end + 1).1 == next.drained(
            buf,
            end + 1,
        ).1);
    }
}

/// A reader behind a payload that reads lines, none of which opens with
/// `progress`, takes them one by one.
proof fn lemma_reader_takes_trailer(r: ReaderView, buf: Seq<u8>, pos: int, lines: Seq<Text>)
    requires
        r.state is AfterData,
        r.failed is None,
        0 <= pos,
        pos + join(lines).len() <= buf.len(),
        buf.subrange(pos, pos + join(lines).len()) == join(lines),
        all_plain(lines),
        none_opens_with(lines, ascii("progress"@)),
    ensures
        r.drained(buf, pos) == (ReaderView { after: r.after + join(lines), ..r }).drained(
            buf,
            pos + join(lines).len(),
        ),
    decreases lines.len(),
{
    lemma_marker_words();
    if lines.len() == 0 {
        assert(r.after + join(lines) == r.after);
    } else {
        let line = lines.first();
        let rest = lines.drop_first();
        let end = pos + line.len();
        let all = join(lines);
        assert(plain(lines[0]));
        assert(!opens_with(lines[0], ascii("progress"@)));
        assert forall|j: int| pos <= j < end implies !stops(
            Stop::Newline,
            #[trigger] buf[j],
        ) by {
            assert(buf[j] == all[j - pos]);
            assert(all[j - pos] == line[j - pos]);
        }
        assert(buf[end] == all[line.len() as int]);
        lemma_scan_to_is(buf, pos, Stop::Newline, end);
        assert(buf.subrange(pos, end) == line);
        let marker = progress_marker(r.expected);
        let opening = ascii("progress"@) + seq![SPACE];
        if marker.is_prefix_of(line) {
            assert(opening.is_prefix_of(marker));
            assert(line.subrange(0, opening.len() as int) =~= marker.subrange(
                0,
                opening.len() as int,
            ));
            assert(opening.is_prefix_of(line));
        }
        let next = ReaderView { after: r.after + line + seq![NEWLINE], ..r };
        assert(r.after_line(line) == (next, None::<Frame>));
        assert(all == line + seq![NEWLINE] + join(rest));
        assert(buf.subrange(end + 1, end + 1 + join(rest).len()) == join(rest)) by {
            let tail = buf.subrange(end + 1, end + 1 + join(rest).len());
            assert forall|k: int| 0 <= k < join(rest).len() implies tail[k] == join(rest)[k] by {
                assert(buf.subrange(pos, pos + all.len())[line.len() + 1 + k] == buf[end + 1 + k]);
                assert(all[line.len() + 1 + k] == join(rest)[k]);
            }
            assert(tail =~= join(rest));
        }
        assert(all_plain(rest)) by {
            assert forall|i: int| 0 <= i < rest.len() implies plain(#[trigger] rest[i]) by {
                assert(rest[i] == lines[i + 1]);
            }
        }
        assert(none_opens_with(rest, ascii("progress"@))) by {
            assert forall|i: int| 0 <= i < rest.len() implies !opens_with(
                #[trigger] rest[i],
                ascii("progress"@),
            ) by {
                assert(rest[i] == lines[i + 1]);
            }
        }
        lemma_reader_takes_trailer(next, buf, end + 1, rest);
        assert(next.after + join(rest) == r.after + join(lines));
        assert(emitted(None::<Frame>) + next.drained(buf, end + 1).1 == next.drained(
            buf,
            end + 1,
        ).1);
    }
}

/// The reader that has read the header of `frame` and awaits its payload.
spec fn at_payload(frame: Frame) -> ReaderView {
    ReaderView {
        state: ParseState::Data(frame.data.len() as usize),
        before: frame.before,
        ..ReaderView::start()
    }
}

/// The reader that has read all of `frame` but its progress line.
spec fn at_marker(frame: Frame) -> ReaderView {
    ReaderView {
        state: ParseState::AfterData,
        before: frame.before,
        data: frame.data,
        after: frame.after,
        ..ReaderView::start()
    }
}

proof fn lemma_header_is_read(obj: Structured, text: Seq<u8>)
    requires
        writes_plain(obj),
        payload(obj).len() <= usize::MAX,
        unparsed_of(obj).before.is_prefix_of(text),
    ensures
        ReaderView::start().drained(text, 0) == at_payload(unparsed_of(obj)).drained(
            text,
            unparsed_of(obj).before.len() as int,
        ),
{
    lemma_command_words();
    lemma_marker_words();
    let frame = unparsed_of(obj);
    let start = ReaderView::start();
    let early = early_lines(obj);
    let n = payload(obj).len();
    let data_line = command("data"@, decimal(n));
    assert(header_lines(obj) == early + seq![data_line]);
    lemma_join_add(early, seq![data_line]);
    lemma_join_one(data_line);
    let head = join(early);
    assert(frame.before == head + (data_line + seq![NEWLINE]));
    assert(all_plain(early)) by {
        assert forall|i: int| 0 <= i < early.len() implies plain(#[trigger] early[i]) by {
            assert(early[i] == header_lines(obj)[i]);
        }
    }
    lemma_early_lines_open(obj);
    assert(text.subrange(0, head.len() as int) == head) by {
        assert(text.subrange(0, frame.before.len() as int) == frame.before);
        assert forall|k: int| 0 <= k < head.len() implies text[k] == head[k] by {
            assert(text.subrange(0, frame.before.len() as int)[k] == text[k]);
            assert(frame.before[k] == head[k]);
        }
    }
    lemma_reader_takes_header(start, text, 0, early);
    let r1 = ReaderView { before: head, ..start };
    assert(start.before + head == head);
    let p1 = head.len() as int;
    let p2 = p1 + data_line.len();
    assert(plain(header_lines(obj)[early.len() as int]));
    assert(header_lines(obj)[early.len() as int] == data_line);
    assert forall|j: int| p1 <= j < p2 implies !stops(
        Stop::Newline,
        #[trigger] text[j],
    ) by {
        assert(text.subrange(0, frame.before.len() as int)[j] == text[j]);
        assert(frame.before[j] == data_line[j - p1]);
    }
    assert(text[p2] == NEWLINE) by {
        assert(text.subrange(0, frame.before.len() as int)[p2] == text[p2]);
    }
    lemma_scan_to_is(text, p1, Stop::Newline, p2);
    assert(text.subrange(p1, p2) == data_line) by {
        assert forall|k: int| 0 <= k < data_line.len() implies text.subrange(p1, p2)[k]
            == data_line[k] by {
            assert(text.subrange(0, frame.before.len() as int)[p1 + k] == text[p1 + k]);
            assert(frame.before[p1 + k] == data_line[k]);
        }
    }
    assert(ascii("data "@).is_prefix_of(data_line)) by {
        assert(data_line.subrange(0, 5) =~= ascii("data"@) + seq![SPACE]);
    }
    assert(data_line.skip(5) == decimal(n));
    lemma_decimal_reads_back(n);
    assert(decimal_usize(decimal(n)) == Some(n as usize));
    let r2 = at_payload(frame);
    assert(r1.before + data_line + seq![NEWLINE] == frame.before);
    assert(r1.after_line(data_line) == (r2, None::<Frame>));
    assert(emitted(None::<Frame>) + r2.drained(text, p2 + 1).1 == r2.drained(text, p2 + 1).1);
    assert(r1.drained(text, p1) == r2.drained(text, p2 + 1));
}

proof fn lemma_payload_and_trailer_are_read(obj: Structured, text: Seq<u8>)
    requires
        writes_plain(obj),
        payload(obj).len() <= usize::MAX,
        (unparsed_of(obj).before + unparsed_of(obj).data + unparsed_of(obj).after).is_prefix_of(
            text,
        ),
    ensures
        at_payload(unparsed_of(obj)).drained(text, unparsed_of(obj).before.len() as int)
            == at_marker(unparsed_of(obj)).drained(
            text,
            (unparsed_of(obj).before + unparsed_of(obj).data + unparsed_of(obj).after).len() as int,
        ),
{
    lemma_command_words();
    lemma_marker_words();
    let frame = unparsed_of(obj);
    let whole = frame.before + frame.data + frame.after;
    let n = frame.data.len();
    let p2 = frame.before.len() as int;
    let p3 = p2 + n;
    let r2 = at_payload(frame);
    assert(text.subrange(0, whole.len() as int) == whole);
    assert(text.subrange(p2, p3) == frame.data) by {
        assert forall|k: int| 0 <= k < n implies text.subrange(p2, p3)[k] == frame.data[k] by {
            assert(text.subrange(0, whole.len() as int)[p2 + k] == text[p2 + k]);
            assert(whole[p2 + k] == frame.data[k]);
        }
    }
    let r3 = ReaderView { state: ParseState::AfterData, data: frame.data, ..r2 };
    assert(r2.after_payload(frame.data) == r3);
    assert(r2.drained(text, p2) == r3.drained(text, p3));
    let blank = seq![Seq::<u8>::empty()];
    let late = blank + trailer_lines(obj);
    lemma_join_add(blank, trailer_lines(obj));
    lemma_join_one(Seq::<u8>::empty());
    assert(join(late) == frame.after);
    assert(all_plain(blank));
    lemma_all_plain_add(blank, trailer_lines(obj));
    lemma_late_lines_open(obj);
    assert(text.subrange(p3, p3 + frame.after.len()) == frame.after) by {
        assert forall|k: int| 0 <= k < frame.after.len() implies text.subrange(
            p3,
            p3 + frame.after.len(),
        )[k] == frame.after[k] by {
            assert(text.subrange(0, whole.len() as int)[p3 + k] == text[p3 + k]);
            assert(whole[p3 + k] == frame.after[k]);
        }
    }
    lemma_reader_takes_trailer(r3, text, p3, late);
    assert(r3.after + join(late) == frame.after);
    assert(ReaderView { after: r3.after + join(late), ..r3 } == at_marker(frame));
}

proof fn lemma_marker_is_read(frame: Frame, text: Seq<u8>, pos: int)
    requires
        0 <= pos,
        text.len() == pos + progress_marker(1).len() + 1,
        text.subrange(pos, text.len() as int) == progress_marker(1) + seq![NEWLINE],
    ensures
        at_marker(frame).drained(text, pos) == (
            ReaderView { expected: 2, ..ReaderView::start() },
            seq![frame],
        ),
{
    lemma_marker_words();
    let marker = progress_marker(1);
    let r4 = at_marker(frame);
    let end = pos + marker.len();
    let tail = text.subrange(pos, text.len() as int);
    assert forall|j: int| pos <= j < end implies !stops(
        Stop::Newline,
        #[trigger] text[j],
    ) by {
        assert(tail[j - pos] == text[j]);
        assert(tail[j - pos] == marker[j - pos]);
    }
    assert(text[end] == NEWLINE) by {
        assert(tail[marker.len() as int] == text[end]);
    }
    lemma_scan_to_is(text, pos, Stop::Newline, end);
    assert(text.subrange(pos, end) == marker) by {
        assert forall|k: int| 0 <= k < marker.len() implies text.subrange(pos, end)[k]
            == marker[k] by {
            assert(tail[k] == text[pos + k]);
        }
    }
    let r5 = ReaderView { expected: 2, ..ReaderView::start() };
    assert(r4.after_line(marker) == (r5, Some(frame)));
    assert(text.subrange(end + 1, text.len() as int) == Seq::<u8>::empty());
    assert(r5.drained(text, end + 1) == (r5, Seq::<Frame>::empty()));
    assert(emitted(Some(frame)) + Seq::<Frame>::empty() == seq![frame]);
}

/// Framing round trip.  What is written for an object, followed by the
/// progress line of the first object of a stream, is cut into one frame:
/// the three parts in which the object was written.
pub proof fn lemma_written_object_is_one_frame(obj: Structured)
    requires
        writes_plain(obj),
        payload(obj).len() <= usize::MAX,
    ensures
        stream_frames(
            serialized(obj) + progress_marker(1) + seq![NEWLINE],
        ) == (seq![unparsed_of(obj)], None::<FramingError>),
{
    let frame = unparsed_of(obj);
    let whole = frame.before + frame.data + frame.after;
    let marker = progress_marker(1);
    let text = whole + marker + seq![NEWLINE];
    let start = ReaderView::start();
    assert(start.pending + text == text);
    assert(start.with_pending(Seq::empty()) == start);
    assert(frame.before.is_prefix_of(text)) by {
        assert(text.subrange(0, frame.before.len() as int) =~= frame.before);
    }
    assert(whole.is_prefix_of(text)) by {
        assert(text.subrange(0, whole.len() as int) =~= whole);
    }
    lemma_header_is_read(obj, text);
    lemma_payload_and_trailer_are_read(obj, text);
    assert(text.subrange(whole.len() as int, text.len() as int) =~= marker + seq![NEWLINE]);
    lemma_marker_is_read(frame, text, whole.len() as int);
    let last = ReaderView { expected: 2, ..start };
    assert(start.fed(text) == (last, seq![frame]));
    assert(last.finished() == Ok::<Option<Frame>, FramingError>(None));
    assert(seq![frame] + emitted(None::<Frame>) == seq![frame]);
}

/// Writing and reading a stream of one object.  What is written for an
/// object that reads back, followed by the progress line of the first
/// object of a stream, is a stream of exactly that object.
pub proof fn lemma_written_stream_reads_back(obj: Structured)
    requires
        reads_back(obj),
        payload(obj).len() <= usize::MAX,
    ensures
        stream_objects(
            serialized(obj) + progress_marker(1) + seq![NEWLINE],
        ) == (seq![obj], None::<StreamError>),
{
    lemma_round_trip(obj);
    lemma_written_object_is_one_frame(obj);
    let frames = seq![unparsed_of(obj)];
    assert(frames.drop_last() == Seq::<Frame>::empty());
    assert(frames.last() == unparsed_of(obj));
    assert(parsed_until_error(frames.drop_last()) == (
        Seq::<Structured>::empty(),
        None::<ParseError>,
    ));
    assert(Seq::<Structured>::empty().push(obj) == seq![obj]);
}

} // verus!
