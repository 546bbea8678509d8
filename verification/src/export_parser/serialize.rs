//! The serializer: renders a structured object as `git fast-import` reads
//! it.
//!
//! An object is written as header lines, the payload, and the lines behind
//! the payload; [`unparsed_of`] names these three parts.

use vstd::prelude::*;
use vstd::string::*;

use crate::export_parser::structured_parse::{
    fileops_view, opt_text, texts, Blob, Commit, CommitPerson, FileOp, FileOps, ObjectBody,
    PersonView, Structured, StructuredBlobObject, StructuredCommitObject, StructuredExportObject,
    StructuredObjectType, Text,
};
use crate::text::{ascii, ascii_bytes, decimal, push_bytes, push_decimal, NEWLINE, SPACE};
use crate::Frame;

verus! {

/// The lines one behind the other, each followed by a line feed.
pub open spec fn join(lines: Seq<Text>) -> Seq<u8>
    decreases lines.len(),
{
    if lines.len() == 0 {
        Seq::empty()
    } else {
        lines.first() + seq![NEWLINE] + join(lines.drop_first())
    }
}

/// A line made of a command word and one argument.
pub open spec fn command(word: Seq<char>, argument: Text) -> Text {
    ascii(word) + seq![SPACE] + argument
}

/// The command line for an argument that may be absent; no line if it is.
pub open spec fn optional(word: Seq<char>, argument: Option<Text>) -> Seq<Text> {
    match argument {
        Some(a) => seq![command(word, a)],
        None => Seq::empty(),
    }
}

/// An `author` or `committer` line: the role, the name if there is one,
/// the email in angle brackets, the time.
pub open spec fn person_line(role: Seq<char>, p: PersonView) -> Text {
    ascii(role) + seq![SPACE] + (match p.name {
        Some(name) => name + seq![SPACE],
        None => Seq::empty(),
    }) + ascii("<"@) + p.email + ascii("> "@) + p.timestr
}

/// The line of a person; no line for a person without name, email and
/// time, which is what a commit without such a line has.
pub open spec fn person_lines(role: Seq<char>, p: PersonView) -> Seq<Text> {
    if p == PersonView::empty() {
        Seq::empty()
    } else {
        seq![person_line(role, p)]
    }
}

/// The line of one file operation.
pub open spec fn fileop_line(op: FileOp) -> Text {
    match op {
        FileOp::Modify(mode, dataref, path) => ascii("M"@) + seq![SPACE] + mode + seq![SPACE]
            + dataref + seq![SPACE] + path,
        FileOp::Delete(path) => command("D"@, path),
        FileOp::Copy(src, dst) => ascii("C"@) + seq![SPACE] + src + seq![SPACE] + dst,
        FileOp::Rename(src, dst) => ascii("R"@) + seq![SPACE] + src + seq![SPACE] + dst,
        FileOp::DeleteAll => ascii("deleteall"@),
        FileOp::NoteModify(dataref, commitish) => ascii("N"@) + seq![SPACE] + dataref + seq![SPACE]
            + commitish,
    }
}

/// The lines ahead of an object: `feature done`, then `reset` with its
/// `from`.  A `from` without a `reset` is not written.
pub open spec fn prelude_lines(obj: Structured) -> Seq<Text> {
    (if obj.has_feature_done {
        seq![command("feature"@, ascii("done"@))]
    } else {
        Seq::empty()
    }) + (match obj.has_reset {
        Some(r) => seq![command("reset"@, r)] + optional("from"@, obj.has_reset_from),
        None => Seq::empty(),
    })
}

/// The header lines of a commit, from its `commit` line on.  The
/// `original-oid` line is left out where the commit has no original id.
pub open spec fn commit_head(c: Commit) -> Seq<Text> {
    seq![command("commit"@, c.commit_ref)] + optional("mark"@, c.mark) + (if c.oid.len() == 0 {
        Seq::empty()
    } else {
        seq![command("original-oid"@, c.oid)]
    }) + person_lines("author"@, c.author) + person_lines("committer"@, c.committer)
}

/// The header lines of a blob, from its `blob` line on.
pub open spec fn blob_head(b: Blob) -> Seq<Text> {
    seq![ascii("blob"@)] + optional("mark"@, b.mark) + optional("original-oid"@, b.oid)
}

/// The payload of an object: the message of a commit, the contents of a
/// blob.
pub open spec fn payload(obj: Structured) -> Seq<u8> {
    match obj.object_type {
        ObjectBody::Commit(c) => c.commit_message,
        ObjectBody::Blob(b) => b.data,
    }
}

/// The header lines of an object, the `data` line last.
pub open spec fn header_lines(obj: Structured) -> Seq<Text> {
    prelude_lines(obj) + (match obj.object_type {
        ObjectBody::Commit(c) => commit_head(c),
        ObjectBody::Blob(b) => blob_head(b),
    }) + seq![command("data"@, decimal(payload(obj).len()))]
}

/// The lines behind the payload of an object: for a commit its `from`, its
/// merges and its file operations, in that order; for a blob none.
pub open spec fn trailer_lines(obj: Structured) -> Seq<Text> {
    match obj.object_type {
        ObjectBody::Commit(c) => optional("from"@, c.from) + c.merges.map_values(
            |m: Text| command("merge"@, m),
        ) + c.fileops.map_values(|op: FileOp| fileop_line(op)),
        ObjectBody::Blob(_) => Seq::empty(),
    }
}

/// What is written for an object, in the three parts in which an export
/// holds an object: header, payload, and what follows the payload, which
/// begins with the line feed that closes the payload.
pub open spec fn unparsed_of(obj: Structured) -> Frame {
    Frame {
        before: join(header_lines(obj)),
        data: payload(obj),
        after: seq![NEWLINE] + join(trailer_lines(obj)),
    }
}

/// A structured object as `git fast-import` reads it.
pub open spec fn serialized(obj: Structured) -> Seq<u8> {
    unparsed_of(obj).before + unparsed_of(obj).data + unparsed_of(obj).after
}

/// Joining lines that come in two runs joins each run.
pub proof fn lemma_join_add(a: Seq<Text>, b: Seq<Text>)
    ensures
        join(a + b) == join(a) + join(b),
    decreases a.len(),
{
    if a.len() == 0 {
        assert(a + b == b);
        assert(join(a) + join(b) == join(b));
    } else {
        lemma_join_add(a.drop_first(), b);
        assert((a + b).drop_first() == a.drop_first() + b);
        assert((a + b).first() == a.first());
        assert(join(a + b) =~= join(a) + join(b));
    }
}

/// Joining one line.
pub proof fn lemma_join_one(line: Text)
    ensures
        join(seq![line]) == line + seq![NEWLINE],
{
    let lines = seq![line];
    assert(lines.drop_first() == Seq::<Text>::empty());
    assert(join(lines.drop_first()) == Seq::<u8>::empty());
    assert(join(lines) =~= line + seq![NEWLINE]);
}

/// The lines written so far by an exec function: `out` holds `base` and
/// then the lines joined.
spec fn wrote(out: Seq<u8>, base: Seq<u8>, lines: Seq<Text>) -> bool {
    out == base + join(lines)
}

proof fn lemma_wrote_nothing(out: Seq<u8>)
    ensures
        wrote(out, out, Seq::empty()),
{
    assert(out + join(Seq::<Text>::empty()) == out);
}

proof fn lemma_wrote_more(now: Seq<u8>, base: Seq<u8>, lines: Seq<Text>, more: Seq<Text>)
    requires
        wrote(now, base + join(lines), more),
    ensures
        wrote(now, base, lines + more),
{
    lemma_join_add(lines, more);
    assert(base + (join(lines) + join(more)) =~= (base + join(lines)) + join(more));
}

fn push_ascii(out: &mut Vec<u8>, s: &str)
    requires
        vstd::string::is_ascii(s),
    ensures
        final(out)@ == old(out)@ + ascii(s@),
{
    push_bytes(out, ascii_bytes(s));
}

fn push_command(out: &mut Vec<u8>, word: &str, argument: &[u8])
    requires
        vstd::string::is_ascii(word),
    ensures
        wrote(final(out)@, old(out)@, seq![command(word@, argument@)]),
{
    push_ascii(out, word);
    out.push(SPACE);
    push_bytes(out, argument);
    out.push(NEWLINE);
    proof {
        lemma_join_one(command(word@, argument@));
        assert(out@ == old(out)@ + (command(word@, argument@) + seq![NEWLINE]));
    }
}

fn push_optional(out: &mut Vec<u8>, word: &str, argument: &Option<Vec<u8>>)
    requires
        vstd::string::is_ascii(word),
    ensures
        wrote(final(out)@, old(out)@, optional(word@, opt_text(*argument))),
{
    match argument {
        Some(a) => {
            push_command(out, word, a.as_slice());
        },
        None => {
            proof {
                lemma_wrote_nothing(out@);
            }
        },
    }
}

fn push_person(out: &mut Vec<u8>, role: &str, p: &CommitPerson)
    requires
        vstd::string::is_ascii(role),
    ensures
        wrote(final(out)@, old(out)@, person_lines(role@, p@)),
{
    if p.name.is_none() && p.email.len() == 0 && p.timestr.len() == 0 {
        assert(p.email@ =~= Seq::empty());
        assert(p.timestr@ =~= Seq::empty());
        assert(p@ == PersonView::empty());
        proof {
            lemma_wrote_nothing(out@);
        }
        return ;
    }
    proof {
        reveal_strlit("<");
        reveal_strlit("> ");
    }
    push_ascii(out, role);
    out.push(SPACE);
    match &p.name {
        Some(name) => {
            push_bytes(out, name.as_slice());
            out.push(SPACE);
        },
        None => {},
    }
    push_ascii(out, "<");
    push_bytes(out, p.email.as_slice());
    push_ascii(out, "> ");
    push_bytes(out, p.timestr.as_slice());
    out.push(NEWLINE);
    proof {
        lemma_join_one(person_line(role@, p@));
        assert(out@ == old(out)@ + (person_line(role@, p@) + seq![NEWLINE]));
    }
}

fn push_fileop(out: &mut Vec<u8>, op: &FileOps)
    ensures
        wrote(final(out)@, old(out)@, seq![fileop_line(op@)]),
{
    proof {
        reveal_strlit("M");
        reveal_strlit("D");
        reveal_strlit("C");
        reveal_strlit("R");
        reveal_strlit("N");
        reveal_strlit("deleteall");
    }
    match op {
        FileOps::FileModify(mode, dataref, path) => {
            push_ascii(out, "M");
            out.push(SPACE);
            push_bytes(out, mode.as_slice());
            out.push(SPACE);
            push_bytes(out, dataref.as_slice());
            out.push(SPACE);
            push_bytes(out, path.as_slice());
            out.push(NEWLINE);
        },
        FileOps::FileDelete(path) => {
            push_ascii(out, "D");
            out.push(SPACE);
            push_bytes(out, path.as_slice());
            out.push(NEWLINE);
        },
        FileOps::FileCopy(src, dst) => {
            push_ascii(out, "C");
            out.push(SPACE);
            push_bytes(out, src.as_slice());
            out.push(SPACE);
            push_bytes(out, dst.as_slice());
            out.push(NEWLINE);
        },
        FileOps::FileRename(src, dst) => {
            push_ascii(out, "R");
            out.push(SPACE);
            push_bytes(out, src.as_slice());
            out.push(SPACE);
            push_bytes(out, dst.as_slice());
            out.push(NEWLINE);
        },
        FileOps::FileDeleteAll => {
            push_ascii(out, "deleteall");
            out.push(NEWLINE);
        },
        FileOps::NoteModify(dataref, commitish) => {
            push_ascii(out, "N");
            out.push(SPACE);
            push_bytes(out, dataref.as_slice());
            out.push(SPACE);
            push_bytes(out, commitish.as_slice());
            out.push(NEWLINE);
        },
    }
    proof {
        lemma_join_one(fileop_line(op@));
        assert(out@ == old(out)@ + (fileop_line(op@) + seq![NEWLINE]));
    }
}

fn push_merges(out: &mut Vec<u8>, merges: &Vec<Vec<u8>>)
    ensures
        wrote(
            final(out)@,
            old(out)@,
            texts(merges@).map_values(|m: Text| command("merge"@, m)),
        ),
{
    proof {
        reveal_strlit("merge");
        lemma_wrote_nothing(out@);
    }
    let ghost lines = texts(merges@).map_values(|m: Text| command("merge"@, m));
    assert(lines.take(0) == Seq::<Text>::empty());
    let mut i: usize = 0;
    while i < merges.len()
        invariant
            i <= merges.len(),
            vstd::string::is_ascii("merge"),
            lines == texts(merges@).map_values(|m: Text| command("merge"@, m)),
            wrote(out@, old(out)@, lines.take(i as int)),
        decreases merges.len() - i,
    {
        let ghost before = out@;
        push_command(out, "merge", merges[i].as_slice());
        proof {
            assert(lines.take(i + 1) == lines.take(i as int) + seq![
                command("merge"@, merges@[i as int]@),
            ]);
            lemma_wrote_more(
                out@,
                old(out)@,
                lines.take(i as int),
                seq![command("merge"@, merges@[i as int]@)],
            );
        }
        i += 1;
    }
    assert(lines.take(lines.len() as int) == lines);
}

fn push_fileops(out: &mut Vec<u8>, ops: &Vec<FileOps>)
    ensures
        wrote(
            final(out)@,
            old(out)@,
            fileops_view(ops@).map_values(|op: FileOp| fileop_line(op)),
        ),
{
    proof {
        lemma_wrote_nothing(out@);
    }
    let ghost lines = fileops_view(ops@).map_values(|op: FileOp| fileop_line(op));
    assert(lines.take(0) == Seq::<Text>::empty());
    let mut i: usize = 0;
    while i < ops.len()
        invariant
            i <= ops.len(),
            lines == fileops_view(ops@).map_values(|op: FileOp| fileop_line(op)),
            wrote(out@, old(out)@, lines.take(i as int)),
        decreases ops.len() - i,
    {
        push_fileop(out, &ops[i]);
        proof {
            assert(lines.take(i + 1) == lines.take(i as int) + seq![fileop_line(ops@[i as int]@)]);
            lemma_wrote_more(
                out@,
                old(out)@,
                lines.take(i as int),
                seq![fileop_line(ops@[i as int]@)],
            );
        }
        i += 1;
    }
    assert(lines.take(lines.len() as int) == lines);
}

fn push_prelude(out: &mut Vec<u8>, obj: &StructuredExportObject)
    ensures
        wrote(final(out)@, old(out)@, prelude_lines(obj@)),
{
    proof {
        reveal_strlit("feature");
        reveal_strlit("done");
        reveal_strlit("reset");
        reveal_strlit("from");
        lemma_wrote_nothing(out@);
    }
    let ghost feature = if obj.has_feature_done {
        seq![command("feature"@, ascii("done"@))]
    } else {
        Seq::<Text>::empty()
    };
    if obj.has_feature_done {
        push_command(out, "feature", ascii_bytes("done"));
    }
    assert(wrote(out@, old(out)@, feature));
    match &obj.has_reset {
        Some(r) => {
            let ghost mid = out@;
            push_command(out, "reset", r.as_slice());
            let ghost mid2 = out@;
            push_optional(out, "from", &obj.has_reset_from);
            proof {
                lemma_wrote_more(
                    out@,
                    mid,
                    seq![command("reset"@, r@)],
                    optional("from"@, opt_text(obj.has_reset_from)),
                );
                lemma_wrote_more(
                    out@,
                    old(out)@,
                    feature,
                    seq![command("reset"@, r@)] + optional("from"@, opt_text(obj.has_reset_from)),
                );
            }
        },
        None => {
            assert(feature + Seq::<Text>::empty() == feature);
        },
    }
}

fn push_commit_head(out: &mut Vec<u8>, c: &StructuredCommitObject)
    ensures
        wrote(final(out)@, old(out)@, commit_head(c@)),
{
    proof {
        reveal_strlit("commit");
        reveal_strlit("mark");
        reveal_strlit("original-oid");
        reveal_strlit("author");
        reveal_strlit("committer");
    }
    let ghost base = out@;
    push_command(out, "commit", c.commit_ref.as_slice());
    let ghost l1 = seq![command("commit"@, c@.commit_ref)];
    push_optional(out, "mark", &c.mark);
    let ghost l2 = l1 + optional("mark"@, c@.mark);
    proof {
        lemma_wrote_more(out@, base, l1, optional("mark"@, c@.mark));
    }
    let ghost oid_line = if c@.oid.len() == 0 {
        Seq::<Text>::empty()
    } else {
        seq![command("original-oid"@, c@.oid)]
    };
    let ghost mid = out@;
    if c.oid.len() > 0 {
        push_command(out, "original-oid", c.oid.as_slice());
    } else {
        proof {
            lemma_wrote_nothing(out@);
        }
    }
    let ghost l3 = l2 + oid_line;
    proof {
        lemma_wrote_more(out@, base, l2, oid_line);
    }
    push_person(out, "author", &c.author);
    let ghost l4 = l3 + person_lines("author"@, c@.author);
    proof {
        lemma_wrote_more(out@, base, l3, person_lines("author"@, c@.author));
    }
    push_person(out, "committer", &c.committer);
    proof {
        lemma_wrote_more(out@, base, l4, person_lines("committer"@, c@.committer));
    }
}

fn push_blob_head(out: &mut Vec<u8>, b: &StructuredBlobObject)
    ensures
        wrote(final(out)@, old(out)@, blob_head(b@)),
{
    proof {
        reveal_strlit("blob");
        reveal_strlit("mark");
        reveal_strlit("original-oid");
    }
    let ghost base = out@;
    push_ascii(out, "blob");
    out.push(NEWLINE);
    let ghost l1 = seq![ascii("blob"@)];
    proof {
        lemma_join_one(ascii("blob"@));
        assert(out@ == base + (ascii("blob"@) + seq![NEWLINE]));
    }
    push_optional(out, "mark", &b.mark);
    let ghost l2 = l1 + optional("mark"@, b@.mark);
    proof {
        lemma_wrote_more(out@, base, l1, optional("mark"@, b@.mark));
    }
    push_optional(out, "original-oid", &b.oid);
    proof {
        lemma_wrote_more(out@, base, l2, optional("original-oid"@, b@.oid));
    }
}

fn push_data_line(out: &mut Vec<u8>, length: usize)
    ensures
        wrote(final(out)@, old(out)@, seq![command("data"@, decimal(length as nat))]),
{
    proof {
        reveal_strlit("data");
    }
    push_ascii(out, "data");
    out.push(SPACE);
    push_decimal(out, length as u64);
    out.push(NEWLINE);
    proof {
        lemma_join_one(command("data"@, decimal(length as nat)));
        assert(out@ == old(out)@ + (command("data"@, decimal(length as nat)) + seq![NEWLINE]));
    }
}

fn push_trailer(out: &mut Vec<u8>, obj: &StructuredExportObject)
    ensures
        wrote(final(out)@, old(out)@, trailer_lines(obj@)),
{
    match &obj.object_type {
        StructuredObjectType::Commit(c) => {
            proof {
                reveal_strlit("from");
            }
            let ghost base = out@;
            push_optional(out, "from", &c.from);
            let ghost l1 = optional("from"@, c@.from);
            push_merges(out, &c.merges);
            let ghost merges = c@.merges.map_values(|m: Text| command("merge"@, m));
            proof {
                lemma_wrote_more(out@, base, l1, merges);
            }
            push_fileops(out, &c.fileops);
            proof {
                lemma_wrote_more(
                    out@,
                    base,
                    l1 + merges,
                    c@.fileops.map_values(|op: FileOp| fileop_line(op)),
                );
            }
        },
        StructuredObjectType::Blob(_) => {
            proof {
                lemma_wrote_nothing(out@);
            }
        },
    }
}

/// Appends `obj` to `stream` in the form that `git fast-import` reads.
pub fn write_to_stream(stream: &mut Vec<u8>, obj: &StructuredExportObject)
    ensures
        final(stream)@ == old(stream)@ + serialized(obj@),
{
    let ghost base = stream@;
    push_prelude(stream, obj);
    let ghost head = match obj@.object_type {
        ObjectBody::Commit(c) => commit_head(c),
        ObjectBody::Blob(b) => blob_head(b),
    };
    match &obj.object_type {
        StructuredObjectType::Commit(c) => {
            push_commit_head(stream, c);
        },
        StructuredObjectType::Blob(b) => {
            push_blob_head(stream, b);
        },
    }
    proof {
        lemma_wrote_more(stream@, base, prelude_lines(obj@), head);
    }
    let data: &Vec<u8> = match &obj.object_type {
        StructuredObjectType::Commit(c) => &c.commit_message,
        StructuredObjectType::Blob(b) => &b.data,
    };
    assert(data@ == payload(obj@));
    push_data_line(stream, data.len());
    proof {
        lemma_wrote_more(
            stream@,
            base,
            prelude_lines(obj@) + head,
            seq![command("data"@, decimal(data@.len()))],
        );
    }
    assert(stream@ == base + unparsed_of(obj@).before);
    push_bytes(stream, data.as_slice());
    stream.push(NEWLINE);
    let ghost mid = stream@;
    push_trailer(stream, obj);
    assert(stream@ == mid + join(trailer_lines(obj@)));
    assert(stream@ =~= base + serialized(obj@));
}

} // verus!
