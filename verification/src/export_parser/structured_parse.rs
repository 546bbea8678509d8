//! The line parser: two small state machines, one over the header lines of
//! an object and one over the lines behind its payload.

use vstd::prelude::*;
use vstd::string::*;

use crate::{Frame, UnparsedFastExportObject};
use crate::text::{
    ascii, is_word, lemma_scan_to, next_line, next_word, read_line, to_vec, Stop, Words,
};

verus! {

/// A piece of header text.
pub type Text = Seq<u8>;

/// The contents of a piece of text that may be absent.
pub open spec fn opt_text(o: Option<Vec<u8>>) -> Option<Text> {
    match o {
        Some(v) => Some(v@),
        None => None,
    }
}

/// The contents of a list of texts.
pub open spec fn texts(v: Seq<Vec<u8>>) -> Seq<Text> {
    v.map_values(|t: Vec<u8>| t@)
}

/// Why an object could not be parsed.
#[derive(Clone, Copy, PartialEq, Eq, Debug)]
pub enum ParseError {
    /// A line opens with a word that is no command where a command is due.
    UnknownKeyword,
    /// A line opens with a known command but is not of that command's form.
    MalformedLine,
}

/// What the header parser has seen so far.
#[derive(Clone, Copy, PartialEq, Eq, Debug)]
pub enum BeforeDataParserMode {
    Initial,
    Reset,
    Commit,
}

/// What the parser of the lines behind the payload has seen so far.
#[derive(Clone, Copy, PartialEq, Eq, Debug)]
pub enum AfterDataParserMode {
    Initial,
    AfterFrom,
    AfterMerge,
}

/// Which property the word behind a command sets.
#[derive(Clone, Copy, PartialEq, Eq, Debug)]
pub enum NextWordType {
    Oid,
    Mark,
    CommitRef,
    ResetFrom,
    ResetLine,
    Data,
    From,
    Merge,
}

/// An author or committer.
#[derive(Debug, Clone, PartialEq, Eq)]
pub struct CommitPerson {
    /// Absent where the line gives no name.
    pub name: Option<Vec<u8>>,
    pub email: Vec<u8>,
    /// Time and zone as they stand on the line.
    pub timestr: Vec<u8>,
}

/// The contents of a [`CommitPerson`].
pub struct PersonView {
    pub name: Option<Text>,
    pub email: Text,
    pub timestr: Text,
}

impl View for CommitPerson {
    type V = PersonView;

    open spec fn view(&self) -> PersonView {
        PersonView { name: opt_text(self.name), email: self.email@, timestr: self.timestr@ }
    }
}

impl PersonView {
    pub open spec fn empty() -> PersonView {
        PersonView { name: None, email: Seq::empty(), timestr: Seq::empty() }
    }
}

impl Default for CommitPerson {
    fn default() -> (p: CommitPerson)
        ensures
            p@ == PersonView::empty(),
    {
        CommitPerson { name: None, email: Vec::new(), timestr: Vec::new() }
    }
}

/// The header of a commit.
#[derive(Debug, Clone, PartialEq, Eq)]
pub struct CommitObject {
    pub refname: Vec<u8>,
    pub mark: Option<Vec<u8>>,
    pub oid: Vec<u8>,
    pub author: CommitPerson,
    pub committer: CommitPerson,
}

/// The contents of a [`CommitObject`].
pub struct CommitHeader {
    pub refname: Text,
    pub mark: Option<Text>,
    pub oid: Text,
    pub author: PersonView,
    pub committer: PersonView,
}

impl View for CommitObject {
    type V = CommitHeader;

    open spec fn view(&self) -> CommitHeader {
        CommitHeader {
            refname: self.refname@,
            mark: opt_text(self.mark),
            oid: self.oid@,
            author: self.author@,
            committer: self.committer@,
        }
    }
}

impl CommitHeader {
    pub open spec fn empty() -> CommitHeader {
        CommitHeader {
            refname: Seq::empty(),
            mark: None,
            oid: Seq::empty(),
            author: PersonView::empty(),
            committer: PersonView::empty(),
        }
    }
}

impl Default for CommitObject {
    fn default() -> (c: CommitObject)
        ensures
            c@ == CommitHeader::empty(),
    {
        CommitObject {
            refname: Vec::new(),
            mark: None,
            oid: Vec::new(),
            author: CommitPerson::default(),
            committer: CommitPerson::default(),
        }
    }
}

/// The header of a blob.
#[derive(Debug, Clone, PartialEq, Eq)]
pub struct BlobObject {
    pub mark: Option<Vec<u8>>,
    pub oid: Option<Vec<u8>>,
}

/// The contents of a [`BlobObject`].
pub struct BlobHeader {
    pub mark: Option<Text>,
    pub oid: Option<Text>,
}

impl View for BlobObject {
    type V = BlobHeader;

    open spec fn view(&self) -> BlobHeader {
        BlobHeader { mark: opt_text(self.mark), oid: opt_text(self.oid) }
    }
}

impl BlobHeader {
    pub open spec fn empty() -> BlobHeader {
        BlobHeader { mark: None, oid: None }
    }
}

impl Default for BlobObject {
    fn default() -> (b: BlobObject)
        ensures
            b@ == BlobHeader::empty(),
    {
        BlobObject { mark: None, oid: None }
    }
}

/// The kinds of object that are parsed: commits and blobs.  Resets and
/// `feature done` belong to the header of the object that follows them.
#[derive(Debug, Clone, PartialEq, Eq)]
pub enum ObjectType {
    Commit(CommitObject),
    Blob(BlobObject),
}

/// The contents of a [`ObjectType`].
pub enum ObjectHeader {
    Commit(CommitHeader),
    Blob(BlobHeader),
}

impl View for ObjectType {
    type V = ObjectHeader;

    open spec fn view(&self) -> ObjectHeader {
        match self {
            ObjectType::Commit(c) => ObjectHeader::Commit(c@),
            ObjectType::Blob(b) => ObjectHeader::Blob(b@),
        }
    }
}

impl Default for ObjectType {
    fn default() -> (o: ObjectType)
        ensures
            o@ == ObjectHeader::Commit(CommitHeader::empty()),
    {
        ObjectType::Commit(CommitObject::default())
    }
}

/// What the header lines of an object say.
#[derive(Debug, Clone, PartialEq, Eq)]
pub struct BeforeDataObject {
    /// The ref of a `reset` line ahead of the object.
    pub has_reset: Option<Vec<u8>>,
    /// The commit-ish of a `from` line behind that `reset`.
    pub has_reset_from: Option<Vec<u8>>,
    /// Whether a `feature` line stands ahead of the object.
    pub has_feature_done: bool,
    pub object: ObjectType,
    /// The payload length as the `data` line gives it.
    pub data: Vec<u8>,
}

/// The contents of a [`BeforeDataObject`].
pub struct BeforeData {
    pub has_reset: Option<Text>,
    pub has_reset_from: Option<Text>,
    pub has_feature_done: bool,
    pub object: ObjectHeader,
    pub data: Text,
}

impl View for BeforeDataObject {
    type V = BeforeData;

    open spec fn view(&self) -> BeforeData {
        BeforeData {
            has_reset: opt_text(self.has_reset),
            has_reset_from: opt_text(self.has_reset_from),
            has_feature_done: self.has_feature_done,
            object: self.object@,
            data: self.data@,
        }
    }
}

impl BeforeData {
    pub open spec fn empty() -> BeforeData {
        BeforeData {
            has_reset: None,
            has_reset_from: None,
            has_feature_done: false,
            object: ObjectHeader::Commit(CommitHeader::empty()),
            data: Seq::empty(),
        }
    }
}

impl Default for BeforeDataObject {
    fn default() -> (o: BeforeDataObject)
        ensures
            o@ == BeforeData::empty(),
    {
        BeforeDataObject {
            has_reset: None,
            has_reset_from: None,
            has_feature_done: false,
            object: ObjectType::default(),
            data: Vec::new(),
        }
    }
}

/// A change to the tree, as a commit lists it.
#[derive(Debug, Clone, PartialEq, Eq)]
pub enum FileOps {
    /// Mode, data reference, path.
    FileModify(Vec<u8>, Vec<u8>, Vec<u8>),
    /// Path.
    FileDelete(Vec<u8>),
    /// Source, destination.
    FileCopy(Vec<u8>, Vec<u8>),
    /// Source, destination.
    FileRename(Vec<u8>, Vec<u8>),
    FileDeleteAll,
    /// Data reference, commit-ish.
    NoteModify(Vec<u8>, Vec<u8>),
}

/// The contents of a [`FileOps`].
pub enum FileOp {
    Modify(Text, Text, Text),
    Delete(Text),
    Copy(Text, Text),
    Rename(Text, Text),
    DeleteAll,
    NoteModify(Text, Text),
}

impl View for FileOps {
    type V = FileOp;

    open spec fn view(&self) -> FileOp {
        match self {
            FileOps::FileModify(mode, dataref, path) => FileOp::Modify(mode@, dataref@, path@),
            FileOps::FileDelete(path) => FileOp::Delete(path@),
            FileOps::FileCopy(src, dst) => FileOp::Copy(src@, dst@),
            FileOps::FileRename(src, dst) => FileOp::Rename(src@, dst@),
            FileOps::FileDeleteAll => FileOp::DeleteAll,
            FileOps::NoteModify(dataref, commitish) => FileOp::NoteModify(dataref@, commitish@),
        }
    }
}

/// The contents of a list of file operations.
pub open spec fn fileops_view(v: Seq<FileOps>) -> Seq<FileOp> {
    v.map_values(|op: FileOps| op@)
}

/// What the lines behind the payload of a commit say.
#[derive(Debug, Clone, PartialEq, Eq)]
pub struct AfterDataObject {
    pub from: Option<Vec<u8>>,
    /// In the order of the `merge` lines.
    pub merges: Vec<Vec<u8>>,
    /// In the order of their lines.
    pub fileops: Vec<FileOps>,
}

/// The contents of a [`AfterDataObject`].
pub struct AfterData {
    pub from: Option<Text>,
    pub merges: Seq<Text>,
    pub fileops: Seq<FileOp>,
}

impl View for AfterDataObject {
    type V = AfterData;

    open spec fn view(&self) -> AfterData {
        AfterData {
            from: opt_text(self.from),
            merges: texts(self.merges@),
            fileops: fileops_view(self.fileops@),
        }
    }
}

impl AfterData {
    pub open spec fn empty() -> AfterData {
        AfterData { from: None, merges: Seq::empty(), fileops: Seq::empty() }
    }
}

impl Default for AfterDataObject {
    fn default() -> (o: AfterDataObject)
        ensures
            o@ == AfterData::empty(),
    {
        let o = AfterDataObject { from: None, merges: Vec::new(), fileops: Vec::new() };
        assert(texts(o.merges@) =~= Seq::empty());
        assert(fileops_view(o.fileops@) =~= Seq::empty());
        o
    }
}

/// The form of an `author` or `committer` line: name, email, time.
pub const AUTHOR_LINE: &'static str = "^(?:author|committer) (.*?) ?<(.*?)> (.*?)$";

/// The form of a file-modify line: mode, data reference, path.
pub const FILE_MODIFY_LINE: &'static str = r"^M (\d+) (\S+) (.+)$";

/// The form of a file-delete line: path.
pub const FILE_DELETE_LINE: &'static str = r"^D (.+)$";

/// The form of a file-copy line: source, destination.
pub const FILE_COPY_LINE: &'static str = r"^C (\S+) (.+)$";

/// The form of a file-rename line: source, destination.
pub const FILE_RENAME_LINE: &'static str = r"^R (\S+) (.+)$";

/// The form of a note-modify line: data reference, commit-ish.
pub const NOTE_MODIFY_LINE: &'static str = r"^N (\S+) (.+)$";

/// What a pattern captured in a line: the text of each group, the whole
/// match first; a group that took no part in the match is absent.
#[derive(Debug, Clone, PartialEq, Eq)]
pub struct Captures {
    groups: Vec<Option<Vec<u8>>>,
}

/// The groups of a match, the whole match first.
pub type Groups = Seq<Option<Text>>;

impl View for Captures {
    type V = Groups;

    closed spec fn view(&self) -> Groups {
        self.groups@.map_values(|g: Option<Vec<u8>>| opt_text(g))
    }
}

/// The contents of captures that may be absent.
pub open spec fn opt_groups(c: Option<Captures>) -> Option<Groups> {
    match c {
        Some(c) => Some(c@),
        None => None,
    }
}

/// The groups that the regular expression `pattern` captures at its first
/// match in `haystack`; `None` where it matches nowhere, or is no valid
/// pattern.
pub uninterp spec fn regex_captures(pattern: Seq<char>, haystack: Seq<u8>) -> Option<Groups>;

/// Compiles `pattern` with `regex::bytes::Regex::new` and searches `haystack`
/// with `Regex::captures`.  The contract only names the outcome: it is the
/// regex crate's answer for this pattern and this haystack, with the matched
/// bytes of every group copied out.
#[verifier::external_body]
fn captures(pattern: &str, haystack: &[u8]) -> (c: Option<Captures>)
    ensures
        opt_groups(c) == regex_captures(pattern@, haystack@),
{
    let re = regex::bytes::Regex::new(pattern).ok()?;
    let found = re.captures(haystack)?;
    Some(Captures { groups: found.iter().map(|m| m.map(|m| m.as_bytes().to_vec())).collect() })
}

/// What the pattern for an `author` or `committer` line captures in `text`, if it matches.
pub fn get_regex_authorline(text: &[u8]) -> (c: Option<Captures>)
    ensures
        opt_groups(c) == regex_captures(AUTHOR_LINE@, text@),
{
    captures(AUTHOR_LINE, text)
}

/// What the pattern for a file-modify line captures in `text`, if it matches.
pub fn get_regex_filemodifyline(text: &[u8]) -> (c: Option<Captures>)
    ensures
        opt_groups(c) == regex_captures(FILE_MODIFY_LINE@, text@),
{
    captures(FILE_MODIFY_LINE, text)
}

/// What the pattern for a file-delete line captures in `text`, if it matches.
pub fn get_regex_filedeleteline(text: &[u8]) -> (c: Option<Captures>)
    ensures
        opt_groups(c) == regex_captures(FILE_DELETE_LINE@, text@),
{
    captures(FILE_DELETE_LINE, text)
}

/// What the pattern for a file-copy line captures in `text`, if it matches.
pub fn get_regex_filecopyline(text: &[u8]) -> (c: Option<Captures>)
    ensures
        opt_groups(c) == regex_captures(FILE_COPY_LINE@, text@),
{
    captures(FILE_COPY_LINE, text)
}

/// What the pattern for a file-rename line captures in `text`, if it matches.
pub fn get_regex_filerenameline(text: &[u8]) -> (c: Option<Captures>)
    ensures
        opt_groups(c) == regex_captures(FILE_RENAME_LINE@, text@),
{
    captures(FILE_RENAME_LINE, text)
}

/// What the pattern for a note-modify line captures in `text`, if it matches.
pub fn get_regex_notemodifyline(text: &[u8]) -> (c: Option<Captures>)
    ensures
        opt_groups(c) == regex_captures(NOTE_MODIFY_LINE@, text@),
{
    captures(NOTE_MODIFY_LINE, text)
}

/// Group `i` of `g`, absent where `g` has no such group.
pub open spec fn group(g: Groups, i: int) -> Option<Text> {
    if 0 <= i < g.len() {
        g[i]
    } else {
        None
    }
}

impl Captures {
    /// The text of group `i`; `None` where there is no such group or it took
    /// no part in the match.
    pub fn get(&self, i: usize) -> (r: Option<&Vec<u8>>)
        ensures
            match group(self@, i as int) {
                Some(t) => r matches Some(v) && v@ == t,
                None => r is None,
            },
    {
        if i < self.groups.len() {
            match &self.groups[i] {
                Some(v) => Some(v),
                None => None,
            }
        } else {
            None
        }
    }

    /// The number of groups, the whole match included.
    pub fn len(&self) -> (n: usize)
        ensures
            n == self@.len(),
    {
        self.groups.len()
    }
}

/// The contents of a person that may be absent.
pub open spec fn opt_person(p: Option<CommitPerson>) -> Option<PersonView> {
    match p {
        Some(p) => Some(p@),
        None => None,
    }
}

/// The person that the groups of an author line stand for: name, email and
/// time are groups 1 to 3, and an empty name is no name.
pub open spec fn person_of(g: Groups) -> Option<PersonView> {
    match (group(g, 1), group(g, 2), group(g, 3)) {
        (Some(name), Some(email), Some(timestr)) => Some(
            PersonView {
                name: if name.len() == 0 {
                    None
                } else {
                    Some(name)
                },
                email,
                timestr,
            },
        ),
        _ => None,
    }
}

/// Reads a person out of what [`get_regex_authorline`] captured.
pub fn person_from_captures(caps: &Captures) -> (p: Option<CommitPerson>)
    ensures
        opt_person(p) == person_of(caps@),
{
    let name = match caps.get(1) {
        Some(t) => t,
        None => {
            return None;
        },
    };
    let email = match caps.get(2) {
        Some(t) => t,
        None => {
            return None;
        },
    };
    let timestr = match caps.get(3) {
        Some(t) => t,
        None => {
            return None;
        },
    };
    Some(
        CommitPerson {
            name: if name.len() == 0 {
                None
            } else {
                Some(to_vec(name.as_slice()))
            },
            email: to_vec(email.as_slice()),
            timestr: to_vec(timestr.as_slice()),
        },
    )
}

impl BeforeData {
    /// The header with its commit's author or committer set.  A blob has
    /// neither.
    pub open spec fn with_person(self, p: PersonView, is_author: bool) -> BeforeData {
        match self.object {
            ObjectHeader::Commit(c) => BeforeData {
                object: ObjectHeader::Commit(
                    if is_author {
                        CommitHeader { author: p, ..c }
                    } else {
                        CommitHeader { committer: p, ..c }
                    },
                ),
                ..self
            },
            ObjectHeader::Blob(_) => self,
        }
    }

    /// The header with the mark or the original id of its object set.
    pub open spec fn with_property(self, value: Text, kind: NextWordType) -> BeforeData {
        match self.object {
            ObjectHeader::Commit(c) => match kind {
                NextWordType::Oid => BeforeData {
                    object: ObjectHeader::Commit(CommitHeader { oid: value, ..c }),
                    ..self
                },
                NextWordType::Mark => BeforeData {
                    object: ObjectHeader::Commit(CommitHeader { mark: Some(value), ..c }),
                    ..self
                },
                _ => self,
            },
            ObjectHeader::Blob(b) => match kind {
                NextWordType::Oid => BeforeData {
                    object: ObjectHeader::Blob(BlobHeader { oid: Some(value), ..b }),
                    ..self
                },
                NextWordType::Mark => BeforeData {
                    object: ObjectHeader::Blob(BlobHeader { mark: Some(value), ..b }),
                    ..self
                },
                _ => self,
            },
        }
    }

    /// The parser mode and the header after the word behind a command has
    /// been read.
    pub open spec fn with_word(self, mode: BeforeDataParserMode, word: Text, kind: NextWordType) -> (
        BeforeDataParserMode,
        BeforeData,
    ) {
        match kind {
            NextWordType::Oid | NextWordType::Mark => (mode, self.with_property(word, kind)),
            NextWordType::CommitRef => (
                BeforeDataParserMode::Commit,
                BeforeData {
                    object: ObjectHeader::Commit(
                        CommitHeader { refname: word, ..CommitHeader::empty() },
                    ),
                    ..self
                },
            ),
            NextWordType::ResetFrom => (
                BeforeDataParserMode::Initial,
                BeforeData { has_reset_from: Some(word), ..self },
            ),
            NextWordType::ResetLine => (
                BeforeDataParserMode::Reset,
                BeforeData { has_reset: Some(word), ..self },
            ),
            NextWordType::Data => (mode, BeforeData { data: word, ..self }),
            NextWordType::From | NextWordType::Merge => (mode, self),
        }
    }
}

/// Sets the mark or the original id of the object in `object`; other kinds
/// of word change nothing.
pub fn set_object_property(
    value: &[u8],
    object: &mut BeforeDataObject,
    next_word_type: NextWordType,
)
    ensures
        final(object)@ == old(object)@.with_property(value@, next_word_type),
{
    match &mut object.object {
        ObjectType::Commit(commit_obj) => {
            match next_word_type {
                NextWordType::Oid => {
                    commit_obj.oid = to_vec(value);
                },
                NextWordType::Mark => {
                    commit_obj.mark = Some(to_vec(value));
                },
                _ => {},
            }
        },
        ObjectType::Blob(blob_obj) => {
            match next_word_type {
                NextWordType::Oid => {
                    blob_obj.oid = Some(to_vec(value));
                },
                NextWordType::Mark => {
                    blob_obj.mark = Some(to_vec(value));
                },
                _ => {},
            }
        },
    }
}

/// Reads the next word of a header line and puts it where `next_word_type`
/// says.  Gives `None`, and changes nothing, where the line has no word
/// left.
///
/// A second `reset` ahead of one object is not provided for.
pub fn parse_next_word(
    word_split: &mut Words,
    object: &mut BeforeDataObject,
    next_word_type: NextWordType,
    parse_mode: &mut BeforeDataParserMode,
) -> (r: Option<()>)
    requires
        next_word_type is ResetLine && next_word(old(word_split)@.text, old(word_split)@.pos)
            is Some ==> old(object)@.has_reset is None,
    ensures
        final(word_split)@.text == old(word_split)@.text,
        match next_word(old(word_split)@.text, old(word_split)@.pos) {
            Some((word, end)) => {
                &&& r is Some
                &&& final(word_split)@.pos == end
                &&& (*final(parse_mode), final(object)@) == old(object)@.with_word(
                    *old(parse_mode),
                    word,
                    next_word_type,
                )
            },
            None => {
                &&& r is None
                &&& final(word_split)@ == old(word_split)@
                &&& *final(parse_mode) == *old(parse_mode)
                &&& final(object)@ == old(object)@
            },
        },
{
    let next_word = match word_split.next() {
        Some(w) => w,
        None => {
            return None;
        },
    };
    match next_word_type {
        NextWordType::Oid | NextWordType::Mark => {
            set_object_property(next_word, object, next_word_type);
        },
        NextWordType::CommitRef => {
            let mut commit_obj = CommitObject::default();
            commit_obj.refname = to_vec(next_word);
            object.object = ObjectType::Commit(commit_obj);
            *parse_mode = BeforeDataParserMode::Commit;
        },
        NextWordType::ResetFrom => {
            object.has_reset_from = Some(to_vec(next_word));
            *parse_mode = BeforeDataParserMode::Initial;
        },
        NextWordType::ResetLine => {
            object.has_reset = Some(to_vec(next_word));
            *parse_mode = BeforeDataParserMode::Reset;
        },
        NextWordType::Data => {
            object.data = to_vec(next_word);
        },
        NextWordType::From | NextWordType::Merge => {},
    }
    Some(())
}

/// What an `author` or `committer` line does to a header, or the error if
/// the line is not of that form.
pub open spec fn before_person(line: Text, obj: BeforeData, is_author: bool) -> Result<
    BeforeData,
    ParseError,
> {
    match regex_captures(AUTHOR_LINE@, line) {
        Some(g) => match person_of(g) {
            Some(p) => Ok(obj.with_person(p, is_author)),
            None => Err(ParseError::MalformedLine),
        },
        None => Err(ParseError::MalformedLine),
    }
}

/// Reads an `author` or `committer` line into the commit of `object`.
/// Gives `None`, and changes nothing, where the line is not of that form.
pub fn parse_author_or_committer_line(
    line: &[u8],
    object: &mut BeforeDataObject,
    is_author: bool,
) -> (r: Option<()>)
    ensures
        match before_person(line@, old(object)@, is_author) {
            Ok(o) => r is Some && final(object)@ == o,
            Err(_) => r is None && final(object)@ == old(object)@,
        },
{
    let captures = match get_regex_authorline(line) {
        Some(c) => c,
        None => {
            return None;
        },
    };
    let person = match person_from_captures(&captures) {
        Some(p) => p,
        None => {
            return None;
        },
    };
    match &mut object.object {
        ObjectType::Commit(commit_obj) => {
            if is_author {
                commit_obj.author = person;
            } else {
                commit_obj.committer = person;
            }
        },
        ObjectType::Blob(_) => {},
    }
    Some(())
}

/// What the word behind a command does, or the error if the line has no
/// word there.
pub open spec fn before_word(
    line: Text,
    from: int,
    kind: NextWordType,
    mode: BeforeDataParserMode,
    obj: BeforeData,
) -> Result<(BeforeDataParserMode, BeforeData), ParseError> {
    match next_word(line, from) {
        Some((word, _)) => Ok(obj.with_word(mode, word, kind)),
        None => Err(ParseError::MalformedLine),
    }
}

/// One header line ahead of the object's own first line: `feature`,
/// `reset` with its `from`, then `commit` or `blob`.  Ahead of a `reset`
/// any other word is passed over; behind it, it is an error.
pub open spec fn prelude_line(line: Text, mode: BeforeDataParserMode, obj: BeforeData) -> Result<
    (BeforeDataParserMode, BeforeData),
    ParseError,
> {
    match next_word(line, 0) {
        None => Ok((mode, obj)),
        Some((word, end)) => if mode is Reset {
            if word == ascii("from"@) {
                before_word(line, end, NextWordType::ResetFrom, mode, obj)
            } else if word == ascii("commit"@) {
                before_word(line, end, NextWordType::CommitRef, mode, obj)
            } else {
                Err(ParseError::UnknownKeyword)
            }
        } else {
            if word == ascii("feature"@) {
                Ok((mode, BeforeData { has_feature_done: true, ..obj }))
            } else if word == ascii("reset"@) {
                before_word(line, end, NextWordType::ResetLine, mode, obj)
            } else if word == ascii("commit"@) {
                before_word(line, end, NextWordType::CommitRef, mode, obj)
            } else if word == ascii("blob"@) {
                Ok(
                    (
                        BeforeDataParserMode::Commit,
                        BeforeData { object: ObjectHeader::Blob(BlobHeader::empty()), ..obj },
                    ),
                )
            } else {
                Ok((mode, obj))
            }
        },
    }
}

/// One header line of a commit or blob.
pub open spec fn object_line(line: Text, obj: BeforeData) -> Result<
    (BeforeDataParserMode, BeforeData),
    ParseError,
> {
    let mode = BeforeDataParserMode::Commit;
    match next_word(line, 0) {
        None => Ok((mode, obj)),
        Some((word, end)) => if word == ascii("mark"@) {
            before_word(line, end, NextWordType::Mark, mode, obj)
        } else if word == ascii("original-oid"@) {
            before_word(line, end, NextWordType::Oid, mode, obj)
        } else if word == ascii("author"@) {
            match before_person(line, obj, true) {
                Ok(o) => Ok((mode, o)),
                Err(e) => Err(e),
            }
        } else if word == ascii("committer"@) {
            match before_person(line, obj, false) {
                Ok(o) => Ok((mode, o)),
                Err(e) => Err(e),
            }
        } else if word == ascii("encoding"@) {
            Ok((mode, obj))
        } else if word == ascii("data"@) {
            before_word(line, end, NextWordType::Data, mode, obj)
        } else {
            Err(ParseError::UnknownKeyword)
        },
    }
}

/// The parser mode and the header after one more header line, or the error
/// that the line is.  A line without a word changes nothing.
pub open spec fn before_line(line: Text, mode: BeforeDataParserMode, obj: BeforeData) -> Result<
    (BeforeDataParserMode, BeforeData),
    ParseError,
> {
    if mode is Commit {
        object_line(line, obj)
    } else {
        prelude_line(line, mode, obj)
    }
}

/// Whether `line` is a second `reset` line ahead of one object.
pub open spec fn resets_again(line: Text, mode: BeforeDataParserMode, obj: BeforeData) -> bool {
    &&& mode is Initial
    &&& obj.has_reset is Some
    &&& next_word(line, 0) matches Some((word, end))
    &&& word == ascii("reset"@)
    &&& next_word(line, end) is Some
}

fn word_read(r: Option<()>) -> (res: Result<(), ParseError>)
    ensures
        r is Some ==> res is Ok,
        r is None ==> res == Err::<(), ParseError>(ParseError::MalformedLine),
{
    match r {
        Some(_) => Ok(()),
        None => Err(ParseError::MalformedLine),
    }
}

/// Reads one header line into `object`.  On an error nothing is changed.
///
/// A second `reset` ahead of one object is not provided for.
pub fn parse_before_data_line(
    line: &[u8],
    parse_mode: &mut BeforeDataParserMode,
    object: &mut BeforeDataObject,
) -> (r: Result<(), ParseError>)
    requires
        !resets_again(line@, *old(parse_mode), old(object)@),
    ensures
        match before_line(line@, *old(parse_mode), old(object)@) {
            Ok((mode, obj)) => r is Ok && *final(parse_mode) == mode && final(object)@ == obj,
            Err(e) => r == Err::<(), ParseError>(e) && *final(parse_mode) == *old(parse_mode)
                && final(object)@ == old(object)@,
        },
{
    let mut word_split = Words::new(line);
    let first_word = match word_split.next() {
        Some(w) => w,
        None => {
            return Ok(());
        },
    };
    proof {
        reveal_strlit("feature");
        reveal_strlit("reset");
        reveal_strlit("commit");
        reveal_strlit("blob");
        reveal_strlit("from");
        reveal_strlit("mark");
        reveal_strlit("original-oid");
        reveal_strlit("author");
        reveal_strlit("committer");
        reveal_strlit("encoding");
        reveal_strlit("data");
    }
    match *parse_mode {
        BeforeDataParserMode::Initial => {
            if is_word(first_word, "feature") {
                object.has_feature_done = true;
                Ok(())
            } else if is_word(first_word, "reset") {
                word_read(
                    parse_next_word(&mut word_split, object, NextWordType::ResetLine, parse_mode),
                )
            } else if is_word(first_word, "commit") {
                word_read(
                    parse_next_word(&mut word_split, object, NextWordType::CommitRef, parse_mode),
                )
            } else if is_word(first_word, "blob") {
                object.object = ObjectType::Blob(BlobObject::default());
                *parse_mode = BeforeDataParserMode::Commit;
                Ok(())
            } else {
                Ok(())
            }
        },
        BeforeDataParserMode::Reset => {
            if is_word(first_word, "from") {
                word_read(
                    parse_next_word(&mut word_split, object, NextWordType::ResetFrom, parse_mode),
                )
            } else if is_word(first_word, "commit") {
                word_read(
                    parse_next_word(&mut word_split, object, NextWordType::CommitRef, parse_mode),
                )
            } else {
                Err(ParseError::UnknownKeyword)
            }
        },
        BeforeDataParserMode::Commit => {
            if is_word(first_word, "mark") {
                word_read(parse_next_word(&mut word_split, object, NextWordType::Mark, parse_mode))
            } else if is_word(first_word, "original-oid") {
                word_read(parse_next_word(&mut word_split, object, NextWordType::Oid, parse_mode))
            } else if is_word(first_word, "author") {
                word_read(parse_author_or_committer_line(line, object, true))
            } else if is_word(first_word, "committer") {
                word_read(parse_author_or_committer_line(line, object, false))
            } else if is_word(first_word, "encoding") {
                Ok(())
            } else if is_word(first_word, "data") {
                word_read(parse_next_word(&mut word_split, object, NextWordType::Data, parse_mode))
            } else {
                Err(ParseError::UnknownKeyword)
            }
        },
    }
}

/// What the header lines in `text` from `pos` on make of the header `obj`.
pub open spec fn before_data_from(
    text: Text,
    pos: int,
    mode: BeforeDataParserMode,
    obj: BeforeData,
) -> Result<BeforeData, ParseError>
    decreases text.len() - pos,
{
    if pos < 0 || pos >= text.len() {
        Ok(obj)
    } else {
        let (line, next) = next_line(text, pos);
        proof {
            lemma_scan_to(text, pos, Stop::Newline);
        }
        match before_line(line, mode, obj) {
            Ok((m, o)) => before_data_from(text, next, m, o),
            Err(e) => Err(e),
        }
    }
}

/// What a header says, or the first error in it.
pub open spec fn before_data_of(text: Text) -> Result<BeforeData, ParseError> {
    before_data_from(text, 0, BeforeDataParserMode::Initial, BeforeData::empty())
}

/// Whether the header lines in `text` from `pos` on come to a second
/// `reset` line ahead of one object.
pub open spec fn repeats_reset_from(
    text: Text,
    pos: int,
    mode: BeforeDataParserMode,
    obj: BeforeData,
) -> bool
    decreases text.len() - pos,
{
    if pos < 0 || pos >= text.len() || mode is Commit {
        false
    } else {
        let (line, next) = next_line(text, pos);
        proof {
            lemma_scan_to(text, pos, Stop::Newline);
        }
        if resets_again(line, mode, obj) {
            true
        } else {
            match prelude_line(line, mode, obj) {
                Ok((m, o)) => repeats_reset_from(text, next, m, o),
                Err(_) => false,
            }
        }
    }
}

/// Whether a header holds two `reset` lines ahead of its object.
pub open spec fn repeats_reset_in(text: Text) -> bool {
    repeats_reset_from(text, 0, BeforeDataParserMode::Initial, BeforeData::empty())
}

/// Tells whether a header holds two `reset` lines ahead of its object: the
/// one kind of header that [`parse_before_data`] does not take.
pub fn repeats_reset(text: &[u8]) -> (r: bool)
    ensures
        r == repeats_reset_in(text@),
{
    let mut mode = BeforeDataParserMode::Initial;
    let mut object = BeforeDataObject::default();
    let mut pos: usize = 0;
    while pos < text.len()
        invariant
            repeats_reset_in(text@) == repeats_reset_from(text@, pos as int, mode, object@),
        decreases text.len() - pos,
    {
        if let BeforeDataParserMode::Commit = mode {
            return false;
        }
        let (line, next) = read_line(text, pos);
        proof {
            reveal_strlit("reset");
        }
        if let BeforeDataParserMode::Initial = mode {
            if object.has_reset.is_some() {
                let mut words = Words::new(line);
                if let Some(first) = words.next() {
                    if is_word(first, "reset") && words.next().is_some() {
                        return true;
                    }
                }
            }
        }
        if parse_before_data_line(line, &mut mode, &mut object).is_err() {
            return false;
        }
        pos = next;
    }
    false
}

/// Parses the header of an object.
///
/// A header with two `reset` lines ahead of its object is not provided for:
/// see [`repeats_reset`].
pub fn parse_before_data(before_data_str: &[u8]) -> (r: Result<BeforeDataObject, ParseError>)
    requires
        !repeats_reset_in(before_data_str@),
    ensures
        match before_data_of(before_data_str@) {
            Ok(obj) => r matches Ok(o) && o@ == obj,
            Err(e) => r matches Err(f) && f == e,
        },
{
    let mut parser_mode = BeforeDataParserMode::Initial;
    let mut output_obj = BeforeDataObject::default();
    let mut pos: usize = 0;
    while pos < before_data_str.len()
        invariant
            !repeats_reset_from(before_data_str@, pos as int, parser_mode, output_obj@),
            before_data_of(before_data_str@) == before_data_from(
                before_data_str@,
                pos as int,
                parser_mode,
                output_obj@,
            ),
        decreases before_data_str.len() - pos,
    {
        let (line, next) = read_line(before_data_str, pos);
        match parse_before_data_line(line, &mut parser_mode, &mut output_obj) {
            Ok(_) => {},
            Err(e) => {
                return Err(e);
            },
        }
        pos = next;
    }
    Ok(output_obj)
}

/// The kinds of line that change the tree and have arguments.
#[derive(Clone, Copy, PartialEq, Eq, Debug)]
pub enum FileLine {
    Modify,
    Delete,
    Copy,
    Rename,
    NoteModify,
}

impl FileLine {
    /// The form of this kind of line.
    pub open spec fn pattern(self) -> Seq<char> {
        match self {
            FileLine::Modify => FILE_MODIFY_LINE@,
            FileLine::Delete => FILE_DELETE_LINE@,
            FileLine::Copy => FILE_COPY_LINE@,
            FileLine::Rename => FILE_RENAME_LINE@,
            FileLine::NoteModify => NOTE_MODIFY_LINE@,
        }
    }
}

/// The contents of a file operation that may be absent.
pub open spec fn opt_fileop(op: Option<FileOps>) -> Option<FileOp> {
    match op {
        Some(op) => Some(op@),
        None => None,
    }
}

/// The file operation that the groups of a line of kind `kind` stand for:
/// its arguments are the groups from 1 on, in the order of the line.
pub open spec fn fileop_of(kind: FileLine, g: Groups) -> Option<FileOp> {
    match kind {
        FileLine::Modify => match (group(g, 1), group(g, 2), group(g, 3)) {
            (Some(mode), Some(dataref), Some(path)) => Some(FileOp::Modify(mode, dataref, path)),
            _ => None,
        },
        FileLine::Delete => match group(g, 1) {
            Some(path) => Some(FileOp::Delete(path)),
            None => None,
        },
        FileLine::Copy => match (group(g, 1), group(g, 2)) {
            (Some(src), Some(dst)) => Some(FileOp::Copy(src, dst)),
            _ => None,
        },
        FileLine::Rename => match (group(g, 1), group(g, 2)) {
            (Some(src), Some(dst)) => Some(FileOp::Rename(src, dst)),
            _ => None,
        },
        FileLine::NoteModify => match (group(g, 1), group(g, 2)) {
            (Some(dataref), Some(commitish)) => Some(FileOp::NoteModify(dataref, commitish)),
            _ => None,
        },
    }
}

fn group_text(caps: &Captures, i: usize) -> (r: Option<Vec<u8>>)
    ensures
        opt_text(r) == group(caps@, i as int),
{
    match caps.get(i) {
        Some(t) => Some(to_vec(t.as_slice())),
        None => None,
    }
}

/// Reads a file operation out of what the pattern of `kind` captured.
pub fn fileop_from_captures(kind: FileLine, caps: &Captures) -> (op: Option<FileOps>)
    ensures
        opt_fileop(op) == fileop_of(kind, caps@),
{
    let first = match group_text(caps, 1) {
        Some(t) => t,
        None => {
            return None;
        },
    };
    if let FileLine::Delete = kind {
        return Some(FileOps::FileDelete(first));
    }
    let second = match group_text(caps, 2) {
        Some(t) => t,
        None => {
            return None;
        },
    };
    match kind {
        FileLine::Copy => Some(FileOps::FileCopy(first, second)),
        FileLine::Rename => Some(FileOps::FileRename(first, second)),
        FileLine::NoteModify => Some(FileOps::NoteModify(first, second)),
        _ => match group_text(caps, 3) {
            Some(third) => Some(FileOps::FileModify(first, second, third)),
            None => None,
        },
    }
}

impl AfterData {
    pub open spec fn with_fileop(self, op: FileOp) -> AfterData {
        AfterData { fileops: self.fileops.push(op), ..self }
    }

    /// The parser mode and the contents after the word behind `from` or
    /// `merge` has been read.
    pub open spec fn with_word(self, mode: AfterDataParserMode, word: Text, kind: NextWordType) -> (
        AfterDataParserMode,
        AfterData,
    ) {
        match kind {
            NextWordType::From => (
                AfterDataParserMode::AfterFrom,
                AfterData { from: Some(word), ..self },
            ),
            NextWordType::Merge => (
                AfterDataParserMode::AfterFrom,
                AfterData { merges: self.merges.push(word), ..self },
            ),
            _ => (mode, self),
        }
    }
}

impl AfterDataObject {
    fn push_fileop(&mut self, op: FileOps)
        ensures
            final(self)@ == old(self)@.with_fileop(op@),
    {
        self.fileops.push(op);
        assert(fileops_view(self.fileops@) == fileops_view(old(self).fileops@).push(op@));
    }
}

/// Reads the next word of a line behind the payload and puts it where
/// `next_word_type` says: into `from`, or at the end of the merges.  Gives
/// `None`, and changes nothing, where the line has no word left.
pub fn parse_next_word2(
    word_split: &mut Words,
    object: &mut AfterDataObject,
    next_word_type: NextWordType,
    parse_mode: &mut AfterDataParserMode,
) -> (r: Option<()>)
    ensures
        final(word_split)@.text == old(word_split)@.text,
        match next_word(old(word_split)@.text, old(word_split)@.pos) {
            Some((word, end)) => {
                &&& r is Some
                &&& final(word_split)@.pos == end
                &&& (*final(parse_mode), final(object)@) == old(object)@.with_word(
                    *old(parse_mode),
                    word,
                    next_word_type,
                )
            },
            None => {
                &&& r is None
                &&& final(word_split)@ == old(word_split)@
                &&& *final(parse_mode) == *old(parse_mode)
                &&& final(object)@ == old(object)@
            },
        },
{
    let next_word = match word_split.next() {
        Some(w) => w,
        None => {
            return None;
        },
    };
    match next_word_type {
        NextWordType::From => {
            object.from = Some(to_vec(next_word));
            *parse_mode = AfterDataParserMode::AfterFrom;
        },
        NextWordType::Merge => {
            let merge = to_vec(next_word);
            object.merges.push(merge);
            assert(texts(object.merges@) == texts(old(object).merges@).push(merge@));
            *parse_mode = AfterDataParserMode::AfterFrom;
        },
        _ => {},
    }
    Some(())
}

/// What a line of kind `kind` adds to the contents, or nothing if the line
/// is not of that form.
pub open spec fn after_fileop(kind: FileLine, line: Text, obj: AfterData) -> Option<AfterData> {
    match regex_captures(kind.pattern(), line) {
        Some(g) => match fileop_of(kind, g) {
            Some(op) => Some(obj.with_fileop(op)),
            None => None,
        },
        None => None,
    }
}

fn parse_fileop_line(
    kind: FileLine,
    found: Option<Captures>,
    object: &mut AfterDataObject,
    parse_mode: &mut AfterDataParserMode,
) -> (r: Option<()>)
    ensures
        match opt_groups(found) {
            Some(g) => match fileop_of(kind, g) {
                Some(op) => {
                    &&& r is Some
                    &&& final(object)@ == old(object)@.with_fileop(op)
                    &&& *final(parse_mode) == AfterDataParserMode::AfterMerge
                },
                None => r is None && final(object)@ == old(object)@ && *final(parse_mode) == *old(
                    parse_mode,
                ),
            },
            None => r is None && final(object)@ == old(object)@ && *final(parse_mode) == *old(
                parse_mode,
            ),
        },
{
    let captures = match found {
        Some(c) => c,
        None => {
            return None;
        },
    };
    let fileop = match fileop_from_captures(kind, &captures) {
        Some(op) => op,
        None => {
            return None;
        },
    };
    object.push_fileop(fileop);
    *parse_mode = AfterDataParserMode::AfterMerge;
    Some(())
}

/// What holds after a line of kind `kind` has been read: the operation
/// stands at the end of the file operations and merges are over; or, where
/// the line is not of that form, `None` and nothing changed.
pub open spec fn fileop_line_read(
    kind: FileLine,
    line: Text,
    before: AfterData,
    mode_before: AfterDataParserMode,
    r: Option<()>,
    after: AfterData,
    mode_after: AfterDataParserMode,
) -> bool {
    match after_fileop(kind, line, before) {
        Some(o) => r is Some && after == o && mode_after == AfterDataParserMode::AfterMerge,
        None => r is None && after == before && mode_after == mode_before,
    }
}

pub fn parse_filemodify_line(
    line: &[u8],
    object: &mut AfterDataObject,
    parse_mode: &mut AfterDataParserMode,
) -> (r: Option<()>)
    ensures
        fileop_line_read(
            FileLine::Modify,
            line@,
            old(object)@,
            *old(parse_mode),
            r,
            final(object)@,
            *final(parse_mode),
        ),
{
    parse_fileop_line(FileLine::Modify, get_regex_filemodifyline(line), object, parse_mode)
}

pub fn parse_filedelete_line(
    line: &[u8],
    object: &mut AfterDataObject,
    parse_mode: &mut AfterDataParserMode,
) -> (r: Option<()>)
    ensures
        fileop_line_read(
            FileLine::Delete,
            line@,
            old(object)@,
            *old(parse_mode),
            r,
            final(object)@,
            *final(parse_mode),
        ),
{
    parse_fileop_line(FileLine::Delete, get_regex_filedeleteline(line), object, parse_mode)
}

pub fn parse_filecopy_line(
    line: &[u8],
    object: &mut AfterDataObject,
    parse_mode: &mut AfterDataParserMode,
) -> (r: Option<()>)
    ensures
        fileop_line_read(
            FileLine::Copy,
            line@,
            old(object)@,
            *old(parse_mode),
            r,
            final(object)@,
            *final(parse_mode),
        ),
{
    parse_fileop_line(FileLine::Copy, get_regex_filecopyline(line), object, parse_mode)
}

pub fn parse_filerename_line(
    line: &[u8],
    object: &mut AfterDataObject,
    parse_mode: &mut AfterDataParserMode,
) -> (r: Option<()>)
    ensures
        fileop_line_read(
            FileLine::Rename,
            line@,
            old(object)@,
            *old(parse_mode),
            r,
            final(object)@,
            *final(parse_mode),
        ),
{
    parse_fileop_line(FileLine::Rename, get_regex_filerenameline(line), object, parse_mode)
}

pub fn parse_notemodify_line(
    line: &[u8],
    object: &mut AfterDataObject,
    parse_mode: &mut AfterDataParserMode,
) -> (r: Option<()>)
    ensures
        fileop_line_read(
            FileLine::NoteModify,
            line@,
            old(object)@,
            *old(parse_mode),
            r,
            final(object)@,
            *final(parse_mode),
        ),
{
    parse_fileop_line(FileLine::NoteModify, get_regex_notemodifyline(line), object, parse_mode)
}

/// What the word behind `from` or `merge` does, or the error if the line
/// has no word there.
pub open spec fn after_word(
    line: Text,
    from: int,
    kind: NextWordType,
    mode: AfterDataParserMode,
    obj: AfterData,
) -> Result<(AfterDataParserMode, AfterData), ParseError> {
    match next_word(line, from) {
        Some((word, _)) => Ok(obj.with_word(mode, word, kind)),
        None => Err(ParseError::MalformedLine),
    }
}

/// What a line that changes the tree does, or the error if it is not of
/// the form of its kind.
pub open spec fn after_fileop_line(kind: FileLine, line: Text, obj: AfterData) -> Result<
    (AfterDataParserMode, AfterData),
    ParseError,
> {
    match after_fileop(kind, line, obj) {
        Some(o) => Ok((AfterDataParserMode::AfterMerge, o)),
        None => Err(ParseError::MalformedLine),
    }
}

/// The parser mode and the contents after one more line behind the
/// payload, or the error that the line is.
///
/// `from` comes first and once, `merge` lines follow, then the file
/// operations in any number and order.  A line without a word changes
/// nothing.  A word that is no command is passed over ahead of the first
/// command and is an error behind it.
pub open spec fn after_line(line: Text, mode: AfterDataParserMode, obj: AfterData) -> Result<
    (AfterDataParserMode, AfterData),
    ParseError,
> {
    match next_word(line, 0) {
        None => Ok((mode, obj)),
        Some((word, end)) => if word == ascii("from"@) && mode is Initial {
            after_word(line, end, NextWordType::From, mode, obj)
        } else if word == ascii("merge"@) && !(mode is AfterMerge) {
            after_word(line, end, NextWordType::Merge, mode, obj)
        } else if word == ascii("M"@) {
            after_fileop_line(FileLine::Modify, line, obj)
        } else if word == ascii("D"@) {
            after_fileop_line(FileLine::Delete, line, obj)
        } else if word == ascii("C"@) {
            after_fileop_line(FileLine::Copy, line, obj)
        } else if word == ascii("R"@) {
            after_fileop_line(FileLine::Rename, line, obj)
        } else if word == ascii("N"@) {
            after_fileop_line(FileLine::NoteModify, line, obj)
        } else if word == ascii("deleteall"@) {
            Ok((AfterDataParserMode::AfterMerge, obj.with_fileop(FileOp::DeleteAll)))
        } else if mode is Initial {
            Ok((mode, obj))
        } else {
            Err(ParseError::UnknownKeyword)
        },
    }
}

/// Reads one line behind the payload into `object`.  On an error nothing
/// is changed.
pub fn parse_after_data_line(
    line: &[u8],
    parse_mode: &mut AfterDataParserMode,
    object: &mut AfterDataObject,
) -> (r: Result<(), ParseError>)
    ensures
        match after_line(line@, *old(parse_mode), old(object)@) {
            Ok((mode, obj)) => r is Ok && *final(parse_mode) == mode && final(object)@ == obj,
            Err(e) => r == Err::<(), ParseError>(e) && *final(parse_mode) == *old(parse_mode)
                && final(object)@ == old(object)@,
        },
{
    let mut word_split = Words::new(line);
    let first_word = match word_split.next() {
        Some(w) => w,
        None => {
            return Ok(());
        },
    };
    proof {
        reveal_strlit("from");
        reveal_strlit("merge");
        reveal_strlit("M");
        reveal_strlit("D");
        reveal_strlit("C");
        reveal_strlit("R");
        reveal_strlit("N");
        reveal_strlit("deleteall");
    }
    let initial: bool = match *parse_mode {
        AfterDataParserMode::Initial => true,
        _ => false,
    };
    let merging: bool = match *parse_mode {
        AfterDataParserMode::AfterMerge => false,
        _ => true,
    };
    if initial && is_word(first_word, "from") {
        word_read(parse_next_word2(&mut word_split, object, NextWordType::From, parse_mode))
    } else if merging && is_word(first_word, "merge") {
        word_read(parse_next_word2(&mut word_split, object, NextWordType::Merge, parse_mode))
    } else if is_word(first_word, "M") {
        word_read(parse_filemodify_line(line, object, parse_mode))
    } else if is_word(first_word, "D") {
        word_read(parse_filedelete_line(line, object, parse_mode))
    } else if is_word(first_word, "C") {
        word_read(parse_filecopy_line(line, object, parse_mode))
    } else if is_word(first_word, "R") {
        word_read(parse_filerename_line(line, object, parse_mode))
    } else if is_word(first_word, "N") {
        word_read(parse_notemodify_line(line, object, parse_mode))
    } else if is_word(first_word, "deleteall") {
        object.push_fileop(FileOps::FileDeleteAll);
        *parse_mode = AfterDataParserMode::AfterMerge;
        Ok(())
    } else if initial {
        Ok(())
    } else {
        Err(ParseError::UnknownKeyword)
    }
}

/// What the lines in `text` from `pos` on add to the contents `obj`.
pub open spec fn after_data_from(
    text: Text,
    pos: int,
    mode: AfterDataParserMode,
    obj: AfterData,
) -> Result<AfterData, ParseError>
    decreases text.len() - pos,
{
    if pos < 0 || pos >= text.len() {
        Ok(obj)
    } else {
        let (line, next) = next_line(text, pos);
        proof {
            lemma_scan_to(text, pos, Stop::Newline);
        }
        match after_line(line, mode, obj) {
            Ok((m, o)) => after_data_from(text, next, m, o),
            Err(e) => Err(e),
        }
    }
}

/// What the lines behind a payload say, or the first error in them.
pub open spec fn after_data_of(text: Text) -> Result<AfterData, ParseError> {
    after_data_from(text, 0, AfterDataParserMode::Initial, AfterData::empty())
}

/// Parses the lines behind the payload of an object.
pub fn parse_after_data(after_data_str: &[u8]) -> (r: Result<AfterDataObject, ParseError>)
    ensures
        match after_data_of(after_data_str@) {
            Ok(obj) => r matches Ok(o) && o@ == obj,
            Err(e) => r matches Err(f) && f == e,
        },
{
    let mut parser_mode = AfterDataParserMode::Initial;
    let mut output_obj = AfterDataObject::default();
    let mut pos: usize = 0;
    while pos < after_data_str.len()
        invariant
            after_data_of(after_data_str@) == after_data_from(
                after_data_str@,
                pos as int,
                parser_mode,
                output_obj@,
            ),
        decreases after_data_str.len() - pos,
    {
        let (line, next) = read_line(after_data_str, pos);
        match parse_after_data_line(line, &mut parser_mode, &mut output_obj) {
            Ok(_) => {},
            Err(e) => {
                return Err(e);
            },
        }
        pos = next;
    }
    Ok(output_obj)
}

/// A commit, whole.
#[derive(Debug, Clone, PartialEq, Eq)]
pub struct StructuredCommitObject {
    pub commit_ref: Vec<u8>,
    /// Of the form `:N`.
    pub mark: Option<Vec<u8>>,
    pub oid: Vec<u8>,
    pub author: CommitPerson,
    pub committer: CommitPerson,
    /// The payload.
    pub commit_message: Vec<u8>,
    pub from: Option<Vec<u8>>,
    /// In the order of the `merge` lines.
    pub merges: Vec<Vec<u8>>,
    /// In the order of their lines.
    pub fileops: Vec<FileOps>,
}

/// The contents of a [`StructuredCommitObject`].
pub struct Commit {
    pub commit_ref: Text,
    pub mark: Option<Text>,
    pub oid: Text,
    pub author: PersonView,
    pub committer: PersonView,
    pub commit_message: Seq<u8>,
    pub from: Option<Text>,
    pub merges: Seq<Text>,
    pub fileops: Seq<FileOp>,
}

impl View for StructuredCommitObject {
    type V = Commit;

    open spec fn view(&self) -> Commit {
        Commit {
            commit_ref: self.commit_ref@,
            mark: opt_text(self.mark),
            oid: self.oid@,
            author: self.author@,
            committer: self.committer@,
            commit_message: self.commit_message@,
            from: opt_text(self.from),
            merges: texts(self.merges@),
            fileops: fileops_view(self.fileops@),
        }
    }
}

/// A blob, whole.
#[derive(Debug, Clone, PartialEq, Eq)]
pub struct StructuredBlobObject {
    pub mark: Option<Vec<u8>>,
    pub oid: Option<Vec<u8>>,
    /// The payload.
    pub data: Vec<u8>,
}

/// The contents of a [`StructuredBlobObject`].
pub struct Blob {
    pub mark: Option<Text>,
    pub oid: Option<Text>,
    pub data: Seq<u8>,
}

impl View for StructuredBlobObject {
    type V = Blob;

    open spec fn view(&self) -> Blob {
        Blob { mark: opt_text(self.mark), oid: opt_text(self.oid), data: self.data@ }
    }
}

/// A blob or a commit, whole.
#[derive(Debug, Clone, PartialEq, Eq)]
pub enum StructuredObjectType {
    Blob(StructuredBlobObject),
    Commit(StructuredCommitObject),
}

/// The contents of a [`StructuredObjectType`].
pub enum ObjectBody {
    Blob(Blob),
    Commit(Commit),
}

impl View for StructuredObjectType {
    type V = ObjectBody;

    open spec fn view(&self) -> ObjectBody {
        match self {
            StructuredObjectType::Blob(b) => ObjectBody::Blob(b@),
            StructuredObjectType::Commit(c) => ObjectBody::Commit(c@),
        }
    }
}

/// One object of the export stream in structured form, with the reset and
/// feature lines that stood ahead of it.
#[derive(Debug, Clone, PartialEq, Eq)]
pub struct StructuredExportObject {
    /// The ref of a `reset` line ahead of the object.
    pub has_reset: Option<Vec<u8>>,
    /// The commit-ish of a `from` line behind that `reset`.
    pub has_reset_from: Option<Vec<u8>>,
    /// Whether a `feature` line stands ahead of the object.
    pub has_feature_done: bool,
    pub object_type: StructuredObjectType,
}

/// The contents of a [`StructuredExportObject`].
pub struct Structured {
    pub has_reset: Option<Text>,
    pub has_reset_from: Option<Text>,
    pub has_feature_done: bool,
    pub object_type: ObjectBody,
}

impl View for StructuredExportObject {
    type V = Structured;

    open spec fn view(&self) -> Structured {
        Structured {
            has_reset: opt_text(self.has_reset),
            has_reset_from: opt_text(self.has_reset_from),
            has_feature_done: self.has_feature_done,
            object_type: self.object_type@,
        }
    }
}

/// The structured object made of a parsed header, a payload, and the
/// parsed lines behind the payload.  The payload is the message of a commit
/// and the contents of a blob; a blob takes nothing from the lines behind
/// its payload.
pub open spec fn assembled(before: BeforeData, data: Seq<u8>, after: AfterData) -> Structured {
    Structured {
        has_reset: before.has_reset,
        has_reset_from: before.has_reset_from,
        has_feature_done: before.has_feature_done,
        object_type: match before.object {
            ObjectHeader::Commit(c) => ObjectBody::Commit(
                Commit {
                    commit_ref: c.refname,
                    mark: c.mark,
                    oid: c.oid,
                    author: c.author,
                    committer: c.committer,
                    commit_message: data,
                    from: after.from,
                    merges: after.merges,
                    fileops: after.fileops,
                },
            ),
            ObjectHeader::Blob(b) => ObjectBody::Blob(Blob { mark: b.mark, oid: b.oid, data }),
        },
    }
}

/// What an unparsed object says, or the first error in it: an error in the
/// header comes before one in the lines behind the payload.
pub open spec fn structured_of(frame: Frame) -> Result<Structured, ParseError> {
    match before_data_of(frame.before) {
        Err(e) => Err(e),
        Ok(before) => match after_data_of(frame.after) {
            Err(e) => Err(e),
            Ok(after) => Ok(assembled(before, frame.data, after)),
        },
    }
}

/// Puts the parts of an object together.
pub fn assemble(before: BeforeDataObject, data: Vec<u8>, after: AfterDataObject) -> (obj:
    StructuredExportObject)
    ensures
        obj@ == assembled(before@, data@, after@),
{
    let BeforeDataObject { has_reset, has_reset_from, has_feature_done, object, data: _ } = before;
    let AfterDataObject { from, merges, fileops } = after;
    let object_type = match object {
        ObjectType::Commit(c) => {
            let CommitObject { refname, mark, oid, author, committer } = c;
            StructuredObjectType::Commit(
                StructuredCommitObject {
                    commit_ref: refname,
                    mark,
                    oid,
                    author,
                    committer,
                    commit_message: data,
                    from,
                    merges,
                    fileops,
                },
            )
        },
        ObjectType::Blob(b) => {
            let BlobObject { mark, oid } = b;
            StructuredObjectType::Blob(StructuredBlobObject { mark, oid, data })
        },
    };
    StructuredExportObject { has_reset, has_reset_from, has_feature_done, object_type }
}

/// Parses an unparsed object.
///
/// An object with two `reset` lines ahead of it is not provided for: see
/// [`repeats_reset`].
pub fn parse_into_structured_object(unparsed: UnparsedFastExportObject) -> (r: Result<
    StructuredExportObject,
    ParseError,
>)
    requires
        !repeats_reset_in(unparsed@.before),
    ensures
        match structured_of(unparsed@) {
            Ok(obj) => r matches Ok(o) && o@ == obj,
            Err(e) => r matches Err(f) && f == e,
        },
{
    let UnparsedFastExportObject { before_data_str, data, after_data_str } = unparsed;
    let before_data_obj = match parse_before_data(before_data_str.as_slice()) {
        Ok(o) => o,
        Err(e) => {
            return Err(e);
        },
    };
    let after_data_obj = match parse_after_data(after_data_str.as_slice()) {
        Ok(o) => o,
        Err(e) => {
            return Err(e);
        },
    };
    Ok(assemble(before_data_obj, data, after_data_obj))
}

} // verus!
