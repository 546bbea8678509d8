//! Filtering: every object of an export stream is shown to a callback, which
//! may change it and decides whether it is written out.

use vstd::prelude::*;
use vstd::string::*;

use crate::export_parser::reorder::objects_view;
use crate::export_parser::serialize::{serialized, write_to_stream};
use crate::export_parser::structured_parse::{Structured, StructuredExportObject};
use crate::export_parser::{parse_objects, resets_once, stream_objects, StreamError};
use crate::text::{ascii, ascii_bytes, push_bytes, NEWLINE};

verus! {

/// A rule on paths.
#[derive(Debug, Clone, PartialEq, Eq)]
pub enum FilterRule {
    FilterRulePathInclude(String),
    FilterRulePathExclude(String),
}

pub type FilterRules = Vec<FilterRule>;

/// The options with which filtering starts.  The rules that say what is
/// filtered are apart, in [`FilterRules`].
#[derive(Debug, Clone, PartialEq, Eq)]
pub struct FilterOptions {
    /// Where the filtered stream is written.
    pub stream: Vec<u8>,
    /// The branch to export; `master` where none is given.
    pub branch: Option<String>,
    /// Whether the export carries the contents of blobs.
    pub with_blobs: bool,
    /// The number of parser workers; as many as suit the machine where none
    /// is given.
    pub num_threads: Option<usize>,
}

impl Default for FilterOptions {
    fn default() -> (o: FilterOptions)
        ensures
            o.stream@ == Seq::<u8>::empty(),
            o.branch is None,
            !o.with_blobs,
            o.num_threads is None,
    {
        FilterOptions { stream: Vec::new(), branch: None, with_blobs: false, num_threads: None }
    }
}

impl From<Vec<u8>> for FilterOptions {
    fn from(orig: Vec<u8>) -> (o: FilterOptions) {
        FilterOptions { stream: orig, branch: None, with_blobs: false, num_threads: None }
    }
}

impl vstd::std_specs::convert::FromSpecImpl<Vec<u8>> for FilterOptions {
    open spec fn obeys_from_spec() -> bool {
        true
    }

    open spec fn from_spec(orig: Vec<u8>) -> FilterOptions {
        FilterOptions { stream: orig, branch: None, with_blobs: false, num_threads: None }
    }
}

/// The line that closes a filtered stream.
pub open spec fn done_line() -> Seq<u8> {
    ascii("done"@) + seq![NEWLINE]
}

/// What is written for an object that the filter has seen: the object as it
/// is then, if it is kept, and nothing at all if it is dropped.
pub open spec fn filtered(obj: Structured, keep: bool) -> Seq<u8> {
    if keep {
        serialized(obj)
    } else {
        Seq::empty()
    }
}

/// Shows `obj` to `cb` and writes it to `stream` if `cb` keeps it.  `cb` may
/// change the object; it is written as `cb` left it.
pub fn filter_object<F: FnMut(&mut StructuredExportObject) -> bool>(
    stream: &mut Vec<u8>,
    obj: &mut StructuredExportObject,
    cb: &mut F,
) -> (keep: bool)
    requires
        forall|o: &mut StructuredExportObject| call_requires(*old(cb), (o,)),
    ensures
        *final(cb) == *old(cb),
        exists|r: &mut StructuredExportObject|
            mut_ref_current(r) == *old(obj) && mut_ref_future(r) == *final(obj)
                && #[trigger] call_ensures(*old(cb), (r,), keep),
        final(stream)@ == old(stream)@ + filtered(final(obj)@, keep),
{
    let keep = cb(obj);
    if keep {
        write_to_stream(stream, obj);
    } else {
        assert(stream@ == old(stream)@ + Seq::<u8>::empty());
    }
    keep
}

/// What closes the output: the `done` line behind a stream that was read
/// to its end without error, nothing otherwise.
pub open spec fn closing(failure: Option<StreamError>) -> Seq<u8> {
    if failure is None {
        done_line()
    } else {
        Seq::empty()
    }
}

/// How filtering a stream ends: with the first error in the stream, if it
/// has one.
pub open spec fn outcome(failure: Option<StreamError>) -> Result<(), StreamError> {
    match failure {
        None => Ok(()),
        Some(e) => Err(e),
    }
}

/// `cb`, shown the object `obj` through `seen`, can answer `keep`.
pub open spec fn shows<F: FnMut(&mut StructuredExportObject) -> bool>(
    cb: F,
    seen: &mut StructuredExportObject,
    obj: Structured,
    keep: bool,
) -> bool {
    mut_ref_current(seen)@ == obj && call_ensures(cb, (seen,), keep)
}

/// `i` is a place among `n` objects.
pub open spec fn place(i: int, n: nat) -> bool {
    0 <= i < n
}

/// All of `parts` in a row.
pub open spec fn concat_all(parts: Seq<Seq<u8>>) -> Seq<u8>
    decreases parts.len(),
{
    if parts.len() == 0 {
        Seq::empty()
    } else {
        concat_all(parts.drop_last()) + parts.last()
    }
}

/// Filters an export stream.  Each object of `export`, in stream order, is
/// parsed and shown to `cb`, which may change it; it is then written to the
/// stream of `options` as `cb` left it, if `cb` answers `true`, and leaves
/// no trace there if `cb` answers `false`.  A `done` line closes the output.
///
/// Objects are read up to the first error in `export`; what `cb` keeps of
/// them is written, the `done` line is not, and the error is returned.
///
/// An export in which an object has two `reset` lines ahead of it is not
/// provided for.
pub fn filter_with_cb<F: FnMut(&mut StructuredExportObject) -> bool>(
    options: &mut FilterOptions,
    export: &[u8],
    cb: F,
) -> (r: Result<(), StreamError>)
    requires
        resets_once(export@),
        forall|o: &mut StructuredExportObject| call_requires(cb, (o,)),
    ensures
        final(options).branch == old(options).branch,
        final(options).with_blobs == old(options).with_blobs,
        final(options).num_threads == old(options).num_threads,
        r == outcome(stream_objects(export@).1),
        exists|written: Seq<Seq<u8>>|
            {
                &&& written.len() == stream_objects(export@).0.len()
                &&& forall|i: int| #[trigger]
                    place(i, written.len()) ==> exists|
                        seen: &mut StructuredExportObject,
                        keep: bool,
                    |
                        {
                            &&& #[trigger] shows(cb, seen, stream_objects(export@).0[i], keep)
                            &&& written[i] == filtered(mut_ref_future(seen)@, keep)
                        }
                &&& final(options).stream@ == old(options).stream@ + #[trigger] concat_all(written)
                    + closing(stream_objects(export@).1)
            },
{
    let mut call = cb;
    let (objects, failure) = parse_objects(export);
    let ghost all = objects_view(objects@);
    let ghost mut written: Seq<Seq<u8>> = Seq::empty();
    let mut out: Vec<u8> = Vec::new();
    std::mem::swap(&mut out, &mut options.stream);
    assert(out@ == old(options).stream@ + concat_all(written));
    for obj in it: objects
        invariant
            call == cb,
            forall|o: &mut StructuredExportObject| call_requires(cb, (o,)),
            it.seq().map_values(|o: StructuredExportObject| o@) == all,
            written.len() == it.index(),
            forall|i: int| #[trigger]
                place(i, written.len()) ==> exists|seen: &mut StructuredExportObject, keep: bool|
                    {
                        &&& #[trigger] shows(cb, seen, all[i], keep)
                        &&& written[i] == filtered(mut_ref_future(seen)@, keep)
                    },
            out@ == old(options).stream@ + concat_all(written),
    {
        let ghost i = it.index() as int;
        let ghost so_far = written;
        assert(all[i] == obj@);
        let mut obj = obj;
        let ghost shown = obj;
        let keep = filter_object(&mut out, &mut obj, &mut call);
        proof {
            written = so_far.push(filtered(obj@, keep));
            assert(written.drop_last() == so_far);
            assert(out@ == old(options).stream@ + concat_all(written));
            assert forall|j: int| #[trigger] place(j, written.len()) implies exists|
                seen: &mut StructuredExportObject,
                keep: bool,
            |
                {
                    &&& #[trigger] shows(cb, seen, all[j], keep)
                    &&& written[j] == filtered(mut_ref_future(seen)@, keep)
                } by {
                if j < i {
                    assert(place(j, so_far.len()));
                    assert(written[j] == so_far[j]);
                } else {
                    let seen = choose|seen: &mut StructuredExportObject|
                        mut_ref_current(seen) == shown && mut_ref_future(seen) == obj
                            && #[trigger] call_ensures(cb, (seen,), keep);
                    assert(shows(cb, seen, all[j], keep));
                    assert(written[j] == filtered(mut_ref_future(seen)@, keep));
                }
            }
        }
    }
    assert(written.len() == stream_objects(export@).0.len());
    if failure.is_none() {
        proof {
            reveal_strlit("done");
        }
        push_bytes(&mut out, ascii_bytes("done"));
        out.push(NEWLINE);
    }
    assert(out@ == old(options).stream@ + concat_all(written) + closing(failure));
    options.stream = out;
    match failure {
        None => Ok(()),
        Some(e) => Err(e),
    }
}

/// What is written for each of `objects` when all are kept as they are.
pub open spec fn all_written(objects: Seq<Structured>) -> Seq<Seq<u8>> {
    objects.map_values(|o: Structured| serialized(o))
}

/// Filters an export stream by rules on paths.  The rules are taken along
/// and none of them takes anything out: every object of `export` is written
/// as it was parsed, up to the first error in `export`, and a `done` line
/// closes the output of a stream without error.
///
/// An export in which an object has two `reset` lines ahead of it is not
/// provided for.
pub fn filter_with_rules(
    options: &mut FilterOptions,
    filter_rules: FilterRules,
    export: &[u8],
) -> (r: Result<(), StreamError>)
    requires
        resets_once(export@),
    ensures
        final(options).branch == old(options).branch,
        final(options).with_blobs == old(options).with_blobs,
        final(options).num_threads == old(options).num_threads,
        r == outcome(stream_objects(export@).1),
        final(options).stream@ == old(options).stream@ + concat_all(
            all_written(stream_objects(export@).0),
        ) + closing(stream_objects(export@).1),
{
    let mut cb = |obj: &mut StructuredExportObject| -> (keep: bool)
        ensures
            keep,
            *final(obj) == *old(obj),
        { true };
    let (objects, failure) = parse_objects(export);
    let ghost all = objects_view(objects@);
    let mut out: Vec<u8> = Vec::new();
    std::mem::swap(&mut out, &mut options.stream);
    assert(all_written(all.take(0)) == Seq::<Seq<u8>>::empty());
    assert(out@ == old(options).stream@ + concat_all(all_written(all.take(0))));
    for obj in it: objects
        invariant
            forall|o: &mut StructuredExportObject| call_requires(cb, (o,)),
            forall|o: &mut StructuredExportObject, keep: bool|
                call_ensures(cb, (o,), keep) ==> keep && mut_ref_future(o) == mut_ref_current(o),
            it.seq().map_values(|o: StructuredExportObject| o@) == all,
            out@ == old(options).stream@ + concat_all(all_written(all.take(it.index() as int))),
    {
        let ghost i = it.index() as int;
        assert(all[i] == obj@);
        let mut obj = obj;
        let keep = filter_object(&mut out, &mut obj, &mut cb);
        proof {
            let now = all_written(all.take(i + 1));
            assert(now.drop_last() == all_written(all.take(i)));
            assert(now.last() == serialized(all[i]));
        }
    }
    assert(all.take(all.len() as int) == all);
    if failure.is_none() {
        proof {
            reveal_strlit("done");
        }
        push_bytes(&mut out, ascii_bytes("done"));
        out.push(NEWLINE);
    }
    assert(out@ == old(options).stream@ + concat_all(all_written(all)) + closing(failure));
    options.stream = out;
    match failure {
        None => Ok(()),
        Some(e) => Err(e),
    }
}

/// Drop correctness.  An object that the filter drops leaves nothing in
/// the output: the output is what it would be had the object never been in
/// the stream.
pub proof fn lemma_dropped_leaves_no_trace(written: Seq<Seq<u8>>, k: int, obj: Structured)
    requires
        0 <= k < written.len(),
        written[k] == filtered(obj, false),
    ensures
        concat_all(written) == concat_all(written.remove(k)),
    decreases written.len(),
{
    if k == written.len() - 1 {
        assert(written.remove(k) == written.drop_last());
        assert(concat_all(written) == concat_all(written.drop_last()) + Seq::<u8>::empty());
    } else {
        lemma_dropped_leaves_no_trace(written.drop_last(), k, obj);
        assert(written.remove(k).drop_last() == written.drop_last().remove(k));
        assert(written.remove(k).last() == written.last());
    }
}

} // verus!
