//! Collecting the files of one resource type below a set of sources.
//!
//! A source is a directory, or names a file in one. Below the directory, the
//! bucket directories of the type are searched one level deep, and every
//! resource file in them is recorded under its canonical name; a source that
//! names a file admits only the files of exactly that name.
//!
//! The collector reads no directory itself. It says what it needs to know
//! next, takes the answer, and decides how to go on: the caller does the
//! reading.

use vstd::prelude::*;
use crate::classify::{is_bucket_dir, is_resource_file, valid_res, valid_res_path};
use crate::entries::{added, lemma_added_well_formed, texts, well_formed, Entries, EntryView};
use crate::error::Error;
use crate::path::{file_name, locate, located, opt_text, path_file_name};
use crate::sanitize::{sanitize_name, sanitize_path};
use crate::text::str_eq;

verus! {

/// Whether a file found in a bucket directory is taken: it is a resource
/// file, and bears the name that the source asked for, where it asked for one.
pub open spec fn accepts(filter: Option<Seq<char>>, path: Seq<char>) -> bool {
    is_resource_file(path) && (filter is Some ==> path_file_name(path) == filter)
}

/// The collection after the file `path` of a bucket directory was looked at:
/// recorded under its canonical name where it is taken and has a name.
pub open spec fn found(files: Seq<EntryView>, filter: Option<Seq<char>>, path: Seq<char>) -> Seq<
    EntryView,
> {
    if accepts(filter, path) {
        match sanitize_path(path) {
            Some(name) => added(files, name, path),
            None => files,
        }
    } else {
        files
    }
}

/// The collection after all of `children`, the content of one bucket
/// directory, were looked at in their order.
pub open spec fn found_all(
    files: Seq<EntryView>,
    filter: Option<Seq<char>>,
    children: Seq<Seq<char>>,
) -> Seq<EntryView>
    decreases children.len(),
{
    if children.len() == 0 {
        files
    } else {
        found(found_all(files, filter, children.drop_last()), filter, children.last())
    }
}

/// Those of `children` that are bucket directories of the type, in their
/// order.
pub open spec fn bucket_dirs_of(res_type: Seq<char>, children: Seq<Seq<char>>) -> Seq<Seq<char>>
    decreases children.len(),
{
    if children.len() == 0 {
        Seq::empty()
    } else {
        let before = bucket_dirs_of(res_type, children.drop_last());
        if is_bucket_dir(res_type, children.last()) {
            before.push(children.last())
        } else {
            before
        }
    }
}

/// Looking at files keeps a collection well formed.
pub proof fn lemma_found_all_well_formed(
    files: Seq<EntryView>,
    filter: Option<Seq<char>>,
    children: Seq<Seq<char>>,
)
    requires
        well_formed(files),
    ensures
        well_formed(found_all(files, filter, children)),
    decreases children.len(),
{
    if children.len() > 0 {
        lemma_found_all_well_formed(files, filter, children.drop_last());
        let before = found_all(files, filter, children.drop_last());
        match sanitize_path(children.last()) {
            Some(name) => {
                lemma_added_well_formed(before, name, children.last());
            },
            None => {},
        }
    }
}

/// Whether the file `path` is taken under `filter`.
pub fn admits(filter: &Option<String>, path: &str) -> (r: bool)
    ensures
        r == accepts(opt_text(*filter), path@),
{
    if !valid_res(path) {
        return false;
    }
    match filter {
        Some(wanted) => match file_name(path) {
            Some(name) => str_eq(name.as_str(), wanted.as_str()),
            None => false,
        },
        None => true,
    }
}

/// Records those of `children`, the content of one bucket directory, that
/// are taken under `filter`.
pub fn collect_into(files: &mut Entries, filter: &Option<String>, children: &Vec<String>)
    requires
        old(files).wf(),
    ensures
        final(files)@ == found_all(old(files)@, opt_text(*filter), texts(children@)),
        final(files).wf(),
{
    let ghost start = files@;
    let ghost all = texts(children@);
    let mut i: usize = 0;
    while i < children.len()
        invariant
            all == texts(children@),
            i <= children@.len(),
            files.wf(),
            files@ == found_all(start, opt_text(*filter), all.take(i as int)),
        decreases children@.len() - i,
    {
        proof {
            assert(all.take(i + 1).drop_last() =~= all.take(i as int));
            assert(all.take(i + 1).last() == children@[i as int]@);
        }
        let path: &str = children[i].as_str();
        if admits(filter, path) {
            match sanitize_name(path) {
                Some(name) => {
                    files.add(name, path.to_owned());
                },
                None => {},
            }
        }
        i += 1;
    }
    assert(all.take(children@.len() as int) =~= all);
}

/// Those of `children` that are bucket directories of the type.
pub fn bucket_dirs(res_type: &str, children: &Vec<String>) -> (r: Vec<String>)
    ensures
        texts(r@) == bucket_dirs_of(res_type@, texts(children@)),
{
    let ghost all = texts(children@);
    let mut r: Vec<String> = Vec::new();
    let mut i: usize = 0;
    assert(texts(r@) =~= Seq::<Seq<char>>::empty());
    while i < children.len()
        invariant
            all == texts(children@),
            i <= children@.len(),
            texts(r@) == bucket_dirs_of(res_type@, all.take(i as int)),
        decreases children@.len() - i,
    {
        proof {
            assert(all.take(i + 1).drop_last() =~= all.take(i as int));
            assert(all.take(i + 1).last() == children@[i as int]@);
        }
        if valid_res_path(res_type, children[i].as_str()) {
            let ghost before = texts(r@);
            r.push(children[i].clone());
            assert(texts(r@) =~= before.push(children@[i as int]@));
        }
        i += 1;
    }
    assert(all.take(children@.len() as int) =~= all);
    r
}

/// What the collector needs to know next.
#[derive(Debug, PartialEq, Eq)]
pub enum Request {
    /// Whether this path is an existing directory.
    IsDir(String),
    /// The paths of the immediate children of this directory.
    ReadDir(String),
    /// Nothing more: the collection is complete.
    Done,
    /// Nothing more: the collection was given up.
    Failed(Error),
}

/// A `Request` as a value.
pub ghost enum RequestView {
    IsDir(Seq<char>),
    ReadDir(Seq<char>),
    Done,
    Failed(Error),
}

impl View for Request {
    type V = RequestView;

    open spec fn view(&self) -> RequestView {
        match self {
            Request::IsDir(path) => RequestView::IsDir(path@),
            Request::ReadDir(path) => RequestView::ReadDir(path@),
            Request::Done => RequestView::Done,
            Request::Failed(e) => RequestView::Failed(*e),
        }
    }
}

/// What the caller found out.
#[derive(Debug)]
pub enum Answer {
    /// Whether the path is an existing directory.
    IsDir(bool),
    /// The paths of the directory's immediate children.
    Children(Vec<String>),
    /// The directory could not be read.
    Failed(Error),
}

/// An `Answer` as a value.
pub ghost enum AnswerView {
    IsDir(bool),
    Children(Seq<Seq<char>>),
    Failed(Error),
}

impl View for Answer {
    type V = AnswerView;

    open spec fn view(&self) -> AnswerView {
        match self {
            Answer::IsDir(is_dir) => AnswerView::IsDir(*is_dir),
            Answer::Children(children) => AnswerView::Children(texts(children@)),
            Answer::Failed(e) => AnswerView::Failed(*e),
        }
    }
}

/// Where the collector stands with the source it works on.
enum Stage {
    Probe,
    Search { root: String, filter: Option<String> },
    Read { filter: Option<String>, buckets: Vec<String>, listed: usize },
    Done,
    Failed(Error),
}

/// Where a collection stands with the source it works on.
pub ghost enum StageView {
    /// It is to learn whether the source is a directory.
    Probe,
    /// It is to read the directory `root` that the source points to, and will
    /// take the files named `filter`, or all where there is no filter.
    Search { root: Seq<char>, filter: Option<Seq<char>> },
    /// It is to read the bucket directory `buckets[listed]`, having read
    /// those before it.
    Read { filter: Option<Seq<char>>, buckets: Seq<Seq<char>>, listed: nat },
    /// Every source was dealt with.
    Done,
    /// It was given up.
    Failed(Error),
}

impl View for Stage {
    type V = StageView;

    closed spec fn view(&self) -> StageView {
        match self {
            Stage::Probe => StageView::Probe,
            Stage::Search { root, filter } => StageView::Search {
                root: root@,
                filter: opt_text(*filter),
            },
            Stage::Read { filter, buckets, listed } => StageView::Read {
                filter: opt_text(*filter),
                buckets: texts(buckets@),
                listed: *listed as nat,
            },
            Stage::Done => StageView::Done,
            Stage::Failed(e) => StageView::Failed(*e),
        }
    }
}

/// A collection in progress.
pub struct Collector {
    res_type: String,
    sources: Vec<String>,
    current: usize,
    stage: Stage,
    files: Entries,
}

/// A collection in progress, as a value: the type, the sources, the index of
/// the source that is worked on, the stage of that work, and the files found
/// so far.
pub ghost struct CollectorView {
    pub res_type: Seq<char>,
    pub sources: Seq<Seq<char>>,
    pub current: nat,
    pub stage: StageView,
    pub files: Seq<EntryView>,
}

impl View for Collector {
    type V = CollectorView;

    closed spec fn view(&self) -> CollectorView {
        CollectorView {
            res_type: self.res_type@,
            sources: texts(self.sources@),
            current: self.current as nat,
            stage: self.stage@,
            files: self.files@,
        }
    }
}

/// A collection that waits for an answer: it works on one of its sources,
/// and where it reads bucket directories one of them is left to read.
pub open spec fn active(s: CollectorView) -> bool {
    &&& s.current < s.sources.len()
    &&& match s.stage {
        StageView::Probe => true,
        StageView::Search { .. } => true,
        StageView::Read { filter, buckets, listed } => listed < buckets.len(),
        StageView::Done => false,
        StageView::Failed(_) => false,
    }
}

/// A collection that has come to its end, one way or the other.
pub open spec fn finished(s: CollectorView) -> bool {
    s.stage is Done || s.stage is Failed
}

/// The states that a collection goes through.
pub open spec fn sound(s: CollectorView) -> bool {
    well_formed(s.files) && (active(s) || finished(s))
}

/// The collection at its start.
pub open spec fn start(res_type: Seq<char>, sources: Seq<Seq<char>>) -> CollectorView {
    CollectorView {
        res_type: res_type,
        sources: sources,
        current: 0,
        stage: if sources.len() == 0 {
            StageView::Done
        } else {
            StageView::Probe
        },
        files: Seq::empty(),
    }
}

/// What a collection needs to know next.
pub open spec fn pending(s: CollectorView) -> RequestView
    recommends
        sound(s),
{
    match s.stage {
        StageView::Probe => RequestView::IsDir(s.sources[s.current as int]),
        StageView::Search { root, filter } => RequestView::ReadDir(root),
        StageView::Read { filter, buckets, listed } => RequestView::ReadDir(buckets[listed as int]),
        StageView::Done => RequestView::Done,
        StageView::Failed(e) => RequestView::Failed(e),
    }
}

/// The collection once the bucket directories before `listed` are read: it
/// reads the next one, or turns to the next source, or is done.
pub open spec fn resumed(
    s: CollectorView,
    filter: Option<Seq<char>>,
    buckets: Seq<Seq<char>>,
    listed: nat,
    files: Seq<EntryView>,
) -> CollectorView {
    if listed < buckets.len() {
        CollectorView {
            stage: StageView::Read { filter: filter, buckets: buckets, listed: listed },
            files: files,
            ..s
        }
    } else if s.current + 1 < s.sources.len() {
        CollectorView { current: s.current + 1, stage: StageView::Probe, files: files, ..s }
    } else {
        CollectorView { current: s.current + 1, stage: StageView::Done, files: files, ..s }
    }
}

/// The collection after an answer.
///
/// Told whether its source is a directory, it turns to the directory that
/// the source points to, or fails with `NotFound` where there is none. Given
/// the content of that directory, it goes through the bucket directories in
/// it. Given the content of a bucket directory, it records the files that it
/// takes. A failure ends it. An answer that it did not wait for changes
/// nothing.
pub open spec fn next(s: CollectorView, answer: AnswerView) -> CollectorView {
    if !active(s) {
        s
    } else {
        match (s.stage, answer) {
            (_, AnswerView::Failed(e)) => CollectorView { stage: StageView::Failed(e), ..s },
            (StageView::Probe, AnswerView::IsDir(is_dir)) => match located(
                s.sources[s.current as int],
                is_dir,
            ) {
                Some(l) => CollectorView {
                    stage: StageView::Search { root: l.dir, filter: l.file },
                    ..s
                },
                None => CollectorView { stage: StageView::Failed(Error::NotFound), ..s },
            },
            (StageView::Search { root, filter }, AnswerView::Children(children)) => resumed(
                s,
                filter,
                bucket_dirs_of(s.res_type, children),
                0,
                s.files,
            ),
            (StageView::Read { filter, buckets, listed }, AnswerView::Children(children)) => resumed(
                s,
                filter,
                buckets,
                listed + 1,
                found_all(s.files, filter, children),
            ),
            _ => s,
        }
    }
}

/// What a collection has yielded: nothing before it is finished, then the
/// files, or the failure that ended it.
pub open spec fn result_of(s: CollectorView) -> Option<Result<Seq<EntryView>, Error>> {
    match s.stage {
        StageView::Done => Some(Ok(s.files)),
        StageView::Failed(e) => Some(Err(e)),
        _ => None,
    }
}

/// An answer keeps a collection among the states that it goes through.
pub proof fn lemma_next_sound(s: CollectorView, answer: AnswerView)
    requires
        sound(s),
    ensures
        sound(next(s, answer)),
{
    match (s.stage, answer) {
        (StageView::Read { filter, buckets, listed }, AnswerView::Children(children)) => {
            lemma_found_all_well_formed(s.files, filter, children);
        },
        _ => {},
    }
}

/// The stage that follows the reading of bucket directories.
fn resume(
    sources: usize,
    current: usize,
    filter: Option<String>,
    buckets: Vec<String>,
    listed: usize,
) -> (r: (usize, Stage))
    requires
        current < sources,
        listed <= buckets@.len(),
    ensures
        r.0 as nat == if listed < buckets@.len() {
            current as nat
        } else {
            current as nat + 1
        },
        r.1@ == if listed < buckets@.len() {
            StageView::Read {
                filter: opt_text(filter),
                buckets: texts(buckets@),
                listed: listed as nat,
            }
        } else if current + 1 < sources {
            StageView::Probe
        } else {
            StageView::Done
        },
{
    if listed < buckets.len() {
        (current, Stage::Read { filter: filter, buckets: buckets, listed: listed })
    } else if current + 1 < sources {
        (current + 1, Stage::Probe)
    } else {
        (current + 1, Stage::Done)
    }
}

impl Collector {
    /// The collector is in one of the states that a collection goes through.
    pub open spec fn wf(&self) -> bool {
        sound(self@)
    }

    /// A collector for the files of type `res_type` below `sources`.
    pub fn new(res_type: &str, sources: Vec<String>) -> (r: Collector)
        ensures
            r@ == start(res_type@, texts(sources@)),
            r.wf(),
    {
        let stage = if sources.len() == 0 {
            Stage::Done
        } else {
            Stage::Probe
        };
        Collector {
            res_type: res_type.to_owned(),
            sources: sources,
            current: 0,
            stage: stage,
            files: Entries::new(),
        }
    }

    /// What the collector needs to know next.
    pub fn request(&self) -> (r: Request)
        requires
            self.wf(),
        ensures
            r@ == pending(self@),
    {
        match &self.stage {
            Stage::Probe => Request::IsDir(self.sources[self.current].clone()),
            Stage::Search { root, filter } => Request::ReadDir(root.clone()),
            Stage::Read { filter, buckets, listed } => Request::ReadDir(buckets[*listed].clone()),
            Stage::Done => Request::Done,
            Stage::Failed(e) => Request::Failed(*e),
        }
    }

    /// Takes the answer to the pending request.
    pub fn step(self, answer: Answer) -> (r: Collector)
        requires
            self.wf(),
        ensures
            r@ == next(self@, answer@),
            r.wf(),
    {
        proof {
            lemma_next_sound(self@, answer@);
        }
        let ghost before = self@;
        let Collector { res_type, sources, current, stage, files } = self;
        let mut files = files;
        let (current, stage): (usize, Stage) = match (stage, answer) {
            (Stage::Done, _) => (current, Stage::Done),
            (Stage::Failed(e), _) => (current, Stage::Failed(e)),
            (_, Answer::Failed(e)) => (current, Stage::Failed(e)),
            (Stage::Probe, Answer::IsDir(is_dir)) => {
                match locate(sources[current].as_str(), is_dir) {
                    Some(l) => (current, Stage::Search { root: l.dir, filter: l.file }),
                    None => (current, Stage::Failed(Error::NotFound)),
                }
            },
            (Stage::Search { root, filter }, Answer::Children(children)) => {
                let buckets: Vec<String> = bucket_dirs(res_type.as_str(), &children);
                resume(sources.len(), current, filter, buckets, 0)
            },
            (Stage::Read { filter, buckets, listed }, Answer::Children(children)) => {
                assert(before.stage == StageView::Read {
                    filter: opt_text(filter),
                    buckets: texts(buckets@),
                    listed: listed as nat,
                });
                assert(active(before));
                let total: usize = buckets.len();
                assert(listed < total);
                collect_into(&mut files, &filter, &children);
                resume(sources.len(), current, filter, buckets, listed + 1)
            },
            (stage, _) => (current, stage),
        };
        let r = Collector {
            res_type: res_type,
            sources: sources,
            current: current,
            stage: stage,
            files: files,
        };
        assert(r@ == next(before, answer@));
        r
    }

    /// What the collection has yielded: `None` before it is finished, then
    /// the files, or the failure that ended it.
    pub fn outcome(self) -> (r: Option<Result<Entries, Error>>)
        requires
            self.wf(),
        ensures
            match r {
                Some(Ok(files)) => result_of(self@) == Some(Ok::<Seq<EntryView>, Error>(files@))
                    && files.wf(),
                Some(Err(e)) => result_of(self@) == Some(Err::<Seq<EntryView>, Error>(e)),
                None => result_of(self@) is None,
            },
    {
        match self.stage {
            Stage::Done => Some(Ok(self.files)),
            Stage::Failed(e) => Some(Err(e)),
            _ => None,
        }
    }
}

/// Starts the collection of the files of type `res_type` below `source`:
/// the collector that is returned has read nothing yet, and is to be
/// answered until it asks nothing more.
pub fn collect_entries(res_type: &str, source: Vec<String>) -> (r: Collector)
    ensures
        r@ == start(res_type@, texts(source@)),
        r.wf(),
{
    Collector::new(res_type, source)
}

} // verus!
