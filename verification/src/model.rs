//! What a collection yields, stated over a model of the directory tree.
//!
//! The tree is what the caller of a collector reads for it: which paths are
//! directories, and what reading a directory gives. Over such a tree the
//! outcome of a collection is defined outright, source by source and bucket
//! directory by bucket directory, and a collector that is answered from the
//! tree is proved to arrive at it.

use vstd::prelude::*;
use crate::classify::{is_bucket_dir, is_resource_file};
use crate::collect::{
    accepts, active, bucket_dirs_of, finished, found, found_all, lemma_found_all_well_formed,
    lemma_next_sound, next, pending, result_of, resumed, sound, start, AnswerView, CollectorView,
    RequestView, StageView,
};
use crate::entries::{lemma_added_paths, paths_of, well_formed, EntryView};
use crate::error::Error;
use crate::path::{located, path_file_name, path_parent};
use crate::sanitize::sanitize_path;

verus! {

/// A directory tree, as far as a collection looks at it.
pub ghost struct Tree {
    /// Whether a path is an existing directory.
    pub is_dir: spec_fn(Seq<char>) -> bool,
    /// The paths of the immediate children of a directory, or why it cannot
    /// be read.
    pub read_dir: spec_fn(Seq<char>) -> Result<Seq<Seq<char>>, Error>,
}

/// The files after the bucket directories `buckets[from..]` were read in
/// turn; the first that cannot be read decides the failure.
pub open spec fn collect_buckets(
    tree: Tree,
    filter: Option<Seq<char>>,
    buckets: Seq<Seq<char>>,
    from: nat,
    files: Seq<EntryView>,
) -> Result<Seq<EntryView>, Error>
    decreases buckets.len() - from,
{
    if from >= buckets.len() {
        Ok(files)
    } else {
        match (tree.read_dir)(buckets[from as int]) {
            Ok(children) => collect_buckets(
                tree,
                filter,
                buckets,
                from + 1,
                found_all(files, filter, children),
            ),
            Err(e) => Err(e),
        }
    }
}

/// The files after the directory `root` was searched: its bucket directories
/// of the type are read in the order in which `root` lists them.
pub open spec fn collect_below(
    tree: Tree,
    res_type: Seq<char>,
    root: Seq<char>,
    filter: Option<Seq<char>>,
    files: Seq<EntryView>,
) -> Result<Seq<EntryView>, Error> {
    match (tree.read_dir)(root) {
        Ok(children) => collect_buckets(tree, filter, bucket_dirs_of(res_type, children), 0, files),
        Err(e) => Err(e),
    }
}

/// The files after one source was dealt with. A directory is searched for
/// all files; anything else has its parent searched for the files of its own
/// name, and without a parent it fails with `NotFound`.
pub open spec fn collect_source(
    tree: Tree,
    res_type: Seq<char>,
    source: Seq<char>,
    files: Seq<EntryView>,
) -> Result<Seq<EntryView>, Error> {
    match located(source, (tree.is_dir)(source)) {
        Some(l) => collect_below(tree, res_type, l.dir, l.file, files),
        None => Err(Error::NotFound),
    }
}

/// What is yielded once `sources[from..]` are dealt with in turn, given what
/// the sources before them yielded.
pub open spec fn collect_from(
    tree: Tree,
    res_type: Seq<char>,
    sources: Seq<Seq<char>>,
    from: nat,
    sofar: Result<Seq<EntryView>, Error>,
) -> Result<Seq<EntryView>, Error>
    decreases sources.len() - from,
{
    match sofar {
        Ok(files) => if from >= sources.len() {
            Ok(files)
        } else {
            collect_from(
                tree,
                res_type,
                sources,
                from + 1,
                collect_source(tree, res_type, sources[from as int], files),
            )
        },
        Err(e) => Err(e),
    }
}

/// What a collection of the files of type `res_type` below `sources` yields
/// on `tree`.
pub open spec fn collect(tree: Tree, res_type: Seq<char>, sources: Seq<Seq<char>>) -> Result<
    Seq<EntryView>,
    Error,
> {
    collect_from(tree, res_type, sources, 0, Ok(Seq::empty()))
}

/// The answer that `tree` gives to a request; none to a collection that asks
/// nothing more.
pub open spec fn answer_of(tree: Tree, request: RequestView) -> Option<AnswerView> {
    match request {
        RequestView::IsDir(path) => Some(AnswerView::IsDir((tree.is_dir)(path))),
        RequestView::ReadDir(path) => match (tree.read_dir)(path) {
            Ok(children) => Some(AnswerView::Children(children)),
            Err(e) => Some(AnswerView::Failed(e)),
        },
        RequestView::Done => None,
        RequestView::Failed(_) => None,
    }
}

/// How far a stage is from the end of the work on its source.
pub open spec fn stage_rank(stage: StageView) -> nat {
    match stage {
        StageView::Probe => 3,
        StageView::Search { .. } => 2,
        StageView::Read { .. } => 1,
        StageView::Done => 0,
        StageView::Failed(_) => 0,
    }
}

/// The bucket directories that a stage has left to read.
pub open spec fn stage_left(stage: StageView) -> nat {
    match stage {
        StageView::Read { filter, buckets, listed } => (buckets.len() - listed) as nat,
        _ => 0,
    }
}

/// The state in which a collection ends when every request is answered from
/// `tree`.
pub open spec fn run(tree: Tree, s: CollectorView) -> CollectorView
    decreases s.sources.len() - s.current, stage_rank(s.stage), stage_left(s.stage),
{
    if active(s) {
        match answer_of(tree, pending(s)) {
            Some(answer) => run(tree, next(s, answer)),
            None => s,
        }
    } else {
        s
    }
}

/// What a collection in state `s` has yet to yield on `tree`.
pub open spec fn outlook(tree: Tree, s: CollectorView) -> Result<Seq<EntryView>, Error> {
    match s.stage {
        StageView::Probe => collect_from(tree, s.res_type, s.sources, s.current, Ok(s.files)),
        StageView::Search { root, filter } => collect_from(
            tree,
            s.res_type,
            s.sources,
            s.current + 1,
            collect_below(tree, s.res_type, root, filter, s.files),
        ),
        StageView::Read { filter, buckets, listed } => collect_from(
            tree,
            s.res_type,
            s.sources,
            s.current + 1,
            collect_buckets(tree, filter, buckets, listed, s.files),
        ),
        StageView::Done => Ok(s.files),
        StageView::Failed(e) => Err(e),
    }
}

/// A failure is handed through the sources that follow.
pub proof fn lemma_collect_from_failed(
    tree: Tree,
    res_type: Seq<char>,
    sources: Seq<Seq<char>>,
    from: nat,
    e: Error,
)
    ensures
        collect_from(tree, res_type, sources, from, Err(e)) == Err::<Seq<EntryView>, Error>(e),
{
}

/// An answer from the tree leaves the outlook of a collection as it was.
pub proof fn lemma_step_keeps_outlook(tree: Tree, s: CollectorView)
    requires
        active(s),
    ensures
        answer_of(tree, pending(s)) is Some,
        outlook(tree, next(s, answer_of(tree, pending(s))->Some_0)) == outlook(tree, s),
{
    let answer = answer_of(tree, pending(s))->Some_0;
    let t = next(s, answer);
    match s.stage {
        StageView::Probe => {
            let source = s.sources[s.current as int];
            match located(source, (tree.is_dir)(source)) {
                Some(l) => {
                    assert(t.stage == StageView::Search { root: l.dir, filter: l.file });
                },
                None => {
                    lemma_collect_from_failed(
                        tree,
                        s.res_type,
                        s.sources,
                        s.current + 1,
                        Error::NotFound,
                    );
                },
            }
        },
        StageView::Search { root, filter } => {
            match (tree.read_dir)(root) {
                Ok(children) => {
                    lemma_resumed_outlook(
                        tree,
                        s,
                        filter,
                        bucket_dirs_of(s.res_type, children),
                        0,
                        s.files,
                    );
                },
                Err(e) => {
                    lemma_collect_from_failed(tree, s.res_type, s.sources, s.current + 1, e);
                },
            }
        },
        StageView::Read { filter, buckets, listed } => {
            match (tree.read_dir)(buckets[listed as int]) {
                Ok(children) => {
                    lemma_resumed_outlook(
                        tree,
                        s,
                        filter,
                        buckets,
                        listed + 1,
                        found_all(s.files, filter, children),
                    );
                },
                Err(e) => {
                    lemma_collect_from_failed(tree, s.res_type, s.sources, s.current + 1, e);
                },
            }
        },
        _ => {},
    }
}

/// The outlook of a collection that resumes after a bucket directory.
proof fn lemma_resumed_outlook(
    tree: Tree,
    s: CollectorView,
    filter: Option<Seq<char>>,
    buckets: Seq<Seq<char>>,
    listed: nat,
    files: Seq<EntryView>,
)
    requires
        s.current < s.sources.len(),
        listed <= buckets.len(),
    ensures
        outlook(tree, resumed(s, filter, buckets, listed, files)) == collect_from(
            tree,
            s.res_type,
            s.sources,
            s.current + 1,
            collect_buckets(tree, filter, buckets, listed, files),
        ),
{
    if listed >= buckets.len() {
        assert(collect_buckets(tree, filter, buckets, listed, files) == Ok::<
            Seq<EntryView>,
            Error,
        >(files));
        if s.current + 1 >= s.sources.len() {
            assert(collect_from(tree, s.res_type, s.sources, s.current + 1, Ok(files)) == Ok::<
                Seq<EntryView>,
                Error,
            >(files));
        }
    }
}

/// A collector that is answered from the tree comes to an end, and yields
/// what `outlook` says of the state it is in.
pub proof fn lemma_run_outlook(tree: Tree, s: CollectorView)
    requires
        sound(s),
    ensures
        finished(run(tree, s)),
        result_of(run(tree, s)) == Some(outlook(tree, s)),
    decreases s.sources.len() - s.current, stage_rank(s.stage), stage_left(s.stage),
{
    if active(s) {
        lemma_step_keeps_outlook(tree, s);
        let answer = answer_of(tree, pending(s))->Some_0;
        lemma_next_sound(s, answer);
        lemma_run_outlook(tree, next(s, answer));
    }
}

/// A collector that is answered from a tree comes to an end and yields
/// `collect` of that tree, the type and the sources. So what a collection
/// yields rests on nothing but these: collecting twice over a tree that has
/// not changed yields the same files under the same names.
pub proof fn lemma_run_collects(tree: Tree, res_type: Seq<char>, sources: Seq<Seq<char>>)
    ensures
        finished(run(tree, start(res_type, sources))),
        result_of(run(tree, start(res_type, sources))) == Some(collect(tree, res_type, sources)),
{
    let s = start(res_type, sources);
    lemma_run_outlook(tree, s);
}

/// Whether `path` stands under `name` in `files`.
pub open spec fn holds(files: Seq<EntryView>, name: Seq<char>, path: Seq<char>) -> bool {
    paths_of(files, name).contains(path)
}

/// Whether `path` is among the children that reading `dir` gives.
pub open spec fn read_holds(tree: Tree, dir: Seq<char>, path: Seq<char>) -> bool {
    match (tree.read_dir)(dir) {
        Ok(children) => children.contains(path),
        Err(_) => false,
    }
}

/// Whether `path` is a child of one of `buckets[from..]`.
pub open spec fn lies_in(tree: Tree, buckets: Seq<Seq<char>>, from: nat, path: Seq<char>) -> bool {
    exists|k: int| from <= k < buckets.len() && #[trigger] read_holds(tree, buckets[k], path)
}

/// Whether `path` is a child of a bucket directory of the type that `root`
/// lists.
pub open spec fn in_bucket_below(
    tree: Tree,
    res_type: Seq<char>,
    root: Seq<char>,
    path: Seq<char>,
) -> bool {
    match (tree.read_dir)(root) {
        Ok(children) => exists|k: int|
            0 <= k < children.len() && is_bucket_dir(res_type, children[k]) && #[trigger] read_holds(
                tree,
                children[k],
                path,
            ),
        Err(_) => false,
    }
}

/// Whether the source `source` has the file `path` recorded under `name`:
/// the file lies in a bucket directory of the type below the directory that
/// the source points to, is taken, and has `name` for its canonical name.
pub open spec fn taken_from(
    tree: Tree,
    res_type: Seq<char>,
    source: Seq<char>,
    name: Seq<char>,
    path: Seq<char>,
) -> bool {
    match located(source, (tree.is_dir)(source)) {
        Some(l) => in_bucket_below(tree, res_type, l.dir, path) && accepts(l.file, path)
            && sanitize_path(path) == Some(name),
        None => false,
    }
}

/// Whether one of `sources[from..]` has `path` recorded under `name`.
pub open spec fn taken(
    tree: Tree,
    res_type: Seq<char>,
    sources: Seq<Seq<char>>,
    from: nat,
    name: Seq<char>,
    path: Seq<char>,
) -> bool {
    exists|i: int|
        from <= i < sources.len() && #[trigger] taken_from(tree, res_type, sources[i], name, path)
}

/// After a look at one file, a path stands under a name if it stood there
/// before, or if it is that file, taken, with that canonical name.
pub proof fn lemma_found_holds(
    files: Seq<EntryView>,
    filter: Option<Seq<char>>,
    child: Seq<char>,
    name: Seq<char>,
    path: Seq<char>,
)
    requires
        well_formed(files),
    ensures
        holds(found(files, filter, child), name, path) <==> holds(files, name, path) || (path
            == child && accepts(filter, child) && sanitize_path(child) == Some(name)),
{
    if accepts(filter, child) {
        match sanitize_path(child) {
            Some(n) => {
                lemma_added_paths(files, n, child, name);
                if name == n {
                    let before = paths_of(files, n);
                    let after = before.push(child);
                    assert(after[before.len() as int] == child);
                    if before.contains(path) {
                        let k = choose|k: int| 0 <= k < before.len() && before[k] == path;
                        assert(after[k] == path);
                    }
                    if after.contains(path) {
                        let k = choose|k: int| 0 <= k < after.len() && after[k] == path;
                        if k < before.len() {
                            assert(before[k] == path);
                        }
                    }
                }
            },
            None => {},
        }
    }
}

/// After a bucket directory was looked through, a path stands under a name
/// if it stood there before, or if it is one of the children, taken, with
/// that canonical name.
pub proof fn lemma_found_all_holds(
    files: Seq<EntryView>,
    filter: Option<Seq<char>>,
    children: Seq<Seq<char>>,
    name: Seq<char>,
    path: Seq<char>,
)
    requires
        well_formed(files),
    ensures
        holds(found_all(files, filter, children), name, path) <==> holds(files, name, path) || (
        children.contains(path) && accepts(filter, path) && sanitize_path(path) == Some(name)),
    decreases children.len(),
{
    if children.len() > 0 {
        let rest = children.drop_last();
        let last = children.len() - 1;
        lemma_found_all_holds(files, filter, rest, name, path);
        lemma_found_all_well_formed(files, filter, rest);
        lemma_found_holds(found_all(files, filter, rest), filter, children.last(), name, path);
        if rest.contains(path) {
            let k = choose|k: int| 0 <= k < rest.len() && rest[k] == path;
            assert(children[k] == path);
        }
        if children.contains(path) {
            let k = choose|k: int| 0 <= k < children.len() && children[k] == path;
            if k < last {
                assert(rest[k] == path);
            }
        }
        assert(children[last] == children.last());
    }
}

/// Reading bucket directories keeps a collection well formed.
pub proof fn lemma_collect_buckets_well_formed(
    tree: Tree,
    filter: Option<Seq<char>>,
    buckets: Seq<Seq<char>>,
    from: nat,
    files: Seq<EntryView>,
)
    requires
        well_formed(files),
    ensures
        match collect_buckets(tree, filter, buckets, from, files) {
            Ok(result) => well_formed(result),
            Err(_) => true,
        },
    decreases buckets.len() - from,
{
    if from < buckets.len() {
        match (tree.read_dir)(buckets[from as int]) {
            Ok(children) => {
                lemma_found_all_well_formed(files, filter, children);
                lemma_collect_buckets_well_formed(
                    tree,
                    filter,
                    buckets,
                    from + 1,
                    found_all(files, filter, children),
                );
            },
            Err(_) => {},
        }
    }
}

/// After the bucket directories `buckets[from..]` were read, a path stands
/// under a name if it stood there before, or if it is a child of one of
/// them, taken, with that canonical name.
pub proof fn lemma_collect_buckets_holds(
    tree: Tree,
    filter: Option<Seq<char>>,
    buckets: Seq<Seq<char>>,
    from: nat,
    files: Seq<EntryView>,
    name: Seq<char>,
    path: Seq<char>,
)
    requires
        well_formed(files),
        collect_buckets(tree, filter, buckets, from, files) is Ok,
    ensures
        holds(collect_buckets(tree, filter, buckets, from, files)->Ok_0, name, path) <==> holds(
            files,
            name,
            path,
        ) || (lies_in(tree, buckets, from, path) && accepts(filter, path) && sanitize_path(path)
            == Some(name)),
    decreases buckets.len() - from,
{
    if from < buckets.len() {
        let children = (tree.read_dir)(buckets[from as int])->Ok_0;
        let after = found_all(files, filter, children);
        lemma_found_all_well_formed(files, filter, children);
        lemma_found_all_holds(files, filter, children, name, path);
        lemma_collect_buckets_holds(tree, filter, buckets, from + 1, after, name, path);
        if lies_in(tree, buckets, from, path) {
            let k = choose|k: int|
                from <= k < buckets.len() && #[trigger] read_holds(tree, buckets[k], path);
            if k > from {
                assert(lies_in(tree, buckets, from + 1, path));
            }
        }
        if lies_in(tree, buckets, from + 1, path) {
            let k = choose|k: int|
                from + 1 <= k < buckets.len() && #[trigger] read_holds(tree, buckets[k], path);
            assert(read_holds(tree, buckets[k], path));
        }
        if read_holds(tree, buckets[from as int], path) {
            assert(lies_in(tree, buckets, from, path));
        }
    }
}

/// A path lies in one of the bucket directories picked from `children` if
/// and only if it lies in one of `children` that is a bucket directory.
pub proof fn lemma_bucket_dirs_hold(
    tree: Tree,
    res_type: Seq<char>,
    children: Seq<Seq<char>>,
    path: Seq<char>,
)
    ensures
        lies_in(tree, bucket_dirs_of(res_type, children), 0, path) <==> exists|k: int|
            0 <= k < children.len() && is_bucket_dir(res_type, children[k]) && #[trigger] read_holds(
                tree,
                children[k],
                path,
            ),
    decreases children.len(),
{
    let picked = bucket_dirs_of(res_type, children);
    if children.len() > 0 {
        let rest = children.drop_last();
        let last = children.len() - 1;
        let before = bucket_dirs_of(res_type, rest);
        lemma_bucket_dirs_hold(tree, res_type, rest, path);
        assert(children.last() == children[last]);
        if lies_in(tree, picked, 0, path) {
            let k = choose|k: int| 0 <= k < picked.len() && #[trigger] read_holds(tree, picked[k], path);
            if k < before.len() {
                assert(picked[k] == before[k]);
                assert(lies_in(tree, before, 0, path));
                let j = choose|j: int|
                    0 <= j < rest.len() && is_bucket_dir(res_type, rest[j]) && #[trigger] read_holds(
                        tree,
                        rest[j],
                        path,
                    );
                assert(children[j] == rest[j]);
            } else {
                assert(picked[k] == children[last]);
            }
        }
        if exists|k: int|
            0 <= k < children.len() && is_bucket_dir(res_type, children[k]) && #[trigger] read_holds(
                tree,
                children[k],
                path,
            ) {
            let k = choose|k: int|
                0 <= k < children.len() && is_bucket_dir(res_type, children[k])
                    && #[trigger] read_holds(tree, children[k], path);
            if k < last {
                assert(rest[k] == children[k]);
                assert(lies_in(tree, before, 0, path));
                let j = choose|j: int| 0 <= j < before.len() && #[trigger] read_holds(tree, before[j], path);
                assert(picked[j] == before[j]);
            } else {
                assert(picked[picked.len() - 1] == children[last]);
            }
        }
    }
}

/// After one source was dealt with, a path stands under a name if it stood
/// there before, or if the source has it recorded under that name.
pub proof fn lemma_collect_source_holds(
    tree: Tree,
    res_type: Seq<char>,
    source: Seq<char>,
    files: Seq<EntryView>,
    name: Seq<char>,
    path: Seq<char>,
)
    requires
        well_formed(files),
        collect_source(tree, res_type, source, files) is Ok,
    ensures
        well_formed(collect_source(tree, res_type, source, files)->Ok_0),
        holds(collect_source(tree, res_type, source, files)->Ok_0, name, path) <==> holds(
            files,
            name,
            path,
        ) || taken_from(tree, res_type, source, name, path),
{
    let l = located(source, (tree.is_dir)(source))->Some_0;
    let children = (tree.read_dir)(l.dir)->Ok_0;
    let buckets = bucket_dirs_of(res_type, children);
    lemma_collect_buckets_well_formed(tree, l.file, buckets, 0, files);
    lemma_collect_buckets_holds(tree, l.file, buckets, 0, files, name, path);
    lemma_bucket_dirs_hold(tree, res_type, children, path);
}

/// After the sources `sources[from..]` were dealt with, a path stands under
/// a name if it stood there before, or if one of them has it recorded under
/// that name.
pub proof fn lemma_collect_from_holds(
    tree: Tree,
    res_type: Seq<char>,
    sources: Seq<Seq<char>>,
    from: nat,
    files: Seq<EntryView>,
    name: Seq<char>,
    path: Seq<char>,
)
    requires
        well_formed(files),
        collect_from(tree, res_type, sources, from, Ok(files)) is Ok,
    ensures
        well_formed(collect_from(tree, res_type, sources, from, Ok(files))->Ok_0),
        holds(collect_from(tree, res_type, sources, from, Ok(files))->Ok_0, name, path) <==> holds(
            files,
            name,
            path,
        ) || taken(tree, res_type, sources, from, name, path),
    decreases sources.len() - from,
{
    if from < sources.len() {
        let one = collect_source(tree, res_type, sources[from as int], files);
        match one {
            Ok(after) => {
                lemma_collect_source_holds(tree, res_type, sources[from as int], files, name, path);
                lemma_collect_from_holds(tree, res_type, sources, from + 1, after, name, path);
                if taken(tree, res_type, sources, from, name, path) {
                    let i = choose|i: int|
                        from <= i < sources.len() && #[trigger] taken_from(
                            tree,
                            res_type,
                            sources[i],
                            name,
                            path,
                        );
                    if i > from {
                        assert(taken(tree, res_type, sources, from + 1, name, path));
                    }
                }
                if taken(tree, res_type, sources, from + 1, name, path) {
                    let i = choose|i: int|
                        from + 1 <= i < sources.len() && #[trigger] taken_from(
                            tree,
                            res_type,
                            sources[i],
                            name,
                            path,
                        );
                    assert(taken_from(tree, res_type, sources[i], name, path));
                }
                if taken_from(tree, res_type, sources[from as int], name, path) {
                    assert(taken(tree, res_type, sources, from, name, path));
                }
            },
            Err(e) => {
                lemma_collect_from_failed(tree, res_type, sources, from + 1, e);
            },
        }
    }
}

/// What a collection holds: a path stands under a name if and only if one
/// of the sources has it recorded under that name.
pub proof fn lemma_collect_holds(
    tree: Tree,
    res_type: Seq<char>,
    sources: Seq<Seq<char>>,
    name: Seq<char>,
    path: Seq<char>,
)
    requires
        collect(tree, res_type, sources) is Ok,
    ensures
        well_formed(collect(tree, res_type, sources)->Ok_0),
        holds(collect(tree, res_type, sources)->Ok_0, name, path) <==> taken(
            tree,
            res_type,
            sources,
            0,
            name,
            path,
        ),
{
    let empty = Seq::<EntryView>::empty();
    lemma_collect_from_holds(tree, res_type, sources, 0, empty, name, path);
    assert(paths_of(empty, name) =~= Seq::<Seq<char>>::empty());
}

/// A source that names one file admits the files of exactly that name. Of a
/// collection from the one source `source`, which is no directory and has
/// the file name `wanted`: a path stands under a name if and only if it
/// bears the raw file name `wanted`, is a resource file with that canonical
/// name, and lies in a bucket directory of the type below the parent of
/// `source`. So every file that is held bears that name, and every bucket
/// directory gives its file of that name.
pub proof fn lemma_single_file_source(
    tree: Tree,
    res_type: Seq<char>,
    source: Seq<char>,
    wanted: Seq<char>,
    name: Seq<char>,
    path: Seq<char>,
)
    requires
        !(tree.is_dir)(source),
        path_file_name(source) == Some(wanted),
        collect(tree, res_type, seq![source]) is Ok,
    ensures
        path_parent(source) is Some,
        holds(collect(tree, res_type, seq![source])->Ok_0, name, path) <==> (path_file_name(path)
            == Some(wanted) && is_resource_file(path) && sanitize_path(path)
            == Some(name) && in_bucket_below(tree, res_type, path_parent(source)->Some_0, path)),
{
    let sources = seq![source];
    lemma_collect_holds(tree, res_type, sources, name, path);
    assert(sources[0] == source);
    if taken(tree, res_type, sources, 0, name, path) {
        let i = choose|i: int|
            0 <= i < sources.len() && #[trigger] taken_from(tree, res_type, sources[i], name, path);
        assert(i == 0);
    }
    if taken_from(tree, res_type, source, name, path) {
        assert(taken_from(tree, res_type, sources[0], name, path));
    }
    let empty = Seq::<EntryView>::empty();
    let one = collect_source(tree, res_type, source, empty);
    if one is Err {
        lemma_collect_from_failed(tree, res_type, sources, 1, one->Err_0);
    }
}

} // verus!
