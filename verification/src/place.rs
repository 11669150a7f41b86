//! Copying and moving: the file operations that carry every file of a
//! collection to its place below a destination, bucket directory by bucket
//! directory.
//!
//! Nothing here touches a file. A plan is a list of operations for the
//! caller to perform in order, stopping at the first that fails.

use vstd::prelude::*;
use crate::entries::{Entries, EntryView};
use crate::error::Error;
use crate::path::{dir_name, join, locate, located, parent, path_dir_name, path_join, path_parent, Located, LocatedView};

verus! {

/// One file operation.
#[derive(Debug, PartialEq, Eq)]
pub enum Action {
    /// Create the directory and every missing directory above it.
    CreateDirAll(String),
    /// Copy the bytes of `from` to `to`, replacing what is there.
    Copy { from: String, to: String },
    /// Delete the file.
    Remove(String),
}

/// An `Action` as a value.
pub ghost enum ActionView {
    CreateDirAll(Seq<char>),
    Copy { from: Seq<char>, to: Seq<char> },
    Remove(Seq<char>),
}

impl View for Action {
    type V = ActionView;

    open spec fn view(&self) -> ActionView {
        match self {
            Action::CreateDirAll(dir) => ActionView::CreateDirAll(dir@),
            Action::Copy { from, to } => ActionView::Copy { from: from@, to: to@ },
            Action::Remove(path) => ActionView::Remove(path@),
        }
    }
}

/// The operations of a list, as values.
pub open spec fn actions(v: Seq<Action>) -> Seq<ActionView> {
    Seq::new(v.len(), |i: int| v[i]@)
}

/// The path that the file `path`, found under the canonical name `name`, is
/// carried to: below the destination directory, in a directory named as the
/// one that holds it now, under the file name that the destination gave, or
/// under its canonical name where it gave none. Fails with `NoFileName` where
/// the directory that holds `path` has no name.
pub open spec fn destination_of(target: LocatedView, name: Seq<char>, path: Seq<char>) -> Result<
    Seq<char>,
    Error,
> {
    match path_dir_name(path) {
        Some(bucket) => Ok(
            path_join(
                path_join(target.dir, bucket),
                match target.file {
                    Some(file) => file,
                    None => name,
                },
            ),
        ),
        None => Err(Error::NoFileName),
    }
}

/// The operations that carry one file over: create the directories above its
/// destination, copy it, and delete it where it is to be moved. Fails with
/// `NotFound` where the destination has no directory above it.
pub open spec fn transfer_of(
    target: LocatedView,
    name: Seq<char>,
    path: Seq<char>,
    delete_source: bool,
) -> Result<Seq<ActionView>, Error> {
    match destination_of(target, name, path) {
        Ok(to) => match path_parent(to) {
            Some(dir) => Ok(
                seq![ActionView::CreateDirAll(dir), ActionView::Copy { from: path, to: to }] + (
                if delete_source {
                    seq![ActionView::Remove(path)]
                } else {
                    Seq::empty()
                }),
            ),
            None => Err(Error::NotFound),
        },
        Err(e) => Err(e),
    }
}

/// The operations for the files `paths` of one name, in their order; the
/// first file that fails decides the error.
pub open spec fn transfers_of(
    target: LocatedView,
    name: Seq<char>,
    paths: Seq<Seq<char>>,
    delete_source: bool,
) -> Result<Seq<ActionView>, Error>
    decreases paths.len(),
{
    if paths.len() == 0 {
        Ok(Seq::empty())
    } else {
        match transfers_of(target, name, paths.drop_last(), delete_source) {
            Ok(before) => match transfer_of(target, name, paths.last(), delete_source) {
                Ok(last) => Ok(before + last),
                Err(e) => Err(e),
            },
            Err(e) => Err(e),
        }
    }
}

/// The operations for all files of `entries`, name by name in their order.
pub open spec fn plan_to(target: LocatedView, entries: Seq<EntryView>, delete_source: bool) -> Result<
    Seq<ActionView>,
    Error,
>
    decreases entries.len(),
{
    if entries.len() == 0 {
        Ok(Seq::empty())
    } else {
        match plan_to(target, entries.drop_last(), delete_source) {
            Ok(before) => match transfers_of(
                target,
                entries.last().name,
                entries.last().paths,
                delete_source,
            ) {
                Ok(last) => Ok(before + last),
                Err(e) => Err(e),
            },
            Err(e) => Err(e),
        }
    }
}

/// The plan of a copy or move of `entries` to `dest`. Fails with `NotFound`
/// where `dest` is no directory and has no parent.
pub open spec fn plan_of(
    entries: Seq<EntryView>,
    dest: Seq<char>,
    dest_is_dir: bool,
    delete_source: bool,
) -> Result<Seq<ActionView>, Error> {
    match located(dest, dest_is_dir) {
        Some(target) => plan_to(target, entries, delete_source),
        None => Err(Error::NotFound),
    }
}

/// Whether an exec result is the result `expected`.
pub open spec fn is_plan(r: Result<Vec<Action>, Error>, expected: Result<Seq<ActionView>, Error>) -> bool {
    match r {
        Ok(v) => expected == Ok::<Seq<ActionView>, Error>(actions(v@)),
        Err(e) => expected == Err::<Seq<ActionView>, Error>(e),
    }
}

/// Appends to `out` the operations that carry `path` over.
fn push_transfer(
    out: &mut Vec<Action>,
    target: &Located,
    name: &str,
    path: &str,
    delete_source: bool,
) -> (r: Result<(), Error>)
    ensures
        match r {
            Ok(_) => match transfer_of(target@, name@, path@, delete_source) {
                Ok(ops) => actions(final(out)@) == actions(old(out)@) + ops,
                Err(_) => false,
            },
            Err(e) => transfer_of(target@, name@, path@, delete_source) == Err::<
                Seq<ActionView>,
                Error,
            >(e),
        },
{
    let ghost before = actions(out@);
    let bucket: String = match dir_name(path) {
        Some(bucket) => bucket,
        None => {
            return Err(Error::NoFileName);
        },
    };
    let below: String = join(target.dir.as_str(), bucket.as_str());
    let to: String = match &target.file {
        Some(file) => join(below.as_str(), file.as_str()),
        None => join(below.as_str(), name),
    };
    let dir: String = match parent(to.as_str()) {
        Some(dir) => dir,
        None => {
            return Err(Error::NotFound);
        },
    };
    let ghost ops = transfer_of(target@, name@, path@, delete_source)->Ok_0;
    out.push(Action::CreateDirAll(dir));
    out.push(Action::Copy { from: path.to_owned(), to: to });
    if delete_source {
        out.push(Action::Remove(path.to_owned()));
    }
    assert(actions(out@) =~= before + ops);
    Ok(())
}

/// The operations of a copy (`delete_source` false) or a move (`true`) of
/// every file of `files` to `dest`, of which `dest_is_dir` says whether it is
/// an existing directory.
///
/// An existing directory receives each file under its canonical name. Any
/// other destination names a file: each file goes to the directory above it,
/// under the name of its final component. Either way a file stays in a
/// directory named as the bucket directory that it comes from.
pub fn cp_or_mv(files: &Entries, dest: &str, dest_is_dir: bool, delete_source: bool) -> (r: Result<
    Vec<Action>,
    Error,
>)
    ensures
        is_plan(r, plan_of(files@, dest@, dest_is_dir, delete_source)),
{
    let target: Located = match locate(dest, dest_is_dir) {
        Some(target) => target,
        None => {
            return Err(Error::NotFound);
        },
    };
    let mut out: Vec<Action> = Vec::new();
    let mut i: usize = 0;
    assert(actions(out@) =~= Seq::<ActionView>::empty());
    while i < files.len()
        invariant
            located(dest@, dest_is_dir) == Some(target@),
            i <= files@.len(),
            plan_to(target@, files@.take(i as int), delete_source) == Ok::<Seq<ActionView>, Error>(
                actions(out@),
            ),
        decreases files@.len() - i,
    {
        proof {
            assert(files@.take(i + 1).drop_last() =~= files@.take(i as int));
            assert(files@.take(i + 1).last() == files@[i as int]);
        }
        let entry = files.entry(i);
        let ghost before = actions(out@);
        let ghost paths = entry@.paths;
        let mut j: usize = 0;
        assert(before + Seq::<ActionView>::empty() =~= before);
        while j < entry.paths.len()
            invariant
                located(dest@, dest_is_dir) == Some(target@),
                i < files@.len(),
                entry@ == files@[i as int],
                plan_to(target@, files@.take(i as int), delete_source) == Ok::<
                    Seq<ActionView>,
                    Error,
                >(before),
                paths == entry@.paths,
                j <= entry.paths@.len(),
                match transfers_of(target@, entry.name@, paths.take(j as int), delete_source) {
                    Ok(ops) => actions(out@) == before + ops,
                    Err(_) => false,
                },
            decreases entry.paths@.len() - j,
        {
            proof {
                assert(paths.take(j + 1).drop_last() =~= paths.take(j as int));
                assert(paths.take(j + 1).last() == entry.paths@[j as int]@);
            }
            let ghost sofar = transfers_of(target@, entry.name@, paths.take(j as int), delete_source)->Ok_0;
            match push_transfer(
                &mut out,
                &target,
                entry.name.as_str(),
                entry.paths[j].as_str(),
                delete_source,
            ) {
                Ok(_) => {
                    let ghost ops = transfer_of(
                        target@,
                        entry.name@,
                        entry.paths@[j as int]@,
                        delete_source,
                    )->Ok_0;
                    assert(before + sofar + ops =~= before + (sofar + ops));
                },
                Err(e) => {
                    proof {
                        let failed = Err::<Seq<ActionView>, Error>(e);
                        assert(transfers_of(target@, entry.name@, paths.take(j + 1), delete_source)
                            == failed);
                        lemma_transfers_fail(target@, entry.name@, paths, j + 1, delete_source);
                        assert(files@.take(i + 1).drop_last() =~= files@.take(i as int));
                        assert(files@.take(i + 1).last() == files@[i as int]);
                        assert(plan_to(target@, files@.take(i + 1), delete_source) == failed);
                        lemma_plan_fails(target@, files@, i + 1, delete_source);
                    }
                    return Err(e);
                },
            }
            j += 1;
        }
        assert(paths.take(entry.paths@.len() as int) =~= paths);
        i += 1;
    }
    assert(files@.take(files@.len() as int) =~= files@);
    Ok(out)
}

/// A failure among the first `n` files is the failure of the whole list.
pub proof fn lemma_transfers_fail(
    target: LocatedView,
    name: Seq<char>,
    paths: Seq<Seq<char>>,
    n: int,
    delete_source: bool,
)
    requires
        0 <= n <= paths.len(),
        transfers_of(target, name, paths.take(n), delete_source) is Err,
    ensures
        transfers_of(target, name, paths, delete_source) == transfers_of(
            target,
            name,
            paths.take(n),
            delete_source,
        ),
    decreases paths.len() - n,
{
    if n < paths.len() {
        assert(paths.take(n + 1).drop_last() =~= paths.take(n));
        lemma_transfers_fail(target, name, paths, n + 1, delete_source);
    } else {
        assert(paths.take(n) =~= paths);
    }
}

/// A failure among the first `n` names is the failure of the whole plan.
pub proof fn lemma_plan_fails(target: LocatedView, entries: Seq<EntryView>, n: int, delete_source: bool)
    requires
        0 <= n <= entries.len(),
        plan_to(target, entries.take(n), delete_source) is Err,
    ensures
        plan_to(target, entries, delete_source) == plan_to(target, entries.take(n), delete_source),
    decreases entries.len() - n,
{
    if n < entries.len() {
        assert(entries.take(n + 1).drop_last() =~= entries.take(n));
        lemma_plan_fails(target, entries, n + 1, delete_source);
    } else {
        assert(entries.take(n) =~= entries);
    }
}

/// The operations that copy every file of `files` to `dest`.
pub fn cp(files: &Entries, dest: &str, dest_is_dir: bool) -> (r: Result<Vec<Action>, Error>)
    ensures
        is_plan(r, plan_of(files@, dest@, dest_is_dir, false)),
{
    cp_or_mv(files, dest, dest_is_dir, false)
}

/// The operations that move every file of `files` to `dest`: those of the
/// copy, and after each copy the deletion of its source.
pub fn mv(files: &Entries, dest: &str, dest_is_dir: bool) -> (r: Result<Vec<Action>, Error>)
    ensures
        is_plan(r, plan_of(files@, dest@, dest_is_dir, true)),
{
    cp_or_mv(files, dest, dest_is_dir, true)
}

/// Whether `path` is one of the files of `entries`.
pub open spec fn is_held(entries: Seq<EntryView>, path: Seq<char>) -> bool {
    exists|i: int| 0 <= i < entries.len() && (#[trigger] entries[i]).paths.contains(path)
}

/// Whether an operation stays within `paths`: it creates a directory, copies
/// one of `paths`, or deletes one of them in a move.
pub open spec fn stays_within(op: ActionView, paths: Seq<Seq<char>>, delete_source: bool) -> bool {
    match op {
        ActionView::CreateDirAll(_) => true,
        ActionView::Copy { from, to } => paths.contains(from),
        ActionView::Remove(path) => delete_source && paths.contains(path),
    }
}

/// The operations for the files of one name read and delete those files
/// only, and delete none in a copy.
pub proof fn lemma_transfers_stay_within(
    target: LocatedView,
    name: Seq<char>,
    paths: Seq<Seq<char>>,
    delete_source: bool,
    k: int,
)
    requires
        transfers_of(target, name, paths, delete_source) is Ok,
        0 <= k < transfers_of(target, name, paths, delete_source)->Ok_0.len(),
    ensures
        stays_within(
            transfers_of(target, name, paths, delete_source)->Ok_0[k],
            paths,
            delete_source,
        ),
    decreases paths.len(),
{
    if paths.len() > 0 {
        let rest = paths.drop_last();
        let before = transfers_of(target, name, rest, delete_source)->Ok_0;
        let last = paths.len() - 1;
        assert(paths[last] == paths.last());
        if k < before.len() {
            lemma_transfers_stay_within(target, name, rest, delete_source, k);
            let op = before[k];
            match op {
                ActionView::CreateDirAll(_) => {},
                ActionView::Copy { from, to } => {
                    let j = choose|j: int| 0 <= j < rest.len() && rest[j] == from;
                    assert(paths[j] == from);
                },
                ActionView::Remove(path) => {
                    let j = choose|j: int| 0 <= j < rest.len() && rest[j] == path;
                    assert(paths[j] == path);
                },
            }
        }
    }
}

/// A plan reads and deletes the files of the collection only: every file
/// that it copies is one of them, a copy deletes nothing, and a move deletes
/// none but them.
pub proof fn lemma_plan_stays_within(
    target: LocatedView,
    entries: Seq<EntryView>,
    delete_source: bool,
    k: int,
)
    requires
        plan_to(target, entries, delete_source) is Ok,
        0 <= k < plan_to(target, entries, delete_source)->Ok_0.len(),
    ensures
        match plan_to(target, entries, delete_source)->Ok_0[k] {
            ActionView::CreateDirAll(_) => true,
            ActionView::Copy { from, to } => is_held(entries, from),
            ActionView::Remove(path) => delete_source && is_held(entries, path),
        },
    decreases entries.len(),
{
    if entries.len() > 0 {
        let rest = entries.drop_last();
        let before = plan_to(target, rest, delete_source)->Ok_0;
        let last = entries.len() - 1;
        assert(entries[last] == entries.last());
        if k < before.len() {
            lemma_plan_stays_within(target, rest, delete_source, k);
            let op = before[k];
            match op {
                ActionView::CreateDirAll(_) => {},
                ActionView::Copy { from, to } => {
                    let i = choose|i: int| 0 <= i < rest.len() && (#[trigger] rest[i]).paths.contains(from);
                    assert(entries[i] == rest[i]);
                },
                ActionView::Remove(path) => {
                    let i = choose|i: int| 0 <= i < rest.len() && (#[trigger] rest[i]).paths.contains(path);
                    assert(entries[i] == rest[i]);
                },
            }
        } else {
            lemma_transfers_stay_within(
                target,
                entries.last().name,
                entries.last().paths,
                delete_source,
                k - before.len(),
            );
        }
    }
}

} // verus!
