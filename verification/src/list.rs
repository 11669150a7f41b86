//! The table of a collection: one row for each canonical name, one column for
//! each qualifier that occurs, and in each cell the qualifier itself where the
//! name has a file in that bucket.

use vstd::prelude::*;
use vstd::string::*;
use crate::classify::{qualifier, qualifier_of};
use crate::entries::{texts, Entries, EntryView};
use crate::path::{dir_name, path_dir_name};
use crate::text::str_eq;

verus! {

/// The qualifier of the bucket that holds the file `path`: read off the name
/// of the directory that holds it.
pub open spec fn label_of(res_type: Seq<char>, path: Seq<char>) -> Option<Seq<char>> {
    match path_dir_name(path) {
        Some(dir) => qualifier_of(res_type, dir),
        None => None,
    }
}

/// The qualifiers of the buckets that hold `paths`, in the order of the paths.
pub open spec fn labels_of(res_type: Seq<char>, paths: Seq<Seq<char>>) -> Seq<Seq<char>>
    decreases paths.len(),
{
    if paths.len() == 0 {
        Seq::empty()
    } else {
        match label_of(res_type, paths.last()) {
            Some(q) => labels_of(res_type, paths.drop_last()).push(q),
            None => labels_of(res_type, paths.drop_last()),
        }
    }
}

/// `columns` followed by those of `labels` that it lacks, each once and in
/// the order in which they first occur.
pub open spec fn with_new(columns: Seq<Seq<char>>, labels: Seq<Seq<char>>) -> Seq<Seq<char>>
    decreases labels.len(),
{
    if labels.len() == 0 {
        columns
    } else {
        let before = with_new(columns, labels.drop_last());
        if before.contains(labels.last()) {
            before
        } else {
            before.push(labels.last())
        }
    }
}

/// The columns of the table: every qualifier that occurs, once, in the order
/// in which a walk through the entries first meets it.
pub open spec fn columns_of(res_type: Seq<char>, entries: Seq<EntryView>) -> Seq<Seq<char>>
    decreases entries.len(),
{
    if entries.len() == 0 {
        Seq::empty()
    } else {
        with_new(
            columns_of(res_type, entries.drop_last()),
            labels_of(res_type, entries.last().paths),
        )
    }
}

/// The length of the longest name; 0 for an empty collection.
pub open spec fn width_of(entries: Seq<EntryView>) -> nat
    decreases entries.len(),
{
    if entries.len() == 0 {
        0
    } else {
        let before = width_of(entries.drop_last());
        if entries.last().name.len() > before {
            entries.last().name.len()
        } else {
            before
        }
    }
}

/// `n` spaces.
pub open spec fn spaces(n: nat) -> Seq<char> {
    Seq::new(n, |i: int| ' ')
}

/// `text` followed by the spaces that fill it up to `width` characters.
pub open spec fn padded(text: Seq<char>, width: nat) -> Seq<char> {
    if text.len() >= width {
        text
    } else {
        text + spaces((width - text.len()) as nat)
    }
}

/// The cells of one row: for each column a space, and then the column's
/// qualifier where `labels` holds it, else as many spaces as it is long.
pub open spec fn cells_of(labels: Seq<Seq<char>>, columns: Seq<Seq<char>>) -> Seq<char>
    decreases columns.len(),
{
    if columns.len() == 0 {
        Seq::empty()
    } else {
        let column = columns.last();
        let cell = if labels.contains(column) {
            column
        } else {
            spaces(column.len())
        };
        cells_of(labels, columns.drop_last()) + seq![' '] + cell
    }
}

/// One row: the name, filled up to the width of the longest, the cells, and
/// a newline.
pub open spec fn row_of(
    res_type: Seq<char>,
    entry: EntryView,
    width: nat,
    columns: Seq<Seq<char>>,
) -> Seq<char> {
    padded(entry.name, width) + cells_of(labels_of(res_type, entry.paths), columns) + seq!['\n']
}

/// The rows of `entries`, in their order.
pub open spec fn rows_of(
    res_type: Seq<char>,
    entries: Seq<EntryView>,
    width: nat,
    columns: Seq<Seq<char>>,
) -> Seq<char>
    decreases entries.len(),
{
    if entries.len() == 0 {
        Seq::empty()
    } else {
        rows_of(res_type, entries.drop_last(), width, columns) + row_of(
            res_type,
            entries.last(),
            width,
            columns,
        )
    }
}

/// The table of a collection.
pub open spec fn render(res_type: Seq<char>, entries: Seq<EntryView>) -> Seq<char> {
    rows_of(res_type, entries, width_of(entries), columns_of(res_type, entries))
}

/// Whether one of the strings of `v` is `s`.
pub fn holds(v: &Vec<String>, s: &str) -> (r: bool)
    ensures
        r == texts(v@).contains(s@),
{
    let mut i: usize = 0;
    while i < v.len()
        invariant
            i <= v@.len(),
            forall|j: int| 0 <= j < i ==> texts(v@)[j] != s@,
        decreases v@.len() - i,
    {
        if str_eq(v[i].as_str(), s) {
            assert(texts(v@)[i as int] == s@);
            return true;
        }
        i += 1;
    }
    false
}

/// The qualifiers of the buckets that hold `paths`.
pub fn labels(res_type: &str, paths: &Vec<String>) -> (r: Vec<String>)
    ensures
        texts(r@) == labels_of(res_type@, texts(paths@)),
{
    let ghost all = texts(paths@);
    let mut r: Vec<String> = Vec::new();
    let mut i: usize = 0;
    assert(texts(r@) =~= Seq::<Seq<char>>::empty());
    while i < paths.len()
        invariant
            all == texts(paths@),
            i <= paths@.len(),
            texts(r@) == labels_of(res_type@, all.take(i as int)),
        decreases paths@.len() - i,
    {
        proof {
            assert(all.take(i + 1).drop_last() =~= all.take(i as int));
            assert(all.take(i + 1).last() == paths@[i as int]@);
        }
        let ghost before = texts(r@);
        match dir_name(paths[i].as_str()) {
            Some(dir) => {
                match qualifier(res_type, dir.as_str()) {
                    Some(q) => {
                        r.push(q);
                        assert(texts(r@) =~= before.push(q@));
                    },
                    None => {},
                }
            },
            None => {},
        }
        i += 1;
    }
    assert(all.take(paths@.len() as int) =~= all);
    r
}

/// Appends to `columns` those of `found` that it lacks.
pub fn merge_new(columns: &mut Vec<String>, found: &Vec<String>)
    ensures
        texts(final(columns)@) == with_new(texts(old(columns)@), texts(found@)),
{
    let ghost start = texts(columns@);
    let ghost all = texts(found@);
    let mut i: usize = 0;
    while i < found.len()
        invariant
            all == texts(found@),
            i <= found@.len(),
            texts(columns@) == with_new(start, all.take(i as int)),
        decreases found@.len() - i,
    {
        proof {
            assert(all.take(i + 1).drop_last() =~= all.take(i as int));
            assert(all.take(i + 1).last() == found@[i as int]@);
        }
        if !holds(columns, found[i].as_str()) {
            let ghost before = texts(columns@);
            columns.push(found[i].clone());
            assert(texts(columns@) =~= before.push(found@[i as int]@));
        }
        i += 1;
    }
    assert(all.take(found@.len() as int) =~= all);
}

/// The columns of the table of `files`.
pub fn columns(res_type: &str, files: &Entries) -> (r: Vec<String>)
    ensures
        texts(r@) == columns_of(res_type@, files@),
{
    let mut r: Vec<String> = Vec::new();
    let mut i: usize = 0;
    assert(texts(r@) =~= Seq::<Seq<char>>::empty());
    while i < files.len()
        invariant
            i <= files@.len(),
            texts(r@) == columns_of(res_type@, files@.take(i as int)),
        decreases files@.len() - i,
    {
        proof {
            assert(files@.take(i + 1).drop_last() =~= files@.take(i as int));
            assert(files@.take(i + 1).last() == files@[i as int]);
        }
        let found: Vec<String> = labels(res_type, &files.entry(i).paths);
        merge_new(&mut r, &found);
        i += 1;
    }
    assert(files@.take(files@.len() as int) =~= files@);
    r
}

/// The length of the longest name of `files`.
pub fn name_width(files: &Entries) -> (r: usize)
    ensures
        r == width_of(files@),
{
    let mut r: usize = 0;
    let mut i: usize = 0;
    while i < files.len()
        invariant
            i <= files@.len(),
            r == width_of(files@.take(i as int)),
        decreases files@.len() - i,
    {
        proof {
            assert(files@.take(i + 1).drop_last() =~= files@.take(i as int));
            assert(files@.take(i + 1).last() == files@[i as int]);
        }
        let n: usize = files.entry(i).name.as_str().unicode_len();
        if n > r {
            r = n;
        }
        i += 1;
    }
    assert(files@.take(files@.len() as int) =~= files@);
    r
}

/// Appends `n` spaces to `out`.
pub fn push_spaces(out: &mut String, n: usize)
    ensures
        final(out)@ == old(out)@ + spaces(n as nat),
{
    let ghost start = out@;
    let mut i: usize = 0;
    assert(out@ =~= start + spaces(0));
    while i < n
        invariant
            i <= n,
            out@ == start + spaces(i as nat),
        decreases n - i,
    {
        out.push(' ');
        assert(start + spaces((i + 1) as nat) =~= (start + spaces(i as nat)).push(' '));
        i += 1;
    }
}

/// Appends `text` to `out`, filled up with spaces to `width` characters.
pub fn push_padded(out: &mut String, text: &str, width: usize)
    ensures
        final(out)@ == old(out)@ + padded(text@, width as nat),
{
    let ghost start = out@;
    let n: usize = text.unicode_len();
    out.append(text);
    if n < width {
        push_spaces(out, width - n);
        assert(start + text@ + spaces((width - n) as nat) =~= start + padded(text@, width as nat));
    }
}

/// Appends to `out` the cells of a row whose buckets carry the qualifiers
/// `found`.
pub fn push_cells(out: &mut String, found: &Vec<String>, columns: &Vec<String>)
    ensures
        final(out)@ == old(out)@ + cells_of(texts(found@), texts(columns@)),
{
    let ghost start = out@;
    let ghost all = texts(columns@);
    let mut i: usize = 0;
    assert(out@ =~= start + cells_of(texts(found@), all.take(0)));
    while i < columns.len()
        invariant
            all == texts(columns@),
            i <= columns@.len(),
            out@ == start + cells_of(texts(found@), all.take(i as int)),
        decreases columns@.len() - i,
    {
        proof {
            assert(all.take(i + 1).drop_last() =~= all.take(i as int));
            assert(all.take(i + 1).last() == columns@[i as int]@);
        }
        let ghost before = out@;
        let column: &str = columns[i].as_str();
        out.push(' ');
        if holds(found, column) {
            out.append(column);
            assert(out@ =~= before + (seq![' '] + column@));
        } else {
            push_spaces(out, column.unicode_len());
            assert(out@ =~= before + (seq![' '] + spaces(column@.len())));
        }
        assert(out@ =~= start + cells_of(texts(found@), all.take(i + 1)));
        i += 1;
    }
    assert(all.take(columns@.len() as int) =~= all);
}

/// The table of `files`: a row for each name, in ascending order of the
/// names; the name, filled up to the length of the longest; then for each
/// qualifier that occurs anywhere a space and the qualifier itself where the
/// name has a file in that bucket, or spaces of its length where it has none.
pub fn ls(res_type: &str, files: &Entries) -> (r: String)
    ensures
        r@ == render(res_type@, files@),
{
    let width: usize = name_width(files);
    let cols: Vec<String> = columns(res_type, files);
    let mut out: String = String::new();
    let mut i: usize = 0;
    assert(out@ =~= rows_of(res_type@, files@.take(0), width as nat, texts(cols@)));
    while i < files.len()
        invariant
            i <= files@.len(),
            out@ == rows_of(res_type@, files@.take(i as int), width as nat, texts(cols@)),
        decreases files@.len() - i,
    {
        proof {
            assert(files@.take(i + 1).drop_last() =~= files@.take(i as int));
            assert(files@.take(i + 1).last() == files@[i as int]);
        }
        let ghost before = out@;
        let entry = files.entry(i);
        let found: Vec<String> = labels(res_type, &entry.paths);
        push_padded(&mut out, entry.name.as_str(), width);
        push_cells(&mut out, &found, &cols);
        out.push('\n');
        assert(out@ =~= before + row_of(res_type@, files@[i as int], width as nat, texts(cols@)));
        i += 1;
    }
    assert(files@.take(files@.len() as int) =~= files@);
    out
}

/// Appending the qualifiers that are new keeps a list free of repetitions,
/// and the result holds what either list holds.
pub proof fn lemma_with_new(columns: Seq<Seq<char>>, labels: Seq<Seq<char>>, q: Seq<char>)
    requires
        columns.no_duplicates(),
    ensures
        with_new(columns, labels).no_duplicates(),
        with_new(columns, labels).contains(q) <==> columns.contains(q) || labels.contains(q),
    decreases labels.len(),
{
    if labels.len() > 0 {
        let rest = labels.drop_last();
        let last = labels.last();
        let before = with_new(columns, rest);
        lemma_with_new(columns, rest, q);
        assert(labels[labels.len() - 1] == last);
        if rest.contains(q) {
            let k = choose|k: int| 0 <= k < rest.len() && rest[k] == q;
            assert(labels[k] == q);
        }
        if labels.contains(q) {
            let k = choose|k: int| 0 <= k < labels.len() && labels[k] == q;
            if k < rest.len() {
                assert(rest[k] == q);
            }
        }
        if !before.contains(last) {
            let after = before.push(last);
            assert(after[before.len() as int] == last);
            assert forall|i: int, j: int| 0 <= i < after.len() && 0 <= j < after.len() && i != j implies after[i]
                != after[j] by {
                if i < before.len() && j < before.len() {
                    assert(before[i] != before[j]);
                } else if i < before.len() {
                    assert(before[i] != last);
                } else {
                    assert(before[j] != last);
                }
            }
            if before.contains(q) {
                let k = choose|k: int| 0 <= k < before.len() && before[k] == q;
                assert(after[k] == q);
            }
            if after.contains(q) {
                let k = choose|k: int| 0 <= k < after.len() && after[k] == q;
                if k < before.len() {
                    assert(before[k] == q);
                }
            }
        }
    }
}

/// The table has one column for each qualifier that occurs: no qualifier
/// heads two columns, and a qualifier heads a column if and only if a file of
/// some entry lies in a bucket that bears it.
pub proof fn lemma_columns(res_type: Seq<char>, entries: Seq<EntryView>, q: Seq<char>)
    ensures
        columns_of(res_type, entries).no_duplicates(),
        columns_of(res_type, entries).contains(q) <==> exists|i: int|
            0 <= i < entries.len() && #[trigger] labels_of(res_type, entries[i].paths).contains(q),
    decreases entries.len(),
{
    if entries.len() > 0 {
        let rest = entries.drop_last();
        let last = entries.len() - 1;
        lemma_columns(res_type, rest, q);
        lemma_with_new(columns_of(res_type, rest), labels_of(res_type, entries.last().paths), q);
        assert(entries.last() == entries[last]);
        if exists|i: int|
            0 <= i < rest.len() && #[trigger] labels_of(res_type, rest[i].paths).contains(q) {
            let i = choose|i: int|
                0 <= i < rest.len() && #[trigger] labels_of(res_type, rest[i].paths).contains(q);
            assert(rest[i] == entries[i]);
        }
        if exists|i: int|
            0 <= i < entries.len() && #[trigger] labels_of(res_type, entries[i].paths).contains(q) {
            let i = choose|i: int|
                0 <= i < entries.len() && #[trigger] labels_of(res_type, entries[i].paths).contains(q);
            if i < last {
                assert(rest[i] == entries[i]);
            }
        }
    }
}

/// The length of the cells of a row: for each column a space and the length
/// of its qualifier.
pub open spec fn cells_len(columns: Seq<Seq<char>>) -> nat
    decreases columns.len(),
{
    if columns.len() == 0 {
        0
    } else {
        cells_len(columns.drop_last()) + 1 + columns.last().len()
    }
}

/// The cells of a row are as long whatever buckets the row has.
pub proof fn lemma_cells_len(labels: Seq<Seq<char>>, columns: Seq<Seq<char>>)
    ensures
        cells_of(labels, columns).len() == cells_len(columns),
    decreases columns.len(),
{
    if columns.len() > 0 {
        lemma_cells_len(labels, columns.drop_last());
    }
}

/// No name is longer than the width of the name column.
pub proof fn lemma_width_bounds(entries: Seq<EntryView>, i: int)
    requires
        0 <= i < entries.len(),
    ensures
        entries[i].name.len() <= width_of(entries),
    decreases entries.len(),
{
    if i < entries.len() - 1 {
        lemma_width_bounds(entries.drop_last(), i);
    }
}

/// The rows of a table are aligned: every row is as long as every other,
/// the width of the name column, the width of the cells and a newline.
pub proof fn lemma_rows_aligned(res_type: Seq<char>, entries: Seq<EntryView>, i: int)
    requires
        0 <= i < entries.len(),
    ensures
        row_of(
            res_type,
            entries[i],
            width_of(entries),
            columns_of(res_type, entries),
        ).len() == width_of(entries) + cells_len(columns_of(res_type, entries)) + 1,
{
    lemma_width_bounds(entries, i);
    lemma_cells_len(labels_of(res_type, entries[i].paths), columns_of(res_type, entries));
}

} // verus!
