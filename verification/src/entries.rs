//! The files that a collection found: for each canonical name the paths of its
//! variants, one for each bucket that holds a file of that name.
//!
//! The names are kept in ascending order, so that everything that walks the
//! collection walks it in one fixed order.

use vstd::prelude::*;
use crate::text::{lemma_lex_irreflexive, lemma_lex_total, lemma_lex_transitive, lex_lt, str_eq, str_lt};

verus! {

/// The texts of a sequence of strings.
pub open spec fn texts(v: Seq<String>) -> Seq<Seq<char>> {
    Seq::new(v.len(), |i: int| v[i]@)
}

/// One canonical name and the paths of its variants, in the order in which
/// they were found.
#[derive(Debug)]
pub struct Entry {
    pub name: String,
    pub paths: Vec<String>,
}

/// An `Entry` as a value: its name and its paths.
pub ghost struct EntryView {
    pub name: Seq<char>,
    pub paths: Seq<Seq<char>>,
}

impl View for Entry {
    type V = EntryView;

    open spec fn view(&self) -> EntryView {
        EntryView { name: self.name@, paths: texts(self.paths@) }
    }
}

/// The names stand in strictly ascending order.
pub open spec fn ascending(s: Seq<EntryView>) -> bool {
    forall|i: int, j: int| 0 <= i < j < s.len() ==> lex_lt(#[trigger] s[i].name, #[trigger] s[j].name)
}

/// A well-formed collection: names in strictly ascending order, so that none
/// occurs twice, and at least one path under each.
pub open spec fn well_formed(s: Seq<EntryView>) -> bool {
    &&& ascending(s)
    &&& forall|i: int| 0 <= i < s.len() ==> (#[trigger] s[i]).paths.len() > 0
}

/// How many of the names come before `name`.
pub open spec fn rank(s: Seq<EntryView>, name: Seq<char>) -> nat
    decreases s.len(),
{
    if s.len() == 0 {
        0
    } else if lex_lt(s.last().name, name) {
        rank(s.drop_last(), name) + 1
    } else {
        rank(s.drop_last(), name)
    }
}

/// The paths found under `name`: none where the name is absent.
pub open spec fn paths_of(s: Seq<EntryView>, name: Seq<char>) -> Seq<Seq<char>>
    decreases s.len(),
{
    if s.len() == 0 {
        Seq::empty()
    } else if s.last().name == name {
        s.last().paths
    } else {
        paths_of(s.drop_last(), name)
    }
}

/// The collection after `path` was found under `name`: appended to the paths
/// of that name where it is present, and else a new entry at the place that
/// the order of names gives it.
pub open spec fn added(s: Seq<EntryView>, name: Seq<char>, path: Seq<char>) -> Seq<EntryView> {
    let k = rank(s, name) as int;
    if k < s.len() && s[k].name == name {
        s.update(k, EntryView { name: name, paths: s[k].paths.push(path) })
    } else {
        s.insert(k, EntryView { name: name, paths: seq![path] })
    }
}

/// In an ascending collection the names before `name` are exactly the first
/// `rank` ones.
pub proof fn lemma_rank_splits(s: Seq<EntryView>, name: Seq<char>, k: int)
    requires
        ascending(s),
        0 <= k <= s.len(),
        forall|j: int| 0 <= j < k ==> lex_lt(#[trigger] s[j].name, name),
        k == s.len() || !lex_lt(s[k].name, name),
    ensures
        rank(s, name) == k,
    decreases s.len(),
{
    if s.len() > 0 {
        let t = s.drop_last();
        assert(ascending(t)) by {
            assert forall|i: int, j: int| 0 <= i < j < t.len() implies lex_lt(
                #[trigger] t[i].name,
                #[trigger] t[j].name,
            ) by {
                assert(t[i] == s[i] && t[j] == s[j]);
            }
        }
        if k == s.len() {
            assert forall|j: int| 0 <= j < k - 1 implies lex_lt(#[trigger] t[j].name, name) by {
                assert(t[j] == s[j]);
            }
            lemma_rank_splits(t, name, k - 1);
        } else {
            assert forall|j: int| 0 <= j < k implies lex_lt(#[trigger] t[j].name, name) by {
                assert(t[j] == s[j]);
            }
            if k < s.len() - 1 {
                assert(t[k] == s[k]);
                if lex_lt(s.last().name, name) {
                    lemma_lex_transitive(s[k].name, s[s.len() - 1].name, name);
                }
            }
            lemma_rank_splits(t, name, k);
        }
    }
}

/// `rank` is a position of the collection, and splits an ascending collection
/// into the names before `name` and the others.
pub proof fn lemma_rank_bounds(s: Seq<EntryView>, name: Seq<char>)
    requires
        ascending(s),
    ensures
        rank(s, name) <= s.len(),
        forall|j: int| 0 <= j < rank(s, name) ==> lex_lt(#[trigger] s[j].name, name),
        forall|j: int| rank(s, name) <= j < s.len() ==> !lex_lt(#[trigger] s[j].name, name),
    decreases s.len(),
{
    if s.len() > 0 {
        let t = s.drop_last();
        assert(ascending(t)) by {
            assert forall|i: int, j: int| 0 <= i < j < t.len() implies lex_lt(
                #[trigger] t[i].name,
                #[trigger] t[j].name,
            ) by {
                assert(t[i] == s[i] && t[j] == s[j]);
            }
        }
        lemma_rank_bounds(t, name);
        let last = s.len() - 1;
        assert forall|j: int| 0 <= j < rank(s, name) implies lex_lt(#[trigger] s[j].name, name) by {
            if j < last {
                if j < rank(t, name) {
                    assert(t[j] == s[j]);
                } else {
                    // the last name comes before `name`, and this one before the last
                    lemma_lex_transitive(s[j].name, s[last].name, name);
                }
            }
        }
        assert forall|j: int| rank(s, name) <= j < s.len() implies !lex_lt(
            #[trigger] s[j].name,
            name,
        ) by {
            if j < last {
                assert(t[j] == s[j]);
            } else if lex_lt(s[last].name, name) {
                // then every name comes before `name`
                let r = rank(t, name) as int;
                if r < t.len() {
                    assert(t[r] == s[r]);
                    lemma_lex_transitive(s[r].name, s[last].name, name);
                }
            }
        }
    }
}

/// In an ascending collection a name stands at one place at most, and
/// `paths_of` reads the paths at that place.
pub proof fn lemma_paths_of_at(s: Seq<EntryView>, i: int)
    requires
        ascending(s),
        0 <= i < s.len(),
    ensures
        paths_of(s, s[i].name) == s[i].paths,
    decreases s.len(),
{
    let last = s.len() - 1;
    if i < last {
        lemma_lex_irreflexive(s[i].name);
        assert(lex_lt(s[i].name, s[last].name));
        let t = s.drop_last();
        assert(ascending(t)) by {
            assert forall|a: int, b: int| 0 <= a < b < t.len() implies lex_lt(
                #[trigger] t[a].name,
                #[trigger] t[b].name,
            ) by {
                assert(t[a] == s[a] && t[b] == s[b]);
            }
        }
        assert(t[i] == s[i]);
        lemma_paths_of_at(t, i);
    }
}

/// A name that stands nowhere in the collection has no paths.
pub proof fn lemma_paths_of_absent(s: Seq<EntryView>, name: Seq<char>)
    requires
        forall|i: int| 0 <= i < s.len() ==> (#[trigger] s[i]).name != name,
    ensures
        paths_of(s, name) == Seq::<Seq<char>>::empty(),
    decreases s.len(),
{
    if s.len() > 0 {
        let t = s.drop_last();
        assert(s.last() == s[s.len() - 1]);
        assert forall|i: int| 0 <= i < t.len() implies (#[trigger] t[i]).name != name by {
            assert(t[i] == s[i]);
        }
        lemma_paths_of_absent(t, name);
    }
}

/// Adding keeps a collection well formed.
pub proof fn lemma_added_well_formed(s: Seq<EntryView>, name: Seq<char>, path: Seq<char>)
    requires
        well_formed(s),
    ensures
        well_formed(added(s, name, path)),
{
    lemma_rank_bounds(s, name);
    let k = rank(s, name) as int;
    let r = added(s, name, path);
    if k < s.len() && s[k].name == name {
        assert forall|i: int, j: int| 0 <= i < j < r.len() implies lex_lt(
            #[trigger] r[i].name,
            #[trigger] r[j].name,
        ) by {
            assert(r[i].name == s[i].name && r[j].name == s[j].name);
        }
        assert forall|i: int| 0 <= i < r.len() implies (#[trigger] r[i]).paths.len() > 0 by {
            if i != k {
                assert(r[i] == s[i]);
            }
        }
    } else {
        assert forall|i: int, j: int| 0 <= i < j < r.len() implies lex_lt(
            #[trigger] r[i].name,
            #[trigger] r[j].name,
        ) by {
            lemma_added_order(s, name, path, i, j);
        }
        assert forall|i: int| 0 <= i < r.len() implies (#[trigger] r[i]).paths.len() > 0 by {
            if i < k {
                assert(r[i] == s[i]);
            } else if i > k {
                assert(r[i] == s[i - 1]);
            }
        }
    }
}

proof fn lemma_added_order(s: Seq<EntryView>, name: Seq<char>, path: Seq<char>, i: int, j: int)
    requires
        well_formed(s),
        !(rank(s, name) < s.len() && s[rank(s, name) as int].name == name),
        0 <= i < j < s.len() + 1,
    ensures
        lex_lt(added(s, name, path)[i].name, added(s, name, path)[j].name),
{
    lemma_rank_bounds(s, name);
    let k = rank(s, name) as int;
    let r = added(s, name, path);
    assert(r.len() == s.len() + 1);
    if j < k {
        assert(r[i] == s[i] && r[j] == s[j]);
    } else if j == k {
        assert(r[i] == s[i]);
    } else {
        assert(r[j] == s[j - 1]);
        // every name from `k` on comes after `name`
        lemma_lex_total(s[k].name, name);
        if j - 1 > k {
            lemma_lex_transitive(name, s[k].name, s[j - 1].name);
        }
        if i < k {
            assert(r[i] == s[i]);
            lemma_lex_transitive(s[i].name, name, s[j - 1].name);
        } else if i > k {
            assert(r[i] == s[i - 1]);
        }
    }
}

/// What adding does to the mapping from names to paths: the path is appended
/// under its name, and the paths of every other name stay as they were.
pub proof fn lemma_added_paths(
    s: Seq<EntryView>,
    name: Seq<char>,
    path: Seq<char>,
    other: Seq<char>,
)
    requires
        well_formed(s),
    ensures
        paths_of(added(s, name, path), other) == if other == name {
            paths_of(s, name).push(path)
        } else {
            paths_of(s, other)
        },
{
    lemma_rank_bounds(s, name);
    lemma_added_well_formed(s, name, path);
    let k = rank(s, name) as int;
    let r = added(s, name, path);
    let present = k < s.len() && s[k].name == name;
    if !present {
        assert forall|i: int| 0 <= i < s.len() implies (#[trigger] s[i]).name != name by {
            if i < k {
                lemma_lex_irreflexive(name);
            } else if i > k {
                lemma_lex_total(s[k].name, name);
                lemma_lex_irreflexive(name);
                assert(lex_lt(s[k].name, s[i].name));
                lemma_lex_transitive(name, s[k].name, s[i].name);
            }
        }
        lemma_paths_of_absent(s, name);
    } else {
        lemma_paths_of_at(s, k);
    }
    if other == name {
        lemma_paths_of_at(r, k);
    } else if exists|i: int| 0 <= i < s.len() && (#[trigger] s[i]).name == other {
        let i = choose|i: int| 0 <= i < s.len() && (#[trigger] s[i]).name == other;
        lemma_paths_of_at(s, i);
        if present {
            assert(r[i] == s[i]);
            lemma_paths_of_at(r, i);
        } else if i < k {
            assert(r[i] == s[i]);
            lemma_paths_of_at(r, i);
        } else {
            assert(r[i + 1] == s[i]);
            lemma_paths_of_at(r, i + 1);
        }
    } else {
        assert forall|i: int| 0 <= i < r.len() implies (#[trigger] r[i]).name != other by {
            if present {
                assert(r[i].name == s[i].name);
            } else if i < k {
                assert(r[i] == s[i]);
            } else if i > k {
                assert(r[i] == s[i - 1]);
            }
        }
        lemma_paths_of_absent(s, other);
        lemma_paths_of_absent(r, other);
    }
}

/// The files of one collection, by canonical name.
#[derive(Debug)]
pub struct Entries {
    items: Vec<Entry>,
}

impl View for Entries {
    type V = Seq<EntryView>;

    closed spec fn view(&self) -> Seq<EntryView> {
        Seq::new(self.items@.len(), |i: int| self.items@[i]@)
    }
}

impl Entries {
    /// The names are in ascending order and each has a path.
    pub open spec fn wf(&self) -> bool {
        well_formed(self@)
    }

    /// An empty collection.
    pub fn new() -> (r: Entries)
        ensures
            r@ == Seq::<EntryView>::empty(),
            r.wf(),
    {
        let r = Entries { items: Vec::new() };
        assert(r@ =~= Seq::<EntryView>::empty());
        r
    }

    /// The number of names.
    pub fn len(&self) -> (r: usize)
        ensures
            r == self@.len(),
    {
        self.items.len()
    }

    /// The entry at place `i` of the ascending order.
    pub fn entry(&self, i: usize) -> (r: &Entry)
        requires
            i < self@.len(),
        ensures
            r@ == self@[i as int],
    {
        &self.items[i]
    }

    /// Records that `path` was found under `name`.
    pub fn add(&mut self, name: String, path: String)
        requires
            old(self).wf(),
        ensures
            final(self)@ == added(old(self)@, name@, path@),
            final(self).wf(),
    {
        let ghost before = self@;
        let mut k: usize = 0;
        while k < self.items.len() && str_lt(self.items[k].name.as_str(), name.as_str())
            invariant
                self@ == before,
                k <= self.items@.len(),
                forall|j: int| 0 <= j < k ==> lex_lt(#[trigger] before[j].name, name@),
            decreases self.items@.len() - k,
        {
            k += 1;
        }
        proof {
            lemma_rank_splits(before, name@, k as int);
            lemma_added_well_formed(before, name@, path@);
        }
        if k < self.items.len() && str_eq(self.items[k].name.as_str(), name.as_str()) {
            self.items[k].paths.push(path);
            assert(self@ =~= added(before, name@, path@)) by {
                assert(texts(self.items@[k as int].paths@) =~= before[k as int].paths.push(path@));
            }
        } else {
            let mut paths: Vec<String> = Vec::new();
            paths.push(path);
            let entry = Entry { name: name, paths: paths };
            assert(entry@.paths =~= seq![path@]);
            self.items.insert(k, entry);
            assert(self@ =~= added(before, name@, path@));
        }
    }

    /// The names, in ascending order.
    pub fn names(&self) -> (r: Vec<String>)
        ensures
            texts(r@) == Seq::new(self@.len(), |i: int| self@[i].name),
    {
        let mut r: Vec<String> = Vec::new();
        let mut i: usize = 0;
        while i < self.items.len()
            invariant
                i <= self.items@.len(),
                r@.len() == i,
                forall|j: int| 0 <= j < i ==> (#[trigger] r@[j])@ == self@[j].name,
            decreases self.items@.len() - i,
        {
            r.push(self.items[i].name.clone());
            i += 1;
        }
        assert(texts(r@) =~= Seq::new(self@.len(), |i: int| self@[i].name));
        r
    }

    /// The paths found under `name`, in the order in which they were found:
    /// none where the name is absent.
    pub fn paths(&self, name: &str) -> (r: Vec<String>)
        requires
            self.wf(),
        ensures
            texts(r@) == paths_of(self@, name@),
    {
        let mut i: usize = 0;
        while i < self.items.len()
            invariant
                self.wf(),
                i <= self.items@.len(),
                forall|j: int| 0 <= j < i ==> (#[trigger] self@[j]).name != name@,
            decreases self.items@.len() - i,
        {
            if str_eq(self.items[i].name.as_str(), name) {
                proof {
                    lemma_paths_of_at(self@, i as int);
                }
                return copy_of(&self.items[i].paths);
            }
            i += 1;
        }
        proof {
            lemma_paths_of_absent(self@, name@);
        }
        let r: Vec<String> = Vec::new();
        assert(texts(r@) =~= Seq::<Seq<char>>::empty());
        r
    }
}

/// A copy of a list of strings.
pub fn copy_of(v: &Vec<String>) -> (r: Vec<String>)
    ensures
        texts(r@) == texts(v@),
{
    let mut r: Vec<String> = Vec::new();
    let mut i: usize = 0;
    while i < v.len()
        invariant
            i <= v@.len(),
            r@.len() == i,
            forall|j: int| 0 <= j < i ==> (#[trigger] r@[j])@ == v@[j]@,
        decreases v@.len() - i,
    {
        r.push(v[i].clone());
        i += 1;
    }
    assert(texts(r@) =~= texts(v@));
    r
}

} // verus!
