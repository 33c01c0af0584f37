//! The operations on a database that is held in memory: adding a file to
//! tags, removing a file from tags, and searching for the files that carry
//! every one of a list of tags.

use vstd::prelude::*;
use crate::database::{File, Tag, TagView, files_of, has_label, position, unique_labels, lemma_position};
use crate::error::InvalidArgument;

verus! {

/// `db` after `file` has been put under `label`: at the end of the list of the
/// first tag that bears the label, or, where none does, under a new tag at
/// the end of `db`. Whether the file already stands there is not asked.
pub open spec fn add_one(db: Seq<TagView>, file: Seq<char>, label: Seq<char>) -> Seq<TagView> {
    match position(db, label) {
        Some(i) => db.update(i, TagView { tag: db[i].tag, files: db[i].files.push(file) }),
        None => db.push(TagView { tag: label, files: seq![file] }),
    }
}

/// `db` after `file` has been put under each of `labels`, from the first on.
pub open spec fn add_all(db: Seq<TagView>, file: Seq<char>, labels: Seq<Seq<char>>) -> Seq<TagView>
    decreases labels.len(),
{
    if labels.len() == 0 {
        db
    } else {
        add_one(add_all(db, file, labels.drop_last()), file, labels.last())
    }
}

/// `db` after every occurrence of `file` has left the first tag that bears
/// `label`. The tag stays, even with no file left; where no tag bears the
/// label, nothing changes.
pub open spec fn remove_one(db: Seq<TagView>, file: Seq<char>, label: Seq<char>) -> Seq<TagView> {
    match position(db, label) {
        Some(i) => db.update(
            i,
            TagView { tag: db[i].tag, files: db[i].files.filter(|name: Seq<char>| name != file) },
        ),
        None => db,
    }
}

/// `db` after `file` has left each of `labels`, from the first on.
pub open spec fn remove_all(db: Seq<TagView>, file: Seq<char>, labels: Seq<Seq<char>>) -> Seq<TagView>
    decreases labels.len(),
{
    if labels.len() == 0 {
        db
    } else {
        remove_one(remove_all(db, file, labels.drop_last()), file, labels.last())
    }
}

/// Every label of `labels` is borne by some tag of `db`.
pub open spec fn all_present(db: Seq<TagView>, labels: Seq<Seq<char>>) -> bool {
    forall|k: int| 0 <= k < labels.len() ==> has_label(db, #[trigger] labels[k])
}

/// `name` stands under every label of `labels`.
pub open spec fn carried_by_all(db: Seq<TagView>, labels: Seq<Seq<char>>, name: Seq<char>) -> bool {
    forall|k: int| 0 <= k < labels.len() ==> files_of(db, #[trigger] labels[k]).contains(name)
}

/// The names of `names`, each once, in the order in which they first occur.
pub open spec fn distinct(names: Seq<Seq<char>>) -> Seq<Seq<char>> {
    names.remove_duplicates(Seq::empty())
}

/// The files that carry every label of `labels`: the distinct names under the
/// first label, in their order there, that also stand under each of the
/// others. Nothing where `labels` is empty, and nothing where one of the
/// labels is borne by no tag.
pub open spec fn intersection(db: Seq<TagView>, labels: Seq<Seq<char>>) -> Seq<Seq<char>> {
    if labels.len() == 0 || !all_present(db, labels) {
        Seq::empty()
    } else {
        distinct(files_of(db, labels[0])).filter(|name: Seq<char>| carried_by_all(db, labels, name))
    }
}

/// Filtering by a test that every element passes changes nothing.
proof fn lemma_filter_all<A>(s: Seq<A>, keep: spec_fn(A) -> bool)
    requires
        forall|i: int| 0 <= i < s.len() ==> keep(#[trigger] s[i]),
    ensures
        s.filter(keep) == s,
    decreases s.len(),
{
    reveal(Seq::filter);
    if s.len() > 0 {
        lemma_filter_all(s.drop_last(), keep);
    }
}

/// Filtering twice is filtering once by both tests.
proof fn lemma_filter_twice<A>(
    s: Seq<A>,
    first: spec_fn(A) -> bool,
    second: spec_fn(A) -> bool,
    both: spec_fn(A) -> bool,
)
    requires
        forall|x: A| #[trigger] both(x) == (first(x) && second(x)),
    ensures
        s.filter(first).filter(second) == s.filter(both),
    decreases s.len(),
{
    reveal(Seq::filter);
    if s.len() > 0 {
        lemma_filter_twice(s.drop_last(), first, second, both);
        if first(s.last()) {
            s.drop_last().filter(first).lemma_filter_push(s.last(), second);
        }
    }
}

/// What `remove_duplicates` returns has no duplicates where `seen` has none.
proof fn lemma_remove_duplicates_distinct<A>(s: Seq<A>, seen: Seq<A>)
    requires
        seen.no_duplicates(),
    ensures
        s.remove_duplicates(seen).no_duplicates(),
    decreases s.len(),
{
    if s.len() > 0 {
        if seen.contains(s[0]) {
            lemma_remove_duplicates_distinct(s.skip(1), seen);
        } else {
            lemma_remove_duplicates_distinct(s.skip(1), seen + seq![s[0]]);
        }
    }
}

/// A filter keeps exactly the elements that pass its test.
proof fn lemma_filter_members<A>(s: Seq<A>, keep: spec_fn(A) -> bool)
    ensures
        forall|x: A| #[trigger] s.filter(keep).contains(x) <==> s.contains(x) && keep(x),
{
    assert forall|x: A| #[trigger] s.filter(keep).contains(x) <==> s.contains(x) && keep(x) by {
        if s.contains(x) && keep(x) {
            let i = choose|i: int| 0 <= i < s.len() && s[i] == x;
            s.lemma_filter_contains(keep, i);
        }
        if s.filter(keep).contains(x) {
            s.lemma_filter_contains_rev(keep, x);
            let j = choose|j: int| 0 <= j < s.filter(keep).len() && s.filter(keep)[j] == x;
            s.lemma_filter_pred(keep, j);
        }
    }
}

/// A filter keeps a sequence free of duplicates.
proof fn lemma_filter_distinct<A>(s: Seq<A>, keep: spec_fn(A) -> bool)
    requires
        s.no_duplicates(),
    ensures
        s.filter(keep).no_duplicates(),
    decreases s.len(),
{
    reveal(Seq::filter);
    if s.len() > 0 {
        let front = s.drop_last();
        lemma_filter_distinct(front, keep);
        if keep(s.last()) && front.filter(keep).contains(s.last()) {
            front.lemma_filter_contains_rev(keep, s.last());
        }
    }
}

/// The search result holds no name twice, and holds exactly the names that
/// stand under every one of the labels, provided there is a label at all and
/// each label is borne by some tag.
pub proof fn lemma_intersection_members(db: Seq<TagView>, labels: Seq<Seq<char>>)
    ensures
        intersection(db, labels).no_duplicates(),
        forall|name: Seq<char>| #[trigger]
            intersection(db, labels).contains(name) <==> labels.len() > 0 && all_present(db, labels)
                && carried_by_all(db, labels, name),
{
    if labels.len() > 0 && all_present(db, labels) {
        let first = files_of(db, labels[0]);
        let keep = |name: Seq<char>| carried_by_all(db, labels, name);
        lemma_remove_duplicates_distinct(first, Seq::empty());
        first.lemma_remove_duplicates_properties(Seq::empty());
        lemma_filter_distinct(distinct(first), keep);
        lemma_filter_members(distinct(first), keep);
    }
}

/// Putting a file under one label keeps the labels of a database distinct.
pub proof fn lemma_add_one_keeps_labels_unique(db: Seq<TagView>, file: Seq<char>, label: Seq<char>)
    requires
        unique_labels(db),
    ensures
        unique_labels(add_one(db, file, label)),
{
    lemma_position(db, label);
}

/// Putting a file under any labels keeps the labels of a database distinct.
pub proof fn lemma_add_keeps_labels_unique(db: Seq<TagView>, file: Seq<char>, labels: Seq<Seq<char>>)
    requires
        unique_labels(db),
    ensures
        unique_labels(add_all(db, file, labels)),
    decreases labels.len(),
{
    if labels.len() > 0 {
        lemma_add_keeps_labels_unique(db, file, labels.drop_last());
        lemma_add_one_keeps_labels_unique(add_all(db, file, labels.drop_last()), file, labels.last());
    }
}

/// Removing a file changes no label and neither adds nor drops a tag, so
/// distinct labels stay distinct.
pub proof fn lemma_remove_keeps_tags(db: Seq<TagView>, file: Seq<char>, labels: Seq<Seq<char>>)
    ensures
        remove_all(db, file, labels).len() == db.len(),
        forall|i: int| 0 <= i < db.len() ==> (#[trigger] remove_all(db, file, labels)[i]).tag == db[i].tag,
        unique_labels(db) ==> unique_labels(remove_all(db, file, labels)),
    decreases labels.len(),
{
    if labels.len() > 0 {
        let before = remove_all(db, file, labels.drop_last());
        lemma_remove_keeps_tags(db, file, labels.drop_last());
        lemma_position(before, labels.last());
    }
}

/// Removing a file from labels that no tag bears changes nothing.
pub proof fn lemma_remove_from_absent(db: Seq<TagView>, file: Seq<char>, labels: Seq<Seq<char>>)
    requires
        forall|k: int| 0 <= k < labels.len() ==> !has_label(db, #[trigger] labels[k]),
    ensures
        remove_all(db, file, labels) == db,
    decreases labels.len(),
{
    if labels.len() > 0 {
        lemma_remove_from_absent(db, file, labels.drop_last());
        lemma_position(db, labels.last());
    }
}

/// Whether `names` holds `name`.
fn holds(names: &Vec<String>, name: &String) -> (found: bool)
    ensures
        found == names.deep_view().contains(name@),
{
    let mut i: usize = 0;
    while i < names.len()
        invariant
            i <= names.len(),
            forall|j: int| 0 <= j < i ==> names.deep_view()[j] != name@,
        decreases names.len() - i,
    {
        if names[i] == *name {
            assert(names.deep_view()[i as int] == name@);
            return true;
        }
        i += 1;
    }
    false
}

/// The names of `names`, each once, in the order in which they first occur.
fn distinct_names(names: &Vec<String>) -> (out: Vec<String>)
    ensures
        out.deep_view() == distinct(names.deep_view()),
{
    let mut out: Vec<String> = Vec::new();
    let mut i: usize = 0;
    assert(names.deep_view().skip(0) =~= names.deep_view());
    while i < names.len()
        invariant
            i <= names.len(),
            names.deep_view().skip(i as int).remove_duplicates(out.deep_view()) == distinct(
                names.deep_view(),
            ),
        decreases names.len() - i,
    {
        let ghost rest = names.deep_view().skip(i as int);
        let ghost seen = out.deep_view();
        assert(rest.skip(1) =~= names.deep_view().skip(i + 1));
        if !holds(&out, &names[i]) {
            out.push(names[i].clone());
            assert(out.deep_view() =~= seen + seq![rest[0]]);
        }
        i += 1;
    }
    out
}

/// The names of `working` that `other` holds too, in their order in `working`.
fn common(working: &Vec<String>, other: &Vec<String>) -> (out: Vec<String>)
    ensures
        out.deep_view() == working.deep_view().filter(
            |name: Seq<char>| other.deep_view().contains(name),
        ),
{
    let ghost keep = |name: Seq<char>| other.deep_view().contains(name);
    let mut out: Vec<String> = Vec::new();
    let mut i: usize = 0;
    proof {
        reveal(Seq::filter);
    }
    while i < working.len()
        invariant
            i <= working.len(),
            keep == |name: Seq<char>| other.deep_view().contains(name),
            out.deep_view() == working.deep_view().take(i as int).filter(keep),
        decreases working.len() - i,
    {
        let ghost front = working.deep_view().take(i as int);
        proof {
            front.lemma_filter_push(working[i as int]@, keep);
            assert(front.push(working[i as int]@) =~= working.deep_view().take(i + 1));
        }
        if holds(other, &working[i]) {
            out.push(working[i].clone());
        }
        i += 1;
    }
    assert(working.deep_view().take(working.len() as int) =~= working.deep_view());
    out
}

/// The names of `names` other than `name`, in their order.
fn without(names: &Vec<String>, name: &String) -> (out: Vec<String>)
    ensures
        out.deep_view() == names.deep_view().filter(|other: Seq<char>| other != name@),
{
    let ghost keep = |other: Seq<char>| other != name@;
    let mut out: Vec<String> = Vec::new();
    let mut i: usize = 0;
    proof {
        reveal(Seq::filter);
    }
    while i < names.len()
        invariant
            i <= names.len(),
            keep == |other: Seq<char>| other != name@,
            out.deep_view() == names.deep_view().take(i as int).filter(keep),
        decreases names.len() - i,
    {
        let ghost front = names.deep_view().take(i as int);
        proof {
            front.lemma_filter_push(names[i as int]@, keep);
            assert(front.push(names[i as int]@) =~= names.deep_view().take(i + 1));
        }
        if names[i] != *name {
            out.push(names[i].clone());
        }
        i += 1;
    }
    assert(names.deep_view().take(names.len() as int) =~= names.deep_view());
    out
}

impl File {
    /// Puts `filename` under each of `tags`, from the first on.
    ///
    /// Under a tag that the database has, the name goes to the end of its
    /// list, whether or not it already stands there. A label that no tag
    /// bears gets a new tag at the end of the database, with `filename` as
    /// its only file. The empty file name is refused, and the database is
    /// then left as it was.
    pub fn add_file_to_tags(&mut self, filename: &str, tags: &[String]) -> (done: Result<
        (),
        InvalidArgument,
    >)
        ensures
            match done {
                Ok(_) => filename@.len() > 0 && final(self)@ == add_all(
                    old(self)@,
                    filename@,
                    tags.deep_view(),
                ),
                Err(error) => filename@.len() == 0 && error == InvalidArgument::EmptyFilename
                    && *final(self) == *old(self),
            },
            tags.len() == 0 ==> final(self)@ == old(self)@,
            unique_labels(old(self)@) ==> unique_labels(final(self)@),
    {
        if filename.is_empty() {
            return Err(InvalidArgument::EmptyFilename);
        }
        let name = filename.to_owned();
        let ghost labels = tags.deep_view();
        let mut k: usize = 0;
        while k < tags.len()
            invariant
                k <= tags.len(),
                name@ == filename@,
                labels == tags.deep_view(),
                self@ == add_all(old(self)@, filename@, labels.take(k as int)),
            decreases tags.len() - k,
        {
            let ghost before = self@;
            proof {
                assert(labels.take(k + 1).drop_last() =~= labels.take(k as int));
            }
            match self.find_tag(&tags[k]) {
                Some(i) => {
                    self.tags[i].files.push(name.clone());
                    proof {
                        assert(self.tags[i as int].files.deep_view() =~= before[i as int].files.push(
                            filename@,
                        ));
                    }
                },
                None => {
                    let mut tag = Tag::new(tags[k].as_str());
                    tag.files.push(name.clone());
                    assert(tag.files.deep_view() =~= seq![filename@]);
                    self.tags.push(tag);
                },
            }
            k += 1;
        }
        proof {
            assert(labels.take(tags.len() as int) =~= labels);
            if unique_labels(old(self)@) {
                lemma_add_keeps_labels_unique(old(self)@, filename@, labels);
            }
        }
        Ok(())
    }

    /// Takes every occurrence of `filename` out of each of `tags`.
    ///
    /// A tag stays in the database even when no file is left under it, and a
    /// label that no tag bears is passed over. The empty file name is
    /// refused, and the database is then left as it was.
    pub fn remove_file_from_tags(&mut self, filename: &str, tags: &[String]) -> (done: Result<
        (),
        InvalidArgument,
    >)
        ensures
            match done {
                Ok(_) => filename@.len() > 0 && final(self)@ == remove_all(
                    old(self)@,
                    filename@,
                    tags.deep_view(),
                ),
                Err(error) => filename@.len() == 0 && error == InvalidArgument::EmptyFilename
                    && *final(self) == *old(self),
            },
            final(self)@.len() == old(self)@.len(),
            forall|i: int| 0 <= i < old(self)@.len() ==> (#[trigger] final(self)@[i]).tag == old(self)@[i].tag,
            !(exists|k: int| 0 <= k < tags.len() && has_label(old(self)@, #[trigger] tags.deep_view()[k]))
                ==> final(self)@ == old(self)@,
            unique_labels(old(self)@) ==> unique_labels(final(self)@),
    {
        if filename.is_empty() {
            return Err(InvalidArgument::EmptyFilename);
        }
        let name = filename.to_owned();
        let ghost labels = tags.deep_view();
        let mut k: usize = 0;
        while k < tags.len()
            invariant
                k <= tags.len(),
                name@ == filename@,
                labels == tags.deep_view(),
                self@ == remove_all(old(self)@, filename@, labels.take(k as int)),
            decreases tags.len() - k,
        {
            proof {
                assert(labels.take(k + 1).drop_last() =~= labels.take(k as int));
            }
            match self.find_tag(&tags[k]) {
                Some(i) => {
                    let kept = without(&self.tags[i].files, &name);
                    self.tags[i].files = kept;
                },
                None => {},
            }
            k += 1;
        }
        proof {
            assert(labels.take(tags.len() as int) =~= labels);
            lemma_remove_keeps_tags(old(self)@, filename@, labels);
            if !(exists|k: int| 0 <= k < tags.len() && has_label(old(self)@, #[trigger] labels[k])) {
                lemma_remove_from_absent(old(self)@, filename@, labels);
            }
        }
        Ok(())
    }

    /// The files that carry every one of `tags`: each such name once, in the
    /// order in which the names first occur under the first of `tags`.
    ///
    /// The search starts from the distinct names under the first tag and
    /// keeps, tag after tag, the names that stand under that tag too. It
    /// finds nothing where `tags` is empty, and nothing where one of `tags`
    /// labels no tag of the database.
    pub fn intersect_search(&self, tags: &[String]) -> (found: Vec<String>)
        ensures
            found.deep_view() == intersection(self@, tags.deep_view()),
            tags.len() == 0 ==> found.len() == 0,
            !all_present(self@, tags.deep_view()) ==> found.len() == 0,
            found.deep_view().no_duplicates(),
            forall|name: Seq<char>| #[trigger]
                found.deep_view().contains(name) <==> tags.len() > 0 && all_present(
                    self@,
                    tags.deep_view(),
                ) && carried_by_all(self@, tags.deep_view(), name),
    {
        let ghost db = self@;
        let ghost labels = tags.deep_view();
        proof {
            lemma_intersection_members(db, labels);
        }
        if tags.len() == 0 {
            return Vec::new();
        }
        let first = match self.find_tag(&tags[0]) {
            Some(i) => i,
            None => {
                proof {
                    lemma_position(db, labels[0]);
                }
                return Vec::new();
            },
        };
        let ghost base = distinct(files_of(db, labels[0]));
        let mut working = distinct_names(&self.tags[first].files);
        proof {
            lemma_position(db, labels[0]);
            files_of(db, labels[0]).lemma_remove_duplicates_properties(Seq::empty());
            assert forall|i: int| 0 <= i < base.len() implies carried_by_all(
                db,
                labels.take(1),
                #[trigger] base[i],
            ) by {
                assert(base.contains(base[i]));
            }
            lemma_filter_all(base, |name: Seq<char>| carried_by_all(db, labels.take(1), name));
        }
        let mut k: usize = 1;
        while k < tags.len()
            invariant
                1 <= k <= tags.len(),
                db == self@,
                labels == tags.deep_view(),
                base == distinct(files_of(db, labels[0])),
                all_present(db, labels.take(k as int)),
                working.deep_view() == base.filter(
                    |name: Seq<char>| carried_by_all(db, labels.take(k as int), name),
                ),
            decreases tags.len() - k,
        {
            proof {
                lemma_position(db, labels[k as int]);
            }
            match self.find_tag(&tags[k]) {
                None => {
                    return Vec::new();
                },
                Some(i) => {
                    let ghost so_far = |name: Seq<char>| carried_by_all(db, labels.take(k as int), name);
                    let ghost here = |name: Seq<char>| self.tags[i as int].files.deep_view().contains(name);
                    let ghost both = |name: Seq<char>| carried_by_all(db, labels.take(k + 1), name);
                    working = common(&working, &self.tags[i].files);
                    proof {
                        assert forall|name: Seq<char>| #[trigger] both(name) == (so_far(name) && here(name)) by {
                            if both(name) {
                                assert(labels.take(k + 1)[k as int] == labels[k as int]);
                            }
                        }
                        lemma_filter_twice(base, so_far, here, both);
                    }
                },
            }
            k += 1;
        }
        assert(labels.take(tags.len() as int) =~= labels);
        working
    }
}

} // verus!
