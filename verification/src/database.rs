//! Tags, databases of tags, and their mathematical views.

use vstd::prelude::*;

verus! {

/// A label and the names of the files that carry it, in insertion order.
#[derive(Debug, Clone, PartialEq, Eq)]
pub struct Tag {
    pub tag: String,
    pub files: Vec<String>,
}

/// An ordered list of tags: the whole content of one database.
#[derive(Debug, Clone, PartialEq, Eq)]
pub struct File {
    pub tags: Vec<Tag>,
}

/// What a [`Tag`] stands for: its label and its file names as sequences of
/// characters.
pub struct TagView {
    pub tag: Seq<char>,
    pub files: Seq<Seq<char>>,
}

impl View for Tag {
    type V = TagView;

    open spec fn view(&self) -> TagView {
        TagView { tag: self.tag@, files: self.files.deep_view() }
    }
}

impl View for File {
    type V = Seq<TagView>;

    open spec fn view(&self) -> Seq<TagView> {
        Seq::new(self.tags.len() as nat, |i: int| self.tags[i]@)
    }
}

/// Some tag of `db` is labelled `label`.
pub open spec fn has_label(db: Seq<TagView>, label: Seq<char>) -> bool {
    exists|i: int| 0 <= i < db.len() && (#[trigger] db[i]).tag == label
}

/// `label` stands at place `i` of `db`, and at no earlier place.
pub open spec fn first_at(db: Seq<TagView>, label: Seq<char>, i: int) -> bool {
    &&& 0 <= i < db.len()
    &&& db[i].tag == label
    &&& forall|j: int| 0 <= j < i ==> (#[trigger] db[j]).tag != label
}

/// The place of the first tag of `db` that is labelled `label`; `None` where
/// no tag bears that label.
pub open spec fn position(db: Seq<TagView>, label: Seq<char>) -> Option<int> {
    if has_label(db, label) {
        Some(choose|i: int| first_at(db, label, i))
    } else {
        None
    }
}

/// The file names under the first tag labelled `label`; none where no tag
/// bears that label.
pub open spec fn files_of(db: Seq<TagView>, label: Seq<char>) -> Seq<Seq<char>> {
    match position(db, label) {
        Some(i) => db[i].files,
        None => Seq::empty(),
    }
}

/// No two tags of `db` bear the same label.
pub open spec fn unique_labels(db: Seq<TagView>) -> bool {
    forall|i: int, j: int| 0 <= i < j < db.len() ==> (#[trigger] db[i]).tag != (#[trigger] db[j]).tag
}

/// Where `label` stands at place `k`, it has a first place, at or before `k`.
proof fn lemma_first_place_exists(db: Seq<TagView>, label: Seq<char>, k: int)
    requires
        0 <= k < db.len(),
        db[k].tag == label,
    ensures
        exists|i: int| 0 <= i <= k && first_at(db, label, i),
    decreases k,
{
    if exists|j: int| 0 <= j < k && (#[trigger] db[j]).tag == label {
        let j = choose|j: int| 0 <= j < k && (#[trigger] db[j]).tag == label;
        lemma_first_place_exists(db, label, j);
    } else {
        assert(first_at(db, label, k));
    }
}

/// `position` is the one place that `first_at` accepts.
pub proof fn lemma_position(db: Seq<TagView>, label: Seq<char>)
    ensures
        match position(db, label) {
            Some(i) => first_at(db, label, i),
            None => !has_label(db, label),
        },
        forall|i: int| first_at(db, label, i) ==> position(db, label) == Some(i),
{
    if has_label(db, label) {
        let k = choose|i: int| 0 <= i < db.len() && (#[trigger] db[i]).tag == label;
        lemma_first_place_exists(db, label, k);
    }
}

impl Tag {
    /// A tag labelled `tag` that no file carries yet.
    pub fn new(tag: &str) -> (t: Tag)
        ensures
            t@ == (TagView { tag: tag@, files: Seq::empty() }),
    {
        let t = Tag { tag: tag.to_owned(), files: Vec::new() };
        assert(t.files.deep_view() =~= Seq::<Seq<char>>::empty());
        t
    }
}

impl File {
    /// Looks `label` up: the index of the first tag that bears it, or `None`
    /// where no tag does.
    pub fn find_tag(&self, label: &String) -> (found: Option<usize>)
        ensures
            match found {
                Some(i) => position(self@, label@) == Some(i as int) && i < self.tags.len(),
                None => position(self@, label@) is None,
            },
    {
        proof {
            lemma_position(self@, label@);
        }
        let mut i: usize = 0;
        while i < self.tags.len()
            invariant
                i <= self.tags.len(),
                forall|j: int| 0 <= j < i ==> (#[trigger] self@[j]).tag != label@,
            decreases self.tags.len() - i,
        {
            if self.tags[i].tag == *label {
                assert(first_at(self@, label@, i as int));
                return Some(i);
            }
            i += 1;
        }
        None
    }
}

} // verus!
