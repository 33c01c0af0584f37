//! The parser and the serializer of the text form.

use vstd::prelude::*;
use crate::database::{File, Tag, TagView};
use crate::error::{Fault, SyntaxError, SyntaxReason};
use crate::format::{decode, decode_lines, encode, first_line_len, join_lines, lines, tag_lines, to_lines};
use crate::laws::{lemma_fault_stays, lemma_first_line, lemma_join_push, lemma_tag_lines_push};
use crate::text::{chars_of, string_of};

verus! {

/// The index of the first line feed of `chars` at or behind `start`, or the
/// length of `chars` where there is none.
fn line_end(chars: &Vec<char>, start: usize) -> (end: usize)
    requires
        start <= chars.len(),
    ensures
        start <= end <= chars.len(),
        first_line_len(chars@.skip(start as int)) == end - start,
{
    let mut end: usize = start;
    while end < chars.len() && chars[end] != '\n'
        invariant
            start <= end <= chars.len(),
            forall|j: int| start <= j < end ==> chars@[j] != '\n',
        decreases chars.len() - end,
    {
        end += 1;
    }
    proof {
        lemma_first_line(chars@.skip(start as int), end - start);
    }
    end
}

impl File {
    /// Parses the text of a database.
    ///
    /// The result is the database that the lines of `text` spell out, or the
    /// first line that breaks the grammar. The empty text holds the database
    /// without tags.
    pub fn new(text: &str) -> (loaded: Result<File, SyntaxError>)
        ensures
            match loaded {
                Ok(file) => decode(text@) == Ok::<Seq<TagView>, Fault>(file@),
                Err(error) => decode(text@) == Err::<Seq<TagView>, Fault>(error@),
            },
            text@.len() == 0 ==> loaded is Ok && loaded->Ok_0@.len() == 0,
    {
        let chars = chars_of(text);
        let mut file = File { tags: Vec::new() };
        let mut start: usize = 0;
        let mut line_no: usize = 0;
        let ghost mut done: Seq<Seq<char>> = Seq::empty();
        proof {
            assert(text@.skip(0) =~= text@);
            assert(file@ =~= Seq::<TagView>::empty());
        }
        while start < chars.len()
            invariant
                chars@ == text@,
                start <= chars.len(),
                line_no == done.len() <= start,
                lines(text@) == done + lines(text@.skip(start as int)),
                decode_lines(done) == Ok::<Seq<TagView>, Fault>(file@),
            decreases chars.len() - start,
        {
            let end = line_end(&chars, start);
            let ghost line = text@.subrange(start as int, end as int);
            let ghost rest = text@.skip(start as int);
            let ghost next = if end < chars.len() {
                end + 1
            } else {
                end as int
            };
            let ghost old_db = file@;
            proof {
                if end < chars.len() {
                    assert(rest.take(end - start) =~= line);
                    assert(rest.skip(end - start + 1) =~= text@.skip(next));
                }
                assert(done + lines(rest) =~= done.push(line) + lines(text@.skip(next)));
                assert(done.push(line).drop_last() =~= done);
            }
            if end > start && chars[start] == '\t' {
                let name = string_of(&chars, start + 1, end);
                assert(name@ =~= line.skip(1));
                let count = file.tags.len();
                if count == 0 {
                    proof {
                        lemma_fault_stays(done.push(line), lines(text@.skip(next)));
                    }
                    return Err(SyntaxError { line_number: line_no + 1, reason: SyntaxReason::FileBeforeTag });
                }
                file.tags[count - 1].files.push(name);
                proof {
                    assert(file.tags[count - 1].files.deep_view() =~= old_db[count - 1].files.push(name@));
                    assert(file@ =~= old_db.update(
                        count - 1,
                        TagView { tag: old_db.last().tag, files: old_db.last().files.push(name@) },
                    ));
                }
            } else if end > start && chars[end - 1] == ':' {
                let label = string_of(&chars, start, end - 1);
                assert(label@ =~= line.drop_last());
                let tag = Tag { tag: label, files: Vec::new() };
                assert(tag.files.deep_view() =~= Seq::<Seq<char>>::empty());
                file.tags.push(tag);
                assert(file@ =~= old_db.push(TagView { tag: label@, files: Seq::empty() }));
            } else {
                proof {
                    lemma_fault_stays(done.push(line), lines(text@.skip(next)));
                }
                return Err(SyntaxError { line_number: line_no + 1, reason: SyntaxReason::MissingColon });
            }
            proof {
                done = done.push(line);
            }
            line_no += 1;
            start = if end < chars.len() {
                end + 1
            } else {
                end
            };
        }
        Ok(file)
    }

    /// The text of the database: for each tag in order, a line with its
    /// label and a colon, then one line per file of the tag, in order, with
    /// a tab before the name.
    pub fn serialize(self) -> (text: String)
        ensures
            text@ == encode(self@),
    {
        let ghost db = self@;
        let mut text = String::new();
        let mut i: usize = 0;
        proof {
            reveal_strlit(":\n");
            reveal_strlit("\t");
            reveal_strlit("\n");
        }
        while i < self.tags.len()
            invariant
                i <= self.tags.len(),
                db == self@,
                ":\n"@ == seq![':', '\n'],
                "\t"@ == seq!['\t'],
                "\n"@ == seq!['\n'],
                text@ == join_lines(to_lines(db.take(i as int))),
            decreases self.tags.len() - i,
        {
            let tag = &self.tags[i];
            let ghost done = to_lines(db.take(i as int));
            let ghost head = TagView { tag: tag@.tag, files: Seq::empty() };
            text.append(tag.tag.as_str());
            text.append(":\n");
            proof {
                lemma_join_push(done, tag@.tag.push(':'));
                assert(done + tag_lines(head) =~= done.push(tag@.tag.push(':')));
            }
            let mut j: usize = 0;
            while j < tag.files.len()
                invariant
                    j <= tag.files.len(),
                    "\t"@ == seq!['\t'],
                    "\n"@ == seq!['\n'],
                    text@ == join_lines(
                        done + tag_lines(TagView { tag: tag@.tag, files: tag@.files.take(j as int) }),
                    ),
                decreases tag.files.len() - j,
            {
                let ghost part = TagView { tag: tag@.tag, files: tag@.files.take(j as int) };
                let ghost name = tag.files[j as int]@;
                text.append("\t");
                text.append(tag.files[j].as_str());
                text.append("\n");
                proof {
                    lemma_tag_lines_push(part, name);
                    assert(tag@.files.take(j as int).push(name) =~= tag@.files.take(j + 1));
                    lemma_join_push(done + tag_lines(part), seq!['\t'] + name);
                }
                j += 1;
            }
            proof {
                assert(tag@.files.take(tag.files.len() as int) =~= tag@.files);
                assert(db.take(i + 1).drop_last() =~= db.take(i as int));
            }
            i += 1;
        }
        proof {
            assert(db.take(self.tags.len() as int) =~= db);
        }
        text
    }
}

/// The path of the database of the directory `path`: `path` followed by
/// `/.suki`.
pub fn suki_path(path: &str) -> (full: String)
    ensures
        full@ == path@ + "/.suki"@,
{
    let mut full = path.to_owned();
    full.append("/.suki");
    full
}

} // verus!
