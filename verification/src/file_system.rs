//! What the line source and the sink compute, on values already in memory:
//! which files are admitted, which lines count, and what is written.

use vstd::prelude::*;
use vstd::string::*;
use crate::order::{place_of, Place};
use crate::select::{retain_marked, lemma_picked_is_filter};

verus! {

/// A file that was found: its path, and the extension of its name where it has
/// one that is text.
#[derive(Clone, Debug)]
pub struct SourceFile {
    pub path: String,
    pub extension: Option<String>,
}

/// The extension is one of those in the list.
pub open spec fn is_listed(extension: Option<String>, exts: Seq<&str>) -> bool {
    extension is Some && exists|k: int| 0 <= k < exts.len() && (#[trigger] exts[k])@ == extension->0@
}

/// The predicate of the filter that admits files by extension.
pub open spec fn admitted(exts: Seq<&str>) -> spec_fn(SourceFile) -> bool {
    |f: SourceFile| is_listed(f.extension, exts)
}

/// The predicate of the filter that drops empty lines.
pub open spec fn non_empty() -> spec_fn(String) -> bool {
    |l: String| l@.len() > 0
}

/// The lines of all files, file after file, without the empty ones.
pub open spec fn gathered(files: Seq<Vec<String>>) -> Seq<String>
    decreases files.len(),
{
    if files.len() == 0 {
        Seq::empty()
    } else {
        gathered(files.drop_last()) + files.last()@.filter(non_empty())
    }
}

/// Every word followed by a newline, one after the other.
pub open spec fn as_lines(words: Seq<String>) -> Seq<char>
    decreases words.len(),
{
    if words.len() == 0 {
        Seq::empty()
    } else {
        as_lines(words.drop_last()) + words.last()@ + seq!['\n']
    }
}

/// Whether the extension of a file is one of `exts`.
pub fn has_listed_extension(file: &SourceFile, exts: &Vec<&str>) -> (r: bool)
    ensures
        r == is_listed(file.extension, exts@),
{
    match &file.extension {
        None => false,
        Some(ext) => {
            let n: usize = exts.len();
            for k in 0..n
                invariant
                    n == exts@.len(),
                    file.extension == Some(*ext),
                    forall|j: int| 0 <= j < k ==> (#[trigger] exts@[j])@ != ext@,
            {
                match place_of(exts[k], ext.as_str()) {
                    Place::Same => {
                        return true;
                    },
                    _ => {},
                }
            }
            false
        },
    }
}

/// Keeps the files whose extension is one of `exts`, in their order. A file
/// without an extension goes.
pub fn filter_extensions(files: Vec<SourceFile>, exts: Vec<&str>) -> (r: Vec<SourceFile>)
    ensures
        r@ == files@.filter(admitted(exts@)),
{
    let mut marks: Vec<bool> = Vec::new();
    let n: usize = files.len();
    for i in 0..n
        invariant
            n == files@.len(),
            marks@.len() == i,
            forall|j: int| 0 <= j < i ==> marks@[j] == admitted(exts@)(#[trigger] files@[j]),
    {
        marks.push(has_listed_extension(&files[i], &exts));
    }
    proof {
        lemma_picked_is_filter(files@, marks@, admitted(exts@));
    }
    retain_marked(files, &marks)
}

/// Keeps the lines of one file that are not empty, in their order.
pub fn read_lines(lines: Vec<String>) -> (r: Vec<String>)
    ensures
        r@ == lines@.filter(non_empty()),
{
    let mut marks: Vec<bool> = Vec::new();
    let n: usize = lines.len();
    for i in 0..n
        invariant
            n == lines@.len(),
            marks@.len() == i,
            forall|j: int| 0 <= j < i ==> marks@[j] == non_empty()(#[trigger] lines@[j]),
    {
        marks.push(!lines[i].as_str().is_empty());
    }
    proof {
        lemma_picked_is_filter(lines@, marks@, non_empty());
    }
    retain_marked(lines, &marks)
}

/// Gathers the lines of all files, in the order of the files and, within a
/// file, in the order of its lines; empty lines are left out.
pub fn read_files(files: Vec<Vec<String>>) -> (r: Vec<String>)
    ensures
        r@ == gathered(files@),
{
    let ghost all = files@;
    let mut words: Vec<String> = Vec::new();
    for file in it: files
        invariant
            it.seq() == all,
            words@ == gathered(all.take(it.index())),
    {
        proof {
            assert(all.take(it.index() + 1).drop_last() =~= all.take(it.index()));
        }
        let mut lines = read_lines(file);
        words.append(&mut lines);
    }
    proof {
        assert(all.take(all.len() as int) =~= all);
    }
    words
}

/// The text that the sink writes: each word on a line of its own.
pub fn output_text(words: &Vec<String>) -> (r: String)
    ensures
        r@ == as_lines(words@),
{
    let mut text = String::new();
    let n: usize = words.len();
    for i in 0..n
        invariant
            n == words@.len(),
            text@ == as_lines(words@.take(i as int)),
    {
        proof {
            assert(words@.take(i + 1).drop_last() =~= words@.take(i as int));
        }
        text = text.concat(words[i].as_str()).concat("\n");
        proof {
            reveal_strlit("\n");
            assert("\n"@ =~= seq!['\n']);
        }
    }
    proof {
        assert(words@.take(n as int) =~= words@);
    }
    text
}

} // verus!
