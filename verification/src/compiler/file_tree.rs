//! The parse trees of the files of a program, by file name.

use crate::compiler::parse_tree::{is_forest, NodeView, PTree};
use vstd::prelude::*;

verus! {

/// The mathematical value of a file with its parse tree: the file's name and
/// the nodes of the tree.
pub type FileView = (Seq<char>, Seq<NodeView>);

/// One parse tree per file name. The files stand in the order in which their
/// names first came; no name stands twice.
#[derive(Debug)]
pub struct FTree {
    parse_trees: Vec<(String, PTree)>,
}

/// The place of the file called `name` among `files`, if it is there.
pub open spec fn place_of(files: Seq<FileView>, name: Seq<char>) -> Option<int> {
    if exists|i: int| 0 <= i < files.len() && (#[trigger] files[i]).0 == name {
        Some(choose|i: int| 0 <= i < files.len() && (#[trigger] files[i]).0 == name)
    } else {
        None
    }
}

/// `files` with the file called `name` set to `tree`: in the place where the
/// name stands already, or behind all others where it is new.
pub open spec fn with_file(files: Seq<FileView>, name: Seq<char>, tree: Seq<NodeView>) -> Seq<
    FileView,
> {
    match place_of(files, name) {
        Some(place) => files.update(place, (name, tree)),
        None => files.push((name, tree)),
    }
}

/// The files that the first `count` of `results` leave: each result sets the
/// tree of its file, so that of several results for one name the last one
/// stays.
pub open spec fn collected(results: Seq<FileView>, count: nat) -> Seq<FileView>
    decreases count,
{
    if 0 < count <= results.len() {
        with_file(
            collected(results, (count - 1) as nat),
            results[count - 1].0,
            results[count - 1].1,
        )
    } else {
        Seq::empty()
    }
}

/// Whether no name stands twice in `files`.
pub open spec fn distinct_names(files: Seq<FileView>) -> bool {
    forall|i: int, j: int|
        0 <= i < files.len() && 0 <= j < files.len() && (#[trigger] files[i]).0 == (
        #[trigger] files[j]).0 ==> i == j
}

/// Whether every parse tree in `files` is a forest.
pub open spec fn all_forests(files: Seq<FileView>) -> bool {
    forall|i: int| 0 <= i < files.len() ==> is_forest((#[trigger] files[i]).1)
}

/// What the first `count` results leave has distinct names, and forests for
/// trees where the results have.
pub proof fn lemma_collected(results: Seq<FileView>, count: nat)
    requires
        count <= results.len(),
    ensures
        distinct_names(collected(results, count)),
        all_forests(results) ==> all_forests(collected(results, count)),
    decreases count,
{
    if count > 0 {
        lemma_collected(results, (count - 1) as nat);
    }
}

/// The mathematical values of files with their parse trees.
pub open spec fn file_views(files: Seq<(String, PTree)>) -> Seq<FileView> {
    files.map_values(|file: (String, PTree)| (file.0@, file.1@))
}

impl View for FTree {
    type V = Seq<FileView>;

    closed spec fn view(&self) -> Seq<FileView> {
        file_views(self.parse_trees@)
    }
}

impl FTree {
    /// No name stands twice, and every parse tree is a forest.
    pub open spec fn wf(&self) -> bool {
        distinct_names(self@) && all_forests(self@)
    }

    /// Collects the parse trees of the files by name. Where a name comes
    /// more than once, its file keeps its place and the last tree stays.
    pub fn new(results: Vec<(String, PTree)>) -> (files: FTree)
        requires
            all_forests(file_views(results@)),
        ensures
            files.wf(),
            files@ == collected(file_views(results@), results@.len()),
    {
        let ghost all = file_views(results@);
        let mut parse_trees: Vec<(String, PTree)> = Vec::new();
        for boxed_result in it: results
            invariant
                it.seq() == results@,
                all == file_views(results@),
                file_views(parse_trees@) == collected(all, it.index() as nat),
        {
            let ghost files = file_views(parse_trees@);
            let (filename, result) = boxed_result;
            let mut place: usize = 0;
            while place < parse_trees.len() && !(parse_trees[place].0 == filename)
                invariant
                    place <= parse_trees@.len(),
                    files == file_views(parse_trees@),
                    forall|i: int| 0 <= i < place ==> (#[trigger] files[i]).0 != filename@,
                decreases parse_trees@.len() - place,
            {
                place = place + 1;
            }
            if place < parse_trees.len() {
                proof {
                    assert(files[place as int].0 == filename@);
                    lemma_collected(all, it.index() as nat);
                }
                parse_trees[place] = (filename, result);
            } else {
                parse_trees.push((filename, result));
            }
        }
        proof {
            lemma_collected(all, all.len());
        }
        FTree { parse_trees }
    }

    /// The number of files.
    pub fn len(&self) -> (len: usize)
        ensures
            len == self@.len(),
    {
        self.parse_trees.len()
    }

    /// The files with their parse trees, in their order.
    pub fn into_entries(self) -> (entries: Vec<(String, PTree)>)
        ensures
            file_views(entries@) == self@,
    {
        self.parse_trees
    }
}

} // verus!
