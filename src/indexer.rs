use vstd::prelude::*;

use crate::chars::{to_upper, upper_of};
use crate::document::{bump, Document};
use crate::lexer::{tokens_of, Lexer};
use crate::chars::copy_chars;
use crate::trie::Triee;
use vstd::slice::slice_subrange;

verus! {

/// A file to index: its path and its whole content.
pub struct SourceFile {
    pub path: Vec<char>,
    pub content: Vec<char>,
}

/// A directory and the files to index directly under it.
pub struct Folder {
    pub path: Vec<char>,
    pub files: Vec<SourceFile>,
}

/// Documents keyed by path, in the order they were built.
pub type Index = Vec<(Vec<char>, Document)>;

/// The table after counting the uppercase form of each token.
pub open spec fn tally(m: Map<Seq<char>, nat>, ts: Seq<Seq<char>>) -> Map<Seq<char>, nat>
    decreases ts.len(),
{
    if ts.len() == 0 {
        m
    } else {
        bump(tally(m, ts.drop_last()), upper_of(ts.last()))
    }
}

/// The trie entries that the tokens `ts` of the file at `path` give: each
/// non-empty uppercase form, paired with the file's path.
pub open spec fn word_entries(ts: Seq<Seq<char>>, path: Seq<char>) -> Set<(Seq<char>, Seq<char>)> {
    Set::new(
        |e: (Seq<char>, Seq<char>)|
            exists|i: int|
                0 <= i < ts.len() && e.0 == upper_of(#[trigger] ts[i]) && e.0.len() > 0 && e.1
                    == path,
    )
}

/// The term table of one file on its own.
pub open spec fn file_table(f: SourceFile) -> Map<Seq<char>, nat> {
    tally(Map::empty(), tokens_of(f.content@))
}

/// The term table of several files counted together, starting from `m`.
pub open spec fn files_table(m: Map<Seq<char>, nat>, files: Seq<SourceFile>) -> Map<
    Seq<char>,
    nat,
>
    decreases files.len(),
{
    if files.len() == 0 {
        m
    } else {
        tally(files_table(m, files.drop_last()), tokens_of(files.last().content@))
    }
}

/// The trie entries of several files.
pub open spec fn files_entries(files: Seq<SourceFile>) -> Set<(Seq<char>, Seq<char>)>
    decreases files.len(),
{
    if files.len() == 0 {
        Set::empty()
    } else {
        files_entries(files.drop_last()).union(
            word_entries(tokens_of(files.last().content@), files.last().path@),
        )
    }
}

/// The trie entries of several folders.
pub open spec fn folders_entries(folders: Seq<Folder>) -> Set<(Seq<char>, Seq<char>)>
    decreases folders.len(),
{
    if folders.len() == 0 {
        Set::empty()
    } else {
        folders_entries(folders.drop_last()).union(files_entries(folders.last().files@))
    }
}

/// The characters in several files together.
pub open spec fn chars_in(files: Seq<SourceFile>) -> nat
    decreases files.len(),
{
    if files.len() == 0 {
        0
    } else {
        chars_in(files.drop_last()) + files.last().content@.len()
    }
}

/// The documents that one folder gives: one for the folder in join mode, else
/// one per file.
pub open spec fn folder_docs(path: Seq<char>, files: Seq<SourceFile>, join_files: bool) -> Seq<
    (Seq<char>, Map<Seq<char>, nat>),
> {
    if join_files {
        seq![(path, files_table(Map::empty(), files))]
    } else {
        files.map_values(|s: SourceFile| (s.path@, file_table(s)))
    }
}

/// The documents that several folders give, folder by folder.
pub open spec fn index_docs(folders: Seq<Folder>, join_files: bool) -> Seq<(Seq<char>, Map<Seq<char>, nat>)>
    decreases folders.len(),
{
    if folders.len() == 0 {
        seq![]
    } else {
        index_docs(folders.drop_last(), join_files) + folder_docs(
            folders.last().path@,
            folders.last().files@,
            join_files,
        )
    }
}

/// An index as paths and term tables.
pub open spec fn index_view(ix: Seq<(Vec<char>, Document)>) -> Seq<(Seq<char>, Map<Seq<char>, nat>)> {
    ix.map_values(|e: (Vec<char>, Document)| (e.0@, e.1@))
}

pub open spec fn all_wf(ix: Seq<(Vec<char>, Document)>) -> bool {
    forall|i: int| 0 <= i < ix.len() ==> (#[trigger] ix[i]).1.wf()
}

/// Tokenizes `content`, counts the uppercase form of each token in `doc`, and
/// inserts it into `triee` with `path`.
pub fn index_single_file(triee: &mut Triee, doc: &mut Document, content: &[char], path: &Vec<char>)
    requires
        old(triee).wf(),
        old(doc).wf(),
        old(doc).total() + content@.len() <= usize::MAX,
    ensures
        final(triee).wf(),
        final(doc).wf(),
        final(doc).total() <= old(doc).total() + content@.len(),
        final(doc)@ == tally(old(doc)@, tokens_of(content@)),
        final(triee)@ == old(triee)@.union(word_entries(tokens_of(content@), path@)),
{
    let mut lex = Lexer::new(content);
    let ghost mut done: Seq<Seq<char>> = seq![];
    let ghost doc0 = doc@;
    let ghost trie0 = triee@;
    proof {
        assert(word_entries(done, path@) =~= Set::empty());
        assert(trie0.union(Set::empty()) =~= trie0);
    }
    loop
        invariant
            triee.wf(),
            doc.wf(),
            doc.total() + lex@.len() <= old(doc).total() + content@.len(),
            old(doc).total() + content@.len() <= usize::MAX,
            tokens_of(content@) == done + tokens_of(lex@),
            doc@ == tally(doc0, done),
            triee@ == trie0.union(word_entries(done, path@)),
            doc0 == old(doc)@,
            trie0 == old(triee)@,
        ensures
            tokens_of(content@) == done,
            doc@ == tally(doc0, done),
            triee@ == trie0.union(word_entries(done, path@)),
            doc.total() <= old(doc).total() + content@.len(),
        decreases lex@.len(),
    {
        let ghost before = lex@;
        proof {
            crate::lexer::lemma_lex_step(before);
        }
        match lex.next_token() {
            None => {
                proof {
                    assert(tokens_of(before) =~= seq![]);
                    assert(done + tokens_of(before) =~= done);
                }
                break;
            },
            Some(tok) => {
                let up = to_upper(tok);
                let ghost t = tok@;
                triee.insert_word(up.as_slice(), copy_chars(path.as_slice()));
                doc.add_term(up);
                proof {
                    let done2 = done.push(t);
                    assert(tokens_of(before) == seq![t] + tokens_of(lex@));
                    assert(done2 + tokens_of(lex@) =~= done + (seq![t] + tokens_of(lex@)));
                    assert(done2.drop_last() =~= done);
                    let we = word_entries(done, path@);
                    let we2 = word_entries(done2, path@);
                    assert forall|e: (Seq<char>, Seq<char>)| #[trigger] we2.contains(e) == (we.contains(e) || (upper_of(t).len() > 0 && e == (upper_of(t), path@))) by {
                        if we2.contains(e) {
                            let i = choose|i: int| 0 <= i < done2.len() && e.0 == upper_of(#[trigger] done2[i]) && e.0.len() > 0 && e.1 == path@;
                            if i < done.len() {
                                assert(done2[i] == done[i]);
                            }
                        }
                        if we.contains(e) {
                            let i = choose|i: int| 0 <= i < done.len() && e.0 == upper_of(#[trigger] done[i]) && e.0.len() > 0 && e.1 == path@;
                            assert(done2[i] == done[i]);
                        }
                        if upper_of(t).len() > 0 && e == (upper_of(t), path@) {
                            assert(done2[done.len() as int] == t);
                        }
                    }
                    if upper_of(t).len() > 0 {
                        assert(triee@ =~= trie0.union(we2));
                    } else {
                        assert(we2 =~= we);
                    }
                    done = done2;
                }
            },
        }
    }
    proof {
        assert(done == tokens_of(content@));
    }
}

proof fn lemma_chars_in_take(files: Seq<SourceFile>, i: int)
    requires
        0 <= i <= files.len(),
    ensures
        chars_in(files.take(i)) <= chars_in(files),
    decreases files.len() - i,
{
    if i < files.len() {
        lemma_chars_in_take(files, i + 1);
        assert(files.take(i + 1).drop_last() =~= files.take(i));
    } else {
        assert(files.take(i) =~= files);
    }
}

/// Indexes the files of one folder: in join mode into one document keyed by
/// `path`, else into one document per file.
pub fn index_files(triee: &mut Triee, files: &Vec<SourceFile>, path: &Vec<char>, join_files: bool) -> (r: Index)
    requires
        old(triee).wf(),
        join_files ==> chars_in(files@) <= usize::MAX,
    ensures
        final(triee).wf(),
        final(triee)@ == old(triee)@.union(files_entries(files@)),
        all_wf(r@),
        index_view(r@) == folder_docs(path@, files@, join_files),
{
    let ghost trie0 = triee@;
    let mut res: Index = Vec::new();
    let mut collector = Document::new();
    let mut i: usize = 0;
    proof {
        assert(files@.take(0) =~= seq![]);
        assert(trie0.union(Set::empty()) =~= trie0);
    }
    while i < files.len()
        invariant
            triee.wf(),
            collector.wf(),
            i <= files@.len(),
            join_files ==> chars_in(files@) <= usize::MAX,
            triee@ == trie0.union(files_entries(files@.take(i as int))),
            join_files ==> collector@ == files_table(Map::empty(), files@.take(i as int)),
            join_files ==> collector.total() <= chars_in(files@.take(i as int)),
            !join_files ==> collector.total() == 0 && collector@ == Map::<Seq<char>, nat>::empty(),
            all_wf(res@),
            join_files ==> res@.len() == 0,
            !join_files ==> index_view(res@) == folder_docs(path@, files@.take(i as int), false),
            trie0 == old(triee)@,
        decreases files@.len() - i,
    {
        let file = &files[i];
        let ghost tk = files@.take(i as int);
        let ghost tk2 = files@.take(i + 1);
        proof {
            assert(tk2.drop_last() =~= tk);
            assert(tk2.last() == files@[i as int]);
            if join_files {
                lemma_chars_in_take(files@, i + 1);
            }
        }
        if join_files {
            index_single_file(triee, &mut collector, file.content.as_slice(), &file.path);
        } else {
            let mut doc = Document::new();
            let _n = file.content.len();
            index_single_file(triee, &mut doc, file.content.as_slice(), &file.path);
            let ghost before = res@;
            let ghost dv = doc@;
            res.push((copy_chars(file.path.as_slice()), doc));
            proof {
                assert(dv == file_table(files@[i as int]));
                assert(index_view(res@)[i as int] == (files@[i as int].path@, dv));
                assert(index_view(res@).drop_last() =~= index_view(before));
                let fd = folder_docs(path@, tk2, false);
                assert(fd.len() == i + 1);
                assert forall|j: int| 0 <= j < i + 1 implies #[trigger] index_view(res@)[j] == fd[j] by {
                    if j < i {
                        assert(index_view(res@)[j] == index_view(before)[j]);
                        assert(folder_docs(path@, tk, false)[j] == fd[j]);
                    }
                }
                assert(index_view(res@) =~= fd);
            }
        }
        proof {
            assert(triee@ =~= trie0.union(files_entries(tk2)));
        }
        i += 1;
    }
    proof {
        assert(files@.take(i as int) =~= files@);
    }
    if join_files {
        res.push((copy_chars(path.as_slice()), collector));
        proof {
            assert(index_view(res@) =~= folder_docs(path@, files@, true));
        }
    }
    res
}

/// Indexes every folder in turn, sharing one trie; documents come folder by
/// folder.
pub fn index(folders: &Vec<Folder>, join_files: bool) -> (r: (Index, Triee))
    requires
        join_files ==> forall|i: int| 0 <= i < folders@.len() ==> chars_in(#[trigger] folders@[i].files@) <= usize::MAX,
    ensures
        r.1.wf(),
        r.1@ == folders_entries(folders@),
        all_wf(r.0@),
        index_view(r.0@) == index_docs(folders@, join_files),
{
    let mut triee = Triee::new();
    let mut res: Index = Vec::new();
    let mut i: usize = 0;
    proof {
        assert(folders@.take(0) =~= seq![]);
        assert(Set::<(Seq<char>, Seq<char>)>::empty() =~= folders_entries(seq![]));
    }
    while i < folders.len()
        invariant
            triee.wf(),
            i <= folders@.len(),
            join_files ==> forall|j: int| 0 <= j < folders@.len() ==> chars_in(#[trigger] folders@[j].files@) <= usize::MAX,
            triee@ == folders_entries(folders@.take(i as int)),
            all_wf(res@),
            index_view(res@) == index_docs(folders@.take(i as int), join_files),
        decreases folders@.len() - i,
    {
        let folder = &folders[i];
        let ghost tk = folders@.take(i as int);
        let ghost tk2 = folders@.take(i + 1);
        proof {
            assert(tk2.drop_last() =~= tk);
            assert(tk2.last() == folders@[i as int]);
        }
        let mut part = index_files(&mut triee, &folder.files, &folder.path, join_files);
        let ghost before = res@;
        let ghost added = part@;
        res.append(&mut part);
        proof {
            assert(res@ == before + added);
            assert(index_view(res@) =~= index_view(before) + index_view(added));
            assert forall|j: int| 0 <= j < res@.len() implies (#[trigger] res@[j]).1.wf() by {
                if j >= before.len() {
                    assert(res@[j] == added[j - before.len()]);
                } else {
                    assert(res@[j] == before[j]);
                }
            }
        }
        i += 1;
    }
    proof {
        assert(folders@.take(i as int) =~= folders@);
    }
    (res, triee)
}

/// The position of the last `.` in `name`, or `-1`.
pub open spec fn last_dot(name: Seq<char>) -> int
    decreases name.len(),
{
    if name.len() == 0 {
        -1
    } else if name.last() == '.' {
        name.len() - 1
    } else {
        last_dot(name.drop_last())
    }
}

/// The extension of a file name: what follows its last `.`, where that dot
/// is not the name's first character.
pub open spec fn extension_of(name: Seq<char>) -> Option<Seq<char>> {
    if last_dot(name) <= 0 {
        None
    } else {
        Some(name.skip(last_dot(name) + 1))
    }
}

proof fn lemma_last_dot_exact(name: Seq<char>, p: int)
    requires
        -1 <= p < name.len(),
        p >= 0 ==> name[p] == '.',
        forall|k: int| p < k < name.len() ==> #[trigger] name[k] != '.',
    ensures
        last_dot(name) == p,
    decreases name.len(),
{
    if name.len() > 0 && p < name.len() - 1 {
        assert(name.last() == name[name.len() - 1]);
        assert forall|k: int| p < k < name.len() - 1 implies #[trigger] name.drop_last()[k] != '.' by {
            assert(name.drop_last()[k] == name[k]);
        }
        lemma_last_dot_exact(name.drop_last(), p);
    }
}

/// Whether the file `file_name` has exactly the extension `ext`; only such
/// files are indexed.
pub fn has_extension(file_name: &Vec<char>, ext: &Vec<char>) -> (r: bool)
    ensures
        r == (extension_of(file_name@) == Some(ext@)),
{
    let mut p: usize = file_name.len();
    while p > 0 && file_name[p - 1] != '.'
        invariant
            p <= file_name@.len(),
            forall|k: int| p <= k < file_name@.len() ==> #[trigger] file_name@[k] != '.',
        decreases p,
    {
        p -= 1;
    }
    proof {
        lemma_last_dot_exact(file_name@, p - 1);
    }
    if p <= 1 {
        return false;
    }
    let tail = copy_chars(slice_subrange(file_name.as_slice(), p, file_name.len()));
    proof {
        assert(tail@ =~= file_name@.skip(p as int));
    }
    crate::chars::same_chars(&tail, ext)
}

} // verus!
