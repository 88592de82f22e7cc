//! What the command line shows of a graph: lists of files read from
//! arguments, rows of the relation matrix, and the difference between the
//! relations of two revisions.

use crate::api::{place_of, RelatedFileContext, RelatedFileModel};
use crate::scope::{first_index, lemma_first_index};
use crate::symbol::DefRefPair;
use crate::symbol::SymbolModel;
use crate::text::{char_is_space, chars_of, is_space, string_of};
use vstd::prelude::*;
use vstd::string::*;

verus! {

/// The pieces of `s` between the separators `c`: one more than there are
/// separators, some maybe empty.
pub open spec fn pieces(s: Seq<char>, c: char) -> Seq<Seq<char>>
    decreases s.len(),
{
    let i = first_index(s, c);
    if i >= s.len() || i < 0 {
        seq![s]
    } else {
        seq![s.take(i)] + pieces(s.skip(i + 1), c)
    }
}

/// The pieces of `text` between the separators.
pub fn split_list(text: &str, separator: char) -> (r: Vec<String>)
    ensures
        r.deep_view() == pieces(text@, separator),
{
    let chars = chars_of(text);
    let mut out: Vec<String> = Vec::new();
    let mut current: Vec<char> = Vec::new();
    let mut start: usize = 0;
    let mut i: usize = 0;
    assert(chars@.skip(0) =~= chars@);
    assert(out.deep_view() + pieces(chars@, separator) =~= pieces(chars@, separator));
    while i < chars.len()
        invariant
            start <= i <= chars.len(),
            current@ == chars@.subrange(start as int, i as int),
            forall|j: int| start <= j < i ==> chars@[j] != separator,
            out.deep_view() + pieces(chars@.skip(start as int), separator) == pieces(
                chars@,
                separator,
            ),
        decreases chars.len() - i,
    {
        if chars[i] == separator {
            let ghost rest = chars@.skip(start as int);
            let ghost before = out.deep_view();
            let ghost piece = rest.take(i - start);
            proof {
                lemma_first_index(rest, separator, i - start);
                assert(piece =~= current@);
                assert(rest.skip(i - start + 1) =~= chars@.skip(i + 1));
            }
            out.push(string_of(&current));
            current = Vec::new();
            start = i + 1;
            proof {
                assert(out.deep_view() =~= before.push(piece));
                assert(before + (seq![piece] + pieces(chars@.skip(start as int), separator))
                    =~= out.deep_view() + pieces(chars@.skip(start as int), separator));
                assert(chars@.subrange(start as int, start as int) =~= Seq::<char>::empty());
            }
        } else {
            current.push(chars[i]);
            assert(chars@.subrange(start as int, i + 1) =~= chars@.subrange(
                start as int,
                i as int,
            ).push(chars@[i as int]));
        }
        i += 1;
    }
    let ghost rest = chars@.skip(start as int);
    let ghost before = out.deep_view();
    proof {
        lemma_first_index(rest, separator, rest.len() as int);
        assert(rest =~= current@);
    }
    out.push(string_of(&current));
    assert(out.deep_view() =~= before + seq![rest]);
    out
}

/// Whether a line holds nothing but white space.
pub open spec fn is_blank(line: Seq<char>) -> bool {
    forall|i: int| 0 <= i < line.len() ==> is_space(#[trigger] line[i])
}

/// A piece of a text between line feeds as a line: without the carriage
/// return before the line feed, if there is one. The last piece of a text
/// has no line feed behind it and stays as it is.
pub open spec fn line_of(piece: Seq<char>, is_last: bool) -> Seq<char> {
    if !is_last && piece.len() > 0 && piece.last() == '\r' {
        piece.drop_last()
    } else {
        piece
    }
}

/// The lines among the first `n` pieces that are not blank.
pub open spec fn filled_lines(all: Seq<Seq<char>>, n: int) -> Seq<Seq<char>>
    decreases n,
{
    if n <= 0 || n > all.len() {
        Seq::empty()
    } else {
        let line = line_of(all[n - 1], n == all.len());
        if is_blank(line) {
            filled_lines(all, n - 1)
        } else {
            filled_lines(all, n - 1).push(line)
        }
    }
}

/// The lines of a text that are not blank.
pub open spec fn listed(text: Seq<char>) -> Seq<Seq<char>> {
    filled_lines(pieces(text, '\n'), pieces(text, '\n').len() as int)
}

/// The files that a text lists, one on each line; blank lines are passed
/// over.
pub fn listed_files(text: &str) -> (r: Vec<String>)
    ensures
        r.deep_view() == listed(text@),
{
    let parts = split_list(text, '\n');
    let ghost all = parts.deep_view();
    let mut out: Vec<String> = Vec::new();
    let mut i: usize = 0;
    while i < parts.len()
        invariant
            i <= parts.len(),
            all == parts.deep_view(),
            out.deep_view() == filled_lines(all, i as int),
        decreases parts.len() - i,
    {
        let mut chars = chars_of(parts[i].as_str());
        if i + 1 < parts.len() && chars.len() > 0 && chars[chars.len() - 1] == '\r' {
            chars.pop();
        }
        assert(chars@ =~= line_of(all[i as int], i + 1 == all.len()));
        let mut blank = true;
        let mut k: usize = 0;
        while k < chars.len() && blank
            invariant
                k <= chars.len(),
                blank ==> forall|j: int| 0 <= j < k ==> is_space(#[trigger] chars@[j]),
                !blank ==> !is_blank(chars@),
            decreases chars.len() - k, blank as int,
        {
            if char_is_space(chars[k]) {
                k += 1;
            } else {
                blank = false;
            }
        }
        if !blank {
            let ghost before = out.deep_view();
            out.push(string_of(&chars));
            assert(out.deep_view() =~= before.push(chars@));
        }
        i += 1;
    }
    out
}

/// The relations with a score above zero, in their order.
pub open spec fn with_score(related: Seq<RelatedFileModel>) -> Seq<RelatedFileModel>
    decreases related.len(),
{
    if related.len() == 0 {
        Seq::empty()
    } else if related.last().score > 0 {
        with_score(related.drop_last()).push(related.last())
    } else {
        with_score(related.drop_last())
    }
}

/// The relations with a score above zero, in their order.
pub fn keep_scored(related: Vec<RelatedFileContext>) -> (r: Vec<RelatedFileContext>)
    ensures
        r.deep_view() == with_score(related.deep_view()),
{
    let mut out: Vec<RelatedFileContext> = Vec::new();
    let mut i: usize = 0;
    while i < related.len()
        invariant
            i <= related.len(),
            out.deep_view() == with_score(related.deep_view().take(i as int)),
        decreases related.len() - i,
    {
        proof {
            assert(related.deep_view().take(i + 1).drop_last() =~= related.deep_view().take(
                i as int,
            ));
            assert(related.deep_view().take(i + 1).last() == related[i as int]@);
        }
        if related[i].score > 0 {
            let ghost before = out.deep_view();
            out.push(related[i].clone());
            assert(out.deep_view() =~= before.push(related[i as int]@));
        }
        i += 1;
    }
    assert(related.deep_view().take(related.len() as int) =~= related.deep_view());
    out
}

/// The names of a list of relations.
pub open spec fn names_of(related: Seq<RelatedFileModel>) -> Seq<Seq<char>> {
    Seq::new(related.len(), |i: int| related[i].name)
}

/// The score of the relation to the file `name`, if it is related with a
/// score above zero.
pub open spec fn score_for(related: Seq<RelatedFileModel>, name: Seq<char>) -> Option<usize> {
    match place_of(names_of(related), name) {
        Some(i) => if related[i as int].score > 0 {
            Some(related[i as int].score)
        } else {
            None
        },
        None => None,
    }
}

/// A row of the relation matrix: for each of `files`, the score of the
/// relation to it, if there is one above zero.
pub fn relation_row(files: &Vec<String>, related: &Vec<RelatedFileContext>) -> (r: Vec<
    Option<usize>,
>)
    ensures
        r@.len() == files@.len(),
        forall|k: int|
            0 <= k < r@.len() ==> #[trigger] r@[k] == score_for(
                related.deep_view(),
                files.deep_view()[k],
            ),
{
    let mut names: Vec<String> = Vec::new();
    let mut i: usize = 0;
    while i < related.len()
        invariant
            i <= related.len(),
            names.len() == i,
            forall|k: int| 0 <= k < i ==> (#[trigger] names[k])@ == related[k]@.name,
        decreases related.len() - i,
    {
        names.push(related[i].name.clone());
        i += 1;
    }
    assert(names.deep_view() =~= names_of(related.deep_view()));
    let found = crate::api::places_of(&names);
    let mut row: Vec<Option<usize>> = Vec::new();
    let mut k: usize = 0;
    while k < files.len()
        invariant
            k <= files.len(),
            row@.len() == k,
            names.deep_view() == names_of(related.deep_view()),
            names.len() == related.len(),
            found.wf(),
            crate::api::places(found@, names.deep_view()),
            forall|j: int|
                0 <= j < k ==> #[trigger] row@[j] == score_for(
                    related.deep_view(),
                    files.deep_view()[j],
                ),
        decreases files.len() - k,
    {
        proof {
            crate::api::lemma_place_of(names.deep_view(), files[k as int]@);
            assert(crate::api::slot_of(found@, files[k as int]@) == place_of(
                names.deep_view(),
                files[k as int]@,
            ));
        }
        let cell = match found.get(&files[k]) {
            Some(at) => {
                assert(related.deep_view()[at as int] == related[at as int]@);
                if related[at].score > 0 {
                    Some(related[at].score)
                } else {
                    None
                }
            },
            None => None,
        };
        row.push(cell);
        k += 1;
    }
    row
}

/// The names of the definitions of a list of pairs, with a bar between
/// each two.
pub open spec fn bar_joined(pairs: Seq<(SymbolModel, SymbolModel)>) -> Seq<char>
    decreases pairs.len(),
{
    if pairs.len() == 0 {
        Seq::empty()
    } else if pairs.len() == 1 {
        pairs[0].0.name
    } else {
        bar_joined(pairs.drop_last()) + seq!['|'] + pairs.last().0.name
    }
}

/// A cell of the symbol matrix: the names of the definitions through which
/// two files are related, with a bar between each two.
pub fn symbol_cell(pairs: &Vec<DefRefPair>) -> (r: String)
    ensures
        r@ == bar_joined(pairs.deep_view()),
{
    let mut out = String::new();
    let mut i: usize = 0;
    while i < pairs.len()
        invariant
            i <= pairs.len(),
            out@ == bar_joined(pairs.deep_view().take(i as int)),
        decreases pairs.len() - i,
    {
        proof {
            assert(pairs.deep_view().take(i + 1).drop_last() =~= pairs.deep_view().take(i as int));
            assert(pairs.deep_view().take(i + 1).last() == pairs[i as int]@);
            assert(pairs.deep_view().take(1)[0] == pairs[0]@);
        }
        let ghost before = out@;
        if i > 0 {
            out.append("|");
            proof {
                reveal_strlit("|");
                assert(out@ =~= before + seq!['|']);
            }
        }
        out.append(pairs[i].src_symbol.name.as_str());
        proof {
            if i == 0 {
                assert(out@ =~= pairs[0]@.0.name);
            }
        }
        i += 1;
    }
    assert(pairs.deep_view().take(pairs.len() as int) =~= pairs.deep_view());
    out
}

/// The links of a note: each related file in double brackets on a line of
/// its own.
pub open spec fn note_links(related: Seq<RelatedFileModel>) -> Seq<char>
    decreases related.len(),
{
    if related.len() == 0 {
        Seq::empty()
    } else {
        note_links(related.drop_last()) + "[["@ + related.last().name + "]]\n"@
    }
}

/// The text of the note of a file: a link to each related file.
pub fn note_of(related: &Vec<RelatedFileContext>) -> (r: String)
    ensures
        r@ == note_links(related.deep_view()),
{
    let mut out = String::new();
    let mut i: usize = 0;
    while i < related.len()
        invariant
            i <= related.len(),
            out@ == note_links(related.deep_view().take(i as int)),
        decreases related.len() - i,
    {
        proof {
            assert(related.deep_view().take(i + 1).drop_last() =~= related.deep_view().take(
                i as int,
            ));
            assert(related.deep_view().take(i + 1).last() == related[i as int]@);
        }
        out.append("[[");
        out.append(related[i].name.as_str());
        out.append("]]\n");
        i += 1;
    }
    assert(related.deep_view().take(related.len() as int) =~= related.deep_view());
    out
}

/// How the relations of a file differ between two revisions.
pub struct RelationDiff {
    /// Related in the newer revision only.
    pub added: Vec<RelatedFileContext>,
    /// Related in the older revision only.
    pub deleted: Vec<RelatedFileContext>,
    /// Related in both, as the newer revision has it.
    pub modified: Vec<RelatedFileContext>,
}

/// The relations of `these` to files that are related in `those` too, or
/// to files that are not, in their order.
pub open spec fn selected(
    these: Seq<RelatedFileModel>,
    those: Seq<Seq<char>>,
    shared: bool,
) -> Seq<RelatedFileModel>
    decreases these.len(),
{
    if these.len() == 0 {
        Seq::empty()
    } else if those.contains(these.last().name) == shared {
        selected(these.drop_last(), those, shared).push(these.last())
    } else {
        selected(these.drop_last(), those, shared)
    }
}

fn select(these: &Vec<RelatedFileContext>, those: &Vec<String>, shared: bool) -> (r: Vec<
    RelatedFileContext,
>)
    ensures
        r.deep_view() == selected(these.deep_view(), those.deep_view(), shared),
{
    let mut out: Vec<RelatedFileContext> = Vec::new();
    let mut i: usize = 0;
    while i < these.len()
        invariant
            i <= these.len(),
            out.deep_view() == selected(these.deep_view().take(i as int), those.deep_view(), shared),
        decreases these.len() - i,
    {
        proof {
            assert(these.deep_view().take(i + 1).drop_last() =~= these.deep_view().take(i as int));
            assert(these.deep_view().take(i + 1).last() == these[i as int]@);
        }
        if crate::weight::has_name(those, &these[i].name) == shared {
            let ghost before = out.deep_view();
            out.push(these[i].clone());
            assert(out.deep_view() =~= before.push(these[i as int]@));
        }
        i += 1;
    }
    assert(these.deep_view().take(these.len() as int) =~= these.deep_view());
    out
}

fn names(related: &Vec<RelatedFileContext>) -> (r: Vec<String>)
    ensures
        r.deep_view() == names_of(related.deep_view()),
{
    let mut out: Vec<String> = Vec::new();
    let mut i: usize = 0;
    while i < related.len()
        invariant
            i <= related.len(),
            out.len() == i,
            forall|k: int| 0 <= k < i ==> (#[trigger] out[k])@ == related[k]@.name,
        decreases related.len() - i,
    {
        out.push(related[i].name.clone());
        i += 1;
    }
    assert(out.deep_view() =~= names_of(related.deep_view()));
    out
}

/// How the relations of a file differ between an older revision, `target`,
/// and a newer one, `source`.
pub fn diff_related(target: &Vec<RelatedFileContext>, source: &Vec<RelatedFileContext>) -> (r:
    RelationDiff)
    ensures
        r.added.deep_view() == selected(
            source.deep_view(),
            names_of(target.deep_view()),
            false,
        ),
        r.modified.deep_view() == selected(
            source.deep_view(),
            names_of(target.deep_view()),
            true,
        ),
        r.deleted.deep_view() == selected(
            target.deep_view(),
            names_of(source.deep_view()),
            false,
        ),
{
    let target_names = names(target);
    let source_names = names(source);
    RelationDiff {
        added: select(source, &target_names, false),
        deleted: select(target, &source_names, false),
        modified: select(source, &target_names, true),
    }
}

} // verus!
