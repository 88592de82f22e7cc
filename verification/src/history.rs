//! The edit history of a repository, as the `cupido` collector hands it
//! over: which commits touched a file, which files a commit touched, and
//! which issues a file's commits mention.

use vstd::prelude::*;

verus! {

#[verifier::external_type_specification]
#[verifier::external_body]
pub struct ExRelationGraph(cupido::relation::graph::RelationGraph);

/// The commits that a history relates to each of its files.
pub uninterp spec fn history_file_commits(g: cupido::relation::graph::RelationGraph) -> Map<
    Seq<char>,
    Seq<Seq<char>>,
>;

/// The files that a history relates to each of its commits.
pub uninterp spec fn history_commit_files(g: cupido::relation::graph::RelationGraph) -> Map<
    Seq<char>,
    Seq<Seq<char>>,
>;

/// The issues that a history relates to each of its files.
pub uninterp spec fn history_file_issues(g: cupido::relation::graph::RelationGraph) -> Map<
    Seq<char>,
    Seq<Seq<char>>,
>;

/// What the library reads of a history.
pub struct HistoryModel {
    pub file_commits: Map<Seq<char>, Seq<Seq<char>>>,
    pub commit_files: Map<Seq<char>, Seq<Seq<char>>>,
    pub file_issues: Map<Seq<char>, Seq<Seq<char>>>,
}

/// The history that a relation graph of the collector holds.
pub open spec fn history_of(g: cupido::relation::graph::RelationGraph) -> HistoryModel {
    HistoryModel {
        file_commits: history_file_commits(g),
        commit_files: history_commit_files(g),
        file_issues: history_file_issues(g),
    }
}

impl HistoryModel {
    /// The commits that touched `file`; none for a file without history.
    pub open spec fn commits_of(self, file: Seq<char>) -> Seq<Seq<char>> {
        if self.file_commits.contains_key(file) {
            self.file_commits[file]
        } else {
            Seq::empty()
        }
    }

    /// The issues of `file`; none for a file without history.
    pub open spec fn issues_of(self, file: Seq<char>) -> Seq<Seq<char>> {
        if self.file_issues.contains_key(file) {
            self.file_issues[file]
        } else {
            Seq::empty()
        }
    }

    /// The number of files that `commit` touched; zero for an unknown
    /// commit.
    pub open spec fn commit_size(self, commit: Seq<char>) -> nat {
        if self.commit_files.contains_key(commit) {
            self.commit_files[commit].len()
        } else {
            0
        }
    }
}

/// `RelationGraph::new`: a history without files, commits or issues.
#[verifier::external_body]
pub(crate) fn history_new() -> (g: cupido::relation::graph::RelationGraph)
    ensures
        history_file_commits(g).dom() == Set::<Seq<char>>::empty(),
        history_commit_files(g).dom() == Set::<Seq<char>>::empty(),
        history_file_issues(g).dom() == Set::<Seq<char>>::empty(),
{
    cupido::relation::graph::RelationGraph::new()
}

/// `RelationGraph::files`: the names of the history's files, each once, in
/// no order that can be relied on.
#[verifier::external_body]
pub(crate) fn history_files(g: &cupido::relation::graph::RelationGraph) -> (r: Vec<String>)
    ensures
        forall|f: Seq<char>|
            r.deep_view().contains(f) <==> #[trigger] history_file_commits(*g).contains_key(f),
        r.deep_view().no_duplicates(),
{
    g.files()
}

/// `RelationGraph::file_related_commits`: the commits related to a file, or
/// nothing for a name that is no file of the history.
#[verifier::external_body]
pub(crate) fn history_commits_of_file(
    g: &cupido::relation::graph::RelationGraph,
    file: &String,
) -> (r: Option<Vec<String>>)
    ensures
        r is Some <==> history_file_commits(*g).contains_key(file@),
        r is Some ==> r.unwrap().deep_view() == history_file_commits(*g)[file@],
{
    g.file_related_commits(file).ok()
}

/// `RelationGraph::commit_related_files`: the files related to a commit, or
/// nothing for a name that is no commit of the history.
#[verifier::external_body]
pub(crate) fn history_files_of_commit(
    g: &cupido::relation::graph::RelationGraph,
    commit: &String,
) -> (r: Option<Vec<String>>)
    ensures
        r is Some <==> history_commit_files(*g).contains_key(commit@),
        r is Some ==> r.unwrap().deep_view() == history_commit_files(*g)[commit@],
{
    g.commit_related_files(commit).ok()
}

/// `RelationGraph::file_related_issues`: the issues related to a file, or
/// nothing for a name that is no file of the history.
#[verifier::external_body]
pub(crate) fn history_issues_of_file(
    g: &cupido::relation::graph::RelationGraph,
    file: &String,
) -> (r: Option<Vec<String>>)
    ensures
        r is Some <==> history_file_issues(*g).contains_key(file@),
        r is Some ==> r.unwrap().deep_view() == history_file_issues(*g)[file@],
{
    g.file_related_issues(file).ok()
}

} // verus!
