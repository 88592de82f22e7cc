//! The weight of a link between two files: how often they were edited
//! together, small commits counting more than large ones.

use crate::history::{history_commits_of_file, history_files_of_commit, history_of, HistoryModel};
use crate::index::NameIndex;
use vstd::prelude::*;

verus! {

/// A fraction of non-negative integers. A zero denominator stands for a
/// ratio beyond every bound.
#[derive(Debug, Clone, Copy, PartialEq, Eq, Hash, Structural)]
pub struct Ratio {
    pub numerator: u64,
    pub denominator: u64,
}

/// Whether a commit is small enough to count: it touched strictly fewer
/// files than `ratio` times `total`.
pub open spec fn is_small(size: nat, total: usize, ratio: Ratio) -> bool {
    ratio.denominator == 0 || size * ratio.denominator < total * ratio.numerator
}

/// What a commit of the given size adds to a weight, as a multiple of
/// `1 / total`: the number of files that it did not touch.
pub open spec fn gain(size: nat, total: usize) -> nat {
    if size < total {
        (total - size) as nat
    } else {
        0
    }
}

/// The small commits among `commits`, each once, in their order.
pub open spec fn small_commits(
    h: HistoryModel,
    commits: Seq<Seq<char>>,
    total: usize,
    ratio: Ratio,
) -> Seq<Seq<char>>
    decreases commits.len(),
{
    if commits.len() == 0 {
        Seq::empty()
    } else {
        let rest = small_commits(h, commits.drop_last(), total, ratio);
        let c = commits.last();
        if !rest.contains(c) && is_small(h.commit_size(c), total, ratio) {
            rest.push(c)
        } else {
            rest
        }
    }
}

/// The gains of the commits of `mine` that are also in `theirs`, summed.
pub open spec fn common_gain(
    h: HistoryModel,
    mine: Seq<Seq<char>>,
    theirs: Seq<Seq<char>>,
    total: usize,
) -> nat
    decreases mine.len(),
{
    if mine.len() == 0 {
        0
    } else {
        common_gain(h, mine.drop_last(), theirs, total) + if theirs.contains(mine.last()) {
            gain(h.commit_size(mine.last()), total)
        } else {
            0
        }
    }
}

/// The score that a sum of gains stands for: the sum over `total`, shared
/// out among the references of the defining file, rounded down; at least
/// one where the sum is not zero, and no more than a machine number holds.
pub open spec fn score_of(sum: nat, total: usize, refs: usize) -> usize {
    if sum == 0 || total == 0 {
        0
    } else {
        let share = sum / (total * if refs > 0 {
            refs as int
        } else {
            1
        }) as nat;
        if share < 1 {
            1
        } else if share > usize::MAX {
            usize::MAX
        } else {
            share as usize
        }
    }
}

/// The score of a link from a reference in the file `from` to a definition
/// in the file `to`, which holds `refs` references.
pub open spec fn link_score(
    h: HistoryModel,
    from: Seq<char>,
    to: Seq<char>,
    total: usize,
    ratio: Ratio,
    refs: usize,
) -> usize {
    score_of(
        common_gain(
            h,
            small_commits(h, h.commits_of(from), total, ratio),
            small_commits(h, h.commits_of(to), total, ratio),
            total,
        ),
        total,
        refs,
    )
}

/// Commits of which none is shared add up to nothing.
pub proof fn lemma_no_common_commit(
    h: HistoryModel,
    mine: Seq<Seq<char>>,
    theirs: Seq<Seq<char>>,
    total: usize,
)
    requires
        forall|i: int| 0 <= i < mine.len() ==> !theirs.contains(#[trigger] mine[i]),
    ensures
        common_gain(h, mine, theirs, total) == 0,
    decreases mine.len(),
{
    if mine.len() > 0 {
        assert forall|i: int| 0 <= i < mine.drop_last().len() implies !theirs.contains(
            #[trigger] mine.drop_last()[i],
        ) by {
            assert(mine.drop_last()[i] == mine[i]);
        }
        lemma_no_common_commit(h, mine.drop_last(), theirs, total);
        assert(mine.last() == mine[mine.len() - 1]);
    }
}

/// Whether `names` holds `name`.
pub fn has_name(names: &Vec<String>, name: &String) -> (r: bool)
    ensures
        r == names.deep_view().contains(name@),
{
    let mut i: usize = 0;
    while i < names.len()
        invariant
            i <= names.len(),
            forall|k: int| 0 <= k < i ==> names.deep_view()[k] != name@,
        decreases names.len() - i,
    {
        if names[i] == *name {
            assert(names.deep_view()[i as int] == name@);
            return true;
        }
        i += 1;
    }
    false
}

/// Whether a commit that touched `size` files is small.
pub fn commit_is_small(size: usize, total: usize, ratio: Ratio) -> (r: bool)
    ensures
        r == is_small(size as nat, total, ratio),
{
    if ratio.denominator == 0 {
        return true;
    }
    assert(size * ratio.denominator <= 0xffff_ffff_ffff_ffff * 0xffff_ffff_ffff_ffff)
        by (nonlinear_arith)
        requires
            size <= 0xffff_ffff_ffff_ffff,
            ratio.denominator <= 0xffff_ffff_ffff_ffff,
    ;
    assert(total * ratio.numerator <= 0xffff_ffff_ffff_ffff * 0xffff_ffff_ffff_ffff)
        by (nonlinear_arith)
        requires
            total <= 0xffff_ffff_ffff_ffff,
            ratio.numerator <= 0xffff_ffff_ffff_ffff,
    ;
    let left: u128 = (size as u128) * (ratio.denominator as u128);
    let right: u128 = (total as u128) * (ratio.numerator as u128);
    left < right
}

/// The small commits of one file with what each adds to a weight.
pub struct FileCommits {
    commits: Vec<String>,
    gains: Vec<usize>,
    /// The commits once more, to look one up.
    found: NameIndex,
}

impl FileCommits {
    /// The commits of the record.
    pub closed spec fn names(&self) -> Seq<Seq<char>> {
        self.commits.deep_view()
    }

    /// What each commit of the record adds to a weight.
    pub closed spec fn worth(&self) -> Seq<usize> {
        self.gains@
    }

    /// There is a gain for each commit, and every commit can be looked up.
    pub closed spec fn wf(&self) -> bool {
        &&& self.gains@.len() == self.commits@.len()
        &&& self.found.wf()
        &&& forall|x: Seq<char>| #[trigger]
            self.found@.contains_key(x) <==> self.commits.deep_view().contains(x)
    }

    /// The record holds the small commits of `file`, each once, and the gain
    /// of each.
    pub open spec fn describes(
        &self,
        h: HistoryModel,
        file: Seq<char>,
        total: usize,
        ratio: Ratio,
    ) -> bool {
        &&& self.wf()
        &&& self.names() == small_commits(h, h.commits_of(file), total, ratio)
        &&& self.worth().len() == self.names().len()
        &&& forall|i: int|
            0 <= i < self.worth().len() ==> (#[trigger] self.worth()[i]) == gain(
                h.commit_size(self.names()[i]),
                total,
            )
    }

    /// A record of the given commits, each with what it adds to a weight.
    pub fn new(records: Vec<(String, usize)>) -> (r: FileCommits)
        ensures
            r.wf(),
            r.names() == Seq::new(records@.len(), |i: int| records@[i].0@),
            r.worth() == Seq::new(records@.len(), |i: int| records@[i].1),
    {
        let mut commits: Vec<String> = Vec::new();
        let mut gains: Vec<usize> = Vec::new();
        let mut k: usize = 0;
        while k < records.len()
            invariant
                k <= records.len(),
                commits.len() == k,
                gains.len() == k,
                forall|j: int| 0 <= j < k ==> (#[trigger] commits[j])@ == records[j].0@,
                forall|j: int| 0 <= j < k ==> (#[trigger] gains[j]) == records[j].1,
            decreases records.len() - k,
        {
            commits.push(records[k].0.clone());
            gains.push(records[k].1);
            k += 1;
        }
        assert(commits.deep_view() =~= Seq::new(records@.len(), |i: int| records@[i].0@));
        assert(gains@ =~= Seq::new(records@.len(), |i: int| records@[i].1));
        let mut found = NameIndex::new();
        let mut i: usize = 0;
        while i < commits.len()
            invariant
                i <= commits.len(),
                found.wf(),
                forall|x: Seq<char>| #[trigger]
                    found@.contains_key(x) <==> commits.deep_view().take(i as int).contains(x),
            decreases commits.len() - i,
        {
            let ghost before = found@;
            let ghost shorter = commits.deep_view().take(i as int);
            let ghost longer = commits.deep_view().take(i + 1);
            if !found.contains_key(&commits[i]) {
                found.insert(commits[i].clone(), i);
            }
            proof {
                assert forall|x: Seq<char>| #[trigger]
                    found@.contains_key(x) <==> longer.contains(x) by {
                    assert(before.contains_key(x) <==> shorter.contains(x));
                    if longer.contains(x) {
                        let k = choose|k: int| 0 <= k < longer.len() && longer[k] == x;
                        if k < i {
                            assert(shorter[k] == x);
                        }
                    }
                    if shorter.contains(x) {
                        let k = choose|k: int| 0 <= k < shorter.len() && shorter[k] == x;
                        assert(longer[k] == x);
                    }
                    if x == commits[i as int]@ {
                        assert(longer[i as int] == x);
                    }
                }
            }
            i += 1;
        }
        assert(commits.deep_view().take(commits.len() as int) =~= commits.deep_view());
        FileCommits { commits, gains, found }
    }

    /// The commits of the record.
    pub fn commits(&self) -> (r: &Vec<String>)
        ensures
            r.deep_view() == self.names(),
    {
        &self.commits
    }

    /// What each commit of the record adds to a weight.
    pub fn gains(&self) -> (r: &Vec<usize>)
        ensures
            r@ == self.worth(),
    {
        &self.gains
    }

    /// Whether the record holds `commit`.
    pub fn has(&self, commit: &String) -> (r: bool)
        requires
            self.wf(),
        ensures
            r == self.names().contains(commit@),
    {
        self.found.contains_key(commit)
    }
}

/// The small commits of `file` in the history `g`, each once.
pub fn small_commits_of(
    g: &cupido::relation::graph::RelationGraph,
    file: &String,
    total: usize,
    ratio: Ratio,
) -> (r: FileCommits)
    ensures
        r.describes(history_of(*g), file@, total, ratio),
{
    let ghost h = history_of(*g);
    let all = match history_commits_of_file(g, file) {
        Some(commits) => commits,
        None => Vec::new(),
    };
    assert(all.deep_view() =~= h.commits_of(file@));
    let mut commits: Vec<String> = Vec::new();
    let mut gains: Vec<usize> = Vec::new();
    let mut seen = NameIndex::new();
    let mut i: usize = 0;
    while i < all.len()
        invariant
            i <= all.len(),
            h == history_of(*g),
            seen.wf(),
            forall|x: Seq<char>| #[trigger]
                seen@.contains_key(x) <==> commits.deep_view().contains(x),
            commits.deep_view() == small_commits(h, all.deep_view().take(i as int), total, ratio),
            gains@.len() == commits@.len(),
            forall|k: int|
                0 <= k < gains@.len() ==> (#[trigger] gains@[k]) == gain(
                    h.commit_size(commits.deep_view()[k]),
                    total,
                ),
        decreases all.len() - i,
    {
        proof {
            assert(all.deep_view().take(i + 1).drop_last() =~= all.deep_view().take(i as int));
            assert(all.deep_view().take(i + 1).last() == all[i as int]@);
        }
        let commit = &all[i];
        if !seen.contains_key(commit) {
            let size = match history_files_of_commit(g, commit) {
                Some(files) => files.len(),
                None => 0,
            };
            assert(size == h.commit_size(commit@));
            if commit_is_small(size, total, ratio) {
                let ghost before = commits.deep_view();
                let ghost known = seen@;
                seen.insert(commit.clone(), commits.len());
                commits.push(commit.clone());
                gains.push(if size < total {
                    total - size
                } else {
                    0
                });
                proof {
                    assert(commits.deep_view() =~= before.push(commit@));
                    assert forall|x: Seq<char>| #[trigger]
                        seen@.contains_key(x) <==> commits.deep_view().contains(x) by {
                        assert(known.contains_key(x) <==> before.contains(x));
                        if before.contains(x) {
                            let k = choose|k: int| 0 <= k < before.len() && before[k] == x;
                            assert(commits.deep_view()[k] == x);
                        }
                        if commits.deep_view().contains(x) {
                            let k = choose|k: int|
                                0 <= k < commits.deep_view().len() && commits.deep_view()[k] == x;
                            if k < before.len() {
                                assert(before[k] == x);
                            }
                        }
                        if x == commit@ {
                            assert(commits.deep_view()[before.len() as int] == x);
                        }
                    }
                }
            }
        }
        i += 1;
    }
    assert(all.deep_view().take(all.len() as int) =~= all.deep_view());
    FileCommits { commits, gains, found: seen }
}

/// The gains of the commits of a record that are also in `theirs`, summed.
pub open spec fn record_gain(commits: Seq<Seq<char>>, gains: Seq<usize>, theirs: Seq<Seq<char>>) -> nat
    decreases commits.len(),
{
    if commits.len() == 0 || gains.len() != commits.len() {
        0
    } else {
        record_gain(commits.drop_last(), gains.drop_last(), theirs) + if theirs.contains(
            commits.last(),
        ) {
            gains.last() as nat
        } else {
            0
        }
    }
}

/// The gains of a record that describes a file sum up as the history says.
pub proof fn lemma_record_gain(
    h: HistoryModel,
    commits: Seq<Seq<char>>,
    gains: Seq<usize>,
    theirs: Seq<Seq<char>>,
    total: usize,
)
    requires
        gains.len() == commits.len(),
        forall|i: int|
            0 <= i < gains.len() ==> (#[trigger] gains[i]) == gain(h.commit_size(commits[i]), total),
    ensures
        record_gain(commits, gains, theirs) == common_gain(h, commits, theirs, total),
    decreases commits.len(),
{
    if commits.len() > 0 {
        assert forall|i: int| 0 <= i < gains.drop_last().len() implies (
        #[trigger] gains.drop_last()[i]) == gain(
            h.commit_size(commits.drop_last()[i]),
            total,
        ) by {
            assert(gains.drop_last()[i] == gains[i]);
            assert(commits.drop_last()[i] == commits[i]);
        }
        lemma_record_gain(h, commits.drop_last(), gains.drop_last(), theirs, total);
        assert(gains.last() == gains[gains.len() - 1]);
        assert(commits.last() == commits[commits.len() - 1]);
    }
}

/// The score of a link from a file with the small commits `mine` to a file
/// with the small commits `theirs` and `refs` references.
pub fn score_between(mine: &FileCommits, theirs: &FileCommits, total: usize, refs: usize) -> (r:
    usize)
    requires
        mine.wf(),
        theirs.wf(),
    ensures
        r == score_of(record_gain(mine.names(), mine.worth(), theirs.names()), total, refs),
{
    let ghost a = mine.commits.deep_view();
    let ghost b = theirs.commits.deep_view();
    let mut sum: u128 = 0;
    let mut i: usize = 0;
    while i < mine.commits.len()
        invariant
            i <= mine.commits.len(),
            mine.wf(),
            theirs.wf(),
            mine.gains@.len() == mine.commits@.len(),
            a == mine.commits.deep_view(),
            b == theirs.commits.deep_view(),
            sum <= i * usize::MAX,
            sum == record_gain(a.take(i as int), mine.gains@.take(i as int), b),
        decreases mine.commits.len() - i,
    {
        proof {
            assert(a.take(i + 1).drop_last() =~= a.take(i as int));
            assert(mine.gains@.take(i + 1).drop_last() =~= mine.gains@.take(i as int));
            assert(a.take(i + 1).last() == a[i as int]);
            assert(mine.gains@.take(i + 1).last() == mine.gains@[i as int]);
            assert(i * usize::MAX + usize::MAX == (i + 1) * usize::MAX) by (nonlinear_arith);
            assert((i + 1) * usize::MAX <= 0xffff_ffff_ffff_ffff * 0xffff_ffff_ffff_ffff)
                by (nonlinear_arith)
                requires
                    i + 1 <= 0xffff_ffff_ffff_ffff,
                    usize::MAX <= 0xffff_ffff_ffff_ffff,
            ;
        }
        if theirs.has(&mine.commits[i]) {
            sum = sum + mine.gains[i] as u128;
        }
        i += 1;
    }
    proof {
        assert(a.take(mine.commits.len() as int) =~= a);
        assert(mine.gains@.take(mine.commits.len() as int) =~= mine.gains@);
    }
    if sum == 0 || total == 0 {
        return 0;
    }
    let per: u128 = if refs > 0 {
        refs as u128
    } else {
        1
    };
    assert(total * per <= 0xffff_ffff_ffff_ffff * 0xffff_ffff_ffff_ffff) by (nonlinear_arith)
        requires
            total <= 0xffff_ffff_ffff_ffff,
            per <= 0xffff_ffff_ffff_ffff,
    ;
    let parts: u128 = (total as u128) * per;
    assert(parts >= 1) by (nonlinear_arith)
        requires
            parts == total * per,
            per >= 1,
            total >= 1,
    ;
    let share: u128 = sum / parts;
    if share < 1 {
        1
    } else if share > usize::MAX as u128 {
        usize::MAX
    } else {
        share as usize
    }
}

} // verus!
