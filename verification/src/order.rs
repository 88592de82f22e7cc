//! Orderings: scores from the highest down, keeping the order of equal
//! scores, and strings in lexicographic order.

use crate::text::chars_of;
use vstd::prelude::*;

verus! {

/// `order` with the position `x` put in after every position whose score is
/// at least that of `x`. `order` lists positions of `scores` from the
/// highest score down.
pub open spec fn insert_ranked(order: Seq<usize>, scores: Seq<usize>, x: usize) -> Seq<usize>
    decreases order.len(),
{
    if order.len() == 0 {
        seq![x]
    } else if scores[order.last() as int] >= scores[x as int] {
        order.push(x)
    } else {
        insert_ranked(order.drop_last(), scores, x).push(order.last())
    }
}

/// The positions of `scores` from the highest score down; positions of
/// equal scores keep their order.
pub open spec fn order_desc(scores: Seq<usize>) -> Seq<usize>
    decreases scores.len(),
{
    if scores.len() == 0 {
        Seq::empty()
    } else {
        insert_ranked(order_desc(scores.drop_last()), scores, (scores.len() - 1) as usize)
    }
}

/// Whether `order` lists each position of `scores` below `n` once, from the
/// highest score down, positions of equal scores in rising order.
pub open spec fn is_ranking(order: Seq<usize>, scores: Seq<usize>, n: int) -> bool {
    &&& order.len() == n
    &&& forall|k: int| 0 <= k < order.len() ==> (#[trigger] order[k]) < n
    &&& forall|i: usize| i < n ==> #[trigger] order.contains(i)
    &&& forall|a: int, b: int|
        0 <= a < b < order.len() ==> scores[(#[trigger] order[a]) as int] > scores[(
        #[trigger] order[b]) as int] || (scores[order[a] as int] == scores[order[b] as int]
            && order[a] < order[b])
}

proof fn lemma_insert_ranked(order: Seq<usize>, scores: Seq<usize>, x: usize, pos: int)
    requires
        0 <= pos <= order.len(),
        forall|k: int| pos <= k < order.len() ==> scores[order[k] as int] < scores[x as int],
        pos == 0 || scores[order[pos - 1] as int] >= scores[x as int],
    ensures
        insert_ranked(order, scores, x) == order.insert(pos, x),
    decreases order.len(),
{
    if order.len() == 0 {
        assert(order.insert(pos, x) =~= seq![x]);
    } else if scores[order.last() as int] >= scores[x as int] {
        assert(pos == order.len());
        assert(order.insert(pos, x) =~= order.push(x));
    } else {
        assert(pos < order.len());
        lemma_insert_ranked(order.drop_last(), scores, x, pos);
        assert(order.drop_last().insert(pos, x).push(order.last()) =~= order.insert(pos, x));
    }
}

proof fn lemma_insert_ranked_same(order: Seq<usize>, s1: Seq<usize>, s2: Seq<usize>, x: usize)
    requires
        forall|k: int| 0 <= k < order.len() ==> s1[order[k] as int] == s2[order[k] as int],
        s1[x as int] == s2[x as int],
    ensures
        insert_ranked(order, s1, x) == insert_ranked(order, s2, x),
    decreases order.len(),
{
    if order.len() > 0 {
        lemma_insert_ranked_same(order.drop_last(), s1, s2, x);
    }
}

/// `order_desc` lists every position once, highest score first, and keeps
/// the order of equal scores: it is the stable descending order.
pub proof fn lemma_order_desc(scores: Seq<usize>)
    requires
        scores.len() <= usize::MAX,
    ensures
        is_ranking(order_desc(scores), scores, scores.len() as int),
    decreases scores.len(),
{
    if scores.len() > 0 {
        let rest = scores.drop_last();
        lemma_order_desc(rest);
        let order = order_desc(rest);
        let x = (scores.len() - 1) as usize;
        assert forall|a: int, b: int| 0 <= a < b < order.len() implies scores[(
        #[trigger] order[a]) as int] >= scores[(#[trigger] order[b]) as int] by {
            assert(rest[order[a] as int] == scores[order[a] as int]);
            assert(rest[order[b] as int] == scores[order[b] as int]);
        }
        lemma_position(order, scores, x);
        let pos = position_of(order, scores, x);
        lemma_insert_ranked(order, scores, x, pos);
        let out = order.insert(pos, x);
        assert(out == order_desc(scores));
        assert forall|k: int| 0 <= k < out.len() implies (#[trigger] out[k]) < scores.len() by {
            if k < pos {
                assert(out[k] == order[k]);
            } else if k > pos {
                assert(out[k] == order[k - 1]);
            }
        }
        assert forall|i: usize| i < scores.len() implies #[trigger] out.contains(i) by {
            if i == x {
                assert(out[pos] == x);
            } else {
                assert(order.contains(i));
                let k = choose|k: int| 0 <= k < order.len() && order[k] == i;
                if k < pos {
                    assert(out[k] == order[k]);
                } else {
                    assert(out[k + 1] == order[k]);
                }
            }
        }
        assert forall|a: int, b: int| 0 <= a < b < out.len() implies scores[(
        #[trigger] out[a]) as int] > scores[(#[trigger] out[b]) as int] || (scores[out[a] as int]
            == scores[out[b] as int] && out[a] < out[b]) by {
            let ia = if a < pos {
                a
            } else {
                a - 1
            };
            let ib = if b < pos {
                b
            } else {
                b - 1
            };
            if a != pos && b != pos {
                assert(out[a] == order[ia] && out[b] == order[ib]);
                assert(order[ia] < rest.len() && order[ib] < rest.len());
                assert(rest[order[ia] as int] == scores[order[ia] as int]);
                assert(rest[order[ib] as int] == scores[order[ib] as int]);
                assert(rest[order[ia] as int] > rest[order[ib] as int] || (rest[order[ia] as int]
                    == rest[order[ib] as int] && order[ia] < order[ib]));
            } else if a == pos {
                assert(out[a] == x);
                assert(out[b] == order[ib]);
                assert(scores[order[ib] as int] < scores[x as int]);
            } else {
                assert(out[b] == x);
                assert(out[a] == order[ia]);
                assert(order[ia] < rest.len());
                lemma_sorted_before(order, rest, ia, pos - 1);
                assert(order[pos - 1] < rest.len());
                assert(rest[order[ia] as int] == scores[order[ia] as int]);
                assert(rest[order[pos - 1] as int] == scores[order[pos - 1] as int]);
            }
        }
    }
}

proof fn lemma_sorted_before(order: Seq<usize>, scores: Seq<usize>, a: int, b: int)
    requires
        is_ranking(order, scores, scores.len() as int),
        0 <= a <= b < order.len(),
    ensures
        scores[order[a] as int] >= scores[order[b] as int],
{
}

/// Where `x` goes into `order`: after the last position whose score is at
/// least that of `x`.
pub open spec fn position_of(order: Seq<usize>, scores: Seq<usize>, x: usize) -> int
    decreases order.len(),
{
    if order.len() == 0 || scores[order.last() as int] >= scores[x as int] {
        order.len() as int
    } else {
        position_of(order.drop_last(), scores, x)
    }
}

proof fn lemma_position(order: Seq<usize>, scores: Seq<usize>, x: usize)
    requires
        forall|a: int, b: int|
            0 <= a < b < order.len() ==> scores[(#[trigger] order[a]) as int] >= scores[(
            #[trigger] order[b]) as int],
    ensures
        0 <= position_of(order, scores, x) <= order.len(),
        forall|k: int|
            position_of(order, scores, x) <= k < order.len() ==> scores[order[k] as int]
                < scores[x as int],
        position_of(order, scores, x) == 0 || scores[order[position_of(order, scores, x)
            - 1] as int] >= scores[x as int],
    decreases order.len(),
{
    if order.len() > 0 && scores[order.last() as int] < scores[x as int] {
        let rest = order.drop_last();
        assert forall|a: int, b: int| 0 <= a < b < rest.len() implies scores[(
        #[trigger] rest[a]) as int] >= scores[(#[trigger] rest[b]) as int] by {
            assert(rest[a] == order[a] && rest[b] == order[b]);
        }
        lemma_position(rest, scores, x);
        let p = position_of(rest, scores, x);
        assert forall|k: int| p <= k < order.len() implies scores[order[k] as int] < scores[x as int] by {
            if k < rest.len() {
                assert(rest[k] == order[k]);
            }
        }
        if p > 0 {
            assert(rest[p - 1] == order[p - 1]);
        }
    }
}

/// The positions of `scores` from the highest score down; positions of
/// equal scores keep their order.
pub fn rank_desc(scores: &Vec<usize>) -> (order: Vec<usize>)
    ensures
        order@ == order_desc(scores@),
        is_ranking(order@, scores@, scores.len() as int),
{
    let mut order: Vec<usize> = Vec::new();
    let mut i: usize = 0;
    while i < scores.len()
        invariant
            i <= scores.len(),
            order@ == order_desc(scores@.take(i as int)),
            is_ranking(order@, scores@.take(i as int), i as int),
        decreases scores.len() - i,
    {
        let mut pos: usize = order.len();
        while pos > 0 && scores[order[pos - 1]] < scores[i]
            invariant
                i < scores.len(),
                pos <= order.len(),
                order.len() == i,
                forall|k: int| 0 <= k < order.len() ==> (#[trigger] order@[k]) < i,
                forall|k: int| pos <= k < order.len() ==> scores@[order@[k] as int] < scores@[i as int],
            decreases pos,
        {
            pos -= 1;
        }
        proof {
            let prefix = scores@.take(i as int);
            let next = scores@.take(i + 1);
            assert(next.drop_last() =~= prefix);
            assert(next.last() == scores@[i as int]);
            assert forall|k: int| 0 <= k < order.len() implies prefix[order@[k] as int]
                == next[order@[k] as int] by {}
            lemma_insert_ranked_same(order@, next, prefix.push(scores@[i as int]), i);
            assert forall|k: int| pos <= k < order.len() implies next[order@[k] as int]
                < next[i as int] by {}
            lemma_insert_ranked(order@, next, i, pos as int);
            lemma_order_desc(next);
        }
        order.insert(pos, i);
        i += 1;
    }
    assert(scores@.take(scores.len() as int) =~= scores@);
    order
}

/// Whether `a` comes before `b` or equals it in lexicographic order, each
/// character compared by its code point. This is the order of `String`.
pub open spec fn lex_le(a: Seq<char>, b: Seq<char>) -> bool
    decreases a.len(),
{
    if a.len() == 0 {
        true
    } else if b.len() == 0 {
        false
    } else if a[0] != b[0] {
        (a[0] as u32) < (b[0] as u32)
    } else {
        lex_le(a.drop_first(), b.drop_first())
    }
}

/// Whether `a` is not after `b` in lexicographic order.
pub fn str_le(a: &str, b: &str) -> (r: bool)
    ensures
        r == lex_le(a@, b@),
{
    let x = chars_of(a);
    let y = chars_of(b);
    let mut i: usize = 0;
    assert(x@.skip(0) =~= x@ && y@.skip(0) =~= y@);
    while i < x.len() && i < y.len() && x[i] == y[i]
        invariant
            i <= x.len(),
            i <= y.len(),
            lex_le(x@, y@) == lex_le(x@.skip(i as int), y@.skip(i as int)),
        decreases x.len() - i,
    {
        proof {
            assert(x@.skip(i as int).drop_first() =~= x@.skip(i + 1));
            assert(y@.skip(i as int).drop_first() =~= y@.skip(i + 1));
        }
        i += 1;
    }
    if i == x.len() {
        true
    } else if i == y.len() {
        false
    } else {
        (x[i] as u32) < (y[i] as u32)
    }
}

/// `sorted` with `x` put in before the first name that comes after it.
/// `sorted` is in lexicographic order.
pub open spec fn insert_name(sorted: Seq<Seq<char>>, x: Seq<char>) -> Seq<Seq<char>>
    decreases sorted.len(),
{
    if sorted.len() == 0 {
        seq![x]
    } else if lex_le(sorted.last(), x) {
        sorted.push(x)
    } else {
        insert_name(sorted.drop_last(), x).push(sorted.last())
    }
}

/// The names in lexicographic order.
pub open spec fn sorted_names(names: Seq<Seq<char>>) -> Seq<Seq<char>>
    decreases names.len(),
{
    if names.len() == 0 {
        Seq::empty()
    } else {
        insert_name(sorted_names(names.drop_last()), names.last())
    }
}

proof fn lemma_insert_name(sorted: Seq<Seq<char>>, x: Seq<char>, pos: int)
    requires
        0 <= pos <= sorted.len(),
        forall|k: int| pos <= k < sorted.len() ==> !lex_le(sorted[k], x),
        pos == 0 || lex_le(sorted[pos - 1], x),
    ensures
        insert_name(sorted, x) == sorted.insert(pos, x),
    decreases sorted.len(),
{
    if sorted.len() == 0 {
        assert(sorted.insert(pos, x) =~= seq![x]);
    } else if lex_le(sorted.last(), x) {
        assert(pos == sorted.len());
        assert(sorted.insert(pos, x) =~= sorted.push(x));
    } else {
        assert(pos < sorted.len());
        lemma_insert_name(sorted.drop_last(), x, pos);
        assert(sorted.drop_last().insert(pos, x).push(sorted.last()) =~= sorted.insert(pos, x));
    }
}

/// Of two names one comes before the other or equals it.
pub proof fn lemma_lex_total(a: Seq<char>, b: Seq<char>)
    ensures
        lex_le(a, b) || lex_le(b, a),
    decreases a.len(),
{
    if a.len() > 0 && b.len() > 0 {
        if a[0] == b[0] {
            lemma_lex_total(a.drop_first(), b.drop_first());
        } else {
            vstd::utf8::char_u32_cast(a[0], a[0] as u32);
            vstd::utf8::char_u32_cast(b[0], b[0] as u32);
        }
    }
}

/// A name is not after itself.
pub proof fn lemma_lex_reflexive(a: Seq<char>)
    ensures
        lex_le(a, a),
    decreases a.len(),
{
    if a.len() > 0 {
        lemma_lex_reflexive(a.drop_first());
    }
}

/// The order of names is transitive.
pub proof fn lemma_lex_transitive(a: Seq<char>, b: Seq<char>, c: Seq<char>)
    requires
        lex_le(a, b),
        lex_le(b, c),
    ensures
        lex_le(a, c),
    decreases a.len(),
{
    if a.len() > 0 && b.len() > 0 && c.len() > 0 {
        if a[0] == b[0] && b[0] == c[0] {
            lemma_lex_transitive(a.drop_first(), b.drop_first(), c.drop_first());
        }
    }
}

/// Where `x` goes into `sorted`: after the last name that is not after it.
pub open spec fn name_position(sorted: Seq<Seq<char>>, x: Seq<char>) -> int
    decreases sorted.len(),
{
    if sorted.len() == 0 || lex_le(sorted.last(), x) {
        sorted.len() as int
    } else {
        name_position(sorted.drop_last(), x)
    }
}

/// Whether each name of `names` is not after the next.
pub open spec fn is_sorted(names: Seq<Seq<char>>) -> bool {
    forall|k: int| 0 <= k < names.len() - 1 ==> lex_le(#[trigger] names[k], names[k + 1])
}

proof fn lemma_name_position(sorted: Seq<Seq<char>>, x: Seq<char>)
    ensures
        0 <= name_position(sorted, x) <= sorted.len(),
        name_position(sorted, x) < sorted.len() ==> !lex_le(sorted[name_position(sorted, x)], x),
        name_position(sorted, x) > 0 ==> lex_le(sorted[name_position(sorted, x) - 1], x),
        insert_name(sorted, x) == sorted.insert(name_position(sorted, x), x),
    decreases sorted.len(),
{
    if sorted.len() == 0 {
        assert(sorted.insert(0, x) =~= seq![x]);
    } else if lex_le(sorted.last(), x) {
        assert(sorted.insert(sorted.len() as int, x) =~= sorted.push(x));
    } else {
        let rest = sorted.drop_last();
        lemma_name_position(rest, x);
        let p = name_position(rest, x);
        if p < rest.len() {
            assert(rest[p] == sorted[p]);
        }
        if p > 0 {
            assert(rest[p - 1] == sorted[p - 1]);
        }
        assert(rest.insert(p, x).push(sorted.last()) =~= sorted.insert(p, x));
    }
}

/// Sorting keeps the names, adds none, and puts each before the names
/// that come after it; names that occur once still occur once.
pub proof fn lemma_sorted_names(names: Seq<Seq<char>>)
    ensures
        sorted_names(names).len() == names.len(),
        is_sorted(sorted_names(names)),
        forall|x: Seq<char>| #[trigger] sorted_names(names).contains(x) <==> names.contains(x),
        names.no_duplicates() ==> sorted_names(names).no_duplicates(),
    decreases names.len(),
{
    if names.len() > 0 {
        let rest = names.drop_last();
        let x = names.last();
        lemma_sorted_names(rest);
        let sorted = sorted_names(rest);
        lemma_name_position(sorted, x);
        let p = name_position(sorted, x);
        let out = sorted.insert(p, x);
        assert(out == sorted_names(names));
        assert forall|k: int| 0 <= k < out.len() - 1 implies lex_le(#[trigger] out[k], out[k + 1]) by {
            if k + 1 < p {
                assert(out[k] == sorted[k] && out[k + 1] == sorted[k + 1]);
            } else if k + 1 == p {
                assert(out[k] == sorted[k] && out[k + 1] == x);
            } else if k == p {
                assert(out[k] == x && out[k + 1] == sorted[k]);
                lemma_lex_total(sorted[k], x);
            } else {
                assert(out[k] == sorted[k - 1] && out[k + 1] == sorted[k]);
            }
        }
        assert forall|y: Seq<char>| #[trigger] out.contains(y) <==> names.contains(y) by {
            if out.contains(y) {
                let k = choose|k: int| 0 <= k < out.len() && out[k] == y;
                if k == p {
                    assert(names[names.len() - 1] == y);
                } else {
                    let j = if k < p {
                        k
                    } else {
                        k - 1
                    };
                    assert(sorted[j] == y);
                    assert(sorted.contains(y));
                    assert(rest.contains(y));
                    let i = choose|i: int| 0 <= i < rest.len() && rest[i] == y;
                    assert(names[i] == y);
                }
            }
            if names.contains(y) {
                let i = choose|i: int| 0 <= i < names.len() && names[i] == y;
                if i == names.len() - 1 {
                    assert(out[p] == y);
                } else {
                    assert(rest[i] == y);
                    assert(rest.contains(y));
                    assert(sorted.contains(y));
                    let j = choose|j: int| 0 <= j < sorted.len() && sorted[j] == y;
                    if j < p {
                        assert(out[j] == y);
                    } else {
                        assert(out[j + 1] == y);
                    }
                }
            }
        }
        if names.no_duplicates() {
            assert(rest.no_duplicates()) by {
                assert forall|i: int, j: int| 0 <= i < rest.len() && 0 <= j < rest.len() && i
                    != j implies rest[i] != rest[j] by {
                    assert(rest[i] == names[i] && rest[j] == names[j]);
                }
            }
            assert(!sorted.contains(x)) by {
                if rest.contains(x) {
                    let i = choose|i: int| 0 <= i < rest.len() && rest[i] == x;
                    assert(names[i] == names[names.len() - 1]);
                }
            }
            assert forall|i: int, j: int| 0 <= i < out.len() && 0 <= j < out.len() && i
                != j implies out[i] != out[j] by {
                let a = if i < p {
                    i
                } else {
                    i - 1
                };
                let b = if j < p {
                    j
                } else {
                    j - 1
                };
                if i == p {
                    assert(out[j] == sorted[b]);
                    assert(sorted.contains(sorted[b]));
                } else if j == p {
                    assert(out[i] == sorted[a]);
                    assert(sorted.contains(sorted[a]));
                } else {
                    assert(out[i] == sorted[a] && out[j] == sorted[b]);
                }
            }
        }
    }
}

/// The names in lexicographic order.
pub fn sort_names(names: Vec<String>) -> (r: Vec<String>)
    ensures
        r.deep_view() == sorted_names(names.deep_view()),
{
    let mut sorted: Vec<String> = Vec::new();
    let mut i: usize = 0;
    while i < names.len()
        invariant
            i <= names.len(),
            sorted.deep_view() == sorted_names(names.deep_view().take(i as int)),
        decreases names.len() - i,
    {
        let name = names[i].clone();
        let mut pos: usize = sorted.len();
        while pos > 0 && !str_le(sorted[pos - 1].as_str(), name.as_str())
            invariant
                pos <= sorted.len(),
                forall|k: int|
                    pos <= k < sorted.len() ==> !lex_le(#[trigger] sorted.deep_view()[k], name@),
            decreases pos,
        {
            pos -= 1;
        }
        proof {
            assert(names.deep_view().take(i + 1).drop_last() =~= names.deep_view().take(i as int));
            assert(names.deep_view().take(i + 1).last() == name@);
            lemma_insert_name(sorted.deep_view(), name@, pos as int);
        }
        let ghost before = sorted.deep_view();
        sorted.insert(pos, name);
        assert(sorted.deep_view() =~= before.insert(pos as int, name@));
        i += 1;
    }
    assert(names.deep_view().take(names.len() as int) =~= names.deep_view());
    sorted
}

} // verus!
