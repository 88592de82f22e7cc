//! Fully-qualified names: the scopes around a captured node, from the
//! outermost inwards, joined by dots with the captured name at the end.

use crate::text::{chars_of, ends_with, same_chars, string_of};
use vstd::prelude::*;

verus! {

/// What the naming rules read of one node that encloses a capture.
pub struct ScopeFacts {
    /// The node's kind.
    pub kind: String,
    /// The text of the node's first qualifying field (`receiver`, `object`,
    /// `operand`, `trait`, `namespace`, `scope`) whose value is not the
    /// capture.
    pub qualifier: Option<String>,
    /// The text of the node's primary-name child: its first field among
    /// `name`, `identifier`, `declarator`.
    pub name: Option<String>,
    /// Whether that primary-name child is the capture itself.
    pub names_capture: bool,
    /// For a node without a primary-name child, the text of its first child
    /// of an identifier kind that is not the capture.
    pub identifier: Option<String>,
}

/// The mathematical value of a [`ScopeFacts`].
pub struct ScopeModel {
    pub kind: Seq<char>,
    pub qualifier: Option<Seq<char>>,
    pub name: Option<Seq<char>>,
    pub names_capture: bool,
    pub identifier: Option<Seq<char>>,
}

/// The characters of an optional string.
pub open spec fn text_of(s: Option<String>) -> Option<Seq<char>> {
    match s {
        Some(t) => Some(t@),
        None => None,
    }
}

impl View for ScopeFacts {
    type V = ScopeModel;

    open spec fn view(&self) -> ScopeModel {
        ScopeModel {
            kind: self.kind@,
            qualifier: text_of(self.qualifier),
            name: text_of(self.name),
            names_capture: self.names_capture,
            identifier: text_of(self.identifier),
        }
    }
}

impl DeepView for ScopeFacts {
    type V = ScopeModel;

    open spec fn deep_view(&self) -> ScopeModel {
        self@
    }
}

/// Whether `word` occurs in `s` as a run of consecutive characters.
pub open spec fn contains_word(s: Seq<char>, word: Seq<char>) -> bool {
    exists|i: int| 0 <= i <= s.len() - word.len() && #[trigger] s.subrange(i, i + word.len()) == word
}

/// The words that mark a node kind as one that forms a scope.
pub open spec fn scope_words() -> Seq<Seq<char>> {
    seq![
        "class"@,
        "function"@,
        "method"@,
        "namespace"@,
        "module"@,
        "interface"@,
        "struct"@,
        "enum"@,
        "object"@,
        "trait"@,
        "impl"@,
    ]
}

/// Whether a node kind names a scope: it contains one of the scope words.
pub open spec fn is_scope_kind(kind: Seq<char>) -> bool {
    exists|k: int| 0 <= k < scope_words().len() && contains_word(kind, #[trigger] scope_words()[k])
}

/// The position of the first `c` in `s`, or the length of `s` without one.
pub open spec fn first_index(s: Seq<char>, c: char) -> int
    decreases s.len(),
{
    if s.len() == 0 {
        0
    } else if s[0] == c {
        0
    } else {
        1 + first_index(s.drop_first(), c)
    }
}

/// The position after the last `c` in `s`, or zero without one.
pub open spec fn after_last(s: Seq<char>, c: char) -> int
    decreases s.len(),
{
    if s.len() == 0 {
        0
    } else if s.last() == c {
        s.len() as int
    } else {
        after_last(s.drop_last(), c)
    }
}

/// The number of `c` at the start of `s`.
pub open spec fn leading(s: Seq<char>, c: char) -> int
    decreases s.len(),
{
    if s.len() == 0 || s[0] != c {
        0
    } else {
        1 + leading(s.drop_first(), c)
    }
}

/// The type named by a parenthesized method receiver such as `(r *T)`: what
/// stands between the parentheses, after its last space and without stars
/// before it.
pub open spec fn receiver_type(text: Seq<char>) -> Seq<char> {
    let inner = text.subrange(1, first_index(text, ')'));
    let last = inner.skip(after_last(inner, ' '));
    last.skip(leading(last, '*'))
}

/// A scope's text made into a name: a receiver in parentheses is reduced
/// to its type where the language writes receivers so; from any other text
/// a parenthesized suffix is cut off.
pub open spec fn cleaned(text: Seq<char>, receivers: bool) -> Seq<char> {
    if receivers && text.len() > 0 && text[0] == '(' {
        receiver_type(text)
    } else {
        text.take(first_index(text, '('))
    }
}

/// The name that a scope's text stands for, if any: nothing for an empty
/// name and for the pseudo-identifiers `self` and `this`.
pub open spec fn scope_name(text: Seq<char>, receivers: bool) -> Option<Seq<char>> {
    let name = cleaned(text, receivers);
    if name.len() == 0 || name == "self"@ || name == "this"@ {
        None
    } else {
        Some(name)
    }
}

/// The text by which an enclosing node names a scope, if it does: its
/// qualifying field; else, for a node of a scope kind whose primary name is
/// not the capture itself, that primary name, or without one its first
/// other identifier child.
pub open spec fn scope_text(scope: ScopeModel) -> Option<Seq<char>> {
    if scope.qualifier is Some {
        scope.qualifier
    } else if !is_scope_kind(scope.kind) || scope.names_capture {
        None
    } else if scope.name is Some {
        scope.name
    } else {
        scope.identifier
    }
}

/// The scope name that an enclosing node contributes, if any.
pub open spec fn contribution(scope: ScopeModel, receivers: bool) -> Option<Seq<char>> {
    match scope_text(scope) {
        Some(text) => scope_name(text, receivers),
        None => None,
    }
}

/// The names of the scopes around a capture, outermost first. `scopes` lists
/// the enclosing nodes from the nearest outwards.
pub open spec fn scope_path(scopes: Seq<ScopeModel>, receivers: bool) -> Seq<Seq<char>>
    decreases scopes.len(),
{
    if scopes.len() == 0 {
        Seq::empty()
    } else {
        let outer = scope_path(scopes.drop_first(), receivers);
        match contribution(scopes.first(), receivers) {
            Some(name) => outer.push(name),
            None => outer,
        }
    }
}

/// `parts` without the segments that repeat the one before them.
pub open spec fn dedup_adjacent(parts: Seq<Seq<char>>) -> Seq<Seq<char>>
    decreases parts.len(),
{
    if parts.len() == 0 {
        Seq::empty()
    } else {
        let rest = dedup_adjacent(parts.drop_last());
        if rest.len() > 0 && rest.last() == parts.last() {
            rest
        } else {
            rest.push(parts.last())
        }
    }
}

/// The segments of `parts` with a dot between each two.
pub open spec fn join_dots(parts: Seq<Seq<char>>) -> Seq<char>
    decreases parts.len(),
{
    if parts.len() == 0 {
        Seq::empty()
    } else if parts.len() == 1 {
        parts[0]
    } else {
        join_dots(parts.drop_last()) + seq!['.'] + parts.last()
    }
}

/// The fully-qualified name of a capture with the text `name`.
pub open spec fn fqn(scopes: Seq<ScopeModel>, name: Seq<char>, receivers: bool) -> Seq<char> {
    join_dots(dedup_adjacent(scope_path(scopes, receivers).push(name)))
}

/// The first `c` of a text stands where no `c` stands before.
/// Dropping repeats keeps the last part.
pub proof fn lemma_dedup_last(parts: Seq<Seq<char>>)
    requires
        parts.len() > 0,
    ensures
        dedup_adjacent(parts).len() > 0,
        dedup_adjacent(parts).last() == parts.last(),
{
}

/// Parts joined by dots end with the last part.
pub proof fn lemma_join_ends(parts: Seq<Seq<char>>)
    requires
        parts.len() > 0,
    ensures
        ends_with(join_dots(parts), parts.last()),
{
    let joined = join_dots(parts);
    let last = parts.last();
    if parts.len() == 1 {
        assert(joined.skip(0) =~= last);
    } else {
        let head = join_dots(parts.drop_last()) + seq!['.'];
        assert(joined =~= head + last);
        assert(joined.skip(joined.len() - last.len()) =~= last);
    }
}

/// A fully-qualified name ends with the name that it qualifies.
pub proof fn lemma_fqn_ends(scopes: Seq<ScopeModel>, name: Seq<char>, receivers: bool)
    ensures
        ends_with(fqn(scopes, name, receivers), name),
{
    let parts = scope_path(scopes, receivers).push(name);
    lemma_dedup_last(parts);
    lemma_join_ends(dedup_adjacent(parts));
}

pub proof fn lemma_first_index(s: Seq<char>, c: char, i: int)
    requires
        0 <= i <= s.len(),
        forall|j: int| 0 <= j < i ==> s[j] != c,
        i == s.len() || s[i] == c,
    ensures
        first_index(s, c) == i,
    decreases s.len(),
{
    if s.len() > 0 && i > 0 {
        lemma_first_index(s.drop_first(), c, i - 1);
    }
}

proof fn lemma_first_index_bounds(s: Seq<char>, c: char)
    ensures
        0 <= first_index(s, c) <= s.len(),
    decreases s.len(),
{
    if s.len() > 0 && s[0] != c {
        lemma_first_index_bounds(s.drop_first(), c);
    }
}

pub proof fn lemma_after_last(s: Seq<char>, c: char, i: int)
    requires
        0 <= i <= s.len(),
        forall|j: int| i <= j < s.len() ==> s[j] != c,
        i == 0 || s[i - 1] == c,
    ensures
        after_last(s, c) == i,
    decreases s.len(),
{
    if s.len() > 0 && i < s.len() {
        lemma_after_last(s.drop_last(), c, i);
    }
}

proof fn lemma_leading(s: Seq<char>, c: char, i: int)
    requires
        0 <= i <= s.len(),
        forall|j: int| 0 <= j < i ==> s[j] == c,
        i == s.len() || s[i] != c,
    ensures
        leading(s, c) == i,
    decreases s.len(),
{
    if s.len() > 0 && i > 0 {
        lemma_leading(s.drop_first(), c, i - 1);
    }
}

fn find_first(s: &Vec<char>, c: char) -> (i: usize)
    ensures
        i == first_index(s@, c),
        i <= s.len(),
{
    let mut i: usize = 0;
    while i < s.len() && s[i] != c
        invariant
            i <= s.len(),
            forall|j: int| 0 <= j < i ==> s@[j] != c,
        decreases s.len() - i,
    {
        i += 1;
    }
    proof {
        lemma_first_index(s@, c, i as int);
    }
    i
}

fn find_after_last(s: &Vec<char>, c: char) -> (i: usize)
    ensures
        i == after_last(s@, c),
        i <= s.len(),
{
    let mut i: usize = s.len();
    while i > 0 && s[i - 1] != c
        invariant
            i <= s.len(),
            forall|j: int| i <= j < s.len() ==> s@[j] != c,
        decreases i,
    {
        i -= 1;
    }
    proof {
        lemma_after_last(s@, c, i as int);
    }
    i
}

fn count_leading(s: &Vec<char>, c: char) -> (i: usize)
    ensures
        i == leading(s@, c),
        i <= s.len(),
{
    let mut i: usize = 0;
    while i < s.len() && s[i] == c
        invariant
            i <= s.len(),
            forall|j: int| 0 <= j < i ==> s@[j] == c,
        decreases s.len() - i,
    {
        i += 1;
    }
    proof {
        lemma_leading(s@, c, i as int);
    }
    i
}

/// The characters of `s` from `from` up to `to`.
fn slice_of(s: &Vec<char>, from: usize, to: usize) -> (r: Vec<char>)
    requires
        from <= to <= s.len(),
    ensures
        r@ == s@.subrange(from as int, to as int),
{
    let mut out: Vec<char> = Vec::new();
    let mut i: usize = from;
    while i < to
        invariant
            from <= i <= to <= s.len(),
            out@ == s@.subrange(from as int, i as int),
        decreases to - i,
    {
        out.push(s[i]);
        assert(s@.subrange(from as int, i + 1) =~= s@.subrange(from as int, i as int).push(
            s@[i as int],
        ));
        i += 1;
    }
    out
}

/// Whether `word` occurs in `s`.
pub fn has_word(s: &Vec<char>, word: &Vec<char>) -> (r: bool)
    ensures
        r == contains_word(s@, word@),
{
    if word.len() > s.len() {
        return false;
    }
    if word.len() == 0 {
        assert(s@.subrange(0, 0 + word.len()) =~= word@);
        return true;
    }
    let last = s.len() - word.len();
    let mut i: usize = 0;
    while i <= last
        invariant
            0 < word.len() <= s.len(),
            last == s.len() - word.len(),
            i <= last + 1,
            forall|k: int| 0 <= k < i ==> #[trigger] s@.subrange(k, k + word.len()) != word@,
        decreases last + 1 - i,
    {
        let mut j: usize = 0;
        let mut same = true;
        while j < word.len() && same
            invariant
                i <= last,
                last == s.len() - word.len(),
                j <= word.len(),
                same ==> forall|k: int| 0 <= k < j ==> s@[i + k] == word@[k],
                !same ==> s@.subrange(i as int, i + word.len()) != word@,
            decreases word.len() - j, same as int,
        {
            if s[i + j] != word[j] {
                same = false;
                assert(s@.subrange(i as int, i + word.len())[j as int] == s@[i + j]);
            } else {
                j += 1;
            }
        }
        if same {
            assert(s@.subrange(i as int, i + word.len()) =~= word@);
            return true;
        }
        i += 1;
    }
    false
}

/// Whether a node kind names a scope.
pub fn kind_is_scope(kind: &str) -> (r: bool)
    ensures
        r == is_scope_kind(kind@),
{
    let words: Vec<&'static str> = vec![
        "class",
        "function",
        "method",
        "namespace",
        "module",
        "interface",
        "struct",
        "enum",
        "object",
        "trait",
        "impl",
    ];
    assert(Seq::new(words@.len(), |i: int| words@[i]@) =~= scope_words());
    let chars = chars_of(kind);
    let mut k: usize = 0;
    while k < words.len()
        invariant
            k <= words.len(),
            chars@ == kind@,
            words@.len() == scope_words().len(),
            forall|i: int| 0 <= i < words@.len() ==> (#[trigger] words@[i])@ == scope_words()[i],
            forall|i: int| 0 <= i < k ==> !contains_word(kind@, #[trigger] scope_words()[i]),
        decreases words.len() - k,
    {
        let word = chars_of(words[k]);
        if has_word(&chars, &word) {
            assert(contains_word(kind@, scope_words()[k as int]));
            return true;
        }
        k += 1;
    }
    false
}

/// The name that a scope's text stands for, if any.
pub fn clean_scope_name(text: &str, receivers: bool) -> (r: Option<Vec<char>>)
    ensures
        match r {
            Some(name) => scope_name(text@, receivers) == Some(name@),
            None => scope_name(text@, receivers) is None,
        },
{
    let chars = chars_of(text);
    let name = if receivers && chars.len() > 0 && chars[0] == '(' {
        let close = find_first(&chars, ')');
        assert(close >= 1) by {
            lemma_first_index_bounds(chars@.drop_first(), ')');
        }
        let inner = slice_of(&chars, 1, close);
        let space = find_after_last(&inner, ' ');
        let last = slice_of(&inner, space, inner.len());
        assert(last@ =~= inner@.skip(space as int));
        let stars = count_leading(&last, '*');
        let bare = slice_of(&last, stars, last.len());
        assert(bare@ =~= last@.skip(stars as int));
        bare
    } else {
        let open = find_first(&chars, '(');
        let head = slice_of(&chars, 0, open);
        assert(head@ =~= chars@.take(open as int));
        head
    };
    if name.len() == 0 || same_chars(&name, &chars_of("self")) || same_chars(
        &name,
        &chars_of("this"),
    ) {
        None
    } else {
        Some(name)
    }
}

/// The scope name that an enclosing node contributes, if any.
pub fn scope_contribution(scope: &ScopeFacts, receivers: bool) -> (r: Option<Vec<char>>)
    ensures
        match r {
            Some(name) => contribution(scope@, receivers) == Some(name@),
            None => contribution(scope@, receivers) is None,
        },
{
    if let Some(text) = &scope.qualifier {
        return clean_scope_name(text.as_str(), receivers);
    }
    if scope.names_capture || !kind_is_scope(scope.kind.as_str()) {
        return None;
    }
    if let Some(text) = &scope.name {
        return clean_scope_name(text.as_str(), receivers);
    }
    match &scope.identifier {
        Some(text) => clean_scope_name(text.as_str(), receivers),
        None => None,
    }
}

/// The views of a list of character vectors.
pub open spec fn segments(parts: Seq<Vec<char>>) -> Seq<Seq<char>> {
    Seq::new(parts.len(), |i: int| parts[i]@)
}

/// The fully-qualified name of a capture: the names of the scopes around
/// it, outermost first, then its own name, without adjacent repeats, joined
/// by dots.
pub fn qualified_name(scopes: &Vec<ScopeFacts>, name: &str, receivers: bool) -> (r: String)
    ensures
        r@ == fqn(scopes.deep_view(), name@, receivers),
{
    // the path, outermost scope first and without adjacent repeats
    let mut parts: Vec<Vec<char>> = Vec::new();
    let ghost mut path: Seq<Seq<char>> = Seq::empty();
    let mut i: usize = scopes.len();
    while i > 0
        invariant
            i <= scopes.len(),
            path == scope_path(scopes.deep_view().skip(i as int), receivers),
            segments(parts@) == dedup_adjacent(path),
        decreases i,
    {
        i -= 1;
        proof {
            assert(scopes.deep_view().skip(i as int).drop_first() =~= scopes.deep_view().skip(
                i + 1,
            ));
            assert(scopes.deep_view().skip(i as int).first() == scopes[i as int]@);
        }
        if let Some(segment) = scope_contribution(&scopes[i], receivers) {
            proof {
                assert(path.push(segment@).drop_last() =~= path);
                path = path.push(segment@);
            }
            push_unless_repeated(&mut parts, segment);
        }
    }
    proof {
        assert(scopes.deep_view().skip(0) =~= scopes.deep_view());
        assert(path.push(name@).drop_last() =~= path);
    }
    push_unless_repeated(&mut parts, chars_of(name));
    string_of(&join_parts(&parts))
}

fn push_unless_repeated(parts: &mut Vec<Vec<char>>, segment: Vec<char>)
    ensures
        segments(final(parts)@) == (if segments(old(parts)@).len() > 0 && segments(
            old(parts)@,
        ).last() == segment@ {
            segments(old(parts)@)
        } else {
            segments(old(parts)@).push(segment@)
        }),
{
    let n = parts.len();
    if n > 0 && same_chars(&parts[n - 1], &segment) {
        return ;
    }
    parts.push(segment);
    assert(segments(parts@) =~= segments(old(parts)@).push(segment@));
}

fn join_parts(parts: &Vec<Vec<char>>) -> (r: Vec<char>)
    ensures
        r@ == join_dots(segments(parts@)),
{
    let mut out: Vec<char> = Vec::new();
    let mut i: usize = 0;
    while i < parts.len()
        invariant
            i <= parts.len(),
            out@ == join_dots(segments(parts@).take(i as int)),
        decreases parts.len() - i,
    {
        proof {
            assert(segments(parts@).take(i + 1).drop_last() =~= segments(parts@).take(i as int));
            assert(segments(parts@).take(i + 1).last() == parts@[i as int]@);
        }
        if i > 0 {
            out.push('.');
        }
        let ghost before = out@;
        let part = &parts[i];
        let mut j: usize = 0;
        while j < part.len()
            invariant
                j <= part.len(),
                out@ == before + part@.take(j as int),
            decreases part.len() - j,
        {
            out.push(part[j]);
            assert(part@.take(j + 1) =~= part@.take(j as int).push(part@[j as int]));
            j += 1;
        }
        proof {
            assert(part@.take(part.len() as int) =~= part@);
            if i == 0 {
                assert(before + part@ =~= part@);
                assert(segments(parts@).take(1)[0] == part@);
            } else {
                assert(before =~= join_dots(segments(parts@).take(i as int)) + seq!['.']);
            }
        }
        i += 1;
    }
    assert(segments(parts@).take(parts.len() as int) =~= segments(parts@));
    out
}

} // verus!
