//! Text model of the flat wire format: splitting at separator characters,
//! joining chunks, and the facts relating the two.

use vstd::prelude::*;

verus! {

/// Wire-safe text: contains neither the pair separator `&` nor the
/// key/value separator `=`, so it survives a round trip through the
/// flat format unchanged.
pub open spec fn text_wf(t: Seq<char>) -> bool {
    forall|i: int| 0 <= i < t.len() ==> t[i] != '&' && t[i] != '='
}

/// Index of the first occurrence of `sep` in `t`, or `t.len()` when `sep`
/// does not occur.
pub open spec fn first_sep(t: Seq<char>, sep: char) -> int
    decreases t.len(),
{
    if t.len() == 0 {
        0
    } else if t[0] == sep {
        0
    } else {
        1 + first_sep(t.drop_first(), sep)
    }
}

pub proof fn lemma_first_sep(t: Seq<char>, sep: char)
    ensures
        0 <= first_sep(t, sep) <= t.len(),
        forall|j: int| 0 <= j < first_sep(t, sep) ==> t[j] != sep,
        first_sep(t, sep) < t.len() ==> t[first_sep(t, sep)] == sep,
    decreases t.len(),
{
    if t.len() == 0 {
    } else if t[0] == sep {
    } else {
        lemma_first_sep(t.drop_first(), sep);
        assert forall|j: int| 0 <= j < first_sep(t, sep) implies t[j] != sep by {
            if j > 0 {
                assert(t.drop_first()[j - 1] != sep);
            }
        }
    }
}

/// `first_sep` is the unique index that has no separator before it and
/// either ends the text or holds a separator.
pub proof fn lemma_first_sep_at(t: Seq<char>, sep: char, i: int)
    requires
        0 <= i <= t.len(),
        forall|j: int| 0 <= j < i ==> t[j] != sep,
        i < t.len() ==> t[i] == sep,
    ensures
        first_sep(t, sep) == i,
    decreases t.len(),
{
    if t.len() == 0 {
    } else if t[0] == sep {
    } else {
        assert(i != 0);
        lemma_first_sep_at(t.drop_first(), sep, i - 1);
    }
}

/// The chunks of `t` between occurrences of `sep`, in order.  As with
/// `str::split`, empty text yields one empty chunk, and adjacent
/// separators yield empty chunks between them.
pub open spec fn spec_split(t: Seq<char>, sep: char) -> Seq<Seq<char>>
    decreases t.len(),
{
    let i = first_sep(t, sep);
    proof {
        lemma_first_sep(t, sep);
    }
    if i == t.len() {
        seq![t]
    } else {
        seq![t.take(i)] + spec_split(t.skip(i + 1), sep)
    }
}

pub proof fn lemma_split_not_empty(t: Seq<char>, sep: char)
    ensures
        spec_split(t, sep).len() >= 1,
{
    lemma_first_sep(t, sep);
}

/// Splitting text without the separator yields that text as the one chunk.
pub proof fn lemma_split_whole(t: Seq<char>, sep: char)
    requires
        forall|j: int| 0 <= j < t.len() ==> t[j] != sep,
    ensures
        spec_split(t, sep) == seq![t],
{
    lemma_first_sep_at(t, sep, t.len() as int);
}

/// Splitting distributes over a separator placed between two texts.
pub proof fn lemma_split_concat(a: Seq<char>, b: Seq<char>, sep: char)
    ensures
        spec_split(a + seq![sep] + b, sep) == spec_split(a, sep) + spec_split(b, sep),
    decreases a.len(),
{
    let t = a + seq![sep] + b;
    lemma_first_sep(a, sep);
    let ia = first_sep(a, sep);
    if ia == a.len() {
        // no separator inside `a`: the first separator of `t` is the one
        // between `a` and `b`
        lemma_first_sep_at(t, sep, a.len() as int);
        assert(t.take(a.len() as int) =~= a);
        assert(t.skip(a.len() as int + 1) =~= b);
        lemma_split_whole(a, sep);
        assert(spec_split(t, sep) =~= spec_split(a, sep) + spec_split(b, sep));
    } else {
        lemma_first_sep_at(t, sep, ia);
        assert(t.take(ia) =~= a.take(ia));
        assert(t.skip(ia + 1) =~= a.skip(ia + 1) + seq![sep] + b);
        lemma_split_concat(a.skip(ia + 1), b, sep);
        lemma_first_sep_at(a, sep, ia);
        assert(spec_split(a, sep) == seq![a.take(ia)] + spec_split(a.skip(ia + 1), sep));
        assert(spec_split(t, sep) =~= spec_split(a, sep) + spec_split(b, sep));
    }
}

/// The chunks joined back together with `sep` between them.
pub open spec fn spec_join(chunks: Seq<Seq<char>>, sep: char) -> Seq<char>
    decreases chunks.len(),
{
    if chunks.len() == 0 {
        seq![]
    } else if chunks.len() == 1 {
        chunks[0]
    } else {
        spec_join(chunks.drop_last(), sep) + seq![sep] + chunks.last()
    }
}

/// Splitting undoes joining, as long as no chunk contains the separator.
pub proof fn lemma_split_join(chunks: Seq<Seq<char>>, sep: char)
    requires
        chunks.len() >= 1,
        forall|i: int, j: int|
            0 <= i < chunks.len() && 0 <= j < chunks[i].len() ==> #[trigger] chunks[i][j] != sep,
    ensures
        spec_split(spec_join(chunks, sep), sep) == chunks,
    decreases chunks.len(),
{
    if chunks.len() == 1 {
        lemma_split_whole(chunks[0], sep);
        assert(spec_split(spec_join(chunks, sep), sep) =~= chunks);
    } else {
        lemma_split_join(chunks.drop_last(), sep);
        lemma_split_concat(spec_join(chunks.drop_last(), sep), chunks.last(), sep);
        assert(forall|j: int|
            0 <= j < chunks.last().len() ==> #[trigger] chunks.last()[j] != sep);
        lemma_split_whole(chunks.last(), sep);
        assert(spec_split(spec_join(chunks, sep), sep) =~= chunks.drop_last() + seq![
            chunks.last(),
        ]);
        assert(chunks.drop_last() + seq![chunks.last()] =~= chunks);
    }
}

/// The views of a sequence of strings.
pub open spec fn texts_model(s: Seq<String>) -> Seq<Seq<char>> {
    s.map_values(|x: String| x@)
}

/// Character-by-character comparison of two string slices.
pub fn str_equal(a: &str, b: &str) -> (r: bool)
    ensures
        r == (a@ == b@),
{
    let an = a.unicode_len();
    let bn = b.unicode_len();
    if an != bn {
        return false;
    }
    let mut i: usize = 0;
    while i < an
        invariant
            0 <= i <= an,
            an == a@.len(),
            bn == b@.len(),
            an == bn,
            forall|j: int| 0 <= j < i ==> a@[j] == b@[j],
        decreases an - i,
    {
        if a.get_char(i) != b.get_char(i) {
            return false;
        }
        i = i + 1;
    }
    proof {
        assert(a@ =~= b@);
    }
    true
}

} // verus!
