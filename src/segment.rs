//! Text primitives the buffer is built on: grapheme clusters, line splitting
//! and joining, and the character classes used by word selection.
use unicode_segmentation::UnicodeSegmentation;
use vstd::prelude::*;

verus! {

broadcast use {Seq::lemma_flatten_push, Seq::lemma_flatten_singleton};

/// The extended grapheme clusters of a string, in order, as Unicode segments them.
pub uninterp spec fn graphemes_of(s: Seq<char>) -> Seq<Seq<char>>;

/// Whether a character has the Unicode White_Space property.
pub uninterp spec fn white_space(c: char) -> bool;

/// Number of grapheme clusters of a row.
pub open spec fn glyph_count(s: Seq<char>) -> nat {
    graphemes_of(s).len()
}

/// The characters of the first `n` grapheme clusters of `s`.
pub open spec fn take_glyphs(s: Seq<char>, n: int) -> Seq<char> {
    graphemes_of(s).take(n).flatten()
}

/// The characters of `s` after its first `n` grapheme clusters.
pub open spec fn drop_glyphs(s: Seq<char>, n: int) -> Seq<char> {
    graphemes_of(s).skip(n).flatten()
}

/// The characters of the clusters `[a, b)` of `s`.
pub open spec fn glyph_slice(s: Seq<char>, a: int, b: int) -> Seq<char> {
    graphemes_of(s).subrange(a, b).flatten()
}

/// Relies on `UnicodeSegmentation::graphemes(s, true)`: it yields the extended
/// grapheme clusters of `s` as consecutive non-empty slices that together make up `s`.
#[verifier::external_body]
pub(crate) fn graphemes(s: &str) -> (r: Vec<String>)
    ensures
        r@.map_values(|g: String| g@) == graphemes_of(s@),
        r@.map_values(|g: String| g@).flatten() == s@,
        forall|i: int| 0 <= i < r@.len() ==> #[trigger] r@[i]@.len() > 0,
{
    s.graphemes(true).map(|g| g.to_string()).collect()
}

/// A string whose clusters are known: they are non-empty and make up the string.
pub open spec fn segmented(s: Seq<char>) -> bool {
    &&& graphemes_of(s).flatten() == s
    &&& forall|i: int| 0 <= i < graphemes_of(s).len() ==> #[trigger] graphemes_of(s)[i].len() > 0
}

/// A string without a line break.
pub open spec fn no_break(s: Seq<char>) -> bool {
    forall|i: int| 0 <= i < s.len() ==> s[i] != '\n'
}

/// The clusters of a string, with what is known of them. Edits call it on
/// each row they build, so that the buffer knows that row's clusters.
pub fn clusters(s: &String) -> (r: Vec<String>)
    ensures
        r@.map_values(|g: String| g@) == graphemes_of(s@),
        segmented(s@),
{
    let r = graphemes(s.as_str());
    proof {
        assert forall|i: int| 0 <= i < graphemes_of(s@).len() implies #[trigger] graphemes_of(
            s@,
        )[i].len() > 0 by {
            assert(r@[i]@ == graphemes_of(s@)[i]);
        }
    }
    r
}

/// A flattened sequence of non-empty parts is at least as long as the number of parts.
pub proof fn lemma_flatten_len(gs: Seq<Seq<char>>)
    requires
        forall|i: int| 0 <= i < gs.len() ==> #[trigger] gs[i].len() > 0,
    ensures
        gs.flatten().len() >= gs.len(),
    decreases gs.len(),
{
    if gs.len() > 0 {
        let rest = gs.drop_first();
        assert forall|i: int| 0 <= i < rest.len() implies #[trigger] rest[i].len() > 0 by {
            assert(rest[i] == gs[i + 1]);
        }
        lemma_flatten_len(rest);
    }
}

/// A row has no more clusters than characters.
pub proof fn lemma_glyph_count_le(s: Seq<char>)
    requires
        segmented(s),
    ensures
        glyph_count(s) <= s.len(),
{
    lemma_flatten_len(graphemes_of(s));
}

/// Splitting a row after `n` clusters gives a prefix and a suffix that make it up again.
pub proof fn lemma_take_drop(s: Seq<char>, n: int)
    requires
        segmented(s),
        0 <= n <= glyph_count(s),
    ensures
        take_glyphs(s, n) + drop_glyphs(s, n) == s,
        take_glyphs(s, 0) == Seq::<char>::empty(),
        drop_glyphs(s, 0) == s,
        take_glyphs(s, glyph_count(s) as int) == s,
        drop_glyphs(s, glyph_count(s) as int) == Seq::<char>::empty(),
{
    let gs = graphemes_of(s);
    vstd::seq_lib::lemma_flatten_concat(gs.take(n), gs.skip(n));
    assert(gs.take(n) + gs.skip(n) =~= gs);
    assert(gs.take(0) =~= Seq::<Seq<char>>::empty());
    assert(gs.skip(0) =~= gs);
    assert(gs.take(gs.len() as int) =~= gs);
    assert(gs.skip(gs.len() as int) =~= Seq::<Seq<char>>::empty());
}

/// Parts of a row without a line break have none either.
pub proof fn lemma_no_break_parts(a: Seq<char>, b: Seq<char>)
    requires
        no_break(a + b),
    ensures
        no_break(a),
        no_break(b),
{
    assert forall|i: int| 0 <= i < a.len() implies a[i] != '\n' by {
        assert((a + b)[i] == a[i]);
    }
    assert forall|i: int| 0 <= i < b.len() implies b[i] != '\n' by {
        assert((a + b)[a.len() + i] == b[i]);
    }
}

/// Relies on `char::is_whitespace`: the White_Space property of `c`.
#[verifier::external_body]
pub(crate) fn is_whitespace(c: char) -> (r: bool)
    ensures
        r == white_space(c),
{
    c.is_whitespace()
}

/// Relies on `String::push`: appends one character.
#[verifier::external_body]
pub(crate) fn push_char(s: &mut String, c: char)
    ensures
        final(s)@ == old(s)@.push(c),
{
    s.push(c)
}

/// The rows of a text split at each line break: one more row than line breaks.
pub open spec fn lines_of(s: Seq<char>) -> Seq<Seq<char>>
    decreases s.len(),
{
    if s.len() == 0 {
        seq![Seq::empty()]
    } else {
        let rest = lines_of(s.drop_last());
        if s.last() == '\n' {
            rest.push(Seq::empty())
        } else {
            rest.update(rest.len() - 1, rest.last().push(s.last()))
        }
    }
}

/// Rows joined with a line break between each two neighbours.
pub open spec fn join_lines(rows: Seq<Seq<char>>) -> Seq<char>
    decreases rows.len(),
{
    if rows.len() == 0 {
        Seq::empty()
    } else if rows.len() == 1 {
        rows[0]
    } else {
        join_lines(rows.drop_last()) + seq!['\n'] + rows.last()
    }
}

/// Relies on `str::split('\n')`: the pieces between line breaks, in order.
#[verifier::external_body]
pub(crate) fn split_lines(s: &str) -> (r: Vec<String>)
    ensures
        r@.map_values(|p: String| p@) == lines_of(s@),
{
    s.split('\n').map(|p| p.to_string()).collect()
}

/// Appends the clusters `[a, b)` of `gs` to `out`: their characters, in order.
pub fn append_clusters(out: &mut String, gs: &Vec<String>, a: usize, b: usize)
    requires
        a <= b <= gs@.len(),
    ensures
        final(out)@ == old(out)@ + gs@.map_values(|g: String| g@).subrange(a as int, b as int).flatten(),
{
    let ghost gv = gs@.map_values(|g: String| g@);
    let ghost init = out@;
    let mut i: usize = a;
    proof {
        assert(gv.subrange(a as int, a as int) =~= Seq::<Seq<char>>::empty());
        assert(init + Seq::<char>::empty() =~= init);
    }
    while i < b
        invariant
            gv == gs@.map_values(|g: String| g@),
            a <= i <= b <= gs@.len(),
            out@ == init + gv.subrange(a as int, i as int).flatten(),
        decreases b - i,
    {
        let ghost before = out@;
        out.append(gs[i].as_str());
        proof {
            assert(gs@[i as int]@ == gv[i as int]);
            assert(out@ == before + gv[i as int]);
            assert(gv.subrange(a as int, i + 1) =~= gv.subrange(a as int, i as int).push(gv[i as int]));
            assert(init + gv.subrange(a as int, i as int).flatten() + gv[i as int] =~= init + (gv.subrange(
                a as int,
                i as int,
            ).flatten() + gv[i as int]));
        }
        i += 1;
    }
}

} // verus!
