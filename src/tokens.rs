use vstd::prelude::*;

use crate::lint::Span;

verus! {

/// The spans cut a text of `len` characters into consecutive, non-empty
/// pieces with nothing left over.
pub open spec fn tiles(s: Seq<Span>, len: nat) -> bool {
    &&& s.len() == 0 ==> len == 0
    &&& s.len() > 0 ==> s[0].start == 0 && s.last().end == len
    &&& forall|i: int| 0 <= i < s.len() ==> #[trigger] s[i].start < s[i].end
    &&& forall|i: int| 0 <= i < s.len() - 1 ==> #[trigger] s[i].end == s[i + 1].start
}

/// The texts of the spans `s` of `text`, joined in order.
pub open spec fn joined(text: Seq<char>, s: Seq<Span>) -> Seq<char>
    decreases s.len(),
{
    if s.len() == 0 {
        Seq::empty()
    } else {
        joined(text, s.drop_last()) + text.subrange(s.last().start as int, s.last().end as int)
    }
}

proof fn lemma_joined_prefix(text: Seq<char>, s: Seq<Span>)
    requires
        s.len() > 0,
        s[0].start == 0,
        s.last().end <= text.len(),
        forall|i: int| 0 <= i < s.len() ==> #[trigger] s[i].start < s[i].end,
        forall|i: int| 0 <= i < s.len() - 1 ==> #[trigger] s[i].end == s[i + 1].start,
    ensures
        joined(text, s) == text.subrange(0, s.last().end as int),
    decreases s.len(),
{
    let p = s.drop_last();
    let last = s.last();
    if s.len() == 1 {
        assert(joined(text, p) =~= Seq::<char>::empty());
        assert(joined(text, s) =~= text.subrange(0, last.end as int));
    } else {
        assert(p[p.len() - 1] == s[s.len() - 2]);
        assert(s[s.len() - 2].end == last.start);
        assert forall|i: int| 0 <= i < p.len() implies #[trigger] p[i].start < p[i].end by {
            assert(p[i] == s[i]);
        }
        assert forall|i: int| 0 <= i < p.len() - 1 implies #[trigger] p[i].end == p[i + 1].start by {
            assert(p[i] == s[i] && p[i + 1] == s[i + 1]);
        }
        assert(p[0] == s[0]);
        lemma_joined_prefix(text, p);
        assert(text.subrange(0, last.start as int) + text.subrange(last.start as int, last.end as int)
            =~= text.subrange(0, last.end as int));
    }
}

/// Spans that tile a text reproduce it exactly when their texts are joined.
pub proof fn lemma_tiling_is_lossless(text: Seq<char>, s: Seq<Span>)
    requires
        tiles(s, text.len()),
    ensures
        joined(text, s) == text,
{
    if s.len() == 0 {
        assert(text =~= Seq::<char>::empty());
    } else {
        lemma_joined_prefix(text, s);
        assert(text.subrange(0, text.len() as int) =~= text);
    }
}

/// Whether `spans` tile a text of `len` characters.
pub fn is_tiling(spans: &Vec<Span>, len: usize) -> (r: bool)
    ensures
        r == tiles(spans@, len as nat),
{
    if spans.len() == 0 {
        return len == 0;
    }
    if spans[0].start != 0 || spans[spans.len() - 1].end != len {
        return false;
    }
    let mut i: usize = 0;
    while i < spans.len()
        invariant
            0 < spans.len(),
            i <= spans.len(),
            spans@[0].start == 0 && spans@.last().end == len,
            forall|j: int| 0 <= j < i ==> #[trigger] spans@[j].start < spans@[j].end,
            forall|j: int| 0 <= j < i && j < spans.len() - 1 ==> #[trigger] spans@[j].end == spans@[j
                + 1].start,
        decreases spans.len() - i,
    {
        if spans[i].start >= spans[i].end {
            return false;
        }
        if i + 1 < spans.len() && spans[i].end != spans[i + 1].start {
            return false;
        }
        i = i + 1;
    }
    true
}

} // verus!
