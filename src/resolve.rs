use vstd::prelude::*;

use crate::lint::{finding_models, has_replacement, Finding, FindingModel, Span};

verus! {

/// A span is usable in a text of `len` characters when it is non-empty and
/// ends inside the text.
pub open spec fn valid_span(s: Span, len: nat) -> bool {
    s.start < s.end && s.end <= len
}

/// `a` comes no later than `b`: by start, then by end.
pub open spec fn precedes(a: Span, b: Span) -> bool {
    a.start < b.start || (a.start == b.start && a.end <= b.end)
}

pub open spec fn overlaps(a: Span, b: Span) -> bool {
    a.start < b.end && b.start < a.end
}

/// Two lints would make conflicting edits: both replace text, on spans that
/// share a character.
pub open spec fn conflicts(a: FindingModel, b: FindingModel) -> bool {
    has_replacement(a) && has_replacement(b) && overlaps(a.span, b.span)
}

pub open spec fn all_valid(s: Seq<FindingModel>, len: nat) -> bool {
    forall|i: int| 0 <= i < s.len() ==> valid_span(#[trigger] s[i].span, len)
}

pub open spec fn sorted(s: Seq<FindingModel>) -> bool {
    forall|i: int, j: int| 0 <= i < j < s.len() ==> precedes(#[trigger] s[i].span, #[trigger] s[j].span)
}

pub open spec fn sorted_desc(s: Seq<FindingModel>) -> bool {
    forall|i: int, j: int| 0 <= i < j < s.len() ==> precedes(#[trigger] s[j].span, #[trigger] s[i].span)
}

pub open spec fn conflict_free(s: Seq<FindingModel>) -> bool {
    forall|i: int, j: int| 0 <= i < j < s.len() ==> !conflicts(#[trigger] s[i], #[trigger] s[j])
}

pub open spec fn drawn_from(s: Seq<FindingModel>, from: Seq<FindingModel>) -> bool {
    forall|i: int| 0 <= i < s.len() ==> from.contains(#[trigger] s[i])
}

/// Some lint of `s` conflicts with `x`.
pub open spec fn conflicts_with_some(s: Seq<FindingModel>, x: FindingModel) -> bool {
    exists|i: int| 0 <= i < s.len() && conflicts(#[trigger] s[i], x)
}

/// Some lint of `s` whose span comes no later than that of `x` conflicts
/// with `x`.
pub open spec fn overridden(s: Seq<FindingModel>, x: FindingModel) -> bool {
    exists|i: int| 0 <= i < s.len() && conflicts(#[trigger] s[i], x) && precedes(s[i].span, x.span)
}

/// Properties of a merge `out` of `input` in a text of `len` characters:
/// usable spans only, in order, no two conflicting edits, every lint of
/// `out` one of `input`, and every usable input kept unless a kept lint
/// whose span comes no later conflicts with it.
pub open spec fn resolved(out: Seq<FindingModel>, input: Seq<FindingModel>, len: nat) -> bool {
    &&& all_valid(out, len)
    &&& sorted(out)
    &&& conflict_free(out)
    &&& drawn_from(out, input)
    &&& forall|k: int|
        0 <= k < input.len() && valid_span(#[trigger] input[k].span, len) ==> out.contains(input[k])
            || overridden(out, input[k])
}

/// `s` with `x` placed before the first lint whose span comes no later than
/// that of `x`: in a latest-first order, `x` goes ahead of equal spans.
pub open spec fn insert_latest_first(s: Seq<FindingModel>, x: FindingModel) -> Seq<FindingModel>
    decreases s.len(),
{
    if s.len() == 0 || precedes(s[0].span, x.span) {
        seq![x] + s
    } else {
        seq![s[0]] + insert_latest_first(s.drop_first(), x)
    }
}

/// The usable lints of `input`, latest span first; of two equal spans, the
/// one later in `input` first.
pub open spec fn latest_first(input: Seq<FindingModel>, len: nat) -> Seq<FindingModel>
    decreases input.len(),
{
    if input.len() == 0 {
        Seq::empty()
    } else {
        let r = latest_first(input.drop_last(), len);
        if valid_span(input.last().span, len) {
            insert_latest_first(r, input.last())
        } else {
            r
        }
    }
}

pub open spec fn backwards<A>(s: Seq<A>) -> Seq<A> {
    Seq::new(s.len(), |i: int| s[s.len() - 1 - i])
}

/// Going through `s` in order, each lint is kept unless a lint already kept
/// conflicts with it.
pub open spec fn keep_first_edits(s: Seq<FindingModel>) -> Seq<FindingModel>
    decreases s.len(),
{
    if s.len() == 0 {
        Seq::empty()
    } else {
        let k = keep_first_edits(s.drop_last());
        if conflicts_with_some(k, s.last()) {
            k
        } else {
            k.push(s.last())
        }
    }
}

/// The merge of `input` in a text of `len` characters: its usable lints in
/// a stable order by start, then end, with each conflicting edit dropped in
/// favour of the one kept before it.
pub open spec fn merged(input: Seq<FindingModel>, len: nat) -> Seq<FindingModel> {
    keep_first_edits(backwards(latest_first(input, len)))
}

proof fn lemma_insert_at(s: Seq<FindingModel>, x: FindingModel, p: int)
    requires
        0 <= p <= s.len(),
        forall|j: int| 0 <= j < p ==> !precedes(#[trigger] s[j].span, x.span),
        p < s.len() ==> precedes(s[p].span, x.span),
    ensures
        insert_latest_first(s, x) == s.insert(p, x),
    decreases s.len(),
{
    if p == 0 {
        assert(seq![x] + s =~= s.insert(0, x));
    } else {
        let t = s.drop_first();
        assert(!precedes(s[0].span, x.span));
        assert forall|j: int| 0 <= j < p - 1 implies !precedes(#[trigger] t[j].span, x.span) by {
            assert(t[j] == s[j + 1]);
        }
        if p - 1 < t.len() {
            assert(t[p - 1] == s[p]);
        }
        lemma_insert_at(t, x, p - 1);
        assert(seq![s[0]] + t.insert(p - 1, x) =~= s.insert(p, x));
    }
}

impl Span {
    pub fn is_valid(&self, len: usize) -> (r: bool)
        ensures
            r == valid_span(*self, len as nat),
    {
        self.start < self.end && self.end <= len
    }

    pub fn precedes(&self, other: &Span) -> (r: bool)
        ensures
            r == precedes(*self, *other),
    {
        self.start < other.start || (self.start == other.start && self.end <= other.end)
    }

    pub fn overlaps(&self, other: &Span) -> (r: bool)
        ensures
            r == overlaps(*self, *other),
    {
        self.start < other.end && other.start < self.end
    }
}

proof fn lemma_insert_keeps<A>(s: Seq<A>, p: int, x: A)
    requires
        0 <= p <= s.len(),
    ensures
        s.insert(p, x).contains(x),
        forall|y: A| s.contains(y) ==> #[trigger] s.insert(p, x).contains(y),
{
    let r = s.insert(p, x);
    assert(r[p] == x);
    assert forall|y: A| s.contains(y) implies #[trigger] r.contains(y) by {
        let j = choose|j: int| 0 <= j < s.len() && s[j] == y;
        if j < p {
            assert(r[j] == y);
        } else {
            assert(r[j + 1] == y);
        }
    }
}

proof fn lemma_pop_keeps<A>(s: Seq<A>)
    requires
        s.len() > 0,
    ensures
        forall|y: A| s.contains(y) ==> y == s.last() || #[trigger] s.drop_last().contains(y),
{
    assert forall|y: A| s.contains(y) implies y == s.last() || #[trigger] s.drop_last().contains(y) by {
        let j = choose|j: int| 0 <= j < s.len() && s[j] == y;
        if j < s.len() - 1 {
            assert(s.drop_last()[j] == y);
        }
    }
}

/// Whether some lint of `kept` conflicts with `x`.
fn conflicts_with_any(kept: &Vec<Finding>, x: &Finding) -> (r: bool)
    ensures
        r == conflicts_with_some(finding_models(kept@), x@),
{
    let ghost km = finding_models(kept@);
    if !x.has_replacement() {
        return false;
    }
    let mut i: usize = 0;
    while i < kept.len()
        invariant
            i <= kept.len(),
            km == finding_models(kept@),
            has_replacement(x@),
            forall|j: int| 0 <= j < i ==> !conflicts(#[trigger] km[j], x@),
        decreases kept.len() - i,
    {
        if kept[i].has_replacement() && kept[i].span.overlaps(&x.span) {
            assert(conflicts(km[i as int], x@));
            return true;
        }
        i = i + 1;
    }
    false
}

/// Copies the usable lints of `lints` into a vector ordered from the last
/// span to the first.
fn sorted_backwards(lints: &Vec<Finding>, len: usize) -> (r: Vec<Finding>)
    ensures
        all_valid(finding_models(r@), len as nat),
        sorted_desc(finding_models(r@)),
        drawn_from(finding_models(r@), finding_models(lints@)),
        forall|k: int|
            0 <= k < lints.len() && valid_span(#[trigger] finding_models(lints@)[k].span, len as nat)
                ==> finding_models(r@).contains(finding_models(lints@)[k]),
        finding_models(r@) == latest_first(finding_models(lints@), len as nat),
{
    let ghost m = finding_models(lints@);
    let mut desc: Vec<Finding> = Vec::new();
    let mut k: usize = 0;
    while k < lints.len()
        invariant
            k <= lints.len(),
            m == finding_models(lints@),
            all_valid(finding_models(desc@), len as nat),
            sorted_desc(finding_models(desc@)),
            drawn_from(finding_models(desc@), m),
            forall|q: int|
                0 <= q < k && valid_span(#[trigger] m[q].span, len as nat) ==> finding_models(
                    desc@,
                ).contains(m[q]),
            finding_models(desc@) == latest_first(m.subrange(0, k as int), len as nat),
        decreases lints.len() - k,
    {
        assert(m.subrange(0, k + 1).drop_last() =~= m.subrange(0, k as int));
        assert(m.subrange(0, k + 1).last() == m[k as int]);
        if lints[k].span.is_valid(len) {
            let x = lints[k].copy();
            let ghost dm = finding_models(desc@);
            let mut p: usize = 0;
            while p < desc.len() && !desc[p].span.precedes(&x.span)
                invariant
                    p <= desc.len(),
                    dm == finding_models(desc@),
                    forall|j: int| 0 <= j < p ==> !precedes(#[trigger] dm[j].span, x@.span),
                decreases desc.len() - p,
            {
                p = p + 1;
            }
            desc.insert(p, x);
            let ghost nm = finding_models(desc@);
            assert(nm =~= dm.insert(p as int, x@));
            proof {
                lemma_insert_at(dm, x@, p as int);
                lemma_insert_keeps(dm, p as int, x@);
                assert(m[k as int] == x@);
                assert forall|i: int, j: int| 0 <= i < j < nm.len() implies precedes(
                    #[trigger] nm[j].span,
                    #[trigger] nm[i].span,
                ) by {
                    if j < p {
                    } else if j == p {
                        assert(!precedes(dm[i].span, x@.span));
                    } else if i < p {
                        assert(!precedes(dm[i].span, x@.span));
                        if p < dm.len() {
                            assert(precedes(dm[j - 1].span, dm[p as int].span));
                        }
                    } else if i == p {
                        assert(precedes(dm[p as int].span, x@.span));
                        assert(precedes(dm[j - 1].span, dm[p as int].span));
                    } else {
                        assert(precedes(dm[j - 1].span, dm[i - 1].span));
                    }
                }
                assert forall|i: int| 0 <= i < nm.len() implies valid_span(
                    #[trigger] nm[i].span,
                    len as nat,
                ) by {
                    if i < p {
                    } else if i > p {
                        assert(nm[i] == dm[i - 1]);
                    }
                }
                assert forall|i: int| 0 <= i < nm.len() implies m.contains(#[trigger] nm[i]) by {
                    if i < p {
                    } else if i > p {
                        assert(nm[i] == dm[i - 1]);
                    }
                }
            }
        }
        k = k + 1;
    }
    assert(m.subrange(0, lints.len() as int) =~= m);
    desc
}

/// The merge step of a lint run over a text of `len` characters.
///
/// Lints whose span is empty or reaches past the text are dropped. The rest
/// come out ordered by start, then by end. Going through them in that order,
/// a lint that replaces text is dropped when a lint already kept also
/// replaces text on a span that shares a character with it: the earlier,
/// then shorter, span wins. Lints without a replacement are always kept.
/// Equal spans keep the order they had in `lints`, and each lint of `lints`
/// appears at most once: the result is exactly `merged`.
pub fn resolve(lints: &Vec<Finding>, len: usize) -> (r: Vec<Finding>)
    ensures
        finding_models(r@) == merged(finding_models(lints@), len as nat),
        resolved(finding_models(r@), finding_models(lints@), len as nat),
{
    let ghost m = finding_models(lints@);
    let mut desc = sorted_backwards(lints, len);
    let ghost d = finding_models(desc@);
    let ghost n = desc.len();
    let mut out: Vec<Finding> = Vec::new();
    while desc.len() > 0
        invariant
            m == finding_models(lints@),
            all_valid(finding_models(desc@), len as nat),
            sorted_desc(finding_models(desc@)),
            drawn_from(finding_models(desc@), m),
            all_valid(finding_models(out@), len as nat),
            sorted(finding_models(out@)),
            conflict_free(finding_models(out@)),
            drawn_from(finding_models(out@), m),
            forall|i: int, j: int|
                0 <= i < out.len() && 0 <= j < desc.len() ==> precedes(
                    #[trigger] finding_models(out@)[i].span,
                    #[trigger] finding_models(desc@)[j].span,
                ),
            forall|k: int|
                0 <= k < m.len() && valid_span(#[trigger] m[k].span, len as nat) ==> finding_models(
                    desc@,
                ).contains(m[k]) || finding_models(out@).contains(m[k]) || overridden(
                    finding_models(out@),
                    m[k],
                ),
            desc.len() <= n == d.len(),
            finding_models(desc@) == d.subrange(0, desc.len() as int),
            finding_models(out@) == keep_first_edits(backwards(d.subrange(desc.len() as int, n as int))),
        decreases desc.len(),
    {
        let ghost c = desc.len();
        assert(backwards(d.subrange(c - 1, n as int)).drop_last() =~= backwards(
            d.subrange(c as int, n as int),
        ));
        assert(backwards(d.subrange(c - 1, n as int)).last() == d[c - 1]);
        assert(d.subrange(0, c - 1) =~= d.subrange(0, c as int).drop_last());
        let ghost dm = finding_models(desc@);
        let ghost om = finding_models(out@);
        let x = desc.pop().unwrap();
        proof {
            assert(finding_models(desc@) =~= dm.drop_last());
            assert(x@ == dm.last());
            lemma_pop_keeps(dm);
        }
        if !conflicts_with_any(&out, &x) {
            out.push(x);
            proof {
                let nm = finding_models(out@);
                assert(nm =~= om.push(x@));
                assert(nm[om.len() as int] == x@);
                assert forall|i: int, j: int| 0 <= i < j < nm.len() implies precedes(
                    #[trigger] nm[i].span,
                    #[trigger] nm[j].span,
                ) by {
                    if j == om.len() {
                        assert(precedes(om[i].span, dm[dm.len() - 1].span));
                    } else {
                        assert(nm[i] == om[i] && nm[j] == om[j]);
                    }
                }
                assert forall|i: int, j: int| 0 <= i < j < nm.len() implies !conflicts(
                    #[trigger] nm[i],
                    #[trigger] nm[j],
                ) by {
                    if j < om.len() {
                        assert(nm[i] == om[i] && nm[j] == om[j]);
                    } else {
                        assert(nm[i] == om[i]);
                    }
                }
                assert forall|i: int, j: int|
                    0 <= i < nm.len() && 0 <= j < dm.len() - 1 implies precedes(
                    #[trigger] nm[i].span,
                    #[trigger] finding_models(desc@)[j].span,
                ) by {
                    assert(finding_models(desc@)[j] == dm[j]);
                    if i < om.len() {
                        assert(nm[i] == om[i]);
                    } else {
                        assert(precedes(dm[dm.len() - 1].span, dm[j].span));
                    }
                }
                assert forall|y: FindingModel| om.contains(y) implies #[trigger] nm.contains(y) by {
                    let j = choose|j: int| 0 <= j < om.len() && om[j] == y;
                    assert(nm[j] == y);
                }
                assert forall|y: FindingModel| overridden(om, y) implies #[trigger] overridden(nm, y) by {
                    let j = choose|j: int|
                        0 <= j < om.len() && conflicts(om[j], y) && precedes(om[j].span, y.span);
                    assert(nm[j] == om[j]);
                }
                assert(nm.contains(x@));
            }
        } else {
            proof {
                let j = choose|j: int| 0 <= j < om.len() && conflicts(#[trigger] om[j], x@);
                assert(precedes(om[j].span, dm[dm.len() - 1].span));
                assert(overridden(om, x@));
            }
        }
    }
    assert(d.subrange(0, n as int) =~= d);
    out
}

} // verus!
