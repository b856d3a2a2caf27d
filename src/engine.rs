use vstd::prelude::*;

use crate::lint::{
    finding_models, has_replacement, lemma_texts_need_replacement, Finding, FindingModel,
};
use crate::report::{
    byte_len, lemma_byte_offset_bounded, lemma_byte_offset_increasing, report, result_models,
    result_of, total_bytes, LintResult, LintResultModel,
};
use crate::resolve::{merged, overlaps, precedes, resolve, resolved, valid_span};

verus! {

/// The characters of `text`, in order.
pub fn chars_of(text: &str) -> (r: Vec<char>)
    ensures
        r@ == text@,
{
    let mut r: Vec<char> = Vec::new();
    for c in it: text.chars()
        invariant
            r@ == it.seq().subrange(0, it.index() as int),
    {
        r.push(c);
    }
    r
}

/// The findings of the rules that ran to the end, in rule order: entry `i`
/// of `runs` is `None` when rule `i` failed.
pub open spec fn finished_findings(runs: Seq<Option<Seq<FindingModel>>>) -> Seq<FindingModel>
    decreases runs.len(),
{
    if runs.len() == 0 {
        Seq::empty()
    } else {
        match runs.last() {
            Some(f) => finished_findings(runs.drop_last()) + f,
            None => finished_findings(runs.drop_last()),
        }
    }
}

pub open spec fn run_models(runs: Seq<Option<Vec<Finding>>>) -> Seq<Option<Seq<FindingModel>>> {
    runs.map_values(
        |r: Option<Vec<Finding>>|
            match r {
                Some(v) => Some(finding_models(v@)),
                None => None,
            },
    )
}

/// Copies the findings of the rules that ran to the end into one vector,
/// in rule order.
pub fn gather(runs: &Vec<Option<Vec<Finding>>>) -> (r: Vec<Finding>)
    ensures
        finding_models(r@) == finished_findings(run_models(runs@)),
{
    let ghost m = run_models(runs@);
    let mut r: Vec<Finding> = Vec::new();
    let mut i: usize = 0;
    while i < runs.len()
        invariant
            i <= runs.len(),
            m == run_models(runs@),
            finding_models(r@) == finished_findings(m.subrange(0, i as int)),
        decreases runs.len() - i,
    {
        assert(m.subrange(0, i + 1).drop_last() =~= m.subrange(0, i as int));
        match &runs[i] {
            Some(v) => {
                let ghost before = finding_models(r@);
                let ghost n0 = r.len();
                let mut j: usize = 0;
                while j < v.len()
                    invariant
                        j <= v.len(),
                        n0 == before.len(),
                        r.len() == n0 + j,
                        forall|k: int| 0 <= k < n0 ==> #[trigger] r@[k]@ == before[k],
                        forall|k: int| 0 <= k < j ==> r@[n0 + k]@ == #[trigger] v@[k]@,
                    decreases v.len() - j,
                {
                    r.push(v[j].copy());
                    j = j + 1;
                }
                assert(finding_models(r@) =~= before + finding_models(v@)) by {
                    assert forall|k: int| n0 <= k < r.len() implies #[trigger] r@[k]@ == v@[k - n0]@ by {
                        assert(r@[n0 + (k - n0)]@ == v@[k - n0]@);
                    }
                }
            },
            None => {},
        }
        i = i + 1;
    }
    assert(m.subrange(0, m.len() as int) =~= m);
    r
}

/// `out` is what a lint run owes for `text` when the rules found `raw`: the
/// records, in order, of `merged(raw, ..)`, which is a resolution of `raw`
/// (see `resolved`).
pub open spec fn lint_run(text: Seq<char>, raw: Seq<FindingModel>, out: Seq<LintResultModel>) -> bool {
    &&& resolved(merged(raw, text.len()), raw, text.len())
    &&& out == merged(raw, text.len()).map_values(|l: FindingModel| result_of(text, l))
}

/// A lint run is deterministic: the same text and the same findings give
/// the same records, in the same order.
pub proof fn lemma_lint_run_deterministic(
    text: Seq<char>,
    raw: Seq<FindingModel>,
    out1: Seq<LintResultModel>,
    out2: Seq<LintResultModel>,
)
    requires
        lint_run(text, raw, out1),
        lint_run(text, raw, out2),
    ensures
        out1 == out2,
{
}

/// Every record of a lint run covers at least one character and lies inside
/// the UTF-8 text: `start < end <= ` its byte length.
pub proof fn lemma_records_in_bounds(text: Seq<char>, raw: Seq<FindingModel>, out: Seq<LintResultModel>)
    requires
        lint_run(text, raw, out),
    ensures
        forall|i: int|
            #![trigger out[i]]
            0 <= i < out.len() ==> out[i].start < out[i].end && out[i].end <= byte_len(text)
                && out[i].word.len() > 0,
{
    let kept = merged(raw, text.len());
    assert forall|i: int|
        #![trigger out[i]]
        0 <= i < out.len() implies out[i].start < out[i].end && out[i].end <= byte_len(text)
            && out[i].word.len() > 0 by {
        let sp = kept[i].span;
        assert(valid_span(sp, text.len()));
        lemma_byte_offset_increasing(text, sp.start as int, sp.end as int);
        lemma_byte_offset_bounded(text, sp.end as int);
    }
}

/// The records of a lint run come in order of start offset, then of end
/// offset.
pub proof fn lemma_records_ordered(text: Seq<char>, raw: Seq<FindingModel>, out: Seq<LintResultModel>)
    requires
        lint_run(text, raw, out),
    ensures
        forall|i: int, j: int|
            0 <= i < j < out.len() ==> #[trigger] out[i].start < #[trigger] out[j].start || (out[i].start
                == out[j].start && out[i].end <= out[j].end),
{
    let kept = merged(raw, text.len());
    assert forall|i: int, j: int| 0 <= i < j < out.len() implies #[trigger] out[i].start
        < #[trigger] out[j].start || (out[i].start == out[j].start && out[i].end <= out[j].end) by {
        let a = kept[i].span;
        let b = kept[j].span;
        assert(precedes(a, b));
        assert(valid_span(a, text.len()) && valid_span(b, text.len()));
        if a.start < b.start {
            lemma_byte_offset_increasing(text, a.start as int, b.start as int);
        } else if a.end < b.end {
            lemma_byte_offset_increasing(text, a.end as int, b.end as int);
        }
    }
}

/// No two records of a lint run that both offer replacement texts share a
/// byte of the text.
pub proof fn lemma_records_edits_disjoint(text: Seq<char>, raw: Seq<FindingModel>, out: Seq<LintResultModel>)
    requires
        lint_run(text, raw, out),
    ensures
        forall|i: int, j: int|
            0 <= i < j < out.len() && #[trigger] out[i].suggestions.len() > 0
                && #[trigger] out[j].suggestions.len() > 0 ==> out[i].end <= out[j].start
                || out[j].end <= out[i].start,
{
    let kept = merged(raw, text.len());
    assert forall|i: int, j: int|
        0 <= i < j < out.len() && #[trigger] out[i].suggestions.len() > 0
            && #[trigger] out[j].suggestions.len() > 0 implies out[i].end <= out[j].start
            || out[j].end <= out[i].start by {
        let a = kept[i].span;
        let b = kept[j].span;
        lemma_texts_need_replacement(kept[i].suggestions);
        lemma_texts_need_replacement(kept[j].suggestions);
        assert(has_replacement(kept[i]) && has_replacement(kept[j]));
        assert(!overlaps(a, b));
        assert(valid_span(a, text.len()) && valid_span(b, text.len()));
        if a.end <= b.start {
            if a.end < b.start {
                lemma_byte_offset_increasing(text, a.end as int, b.start as int);
            }
        } else {
            if b.end < a.start {
                lemma_byte_offset_increasing(text, b.end as int, a.start as int);
            }
        }
    }
}

/// Merges `raw`, the findings of a lint run over `text`, and returns their
/// records. Text whose UTF-8 length would not fit in a `usize` gives an
/// empty vector.
pub fn lint_findings(text: &str, raw: &Vec<Finding>) -> (r: Vec<LintResult>)
    ensures
        byte_len(text@) <= usize::MAX ==> lint_run(text@, finding_models(raw@), result_models(r@)),
        byte_len(text@) > usize::MAX ==> r@.len() == 0,
        text@.len() == 0 ==> r@.len() == 0,
{
    let source = chars_of(text);
    if total_bytes(&source).is_none() {
        return Vec::new();
    }
    let kept = resolve(raw, source.len());
    let r = report(&source, &kept);
    proof {
        assert(resolved(finding_models(kept@), finding_models(raw@), text@.len()));
        if text@.len() == 0 && kept.len() > 0 {
            assert(valid_span(finding_models(kept@)[0].span, 0));
        }
        assert(result_models(r@).len() == kept.len());
    }
    r
}

/// Lints `text` from what each rule of a run found: entry `i` of `runs` is
/// what rule `i` found, or `None` when it failed. The findings of every
/// rule that ran to the end enter the merge; a failed rule adds nothing.
pub fn lint_rule_results(text: &str, runs: &Vec<Option<Vec<Finding>>>) -> (r: Vec<LintResult>)
    ensures
        byte_len(text@) <= usize::MAX ==> lint_run(
            text@,
            finished_findings(run_models(runs@)),
            result_models(r@),
        ),
        byte_len(text@) > usize::MAX ==> r@.len() == 0,
        text@.len() == 0 ==> r@.len() == 0,
{
    let raw = gather(runs);
    lint_findings(text, &raw)
}

} // verus!
