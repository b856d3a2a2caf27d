use vstd::prelude::*;

use crate::lint::{
    category_of, copy_chars, finding_models, replacement_texts, Category, Finding, FindingModel,
};
use crate::resolve::{all_valid, valid_span};

verus! {

/// How many bytes UTF-8 takes for `c`.
pub open spec fn utf8_width(c: char) -> nat {
    let v = c as u32;
    if v < 0x80 {
        1
    } else if v < 0x800 {
        2
    } else if v < 0x10000 {
        3
    } else {
        4
    }
}

/// How many bytes UTF-8 takes for the characters `s`.
pub open spec fn byte_len(s: Seq<char>) -> nat
    decreases s.len(),
{
    if s.len() == 0 {
        0
    } else {
        byte_len(s.drop_last()) + utf8_width(s.last())
    }
}

/// The byte offset at which character `n` of `s` starts.
pub open spec fn byte_offset(s: Seq<char>, n: int) -> nat {
    byte_len(s.subrange(0, n))
}

proof fn lemma_byte_offset_step(s: Seq<char>, i: int)
    requires
        0 <= i < s.len(),
    ensures
        byte_offset(s, i + 1) == byte_offset(s, i) + utf8_width(s[i]),
{
    assert(s.subrange(0, i + 1).drop_last() =~= s.subrange(0, i));
}

pub proof fn lemma_byte_offset_bounded(s: Seq<char>, i: int)
    requires
        0 <= i <= s.len(),
    ensures
        byte_offset(s, i) <= byte_len(s),
    decreases s.len() - i,
{
    if i == s.len() {
        assert(s.subrange(0, i) =~= s);
    } else {
        lemma_byte_offset_step(s, i);
        lemma_byte_offset_bounded(s, i + 1);
    }
}

/// Byte offsets grow with character offsets, strictly.
pub proof fn lemma_byte_offset_increasing(s: Seq<char>, i: int, j: int)
    requires
        0 <= i < j <= s.len(),
    ensures
        byte_offset(s, i) < byte_offset(s, j),
    decreases j - i,
{
    lemma_byte_offset_step(s, i);
    if i + 1 < j {
        lemma_byte_offset_increasing(s, i + 1, j);
    }
}

pub fn char_width(c: char) -> (r: usize)
    ensures
        r == utf8_width(c),
{
    let v = c as u32;
    if v < 0x80 {
        1
    } else if v < 0x800 {
        2
    } else if v < 0x10000 {
        3
    } else {
        4
    }
}

/// The UTF-8 length of `source`, when it fits in a `usize`.
pub fn total_bytes(source: &Vec<char>) -> (r: Option<usize>)
    ensures
        r == (if byte_len(source@) <= usize::MAX {
            Some(byte_len(source@) as usize)
        } else {
            None::<usize>
        }),
{
    let mut acc: usize = 0;
    let mut i: usize = 0;
    while i < source.len()
        invariant
            i <= source.len(),
            acc == byte_offset(source@, i as int),
        decreases source.len() - i,
    {
        let w = char_width(source[i]);
        proof {
            lemma_byte_offset_step(source@, i as int);
        }
        if acc > usize::MAX - w {
            proof {
                lemma_byte_offset_bounded(source@, i + 1);
            }
            return None;
        }
        acc = acc + w;
        i = i + 1;
    }
    assert(source@.subrange(0, source.len() as int) =~= source@);
    Some(acc)
}

/// The byte offset at which character `n` of `source` starts.
pub fn byte_offset_of(source: &Vec<char>, n: usize) -> (r: usize)
    requires
        n <= source.len(),
        byte_len(source@) <= usize::MAX,
    ensures
        r == byte_offset(source@, n as int),
{
    let mut acc: usize = 0;
    let mut i: usize = 0;
    while i < n
        invariant
            i <= n <= source.len(),
            byte_len(source@) <= usize::MAX,
            acc == byte_offset(source@, i as int),
        decreases n - i,
    {
        proof {
            lemma_byte_offset_step(source@, i as int);
            lemma_byte_offset_bounded(source@, i + 1);
        }
        acc = acc + char_width(source[i]);
        i = i + 1;
    }
    acc
}

/// A lint as handed across the library's boundary: byte offsets into the
/// UTF-8 text, the characters it covers, its category, its message and the
/// texts of its replacements.
#[derive(Debug)]
pub struct LintResult {
    pub word: Vec<char>,
    pub start: usize,
    pub end: usize,
    pub kind: Category,
    pub message: String,
    pub suggestions: Vec<Vec<char>>,
}

pub ghost struct LintResultModel {
    pub word: Seq<char>,
    pub start: nat,
    pub end: nat,
    pub kind: Category,
    pub message: Seq<char>,
    pub suggestions: Seq<Seq<char>>,
}

impl View for LintResult {
    type V = LintResultModel;

    open spec fn view(&self) -> LintResultModel {
        LintResultModel {
            word: self.word@,
            start: self.start as nat,
            end: self.end as nat,
            kind: self.kind,
            message: self.message@,
            suggestions: self.suggestions@.map_values(|t: Vec<char>| t@),
        }
    }
}

pub open spec fn result_models(s: Seq<LintResult>) -> Seq<LintResultModel> {
    s.map_values(|x: LintResult| x@)
}

/// The record for lint `l` of the text `source`.
pub open spec fn result_of(source: Seq<char>, l: FindingModel) -> LintResultModel {
    LintResultModel {
        word: source.subrange(l.span.start as int, l.span.end as int),
        start: byte_offset(source, l.span.start as int),
        end: byte_offset(source, l.span.end as int),
        kind: category_of(l.lint_kind),
        message: l.message,
        suggestions: replacement_texts(l.suggestions),
    }
}

fn copy_range(source: &Vec<char>, start: usize, end: usize) -> (r: Vec<char>)
    requires
        start <= end <= source.len(),
    ensures
        r@ == source@.subrange(start as int, end as int),
{
    let mut r: Vec<char> = Vec::new();
    let mut i: usize = start;
    while i < end
        invariant
            start <= i <= end <= source.len(),
            r@ == source@.subrange(start as int, i as int),
        decreases end - i,
    {
        r.push(source[i]);
        i = i + 1;
        assert(r@ =~= source@.subrange(start as int, i as int));
    }
    r
}

impl LintResult {
    /// The record for `lint`, a lint of the text `source`.
    pub fn new(source: &Vec<char>, lint: &Finding) -> (r: LintResult)
        requires
            valid_span(lint.span, source@.len()),
            byte_len(source@) <= usize::MAX,
        ensures
            r@ == result_of(source@, lint@),
    {
        LintResult {
            word: copy_range(source, lint.span.start, lint.span.end),
            start: byte_offset_of(source, lint.span.start),
            end: byte_offset_of(source, lint.span.end),
            kind: lint.lint_kind.category(),
            message: lint.message.clone(),
            suggestions: lint.replacements(),
        }
    }
}

/// The records for `lints`, lints of the text `source`, in the same order.
pub fn report(source: &Vec<char>, lints: &Vec<Finding>) -> (r: Vec<LintResult>)
    requires
        all_valid(finding_models(lints@), source@.len()),
        byte_len(source@) <= usize::MAX,
    ensures
        result_models(r@) == finding_models(lints@).map_values(|l: FindingModel| result_of(source@, l)),
{
    let ghost m = finding_models(lints@);
    let mut r: Vec<LintResult> = Vec::new();
    let mut i: usize = 0;
    while i < lints.len()
        invariant
            i <= lints.len(),
            m == finding_models(lints@),
            all_valid(m, source@.len()),
            byte_len(source@) <= usize::MAX,
            r.len() == i,
            forall|j: int| 0 <= j < i ==> #[trigger] r@[j]@ == result_of(source@, m[j]),
        decreases lints.len() - i,
    {
        assert(valid_span(m[i as int].span, source@.len()));
        r.push(LintResult::new(source, &lints[i]));
        i = i + 1;
    }
    assert(result_models(r@) =~= m.map_values(|l: FindingModel| result_of(source@, l)));
    r
}

} // verus!
