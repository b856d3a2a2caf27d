use vstd::prelude::*;

verus! {

/// A half-open range `[start, end)` of character offsets.
#[derive(Clone, Copy, Debug, PartialEq, Eq, Structural)]
pub struct Span {
    pub start: usize,
    pub end: usize,
}

/// The kind of issue a rule reports.
#[derive(Clone, Copy, Debug, PartialEq, Eq, Structural)]
pub enum LintKind {
    Spelling,
    Capitalization,
    Style,
    Formatting,
    Repetition,
    Enhancement,
    Readability,
    WordChoice,
    Miscellaneous,
    Punctuation,
}

/// The coarse classification exposed to callers.
#[derive(Clone, Copy, Debug, PartialEq, Eq, Structural)]
pub enum Category {
    Spelling,
    Grammar,
    Style,
}

/// A single edit, anchored at the span of the lint that owns it.
#[derive(Debug)]
pub enum Suggestion {
    ReplaceWith(Vec<char>),
    InsertAfter(Vec<char>),
    Remove,
}

pub ghost enum SuggestionModel {
    ReplaceWith(Seq<char>),
    InsertAfter(Seq<char>),
    Remove,
}

impl View for Suggestion {
    type V = SuggestionModel;

    open spec fn view(&self) -> SuggestionModel {
        match self {
            Suggestion::ReplaceWith(v) => SuggestionModel::ReplaceWith(v@),
            Suggestion::InsertAfter(v) => SuggestionModel::InsertAfter(v@),
            Suggestion::Remove => SuggestionModel::Remove,
        }
    }
}

/// A finding: where it is, what kind it is, what it says and how to fix it.
#[derive(Debug)]
pub struct Finding {
    pub span: Span,
    pub lint_kind: LintKind,
    pub message: String,
    pub suggestions: Vec<Suggestion>,
}

pub ghost struct FindingModel {
    pub span: Span,
    pub lint_kind: LintKind,
    pub message: Seq<char>,
    pub suggestions: Seq<SuggestionModel>,
}

pub open spec fn suggestion_models(s: Seq<Suggestion>) -> Seq<SuggestionModel> {
    s.map_values(|x: Suggestion| x@)
}

impl View for Finding {
    type V = FindingModel;

    open spec fn view(&self) -> FindingModel {
        FindingModel {
            span: self.span,
            lint_kind: self.lint_kind,
            message: self.message@,
            suggestions: suggestion_models(self.suggestions@),
        }
    }
}

pub open spec fn finding_models(s: Seq<Finding>) -> Seq<FindingModel> {
    s.map_values(|x: Finding| x@)
}

/// The category a kind is reported under.
pub open spec fn category_of(k: LintKind) -> Category {
    match k {
        LintKind::Spelling => Category::Spelling,
        LintKind::Capitalization => Category::Grammar,
        _ => Category::Style,
    }
}

/// Whether a suggestion rewrites the span with new text.
pub open spec fn is_replacement(s: SuggestionModel) -> bool {
    s is ReplaceWith
}

/// Whether a lint carries at least one replacement.
pub open spec fn has_replacement(l: FindingModel) -> bool {
    exists|i: int| 0 <= i < l.suggestions.len() && is_replacement(#[trigger] l.suggestions[i])
}

/// The texts of the replacements among `s`, in order.
pub open spec fn replacement_texts(s: Seq<SuggestionModel>) -> Seq<Seq<char>>
    decreases s.len(),
{
    if s.len() == 0 {
        Seq::empty()
    } else {
        let rest = replacement_texts(s.drop_last());
        match s.last() {
            SuggestionModel::ReplaceWith(t) => rest.push(t),
            _ => rest,
        }
    }
}

/// A finding surfaces replacement texts only if it carries a replacement.
pub proof fn lemma_texts_need_replacement(s: Seq<SuggestionModel>)
    requires
        replacement_texts(s).len() > 0,
    ensures
        exists|i: int| 0 <= i < s.len() && is_replacement(#[trigger] s[i]),
    decreases s.len(),
{
    if s.last() is ReplaceWith {
        assert(is_replacement(s[s.len() - 1]));
    } else {
        lemma_texts_need_replacement(s.drop_last());
        let i = choose|i: int| 0 <= i < s.drop_last().len() && is_replacement(#[trigger] s.drop_last()[i]);
        assert(s[i] == s.drop_last()[i]);
    }
}

impl LintKind {
    pub fn category(&self) -> (r: Category)
        ensures
            r == category_of(*self),
    {
        match self {
            LintKind::Spelling => Category::Spelling,
            LintKind::Capitalization => Category::Grammar,
            _ => Category::Style,
        }
    }
}

pub open spec fn category_label(c: Category) -> Seq<char> {
    match c {
        Category::Spelling => "spelling"@,
        Category::Grammar => "grammar"@,
        Category::Style => "style"@,
    }
}

impl Category {
    /// The lowercase name of the category.
    pub fn label(&self) -> (r: &'static str)
        ensures
            r@ == category_label(*self),
    {
        match self {
            Category::Spelling => "spelling",
            Category::Grammar => "grammar",
            Category::Style => "style",
        }
    }
}

pub fn copy_chars(v: &Vec<char>) -> (r: Vec<char>)
    ensures
        r@ == v@,
{
    let mut r: Vec<char> = Vec::new();
    let mut i: usize = 0;
    while i < v.len()
        invariant
            i <= v.len(),
            r@ == v@.subrange(0, i as int),
        decreases v.len() - i,
    {
        r.push(v[i]);
        i = i + 1;
        assert(r@ =~= v@.subrange(0, i as int));
    }
    assert(r@ =~= v@);
    r
}

impl Suggestion {
    pub fn copy(&self) -> (r: Suggestion)
        ensures
            r@ == self@,
    {
        match self {
            Suggestion::ReplaceWith(v) => Suggestion::ReplaceWith(copy_chars(v)),
            Suggestion::InsertAfter(v) => Suggestion::InsertAfter(copy_chars(v)),
            Suggestion::Remove => Suggestion::Remove,
        }
    }

    pub fn is_replacement(&self) -> (r: bool)
        ensures
            r == is_replacement(self@),
    {
        match self {
            Suggestion::ReplaceWith(_) => true,
            _ => false,
        }
    }
}

impl Finding {
    pub fn copy(&self) -> (r: Finding)
        ensures
            r@ == self@,
    {
        let mut sugg: Vec<Suggestion> = Vec::new();
        let mut i: usize = 0;
        while i < self.suggestions.len()
            invariant
                i <= self.suggestions.len(),
                sugg.len() == i,
                forall|j: int| 0 <= j < i ==> sugg@[j]@ == #[trigger] self.suggestions@[j]@,
            decreases self.suggestions.len() - i,
        {
            sugg.push(self.suggestions[i].copy());
            i = i + 1;
        }
        assert(suggestion_models(sugg@) =~= suggestion_models(self.suggestions@));
        Finding {
            span: self.span,
            lint_kind: self.lint_kind,
            message: self.message.clone(),
            suggestions: sugg,
        }
    }

    /// Whether any suggestion of this lint is a replacement.
    pub fn has_replacement(&self) -> (r: bool)
        ensures
            r == has_replacement(self@),
    {
        let mut i: usize = 0;
        while i < self.suggestions.len()
            invariant
                i <= self.suggestions.len(),
                forall|j: int| 0 <= j < i ==> !is_replacement(#[trigger] self@.suggestions[j]),
            decreases self.suggestions.len() - i,
        {
            if self.suggestions[i].is_replacement() {
                assert(is_replacement(self@.suggestions[i as int]));
                return true;
            }
            i = i + 1;
        }
        false
    }

    /// The texts of this lint's replacements, in order.
    pub fn replacements(&self) -> (r: Vec<Vec<char>>)
        ensures
            r@.map_values(|t: Vec<char>| t@) == replacement_texts(self@.suggestions),
    {
        let ghost s = self@.suggestions;
        let mut r: Vec<Vec<char>> = Vec::new();
        let mut i: usize = 0;
        while i < self.suggestions.len()
            invariant
                i <= self.suggestions.len(),
                s == self@.suggestions,
                r@.map_values(|t: Vec<char>| t@) == replacement_texts(s.subrange(0, i as int)),
            decreases self.suggestions.len() - i,
        {
            assert(s.subrange(0, i + 1).drop_last() =~= s.subrange(0, i as int));
            match &self.suggestions[i] {
                Suggestion::ReplaceWith(t) => {
                    r.push(copy_chars(t));
                    assert(r@.map_values(|t: Vec<char>| t@) =~= replacement_texts(s.subrange(0, i as int)).push(t@));
                },
                _ => {},
            }
            i = i + 1;
        }
        assert(s.subrange(0, s.len() as int) =~= s);
        r
    }
}

} // verus!
