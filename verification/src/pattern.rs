//! The pattern and template model: what a macro matches and what it
//! emits.

use vstd::prelude::*;

use crate::trie::TrieKey;

verus! {

broadcast use vstd::std_specs::vec::group_vec_axioms, vstd::seq::group_seq_axioms;

/// The three bracket kinds that block patterns match in balanced pairs.
#[derive(PartialEq, Eq, Structural, Clone, Copy, Debug)]
pub enum BlockDelimiter {
    SquareBracket,
    CurlyBracket,
    Parenthesis,
}

pub open spec fn delim_open(d: BlockDelimiter) -> char {
    match d {
        BlockDelimiter::SquareBracket => '[',
        BlockDelimiter::CurlyBracket => '{',
        BlockDelimiter::Parenthesis => '(',
    }
}

pub open spec fn delim_close(d: BlockDelimiter) -> char {
    match d {
        BlockDelimiter::SquareBracket => ']',
        BlockDelimiter::CurlyBracket => '}',
        BlockDelimiter::Parenthesis => ')',
    }
}

/// The abstract value of a pattern item.
pub ghost enum PatternModel {
    MatchToken { value: Seq<char> },
    TokenVar,
    MatchTokenVar { index: u8 },
    SequenceVar,
    BlockPattern { block_delim: BlockDelimiter, inner_pattern: Seq<PatternModel> },
}

/// One step of a macro pattern: what a matching token stream must show at
/// this position and what it binds as a new positional variable.
pub enum PatternItem {
    /// The token value at this position must equal `value` verbatim.
    MatchToken { value: String },
    /// Captures exactly one token as a new positional variable.
    TokenVar,
    /// The token value must repeat what variable `index` captured earlier.
    MatchTokenVar { index: u8 },
    /// Captures one or more contiguous tokens as a new positional variable.
    SequenceVar,
    /// The position must open a balanced bracket group of `block_delim`
    /// kind; the tokens strictly inside are matched against
    /// `inner_pattern`, and the whole group becomes one captured variable.
    BlockPattern { block_delim: BlockDelimiter, inner_pattern: Vec<PatternItem> },
}

pub open spec fn pattern_model(p: PatternItem) -> PatternModel
    decreases p, 1int,
    via pattern_model_decreases
{
    match p {
        PatternItem::MatchToken { value } => PatternModel::MatchToken { value: value@ },
        PatternItem::TokenVar => PatternModel::TokenVar,
        PatternItem::MatchTokenVar { index } => PatternModel::MatchTokenVar { index },
        PatternItem::SequenceVar => PatternModel::SequenceVar,
        PatternItem::BlockPattern { block_delim, inner_pattern } => PatternModel::BlockPattern {
            block_delim,
            inner_pattern: pattern_models_of(inner_pattern@),
        },
    }
}

/// The views of a sequence of pattern items, defined structurally.
pub open spec fn pattern_models_of(items: Seq<PatternItem>) -> Seq<PatternModel>
    decreases items, 0int,
    via pattern_models_of_decreases
{
    if items.len() == 0 {
        Seq::empty()
    } else {
        seq![pattern_model(items[0])] + pattern_models_of(items.drop_first())
    }
}

#[via_fn]
proof fn pattern_model_decreases(p: PatternItem) {
    match p {
        PatternItem::BlockPattern { block_delim, inner_pattern } => {
            assert(decreases_to!(p => inner_pattern));
            assert(decreases_to!(inner_pattern => inner_pattern@));
        },
        _ => {},
    }
}

#[via_fn]
proof fn pattern_models_of_decreases(items: Seq<PatternItem>) {
    if items.len() > 0 {
        assert(decreases_to!(items => items[0]));
        assert(items.drop_first() =~= items.subrange(1, items.len() as int));
        assert(decreases_to!(items => items.subrange(1, items.len() as int)));
    }
}

impl View for PatternItem {
    type V = PatternModel;

    open spec fn view(&self) -> PatternModel {
        pattern_model(*self)
    }
}

pub open spec fn pattern_views(items: Seq<PatternItem>) -> Seq<PatternModel> {
    items.map_values(|p: PatternItem| p@)
}

/// `pattern_models_of` is the element-wise view map.
pub proof fn lemma_pattern_models_of(items: Seq<PatternItem>)
    ensures
        pattern_models_of(items).len() == items.len(),
        forall|i: int|
            0 <= i < items.len() ==> pattern_models_of(items)[i] == pattern_model(items[i]),
        pattern_models_of(items) == pattern_views(items),
    decreases items.len(),
{
    if items.len() > 0 {
        lemma_pattern_models_of(items.drop_first());
        assert(forall|i: int|
            0 <= i < items.drop_first().len() ==> items.drop_first()[i] == items[i + 1]);
    }
    assert(pattern_models_of(items) =~= pattern_views(items));
}

/// Structural equality of pattern items, agreeing with their views.
#[verifier::loop_isolation(false)]
fn pattern_eq(a: &PatternItem, b: &PatternItem) -> (r: bool)
    ensures
        r == (a@ == b@),
    decreases *a,
{
    match (a, b) {
        (PatternItem::MatchToken { value: va }, PatternItem::MatchToken { value: vb }) => va.eq(
            vb,
        ),
        (PatternItem::TokenVar, PatternItem::TokenVar) => true,
        (
            PatternItem::MatchTokenVar { index: ia },
            PatternItem::MatchTokenVar { index: ib },
        ) => *ia == *ib,
        (PatternItem::SequenceVar, PatternItem::SequenceVar) => true,
        (
            PatternItem::BlockPattern { block_delim: da, inner_pattern: pa },
            PatternItem::BlockPattern { block_delim: db, inner_pattern: pb },
        ) => {
            proof {
                lemma_pattern_models_of(pa@);
                lemma_pattern_models_of(pb@);
            }
            if *da != *db {
                return false;
            }
            if pa.len() != pb.len() {
                return false;
            }
            let mut i: usize = 0;
            while i < pa.len()
                invariant
                    i <= pa@.len(),
                    pa@.len() == pb@.len(),
                    forall|t: int| 0 <= t < i ==> pa@[t]@ == pb@[t]@,
                decreases pa@.len() - i,
            {
                proof {
                    assert(decreases_to!(*a => a->BlockPattern_inner_pattern));
                    assert(a->BlockPattern_inner_pattern == *pa);
                    assert(decreases_to!(*pa => pa@));
                    assert(decreases_to!(pa@ => pa@[i as int]));
                }
                if !pattern_eq(&pa[i], &pb[i]) {
                    proof {
                        assert(pattern_models_of(pa@)[i as int] != pattern_models_of(
                            pb@,
                        )[i as int]);
                    }
                    return false;
                }
                i += 1;
            }
            proof {
                assert(pattern_models_of(pa@) =~= pattern_models_of(pb@));
            }
            true
        },
        _ => false,
    }
}

/// A structural copy of a pattern item with the same view.
#[verifier::loop_isolation(false)]
fn pattern_clone(a: &PatternItem) -> (r: PatternItem)
    ensures
        r@ == a@,
    decreases *a,
{
    match a {
        PatternItem::MatchToken { value } => PatternItem::MatchToken { value: value.clone() },
        PatternItem::TokenVar => PatternItem::TokenVar,
        PatternItem::MatchTokenVar { index } => PatternItem::MatchTokenVar { index: *index },
        PatternItem::SequenceVar => PatternItem::SequenceVar,
        PatternItem::BlockPattern { block_delim, inner_pattern } => {
            let mut inner: Vec<PatternItem> = Vec::new();
            let mut i: usize = 0;
            while i < inner_pattern.len()
                invariant
                    i <= inner_pattern@.len(),
                    inner@.len() == i,
                    forall|t: int| 0 <= t < i ==> inner@[t]@ == inner_pattern@[t]@,
                decreases inner_pattern@.len() - i,
            {
                proof {
                    assert(decreases_to!(*a => a->BlockPattern_inner_pattern));
                    assert(a->BlockPattern_inner_pattern == *inner_pattern);
                    assert(decreases_to!(*inner_pattern => inner_pattern@));
                    assert(decreases_to!(inner_pattern@ => inner_pattern@[i as int]));
                }
                let item = pattern_clone(&inner_pattern[i]);
                inner.push(item);
                i += 1;
            }
            let r = PatternItem::BlockPattern { block_delim: *block_delim, inner_pattern: inner };
            proof {
                lemma_pattern_models_of(inner@);
                lemma_pattern_models_of(inner_pattern@);
                assert(pattern_models_of(inner@) =~= pattern_models_of(inner_pattern@));
            }
            r
        },
    }
}

impl TrieKey for PatternItem {
    fn key_eq(&self, other: &Self) -> (b: bool) {
        pattern_eq(self, other)
    }

    fn key_clone(&self) -> (k: Self) {
        pattern_clone(self)
    }
}

/// The abstract value of a template item.
pub ghost enum TemplateItemModel {
    Text { data: Seq<char> },
    Var { index: u8 },
}

/// One item of a macro's output template.
pub enum TemplateItem {
    /// Literal characters reproduced exactly in the rendered output.
    Text { data: String },
    /// The text captured by positional variable `index`, reproduced
    /// verbatim as it was read from the input.
    Var { index: u8 },
}

impl View for TemplateItem {
    type V = TemplateItemModel;

    open spec fn view(&self) -> TemplateItemModel {
        match self {
            TemplateItem::Text { data } => TemplateItemModel::Text { data: data@ },
            TemplateItem::Var { index } => TemplateItemModel::Var { index: *index },
        }
    }
}

/// A macro's output template: the ordered items rendered on expansion.
pub type Template = Vec<TemplateItem>;

pub open spec fn template_views(t: Seq<TemplateItem>) -> Seq<TemplateItemModel> {
    t.map_values(|x: TemplateItem| x@)
}

} // verus!
