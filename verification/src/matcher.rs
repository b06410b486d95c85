//! The matching engine: walking a token stream against the pattern trie
//! with captures, back-references, balanced blocks and greedy sequence
//! runs, and rendering the matched templates.

use vstd::prelude::*;

use crate::pattern::{
    delim_close, delim_open, BlockDelimiter, PatternItem, Template, TemplateItem,
};
use crate::tokenizer::{flatten_tokens, token_views, Token, TokenModel};
use crate::trie::{HashTrieNode, TrieEdge};

verus! {

broadcast use vstd::std_specs::vec::group_vec_axioms, vstd::seq::group_seq_axioms;

/// The literal text of the token span `[lo, hi)`: the values and suffixes
/// of all its tokens except that the final token contributes its value
/// only, so a capture carries its internal whitespace but not the
/// separators that follow it.
pub open spec fn span_text(toks: Seq<TokenModel>, lo: int, hi: int) -> Seq<char>
    decreases hi - lo,
{
    if lo < 0 || hi > toks.len() || lo >= hi {
        Seq::empty()
    } else if lo == hi - 1 {
        toks[lo].value
    } else {
        toks[lo].value + toks[lo].suffix + span_text(toks, lo + 1, hi)
    }
}

/// All spans lie inside the token stream and are nonempty.
pub open spec fn spans_ok(vars: Seq<(int, int)>, n: int) -> bool {
    forall|i: int| 0 <= i < vars.len() ==> 0 <= (#[trigger] vars[i]).0 < vars[i].1 <= n
}

/// The bracket kind that a one-character token value opens, if any.
pub open spec fn open_delim_of(v: Seq<char>) -> Option<BlockDelimiter> {
    if v == seq!['('] {
        Some(BlockDelimiter::Parenthesis)
    } else if v == seq!['['] {
        Some(BlockDelimiter::SquareBracket)
    } else if v == seq!['{'] {
        Some(BlockDelimiter::CurlyBracket)
    } else {
        None
    }
}

/// The position of the closing bracket that balances an already-open
/// bracket of kind `d`, scanning `[i, end)` at nesting `depth` and
/// counting only this one delimiter kind.
pub open spec fn find_close(
    toks: Seq<TokenModel>,
    i: int,
    end: int,
    d: BlockDelimiter,
    depth: int,
) -> Option<int>
    decreases end - i,
{
    if i < 0 || i >= end || end > toks.len() {
        None
    } else if toks[i].value == seq![delim_close(d)] {
        if depth <= 1 {
            Some(i)
        } else {
            find_close(toks, i + 1, end, d, depth - 1)
        }
    } else if toks[i].value == seq![delim_open(d)] {
        find_close(toks, i + 1, end, d, depth + 1)
    } else {
        find_close(toks, i + 1, end, d, depth)
    }
}

pub proof fn lemma_find_close_bounds(
    toks: Seq<TokenModel>,
    i: int,
    end: int,
    d: BlockDelimiter,
    depth: int,
)
    ensures
        match find_close(toks, i, end, d, depth) {
            Some(c) => i <= c < end && end <= toks.len(),
            None => true,
        },
    decreases end - i,
{
    if 0 <= i < end && end <= toks.len() {
        lemma_find_close_bounds(toks, i + 1, end, d, depth - 1);
        lemma_find_close_bounds(toks, i + 1, end, d, depth + 1);
        lemma_find_close_bounds(toks, i + 1, end, d, depth);
    }
}

/// The first edge of the arena satisfying `pred`, in storage order.
pub open spec fn find_first<K, V>(
    edges: Seq<TrieEdge<K, V>>,
    pred: spec_fn(TrieEdge<K, V>) -> bool,
) -> Option<TrieEdge<K, V>>
    decreases edges.len(),
{
    if edges.len() == 0 {
        None
    } else if pred(edges[0]) {
        Some(edges[0])
    } else {
        find_first(edges.drop_first(), pred)
    }
}

/// A scan that saw no satisfying edge before `i` agrees with `find_first`.
pub proof fn lemma_find_first_scan<K, V>(
    edges: Seq<TrieEdge<K, V>>,
    pred: spec_fn(TrieEdge<K, V>) -> bool,
    i: int,
)
    requires
        0 <= i <= edges.len(),
        forall|j: int| 0 <= j < i ==> !pred(#[trigger] edges[j]),
    ensures
        i < edges.len() && pred(edges[i]) ==> find_first(edges, pred) == Some(edges[i]),
        i == edges.len() ==> find_first(edges, pred) is None,
    decreases edges.len(),
{
    if edges.len() > 0 {
        if !pred(edges[0]) {
            let rest = edges.drop_first();
            assert(forall|j: int| 0 <= j < rest.len() ==> rest[j] == edges[j + 1]);
            lemma_find_first_scan(rest, pred, if i >= 1 {
                i - 1
            } else {
                0
            });
        }
    }
}

pub open spec fn mt_pred(n: u32, val: Seq<char>) -> spec_fn(TrieEdge<PatternItem, Template>) -> bool {
    |e: TrieEdge<PatternItem, Template>|
        e.from == n && match e.key {
            PatternItem::MatchToken { value } => value@ == val,
            _ => false,
        }
}

pub open spec fn mtv_pred(n: u32, i: u8) -> spec_fn(TrieEdge<PatternItem, Template>) -> bool {
    |e: TrieEdge<PatternItem, Template>|
        e.from == n && match e.key {
            PatternItem::MatchTokenVar { index } => index == i,
            _ => false,
        }
}

pub open spec fn tv_pred(n: u32) -> spec_fn(TrieEdge<PatternItem, Template>) -> bool {
    |e: TrieEdge<PatternItem, Template>| e.from == n && (e.key matches PatternItem::TokenVar)
}

pub open spec fn sv_pred(n: u32) -> spec_fn(TrieEdge<PatternItem, Template>) -> bool {
    |e: TrieEdge<PatternItem, Template>| e.from == n && (e.key matches PatternItem::SequenceVar)
}

pub open spec fn block_pred(n: u32, d: BlockDelimiter) -> spec_fn(
    TrieEdge<PatternItem, Template>,
) -> bool {
    |e: TrieEdge<PatternItem, Template>|
        e.from == n && match e.key {
            PatternItem::BlockPattern { block_delim, .. } => block_delim == d,
            _ => false,
        }
}

/// The first back-reference edge from `n`, trying captured variables in
/// index order, that an already-captured text equal to `tval` satisfies.
pub open spec fn find_backref_edge(
    edges: Seq<TrieEdge<PatternItem, Template>>,
    n: u32,
    toks: Seq<TokenModel>,
    vars: Seq<(int, int)>,
    tval: Seq<char>,
    i: int,
) -> Option<TrieEdge<PatternItem, Template>>
    decreases 256 - i,
{
    if i < 0 || i >= vars.len() || i > 255 {
        None
    } else if find_first(edges, mtv_pred(n, i as u8)) is Some && span_text(
        toks,
        vars[i].0,
        vars[i].1,
    ) == tval {
        find_first(edges, mtv_pred(n, i as u8))
    } else {
        find_backref_edge(edges, n, toks, vars, tval, i + 1)
    }
}

/// The inner pattern of a block-pattern key.
pub open spec fn block_inner(k: PatternItem) -> Seq<PatternItem> {
    match k {
        PatternItem::BlockPattern { inner_pattern, .. } => inner_pattern@,
        _ => Seq::empty(),
    }
}

/// A successful match: the position just past the consumed span, the
/// captured variable spans, and the matched macro's template.
pub ghost struct MatchResult {
    pub end: int,
    pub vars: Seq<(int, int)>,
    pub template: Seq<TemplateItem>,
}

/// One matching step of the expander at trie node `n` and position `pos`:
/// inspect the outgoing edges and take, in strict priority order, a
/// literal-token edge, an eligible back-reference edge, a block edge whose
/// bracket kind the current token opens and whose close exists, a
/// one-token capture edge, or a greedy multi-token capture edge. Reaching
/// a leaf completes the match with that leaf's template.
pub open spec fn match_at(
    edges: Seq<TrieEdge<PatternItem, Template>>,
    n: u32,
    toks: Seq<TokenModel>,
    pos: int,
    vars: Seq<(int, int)>,
) -> Option<MatchResult>
    decreases toks.len() - pos, 2int, 0int,
    via match_at_decreases
{
    if pos < 0 || pos >= toks.len() {
        None
    } else {
        let t = toks[pos];
        if find_first(edges, mt_pred(n, t.value)) is Some {
            let e = find_first(edges, mt_pred(n, t.value)).unwrap();
            match e.node {
                HashTrieNode::Leaf { value } => Some(
                    MatchResult { end: pos + 1, vars, template: value@ },
                ),
                HashTrieNode::Branch { id } => match_at(edges, id, toks, pos + 1, vars),
            }
        } else if find_backref_edge(edges, n, toks, vars, t.value, 0) is Some {
            let e = find_backref_edge(edges, n, toks, vars, t.value, 0).unwrap();
            match e.node {
                HashTrieNode::Leaf { value } => Some(
                    MatchResult { end: pos + 1, vars, template: value@ },
                ),
                HashTrieNode::Branch { id } => match_at(edges, id, toks, pos + 1, vars),
            }
        } else if open_delim_of(t.value) is Some && find_first(
            edges,
            block_pred(n, open_delim_of(t.value).unwrap()),
        ) is Some && find_close(
            toks,
            pos + 1,
            toks.len() as int,
            open_delim_of(t.value).unwrap(),
            1,
        ) is Some {
            let d = open_delim_of(t.value).unwrap();
            let e = find_first(edges, block_pred(n, d)).unwrap();
            let c = find_close(toks, pos + 1, toks.len() as int, d, 1).unwrap();
            match match_seq(block_inner(e.key), toks, pos + 1, c, vars) {
                Some(vars2) => {
                    let vars3 = vars2.push((pos, c + 1));
                    match e.node {
                        HashTrieNode::Leaf { value } => Some(
                            MatchResult { end: c + 1, vars: vars3, template: value@ },
                        ),
                        HashTrieNode::Branch { id } => match_at(edges, id, toks, c + 1, vars3),
                    }
                },
                None => None,
            }
        } else if find_first(edges, tv_pred(n)) is Some {
            let e = find_first(edges, tv_pred(n)).unwrap();
            let vars2 = vars.push((pos, pos + 1));
            match e.node {
                HashTrieNode::Leaf { value } => Some(
                    MatchResult { end: pos + 1, vars: vars2, template: value@ },
                ),
                HashTrieNode::Branch { id } => match_at(edges, id, toks, pos + 1, vars2),
            }
        } else if find_first(edges, sv_pred(n)) is Some {
            let e = find_first(edges, sv_pred(n)).unwrap();
            sv_try_at(edges, e, toks, pos, vars, toks.len() - pos)
        } else {
            None
        }
    }
}

/// Greedy capture for a sequence variable on the trie walk: try run
/// lengths from `l` downwards, taking the first for which the rest of the
/// pattern matches.
pub open spec fn sv_try_at(
    edges: Seq<TrieEdge<PatternItem, Template>>,
    e: TrieEdge<PatternItem, Template>,
    toks: Seq<TokenModel>,
    pos: int,
    vars: Seq<(int, int)>,
    l: int,
) -> Option<MatchResult>
    decreases toks.len() - pos, 1int, l,
{
    if l < 1 || pos < 0 || pos + l > toks.len() {
        None
    } else {
        let vars2 = vars.push((pos, pos + l));
        let attempt = match e.node {
            HashTrieNode::Leaf { value } => Some(
                MatchResult { end: pos + l, vars: vars2, template: value@ },
            ),
            HashTrieNode::Branch { id } => match_at(edges, id, toks, pos + l, vars2),
        };
        if attempt is Some {
            attempt
        } else {
            sv_try_at(edges, e, toks, pos, vars, l - 1)
        }
    }
}

#[via_fn]
proof fn match_at_decreases(
    edges: Seq<TrieEdge<PatternItem, Template>>,
    n: u32,
    toks: Seq<TokenModel>,
    pos: int,
    vars: Seq<(int, int)>,
) {
    if 0 <= pos < toks.len() {
        match open_delim_of(toks[pos].value) {
            Some(d) => {
                lemma_find_close_bounds(toks, pos + 1, toks.len() as int, d, 1);
            },
            None => {},
        }
    }
}

/// Matching a pattern sequence against exactly the token range
/// `[pos, end)`: each item must consume tokens as the expander's priority
/// steps do, and the range must be consumed completely.
pub open spec fn match_seq(
    pat: Seq<PatternItem>,
    toks: Seq<TokenModel>,
    pos: int,
    end: int,
    vars: Seq<(int, int)>,
) -> Option<Seq<(int, int)>>
    decreases end - pos, 2int, 0int,
    via match_seq_decreases
{
    if pat.len() == 0 {
        if pos == end {
            Some(vars)
        } else {
            None
        }
    } else if pos < 0 || pos >= end || end > toks.len() {
        None
    } else {
        let t = toks[pos];
        match pat[0] {
            PatternItem::MatchToken { value } => if t.value == value@ {
                match_seq(pat.drop_first(), toks, pos + 1, end, vars)
            } else {
                None
            },
            PatternItem::TokenVar => match_seq(
                pat.drop_first(),
                toks,
                pos + 1,
                end,
                vars.push((pos, pos + 1)),
            ),
            PatternItem::MatchTokenVar { index } => if index < vars.len() && span_text(
                toks,
                vars[index as int].0,
                vars[index as int].1,
            ) == t.value {
                match_seq(pat.drop_first(), toks, pos + 1, end, vars)
            } else {
                None
            },
            PatternItem::SequenceVar => sv_try_seq(
                pat.drop_first(),
                toks,
                pos,
                end,
                vars,
                end - pos,
            ),
            PatternItem::BlockPattern { block_delim, inner_pattern } => {
                if t.value == seq![delim_open(block_delim)] {
                    match find_close(toks, pos + 1, end, block_delim, 1) {
                        Some(c) => match match_seq(inner_pattern@, toks, pos + 1, c, vars) {
                            Some(vars2) => match_seq(
                                pat.drop_first(),
                                toks,
                                c + 1,
                                end,
                                vars2.push((pos, c + 1)),
                            ),
                            None => None,
                        },
                        None => None,
                    }
                } else {
                    None
                }
            },
        }
    }
}

/// Greedy capture for a sequence variable inside a pattern sequence.
pub open spec fn sv_try_seq(
    rest: Seq<PatternItem>,
    toks: Seq<TokenModel>,
    pos: int,
    end: int,
    vars: Seq<(int, int)>,
    l: int,
) -> Option<Seq<(int, int)>>
    decreases end - pos, 1int, l,
{
    if l < 1 || pos < 0 || pos + l > end {
        None
    } else {
        match match_seq(rest, toks, pos + l, end, vars.push((pos, pos + l))) {
            Some(v) => Some(v),
            None => sv_try_seq(rest, toks, pos, end, vars, l - 1),
        }
    }
}

#[via_fn]
proof fn match_seq_decreases(
    pat: Seq<PatternItem>,
    toks: Seq<TokenModel>,
    pos: int,
    end: int,
    vars: Seq<(int, int)>,
) {
    if pat.len() > 0 && 0 <= pos < end && end <= toks.len() {
        match pat[0] {
            PatternItem::BlockPattern { block_delim, .. } => {
                lemma_find_close_bounds(toks, pos + 1, end, block_delim, 1);
            },
            _ => {},
        }
    }
}

/// The rendering of a template: literal text is copied, and a variable
/// reproduces its captured span verbatim (an out-of-range variable index
/// renders as nothing).
pub open spec fn render(
    tpl: Seq<TemplateItem>,
    toks: Seq<TokenModel>,
    vars: Seq<(int, int)>,
) -> Seq<char>
    decreases tpl.len(),
{
    if tpl.len() == 0 {
        Seq::empty()
    } else {
        (match tpl[0] {
            TemplateItem::Text { data } => data@,
            TemplateItem::Var { index } => if index < vars.len() {
                span_text(toks, vars[index as int].0, vars[index as int].1)
            } else {
                Seq::empty()
            },
        }) + render(tpl.drop_first(), toks, vars)
    }
}

/// Every successful match consumes at least one token, ends within the
/// stream, and returns well-placed capture spans.
pub proof fn lemma_match_at_ok(
    edges: Seq<TrieEdge<PatternItem, Template>>,
    n: u32,
    toks: Seq<TokenModel>,
    pos: int,
    vars: Seq<(int, int)>,
)
    requires
        spans_ok(vars, toks.len() as int),
    ensures
        match match_at(edges, n, toks, pos, vars) {
            Some(r) => pos < r.end <= toks.len() && spans_ok(r.vars, toks.len() as int),
            None => true,
        },
    decreases toks.len() - pos, 2int, 0int,
{
    if 0 <= pos < toks.len() {
        let t = toks[pos];
        if find_first(edges, mt_pred(n, t.value)) is Some {
            let e = find_first(edges, mt_pred(n, t.value)).unwrap();
            match e.node {
                HashTrieNode::Branch { id } => {
                    lemma_match_at_ok(edges, id, toks, pos + 1, vars);
                },
                _ => {},
            }
        } else if find_backref_edge(edges, n, toks, vars, t.value, 0) is Some {
            let e = find_backref_edge(edges, n, toks, vars, t.value, 0).unwrap();
            match e.node {
                HashTrieNode::Branch { id } => {
                    lemma_match_at_ok(edges, id, toks, pos + 1, vars);
                },
                _ => {},
            }
        } else if open_delim_of(t.value) is Some && find_first(
            edges,
            block_pred(n, open_delim_of(t.value).unwrap()),
        ) is Some && find_close(
            toks,
            pos + 1,
            toks.len() as int,
            open_delim_of(t.value).unwrap(),
            1,
        ) is Some {
            let d = open_delim_of(t.value).unwrap();
            let e = find_first(edges, block_pred(n, d)).unwrap();
            let c = find_close(toks, pos + 1, toks.len() as int, d, 1).unwrap();
            lemma_find_close_bounds(toks, pos + 1, toks.len() as int, d, 1);
            lemma_match_seq_ok(block_inner(e.key), toks, pos + 1, c, vars);
            match match_seq(block_inner(e.key), toks, pos + 1, c, vars) {
                Some(vars2) => {
                    let vars3 = vars2.push((pos, c + 1));
                    assert(spans_ok(vars3, toks.len() as int));
                    match e.node {
                        HashTrieNode::Branch { id } => {
                            lemma_match_at_ok(edges, id, toks, c + 1, vars3);
                        },
                        _ => {},
                    }
                },
                None => {},
            }
        } else if find_first(edges, tv_pred(n)) is Some {
            let e = find_first(edges, tv_pred(n)).unwrap();
            let vars2 = vars.push((pos, pos + 1));
            assert(spans_ok(vars2, toks.len() as int));
            match e.node {
                HashTrieNode::Branch { id } => {
                    lemma_match_at_ok(edges, id, toks, pos + 1, vars2);
                },
                _ => {},
            }
        } else if find_first(edges, sv_pred(n)) is Some {
            let e = find_first(edges, sv_pred(n)).unwrap();
            lemma_sv_try_at_ok(edges, e, toks, pos, vars, toks.len() - pos);
        }
    }
}

pub proof fn lemma_sv_try_at_ok(
    edges: Seq<TrieEdge<PatternItem, Template>>,
    e: TrieEdge<PatternItem, Template>,
    toks: Seq<TokenModel>,
    pos: int,
    vars: Seq<(int, int)>,
    l: int,
)
    requires
        spans_ok(vars, toks.len() as int),
    ensures
        match sv_try_at(edges, e, toks, pos, vars, l) {
            Some(r) => pos < r.end <= toks.len() && spans_ok(r.vars, toks.len() as int),
            None => true,
        },
    decreases toks.len() - pos, 1int, l,
{
    if l >= 1 && pos >= 0 && pos + l <= toks.len() {
        let vars2 = vars.push((pos, pos + l));
        assert(spans_ok(vars2, toks.len() as int));
        match e.node {
            HashTrieNode::Branch { id } => {
                lemma_match_at_ok(edges, id, toks, pos + l, vars2);
            },
            _ => {},
        }
        lemma_sv_try_at_ok(edges, e, toks, pos, vars, l - 1);
    }
}

pub proof fn lemma_match_seq_ok(
    pat: Seq<PatternItem>,
    toks: Seq<TokenModel>,
    pos: int,
    end: int,
    vars: Seq<(int, int)>,
)
    requires
        spans_ok(vars, toks.len() as int),
    ensures
        match match_seq(pat, toks, pos, end, vars) {
            Some(v) => spans_ok(v, toks.len() as int),
            None => true,
        },
    decreases end - pos, 2int, 0int,
{
    if pat.len() == 0 {
    } else if 0 <= pos < end && end <= toks.len() {
        let t = toks[pos];
        match pat[0] {
            PatternItem::MatchToken { value } => {
                if t.value == value@ {
                    lemma_match_seq_ok(pat.drop_first(), toks, pos + 1, end, vars);
                }
            },
            PatternItem::TokenVar => {
                let vars2 = vars.push((pos, pos + 1));
                assert(spans_ok(vars2, toks.len() as int));
                lemma_match_seq_ok(pat.drop_first(), toks, pos + 1, end, vars2);
            },
            PatternItem::MatchTokenVar { index } => {
                if index < vars.len() && span_text(
                    toks,
                    vars[index as int].0,
                    vars[index as int].1,
                ) == t.value {
                    lemma_match_seq_ok(pat.drop_first(), toks, pos + 1, end, vars);
                }
            },
            PatternItem::SequenceVar => {
                lemma_sv_try_seq_ok(pat.drop_first(), toks, pos, end, vars, end - pos);
            },
            PatternItem::BlockPattern { block_delim, inner_pattern } => {
                if t.value == seq![delim_open(block_delim)] {
                    match find_close(toks, pos + 1, end, block_delim, 1) {
                        Some(c) => {
                            lemma_find_close_bounds(toks, pos + 1, end, block_delim, 1);
                            lemma_match_seq_ok(inner_pattern@, toks, pos + 1, c, vars);
                            match match_seq(inner_pattern@, toks, pos + 1, c, vars) {
                                Some(vars2) => {
                                    let vars3 = vars2.push((pos, c + 1));
                                    assert(spans_ok(vars3, toks.len() as int));
                                    lemma_match_seq_ok(
                                        pat.drop_first(),
                                        toks,
                                        c + 1,
                                        end,
                                        vars3,
                                    );
                                },
                                None => {},
                            }
                        },
                        None => {},
                    }
                }
            },
        }
    }
}

pub proof fn lemma_sv_try_seq_ok(
    rest: Seq<PatternItem>,
    toks: Seq<TokenModel>,
    pos: int,
    end: int,
    vars: Seq<(int, int)>,
    l: int,
)
    requires
        spans_ok(vars, toks.len() as int),
        end <= toks.len(),
    ensures
        match sv_try_seq(rest, toks, pos, end, vars, l) {
            Some(v) => spans_ok(v, toks.len() as int),
            None => true,
        },
    decreases end - pos, 1int, l,
{
    if l >= 1 && pos >= 0 && pos + l <= end {
        let vars2 = vars.push((pos, pos + l));
        assert(spans_ok(vars2, toks.len() as int));
        lemma_match_seq_ok(rest, toks, pos + l, end, vars2);
        lemma_sv_try_seq_ok(rest, toks, pos, end, vars, l - 1);
    }
}

/// The full expansion of a token stream from position `pos`: at each
/// position, either a macro matches and its rendered template is emitted
/// with expansion resuming after the consumed span, or the single token is
/// emitted verbatim (value and suffix) and expansion moves on by one.
/// Rendered output is never re-matched.
pub open spec fn spec_expand(
    edges: Seq<TrieEdge<PatternItem, Template>>,
    toks: Seq<TokenModel>,
    pos: int,
) -> Seq<char>
    decreases toks.len() - pos,
    via spec_expand_decreases
{
    if pos < 0 || pos >= toks.len() {
        Seq::empty()
    } else {
        match match_at(edges, 0, toks, pos, Seq::empty()) {
            Some(r) => render(r.template, toks, r.vars) + spec_expand(edges, toks, r.end),
            None => toks[pos].value + toks[pos].suffix + spec_expand(edges, toks, pos + 1),
        }
    }
}

#[via_fn]
proof fn spec_expand_decreases(
    edges: Seq<TrieEdge<PatternItem, Template>>,
    toks: Seq<TokenModel>,
    pos: int,
) {
    assert(spans_ok(Seq::empty(), toks.len() as int));
    lemma_match_at_ok(edges, 0, toks, pos, Seq::empty());
}

proof fn lemma_backref_empty(
    n: u32,
    toks: Seq<TokenModel>,
    vars: Seq<(int, int)>,
    tval: Seq<char>,
    i: int,
)
    ensures
        find_backref_edge(Seq::empty(), n, toks, vars, tval, i) is None,
    decreases 256 - i,
{
    if !(i < 0 || i >= vars.len() || i > 255) {
        lemma_backref_empty(n, toks, vars, tval, i + 1);
    }
}

/// Over an empty arena nothing ever matches.
pub proof fn lemma_match_at_empty(
    n: u32,
    toks: Seq<TokenModel>,
    pos: int,
    vars: Seq<(int, int)>,
)
    ensures
        match_at(Seq::empty(), n, toks, pos, vars) is None,
{
    if 0 <= pos < toks.len() {
        lemma_backref_empty(n, toks, vars, toks[pos].value, 0);
    }
}

/// Pass-through: where no macro matches at any position, expansion emits
/// the token stream unchanged, every value and suffix included.
pub proof fn lemma_no_match_passthrough(
    edges: Seq<TrieEdge<PatternItem, Template>>,
    toks: Seq<TokenModel>,
    pos: int,
)
    requires
        0 <= pos <= toks.len(),
        forall|p: int|
            pos <= p < toks.len() ==> (#[trigger] match_at(
                edges,
                0,
                toks,
                p,
                Seq::empty(),
            )) is None,
    ensures
        spec_expand(edges, toks, pos) == flatten_tokens(toks.skip(pos)),
    decreases toks.len() - pos,
{
    if pos >= toks.len() {
        assert(toks.skip(pos) =~= Seq::<TokenModel>::empty());
    } else {
        lemma_no_match_passthrough(edges, toks, pos + 1);
        let rem = toks.skip(pos);
        assert(rem.len() > 0);
        assert(rem[0] == toks[pos]);
        assert(rem.drop_first() =~= toks.skip(pos + 1));
        assert(flatten_tokens(rem) == rem[0].value + rem[0].suffix + flatten_tokens(
            rem.drop_first(),
        ));
    }
}

/// The spans of captured variables as mathematical pairs.
pub open spec fn span_views(vars: Seq<(usize, usize)>) -> Seq<(int, int)> {
    vars.map_values(|s: (usize, usize)| (s.0 as int, s.1 as int))
}

/// A successful executable match: the end position, the capture spans, and
/// the arena index of the leaf edge holding the matched template.
pub struct MatchHit {
    pub end: usize,
    pub vars: Vec<(usize, usize)>,
    pub tpl: usize,
}

fn copy_spans(v: &Vec<(usize, usize)>) -> (r: Vec<(usize, usize)>)
    ensures
        r@ == v@,
{
    let mut r: Vec<(usize, usize)> = Vec::new();
    let mut i: usize = 0;
    while i < v.len()
        invariant
            i <= v@.len(),
            r@ == v@.take(i as int),
        decreases v@.len() - i,
    {
        r.push(v[i]);
        proof {
            assert(v@.take(i as int).push(v@[i as int]) =~= v@.take(i as int + 1));
        }
        i += 1;
    }
    proof {
        assert(v@.take(v@.len() as int) =~= v@);
    }
    r
}

/// Whether a token value is exactly the one-character text `c`.
pub(crate) fn is_char_token(v: &String, c: char) -> (r: bool)
    ensures
        r == (v@ == seq![c]),
{
    let n = v.as_str().unicode_len();
    if n != 1 {
        proof {
            assert(seq![c].len() == 1);
        }
        false
    } else {
        let c0 = v.as_str().get_char(0);
        proof {
            if c0 == c {
                assert(v@ =~= seq![c]);
            }
        }
        c0 == c
    }
}

fn delim_open_exec(d: BlockDelimiter) -> (c: char)
    ensures
        c == delim_open(d),
{
    match d {
        BlockDelimiter::SquareBracket => '[',
        BlockDelimiter::CurlyBracket => '{',
        BlockDelimiter::Parenthesis => '(',
    }
}

fn delim_close_exec(d: BlockDelimiter) -> (c: char)
    ensures
        c == delim_close(d),
{
    match d {
        BlockDelimiter::SquareBracket => ']',
        BlockDelimiter::CurlyBracket => '}',
        BlockDelimiter::Parenthesis => ')',
    }
}

fn exec_open_delim(v: &String) -> (r: Option<BlockDelimiter>)
    ensures
        r == open_delim_of(v@),
{
    if is_char_token(v, '(') {
        Some(BlockDelimiter::Parenthesis)
    } else if is_char_token(v, '[') {
        Some(BlockDelimiter::SquareBracket)
    } else if is_char_token(v, '{') {
        Some(BlockDelimiter::CurlyBracket)
    } else {
        None
    }
}

#[verifier::loop_isolation(false)]
fn exec_find_mt(edges: &Vec<TrieEdge<PatternItem, Template>>, n: u32, val: &String) -> (r: Option<
    usize,
>)
    ensures
        ({
            let f = find_first(edges@, mt_pred(n, val@));
            match r {
                Some(i) => i < edges@.len() && f == Some(edges@[i as int]),
                None => f is None,
            }
        }),
{
    let ghost pred = mt_pred(n, val@);
    let mut i: usize = 0;
    loop
        invariant
            i <= edges@.len(),
            forall|j: int| 0 <= j < i ==> !pred(#[trigger] edges@[j]),
        decreases edges@.len() - i,
    {
        if i >= edges.len() {
            proof {
                lemma_find_first_scan(edges@, pred, i as int);
            }
            return None;
        }
        let same_from = edges[i].from == n;
        let matched = same_from && (match &edges[i].key {
            PatternItem::MatchToken { value } => value.eq(val),
            _ => false,
        });
        if matched {
            proof {
                assert(pred(edges@[i as int]));
                lemma_find_first_scan(edges@, pred, i as int);
            }
            return Some(i);
        }
        proof {
            assert(!pred(edges@[i as int]));
        }
        i += 1;
    }
}

#[verifier::loop_isolation(false)]
fn exec_find_mtv(edges: &Vec<TrieEdge<PatternItem, Template>>, n: u32, want: u8) -> (r: Option<
    usize,
>)
    ensures
        ({
            let f = find_first(edges@, mtv_pred(n, want));
            match r {
                Some(i) => i < edges@.len() && f == Some(edges@[i as int]),
                None => f is None,
            }
        }),
{
    let ghost pred = mtv_pred(n, want);
    let mut i: usize = 0;
    loop
        invariant
            i <= edges@.len(),
            forall|j: int| 0 <= j < i ==> !pred(#[trigger] edges@[j]),
        decreases edges@.len() - i,
    {
        if i >= edges.len() {
            proof {
                lemma_find_first_scan(edges@, pred, i as int);
            }
            return None;
        }
        let same_from = edges[i].from == n;
        let matched = same_from && (match &edges[i].key {
            PatternItem::MatchTokenVar { index } => *index == want,
            _ => false,
        });
        if matched {
            proof {
                assert(pred(edges@[i as int]));
                lemma_find_first_scan(edges@, pred, i as int);
            }
            return Some(i);
        }
        proof {
            assert(!pred(edges@[i as int]));
        }
        i += 1;
    }
}

#[verifier::loop_isolation(false)]
fn exec_find_tv(edges: &Vec<TrieEdge<PatternItem, Template>>, n: u32) -> (r: Option<usize>)
    ensures
        ({
            let f = find_first(edges@, tv_pred(n));
            match r {
                Some(i) => i < edges@.len() && f == Some(edges@[i as int]),
                None => f is None,
            }
        }),
{
    let ghost pred = tv_pred(n);
    let mut i: usize = 0;
    loop
        invariant
            i <= edges@.len(),
            forall|j: int| 0 <= j < i ==> !pred(#[trigger] edges@[j]),
        decreases edges@.len() - i,
    {
        if i >= edges.len() {
            proof {
                lemma_find_first_scan(edges@, pred, i as int);
            }
            return None;
        }
        let same_from = edges[i].from == n;
        let matched = same_from && (match &edges[i].key {
            PatternItem::TokenVar => true,
            _ => false,
        });
        if matched {
            proof {
                assert(pred(edges@[i as int]));
                lemma_find_first_scan(edges@, pred, i as int);
            }
            return Some(i);
        }
        proof {
            assert(!pred(edges@[i as int]));
        }
        i += 1;
    }
}

#[verifier::loop_isolation(false)]
fn exec_find_sv(edges: &Vec<TrieEdge<PatternItem, Template>>, n: u32) -> (r: Option<usize>)
    ensures
        ({
            let f = find_first(edges@, sv_pred(n));
            match r {
                Some(i) => i < edges@.len() && f == Some(edges@[i as int]),
                None => f is None,
            }
        }),
{
    let ghost pred = sv_pred(n);
    let mut i: usize = 0;
    loop
        invariant
            i <= edges@.len(),
            forall|j: int| 0 <= j < i ==> !pred(#[trigger] edges@[j]),
        decreases edges@.len() - i,
    {
        if i >= edges.len() {
            proof {
                lemma_find_first_scan(edges@, pred, i as int);
            }
            return None;
        }
        let same_from = edges[i].from == n;
        let matched = same_from && (match &edges[i].key {
            PatternItem::SequenceVar => true,
            _ => false,
        });
        if matched {
            proof {
                assert(pred(edges@[i as int]));
                lemma_find_first_scan(edges@, pred, i as int);
            }
            return Some(i);
        }
        proof {
            assert(!pred(edges@[i as int]));
        }
        i += 1;
    }
}

#[verifier::loop_isolation(false)]
fn exec_find_block(edges: &Vec<TrieEdge<PatternItem, Template>>, n: u32, d: BlockDelimiter) -> (r:
    Option<usize>)
    ensures
        ({
            let f = find_first(edges@, block_pred(n, d));
            match r {
                Some(i) => i < edges@.len() && f == Some(edges@[i as int]) && (
                edges@[i as int].key matches PatternItem::BlockPattern { .. }),
                None => f is None,
            }
        }),
{
    let ghost pred = block_pred(n, d);
    let mut i: usize = 0;
    loop
        invariant
            i <= edges@.len(),
            forall|j: int| 0 <= j < i ==> !pred(#[trigger] edges@[j]),
        decreases edges@.len() - i,
    {
        if i >= edges.len() {
            proof {
                lemma_find_first_scan(edges@, pred, i as int);
            }
            return None;
        }
        let same_from = edges[i].from == n;
        let matched = same_from && (match &edges[i].key {
            PatternItem::BlockPattern { block_delim, .. } => *block_delim == d,
            _ => false,
        });
        if matched {
            proof {
                assert(pred(edges@[i as int]));
                lemma_find_first_scan(edges@, pred, i as int);
            }
            return Some(i);
        }
        proof {
            assert(!pred(edges@[i as int]));
        }
        i += 1;
    }
}

/// The first eligible back-reference edge, trying variable indexes in
/// ascending order.
#[verifier::loop_isolation(false)]
fn exec_find_backref(
    edges: &Vec<TrieEdge<PatternItem, Template>>,
    n: u32,
    toks: &Vec<Token>,
    vars: &Vec<(usize, usize)>,
    val: &String,
) -> (r: Option<usize>)
    requires
        spans_ok(span_views(vars@), toks@.len() as int),
    ensures
        ({
            let f = find_backref_edge(
                edges@,
                n,
                token_views(toks@),
                span_views(vars@),
                val@,
                0,
            );
            match r {
                Some(i) => i < edges@.len() && f == Some(edges@[i as int]),
                None => f is None,
            }
        }),
{
    let ghost tv = token_views(toks@);
    let ghost vs = span_views(vars@);
    let mut i: usize = 0;
    loop
        invariant
            i <= 256,
            find_backref_edge(edges@, n, tv, vs, val@, 0) == find_backref_edge(
                edges@,
                n,
                tv,
                vs,
                val@,
                i as int,
            ),
        decreases 256 - i,
    {
        if i >= vars.len() || i > 255 {
            return None;
        }
        proof {
            assert(vs[i as int] == (vars@[i as int].0 as int, vars@[i as int].1 as int));
        }
        match exec_find_mtv(edges, n, i as u8) {
            Some(idx) => {
                let span = vars[i];
                let cap = span_to_string(toks, span.0, span.1);
                if cap.eq(val) {
                    return Some(idx);
                }
            },
            None => {},
        }
        i += 1;
    }
}

/// Balanced-bracket scan restricted to one delimiter kind.
#[verifier::loop_isolation(false)]
fn exec_find_close(toks: &Vec<Token>, start: usize, end: usize, d: BlockDelimiter) -> (r: Option<
    usize,
>)
    requires
        1 <= start,
        end <= toks@.len(),
    ensures
        ({
            let f = find_close(token_views(toks@), start as int, end as int, d, 1);
            match r {
                Some(c) => f == Some(c as int) && start <= c < end,
                None => f is None,
            }
        }),
{
    let ghost tv = token_views(toks@);
    let close_c = delim_close_exec(d);
    let open_c = delim_open_exec(d);
    let mut i = start;
    let mut depth: usize = 1;
    loop
        invariant
            start <= i,
            1 <= depth,
            depth <= 1 + (i - start),
            find_close(tv, start as int, end as int, d, 1) == find_close(
                tv,
                i as int,
                end as int,
                d,
                depth as int,
            ),
        decreases end - i,
    {
        if i >= end {
            return None;
        }
        proof {
            assert(tv[i as int] == toks@[i as int]@);
        }
        if is_char_token(&toks[i].value, close_c) {
            if depth <= 1 {
                return Some(i);
            }
            depth = depth - 1;
        } else if is_char_token(&toks[i].value, open_c) {
            depth = depth + 1;
        }
        i += 1;
    }
}

/// The literal text of the token span `[lo, hi)`.
pub fn span_to_string(toks: &Vec<Token>, lo: usize, hi: usize) -> (r: String)
    requires
        lo < hi <= toks@.len(),
    ensures
        r@ == span_text(token_views(toks@), lo as int, hi as int),
{
    let ghost tv = token_views(toks@);
    let mut s = String::new();
    let mut i = lo;
    proof {
        assert(Seq::<char>::empty() + span_text(tv, lo as int, hi as int) =~= span_text(
            tv,
            lo as int,
            hi as int,
        ));
    }
    while i < hi - 1
        invariant
            lo <= i < hi,
            hi <= toks@.len(),
            tv == token_views(toks@),
            s@ + span_text(tv, i as int, hi as int) == span_text(tv, lo as int, hi as int),
        decreases hi - i,
    {
        let ghost s0 = s@;
        s.append(toks[i].value.as_str());
        s.append(toks[i].suffix.as_str());
        proof {
            assert(tv[i as int] == toks@[i as int]@);
            assert(span_text(tv, i as int, hi as int) == tv[i as int].value + tv[i as int].suffix
                + span_text(tv, i as int + 1, hi as int));
            assert(s@ + span_text(tv, i as int + 1, hi as int) =~= s0 + span_text(
                tv,
                i as int,
                hi as int,
            ));
        }
        i += 1;
    }
    let ghost s0 = s@;
    s.append(toks[i].value.as_str());
    proof {
        assert(tv[i as int] == toks@[i as int]@);
        assert(span_text(tv, i as int, hi as int) == tv[i as int].value);
        assert(s@ =~= s0 + span_text(tv, i as int, hi as int));
    }
    s
}

/// Renders a template: literal text copied, variables replaced by their
/// captured spans verbatim.
#[verifier::loop_isolation(false)]
pub fn render_template(tpl: &Template, toks: &Vec<Token>, vars: &Vec<(usize, usize)>) -> (r:
    String)
    requires
        spans_ok(span_views(vars@), toks@.len() as int),
    ensures
        r@ == render(tpl@, token_views(toks@), span_views(vars@)),
{
    let ghost tv = token_views(toks@);
    let ghost vs = span_views(vars@);
    let mut s = String::new();
    let mut i: usize = 0;
    proof {
        assert(tpl@.skip(0) =~= tpl@);
        assert(Seq::<char>::empty() + render(tpl@, tv, vs) =~= render(tpl@, tv, vs));
    }
    while i < tpl.len()
        invariant
            i <= tpl@.len(),
            s@ + render(tpl@.skip(i as int), tv, vs) == render(tpl@, tv, vs),
        decreases tpl@.len() - i,
    {
        let ghost s0 = s@;
        let ghost rem = tpl@.skip(i as int);
        proof {
            assert(rem[0] == tpl@[i as int]);
            assert(rem.drop_first() =~= tpl@.skip(i as int + 1));
        }
        match &tpl[i] {
            TemplateItem::Text { data } => {
                s.append(data.as_str());
            },
            TemplateItem::Var { index } => {
                let idx = *index as usize;
                if idx < vars.len() {
                    proof {
                        assert(vs[idx as int] == (vars@[idx as int].0 as int, vars@[
                            idx as int].1 as int));
                    }
                    let span = vars[idx];
                    let piece = span_to_string(toks, span.0, span.1);
                    s.append(piece.as_str());
                }
            },
        }
        proof {
            assert(s@ + render(tpl@.skip(i as int + 1), tv, vs) =~= s0 + render(rem, tv, vs));
        }
        i += 1;
    }
    proof {
        assert(tpl@.skip(tpl@.len() as int) =~= Seq::<TemplateItem>::empty());
        assert(s@ + render(tpl@.skip(tpl@.len() as int), tv, vs) =~= s@);
    }
    s
}

/// Correspondence of an executable match step with the matching spec step.
pub open spec fn hit_matches(
    edges: Seq<TrieEdge<PatternItem, Template>>,
    m: Option<MatchResult>,
    r: Option<MatchHit>,
) -> bool {
    match r {
        Some(h) => m is Some && {
            let res = m.unwrap();
            &&& h.end == res.end
            &&& span_views(h.vars@) == res.vars
            &&& h.tpl < edges.len()
            &&& match edges[h.tpl as int].node {
                HashTrieNode::Leaf { value } => value@ == res.template,
                HashTrieNode::Branch { .. } => false,
            }
        },
        None => m is None,
    }
}

/// The expander's matching step at trie node `n` from token position
/// `pos`, as the spec function `match_at` describes it.
#[verifier::loop_isolation(false)]
pub fn exec_match_at(
    edges: &Vec<TrieEdge<PatternItem, Template>>,
    n: u32,
    toks: &Vec<Token>,
    pos: usize,
    vars: &Vec<(usize, usize)>,
) -> (r: Option<MatchHit>)
    requires
        spans_ok(span_views(vars@), toks@.len() as int),
    ensures
        hit_matches(
            edges@,
            match_at(edges@, n, token_views(toks@), pos as int, span_views(vars@)),
            r,
        ),
        r matches Some(h) ==> pos < h.end <= toks@.len() && spans_ok(
            span_views(h.vars@),
            toks@.len() as int,
        ),
    decreases toks@.len() - pos, 2int, 0int,
{
    let ghost tv = token_views(toks@);
    let ghost vs = span_views(vars@);
    proof {
        lemma_match_at_ok(edges@, n, tv, pos as int, vs);
    }
    if pos >= toks.len() {
        return None;
    }
    proof {
        assert(tv[pos as int] == toks@[pos as int]@);
    }
    match exec_find_mt(edges, n, &toks[pos].value) {
        Some(idx) => {
            match &edges[idx].node {
                HashTrieNode::Leaf { .. } => {
                    return Some(MatchHit { end: pos + 1, vars: copy_spans(vars), tpl: idx });
                },
                HashTrieNode::Branch { id } => {
                    return exec_match_at(edges, *id, toks, pos + 1, vars);
                },
            }
        },
        None => {},
    }
    match exec_find_backref(edges, n, toks, vars, &toks[pos].value) {
        Some(idx) => {
            match &edges[idx].node {
                HashTrieNode::Leaf { .. } => {
                    return Some(MatchHit { end: pos + 1, vars: copy_spans(vars), tpl: idx });
                },
                HashTrieNode::Branch { id } => {
                    return exec_match_at(edges, *id, toks, pos + 1, vars);
                },
            }
        },
        None => {},
    }
    let maybe_d = exec_open_delim(&toks[pos].value);
    if let Some(d) = maybe_d {
        let maybe_block = exec_find_block(edges, n, d);
        if let Some(bidx) = maybe_block {
            let maybe_close = exec_find_close(toks, pos + 1, toks.len(), d);
            if let Some(c) = maybe_close {
                let inner_res = match &edges[bidx].key {
                    PatternItem::BlockPattern { inner_pattern, .. } => {
                        proof {
                            assert(inner_pattern@.skip(0) =~= block_inner(
                                edges@[bidx as int].key,
                            ));
                        }
                        exec_match_seq(inner_pattern, 0, toks, pos + 1, c, vars)
                    },
                    _ => {
                        proof {
                            assert(false);
                        }
                        None
                    },
                };
                match inner_res {
                    Some(v2) => {
                        let mut vars3 = v2;
                        let ghost v2s = span_views(vars3@);
                        vars3.push((pos, c + 1));
                        proof {
                            assert(span_views(vars3@) =~= v2s.push((pos as int, c + 1)));
                        }
                        match &edges[bidx].node {
                            HashTrieNode::Leaf { .. } => {
                                return Some(MatchHit { end: c + 1, vars: vars3, tpl: bidx });
                            },
                            HashTrieNode::Branch { id } => {
                                return exec_match_at(edges, *id, toks, c + 1, &vars3);
                            },
                        }
                    },
                    None => {
                        return None;
                    },
                }
            }
        }
    }
    match exec_find_tv(edges, n) {
        Some(idx) => {
            let mut vars2 = copy_spans(vars);
            vars2.push((pos, pos + 1));
            proof {
                assert(span_views(vars2@) =~= vs.push((pos as int, pos + 1)));
            }
            match &edges[idx].node {
                HashTrieNode::Leaf { .. } => {
                    return Some(MatchHit { end: pos + 1, vars: vars2, tpl: idx });
                },
                HashTrieNode::Branch { id } => {
                    return exec_match_at(edges, *id, toks, pos + 1, &vars2);
                },
            }
        },
        None => {},
    }
    match exec_find_sv(edges, n) {
        Some(idx) => {
            let ghost e = edges@[idx as int];
            let mut l: usize = toks.len() - pos;
            loop
                invariant
                    l <= toks@.len() - pos,
                    sv_try_at(edges@, e, tv, pos as int, vs, toks@.len() - pos) == sv_try_at(
                        edges@,
                        e,
                        tv,
                        pos as int,
                        vs,
                        l as int,
                    ),
                decreases l,
            {
                if l < 1 {
                    return None;
                }
                let mut vars2 = copy_spans(vars);
                vars2.push((pos, pos + l));
                proof {
                    assert(span_views(vars2@) =~= vs.push((pos as int, pos + l)));
                    assert(spans_ok(span_views(vars2@), toks@.len() as int));
                    lemma_sv_try_at_ok(edges@, e, tv, pos as int, vs, l as int);
                }
                match &edges[idx].node {
                    HashTrieNode::Leaf { .. } => {
                        return Some(MatchHit { end: pos + l, vars: vars2, tpl: idx });
                    },
                    HashTrieNode::Branch { id } => {
                        match exec_match_at(edges, *id, toks, pos + l, &vars2) {
                            Some(h) => {
                                return Some(h);
                            },
                            None => {},
                        }
                    },
                }
                l = l - 1;
            }
        },
        None => {
            return None;
        },
    }
}

/// Matching a pattern sequence, starting at its item `pi`, against exactly
/// the token range `[pos, end)`, as the spec function `match_seq`
/// describes it.
#[verifier::loop_isolation(false)]
pub fn exec_match_seq(
    pat: &Vec<PatternItem>,
    pi: usize,
    toks: &Vec<Token>,
    pos: usize,
    end: usize,
    vars: &Vec<(usize, usize)>,
) -> (r: Option<Vec<(usize, usize)>>)
    requires
        pi <= pat@.len(),
        pos <= end,
        end <= toks@.len(),
        spans_ok(span_views(vars@), toks@.len() as int),
    ensures
        ({
            let m = match_seq(
                pat@.skip(pi as int),
                token_views(toks@),
                pos as int,
                end as int,
                span_views(vars@),
            );
            match r {
                Some(v) => m == Some(span_views(v@)) && spans_ok(
                    span_views(v@),
                    toks@.len() as int,
                ),
                None => m is None,
            }
        }),
    decreases end - pos, 2int, 0int,
{
    let ghost tv = token_views(toks@);
    let ghost vs = span_views(vars@);
    let ghost rem = pat@.skip(pi as int);
    proof {
        lemma_match_seq_ok(rem, tv, pos as int, end as int, vs);
    }
    if pi == pat.len() {
        if pos == end {
            return Some(copy_spans(vars));
        } else {
            return None;
        }
    }
    proof {
        assert(rem.len() > 0);
        assert(rem[0] == pat@[pi as int]);
        assert(rem.drop_first() =~= pat@.skip(pi as int + 1));
    }
    if pos >= end {
        return None;
    }
    proof {
        assert(tv[pos as int] == toks@[pos as int]@);
    }
    match &pat[pi] {
        PatternItem::MatchToken { value } => {
            if toks[pos].value.eq(value) {
                exec_match_seq(pat, pi + 1, toks, pos + 1, end, vars)
            } else {
                None
            }
        },
        PatternItem::TokenVar => {
            let mut vars2 = copy_spans(vars);
            vars2.push((pos, pos + 1));
            proof {
                assert(span_views(vars2@) =~= vs.push((pos as int, pos + 1)));
            }
            exec_match_seq(pat, pi + 1, toks, pos + 1, end, &vars2)
        },
        PatternItem::MatchTokenVar { index } => {
            let idx = *index as usize;
            if idx < vars.len() {
                proof {
                    assert(vs[idx as int] == (vars@[idx as int].0 as int, vars@[
                        idx as int].1 as int));
                }
                let span = vars[idx];
                let cap = span_to_string(toks, span.0, span.1);
                if cap.eq(&toks[pos].value) {
                    exec_match_seq(pat, pi + 1, toks, pos + 1, end, vars)
                } else {
                    None
                }
            } else {
                None
            }
        },
        PatternItem::SequenceVar => {
            let mut l: usize = end - pos;
            loop
                invariant
                    l <= end - pos,
                    sv_try_seq(rem.drop_first(), tv, pos as int, end as int, vs, end - pos)
                        == sv_try_seq(
                        rem.drop_first(),
                        tv,
                        pos as int,
                        end as int,
                        vs,
                        l as int,
                    ),
                decreases l,
            {
                if l < 1 {
                    return None;
                }
                let mut vars2 = copy_spans(vars);
                vars2.push((pos, pos + l));
                proof {
                    assert(span_views(vars2@) =~= vs.push((pos as int, pos + l)));
                    assert(spans_ok(span_views(vars2@), toks@.len() as int));
                }
                match exec_match_seq(pat, pi + 1, toks, pos + l, end, &vars2) {
                    Some(v) => {
                        return Some(v);
                    },
                    None => {},
                }
                l = l - 1;
            }
        },
        PatternItem::BlockPattern { block_delim, inner_pattern } => {
            let open_c = delim_open_exec(*block_delim);
            if is_char_token(&toks[pos].value, open_c) {
                match exec_find_close(toks, pos + 1, end, *block_delim) {
                    Some(c) => {
                        proof {
                            assert(inner_pattern@.skip(0) =~= inner_pattern@);
                        }
                        match exec_match_seq(inner_pattern, 0, toks, pos + 1, c, vars) {
                            Some(v2) => {
                                let mut vars3 = v2;
                                let ghost v2s = span_views(vars3@);
                                vars3.push((pos, c + 1));
                                proof {
                                    assert(span_views(vars3@) =~= v2s.push((pos as int, c + 1)));
                                    assert(spans_ok(span_views(vars3@), toks@.len() as int));
                                }
                                exec_match_seq(pat, pi + 1, toks, c + 1, end, &vars3)
                            },
                            None => None,
                        }
                    },
                    None => None,
                }
            } else {
                None
            }
        },
    }
}

} // verus!
