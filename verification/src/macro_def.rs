//! The macro store: parsing definition lines into patterns and
//! templates, loading them into the prefix-free trie, and expanding token
//! streams against them.

use vstd::prelude::*;

use crate::io_helpers::SimpleOutput;
use crate::matcher::{exec_match_at, is_char_token, match_at, render, render_template, span_views,
    spec_expand};
use crate::pattern::{template_views, BlockDelimiter, PatternItem, PatternModel, Template,
    TemplateItem, TemplateItemModel};
use crate::tokenizer::{token_views, Token, TokenModel};
use crate::trie::{is_prefix_of, key_views, HashTrie, HashTrieNode, TrieEdge};

verus! {

broadcast use vstd::std_specs::vec::group_vec_axioms, vstd::seq::group_seq_axioms;

/// The abstract value of a macro-definition error.
pub ghost enum MacroErrorModel {
    DefinitionParse { fragment: Seq<char> },
    PatternConflict { name: Seq<char> },
    UnmatchedBlock { position: int },
}

/// What can go wrong while reading macro definitions: malformed surface
/// syntax (with the offending fragment), a pattern that conflicts with an
/// already-loaded macro (with the macro's name), or an opening bracket
/// with no matching close (with the bracket's token position in its line).
#[derive(Debug, Clone, PartialEq, Eq)]
pub enum MacroError {
    DefinitionParse { fragment: String },
    PatternConflict { name: String },
    UnmatchedBlock { position: usize },
}

impl View for MacroError {
    type V = MacroErrorModel;

    open spec fn view(&self) -> MacroErrorModel {
        match self {
            MacroError::DefinitionParse { fragment } => MacroErrorModel::DefinitionParse {
                fragment: fragment@,
            },
            MacroError::PatternConflict { name } => MacroErrorModel::PatternConflict {
                name: name@,
            },
            MacroError::UnmatchedBlock { position } => MacroErrorModel::UnmatchedBlock {
                position: *position as int,
            },
        }
    }
}

/// A parsed macro definition: its invocation name, the pattern path it is
/// stored under, and its output template.
pub ghost struct DefModel {
    pub name: Seq<char>,
    pub pattern: Seq<PatternModel>,
    pub template: Seq<TemplateItemModel>,
}

/// Index just past the current definition line: a line ends at the first
/// token whose suffix holds a newline, or at the end of the stream.
pub open spec fn line_end(toks: Seq<TokenModel>, start: int) -> int
    decreases toks.len() - start,
{
    if start < 0 || start >= toks.len() {
        toks.len() as int
    } else if toks[start].suffix.contains('\n') {
        start + 1
    } else {
        line_end(toks, start + 1)
    }
}

pub proof fn lemma_line_end_bounds(toks: Seq<TokenModel>, start: int)
    requires
        0 <= start <= toks.len(),
    ensures
        start <= line_end(toks, start) <= toks.len(),
        start < toks.len() ==> start + 1 <= line_end(toks, start),
    decreases toks.len() - start,
{
    if start < toks.len() && !toks[start].suffix.contains('\n') {
        lemma_line_end_bounds(toks, start + 1);
    }
}

/// The position of `v` in the parameter list, if declared.
pub open spec fn param_index(params: Seq<Seq<char>>, v: Seq<char>, i: int) -> Option<int>
    decreases params.len() - i,
{
    if i < 0 || i >= params.len() {
        None
    } else if params[i] == v {
        Some(i)
    } else {
        param_index(params, v, i + 1)
    }
}

pub proof fn lemma_param_index_scan(params: Seq<Seq<char>>, v: Seq<char>, i: int)
    requires
        0 <= i <= params.len(),
        forall|j: int| 0 <= j < i ==> params[j] != v,
    ensures
        i < params.len() && params[i] == v ==> param_index(params, v, 0) == Some(i),
        i == params.len() ==> param_index(params, v, 0) is None,
{
    lemma_param_index_from(params, v, 0, i);
}

proof fn lemma_param_index_from(params: Seq<Seq<char>>, v: Seq<char>, a: int, b: int)
    requires
        0 <= a <= b <= params.len(),
        forall|j: int| a <= j < b ==> params[j] != v,
    ensures
        param_index(params, v, a) == param_index(params, v, b),
    decreases b - a,
{
    if a < b {
        lemma_param_index_from(params, v, a + 1, b);
    }
}

/// The template read from the tokens of a line from position `k` on: a
/// token whose value names a declared parameter becomes a variable
/// reference (followed by its suffix as literal text), any other token
/// becomes literal text, and the final token of the line contributes its
/// value only, dropping the line terminator.
pub open spec fn spec_template(
    line: Seq<TokenModel>,
    k: int,
    params: Seq<Seq<char>>,
) -> Seq<TemplateItemModel>
    decreases line.len() - k,
{
    if k < 0 || k >= line.len() {
        Seq::empty()
    } else {
        let t = line[k];
        (match param_index(params, t.value, 0) {
            Some(i) => seq![TemplateItemModel::Var { index: i as u8 }] + (if k < line.len() - 1
                && t.suffix.len() > 0 {
                seq![TemplateItemModel::Text { data: t.suffix }]
            } else {
                Seq::empty()
            }),
            None => if k < line.len() - 1 {
                seq![TemplateItemModel::Text { data: t.value + t.suffix }]
            } else {
                seq![TemplateItemModel::Text { data: t.value }]
            },
        }) + spec_template(line, k + 1, params)
    }
}

/// The comma-separated parameter names of a function-style definition,
/// read from position `i` up to the closing parenthesis.
pub open spec fn spec_parse_params(line: Seq<TokenModel>, i: int, acc: Seq<Seq<char>>) -> Result<
    (Seq<Seq<char>>, int),
    MacroErrorModel,
>
    decreases line.len() - i,
{
    if i < 0 || i >= line.len() {
        Err(MacroErrorModel::UnmatchedBlock { position: 1 })
    } else if line[i].value == seq![')'] {
        Ok((acc, i + 1))
    } else if line[i].value == seq![','] || line[i].value == seq!['='] {
        Err(MacroErrorModel::DefinitionParse { fragment: line[i].value })
    } else if acc.len() >= 255 {
        Err(MacroErrorModel::DefinitionParse { fragment: line[i].value })
    } else if i + 1 >= line.len() {
        Err(MacroErrorModel::UnmatchedBlock { position: 1 })
    } else if line[i + 1].value == seq![','] {
        spec_parse_params(line, i + 2, acc.push(line[i].value))
    } else if line[i + 1].value == seq![')'] {
        Ok((acc.push(line[i].value), i + 2))
    } else {
        Err(MacroErrorModel::DefinitionParse { fragment: line[i + 1].value })
    }
}

pub proof fn lemma_parse_params_len(line: Seq<TokenModel>, i: int, acc: Seq<Seq<char>>)
    ensures
        match spec_parse_params(line, i, acc) {
            Ok(pr) => i <= pr.1 <= line.len() && pr.1 - i >= 2 * (pr.0.len() - acc.len()) && pr.0.len()
                >= acc.len(),
            Err(_) => true,
        },
    decreases line.len() - i,
{
    if 0 <= i && i + 1 < line.len() {
        lemma_parse_params_len(line, i + 2, acc.push(line[i].value));
    }
}

/// The pattern items between the parentheses of a function-style pattern:
/// one token variable per parameter, separated by literal commas.
pub open spec fn func_pattern_items(n: int) -> Seq<PatternModel>
    decreases n,
{
    if n <= 0 {
        Seq::empty()
    } else if n == 1 {
        seq![PatternModel::TokenVar]
    } else {
        func_pattern_items(n - 1) + seq![
            PatternModel::MatchToken { value: seq![','] },
            PatternModel::TokenVar,
        ]
    }
}

pub proof fn lemma_func_pattern_items_len(n: int)
    ensures
        func_pattern_items(n).len() == (if n <= 0 {
            0int
        } else {
            2 * n - 1
        }),
    decreases n,
{
    if n > 1 {
        lemma_func_pattern_items_len(n - 1);
    }
}

/// The full pattern of a function-style definition.
pub open spec fn func_pattern(name: Seq<char>, n: int) -> Seq<PatternModel> {
    seq![
        PatternModel::MatchToken { value: name },
        PatternModel::MatchToken { value: seq!['('] },
    ] + func_pattern_items(n) + seq![PatternModel::MatchToken { value: seq![')'] }]
}

/// The reserved placeholder names of a block-style definition: the whole
/// captured group is referenced as `block` (the group's inner capture gets
/// an unwritable empty name).
pub open spec fn block_params() -> Seq<Seq<char>> {
    seq![Seq::empty(), seq!['b', 'l', 'o', 'c', 'k']]
}

/// The pattern of a block-style definition: the name, then a balanced
/// curly-brace group whose inside is captured as one sequence variable.
pub open spec fn block_pattern(name: Seq<char>) -> Seq<PatternModel> {
    seq![
        PatternModel::MatchToken { value: name },
        PatternModel::BlockPattern {
            block_delim: BlockDelimiter::CurlyBracket,
            inner_pattern: seq![PatternModel::SequenceVar],
        },
    ]
}

/// Parsing one definition line. Three surface forms share the model:
/// `name = template`, `name(p1, p2) = template`, and `name { } = template`.
pub open spec fn spec_parse_def(line: Seq<TokenModel>) -> Result<DefModel, MacroErrorModel> {
    let name = line[0].value;
    if line.len() < 2 {
        Err(MacroErrorModel::DefinitionParse { fragment: name })
    } else if line[1].value == seq!['='] {
        Ok(
            DefModel {
                name,
                pattern: seq![PatternModel::MatchToken { value: name }],
                template: spec_template(line, 2, Seq::empty()),
            },
        )
    } else if line[1].value == seq!['('] {
        match spec_parse_params(line, 2, Seq::empty()) {
            Err(e) => Err(e),
            Ok(pr) => {
                if pr.1 < line.len() && line[pr.1].value == seq!['='] {
                    Ok(
                        DefModel {
                            name,
                            pattern: func_pattern(name, pr.0.len() as int),
                            template: spec_template(line, pr.1 + 1, pr.0),
                        },
                    )
                } else if pr.1 < line.len() {
                    Err(MacroErrorModel::DefinitionParse { fragment: line[pr.1].value })
                } else {
                    Err(MacroErrorModel::DefinitionParse { fragment: name })
                }
            },
        }
    } else if line[1].value == seq!['{'] {
        if line.len() >= 3 && line[2].value == seq!['}'] {
            if line.len() >= 4 && line[3].value == seq!['='] {
                Ok(
                    DefModel {
                        name,
                        pattern: block_pattern(name),
                        template: spec_template(line, 4, block_params()),
                    },
                )
            } else if line.len() >= 4 {
                Err(MacroErrorModel::DefinitionParse { fragment: line[3].value })
            } else {
                Err(MacroErrorModel::DefinitionParse { fragment: name })
            }
        } else if exists|j: int| 2 <= j < line.len() && (#[trigger] line[j].value) == seq!['}'] {
            Err(
                MacroErrorModel::DefinitionParse {
                    fragment: if line.len() >= 3 {
                        line[2].value
                    } else {
                        name
                    },
                },
            )
        } else {
            Err(MacroErrorModel::UnmatchedBlock { position: 1 })
        }
    } else {
        Err(MacroErrorModel::DefinitionParse { fragment: line[1].value })
    }
}

/// A parsed pattern never has more items than its line has tokens, so the
/// node ids a load allocates are bounded by the token count.
pub proof fn lemma_parse_def_pattern_len(line: Seq<TokenModel>)
    requires
        line.len() >= 1,
    ensures
        match spec_parse_def(line) {
            Ok(d) => 1 <= d.pattern.len() <= line.len(),
            Err(_) => true,
        },
{
    if line.len() >= 2 && line[1].value != seq!['='] && line[1].value == seq!['('] {
        match spec_parse_params(line, 2, Seq::empty()) {
            Ok(pr) => {
                lemma_parse_params_len(line, 2, Seq::empty());
                lemma_func_pattern_items_len(pr.0.len() as int);
            },
            Err(_) => {},
        }
    }
}

/// Parsing a whole token stream of definition lines, in order, stopping at
/// the first malformed line. A line holding only leading whitespace is
/// skipped.
pub open spec fn spec_parse_lines(toks: Seq<TokenModel>, start: int) -> Result<
    Seq<DefModel>,
    MacroErrorModel,
>
    decreases toks.len() - start,
    via spec_parse_lines_decreases
{
    if start < 0 || start >= toks.len() {
        Ok(Seq::empty())
    } else {
        let e = line_end(toks, start);
        let line0 = toks.subrange(start, e);
        let line = if line0.len() > 0 && line0[0].value.len() == 0 {
            line0.drop_first()
        } else {
            line0
        };
        if line.len() == 0 {
            spec_parse_lines(toks, e)
        } else {
            match spec_parse_def(line) {
                Err(err) => Err(err),
                Ok(def) => match spec_parse_lines(toks, e) {
                    Err(err) => Err(err),
                    Ok(rest) => Ok(seq![def] + rest),
                },
            }
        }
    }
}

#[via_fn]
proof fn spec_parse_lines_decreases(toks: Seq<TokenModel>, start: int) {
    if 0 <= start < toks.len() {
        lemma_line_end_bounds(toks, start);
    }
}

/// A store of macro definitions as a mapping from pattern paths to
/// templates.
pub type StoreMap = Map<Seq<PatternModel>, Seq<TemplateItemModel>>;

/// Whether `pat` is free of prefix conflicts against every path of `m`.
pub open spec fn map_ok(m: StoreMap, pat: Seq<PatternModel>) -> bool {
    forall|q: Seq<PatternModel>|
        #[trigger] m.dom().contains(q) ==> !is_prefix_of(q, pat) && !is_prefix_of(pat, q)
}

/// The store after loading the first `i` definitions on top of `base`:
/// each definition is stored exactly when it conflicts with nothing stored
/// before it.
pub open spec fn store_map(base: StoreMap, defs: Seq<DefModel>, i: int) -> StoreMap
    decreases i,
{
    if i <= 0 {
        base
    } else {
        let m = store_map(base, defs, i - 1);
        if map_ok(m, defs[i - 1].pattern) {
            m.insert(defs[i - 1].pattern, defs[i - 1].template)
        } else {
            m
        }
    }
}

/// The first definition whose pattern conflicts with something stored
/// before it, if any.
pub open spec fn first_conflict(base: StoreMap, defs: Seq<DefModel>, i: int) -> Option<int>
    decreases defs.len() - i,
{
    if i < 0 || i >= defs.len() {
        None
    } else if !map_ok(store_map(base, defs, i), defs[i].pattern) {
        Some(i)
    } else {
        first_conflict(base, defs, i + 1)
    }
}

/// Total pattern length of the definitions from `i` on.
pub open spec fn sum_pattern_lens(defs: Seq<DefModel>, i: int) -> nat
    decreases defs.len() - i,
{
    if i < 0 || i >= defs.len() {
        0
    } else {
        defs[i].pattern.len() + sum_pattern_lens(defs, i + 1)
    }
}

pub proof fn lemma_sum_push(defs: Seq<DefModel>, d: DefModel, i: int)
    requires
        0 <= i <= defs.len(),
    ensures
        sum_pattern_lens(defs.push(d), i) == sum_pattern_lens(defs, i) + d.pattern.len(),
    decreases defs.len() - i,
{
    if i < defs.len() {
        assert(defs.push(d)[i] == defs[i]);
        lemma_sum_push(defs, d, i + 1);
    } else {
        assert(defs.push(d)[i] == d);
        assert(sum_pattern_lens(defs.push(d), i + 1) == 0);
    }
}

/// The accumulated macro definitions: a prefix-free trie from pattern-item
/// sequences to output templates.
pub struct Macros {
    contents: HashTrie<PatternItem, Template>,
}

impl Macros {
    /// The edge arena that expansion walks; the trivial empty-pattern trie
    /// exposes no edges, so expansion over it passes everything through.
    pub closed spec fn model_edges(&self) -> Seq<TrieEdge<PatternItem, Template>> {
        match self.contents {
            HashTrie::Standard { edges, .. } => edges@,
            HashTrie::Trivial { .. } => Seq::empty(),
        }
    }

    pub closed spec fn wf(&self) -> bool {
        self.contents.wf()
    }

    /// The template stored under a pattern, if any.
    pub closed spec fn stored(&self, p: Seq<PatternModel>) -> Option<Seq<TemplateItemModel>> {
        match self.contents.spec_get(p) {
            Some(t) => Some(template_views(t@)),
            None => None,
        }
    }

    /// The stored definitions as a map from pattern paths to templates.
    pub closed spec fn stored_map(&self) -> StoreMap {
        Map::new(
            |q: Seq<PatternModel>| self.stored(q) is Some,
            |q: Seq<PatternModel>| self.stored(q).unwrap(),
        )
    }

    pub closed spec fn has_capacity(&self, extra: nat) -> bool {
        self.contents.has_capacity(extra)
    }

    /// The expansion of a token stream against these macros.
    pub open spec fn spec_expansion(&self, toks: Seq<TokenModel>) -> Seq<char> {
        spec_expand(self.model_edges(), toks, 0)
    }

    /// Capacity only shrinks with the amount asked for.
    pub proof fn lemma_capacity_mono(self, a: nat, b: nat)
        requires
            self.has_capacity(a),
            b <= a,
        ensures
            self.has_capacity(b),
    {
    }

    /// Constructs an empty store holding no macro definitions.
    pub fn new() -> (m: Macros)
        ensures
            m.wf(),
            forall|p: Seq<PatternModel>| (#[trigger] m.stored(p)) is None,
            m.stored_map() == Map::<Seq<PatternModel>, Seq<TemplateItemModel>>::empty(),
            m.model_edges() == Seq::<TrieEdge<PatternItem, Template>>::empty(),
            m.has_capacity((u32::MAX - 1) as nat),
    {
        let m = Macros { contents: HashTrie::new() };
        proof {
            assert(m.stored_map() =~= Map::<Seq<PatternModel>, Seq<TemplateItemModel>>::empty());
        }
        m
    }

    /// Reads macro definitions from a token stream and loads them into the
    /// store, line by line: a malformed line stops the load with its parse
    /// error before anything is stored, and a pattern that conflicts with
    /// one stored earlier stops it with the offending macro's name.
    #[verifier::loop_isolation(false)]
    #[verifier::rlimit(100)]
    pub fn read_macros(&mut self, tokens: &Vec<Token>) -> (r: Result<(), MacroError>)
        requires
            old(self).wf(),
            old(self).has_capacity(tokens@.len() as nat),
        ensures
            final(self).wf(),
            ({
                let basem = old(self).stored_map();
                match spec_parse_lines(token_views(tokens@), 0) {
                    Err(e) => r matches Err(err) && err@ == e && *final(self) == *old(self),
                    Ok(defs) => match first_conflict(basem, defs, 0) {
                        Some(j) => r matches Err(err) && err@ == (MacroErrorModel::PatternConflict {
                            name: defs[j].name,
                        }) && final(self).stored_map() == store_map(basem, defs, j),
                        None => r is Ok && final(self).stored_map() == store_map(
                            basem,
                            defs,
                            defs.len() as int,
                        ),
                    },
                }
            }),
            forall|m2: nat|
                old(self).has_capacity(m2 + tokens@.len()) ==> final(self).has_capacity(m2),
    {
        let ghost tv = token_views(tokens@);
        let n = tokens.len();
        let mut defs: Vec<ParsedDef> = Vec::new();
        let mut start: usize = 0;
        proof {
            assert(def_views(defs@) =~= Seq::<DefModel>::empty());
        }
        while start < n
            invariant
                start <= n,
                sum_pattern_lens(def_views(defs@), 0) <= start,
                spec_parse_lines(tv, 0) == (match spec_parse_lines(tv, start as int) {
                    Ok(rest) => Ok(def_views(defs@) + rest),
                    Err(e) => Err::<Seq<DefModel>, MacroErrorModel>(e),
                }),
            decreases n - start,
        {
            let ghost defs0 = def_views(defs@);
            let e = exec_line_end(tokens, start);
            proof {
                assert(tv[start as int] == tokens@[start as int]@);
            }
            let mut ls = start;
            if tokens[start].value.as_str().is_empty() {
                ls += 1;
            }
            let ghost line0 = tv.subrange(start as int, e as int);
            let ghost linev = tv.subrange(ls as int, e as int);
            proof {
                if ls > start {
                    assert(line0.drop_first() =~= linev);
                } else {
                    assert(line0 =~= linev);
                }
            }
            if ls < e {
                let line = copy_line(tokens, ls, e);
                match parse_definition(&line) {
                    Ok(d) => {
                        proof {
                            lemma_parse_def_pattern_len(linev);
                            lemma_sum_push(defs0, d@, 0);
                            let rest_eq = spec_parse_lines(tv, e as int);
                            assert(spec_parse_lines(tv, start as int) == (match rest_eq {
                                Ok(rest) => Ok(seq![d@] + rest),
                                Err(err) => Err::<Seq<DefModel>, MacroErrorModel>(err),
                            }));
                        }
                        defs.push(d);
                        proof {
                            assert(def_views(defs@) =~= defs0.push(defs@[defs@.len() - 1]@));
                            assert(forall|rest: Seq<DefModel>|
                                defs0 + (seq![def_views(defs@)[defs0.len() as int]] + rest)
                                    =~= def_views(defs@) + rest);
                        }
                    },
                    Err(err) => {
                        return Err(err);
                    },
                }
            }
            start = e;
        }
        proof {
            assert(spec_parse_lines(tv, start as int) == Ok::<Seq<DefModel>, MacroErrorModel>(
                Seq::empty(),
            ));
            assert(def_views(defs@) + Seq::<DefModel>::empty() =~= def_views(defs@));
        }
        let ghost basem = old(self).stored_map();
        let ghost sdefs = def_views(defs@);
        proof {
            assert(spec_parse_lines(tv, 0) == Ok::<Seq<DefModel>, MacroErrorModel>(sdefs));
            assert(self.stored_map() =~= store_map(basem, sdefs, 0));
        }
        let mut j: usize = 0;
        while j < defs.len()
            invariant
                j <= defs@.len(),
                self.wf(),
                sdefs == def_views(defs@),
                first_conflict(basem, sdefs, 0) == first_conflict(basem, sdefs, j as int),
                self.stored_map() == store_map(basem, sdefs, j as int),
                forall|mm: nat|
                    old(self).has_capacity((mm + sum_pattern_lens(sdefs, 0)) as nat) ==> (
                    #[trigger] self.has_capacity((mm + sum_pattern_lens(sdefs, j as int)) as nat)),
            decreases defs@.len() - j,
        {
            let ghost pvj = key_views(defs@[j as int].pattern@);
            proof {
                assert(sdefs[j as int] == defs@[j as int]@);
                assert(sdefs[j as int].pattern == pvj);
                assert(sum_pattern_lens(sdefs, j as int) == pvj.len() + sum_pattern_lens(
                    sdefs,
                    j as int + 1,
                ));
                assert(old(self).has_capacity((0 + sum_pattern_lens(sdefs, 0)) as nat));
                assert(self.has_capacity((0 + sum_pattern_lens(sdefs, j as int)) as nat));
            }
            let tpl = clone_template(&defs[j].template);
            let ghost tplv = tpl;
            let ghost pre = *self;
            let ghost jj = j as int;
            proof {
                assert(pre.has_capacity((0 + sum_pattern_lens(sdefs, jj)) as nat));
                assert(pre.contents.has_capacity(sum_pattern_lens(sdefs, jj)));
                assert(key_views(defs@[jj].pattern@).len() == defs@[jj].pattern@.len());
                assert(pre.contents.has_capacity(defs@[jj].pattern@.len() as nat));
            }
            let ok = self.contents.insert(&defs[j].pattern, tpl);
            if !ok {
                proof {
                    assert(!pre.contents.can_insert(pvj));
                    let q = choose|q: Seq<PatternModel>|
                        (#[trigger] pre.contents.spec_get(q)) is Some && (is_prefix_of(q, pvj)
                            || is_prefix_of(pvj, q));
                    assert(pre.stored(q) is Some);
                    assert(pre.stored_map().dom().contains(q));
                    assert(store_map(basem, sdefs, jj).dom().contains(q));
                    assert(!map_ok(store_map(basem, sdefs, jj), sdefs[jj].pattern));
                    assert(first_conflict(basem, sdefs, jj) == Some(jj));
                    assert forall|m2: nat|
                        old(self).has_capacity(m2 + tokens@.len()) implies self.has_capacity(
                        m2,
                    ) by {
                        assert(old(self).has_capacity((m2 + sum_pattern_lens(sdefs, 0)) as nat));
                        assert(self.has_capacity((m2 + sum_pattern_lens(sdefs, jj)) as nat));
                    }
                }
                return Err(MacroError::PatternConflict { name: defs[j].name.clone() });
            }
            proof {
                // Success: no conflict with anything stored so far.
                assert(pre.contents.can_insert(pvj));
                assert(map_ok(store_map(basem, sdefs, jj), sdefs[jj].pattern)) by {
                    assert forall|q: Seq<PatternModel>| #[trigger] store_map(
                        basem,
                        sdefs,
                        jj,
                    ).dom().contains(q) implies !is_prefix_of(q, sdefs[jj].pattern)
                        && !is_prefix_of(sdefs[jj].pattern, q) by {
                        assert(pre.stored_map().dom().contains(q));
                        assert(pre.stored(q) is Some);
                        assert(pre.contents.spec_get(q) is Some);
                    }
                }
                assert(first_conflict(basem, sdefs, jj) == first_conflict(basem, sdefs, jj + 1));
                // The new store is the old one with this pattern added.
                assert(template_views(tplv@) == sdefs[jj].template);
                assert forall|p: Seq<PatternModel>| true implies (#[trigger] self.stored(p)) == (
                if p == pvj {
                    Some(sdefs[jj].template)
                } else {
                    pre.stored(p)
                }) by {
                    if p == pvj {
                        assert(self.contents.spec_get(p) == Some(tplv));
                    } else {
                        assert(self.contents.spec_get(p) == pre.contents.spec_get(p));
                    }
                }
                assert(store_map(basem, sdefs, jj + 1) == store_map(basem, sdefs, jj).insert(
                    sdefs[jj].pattern,
                    sdefs[jj].template,
                ));
                assert(self.stored_map() =~= store_map(basem, sdefs, jj).insert(
                    sdefs[jj].pattern,
                    sdefs[jj].template,
                )) by {
                    let m2 = store_map(basem, sdefs, jj).insert(sdefs[jj].pattern, sdefs[jj].template);
                    assert forall|q: Seq<PatternModel>| #![trigger self.stored_map().dom().contains(q), m2.dom().contains(q)] true implies
                        (self.stored_map().dom().contains(q) == m2.dom().contains(q)) && (
                        self.stored_map().dom().contains(q) ==> self.stored_map()[q] == m2[q]) by {
                        if q == pvj {
                            assert(self.stored(q) == Some(sdefs[jj].template));
                            assert(self.stored_map().dom().contains(q));
                            assert(self.stored_map()[q] == sdefs[jj].template);
                            assert(m2.dom().contains(q));
                            assert(m2[q] == sdefs[jj].template);
                        } else {
                            assert(self.stored(q) == pre.stored(q));
                            assert(self.stored_map().dom().contains(q) == pre.stored_map().dom().contains(q));
                            assert(m2.dom().contains(q) == store_map(basem, sdefs, jj).dom().contains(q));
                            if self.stored_map().dom().contains(q) {
                                assert(self.stored_map()[q] == self.stored(q).unwrap());
                                assert(pre.stored_map()[q] == pre.stored(q).unwrap());
                                assert(m2[q] == store_map(basem, sdefs, jj)[q]);
                            }
                        }
                    }
                }
                // Capacity bookkeeping.
                assert forall|mm: nat|
                    old(self).has_capacity((mm + sum_pattern_lens(sdefs, 0)) as nat) implies (
                #[trigger] self.has_capacity((mm + sum_pattern_lens(sdefs, jj + 1)) as nat)) by {
                    assert(pre.has_capacity((mm + sum_pattern_lens(sdefs, jj)) as nat));
                    assert(pre.contents.has_capacity((mm + sum_pattern_lens(sdefs, jj)) as nat));
                    assert((mm + sum_pattern_lens(sdefs, jj)) as nat == (mm + sum_pattern_lens(
                        sdefs,
                        jj + 1,
                    )) as nat + defs@[jj].pattern@.len());
                    assert(self.contents.has_capacity(
                        (mm + sum_pattern_lens(sdefs, jj + 1)) as nat,
                    ));
                }
            }
            j += 1;
        }
        proof {
            assert(first_conflict(basem, sdefs, defs@.len() as int) is None);
            assert forall|m2: nat|
                old(self).has_capacity(m2 + tokens@.len()) implies final(self).has_capacity(
                m2,
            ) by {
                assert(sum_pattern_lens(sdefs, 0) <= tokens@.len());
                assert(old(self).has_capacity((m2 + sum_pattern_lens(sdefs, 0)) as nat));
                assert(self.has_capacity((m2 + sum_pattern_lens(sdefs, defs@.len() as int)) as nat));
            }
        }
        Ok(())
    }

    /// Performs macro expansion on a slice of tokens and writes the
    /// expanded text to `out_stream`: each position either matches a
    /// stored macro, whose rendered template is emitted, or its token is
    /// passed through verbatim. Expansion itself never fails.
    pub fn expand_tokens(&self, input: &Vec<Token>, out_stream: &mut SimpleOutput)
        ensures
            final(out_stream)@ == old(out_stream)@ + self.spec_expansion(token_views(input@)),
    {
        match &self.contents {
            HashTrie::Standard { edges, .. } => {
                expand_with(edges, input, out_stream);
            },
            HashTrie::Trivial { .. } => {
                let empty_edges: Vec<TrieEdge<PatternItem, Template>> = Vec::new();
                expand_with(&empty_edges, input, out_stream);
            },
        }
    }
}

pub open spec fn param_views(ps: Seq<String>) -> Seq<Seq<char>> {
    ps.map_values(|s: String| s@)
}

/// A parsed definition held as executable data.
struct ParsedDef {
    name: String,
    pattern: Vec<PatternItem>,
    template: Template,
}

impl View for ParsedDef {
    type V = DefModel;

    closed spec fn view(&self) -> DefModel {
        DefModel {
            name: self.name@,
            pattern: key_views(self.pattern@),
            template: template_views(self.template@),
        }
    }
}

spec fn def_views(ds: Seq<ParsedDef>) -> Seq<DefModel> {
    ds.map_values(|d: ParsedDef| d@)
}

fn suffix_has_newline(s: &String) -> (r: bool)
    ensures
        r == s@.contains('\n'),
{
    let st = s.as_str();
    let n = st.unicode_len();
    let mut i: usize = 0;
    while i < n
        invariant
            i <= n,
            n == s@.len(),
            st@ == s@,
            forall|j: int| 0 <= j < i ==> s@[j] != '\n',
        decreases n - i,
    {
        if st.get_char(i) == '\n' {
            proof {
                assert(s@.contains('\n')) by {
                    assert(s@[i as int] == '\n');
                }
            }
            return true;
        }
        i += 1;
    }
    proof {
        assert(!s@.contains('\n'));
    }
    false
}

#[verifier::loop_isolation(false)]
fn exec_line_end(tokens: &Vec<Token>, start: usize) -> (e: usize)
    requires
        start <= tokens@.len(),
    ensures
        e as int == line_end(token_views(tokens@), start as int),
        start <= e <= tokens@.len(),
        start < tokens@.len() ==> start < e,
{
    let ghost tv = token_views(tokens@);
    proof {
        lemma_line_end_bounds(tv, start as int);
    }
    let mut i = start;
    loop
        invariant
            start <= i <= tokens@.len(),
            line_end(tv, start as int) == line_end(tv, i as int),
        decreases tokens@.len() - i,
    {
        if i >= tokens.len() {
            return i;
        }
        proof {
            assert(tv[i as int] == tokens@[i as int]@);
        }
        if suffix_has_newline(&tokens[i].suffix) {
            return i + 1;
        }
        i += 1;
    }
}

/// A fresh copy of the token range `[ls, le)`.
fn copy_line(tokens: &Vec<Token>, ls: usize, le: usize) -> (line: Vec<Token>)
    requires
        ls <= le <= tokens@.len(),
    ensures
        line@.len() == le - ls,
        token_views(line@) == token_views(tokens@).subrange(ls as int, le as int),
{
    let mut line: Vec<Token> = Vec::new();
    let mut i = ls;
    while i < le
        invariant
            ls <= i <= le,
            le <= tokens@.len(),
            line@.len() == i - ls,
            forall|j: int| 0 <= j < i - ls ==> line@[j]@ == tokens@[ls + j]@,
        decreases le - i,
    {
        let t = Token { value: tokens[i].value.clone(), suffix: tokens[i].suffix.clone() };
        line.push(t);
        i += 1;
    }
    proof {
        assert(token_views(line@) =~= token_views(tokens@).subrange(ls as int, le as int));
    }
    line
}

fn clone_template(t: &Template) -> (r: Template)
    ensures
        r@ == t@,
{
    let mut r: Template = Vec::new();
    let mut i: usize = 0;
    while i < t.len()
        invariant
            i <= t@.len(),
            r@ == t@.take(i as int),
        decreases t@.len() - i,
    {
        let item = match &t[i] {
            TemplateItem::Text { data } => TemplateItem::Text { data: data.clone() },
            TemplateItem::Var { index } => TemplateItem::Var { index: *index },
        };
        r.push(item);
        proof {
            assert(t@.take(i as int).push(t@[i as int]) =~= t@.take(i as int + 1));
        }
        i += 1;
    }
    proof {
        assert(t@.take(t@.len() as int) =~= t@);
    }
    r
}

fn lparen_string() -> (s: String)
    ensures
        s@ == seq!['('],
{
    let s = String::from_str("(");
    proof {
        reveal_strlit("(");
        assert(s@ =~= seq!['(']);
    }
    s
}

fn rparen_string() -> (s: String)
    ensures
        s@ == seq![')'],
{
    let s = String::from_str(")");
    proof {
        reveal_strlit(")");
        assert(s@ =~= seq![')']);
    }
    s
}

fn comma_string() -> (s: String)
    ensures
        s@ == seq![','],
{
    let s = String::from_str(",");
    proof {
        reveal_strlit(",");
        assert(s@ =~= seq![',']);
    }
    s
}

fn block_params_exec() -> (v: Vec<String>)
    ensures
        param_views(v@) == block_params(),
{
    let mut v: Vec<String> = Vec::new();
    v.push(String::new());
    let b = String::from_str("block");
    proof {
        reveal_strlit("block");
        assert(b@ =~= seq!['b', 'l', 'o', 'c', 'k']);
    }
    v.push(b);
    proof {
        assert(param_views(v@) =~= block_params());
    }
    v
}

/// The pattern of a function-style definition: the name, an opening
/// parenthesis, one token variable per parameter separated by literal
/// commas, and the closing parenthesis.
#[verifier::loop_isolation(false)]
fn build_func_pattern(name: &String, params: &Vec<String>) -> (p: Vec<PatternItem>)
    ensures
        key_views(p@) == func_pattern(name@, params@.len() as int),
{
    let mut p: Vec<PatternItem> = Vec::new();
    p.push(PatternItem::MatchToken { value: name.clone() });
    p.push(PatternItem::MatchToken { value: lparen_string() });
    let ghost head = seq![
        PatternModel::MatchToken { value: name@ },
        PatternModel::MatchToken { value: seq!['('] },
    ];
    proof {
        assert(key_views(p@) =~= head + func_pattern_items(0));
    }
    let mut k: usize = 0;
    while k < params.len()
        invariant
            k <= params@.len(),
            key_views(p@) == head + func_pattern_items(k as int),
        decreases params@.len() - k,
    {
        let ghost p0 = key_views(p@);
        if k > 0 {
            p.push(PatternItem::MatchToken { value: comma_string() });
            p.push(PatternItem::TokenVar);
            proof {
                assert(key_views(p@) =~= p0.push(
                    PatternModel::MatchToken { value: seq![','] },
                ).push(PatternModel::TokenVar));
                assert(func_pattern_items(k as int + 1) =~= func_pattern_items(k as int).push(
                    PatternModel::MatchToken { value: seq![','] },
                ).push(PatternModel::TokenVar));
                assert(key_views(p@) =~= head + func_pattern_items(k as int + 1));
            }
        } else {
            p.push(PatternItem::TokenVar);
            proof {
                assert(key_views(p@) =~= p0.push(PatternModel::TokenVar));
                assert(func_pattern_items(1) =~= seq![PatternModel::TokenVar]);
                assert(key_views(p@) =~= head + func_pattern_items(1));
            }
        }
        k += 1;
    }
    let ghost pmid = key_views(p@);
    p.push(PatternItem::MatchToken { value: rparen_string() });
    proof {
        assert(key_views(p@) =~= pmid.push(PatternModel::MatchToken { value: seq![')'] }));
        assert(key_views(p@) =~= func_pattern(name@, params@.len() as int));
    }
    p
}

/// The template of a definition line from token `k0` on, resolving
/// parameter names to positional variable references.
#[verifier::loop_isolation(false)]
fn build_template(line: &Vec<Token>, k0: usize, params: &Vec<String>) -> (t: Template)
    ensures
        template_views(t@) == spec_template(token_views(line@), k0 as int, param_views(params@)),
{
    let ghost lv = token_views(line@);
    let ghost pv = param_views(params@);
    let mut t: Template = Vec::new();
    let mut k = k0;
    proof {
        assert(template_views(t@) + spec_template(lv, k0 as int, pv) =~= spec_template(
            lv,
            k0 as int,
            pv,
        ));
    }
    while k < line.len()
        invariant
            k0 <= k,
            template_views(t@) + spec_template(lv, k as int, pv) == spec_template(
                lv,
                k0 as int,
                pv,
            ),
        decreases line@.len() - k,
    {
        let ghost t0v = template_views(t@);
        proof {
            assert(lv[k as int] == line@[k as int]@);
        }
        // Look the token's value up in the parameter list.
        let mut fidx: Option<usize> = None;
        let mut pi: usize = 0;
        loop
            invariant
                pi <= params@.len(),
                fidx is None,
                forall|j: int| 0 <= j < pi ==> pv[j] != lv[k as int].value,
            decreases params@.len() - pi,
        {
            if pi >= params.len() {
                break;
            }
            proof {
                assert(pv[pi as int] == params@[pi as int]@);
            }
            if params[pi].eq(&line[k].value) {
                fidx = Some(pi);
                break;
            }
            pi += 1;
        }
        proof {
            lemma_param_index_scan(pv, lv[k as int].value, pi as int);
        }
        match fidx {
            Some(pidx) => {
                proof {
                    assert(param_index(pv, lv[k as int].value, 0) == Some(pidx as int));
                }
                t.push(TemplateItem::Var { index: #[verifier::truncate] (pidx as u8) });
                if k < line.len() - 1 && !line[k].suffix.as_str().is_empty() {
                    t.push(TemplateItem::Text { data: line[k].suffix.clone() });
                }
            },
            None => {
                proof {
                    assert(param_index(pv, lv[k as int].value, 0) is None);
                }
                if k < line.len() - 1 {
                    let mut d = line[k].value.clone();
                    d.append(line[k].suffix.as_str());
                    t.push(TemplateItem::Text { data: d });
                } else {
                    t.push(TemplateItem::Text { data: line[k].value.clone() });
                }
            },
        }
        proof {
            assert(template_views(t@) + spec_template(lv, k as int + 1, pv) =~= t0v
                + spec_template(lv, k as int, pv));
        }
        k += 1;
    }
    proof {
        assert(spec_template(lv, k as int, pv) =~= Seq::<TemplateItemModel>::empty());
        assert(template_views(t@) + spec_template(lv, k as int, pv) =~= template_views(t@));
    }
    t
}

/// Parses one definition line into its pattern and template.
#[verifier::loop_isolation(false)]
fn parse_definition(line: &Vec<Token>) -> (r: Result<ParsedDef, MacroError>)
    requires
        line@.len() >= 1,
    ensures
        ({
            let m = spec_parse_def(token_views(line@));
            match r {
                Ok(d) => m matches Ok(dm) && d@ == dm,
                Err(e) => m matches Err(em) && e@ == em,
            }
        }),
{
    let ghost lv = token_views(line@);
    proof {
        assert(forall|i: int| 0 <= i < line@.len() ==> lv[i] == line@[i]@);
    }
    let name = line[0].value.clone();
    let nlen = line.len();
    if nlen < 2 {
        return Err(MacroError::DefinitionParse { fragment: name });
    }
    if is_char_token(&line[1].value, '=') {
        let empty_params: Vec<String> = Vec::new();
        proof {
            assert(param_views(empty_params@) =~= Seq::<Seq<char>>::empty());
        }
        let template = build_template(line, 2, &empty_params);
        let mut pattern: Vec<PatternItem> = Vec::new();
        pattern.push(PatternItem::MatchToken { value: name.clone() });
        proof {
            assert(key_views(pattern@) =~= seq![PatternModel::MatchToken { value: name@ }]);
        }
        return Ok(ParsedDef { name, pattern, template });
    }
    if is_char_token(&line[1].value, '(') {
        let mut params: Vec<String> = Vec::new();
        let mut i: usize = 2;
        proof {
            assert(param_views(params@) =~= Seq::<Seq<char>>::empty());
        }
        loop
            invariant
                2 <= i <= line@.len() + 1,
                params@.len() <= 255,
                spec_parse_params(lv, 2, Seq::empty()) == spec_parse_params(
                    lv,
                    i as int,
                    param_views(params@),
                ),
            decreases line@.len() + 1 - i,
        {
            if i >= nlen {
                return Err(MacroError::UnmatchedBlock { position: 1 });
            }
            if is_char_token(&line[i].value, ')') {
                let after = i + 1;
                if after < nlen && is_char_token(&line[after].value, '=') {
                    let template = build_template(line, after + 1, &params);
                    let pattern = build_func_pattern(&name, &params);
                    return Ok(ParsedDef { name, pattern, template });
                } else if after < nlen {
                    return Err(
                        MacroError::DefinitionParse { fragment: line[after].value.clone() },
                    );
                } else {
                    return Err(MacroError::DefinitionParse { fragment: name });
                }
            }
            if is_char_token(&line[i].value, ',') || is_char_token(&line[i].value, '=') {
                return Err(MacroError::DefinitionParse { fragment: line[i].value.clone() });
            }
            if params.len() >= 255 {
                return Err(MacroError::DefinitionParse { fragment: line[i].value.clone() });
            }
            if i + 1 >= nlen {
                return Err(MacroError::UnmatchedBlock { position: 1 });
            }
            if is_char_token(&line[i + 1].value, ',') {
                let ghost ps0 = param_views(params@);
                params.push(line[i].value.clone());
                proof {
                    assert(param_views(params@) =~= ps0.push(lv[i as int].value));
                }
                i += 2;
            } else if is_char_token(&line[i + 1].value, ')') {
                let ghost ps0 = param_views(params@);
                params.push(line[i].value.clone());
                proof {
                    assert(param_views(params@) =~= ps0.push(lv[i as int].value));
                }
                let after = i + 2;
                if after < nlen && is_char_token(&line[after].value, '=') {
                    let template = build_template(line, after + 1, &params);
                    let pattern = build_func_pattern(&name, &params);
                    return Ok(ParsedDef { name, pattern, template });
                } else if after < nlen {
                    return Err(
                        MacroError::DefinitionParse { fragment: line[after].value.clone() },
                    );
                } else {
                    return Err(MacroError::DefinitionParse { fragment: name });
                }
            } else {
                return Err(MacroError::DefinitionParse { fragment: line[i + 1].value.clone() });
            }
        }
    }
    if is_char_token(&line[1].value, '{') {
        if nlen >= 3 && is_char_token(&line[2].value, '}') {
            if nlen >= 4 && is_char_token(&line[3].value, '=') {
                let bparams = block_params_exec();
                let template = build_template(line, 4, &bparams);
                let mut pattern: Vec<PatternItem> = Vec::new();
                pattern.push(PatternItem::MatchToken { value: name.clone() });
                let mut inner: Vec<PatternItem> = Vec::new();
                inner.push(PatternItem::SequenceVar);
                proof {
                    crate::pattern::lemma_pattern_models_of(inner@);
                }
                pattern.push(
                    PatternItem::BlockPattern {
                        block_delim: BlockDelimiter::CurlyBracket,
                        inner_pattern: inner,
                    },
                );
                proof {
                    assert(key_views(pattern@) =~= block_pattern(name@)) by {
                        assert(key_views(pattern@).len() == 2);
                        assert(key_views(pattern@)[0] == PatternModel::MatchToken {
                            value: name@,
                        });
                        assert(key_views(pattern@)[1] matches PatternModel::BlockPattern {
                            block_delim: BlockDelimiter::CurlyBracket,
                            inner_pattern,
                        } && inner_pattern =~= seq![PatternModel::SequenceVar]);
                    }
                }
                return Ok(ParsedDef { name, pattern, template });
            } else if nlen >= 4 {
                return Err(MacroError::DefinitionParse { fragment: line[3].value.clone() });
            } else {
                return Err(MacroError::DefinitionParse { fragment: name });
            }
        } else {
            let mut j: usize = 2;
            loop
                invariant
                    2 <= j <= line@.len(),
                    forall|t: int| 2 <= t < j ==> (#[trigger] lv[t]).value != seq!['}'],
                decreases line@.len() - j,
            {
                if j >= nlen {
                    return Err(MacroError::UnmatchedBlock { position: 1 });
                }
                if is_char_token(&line[j].value, '}') {
                    proof {
                        assert(2 <= j < lv.len() && lv[j as int].value == seq!['}']);
                    }
                    return Err(MacroError::DefinitionParse { fragment: line[2].value.clone() });
                }
                j += 1;
            }
        }
    }
    Err(MacroError::DefinitionParse { fragment: line[1].value.clone() })
}

/// A store holding no macros expands every text to itself: tokenization
/// loses nothing and every token passes through unchanged.
pub proof fn lemma_empty_store_identity(m: Macros, t: &crate::tokenizer::Tokenizer, text: Seq<char>)
    requires
        m.model_edges() == Seq::<TrieEdge<PatternItem, Template>>::empty(),
    ensures
        m.spec_expansion(t.spec_tokenize(text)) == text,
{
    let toks = t.spec_tokenize(text);
    let edges = Seq::<TrieEdge<PatternItem, Template>>::empty();
    assert forall|p: int| 0 <= p < toks.len() implies (#[trigger] match_at(
        edges,
        0,
        toks,
        p,
        Seq::empty(),
    )) is None by {
        crate::matcher::lemma_match_at_empty(0, toks, p, Seq::empty());
    }
    crate::matcher::lemma_no_match_passthrough(edges, toks, 0);
    assert(toks.skip(0) =~= toks);
    t.lemma_tokenize_round_trip(text);
}

/// The expansion loop over an edge arena: single pass, left to right,
/// emitted output never re-matched.
#[verifier::loop_isolation(false)]
fn expand_with(
    edges: &Vec<TrieEdge<PatternItem, Template>>,
    toks: &Vec<Token>,
    out: &mut SimpleOutput,
)
    ensures
        final(out)@ == old(out)@ + spec_expand(edges@, token_views(toks@), 0),
{
    let ghost tv = token_views(toks@);
    let empty_vars: Vec<(usize, usize)> = Vec::new();
    proof {
        assert(span_views(empty_vars@) =~= Seq::<(int, int)>::empty());
    }
    let mut pos: usize = 0;
    while pos < toks.len()
        invariant
            pos <= toks@.len(),
            old(out)@ + spec_expand(edges@, tv, 0) == out@ + spec_expand(edges@, tv, pos as int),
        decreases toks@.len() - pos,
    {
        let ghost out0 = out@;
        match exec_match_at(edges, 0, toks, pos, &empty_vars) {
            Some(h) => {
                let ghost res = match_at(edges@, 0, tv, pos as int, Seq::empty()).unwrap();
                let piece = match &edges[h.tpl].node {
                    HashTrieNode::Leaf { value } => render_template(value, toks, &h.vars),
                    HashTrieNode::Branch { .. } => {
                        proof {
                            assert(false);
                        }
                        String::new()
                    },
                };
                out.write(piece.as_str());
                proof {
                    assert(piece@ == render(res.template, tv, res.vars));
                    assert(spec_expand(edges@, tv, pos as int) == render(res.template, tv, res.vars)
                        + spec_expand(edges@, tv, res.end));
                    assert(out@ + spec_expand(edges@, tv, res.end) =~= out0 + spec_expand(
                        edges@,
                        tv,
                        pos as int,
                    ));
                }
                pos = h.end;
            },
            None => {
                out.write(toks[pos].value.as_str());
                out.write(toks[pos].suffix.as_str());
                proof {
                    assert(tv[pos as int] == toks@[pos as int]@);
                    assert(spec_expand(edges@, tv, pos as int) == tv[pos as int].value + tv[
                        pos as int].suffix + spec_expand(edges@, tv, pos + 1));
                    assert(out@ + spec_expand(edges@, tv, pos + 1) =~= out0 + spec_expand(
                        edges@,
                        tv,
                        pos as int,
                    ));
                }
                pos += 1;
            },
        }
    }
    proof {
        assert(spec_expand(edges@, tv, toks@.len() as int) =~= Seq::<char>::empty());
        assert(out@ + spec_expand(edges@, tv, toks@.len() as int) =~= out@);
    }
}

} // verus!
