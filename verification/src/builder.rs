//! Building a macro store from definition source texts, and the whole
//! text-to-text expansion entry point.

use vstd::prelude::*;

use crate::io_helpers::simplify_output;
use crate::macro_def::{first_conflict, spec_parse_lines, store_map, MacroError, MacroErrorModel,
    Macros, StoreMap};
use crate::pattern::{PatternModel, TemplateItemModel};
use crate::tokenizer::{token_views, Tokenizer};

verus! {

/// The sources' texts.
pub open spec fn source_views(ss: Seq<String>) -> Seq<Seq<char>> {
    ss.map_values(|s: String| s@)
}

/// Total length of the sources from `i` on.
pub open spec fn sum_lens(ss: Seq<Seq<char>>, i: int) -> nat
    decreases ss.len() - i,
{
    if i < 0 || i >= ss.len() {
        0
    } else {
        ss[i].len() + sum_lens(ss, i + 1)
    }
}

/// The outcome of tokenizing and loading every definition source in
/// order on top of `base`: the final store, or the first parse error or
/// pattern conflict.
pub open spec fn load_sources(
    t: Tokenizer,
    sources: Seq<Seq<char>>,
    i: int,
    base: StoreMap,
) -> Result<StoreMap, MacroErrorModel>
    decreases sources.len() - i,
{
    if i < 0 || i >= sources.len() {
        Ok(base)
    } else {
        let toks = t.spec_tokenize(sources[i]);
        match spec_parse_lines(toks, 0) {
            Err(e) => Err(e),
            Ok(defs) => match first_conflict(base, defs, 0) {
                Some(j) => Err(MacroErrorModel::PatternConflict { name: defs[j].name }),
                None => load_sources(t, sources, i + 1, store_map(base, defs, defs.len() as int)),
            },
        }
    }
}

/// Builds a macro store from the given definition source texts, reporting
/// the first malformed definition or pattern conflict.
#[verifier::loop_isolation(false)]
pub fn build_macros(tokenizer: &Tokenizer, macro_sources: &Vec<String>) -> (r: Result<
    Macros,
    MacroError,
>)
    requires
        sum_lens(source_views(macro_sources@), 0) <= u32::MAX - 1,
    ensures
        ({
            let load = load_sources(*tokenizer, source_views(macro_sources@), 0, Map::empty());
            match r {
                Ok(m) => m.wf() && (load matches Ok(st) && m.stored_map() == st),
                Err(e) => load matches Err(em) && e@ == em,
            }
        }),
{
    let ghost sv = source_views(macro_sources@);
    let mut macros = Macros::new();
    proof {
        macros.lemma_capacity_mono((u32::MAX - 1) as nat, sum_lens(sv, 0));
    }
    let mut i: usize = 0;
    while i < macro_sources.len()
        invariant
            i <= macro_sources@.len(),
            macros.wf(),
            macros.has_capacity(sum_lens(sv, i as int)),
            load_sources(*tokenizer, sv, 0, Map::empty()) == load_sources(
                *tokenizer,
                sv,
                i as int,
                macros.stored_map(),
            ),
        decreases macro_sources@.len() - i,
    {
        let ghost prev = macros;
        let toks = tokenizer.tokenize(macro_sources[i].as_str());
        proof {
            assert(sv[i as int] == macro_sources@[i as int]@);
            assert(token_views(toks@) == tokenizer.spec_tokenize(sv[i as int]));
            tokenizer.lemma_tokenize_len(sv[i as int]);
            assert(sum_lens(sv, i as int) == sv[i as int].len() + sum_lens(sv, i as int + 1));
            macros.lemma_capacity_mono(sum_lens(sv, i as int), toks@.len() as nat);
        }
        match macros.read_macros(&toks) {
            Ok(_) => {
                proof {
                    let defs = spec_parse_lines(token_views(toks@), 0)->Ok_0;
                    assert(load_sources(*tokenizer, sv, i as int, prev.stored_map())
                        == load_sources(
                        *tokenizer,
                        sv,
                        i as int + 1,
                        store_map(prev.stored_map(), defs, defs.len() as int),
                    ));
                    assert(macros.stored_map() == store_map(
                        prev.stored_map(),
                        defs,
                        defs.len() as int,
                    ));
                    // Capacity for the remaining sources.
                    assert(prev.has_capacity(
                        sum_lens(sv, i as int + 1) + toks@.len() as nat,
                    )) by {
                        prev.lemma_capacity_mono(
                            sum_lens(sv, i as int),
                            sum_lens(sv, i as int + 1) + toks@.len() as nat,
                        );
                    }
                    assert(macros.has_capacity(sum_lens(sv, i as int + 1)));
                }
            },
            Err(e) => {
                return Err(e);
            },
        }
        i += 1;
    }
    proof {
        assert(load_sources(*tokenizer, sv, i as int, macros.stored_map()) == Ok::<
            StoreMap,
            MacroErrorModel,
        >(macros.stored_map()));
    }
    Ok(macros)
}

/// Expands `input_text` against a built store: a single left-to-right
/// pass in which every matched macro invocation is replaced by its
/// rendered template and everything else passes through verbatim. Never
/// fails.
pub fn expand(tokenizer: &Tokenizer, input_text: &str, store: &Macros) -> (r: String)
    ensures
        r@ == store.spec_expansion(tokenizer.spec_tokenize(input_text@)),
{
    let tokens = tokenizer.tokenize(input_text);
    let mut out = simplify_output();
    store.expand_tokens(&tokens, &mut out);
    out.into_string()
}

} // verus!
