//! Splitting raw text into tokens that carry their own trailing
//! whitespace, so the original text can always be rebuilt from them.

use vstd::prelude::*;

verus! {

/// The abstract value of a token: its significant text together with the
/// run of separator characters that immediately followed it in the source.
pub ghost struct TokenModel {
    pub value: Seq<char>,
    pub suffix: Seq<char>,
}

/// A token carries its significant text in `value` (a word, an operator, or
/// a single singleton character) and in `suffix` the separator characters
/// that followed it, stored verbatim so the original text can be
/// reassembled from the token stream without loss.
#[derive(Debug, Clone, PartialEq, Eq)]
pub struct Token {
    pub value: String,
    pub suffix: String,
}

impl View for Token {
    type V = TokenModel;

    open spec fn view(&self) -> TokenModel {
        TokenModel { value: self.value@, suffix: self.suffix@ }
    }
}

impl Token {
    pub fn new(value: &str, suffix: &str) -> (t: Token)
        ensures
            t@.value == value@,
            t@.suffix == suffix@,
    {
        Token { value: value.to_owned(), suffix: suffix.to_owned() }
    }
}

pub open spec fn token_views(toks: Seq<Token>) -> Seq<TokenModel> {
    toks.map_values(|t: Token| t@)
}

/// Concatenation of every token's value and suffix, in order.
pub open spec fn flatten_tokens(toks: Seq<TokenModel>) -> Seq<char>
    decreases toks.len(),
{
    if toks.len() == 0 {
        Seq::empty()
    } else {
        toks[0].value + toks[0].suffix + flatten_tokens(toks.drop_first())
    }
}

/// Splits text into tokens. The singletons are the characters that always
/// form a token value by themselves; the separators mark boundaries between
/// tokens and are absorbed into token suffixes.
pub struct Tokenizer {
    singletons: Vec<char>,
    separators: Vec<char>,
}

pub open spec fn default_singletons() -> Seq<char> {
    seq!['[', ']', '{', '}', '(', ')', ',', ':', '#']
}

pub open spec fn default_separators() -> Seq<char> {
    seq![' ', '\n', '\r', '\t']
}

fn contains_char(set: &Vec<char>, c: char) -> (r: bool)
    ensures
        r == set@.contains(c),
{
    let mut i: usize = 0;
    loop
        invariant
            i <= set@.len(),
            forall|j: int| 0 <= j < i ==> set@[j] != c,
        ensures
            i <= set@.len(),
            forall|j: int| 0 <= j < i ==> set@[j] != c,
            i < set@.len() ==> set@[i as int] == c,
            i == set@.len() ==> !set@.contains(c),
        decreases set@.len() - i,
    {
        if i >= set.len() {
            break;
        }
        if set[i] == c {
            break;
        }
        i += 1;
    }
    if i < set.len() {
        assert(set@.contains(c)) by {
            assert(set@[i as int] == c);
        }
        true
    } else {
        false
    }
}

impl Tokenizer {
    /// Whether `c` always forms a token value of its own.
    pub closed spec fn is_singleton(&self, c: char) -> bool {
        self.singletons@.contains(c)
    }

    /// Whether `c` is a separator, never part of a value.
    pub closed spec fn is_separator(&self, c: char) -> bool {
        self.separators@.contains(c)
    }

    /// A character that ends the scan of a value.
    pub open spec fn is_boundary(&self, c: char) -> bool {
        self.is_singleton(c) || self.is_separator(c)
    }

    pub fn new(singletons: Vec<char>, separators: Vec<char>) -> (t: Tokenizer)
        ensures
            forall|c: char| t.is_singleton(c) == singletons@.contains(c),
            forall|c: char| t.is_separator(c) == separators@.contains(c),
    {
        Tokenizer { singletons, separators }
    }

    pub fn default() -> (t: Tokenizer)
        ensures
            forall|c: char| t.is_singleton(c) == default_singletons().contains(c),
            forall|c: char| t.is_separator(c) == default_separators().contains(c),
    {
        let mut singletons: Vec<char> = Vec::new();
        singletons.push('[');
        singletons.push(']');
        singletons.push('{');
        singletons.push('}');
        singletons.push('(');
        singletons.push(')');
        singletons.push(',');
        singletons.push(':');
        singletons.push('#');
        let mut separators: Vec<char> = Vec::new();
        separators.push(' ');
        separators.push('\n');
        separators.push('\r');
        separators.push('\t');
        assert(singletons@ =~= default_singletons());
        assert(separators@ =~= default_separators());
        Tokenizer::new(singletons, separators)
    }

    /// First index at or after `i` that holds a boundary character, or the
    /// text length when there is none.
    pub closed spec fn first_boundary_from(&self, text: Seq<char>, i: int) -> int
        decreases text.len() - i,
    {
        if i < 0 || i >= text.len() {
            text.len() as int
        } else if self.is_boundary(text[i]) {
            i
        } else {
            self.first_boundary_from(text, i + 1)
        }
    }

    /// First index at or after `i` that does not hold a separator, or the
    /// text length when there is none.
    pub closed spec fn first_nonsep_from(&self, text: Seq<char>, i: int) -> int
        decreases text.len() - i,
    {
        if i < 0 || i >= text.len() {
            text.len() as int
        } else if !self.is_separator(text[i]) {
            i
        } else {
            self.first_nonsep_from(text, i + 1)
        }
    }

    /// Length of the value read at the start of `text`: a singleton is one
    /// character, a separator ends the value at once, and any other
    /// character is scanned up to the next boundary.
    pub closed spec fn spec_value_len(&self, text: Seq<char>) -> int {
        if text.len() == 0 {
            0
        } else if self.is_singleton(text[0]) {
            1
        } else if self.is_separator(text[0]) {
            0
        } else {
            self.first_boundary_from(text, 1)
        }
    }

    /// Length of the separator run at the start of `text`.
    pub closed spec fn spec_suffix_len(&self, text: Seq<char>) -> int {
        self.first_nonsep_from(text, 0)
    }

    pub proof fn lemma_first_boundary_from(&self, text: Seq<char>, i: int)
        requires
            0 <= i <= text.len(),
        ensures
            i <= self.first_boundary_from(text, i) <= text.len(),
            forall|j: int| i <= j < self.first_boundary_from(text, i) ==> !self.is_boundary(text[j]),
            self.first_boundary_from(text, i) < text.len() ==> self.is_boundary(
                text[self.first_boundary_from(text, i)],
            ),
        decreases text.len() - i,
    {
        if i < text.len() && !self.is_boundary(text[i]) {
            self.lemma_first_boundary_from(text, i + 1);
        }
    }

    pub proof fn lemma_first_boundary_is(&self, text: Seq<char>, a: int, b: int)
        requires
            0 <= a <= b <= text.len(),
            forall|j: int| a <= j < b ==> !self.is_boundary(text[j]),
            b < text.len() ==> self.is_boundary(text[b]),
        ensures
            self.first_boundary_from(text, a) == b,
        decreases b - a,
    {
        if a < b {
            self.lemma_first_boundary_is(text, a + 1, b);
        }
    }

    pub proof fn lemma_first_nonsep_from(&self, text: Seq<char>, i: int)
        requires
            0 <= i <= text.len(),
        ensures
            i <= self.first_nonsep_from(text, i) <= text.len(),
            forall|j: int| i <= j < self.first_nonsep_from(text, i) ==> self.is_separator(text[j]),
            self.first_nonsep_from(text, i) < text.len() ==> !self.is_separator(
                text[self.first_nonsep_from(text, i)],
            ),
        decreases text.len() - i,
    {
        if i < text.len() && self.is_separator(text[i]) {
            self.lemma_first_nonsep_from(text, i + 1);
        }
    }

    pub proof fn lemma_first_nonsep_is(&self, text: Seq<char>, a: int, b: int)
        requires
            0 <= a <= b <= text.len(),
            forall|j: int| a <= j < b ==> self.is_separator(text[j]),
            b < text.len() ==> !self.is_separator(text[b]),
        ensures
            self.first_nonsep_from(text, a) == b,
        decreases b - a,
    {
        if a < b {
            self.lemma_first_nonsep_is(text, a + 1, b);
        }
    }

    pub proof fn lemma_value_suffix_bounds(&self, text: Seq<char>)
        ensures
            0 <= self.spec_value_len(text) <= text.len(),
            0 <= self.spec_suffix_len(text.skip(self.spec_value_len(text))) <= text.len()
                - self.spec_value_len(text),
    {
        if text.len() > 0 && !self.is_singleton(text[0]) && !self.is_separator(text[0]) {
            self.lemma_first_boundary_from(text, 1);
        }
        let v = self.spec_value_len(text);
        self.lemma_first_nonsep_from(text.skip(v), 0);
    }

    /// The token stream produced from `text`: repeatedly read a value and
    /// its following separator run, stopping when both are empty.
    pub closed spec fn spec_tokenize(&self, text: Seq<char>) -> Seq<TokenModel>
        decreases text.len(),
            via Self::spec_tokenize_decreases
    {
        let v = self.spec_value_len(text);
        let s = self.spec_suffix_len(text.skip(v));
        if v + s <= 0 {
            Seq::empty()
        } else {
            seq![TokenModel { value: text.take(v), suffix: text.skip(v).take(s) }]
                + self.spec_tokenize(text.skip(v + s))
        }
    }

    #[via_fn]
    proof fn spec_tokenize_decreases(&self, text: Seq<char>) {
        self.lemma_value_suffix_bounds(text);
    }

    /// Reproducing every token's value and suffix in order yields the
    /// original text, for all inputs.
    pub proof fn lemma_tokenize_round_trip(&self, text: Seq<char>)
        ensures
            flatten_tokens(self.spec_tokenize(text)) == text,
        decreases text.len(),
    {
        self.lemma_value_suffix_bounds(text);
        let v = self.spec_value_len(text);
        let s = self.spec_suffix_len(text.skip(v));
        if v + s <= 0 {
            if text.len() > 0 {
                // A nonempty text always yields a nonempty value or suffix.
                if self.is_singleton(text[0]) {
                    assert(v == 1);
                } else if self.is_separator(text[0]) {
                    assert(text.skip(0) =~= text);
                    self.lemma_first_nonsep_from(text, 0);
                    assert(s > 0);
                } else {
                    self.lemma_first_boundary_from(text, 1);
                    assert(v >= 1);
                }
            }
            assert(text =~= Seq::<char>::empty());
            assert(flatten_tokens(self.spec_tokenize(text)) =~= text);
        } else {
            self.lemma_tokenize_round_trip(text.skip(v + s));
            let head = TokenModel { value: text.take(v), suffix: text.skip(v).take(s) };
            let rest = self.spec_tokenize(text.skip(v + s));
            assert((seq![head] + rest).drop_first() =~= rest);
            assert(flatten_tokens(seq![head] + rest) == head.value + head.suffix + flatten_tokens(
                rest,
            ));
            assert(text.take(v) + text.skip(v).take(s) + text.skip(v + s) =~= text);
        }
    }

    /// A token stream never holds more tokens than the text has
    /// characters: every token consumes at least one.
    pub proof fn lemma_tokenize_len(&self, text: Seq<char>)
        ensures
            self.spec_tokenize(text).len() <= text.len(),
        decreases text.len(),
    {
        self.lemma_value_suffix_bounds(text);
        let v = self.spec_value_len(text);
        let su = self.spec_suffix_len(text.skip(v));
        if v + su > 0 {
            self.lemma_tokenize_len(text.skip(v + su));
        }
    }

    /// Each suffix consists of separator characters only; a value that is
    /// not a lone singleton character contains no boundary character at
    /// all, so every singleton always stands isolated as its own token; and
    /// no token is entirely empty.
    pub proof fn lemma_singleton_isolation(&self, text: Seq<char>)
        ensures
            forall|k: int, j: int|
                0 <= k < self.spec_tokenize(text).len() && 0 <= j < self.spec_tokenize(
                    text,
                )[k].suffix.len() ==> self.is_separator(
                    #[trigger] self.spec_tokenize(text)[k].suffix[j],
                ),
            forall|k: int, j: int|
                0 <= k < self.spec_tokenize(text).len() && 0 <= j < self.spec_tokenize(
                    text,
                )[k].value.len() && !(self.spec_tokenize(text)[k].value.len() == 1
                    && self.is_singleton(self.spec_tokenize(text)[k].value[0])) ==> !self.is_boundary(
                    #[trigger] self.spec_tokenize(text)[k].value[j],
                ),
            forall|k: int|
                0 <= k < self.spec_tokenize(text).len() ==> (#[trigger] self.spec_tokenize(
                    text,
                )[k]).value.len() + self.spec_tokenize(text)[k].suffix.len() > 0,
        decreases text.len(),
    {
        self.lemma_value_suffix_bounds(text);
        let v = self.spec_value_len(text);
        let s = self.spec_suffix_len(text.skip(v));
        if v + s <= 0 {
        } else {
            self.lemma_singleton_isolation(text.skip(v + s));
            let head = TokenModel { value: text.take(v), suffix: text.skip(v).take(s) };
            let rest = self.spec_tokenize(text.skip(v + s));
            let toks = self.spec_tokenize(text);
            assert(toks =~= seq![head] + rest);
            self.lemma_first_nonsep_from(text.skip(v), 0);
            assert(forall|j: int| 0 <= j < head.suffix.len() ==> self.is_separator(
                #[trigger] head.suffix[j],
            )) by {
                assert(forall|j: int| 0 <= j < s ==> self.is_separator(#[trigger] text.skip(v)[j]));
            }
            if !(head.value.len() == 1 && self.is_singleton(head.value[0])) {
                if v > 0 {
                    // The value was read by the boundary scan.
                    assert(!self.is_singleton(text[0]));
                    assert(!self.is_separator(text[0]));
                    self.lemma_first_boundary_from(text, 1);
                    assert(forall|j: int| 0 <= j < head.value.len() ==> !self.is_boundary(
                        #[trigger] head.value[j],
                    )) by {
                        assert(forall|j: int| 1 <= j < v ==> !self.is_boundary(text[j]));
                        assert(!self.is_boundary(text[0]));
                        assert(forall|j: int| 0 <= j < v ==> head.value[j] == text[j]);
                    }
                }
            }
            assert(forall|k: int| 0 <= k < toks.len() ==> (#[trigger] toks[k]) == if k == 0 {
                head
            } else {
                rest[k - 1]
            });
        }
    }

    /// Index just past the value that starts at `start`.
    fn read_value(&self, input: &str, start: usize, n: usize) -> (end: usize)
        requires
            n == input@.len(),
            start <= n,
        ensures
            start <= end <= n,
            end - start == self.spec_value_len(input@.skip(start as int)),
    {
        let t = Ghost(input@.skip(start as int));
        assert(t@.len() == n - start);
        if start >= n {
            return start;
        }
        assert(forall|j: int| 0 <= j < t@.len() ==> t@[j] == input@[start + j]);
        let c = input.get_char(start);
        if contains_char(&self.singletons, c) {
            return start + 1;
        }
        if contains_char(&self.separators, c) {
            return start;
        }
        let mut i: usize = start + 1;
        loop
            invariant
                start + 1 <= i <= n,
                n == input@.len(),
                forall|j: int| start + 1 <= j < i ==> !self.is_boundary(input@[j]),
            ensures
                start + 1 <= i <= n,
                forall|j: int| start + 1 <= j < i ==> !self.is_boundary(input@[j]),
                i < n ==> self.is_boundary(input@[i as int]),
            decreases n - i,
        {
            if i >= n {
                break;
            }
            let ci = input.get_char(i);
            let sing = contains_char(&self.singletons, ci);
            let sep = contains_char(&self.separators, ci);
            if sing || sep {
                break;
            }
            i += 1;
        }
        proof {
            assert(forall|j: int| 1 <= j < i - start ==> !self.is_boundary(#[trigger] t@[j]));
            self.lemma_first_boundary_is(t@, 1, i - start);
        }
        i
    }

    /// Index just past the separator run that starts at `start`.
    fn read_suffix(&self, input: &str, start: usize, n: usize) -> (end: usize)
        requires
            n == input@.len(),
            start <= n,
        ensures
            start <= end <= n,
            end - start == self.spec_suffix_len(input@.skip(start as int)),
    {
        let t = Ghost(input@.skip(start as int));
        assert(t@.len() == n - start);
        assert(forall|j: int| 0 <= j < t@.len() ==> t@[j] == input@[start + j]);
        let mut i: usize = start;
        loop
            invariant
                start <= i <= n,
                n == input@.len(),
                forall|j: int| start <= j < i ==> self.is_separator(input@[j]),
            ensures
                start <= i <= n,
                forall|j: int| start <= j < i ==> self.is_separator(input@[j]),
                i < n ==> !self.is_separator(input@[i as int]),
            decreases n - i,
        {
            if i >= n {
                break;
            }
            let ci = input.get_char(i);
            if !contains_char(&self.separators, ci) {
                break;
            }
            i += 1;
        }
        proof {
            assert(forall|j: int| 0 <= j < i - start ==> self.is_separator(#[trigger] t@[j]));
            self.lemma_first_nonsep_is(t@, 0, i - start);
        }
        i
    }

    /// Splits `input` into its full token stream; concatenating the tokens
    /// back together reproduces `input` exactly.
    pub fn tokenize(&self, input: &str) -> (out: Vec<Token>)
        ensures
            token_views(out@) == self.spec_tokenize(input@),
    {
        let n = input.unicode_len();
        let mut out: Vec<Token> = Vec::new();
        let mut pos: usize = 0;
        proof {
            assert(input@.skip(0) =~= input@);
            assert(token_views(out@) =~= Seq::<TokenModel>::empty());
        }
        loop
            invariant
                pos <= n,
                n == input@.len(),
                self.spec_tokenize(input@) =~= token_views(out@) + self.spec_tokenize(
                    input@.skip(pos as int),
                ),
            ensures
                self.spec_tokenize(input@.skip(pos as int)) =~= Seq::<TokenModel>::empty(),
                self.spec_tokenize(input@) =~= token_views(out@) + self.spec_tokenize(
                    input@.skip(pos as int),
                ),
            decreases n - pos,
        {
            let vend = self.read_value(input, pos, n);
            let send = self.read_suffix(input, vend, n);
            let ghost rem = input@.skip(pos as int);
            proof {
                assert(rem.skip((vend - pos) as int) =~= input@.skip(vend as int));
                assert(self.spec_suffix_len(rem.skip(self.spec_value_len(rem))) == send - vend);
            }
            if vend == pos && send == pos {
                proof {
                    assert(self.spec_tokenize(rem) =~= Seq::<TokenModel>::empty());
                }
                break;
            }
            let value = input.substring_char(pos, vend).to_owned();
            let suffix = input.substring_char(vend, send).to_owned();
            let tok = Token { value, suffix };
            proof {
                let v = self.spec_value_len(rem);
                let s = self.spec_suffix_len(rem.skip(v));
                assert(tok@.value =~= rem.take(v));
                assert(tok@.suffix =~= rem.skip(v).take(s));
                assert(self.spec_tokenize(rem) == seq![tok@] + self.spec_tokenize(
                    rem.skip(v + s),
                ));
                assert(rem.skip(v + s) =~= input@.skip(send as int));
                assert(token_views(out@.push(tok)) =~= token_views(out@) + seq![tok@]);
                assert(token_views(out@) + (seq![tok@] + self.spec_tokenize(
                    input@.skip(send as int),
                )) =~= token_views(out@.push(tok)) + self.spec_tokenize(input@.skip(send as int)));
            }
            out.push(tok);
            pos = send;
        }
        proof {
            assert(token_views(out@) + Seq::<TokenModel>::empty() =~= token_views(out@));
        }
        out
    }
}

} // verus!
