//! Pattern matching over finalized tokens: grammar rules that emit
//! [`Suggestion`]s and disambiguation rules that narrow candidate analyses.
use vstd::prelude::*;

use crate::error::Error;
use crate::tagger::{texts, WordDataModel};
use crate::types::{clone_strings, data_models, Suggestion, SuggestionView, Token, TokenView, WordData};

verus! {

/// A predicate over one token.
#[derive(Debug)]
pub enum Atom {
    /// Some candidate analysis carries this tag id.
    Tag(u16),
    /// The token's text is exactly this.
    Text(String),
    /// The token carries this chunk label.
    Chunk(String),
}

/// One pattern position. A token satisfies it when some predicate of
/// `any_of` holds (or `any_of` is empty) and no predicate of `none_of` holds.
/// The position takes the longest run of satisfying tokens up to `max`, and
/// fails when that run is shorter than `min`: a plain position is `1, 1`, an
/// optional one `0, 1`.
#[derive(Debug)]
pub struct Constraint {
    pub any_of: Vec<Atom>,
    pub none_of: Vec<Atom>,
    pub min: usize,
    pub max: usize,
}

/// A grammar rule: a contiguous pattern and the suggestion it emits. The
/// message and the replacements are emitted as written: text matched by the
/// pattern is not substituted into them.
#[derive(Debug)]
pub struct Rule {
    pub id: String,
    pub message: String,
    pub pattern: Vec<Constraint>,
    pub replacements: Vec<String>,
}

/// A disambiguation rule: where `pattern` matches, the token at offset
/// `target` of the matched window, if the window reaches it, keeps only
/// analyses whose tag id is in `keep`.
#[derive(Debug)]
pub struct Disambiguation {
    pub pattern: Vec<Constraint>,
    pub target: usize,
    pub keep: Vec<u16>,
}

/// Whether `a` holds of token `t`.
pub open spec fn atom_holds(a: Atom, t: TokenView) -> bool {
    match a {
        Atom::Tag(id) => exists|k: int| 0 <= k < t.word.1.len() && (#[trigger] t.word.1[k]).1 == id,
        Atom::Text(s) => t.word.0.0 == s@,
        Atom::Chunk(c) => t.chunks.contains(c@),
    }
}

/// Whether constraint `c` holds of token `t`.
pub open spec fn constraint_holds(c: Constraint, t: TokenView) -> bool {
    &&& (c.any_of@.len() == 0 || exists|i: int|
        0 <= i < c.any_of@.len() && atom_holds(#[trigger] c.any_of@[i], t))
    &&& !exists|i: int| 0 <= i < c.none_of@.len() && atom_holds(#[trigger] c.none_of@[i], t)
}

/// Length of the run of tokens from `pos` that satisfy `c`, at most `limit`.
pub open spec fn run_len(c: Constraint, toks: Seq<TokenView>, pos: int, limit: int) -> int
    decreases limit,
{
    if limit <= 0 || pos < 0 || pos >= toks.len() || !constraint_holds(c, toks[pos]) {
        0
    } else {
        1 + run_len(c, toks, pos + 1, limit - 1)
    }
}

/// Where positions `p..` of `pattern` end when position `p` starts at token
/// `pos`, left to right and greedily; `None` when a run is below its `min`.
pub open spec fn match_end_from(pattern: Seq<Constraint>, toks: Seq<TokenView>, p: int, pos: int) -> Option<int>
    decreases pattern.len() - p,
{
    if p < 0 || p >= pattern.len() {
        Some(pos)
    } else {
        let n = run_len(pattern[p], toks, pos, pattern[p].max as int);
        if n < pattern[p].min {
            None
        } else {
            match_end_from(pattern, toks, p + 1, pos + n)
        }
    }
}

/// Whether `pattern` matches a non-empty window of `toks` starting at `i`.
pub open spec fn pattern_holds_at(pattern: Seq<Constraint>, toks: Seq<TokenView>, i: int) -> bool {
    &&& 0 <= i < toks.len()
    &&& match_end_from(pattern, toks, 0, i) matches Some(e) && e > i
}

/// The end (exclusive) of the window that `pattern` matches from `i`.
pub open spec fn window_end(pattern: Seq<Constraint>, toks: Seq<TokenView>, i: int) -> int {
    match_end_from(pattern, toks, 0, i).unwrap()
}

proof fn lemma_run_len_bounds(c: Constraint, toks: Seq<TokenView>, pos: int, limit: int)
    requires
        0 <= pos <= toks.len(),
    ensures
        0 <= run_len(c, toks, pos, limit) <= toks.len() - pos,
    decreases limit,
{
    if limit > 0 && pos < toks.len() && constraint_holds(c, toks[pos]) {
        lemma_run_len_bounds(c, toks, pos + 1, limit - 1);
    }
}

proof fn lemma_match_end_bounds(pattern: Seq<Constraint>, toks: Seq<TokenView>, p: int, pos: int)
    requires
        0 <= pos <= toks.len(),
    ensures
        match_end_from(pattern, toks, p, pos) matches Some(e) ==> pos <= e <= toks.len(),
    decreases pattern.len() - p,
{
    if 0 <= p < pattern.len() {
        let n = run_len(pattern[p], toks, pos, pattern[p].max as int);
        lemma_run_len_bounds(pattern[p], toks, pos, pattern[p].max as int);
        if n >= pattern[p].min {
            lemma_match_end_bounds(pattern, toks, p + 1, pos + n);
        }
    }
}

/// The models of a token sequence.
pub open spec fn token_views<'t>(v: Seq<Token<'t>>) -> Seq<TokenView> {
    v.map_values(|t: Token<'t>| t@)
}

/// The suggestion `rule` emits for a match at window start `i`.
pub open spec fn suggestion_at(rule: Rule, toks: Seq<TokenView>, i: int) -> SuggestionView {
    SuggestionView {
        source: rule.id@,
        message: rule.message@,
        start: toks[i].char_span.0,
        end: toks[window_end(rule.pattern@, toks, i) - 1].char_span.1,
        text: texts(rule.replacements@),
    }
}

/// Suggestions of `rule` for the windows that start before `n`, in order.
pub open spec fn suggestions_upto(rule: Rule, toks: Seq<TokenView>, n: int) -> Seq<SuggestionView>
    decreases n,
{
    if n <= 0 {
        Seq::empty()
    } else {
        let prev = suggestions_upto(rule, toks, n - 1);
        if pattern_holds_at(rule.pattern@, toks, n - 1) {
            prev.push(suggestion_at(rule, toks, n - 1))
        } else {
            prev
        }
    }
}

/// The models of a sequence of suggestions.
pub open spec fn suggestion_views(v: Seq<Suggestion>) -> Seq<SuggestionView> {
    v.map_values(|s: Suggestion| s@)
}

fn text_matches(t: &Token, s: &String) -> (r: bool)
    ensures
        r == (t@.word.0.0 == s@),
{
    let own = t.word.text.as_str().to_owned();
    own == *s
}

fn has_tag(t: &Token, id: u16) -> (r: bool)
    ensures
        r == exists|k: int| 0 <= k < t@.word.1.len() && (#[trigger] t@.word.1[k]).1 == id,
{
    let mut i: usize = 0;
    while i < t.word.tags.len()
        invariant
            i <= t.word.tags@.len(),
            t@.word.1 == data_models(t.word.tags@),
            t@.word.1.len() == t.word.tags@.len(),
            forall|k: int| 0 <= k < i ==> (#[trigger] t@.word.1[k]).1 != id,
        decreases t.word.tags@.len() - i,
    {
        if t.word.tags[i].pos_id == id {
            assert(t@.word.1[i as int].1 == id);
            return true;
        }
        i = i + 1;
    }
    false
}

fn has_chunk(t: &Token, c: &String) -> (r: bool)
    ensures
        r == t@.chunks.contains(c@),
{
    let mut i: usize = 0;
    while i < t.chunks.len()
        invariant
            i <= t.chunks@.len(),
            t@.chunks == texts(t.chunks@),
            t@.chunks.len() == t.chunks@.len(),
            forall|k: int| 0 <= k < i ==> t@.chunks[k] != c@,
        decreases t.chunks@.len() - i,
    {
        if t.chunks[i] == *c {
            assert(t@.chunks[i as int] == c@);
            return true;
        }
        i = i + 1;
    }
    false
}

fn atom_matches(a: &Atom, t: &Token) -> (r: bool)
    ensures
        r == atom_holds(*a, t@),
{
    match a {
        Atom::Tag(id) => has_tag(t, *id),
        Atom::Text(s) => text_matches(t, s),
        Atom::Chunk(c) => has_chunk(t, c),
    }
}

fn any_atom_matches(atoms: &Vec<Atom>, t: &Token) -> (r: bool)
    ensures
        r == exists|i: int| 0 <= i < atoms@.len() && atom_holds(#[trigger] atoms@[i], t@),
{
    let mut i: usize = 0;
    while i < atoms.len()
        invariant
            i <= atoms@.len(),
            forall|k: int| 0 <= k < i ==> !atom_holds(#[trigger] atoms@[k], t@),
        decreases atoms@.len() - i,
    {
        if atom_matches(&atoms[i], t) {
            return true;
        }
        i = i + 1;
    }
    false
}

impl Constraint {
    /// Whether this constraint holds of `t`.
    pub fn matches(&self, t: &Token) -> (r: bool)
        ensures
            r == constraint_holds(*self, t@),
    {
        let positive = self.any_of.len() == 0 || any_atom_matches(&self.any_of, t);
        positive && !any_atom_matches(&self.none_of, t)
    }
}

fn run_length(c: &Constraint, tokens: &Vec<Token>, pos: usize) -> (r: usize)
    requires
        pos <= tokens@.len(),
    ensures
        r == run_len(*c, token_views(tokens@), pos as int, c.max as int),
{
    let ghost toks = token_views(tokens@);
    let len = tokens.len();
    let mut n: usize = 0;
    loop
        invariant
            len == tokens@.len(),
            toks == token_views(tokens@),
            toks.len() == len,
            pos + n <= len,
            n <= c.max,
            run_len(*c, toks, pos as int, c.max as int) == n + run_len(
                *c,
                toks,
                pos + n,
                c.max - n,
            ),
        decreases len - pos - n,
    {
        if n >= c.max || n >= len - pos {
            return n;
        }
        let fits = c.matches(&tokens[pos + n]);
        assert(toks[pos + n] == tokens@[pos + n]@);
        if !fits {
            return n;
        }
        n = n + 1;
    }
}

/// Where the window that `pattern` matches from token `start` ends
/// (exclusive), or `None` when some position's run is below its `min`.
pub fn match_end_at(pattern: &Vec<Constraint>, tokens: &Vec<Token>, start: usize) -> (r: Option<usize>)
    requires
        start <= tokens@.len(),
    ensures
        match_end_from(pattern@, token_views(tokens@), 0, start as int) == (match r {
            Some(e) => Some(e as int),
            None => None::<int>,
        }),
        r matches Some(e) ==> start <= e <= tokens@.len(),
{
    let ghost toks = token_views(tokens@);
    let len = tokens.len();
    let mut pos = start;
    let mut p: usize = 0;
    while p < pattern.len()
        invariant
            len == tokens@.len(),
            toks == token_views(tokens@),
            toks.len() == tokens@.len(),
            start <= pos <= tokens@.len(),
            p <= pattern@.len(),
            match_end_from(pattern@, toks, 0, start as int) == match_end_from(
                pattern@,
                toks,
                p as int,
                pos as int,
            ),
        decreases pattern@.len() - p,
    {
        let n = run_length(&pattern[p], tokens, pos);
        proof {
            lemma_run_len_bounds(pattern@[p as int], toks, pos as int, pattern@[p as int].max as int);
        }
        if n < pattern[p].min {
            return None;
        }
        pos = pos + n;
        p = p + 1;
    }
    Some(pos)
}

impl Rule {
    /// The suggestions of this rule on `tokens`, one per matching window, in
    /// order of window start.
    pub fn apply(&self, tokens: &Vec<Token>) -> (r: Vec<Suggestion>)
        ensures
            suggestion_views(r@) == suggestions_upto(*self, token_views(tokens@), tokens@.len() as int),
    {
        let ghost toks = token_views(tokens@);
        let mut r: Vec<Suggestion> = Vec::new();
        let mut i: usize = 0;
        while i < tokens.len()
            invariant
                i <= tokens@.len(),
                toks == token_views(tokens@),
                suggestion_views(r@) == suggestions_upto(*self, toks, i as int),
            decreases tokens@.len() - i,
        {
            let found = match_end_at(&self.pattern, tokens, i);
            if found.is_some() && found.unwrap() > i {
                let last = found.unwrap() - 1;
                let s = Suggestion {
                    source: self.id.clone(),
                    message: self.message.clone(),
                    start: tokens[i].char_span.0,
                    end: tokens[last].char_span.1,
                    text: clone_strings(&self.replacements),
                };
                assert(toks[i as int] == tokens@[i as int]@);
                assert(toks[last as int] == tokens@[last as int]@);
                r.push(s);
                assert(suggestion_views(r@) =~= suggestions_upto(*self, toks, i + 1));
            } else {
                assert(suggestion_views(r@) =~= suggestions_upto(*self, toks, i + 1));
            }
            i = i + 1;
        }
        r
    }
}

/// Suggestions of the first `n` rules on `toks`, rule by rule.
pub open spec fn all_suggestions(rules: Seq<Rule>, toks: Seq<TokenView>, n: int) -> Seq<SuggestionView>
    decreases n,
{
    if n <= 0 {
        Seq::empty()
    } else {
        all_suggestions(rules, toks, n - 1) + suggestions_upto(rules[n - 1], toks, toks.len() as int)
    }
}

/// The suggestions of every rule on `tokens`: those of the first rule, then
/// those of the second, and so on. Overlapping matches are all kept. An
/// empty sequence (not even the sentence-start token) is an internal error.
pub fn check(rules: &Vec<Rule>, tokens: &Vec<Token>) -> (r: Result<Vec<Suggestion>, Error>)
    ensures
        tokens@.len() == 0 <==> r matches Err(Error::Unexpected(_)),
        tokens@.len() > 0 ==> r is Ok,
        r matches Ok(v) ==> suggestion_views(v@) == all_suggestions(
            rules@,
            token_views(tokens@),
            rules@.len() as int,
        ),
{
    if tokens.len() == 0 {
        return Err(Error::Unexpected("empty token sequence".to_owned()));
    }
    let ghost toks = token_views(tokens@);
    let mut r: Vec<Suggestion> = Vec::new();
    let mut i: usize = 0;
    while i < rules.len()
        invariant
            i <= rules@.len(),
            toks == token_views(tokens@),
            toks.len() == tokens@.len(),
            suggestion_views(r@) == all_suggestions(rules@, toks, i as int),
        decreases rules@.len() - i,
    {
        let mut found = rules[i].apply(tokens);
        let ghost prev = r@;
        let ghost more = found@;
        r.append(&mut found);
        assert(suggestion_views(r@) =~= suggestion_views(prev) + suggestion_views(more));
        i = i + 1;
    }
    Ok(r)
}

/// Whether an analysis' tag id is one of `keep`.
pub open spec fn kept_by(keep: Seq<u16>) -> spec_fn(WordDataModel) -> bool {
    |d: WordDataModel| keep.contains(d.1)
}

/// Token `t` with only the analyses whose tag id is in `keep`, in order.
pub open spec fn filtered_view(t: TokenView, keep: Seq<u16>) -> TokenView {
    TokenView { word: (t.word.0, t.word.1.filter(kept_by(keep))), ..t }
}

/// The tokens after `d` ran over the windows that start before `n`; each
/// window is matched against the tokens as the earlier windows left them.
pub open spec fn disambiguated_upto(d: Disambiguation, toks: Seq<TokenView>, n: int) -> Seq<TokenView>
    decreases n,
{
    if n <= 0 {
        toks
    } else {
        let prev = disambiguated_upto(d, toks, n - 1);
        let j = n - 1 + d.target;
        if pattern_holds_at(d.pattern@, prev, n - 1) && j < window_end(d.pattern@, prev, n - 1) {
            prev.update(j, filtered_view(prev[j], d.keep@))
        } else {
            prev
        }
    }
}

fn keeps(keep: &Vec<u16>, id: u16) -> (r: bool)
    ensures
        r == keep@.contains(id),
{
    let mut i: usize = 0;
    while i < keep.len()
        invariant
            i <= keep@.len(),
            forall|k: int| 0 <= k < i ==> keep@[k] != id,
        decreases keep@.len() - i,
    {
        if keep[i] == id {
            return true;
        }
        i = i + 1;
    }
    false
}

impl<'t> Token<'t> {
    /// Keeps only the analyses whose tag id is in `keep`, in their order.
    pub fn retain_tags(&mut self, keep: &Vec<u16>)
        ensures
            final(self)@ == filtered_view(old(self)@, keep@),
            final(self).text == old(self).text,
            final(self).tagger == old(self).tagger,
    {
        let ghost pre = data_models(self.word.tags@);
        let ghost pred = kept_by(keep@);
        let mut kept: Vec<WordData<'t>> = Vec::new();
        let mut i: usize = 0;
        while i < self.word.tags.len()
            invariant
                i <= self.word.tags@.len(),
                pre == data_models(self.word.tags@),
                pre.len() == self.word.tags@.len(),
                pred == kept_by(keep@),
                data_models(kept@) == pre.subrange(0, i as int).filter(pred),
            decreases self.word.tags@.len() - i,
        {
            let d = &self.word.tags[i];
            proof {
                reveal(Seq::filter);
                assert(pre.subrange(0, i + 1).drop_last() =~= pre.subrange(0, i as int));
                assert(pre.subrange(0, i + 1).last() == pre[i as int]);
                assert(pre[i as int] == d@);
            }
            if keeps(keep, d.pos_id) {
                let copy = WordData::new(d.lemma.duplicate(), d.pos_id);
                kept.push(copy);
                assert(data_models(kept@) =~= pre.subrange(0, i + 1).filter(pred));
            }
            i = i + 1;
        }
        assert(pre.subrange(0, i as int) =~= pre);
        self.word.tags = kept;
    }
}

impl Disambiguation {
    /// Runs this rule over `tokens`: at each window start in turn where the
    /// pattern matches, the token at offset `target` is narrowed to `keep`.
    pub fn apply<'t>(&self, tokens: &mut Vec<Token<'t>>)
        ensures
            token_views(final(tokens)@) == disambiguated_upto(
                *self,
                token_views(old(tokens)@),
                old(tokens)@.len() as int,
            ),
            final(tokens)@.len() == old(tokens)@.len(),
            forall|k: int|
                0 <= k < old(tokens)@.len() ==> (#[trigger] final(tokens)@[k]).text == old(
                    tokens,
                )@[k].text && final(tokens)@[k].tagger == old(tokens)@[k].tagger,
    {
        let ghost start = token_views(tokens@);
        let n = tokens.len();
        let mut i: usize = 0;
        while i < n
            invariant
                n == tokens@.len(),
                n == old(tokens)@.len(),
                i <= n,
                start == token_views(old(tokens)@),
                token_views(tokens@) == disambiguated_upto(*self, start, i as int),
                forall|k: int|
                    0 <= k < n ==> (#[trigger] tokens@[k]).text == old(tokens)@[k].text
                        && tokens@[k].tagger == old(tokens)@[k].tagger,
            decreases n - i,
        {
            let ghost before = tokens@;
            let found = match_end_at(&self.pattern, tokens, i);
            if found.is_some() && found.unwrap() > i && self.target < found.unwrap() - i {
                let j = i + self.target;
                let mut t = tokens.remove(j);
                t.retain_tags(&self.keep);
                tokens.insert(j, t);
                proof {
                    assert(tokens@ =~= before.update(j as int, t));
                    assert(token_views(tokens@) =~= token_views(before).update(
                        j as int,
                        filtered_view(token_views(before)[j as int], self.keep@),
                    ));
                }
            }
            i = i + 1;
        }
    }
}

proof fn lemma_filter_subset<A>(s: Seq<A>, pred: spec_fn(A) -> bool)
    ensures
        forall|x: A| #[trigger] s.filter(pred).contains(x) ==> s.contains(x),
    decreases s.len(),
{
    reveal(Seq::filter);
    if s.len() > 0 {
        lemma_filter_subset(s.drop_last(), pred);
        assert forall|x: A| #[trigger] s.filter(pred).contains(x) implies s.contains(x) by {
            let f = s.filter(pred);
            let sub = s.drop_last().filter(pred);
            let w = choose|w: int| 0 <= w < f.len() && f[w] == x;
            if pred(s.last()) && w == f.len() - 1 {
                assert(s[s.len() - 1] == x);
            } else {
                assert(sub[w] == x);
                assert(sub.contains(x));
                let v = choose|v: int| 0 <= v < s.drop_last().len() && s.drop_last()[v] == x;
                assert(s[v] == x);
            }
        }
    }
}

/// Disambiguation only narrows: after a rule ran over the windows before
/// `n`, each token's analyses are among its analyses before, and its text,
/// spans, whitespace flag and chunks are unchanged.
pub proof fn lemma_disambiguation_monotone(d: Disambiguation, toks: Seq<TokenView>, n: int)
    ensures
        disambiguated_upto(d, toks, n).len() == toks.len(),
        forall|k: int, x: WordDataModel|
            0 <= k < toks.len() && #[trigger] disambiguated_upto(d, toks, n)[k].word.1.contains(x)
                ==> toks[k].word.1.contains(x),
        forall|k: int|
            0 <= k < toks.len() ==> {
                let after = #[trigger] disambiguated_upto(d, toks, n)[k];
                &&& after.word.0 == toks[k].word.0
                &&& after.char_span == toks[k].char_span
                &&& after.byte_span == toks[k].byte_span
                &&& after.has_space_before == toks[k].has_space_before
                &&& after.chunks == toks[k].chunks
            },
    decreases n,
{
    if n > 0 {
        lemma_disambiguation_monotone(d, toks, n - 1);
        let prev = disambiguated_upto(d, toks, n - 1);
        let cur = disambiguated_upto(d, toks, n);
        let j = n - 1 + d.target;
        if pattern_holds_at(d.pattern@, prev, n - 1) && j < window_end(d.pattern@, prev, n - 1) {
            lemma_match_end_bounds(d.pattern@, prev, 0, n - 1);
            lemma_filter_subset(prev[j].word.1, kept_by(d.keep@));
            assert forall|k: int, x: WordDataModel|
                0 <= k < toks.len() && #[trigger] cur[k].word.1.contains(x) implies toks[k].word.1.contains(
                x,
            ) by {
                if k == j {
                    assert(prev[k].word.1.contains(x));
                } else {
                    assert(cur[k] == prev[k]);
                }
            }
        }
    }
}

/// Tokens whose character spans lie in a document of `doc_len` characters
/// and run forwards: no token starts after a later token ends.
pub open spec fn spans_ordered(toks: Seq<TokenView>, doc_len: int) -> bool {
    &&& forall|k: int|
        0 <= k < toks.len() ==> (#[trigger] toks[k]).char_span.0 <= toks[k].char_span.1 <= doc_len
    &&& forall|i: int, j: int|
        0 <= i <= j < toks.len() ==> (#[trigger] toks[i]).char_span.0 <= (#[trigger] toks[j]).char_span.1
}

/// Every suggestion a rule emits comes from a matching window, spans from the
/// first matched token's start to the last one's end, and lies in the document.
pub proof fn lemma_suggestion_spans(rule: Rule, toks: Seq<TokenView>, doc_len: int, n: int)
    requires
        spans_ordered(toks, doc_len),
    ensures
        forall|m: int|
            0 <= m < suggestions_upto(rule, toks, n).len() ==> {
                let s = #[trigger] suggestions_upto(rule, toks, n)[m];
                &&& 0 <= s.start <= s.end <= doc_len
                &&& exists|i: int|
                    0 <= i < n && pattern_holds_at(rule.pattern@, toks, i) && s == #[trigger] suggestion_at(
                        rule,
                        toks,
                        i,
                    )
            },
    decreases n,
{
    if n > 0 {
        lemma_suggestion_spans(rule, toks, doc_len, n - 1);
        let prev = suggestions_upto(rule, toks, n - 1);
        let cur = suggestions_upto(rule, toks, n);
        assert forall|m: int| 0 <= m < cur.len() implies {
            let s = #[trigger] cur[m];
            &&& 0 <= s.start <= s.end <= doc_len
            &&& exists|i: int|
                0 <= i < n && pattern_holds_at(rule.pattern@, toks, i) && s == #[trigger] suggestion_at(
                    rule,
                    toks,
                    i,
                )
        } by {
            if m < prev.len() {
                assert(cur[m] == prev[m]);
            } else {
                let i = n - 1;
                lemma_match_end_bounds(rule.pattern@, toks, 0, i);
                let last = window_end(rule.pattern@, toks, i) - 1;
                assert(toks[i].char_span.0 <= toks[last].char_span.1);
                assert(toks[last].char_span.1 <= doc_len);
                assert(cur[m] == suggestion_at(rule, toks, i));
            }
        }
    }
}

} // verus!
