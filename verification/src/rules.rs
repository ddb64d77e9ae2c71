//! Rule sets: evaluating every enabled rule over a token sequence, merging the
//! suggestions into a non-overlapping, start-sorted list, and applying such a
//! list to the original text.

use crate::composition::{
    first_nonempty, last_nonempty, lemma_first_nonempty_hits, lemma_last_nonempty_hits,
    run_result, spec_matches, str_eq, Composition,
};
use crate::types::{tokens_wf, Suggestion, SuggestionModel, Token};
use vstd::prelude::*;
use vstd::string::{StrSliceExecFns, StringExecFns};

verus! {

/// A suggestion's range lies within a text of `n` characters.
pub open spec fn suggestion_in_bounds(s: SuggestionModel, n: int) -> bool {
    0 <= s.start <= s.end <= n
}

/// The skip hint a rule is evaluated under: the mask handed in, or an
/// all-false mask (skip nothing) when none is.
pub open spec fn spec_mask(skip_mask: Option<&Vec<bool>>, n: int) -> Seq<bool> {
    match skip_mask {
        Option::Some(m) => m@,
        Option::None => Seq::new(n as nat, |k: int| false),
    }
}

/// The character span of the whole match that `apply` found at `start`: from
/// the first token of the first nonempty group to the last token of the last
/// nonempty group.
pub open spec fn match_span(parts: Seq<crate::composition::Part>, tokens: Seq<Token>, start: int)
    -> (int, int) {
    let grps = run_result(parts, tokens, start).2;
    let fi = first_nonempty(grps, 0);
    let li = last_nonempty(grps, grps.len() as int - 1);
    let a = grps[fi][0];
    let b = grps[li][grps[li].len() - 1];
    (tokens[a as int].char_span.0 as int, tokens[b as int].char_span.1 as int)
}

/// A compiled grammar rule: one pattern plus the replacement alternatives it
/// suggests for the span it matches.
pub struct Rule {
    pub id: String,
    pub on: bool,
    pub engine: Composition,
    pub replacements: Vec<String>,
}

/// The suggestions a rule yields from candidate position `pos` on: one per
/// unmasked position where its pattern matches, in ascending position order.
pub open spec fn rule_suggestions(
    r: Rule,
    tokens: Seq<Token>,
    mask: Seq<bool>,
    pos: int,
) -> Seq<SuggestionModel>
    decreases tokens.len() - pos,
{
    if pos < 0 || pos >= tokens.len() {
        Seq::empty()
    } else {
        let rest = rule_suggestions(r, tokens, mask, pos + 1);
        if !mask[pos] && spec_matches(r.engine.parts@, tokens, pos) {
            let sp = match_span(r.engine.parts@, tokens, pos);
            seq![
                SuggestionModel { start: sp.0, end: sp.1, texts: r.replacements.deep_view() },
            ] + rest
        } else {
            rest
        }
    }
}

/// Character-for-character copy of a string list.
fn clone_strings(v: &Vec<String>) -> (r: Vec<String>)
    ensures
        r.deep_view() == v.deep_view(),
{
    let mut r: Vec<String> = Vec::new();
    let mut i: usize = 0;
    while i < v.len()
        invariant
            i <= v@.len(),
            r@.len() == i as int,
            r.deep_view() =~= v.deep_view().take(i as int),
        decreases v@.len() - i,
    {
        let s = String::from_str(v[i].as_str());
        let ghost sv = s@;
        let ghost old_r = r@;
        let ghost old_deep = r.deep_view();
        r.push(s);
        proof {
            assert(sv == v@[i as int]@);
            assert forall|j: int| 0 <= j < i + 1 implies r.deep_view()[j] == v.deep_view().take(
                i as int + 1,
            )[j] by {
                assert(r.deep_view()[j] == r@[j].deep_view());
                assert(v.deep_view()[j] == v@[j].deep_view());
                if j < i {
                    assert(r@[j] == old_r[j]);
                    assert(old_deep[j] == v.deep_view().take(i as int)[j]);
                } else {
                    assert(r@[j]@ == sv);
                }
            }
            assert(r.deep_view() =~= v.deep_view().take(i as int + 1));
        }
        i += 1;
    }
    proof {
        assert(v.deep_view().take(v@.len() as int) =~= v.deep_view());
    }
    r
}

impl Rule {
    /// The pattern keeps the invariants its construction establishes.
    pub open spec fn wf(&self) -> bool {
        self.engine.has_required_part() && self.engine.quantifiers_wf()
    }

    pub fn new(id: String, on: bool, engine: Composition, replacements: Vec<String>) -> (r: Rule)
        ensures
            r == (Rule { id, on, engine, replacements }),
    {
        Rule { id, on, engine, replacements }
    }

    pub fn set_id(&mut self, id: String)
        ensures
            *final(self) == (Rule { id, ..*old(self) }),
    {
        self.id = id;
    }

    pub fn set_on(&mut self, on: bool)
        ensures
            *final(self) == (Rule { on, ..*old(self) }),
    {
        self.on = on;
    }

    pub fn on(&self) -> (r: bool)
        ensures
            r == self.on,
    {
        self.on
    }

    /// Tries the pattern at every candidate position the skip mask does not
    /// exclude, and yields one suggestion per match, covering the match span.
    pub fn apply(&self, tokens: &[Token], skip_mask: Option<&Vec<bool>>) -> (r: Vec<Suggestion>)
        requires
            self.wf(),
            tokens_wf(tokens@),
            match skip_mask {
                Option::Some(m) => m@.len() == tokens@.len(),
                Option::None => true,
            },
        ensures
            r.deep_view() == rule_suggestions(
                *self,
                tokens@,
                spec_mask(skip_mask, tokens@.len() as int),
                0,
            ),
            forall|k: int|
                0 <= k < r.deep_view().len() ==> suggestion_in_bounds(
                    #[trigger] r.deep_view()[k],
                    tokens@[0].text@.len() as int,
                ),
    {
        let ghost msk = spec_mask(skip_mask, tokens@.len() as int);
        let mut out: Vec<Suggestion> = Vec::new();
        let mut pos: usize = 0;
        while pos < tokens.len()
            invariant
                self.wf(),
                tokens_wf(tokens@),
                match skip_mask {
                    Option::Some(m) => m@.len() == tokens@.len(),
                    Option::None => true,
                },
                msk == spec_mask(skip_mask, tokens@.len() as int),
                pos <= tokens@.len(),
                rule_suggestions(*self, tokens@, msk, 0) == out.deep_view() + rule_suggestions(
                    *self,
                    tokens@,
                    msk,
                    pos as int,
                ),
                forall|k: int|
                    0 <= k < out.deep_view().len() ==> suggestion_in_bounds(
                        #[trigger] out.deep_view()[k],
                        tokens@[0].text@.len() as int,
                    ),
            decreases tokens@.len() - pos,
        {
            let ghost old_out = out.deep_view();
            let skip: bool = match skip_mask {
                Option::Some(m) => m[pos],
                Option::None => false,
            };
            proof {
                assert(skip == msk[pos as int]);
            }
            if !skip {
                match self.engine.apply(tokens, pos) {
                    Option::Some(graph) => {
                        let ghost gm = graph.groups_model();
                        let glen: usize = graph.groups.len();
                        let mut fi: usize = 0;
                        while fi < glen && graph.groups[fi].tokens.len() == 0
                            invariant
                                glen == graph.groups@.len(),
                                fi <= glen,
                                gm == graph.groups_model(),
                                first_nonempty(gm, 0) == first_nonempty(gm, fi as int),
                                exists|i: int| 0 <= i < gm.len() && (#[trigger] gm[i]).len() > 0,
                            decreases glen - fi,
                        {
                            proof {
                                assert(gm[fi as int] == graph.groups@[fi as int].tokens@);
                            }
                            fi += 1;
                        }
                        let mut lj: usize = glen;
                        while lj > 0 && graph.groups[lj - 1].tokens.len() == 0
                            invariant
                                glen == graph.groups@.len(),
                                lj <= glen,
                                gm == graph.groups_model(),
                                last_nonempty(gm, glen as int - 1) == last_nonempty(
                                    gm,
                                    lj as int - 1,
                                ),
                                exists|i: int| 0 <= i < gm.len() && (#[trigger] gm[i]).len() > 0,
                            decreases lj,
                        {
                            proof {
                                assert(gm[lj as int - 1] == graph.groups@[lj as int - 1].tokens@);
                            }
                            lj -= 1;
                        }
                        proof {
                            let iw = choose|i: int|
                                0 <= i < gm.len() && (#[trigger] gm[i]).len() > 0;
                            lemma_first_nonempty_hits(gm, 0, iw);
                            lemma_last_nonempty_hits(gm, glen as int - 1, iw);
                            assert(fi < glen);
                            assert(lj > 0);
                            assert(gm[fi as int] == graph.groups@[fi as int].tokens@);
                            assert(gm[lj as int - 1] == graph.groups@[lj as int - 1].tokens@);
                            assert(first_nonempty(gm, fi as int) == fi as int);
                            assert(last_nonempty(gm, lj as int - 1) == lj as int - 1);
                            assert(fi as int <= iw <= lj as int - 1);
                        }
                        let a: usize = graph.groups[fi].tokens[0];
                        let bcount: usize = graph.groups[lj - 1].tokens.len();
                        let b: usize = graph.groups[lj - 1].tokens[bcount - 1];
                        proof {
                            assert(a == gm[fi as int][0]);
                            assert(b == gm[lj as int - 1][gm[lj as int - 1].len() - 1]);
                            assert(a <= b) by {
                                if fi as int == lj as int - 1 {
                                    if gm[fi as int].len() > 1 {
                                        assert(gm[fi as int][0] < gm[fi as int][gm[
                                            fi as int].len() - 1]);
                                    }
                                } else {
                                    assert(gm[fi as int][0] < gm[lj as int - 1][gm[lj as int
                                        - 1].len() - 1]);
                                }
                            }
                        }
                        let sug_start: usize = tokens[a].char_span.0;
                        let sug_end: usize = tokens[b].char_span.1;
                        proof {
                            if a < b {
                                assert(tokens@[a as int].char_span.1 <= tokens@[
                                    b as int].char_span.0);
                            }
                            assert(sug_start <= sug_end);
                            assert(sug_end <= tokens@[0].text@.len());
                            assert((sug_start as int, sug_end as int) == match_span(
                                self.engine.parts@,
                                tokens@,
                                pos as int,
                            ));
                        }
                        let texts = clone_strings(&self.replacements);
                        let sug = Suggestion { start: sug_start, end: sug_end, text: texts };
                        out.push(sug);
                        proof {
                            assert(out.deep_view() =~= old_out.push(sug@));
                            assert(rule_suggestions(*self, tokens@, msk, pos as int) == seq![
                                sug@,
                            ] + rule_suggestions(*self, tokens@, msk, pos as int + 1));
                            assert(out.deep_view() + rule_suggestions(
                                *self,
                                tokens@,
                                msk,
                                pos as int + 1,
                            ) =~= old_out + rule_suggestions(*self, tokens@, msk, pos as int));
                        }
                    },
                    Option::None => {
                        proof {
                            assert(rule_suggestions(*self, tokens@, msk, pos as int)
                                == rule_suggestions(*self, tokens@, msk, pos as int + 1));
                        }
                    },
                }
            } else {
                proof {
                    assert(rule_suggestions(*self, tokens@, msk, pos as int) == rule_suggestions(
                        *self,
                        tokens@,
                        msk,
                        pos as int + 1,
                    ));
                }
            }
            pos += 1;
        }
        out
    }
}

/// The per-rule skip hint consumed by `Rules::suggest`. This cache certifies
/// nothing, so it never excludes a position: the hint that is always safe.
pub struct Cache {}

impl Cache {
    pub fn populate(&mut self, common_words: &Vec<String>)
        ensures
            *final(self) == *old(self),
    {
        let _ = common_words.len();
    }

    pub fn get_skip_mask(&self, tokens: &[Token], rule_index: usize) -> (r: Vec<bool>)
        ensures
            r@.len() == tokens@.len(),
            forall|i: int| 0 <= i < r@.len() ==> !(#[trigger] r@[i]),
    {
        let _ = rule_index;
        let mut r: Vec<bool> = Vec::new();
        let mut i: usize = 0;
        while i < tokens.len()
            invariant
                i <= tokens@.len(),
                r@.len() == i as int,
                forall|k: int| 0 <= k < i ==> !(#[trigger] r@[k]),
            decreases tokens@.len() - i,
        {
            r.push(false);
            i += 1;
        }
        r
    }
}

/// Options for assembling a rule set.
pub struct RulesOptions {
    /// Whether to allow errors while constructing the rules.
    pub allow_errors: bool,
    /// Grammar rule ids to use in this set; empty means all.
    pub ids: Vec<String>,
    /// Grammar rule ids to ignore in this set.
    pub ignore_ids: Vec<String>,
}

impl Default for RulesOptions {
    fn default() -> (r: RulesOptions)
        ensures
            r.allow_errors == true,
            r.ids@.len() == 0,
            r.ignore_ids@.len() == 0,
    {
        RulesOptions { allow_errors: true, ids: Vec::new(), ignore_ids: Vec::new() }
    }
}

/// A set of grammatical error correction rules plus its skip-hint cache.
pub struct Rules {
    pub rules: Vec<Rule>,
    pub cache: Cache,
}

impl Rules {
    /// Every rule's pattern keeps its construction invariants.
    pub open spec fn wf(&self) -> bool {
        forall|i: int| 0 <= i < self.rules@.len() ==> (#[trigger] self.rules@[i]).wf()
    }

    pub fn rules(&self) -> (r: &Vec<Rule>)
        ensures
            *r == self.rules,
    {
        &self.rules
    }

    /// Populates the skip-hint cache from a common-word list. The hint stays
    /// conservative: it never excludes a position.
    pub fn populate_cache(&mut self, common_words: &Vec<String>)
        ensures
            *final(self) == *old(self),
    {
        self.cache.populate(common_words);
    }
}

} // verus!

verus! {

/// Inserting `x` after every element whose `start` does not exceed `x`'s:
/// the step of a stable sort keyed on `start` alone.
pub open spec fn insert_sorted(s: Seq<SuggestionModel>, x: SuggestionModel) -> Seq<SuggestionModel>
    decreases s.len(),
{
    if s.len() == 0 {
        seq![x]
    } else if s.last().start > x.start {
        insert_sorted(s.drop_last(), x).push(s.last())
    } else {
        s.push(x)
    }
}

/// The stable sort of the suggestion list by `start`: elements are inserted
/// in encounter order, so ties keep that order.
pub open spec fn stable_sort(s: Seq<SuggestionModel>) -> Seq<SuggestionModel>
    decreases s.len(),
{
    if s.len() == 0 {
        Seq::empty()
    } else {
        insert_sorted(stable_sort(s.drop_last()), s.last())
    }
}

proof fn lemma_insert_sorted_in_bounds(s: Seq<SuggestionModel>, x: SuggestionModel, n: int)
    requires
        forall|k: int| 0 <= k < s.len() ==> suggestion_in_bounds(#[trigger] s[k], n),
        suggestion_in_bounds(x, n),
    ensures
        forall|k: int|
            0 <= k < insert_sorted(s, x).len() ==> suggestion_in_bounds(
                #[trigger] insert_sorted(s, x)[k],
                n,
            ),
    decreases s.len(),
{
    if s.len() == 0 {
        assert(insert_sorted(s, x) =~= seq![x]);
    } else if s.last().start > x.start {
        lemma_insert_sorted_in_bounds(s.drop_last(), x, n);
        assert(insert_sorted(s, x) == insert_sorted(s.drop_last(), x).push(s.last()));
    } else {
        assert(insert_sorted(s, x) == s.push(x));
    }
}

proof fn lemma_stable_sort_in_bounds(s: Seq<SuggestionModel>, n: int)
    requires
        forall|k: int| 0 <= k < s.len() ==> suggestion_in_bounds(#[trigger] s[k], n),
    ensures
        forall|k: int|
            0 <= k < stable_sort(s).len() ==> suggestion_in_bounds(
                #[trigger] stable_sort(s)[k],
                n,
            ),
    decreases s.len(),
{
    if s.len() > 0 {
        lemma_stable_sort_in_bounds(s.drop_last(), n);
        lemma_insert_sorted_in_bounds(stable_sort(s.drop_last()), s.last(), n);
    }
}

/// Character-for-character copy of a suggestion.
fn clone_suggestion(s: &Suggestion) -> (r: Suggestion)
    ensures
        r@ == s@,
{
    Suggestion { start: s.start, end: s.end, text: clone_strings(&s.text) }
}

/// Sorts ascending by `start`, stable with respect to ties.
fn sort_by_start(input: &Vec<Suggestion>) -> (r: Vec<Suggestion>)
    ensures
        r.deep_view() == stable_sort(input.deep_view()),
{
    let mut out: Vec<Suggestion> = Vec::new();
    let mut i: usize = 0;
    while i < input.len()
        invariant
            i <= input@.len(),
            out@.len() == out.deep_view().len(),
            out.deep_view() == stable_sort(input.deep_view().take(i as int)),
        decreases input@.len() - i,
    {
        let s = clone_suggestion(&input[i]);
        let ghost x = s@;
        let ghost out0 = out.deep_view();
        proof {
            assert(input.deep_view()[i as int] == input@[i as int].deep_view());
            assert(input.deep_view().take(i as int + 1).drop_last() =~= input.deep_view().take(
                i as int,
            ));
            assert(input.deep_view().take(i as int + 1).last() == x);
            assert(out0.take(out0.len() as int) =~= out0);
            assert(out0.skip(out0.len() as int) =~= Seq::<SuggestionModel>::empty());
            assert(insert_sorted(out0, x) + Seq::<SuggestionModel>::empty() =~= insert_sorted(
                out0,
                x,
            ));
        }
        let mut pos: usize = out.len();
        while pos > 0 && out[pos - 1].start > s.start
            invariant
                pos <= out@.len(),
                out@.len() == out.deep_view().len(),
                out.deep_view() == out0,
                s@ == x,
                insert_sorted(out0, x) == insert_sorted(out0.take(pos as int), x) + out0.skip(
                    pos as int,
                ),
            decreases pos,
        {
            proof {
                let t = out0.take(pos as int);
                assert(out.deep_view()[pos - 1] == out@[pos - 1].deep_view());
                assert(t.last() == out0[pos - 1]);
                assert(t.last().start > x.start);
                assert(insert_sorted(t, x) == insert_sorted(t.drop_last(), x).push(t.last()));
                assert(t.drop_last() =~= out0.take(pos as int - 1));
                assert(insert_sorted(out0.take(pos as int - 1), x).push(out0[pos - 1]) + out0.skip(
                    pos as int,
                ) =~= insert_sorted(out0.take(pos as int - 1), x) + out0.skip(pos as int - 1));
            }
            pos -= 1;
        }
        proof {
            if pos > 0 {
                assert(out.deep_view()[pos - 1] == out@[pos - 1].deep_view());
                let t = out0.take(pos as int);
                assert(t.last() == out0[pos - 1]);
                assert(!(t.last().start > x.start));
                assert(insert_sorted(t, x) == t.push(x));
            } else {
                assert(out0.take(0) =~= Seq::<SuggestionModel>::empty());
                assert(insert_sorted(out0.take(0), x) == seq![x]);
            }
        }
        let ghost old_outv = out@;
        out.insert(pos, s);
        proof {
            assert forall|j: int| 0 <= j < out.deep_view().len() implies out.deep_view()[j] == (
            insert_sorted(out0.take(pos as int), x) + out0.skip(pos as int))[j] by {
                assert(out.deep_view()[j] == out@[j].deep_view());
                if j < pos {
                    assert(out@[j] == old_outv[j]);
                } else if j == pos {
                    assert(out@[j]@ == x);
                } else {
                    assert(out@[j] == old_outv[j - 1]);
                }
            }
            assert(out.deep_view() =~= insert_sorted(out0.take(pos as int), x) + out0.skip(
                pos as int,
            ));
            assert(out.deep_view() == insert_sorted(out0, x));
            assert(out.deep_view() == stable_sort(input.deep_view().take(i as int + 1)));
        }
        i += 1;
    }
    proof {
        assert(input.deep_view().take(input@.len() as int) =~= input.deep_view());
    }
    out
}

/// The character range `[a, b)` is wholly unoccupied in `mask`.
pub open spec fn range_free(mask: Seq<bool>, a: int, b: int) -> bool {
    forall|k: int| a <= k < b ==> !(#[trigger] mask[k])
}

/// `mask` with the character range `[a, b)` marked occupied.
pub open spec fn mark_range(mask: Seq<bool>, a: int, b: int) -> Seq<bool> {
    Seq::new(mask.len(), |k: int| a <= k < b || mask[k])
}

/// The greedy conflict resolution: walking the suggestions in order, one is
/// kept exactly when its range is wholly unoccupied, and then occupies it.
pub open spec fn spec_filter(s: Seq<SuggestionModel>, mask: Seq<bool>) -> Seq<SuggestionModel>
    decreases s.len(),
{
    if s.len() == 0 {
        Seq::empty()
    } else if range_free(mask, s[0].start, s[0].end) {
        seq![s[0]] + spec_filter(s.drop_first(), mark_range(mask, s[0].start, s[0].end))
    } else {
        spec_filter(s.drop_first(), mask)
    }
}

} // verus!

verus! {

/// All suggestions the enabled rules yield, rule by rule in order, each rule
/// evaluated under the conservative all-false skip mask.
pub open spec fn gathered(rules: Seq<Rule>, tokens: Seq<Token>, i: int) -> Seq<SuggestionModel>
    decreases rules.len() - i,
{
    if i < 0 || i >= rules.len() {
        Seq::empty()
    } else {
        (if rules[i].on {
            rule_suggestions(rules[i], tokens, Seq::new(tokens.len(), |k: int| false), 0)
        } else {
            Seq::empty()
        }) + gathered(rules, tokens, i + 1)
    }
}

/// What `Rules::suggest` returns: every enabled rule's suggestions, stably
/// sorted ascending by `start`, then greedily filtered to a non-overlapping
/// list over a fresh occupancy mask covering the text.
pub open spec fn spec_suggest(rs: Rules, tokens: Seq<Token>) -> Seq<SuggestionModel> {
    if tokens.len() == 0 {
        Seq::empty()
    } else {
        spec_filter(
            stable_sort(gathered(rs.rules@, tokens, 0)),
            Seq::new(tokens[0].text@.len(), |k: int| false),
        )
    }
}

impl Rules {
    /// Computes the suggestions for the given tokens by checking all rules:
    /// each enabled rule fires independently, the collected suggestions are
    /// stably sorted by start offset, and a suggestion is kept exactly when
    /// its character range does not overlap an already-kept one.
    pub fn suggest(&self, tokens: &[Token]) -> (r: Vec<Suggestion>)
        requires
            self.wf(),
            tokens_wf(tokens@),
        ensures
            r.deep_view() == spec_suggest(*self, tokens@),
    {
        if tokens.len() == 0 {
            let r: Vec<Suggestion> = Vec::new();
            proof {
                assert(r.deep_view() =~= Seq::<SuggestionModel>::empty());
            }
            return r;
        }

        let ghost text_len = tokens@[0].text@.len() as int;
        let mut collected: Vec<Suggestion> = Vec::new();
        let mut i: usize = 0;
        while i < self.rules.len()
            invariant
                self.wf(),
                tokens_wf(tokens@),
                tokens@.len() > 0,
                i <= self.rules@.len(),
                text_len == tokens@[0].text@.len() as int,
                gathered(self.rules@, tokens@, 0) == collected.deep_view() + gathered(
                    self.rules@,
                    tokens@,
                    i as int,
                ),
                forall|k: int|
                    0 <= k < collected.deep_view().len() ==> suggestion_in_bounds(
                        #[trigger] collected.deep_view()[k],
                        text_len,
                    ),
            decreases self.rules@.len() - i,
        {
            let ghost old_deep = collected.deep_view();
            if self.rules[i].on() {
                let skip_mask = self.cache.get_skip_mask(tokens, i);
                proof {
                    assert(skip_mask@ =~= Seq::new(tokens@.len(), |k: int| false));
                }
                let mut sugs = self.rules[i].apply(tokens, Option::Some(&skip_mask));
                let ghost sugs_deep = sugs.deep_view();
                let ghost old_v = collected@;
                let ghost sugs_v = sugs@;
                collected.append(&mut sugs);
                proof {
                    assert forall|j: int|
                        0 <= j < collected.deep_view().len() implies collected.deep_view()[j] == (
                    old_deep + sugs_deep)[j] by {
                        assert(collected.deep_view()[j] == collected@[j].deep_view());
                        if j < old_v.len() {
                            assert(collected@[j] == old_v[j]);
                            assert(old_deep[j] == old_v[j].deep_view());
                        } else {
                            assert(collected@[j] == sugs_v[j - old_v.len()]);
                            assert(sugs_deep[j - old_v.len()] == sugs_v[j
                                - old_v.len()].deep_view());
                        }
                    }
                    assert(collected.deep_view() =~= old_deep + sugs_deep);
                    assert(gathered(self.rules@, tokens@, i as int) == sugs_deep + gathered(
                        self.rules@,
                        tokens@,
                        i as int + 1,
                    ));
                    assert(old_deep + sugs_deep + gathered(self.rules@, tokens@, i as int + 1)
                        =~= old_deep + gathered(self.rules@, tokens@, i as int));
                }
            } else {
                proof {
                    assert(Seq::<SuggestionModel>::empty() + gathered(
                        self.rules@,
                        tokens@,
                        i as int + 1,
                    ) =~= gathered(self.rules@, tokens@, i as int + 1));
                    assert(gathered(self.rules@, tokens@, i as int) == gathered(
                        self.rules@,
                        tokens@,
                        i as int + 1,
                    ));
                }
            }
            i += 1;
        }
        proof {
            assert(collected.deep_view() + gathered(
                self.rules@,
                tokens@,
                self.rules@.len() as int,
            ) =~= collected.deep_view());
        }

        let sorted = sort_by_start(&collected);
        proof {
            lemma_stable_sort_in_bounds(collected.deep_view(), text_len);
        }

        let n: usize = tokens[0].text.as_str().unicode_len();
        let mut mask: Vec<bool> = Vec::new();
        let mut mi: usize = 0;
        while mi < n
            invariant
                mi <= n,
                mask@.len() == mi as int,
                forall|k: int| 0 <= k < mi ==> !(#[trigger] mask@[k]),
            decreases n - mi,
        {
            mask.push(false);
            mi += 1;
        }
        let ghost mask0 = Seq::new(tokens@[0].text@.len(), |k: int| false);
        proof {
            assert(mask@ =~= mask0);
        }

        let mut remaining = sorted;
        let ghost sorted0 = remaining.deep_view();
        let mut result: Vec<Suggestion> = Vec::new();
        while remaining.len() > 0
            invariant
                mask@.len() == text_len,
                text_len == tokens@[0].text@.len() as int,
                remaining@.len() == remaining.deep_view().len(),
                forall|k: int|
                    0 <= k < remaining.deep_view().len() ==> suggestion_in_bounds(
                        #[trigger] remaining.deep_view()[k],
                        text_len,
                    ),
                spec_filter(sorted0, mask0) == result.deep_view() + spec_filter(
                    remaining.deep_view(),
                    mask@,
                ),
            decreases remaining@.len(),
        {
            let ghost rem_deep = remaining.deep_view();
            let ghost old_res = result.deep_view();
            let ghost old_mask = mask@;
            let ghost rem_v = remaining@;
            let sug = remaining.remove(0);
            proof {
                assert(sug.deep_view() == rem_deep[0]);
                assert forall|j: int|
                    0 <= j < remaining.deep_view().len() implies remaining.deep_view()[j]
                    == rem_deep.drop_first()[j] by {
                    assert(remaining@[j] == rem_v[j + 1]);
                    assert(rem_deep[j + 1] == rem_v[j + 1].deep_view());
                }
                assert(remaining.deep_view() =~= rem_deep.drop_first());
                assert(suggestion_in_bounds(rem_deep[0], text_len));
            }
            let mut free: bool = true;
            let mut k: usize = sug.start;
            while k < sug.end
                invariant
                    sug.start <= k <= sug.end,
                    sug.end <= mask@.len(),
                    mask@ == old_mask,
                    free == range_free(mask@, sug.start as int, k as int),
                decreases sug.end - k,
            {
                free = free && !mask[k];
                proof {
                    assert forall|q: int|
                        sug.start <= q < k + 1 && range_free(mask@, sug.start as int, k as int)
                            && !mask@[k as int] implies !mask@[q] by {}
                }
                k += 1;
            }
            if free {
                let mut m: usize = sug.start;
                while m < sug.end
                    invariant
                        sug.start <= m <= sug.end,
                        sug.end <= mask@.len(),
                        mask@.len() == old_mask.len(),
                        mask@ =~= mark_range(old_mask, sug.start as int, m as int),
                    decreases sug.end - m,
                {
                    let ghost before = mask@;
                    mask[m] = true;
                    proof {
                        assert(mask@ =~= before.update(m as int, true));
                        assert(mask@ =~= mark_range(old_mask, sug.start as int, m as int + 1));
                    }
                    m += 1;
                }
                proof {
                    assert(mask@ =~= mark_range(old_mask, sug.start as int, sug.end as int));
                }
                let ghost sug_m = sug.deep_view();
                result.push(sug);
                proof {
                    assert forall|j: int|
                        0 <= j < result.deep_view().len() implies result.deep_view()[j]
                        == old_res.push(sug_m)[j] by {
                        assert(result.deep_view()[j] == result@[j].deep_view());
                    }
                    assert(result.deep_view() =~= old_res.push(sug_m));
                    assert(spec_filter(rem_deep, old_mask) == seq![rem_deep[0]] + spec_filter(
                        rem_deep.drop_first(),
                        mark_range(old_mask, rem_deep[0].start, rem_deep[0].end),
                    ));
                    assert(old_res + spec_filter(rem_deep, old_mask) =~= result.deep_view()
                        + spec_filter(remaining.deep_view(), mask@));
                }
            } else {
                proof {
                    assert(spec_filter(rem_deep, old_mask) == spec_filter(
                        rem_deep.drop_first(),
                        old_mask,
                    ));
                }
            }
        }
        proof {
            assert(remaining.deep_view() =~= Seq::<SuggestionModel>::empty());
            assert(spec_filter(remaining.deep_view(), mask@) == Seq::<SuggestionModel>::empty());
            assert(result.deep_view() + Seq::<SuggestionModel>::empty() =~= result.deep_view());
        }
        result
    }
}

} // verus!

verus! {

/// The characters of a string, one by one.
fn str_chars(s: &str) -> (r: Vec<char>)
    ensures
        r@ == s@,
{
    let n = s.unicode_len();
    let mut r: Vec<char> = Vec::new();
    let mut i: usize = 0;
    while i < n
        invariant
            n == s@.len(),
            i <= n,
            r@ =~= s@.take(i as int),
        decreases n - i,
    {
        r.push(s.get_char(i));
        proof {
            assert(r@ =~= s@.take(i as int + 1));
        }
        i += 1;
    }
    proof {
        assert(s@.take(n as int) =~= s@);
    }
    r
}

/// Relies on the standard character iterator and collection: rebuilds a
/// string from its characters.
#[verifier::external_body]
fn chars_to_string(v: &Vec<char>) -> (r: String)
    ensures
        r@ == v@,
{
    v.iter().collect()
}

/// One splice: the characters `[a, b)` replaced by `rep`.
pub open spec fn splice(chars: Seq<char>, a: int, b: int, rep: Seq<char>) -> Seq<char> {
    chars.subrange(0, a) + rep + chars.subrange(b, chars.len() as int)
}

/// The patching walk from suggestion `i` on: each suggestion's range, shifted
/// by the running offset, is spliced with its first replacement, and the
/// offset compounds the length change onto all later suggestions.
pub open spec fn spec_correct_from(
    chars: Seq<char>,
    sugs: Seq<SuggestionModel>,
    i: int,
    offset: int,
) -> Seq<char>
    decreases sugs.len() - i,
{
    if i < 0 || i >= sugs.len() {
        chars
    } else {
        let s = sugs[i];
        let rep = s.texts[0];
        let spliced = splice(chars, s.start + offset, s.end + offset, rep);
        spec_correct_from(spliced, sugs, i + 1, offset + rep.len() - (s.end - s.start))
    }
}

/// What `correct` returns for a start-ascending, non-overlapping suggestion
/// list: the original text with every suggestion's first replacement spliced
/// in at its offset-compounded position.
pub open spec fn spec_correct(text: Seq<char>, sugs: Seq<SuggestionModel>) -> Seq<char> {
    spec_correct_from(text, sugs, 0, 0)
}

/// The precondition of `correct`, established by `Rules::suggest`: the
/// suggestions are start-ascending, non-overlapping, within the text, and
/// each offers at least one replacement.
pub open spec fn patch_list_wf(text: Seq<char>, sugs: Seq<SuggestionModel>) -> bool {
    &&& forall|i: int|
        0 <= i < sugs.len() ==> (#[trigger] sugs[i]).start <= sugs[i].end && sugs[i].end
            <= text.len() && sugs[i].texts.len() > 0
    &&& forall|i: int| 0 <= i < sugs.len() - 1 ==> (#[trigger] sugs[i]).end <= sugs[i + 1].start
}

/// Corrects a text by applying a non-overlapping, start-ascending suggestion
/// list to it; with multiple possible replacements the first one is chosen.
pub fn correct(text: &str, suggestions: &[Suggestion]) -> (r: String)
    requires
        patch_list_wf(text@, suggestions.deep_view()),
    ensures
        r@ == spec_correct(text@, suggestions.deep_view()),
{
    let ghost sugs = suggestions.deep_view();
    let mut chars: Vec<char> = str_chars(text);
    let initial_len: usize = chars.len();
    proof {
        assert(text@.len() == initial_len as int);
    }
    let mut offset: i128 = 0;
    let mut i: usize = 0;
    while i < suggestions.len()
        invariant
            sugs == suggestions.deep_view(),
            suggestions@.len() == sugs.len(),
            patch_list_wf(text@, sugs),
            i <= sugs.len(),
            text@.len() == initial_len as int,
            chars@.len() == text@.len() + offset,
            i < sugs.len() ==> sugs[i as int].start + offset >= 0,
            spec_correct_from(text@, sugs, 0, 0) == spec_correct_from(
                chars@,
                sugs,
                i as int,
                offset as int,
            ),
        decreases suggestions@.len() - i,
    {
        let ghost old_chars = chars@;
        let ghost old_offset = offset as int;
        proof {
            assert(sugs[i as int] == suggestions@[i as int].deep_view());
        }
        let sug = &suggestions[i];
        let rep: Vec<char> = str_chars(sug.text[0].as_str());
        let cl: usize = chars.len();
        proof {
            assert(rep@ == sugs[i as int].texts[0]);
            assert(cl as int == old_chars.len());
            assert(sugs[i as int].end + old_offset <= cl as int);
            assert(offset <= cl as int);
            assert(-offset <= text@.len());
        }
        let a: usize = if offset >= 0 {
            sug.start + (offset as usize)
        } else {
            sug.start - ((-offset) as usize)
        };
        let b: usize = if offset >= 0 {
            sug.end + (offset as usize)
        } else {
            sug.end - ((-offset) as usize)
        };
        proof {
            assert(a as int == sugs[i as int].start + old_offset);
            assert(b as int == sugs[i as int].end + old_offset);
            assert(a <= b <= old_chars.len());
        }

        let mut nc: Vec<char> = Vec::new();
        let mut k: usize = 0;
        while k < a
            invariant
                k <= a,
                a <= chars@.len(),
                chars@ == old_chars,
                nc@ =~= old_chars.subrange(0, k as int),
            decreases a - k,
        {
            nc.push(chars[k]);
            proof {
                assert(nc@ =~= old_chars.subrange(0, k as int + 1));
            }
            k += 1;
        }
        let mut k2: usize = 0;
        while k2 < rep.len()
            invariant
                k2 <= rep@.len(),
                nc@ =~= old_chars.subrange(0, a as int) + rep@.take(k2 as int),
            decreases rep@.len() - k2,
        {
            nc.push(rep[k2]);
            proof {
                assert(nc@ =~= old_chars.subrange(0, a as int) + rep@.take(k2 as int + 1));
            }
            k2 += 1;
        }
        proof {
            assert(rep@.take(rep@.len() as int) =~= rep@);
        }
        let mut k3: usize = b;
        while k3 < chars.len()
            invariant
                b <= k3 <= chars@.len(),
                chars@ == old_chars,
                nc@ =~= old_chars.subrange(0, a as int) + rep@ + old_chars.subrange(
                    b as int,
                    k3 as int,
                ),
            decreases chars@.len() - k3,
        {
            nc.push(chars[k3]);
            proof {
                assert(nc@ =~= old_chars.subrange(0, a as int) + rep@ + old_chars.subrange(
                    b as int,
                    k3 as int + 1,
                ));
            }
            k3 += 1;
        }
        chars = nc;
        proof {
            assert(chars@ == splice(old_chars, a as int, b as int, rep@));
        }
        offset = offset + rep.len() as i128 - (sug.end - sug.start) as i128;
        i += 1;
        proof {
            assert(spec_correct_from(old_chars, sugs, i as int - 1, old_offset)
                == spec_correct_from(chars@, sugs, i as int, offset as int));
            if i < sugs.len() {
                assert(sugs[i as int].start >= sugs[i as int - 1].end);
                assert(sugs[i as int].start + offset >= a as int + rep@.len());
            }
        }
    }
    chars_to_string(&chars)
}

} // verus!

verus! {

/// What the upstream rule reader and compiler hand over for one rule
/// definition: the compiled rule with its id and enabled flag, or a
/// categorized error message.
pub enum RuleLoad {
    Compiled(Rule, String, bool),
    StructureError(String),
    RuleError(String),
}

/// Some element of `ids` spells `id`.
pub open spec fn contains_text(ids: Seq<Seq<char>>, id: Seq<char>) -> bool {
    exists|k: int| 0 <= k < ids.len() && ids[k] == id
}

/// Whether a rule id passes the id filters: kept when the use-list is empty
/// or names it, and the ignore-list does not.
pub open spec fn id_selected(options: RulesOptions, id: Seq<char>) -> bool {
    (options.ids@.len() == 0 || contains_text(options.ids.deep_view(), id)) && !contains_text(
        options.ignore_ids.deep_view(),
        id,
    )
}

/// The rules kept from the loads, in order: the compiled ones whose id passes
/// the filters, each carrying its id and enabled flag.
pub open spec fn selected_rules(loads: Seq<RuleLoad>, options: RulesOptions, i: int) -> Seq<Rule>
    decreases loads.len() - i,
{
    if i < 0 || i >= loads.len() {
        Seq::empty()
    } else {
        let rest = selected_rules(loads, options, i + 1);
        match loads[i] {
            RuleLoad::Compiled(r, id, on_flag) => if id_selected(options, id@) {
                seq![Rule { id: id, on: on_flag, ..r }] + rest
            } else {
                rest
            },
            RuleLoad::StructureError(_) => rest,
            RuleLoad::RuleError(_) => rest,
        }
    }
}

/// The error list with one occurrence of `msg` added: an existing entry's
/// count grows by one, a new message is appended with count one.
pub open spec fn bump_count(errs: Seq<(Seq<char>, int)>, msg: Seq<char>) -> Seq<(Seq<char>, int)>
    decreases errs.len(),
{
    if errs.len() == 0 {
        seq![(msg, 1int)]
    } else if errs[0].0 == msg {
        seq![(errs[0].0, errs[0].1 + 1)] + errs.drop_first()
    } else {
        seq![errs[0]] + bump_count(errs.drop_first(), msg)
    }
}

/// The grouped error counts of the loads from `i` on, folded onto `acc`:
/// every error message, under its category prefix, with its number of
/// occurrences, in first-encounter order.
pub open spec fn error_counts(loads: Seq<RuleLoad>, i: int, acc: Seq<(Seq<char>, int)>) -> Seq<
    (Seq<char>, int),
>
    decreases loads.len() - i,
{
    if i < 0 || i >= loads.len() {
        acc
    } else {
        match loads[i] {
            RuleLoad::Compiled(_, _, _) => error_counts(loads, i + 1, acc),
            RuleLoad::StructureError(m) => error_counts(
                loads,
                i + 1,
                bump_count(acc, "[Structure] "@ + m@),
            ),
            RuleLoad::RuleError(m) => error_counts(loads, i + 1, bump_count(acc, "[Rule] "@ + m@)),
        }
    }
}

/// The mathematical content of an error-count list.
pub open spec fn counts_model(v: Seq<(String, usize)>) -> Seq<(Seq<char>, int)> {
    v.map_values(|p: (String, usize)| (p.0@, p.1 as int))
}

/// Every count stays at or below `b`.
pub open spec fn all_counts_le(errs: Seq<(Seq<char>, int)>, b: int) -> bool {
    forall|k: int| 0 <= k < errs.len() ==> (#[trigger] errs[k]).1 <= b
}

proof fn lemma_bump_count_le(errs: Seq<(Seq<char>, int)>, msg: Seq<char>, b: int)
    requires
        all_counts_le(errs, b),
        b >= 0,
    ensures
        all_counts_le(bump_count(errs, msg), b + 1),
    decreases errs.len(),
{
    if errs.len() == 0 {
    } else if errs[0].0 == msg {
    } else {
        assert(all_counts_le(errs.drop_first(), b)) by {
            assert(forall|k: int|
                0 <= k < errs.drop_first().len() ==> (#[trigger] errs.drop_first()[k]) == errs[k
                    + 1]);
        }
        lemma_bump_count_le(errs.drop_first(), msg, b);
    }
}

/// Whether some element of `v` spells `s`.
fn contains_string(v: &Vec<String>, s: &str) -> (r: bool)
    ensures
        r == contains_text(v.deep_view(), s@),
{
    let mut k: usize = 0;
    while k < v.len()
        invariant
            k <= v@.len(),
            forall|j: int| 0 <= j < k ==> v.deep_view()[j] != s@,
        decreases v@.len() - k,
    {
        proof {
            assert(v.deep_view()[k as int] == v@[k as int]@);
        }
        if str_eq(v[k].as_str(), s) {
            return true;
        }
        k += 1;
    }
    false
}

/// Adds one occurrence of `msg` to the grouped counts.
fn bump(counts: &mut Vec<(String, usize)>, msg: String)
    requires
        forall|k: int| 0 <= k < old(counts)@.len() ==> (#[trigger] old(counts)@[k]).1 < usize::MAX,
    ensures
        counts_model(final(counts)@) == bump_count(counts_model(old(counts)@), msg@),
{
    let ghost orig = counts@;
    let total: usize = counts.len();
    let mut pos_found: usize = total;
    let mut k: usize = 0;
    while k < total
        invariant
            counts@ == orig,
            total == orig.len(),
            k <= total,
            pos_found == total || (pos_found < k && orig[pos_found as int].0@ == msg@
                && (forall|j: int| 0 <= j < pos_found ==> (#[trigger] orig[j]).0@ != msg@)),
            pos_found == total ==> forall|j: int| 0 <= j < k ==> (#[trigger] orig[j]).0@ != msg@,
        decreases total - k,
    {
        if pos_found == total {
            if str_eq(counts[k].0.as_str(), msg.as_str()) {
                pos_found = k;
            }
        }
        k += 1;
    }
    if pos_found < total {
        let c: usize = counts[pos_found].1;
        counts[pos_found].1 = c + 1;
        proof {
            lemma_bump_count_found(counts_model(orig), msg@, pos_found as int);
            assert(counts@ =~= orig.update(
                pos_found as int,
                (orig[pos_found as int].0, (c + 1) as usize),
            ));
            assert forall|j: int|
                0 <= j < counts_model(counts@).len() implies counts_model(counts@)[j]
                == counts_model(orig).update(
                pos_found as int,
                (orig[pos_found as int].0@, orig[pos_found as int].1 + 1),
            )[j] by {
                assert(counts_model(counts@)[j] == (counts@[j].0@, counts@[j].1 as int));
                if j != pos_found {
                    assert(counts@[j] == orig[j]);
                }
            }
            assert(counts_model(counts@) =~= counts_model(orig).update(
                pos_found as int,
                (orig[pos_found as int].0@, orig[pos_found as int].1 + 1),
            ));
        }
    } else {
        proof {
            lemma_bump_count_absent(counts_model(orig), msg@);
        }
        let ghost msg_v = msg@;
        counts.push((msg, 1));
        proof {
            assert forall|j: int|
                0 <= j < counts_model(counts@).len() implies counts_model(counts@)[j]
                == counts_model(orig).push((msg_v, 1int))[j] by {
                assert(counts_model(counts@)[j] == (counts@[j].0@, counts@[j].1 as int));
                if j < orig.len() {
                    assert(counts@[j] == orig[j]);
                }
            }
            assert(counts_model(counts@) =~= counts_model(orig).push((msg_v, 1int)));
        }
    }
}

/// With `msg` already listed at position `p`, one more occurrence only raises
/// that entry's count.
proof fn lemma_bump_count_found(errs: Seq<(Seq<char>, int)>, msg: Seq<char>, p: int)
    requires
        0 <= p < errs.len(),
        errs[p].0 == msg,
        forall|j: int| 0 <= j < p ==> (#[trigger] errs[j]).0 != msg,
    ensures
        bump_count(errs, msg) =~= errs.update(p, (errs[p].0, errs[p].1 + 1)),
    decreases p,
{
    if p == 0 {
        assert(bump_count(errs, msg) == seq![(errs[0].0, errs[0].1 + 1)] + errs.drop_first());
    } else {
        assert(errs.drop_first()[p - 1] == errs[p]);
        assert(forall|j: int|
            0 <= j < p - 1 ==> (#[trigger] errs.drop_first()[j]) == errs[j + 1]);
        lemma_bump_count_found(errs.drop_first(), msg, p - 1);
        assert(bump_count(errs, msg) == seq![errs[0]] + bump_count(errs.drop_first(), msg));
    }
}

/// With `msg` not yet listed, one occurrence appends it with count one.
proof fn lemma_bump_count_absent(errs: Seq<(Seq<char>, int)>, msg: Seq<char>)
    requires
        forall|j: int| 0 <= j < errs.len() ==> (#[trigger] errs[j]).0 != msg,
    ensures
        bump_count(errs, msg) =~= errs.push((msg, 1int)),
    decreases errs.len(),
{
    if errs.len() > 0 {
        assert(forall|j: int|
            0 <= j < errs.drop_first().len() ==> (#[trigger] errs.drop_first()[j]) == errs[j + 1]);
        lemma_bump_count_absent(errs.drop_first(), msg);
        assert(bump_count(errs, msg) == seq![errs[0]] + bump_count(errs.drop_first(), msg));
    }
}

} // verus!

verus! {

impl Rules {
    /// Builds a rule set from the outcomes of reading a grammar-rule
    /// definition file: keeps, in order, the compiled rules whose id passes
    /// the id filters of the options, with id and enabled flag set, and
    /// returns beside the set the grouped counts of the reading and
    /// compilation errors, each message under its category prefix, in
    /// first-encounter order.
    pub fn from_xml(loads: Vec<RuleLoad>, options: RulesOptions) -> (r: (
        Rules,
        Vec<(String, usize)>,
    ))
        requires
            forall|i: int|
                0 <= i < loads@.len() ==> match #[trigger] loads@[i] {
                    RuleLoad::Compiled(rule, _, _) => rule.wf(),
                    RuleLoad::StructureError(_) => true,
                    RuleLoad::RuleError(_) => true,
                },
        ensures
            r.0.rules@ == selected_rules(loads@, options, 0),
            r.0.wf(),
            counts_model(r.1@) == error_counts(loads@, 0, Seq::empty()),
    {
        let ghost loads0 = loads@;
        let total: usize = loads.len();
        let mut rules_v: Vec<Rule> = Vec::new();
        let mut errors: Vec<(String, usize)> = Vec::new();
        let mut rest = loads;
        let mut done: usize = 0;
        proof {
            assert(loads0.skip(0) =~= loads0);
            assert(counts_model(errors@) =~= Seq::<(Seq<char>, int)>::empty());
        }
        while done < total
            invariant
                total == loads0.len(),
                done <= total,
                rest@ =~= loads0.skip(done as int),
                forall|i: int|
                    0 <= i < loads0.len() ==> match #[trigger] loads0[i] {
                        RuleLoad::Compiled(rule, _, _) => rule.wf(),
                        RuleLoad::StructureError(_) => true,
                        RuleLoad::RuleError(_) => true,
                    },
                selected_rules(loads0, options, 0) == rules_v@ + selected_rules(
                    loads0,
                    options,
                    done as int,
                ),
                forall|i: int| 0 <= i < rules_v@.len() ==> (#[trigger] rules_v@[i]).wf(),
                error_counts(loads0, 0, Seq::empty()) == error_counts(
                    loads0,
                    done as int,
                    counts_model(errors@),
                ),
                all_counts_le(counts_model(errors@), done as int),
            decreases total - done,
        {
            let ghost old_rest = rest@;
            let ghost old_rules = rules_v@;
            let ghost old_counts = counts_model(errors@);
            let ld = rest.remove(0);
            proof {
                assert(old_rest[0] == loads0[done as int]);
                assert(rest@ =~= loads0.skip(done as int + 1)) by {
                    assert forall|j: int| 0 <= j < rest@.len() implies rest@[j] == loads0.skip(
                        done as int + 1,
                    )[j] by {
                        assert(rest@[j] == old_rest[j + 1]);
                        assert(old_rest[j + 1] == loads0.skip(done as int)[j + 1]);
                    }
                }
            }
            match ld {
                RuleLoad::Compiled(rule, id, on_flag) => {
                    let keep: bool = (options.ids.len() == 0 || contains_string(
                        &options.ids,
                        id.as_str(),
                    )) && !contains_string(&options.ignore_ids, id.as_str());
                    proof {
                        assert(keep == id_selected(options, id@));
                    }
                    if keep {
                        let mut rule2 = rule;
                        rule2.set_id(id);
                        rule2.set_on(on_flag);
                        rules_v.push(rule2);
                        proof {
                            assert(rules_v@ =~= old_rules.push(rules_v@[old_rules.len() as int]));
                            assert(old_rules + (seq![
                                rules_v@[old_rules.len() as int],
                            ] + selected_rules(loads0, options, done as int + 1)) =~= rules_v@
                                + selected_rules(loads0, options, done as int + 1));
                        }
                    } else {
                    }
                    proof {
                        assert(error_counts(loads0, done as int, old_counts) == error_counts(
                            loads0,
                            done as int + 1,
                            old_counts,
                        ));
                    }
                },
                RuleLoad::StructureError(m) => {
                    let msg = String::from_str("[Structure] ").concat(m.as_str());
                    proof {
                        assert(msg@ == "[Structure] "@ + m@);
                        assert forall|k: int|
                            0 <= k < errors@.len() implies (#[trigger] errors@[k]).1
                            < usize::MAX by {
                            assert(counts_model(errors@)[k] == (errors@[k].0@, errors@[
                                k].1 as int));
                            assert(counts_model(errors@)[k].1 <= done as int);
                        }
                    }
                    bump(&mut errors, msg);
                    proof {
                        lemma_bump_count_le(old_counts, "[Structure] "@ + m@, done as int);
                    }
                },
                RuleLoad::RuleError(m) => {
                    let msg = String::from_str("[Rule] ").concat(m.as_str());
                    proof {
                        assert(msg@ == "[Rule] "@ + m@);
                        assert forall|k: int|
                            0 <= k < errors@.len() implies (#[trigger] errors@[k]).1
                            < usize::MAX by {
                            assert(counts_model(errors@)[k] == (errors@[k].0@, errors@[
                                k].1 as int));
                            assert(counts_model(errors@)[k].1 <= done as int);
                        }
                    }
                    bump(&mut errors, msg);
                    proof {
                        lemma_bump_count_le(old_counts, "[Rule] "@ + m@, done as int);
                    }
                },
            }
            done += 1;
        }
        proof {
            assert(selected_rules(loads0, options, total as int) == Seq::<Rule>::empty());
            assert(rules_v@ + Seq::<Rule>::empty() =~= rules_v@);
        }
        (Rules { rules: rules_v, cache: Cache {  } }, errors)
    }
}

} // verus!

verus! {

/// Conflict resolution on two start-ordered suggestions over a fresh
/// occupancy mask of length `n`: when their ranges overlap, only the one with
/// the smaller start survives; when they are disjoint, both survive.
pub proof fn lemma_conflict_resolution(s1: SuggestionModel, s2: SuggestionModel, n: int)
    requires
        suggestion_in_bounds(s1, n),
        suggestion_in_bounds(s2, n),
        s1.start <= s2.start,
        s2.start < s2.end,
    ensures
        s2.start < s1.end ==> spec_filter(seq![s1, s2], Seq::new(n as nat, |k: int| false))
            =~= seq![s1],
        s1.end <= s2.start ==> spec_filter(seq![s1, s2], Seq::new(n as nat, |k: int| false))
            =~= seq![s1, s2],
{
    let mask0 = Seq::new(n as nat, |k: int| false);
    let s = seq![s1, s2];
    assert(s[0] == s1);
    assert(range_free(mask0, s1.start, s1.end));
    let mask1 = mark_range(mask0, s1.start, s1.end);
    assert(s.drop_first() =~= seq![s2]);
    assert(seq![s2][0] == s2);
    assert(seq![s2].drop_first() =~= Seq::<SuggestionModel>::empty());
    if s2.start < s1.end {
        assert(mask1[s2.start]);
        assert(!range_free(mask1, s2.start, s2.end));
        assert(spec_filter(seq![s2], mask1) == spec_filter(
            Seq::<SuggestionModel>::empty(),
            mask1,
        ));
        assert(spec_filter(s, mask0) == seq![s1] + Seq::<SuggestionModel>::empty());
    } else {
        assert(range_free(mask1, s2.start, s2.end));
        assert(spec_filter(seq![s2], mask1) == seq![s2] + spec_filter(
            Seq::<SuggestionModel>::empty(),
            mark_range(mask1, s2.start, s2.end),
        ));
        assert(spec_filter(s, mask0) =~= seq![s1, s2]);
    }
}

/// Offset compounding of the text patcher: applying two start-ascending,
/// non-overlapping suggestions splices the second at its range shifted by the
/// length change the first replacement caused, so earlier replacements
/// correctly move every later application point.
pub proof fn lemma_offset_compounding(text: Seq<char>, s1: SuggestionModel, s2: SuggestionModel)
    requires
        patch_list_wf(text, seq![s1, s2]),
    ensures
        ({
            let d = s1.texts[0].len() - (s1.end - s1.start);
            spec_correct(text, seq![s1, s2]) == splice(
                splice(text, s1.start, s1.end, s1.texts[0]),
                s2.start + d,
                s2.end + d,
                s2.texts[0],
            )
        }),
{
    let s = seq![s1, s2];
    assert(s[0] == s1);
    assert(s[1] == s2);
    let d = s1.texts[0].len() - (s1.end - s1.start);
    let t1 = splice(text, s1.start, s1.end, s1.texts[0]);
    let t2 = splice(t1, s2.start + d, s2.end + d, s2.texts[0]);
    assert(spec_correct_from(text, s, 0, 0) == spec_correct_from(t1, s, 1, d));
    assert(spec_correct_from(t1, s, 1, d) == spec_correct_from(t2, s, 2, d + s2.texts[0].len() - (
    s2.end - s2.start)));
}

/// Idempotence of re-correction: when `suggest` finds nothing — as on a text
/// already corrected that no rule matches any more — `correct` returns the
/// text unchanged.
pub proof fn lemma_resuggest_idempotent(rs: Rules, tokens: Seq<Token>, text: Seq<char>)
    requires
        spec_suggest(rs, tokens) == Seq::<SuggestionModel>::empty(),
    ensures
        spec_correct(text, spec_suggest(rs, tokens)) == text,
{
}

} // verus!

verus! {

/// The suggestions are in ascending `start` order.
pub open spec fn sorted_by_start(s: Seq<SuggestionModel>) -> bool {
    forall|i: int, j: int|
        0 <= i < j < s.len() ==> (#[trigger] s[i]).start <= (#[trigger] s[j]).start
}

proof fn lemma_insert_sorted_props(s: Seq<SuggestionModel>, x: SuggestionModel)
    requires
        sorted_by_start(s),
    ensures
        sorted_by_start(insert_sorted(s, x)),
        insert_sorted(s, x).len() == s.len() + 1,
        forall|k: int|
            0 <= k < insert_sorted(s, x).len() ==> (#[trigger] insert_sorted(s, x)[k] == x
                || s.contains(insert_sorted(s, x)[k])),
    decreases s.len(),
{
    let r = insert_sorted(s, x);
    if s.len() == 0 {
        assert(r =~= seq![x]);
    } else if s.last().start > x.start {
        assert(sorted_by_start(s.drop_last())) by {
            assert(forall|i: int|
                0 <= i < s.drop_last().len() ==> #[trigger] s.drop_last()[i] == s[i]);
        }
        lemma_insert_sorted_props(s.drop_last(), x);
        let rr = insert_sorted(s.drop_last(), x);
        assert(r == rr.push(s.last()));
        assert forall|i: int, j: int|
            0 <= i < j < r.len() implies (#[trigger] r[i]).start <= (#[trigger] r[j]).start by {
            if j < r.len() - 1 {
                assert(r[i] == rr[i] && r[j] == rr[j]);
            } else {
                assert(r[j] == s.last());
                assert(r[i] == rr[i]);
                if rr[i] == x {
                } else {
                    let w = choose|w: int| 0 <= w < s.drop_last().len() && s.drop_last()[w] == rr[i];
                    assert(s[w] == rr[i]);
                    assert(s[w].start <= s.last().start);
                }
            }
        }
        assert forall|k: int|
            0 <= k < r.len() implies (#[trigger] r[k] == x || s.contains(r[k])) by {
            if k < r.len() - 1 {
                assert(r[k] == rr[k]);
                if rr[k] != x {
                    let w = choose|w: int| 0 <= w < s.drop_last().len() && s.drop_last()[w] == rr[k];
                    assert(s[w] == rr[k]);
                }
            } else {
                assert(r[k] == s.last());
                assert(s[s.len() - 1] == s.last());
            }
        }
    } else {
        assert(r == s.push(x));
        assert forall|i: int, j: int|
            0 <= i < j < r.len() implies (#[trigger] r[i]).start <= (#[trigger] r[j]).start by {
            if j == r.len() - 1 {
                assert(r[j] == x);
                assert(r[i] == s[i]);
                if i < s.len() - 1 {
                    assert(s[i].start <= s[s.len() - 1].start);
                }
                assert(s.last() == s[s.len() - 1]);
            }
        }
        assert(forall|k: int| 0 <= k < s.len() ==> r[k] == #[trigger] s[k]);
    }
}

proof fn lemma_stable_sort_props(s: Seq<SuggestionModel>)
    ensures
        sorted_by_start(stable_sort(s)),
        stable_sort(s).len() == s.len(),
        forall|k: int|
            0 <= k < stable_sort(s).len() ==> s.contains(#[trigger] stable_sort(s)[k]),
    decreases s.len(),
{
    if s.len() > 0 {
        lemma_stable_sort_props(s.drop_last());
        lemma_insert_sorted_props(stable_sort(s.drop_last()), s.last());
        let pre = stable_sort(s.drop_last());
        let r = stable_sort(s);
        assert forall|k: int| 0 <= k < r.len() implies s.contains(#[trigger] r[k]) by {
            if r[k] == s.last() {
                assert(s[s.len() - 1] == s.last());
            } else {
                assert(pre.contains(r[k]));
                let w = choose|w: int| 0 <= w < pre.len() && pre[w] == r[k];
                assert(s.drop_last().contains(pre[w]));
                let v = choose|v: int| 0 <= v < s.drop_last().len() && s.drop_last()[v] == pre[w];
                assert(s[v] == r[k]);
            }
        }
    }
}

proof fn lemma_filter_props(s: Seq<SuggestionModel>, mask: Seq<bool>, n: int, lo: int)
    requires
        mask.len() == n,
        0 <= lo <= n,
        forall|k: int| 0 <= k < s.len() ==> 0 <= (#[trigger] s[k]).start < s[k].end <= n,
        sorted_by_start(s),
        forall|c: int| lo <= c < n ==> !(#[trigger] mask[c]),
        forall|k: int| 0 <= k < s.len() && (#[trigger] s[k]).start < lo ==> mask[s[k].start],
    ensures
        ({
            let out = spec_filter(s, mask);
            &&& forall|k: int| 0 <= k < out.len() ==> s.contains(#[trigger] out[k])
            &&& forall|k: int| 0 <= k < out.len() ==> lo <= (#[trigger] out[k]).start
            &&& forall|k: int|
                0 <= k < out.len() - 1 ==> (#[trigger] out[k]).end <= out[k + 1].start
        }),
    decreases s.len(),
{
    if s.len() > 0 {
        let x = s[0];
        let rest = s.drop_first();
        assert(forall|k: int| 0 <= k < rest.len() ==> #[trigger] rest[k] == s[k + 1]);
        assert(sorted_by_start(rest));
        if lo <= x.start {
            assert(range_free(mask, x.start, x.end));
            let m2 = mark_range(mask, x.start, x.end);
            assert(forall|c: int| x.end <= c < n ==> !(#[trigger] m2[c]));
            assert forall|k: int|
                0 <= k < rest.len() && (#[trigger] rest[k]).start < x.end implies m2[rest[
                k].start] by {
                assert(s[0].start <= s[k + 1].start);
            }
            lemma_filter_props(rest, m2, n, x.end);
            let out2 = spec_filter(rest, m2);
            let out = spec_filter(s, mask);
            assert(out == seq![x] + out2);
            assert forall|k: int| 0 <= k < out.len() implies s.contains(#[trigger] out[k]) by {
                if k == 0 {
                    assert(out[0] == s[0]);
                } else {
                    assert(out[k] == out2[k - 1]);
                    assert(rest.contains(out2[k - 1]));
                    let w = choose|w: int| 0 <= w < rest.len() && rest[w] == out2[k - 1];
                    assert(s[w + 1] == out[k]);
                }
            }
            assert forall|k: int|
                0 <= k < out.len() - 1 implies (#[trigger] out[k]).end <= out[k + 1].start by {
                if k == 0 {
                    assert(out[1] == out2[0]);
                    assert(x.end <= out2[0].start);
                } else {
                    assert(out[k] == out2[k - 1] && out[k + 1] == out2[k]);
                }
            }
        } else {
            assert(mask[x.start]);
            assert(!range_free(mask, x.start, x.end));
            lemma_filter_props(rest, mask, n, lo);
            let out = spec_filter(s, mask);
            assert(out == spec_filter(rest, mask));
            assert forall|k: int| 0 <= k < out.len() implies s.contains(#[trigger] out[k]) by {
                assert(rest.contains(out[k]));
                let w = choose|w: int| 0 <= w < rest.len() && rest[w] == out[k];
                assert(s[w + 1] == out[k]);
            }
        }
    }
}

/// The guarantee of conflict resolution: filtering the stably sorted
/// suggestions over a fresh occupancy mask yields a list drawn from the input
/// whose ranges are non-overlapping and ascending — the shape the text
/// patcher's precondition asks for.
pub proof fn lemma_resolution_yields_patch_list(s: Seq<SuggestionModel>, n: int)
    requires
        n >= 0,
        forall|k: int| 0 <= k < s.len() ==> 0 <= (#[trigger] s[k]).start < s[k].end <= n,
    ensures
        ({
            let out = spec_filter(stable_sort(s), Seq::new(n as nat, |c: int| false));
            &&& forall|k: int| 0 <= k < out.len() ==> s.contains(#[trigger] out[k])
            &&& forall|k: int|
                0 <= k < out.len() - 1 ==> (#[trigger] out[k]).end <= out[k + 1].start
        }),
{
    lemma_stable_sort_props(s);
    let sorted = stable_sort(s);
    assert forall|k: int|
        0 <= k < sorted.len() implies 0 <= (#[trigger] sorted[k]).start < sorted[k].end <= n by {
        let w = choose|w: int| 0 <= w < s.len() && s[w] == sorted[k];
    }
    lemma_filter_props(sorted, Seq::new(n as nat, |c: int| false), n, 0);
    let out = spec_filter(sorted, Seq::new(n as nat, |c: int| false));
    assert forall|k: int| 0 <= k < out.len() implies s.contains(#[trigger] out[k]) by {
        assert(sorted.contains(out[k]));
        let w = choose|w: int| 0 <= w < sorted.len() && sorted[w] == out[k];
        assert(s.contains(sorted[w]));
    }
}

} // verus!
