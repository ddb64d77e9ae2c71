//! Compiled token patterns: leaf matchers over token attributes, the
//! recursive atom predicate tree, quantified parts, and `Composition::apply`,
//! the greedy single-pass matcher that produces a capture-group graph.

use crate::types::{Token, WordData};
use vstd::prelude::*;
use vstd::std_specs::cmp::PartialEqSpec;
use vstd::string::StrSliceExecFns;

verus! {

/// The case folding of a string, as `str::to_lowercase` computes it: a
/// function of the characters alone.
pub uninterp spec fn lower_of(s: Seq<char>) -> Seq<char>;

/// Whether `input` as a whole matches the regular expression `pattern`: a
/// function of the two strings alone. A pattern that does not compile, and a
/// match attempt the engine gives up on (its retry budget, a fixed default,
/// runs out), match nothing.
pub uninterp spec fn regex_match(pattern: Seq<char>, input: Seq<char>) -> bool;

/// Relies on str::to_lowercase: the lowercase form of a string depends on its
/// characters alone.
#[verifier::external_body]
fn lowercase(s: &str) -> (r: String)
    ensures
        r@ == lower_of(s@),
{
    s.to_lowercase()
}

/// Relies on onig::Regex::new and onig::Regex::match_with_param: whether the
/// whole of `input` matches `pattern` compiled as an Oniguruma regex, under
/// the engine's default match parameters, so the result depends on the two
/// strings alone. An uncompilable pattern matches nothing, and so does a
/// match attempt the engine aborts (its default retry budget runs out); the
/// erring outcomes are mapped to `false` rather than left to panic.
#[verifier::external_body]
fn regex_is_match(pattern: &str, input: &str) -> (r: bool)
    ensures
        r == regex_match(pattern@, input@),
{
    let opts = onig::SearchOptions::SEARCH_OPTION_WHOLE_STRING;
    match onig::Regex::new(pattern) {
        Ok(re) => match re.match_with_param(input, 0, opts, None, onig::MatchParam::default()) {
            Ok(Some(len)) => len == input.len(),
            _ => false,
        },
        Err(_) => false,
    }
}

/// Character-for-character string equality.
pub(crate) fn str_eq(a: &str, b: &str) -> (r: bool)
    ensures
        r == (a@ == b@),
{
    let n = a.unicode_len();
    if n != b.unicode_len() {
        return false;
    }
    let mut i: usize = 0;
    while i < n
        invariant
            n == a@.len(),
            n == b@.len(),
            i <= n,
            forall|j: int| 0 <= j < i ==> a@[j] == b@[j],
        decreases n - i,
    {
        if a.get_char(i) != b.get_char(i) {
            return false;
        }
        i += 1;
    }
    proof {
        assert(a@ =~= b@);
    }
    true
}

/// What a leaf matcher is tested against: a literal string or a back-reference
/// to the capture group with the given id.
pub enum StringOrId {
    Literal(String),
    Id(usize),
}

/// The target of a `Matcher`: a string-or-back-reference test or a regular
/// expression given by its pattern.
pub enum MatcherKind {
    Text(StringOrId),
    Pattern(String),
}

/// A leaf matcher over one scalar token attribute, with orthogonal `negate`,
/// `case_sensitive` and `empty_always_false` flags.
pub struct Matcher {
    pub matcher: MatcherKind,
    pub negate: bool,
    pub case_sensitive: bool,
    pub empty_always_false: bool,
}

/// The text an earlier capture group contributes to a back-reference test:
/// the word text of the group's first token, if the id is assigned and the
/// group holds a token.
pub open spec fn backref_text(
    tokens: Seq<Token>,
    grps: Seq<Seq<usize>>,
    ids: Seq<usize>,
    id: usize,
) -> Option<Seq<char>> {
    if id < ids.len() && ids[id as int] < grps.len() && grps[ids[id as int] as int].len() > 0
        && grps[ids[id as int] as int][0] < tokens.len() {
        Option::Some(tokens[grps[ids[id as int] as int][0] as int].word.text@)
    } else {
        Option::None
    }
}

impl Matcher {
    /// The raw test, before the empty-input rule and negation are applied.
    pub open spec fn spec_raw_match(
        &self,
        input: Seq<char>,
        tokens: Seq<Token>,
        grps: Seq<Seq<usize>>,
        ids: Seq<usize>,
    ) -> bool {
        match self.matcher {
            MatcherKind::Text(StringOrId::Literal(s)) => if self.case_sensitive {
                s@ == input
            } else {
                lower_of(s@) == lower_of(input)
            },
            MatcherKind::Text(StringOrId::Id(id)) => match backref_text(tokens, grps, ids, id) {
                Option::Some(t) => if self.case_sensitive {
                    t == input
                } else {
                    lower_of(t) == lower_of(input)
                },
                Option::None => false,
            },
            MatcherKind::Pattern(p) => regex_match(p@, input),
        }
    }

    /// What `is_match` returns: an empty input short-circuits (`false` when
    /// `empty_always_false`, the value of `negate` otherwise); any other input
    /// is tested and the outcome XOR'd with `negate`.
    pub open spec fn spec_is_match(
        &self,
        input: Seq<char>,
        tokens: Seq<Token>,
        grps: Seq<Seq<usize>>,
        ids: Seq<usize>,
    ) -> bool {
        if input.len() == 0 {
            if self.empty_always_false {
                false
            } else {
                self.negate
            }
        } else {
            self.spec_raw_match(input, tokens, grps, ids) != self.negate
        }
    }

    pub fn new_regex(pattern: String, negate: bool, empty_always_false: bool) -> (r: Matcher)
        ensures
            r == (Matcher {
                matcher: MatcherKind::Pattern(pattern),
                negate,
                case_sensitive: true,
                empty_always_false,
            }),
    {
        Matcher {
            matcher: MatcherKind::Pattern(pattern),
            negate,
            case_sensitive: true,  // handled by the regex itself
            empty_always_false,
        }
    }

    pub fn new_string(
        string_or_idx: StringOrId,
        negate: bool,
        case_sensitive: bool,
        empty_always_false: bool,
    ) -> (r: Matcher)
        ensures
            r == (Matcher {
                matcher: MatcherKind::Text(string_or_idx),
                negate,
                case_sensitive,
                empty_always_false,
            }),
    {
        Matcher { matcher: MatcherKind::Text(string_or_idx), negate, case_sensitive, empty_always_false }
    }

    pub fn is_match(&self, input: &str, tokens: &[Token], graph: &MatchGraph) -> (r: bool)
        requires
            graph.wf(),
            graph.tokens_in_range(tokens@.len() as int),
        ensures
            r == self.spec_is_match(input@, tokens@, graph.groups_model(), graph.ids_model()),
    {
        if input.is_empty() {
            return if self.empty_always_false {
                false
            } else {
                self.negate
            };
        }

        let matched: bool = match &self.matcher {
            MatcherKind::Text(string_or_idx) => match string_or_idx {
                StringOrId::Literal(s) => {
                    if self.case_sensitive {
                        str_eq(s.as_str(), input)
                    } else {
                        let a = lowercase(s.as_str());
                        let b = lowercase(input);
                        str_eq(a.as_str(), b.as_str())
                    }
                },
                StringOrId::Id(idx) => match graph.by_id(*idx) {
                    Option::Some(group) => {
                        if group.tokens.len() > 0 {
                            let ti: usize = group.tokens[0];
                            let t: &String = &tokens[ti].word.text;
                            if self.case_sensitive {
                                str_eq(t.as_str(), input)
                            } else {
                                let a = lowercase(t.as_str());
                                let b = lowercase(input);
                                str_eq(a.as_str(), b.as_str())
                            }
                        } else {
                            false
                        }
                    },
                    Option::None => false,
                },
            },
            MatcherKind::Pattern(p) => regex_is_match(p.as_str(), input),
        };

        if self.negate {
            !matched
        } else {
            matched
        }
    }

    /// Whether any element of a multi-valued input matches.
    pub open spec fn spec_is_slice_match(
        &self,
        input: Seq<Seq<char>>,
        tokens: Seq<Token>,
        grps: Seq<Seq<usize>>,
        ids: Seq<usize>,
    ) -> bool {
        exists|i: int|
            0 <= i < input.len() && self.spec_is_match(#[trigger] input[i], tokens, grps, ids)
    }

    pub fn is_slice_match(&self, input: &[String], tokens: &[Token], graph: &MatchGraph) -> (r:
        bool)
        requires
            graph.wf(),
            graph.tokens_in_range(tokens@.len() as int),
        ensures
            r == self.spec_is_slice_match(
                input.deep_view(),
                tokens@,
                graph.groups_model(),
                graph.ids_model(),
            ),
    {
        let mut i: usize = 0;
        while i < input.len()
            invariant
                i <= input@.len(),
                graph.wf(),
                graph.tokens_in_range(tokens@.len() as int),
                forall|j: int|
                    0 <= j < i ==> !self.spec_is_match(
                        #[trigger] input.deep_view()[j],
                        tokens@,
                        graph.groups_model(),
                        graph.ids_model(),
                    ),
            decreases input@.len() - i,
        {
            if self.is_match(input[i].as_str(), tokens, graph) {
                assert(input.deep_view()[i as int] == input@[i as int]@);
                return true;
            }
            assert(input.deep_view()[i as int] == input@[i as int]@);
            i += 1;
        }
        false
    }
}

/// Combines an optional part-of-speech matcher and an optional inflection
/// matcher; a token is accepted when some single reading satisfies both.
pub struct WordDataMatcher {
    pub pos_matcher: Option<Matcher>,
    pub inflect_matcher: Option<Matcher>,
}

impl WordDataMatcher {
    pub fn new(pos_matcher: Option<Matcher>, inflect_matcher: Option<Matcher>) -> (r:
        WordDataMatcher)
        ensures
            r == (WordDataMatcher { pos_matcher, inflect_matcher }),
    {
        WordDataMatcher { pos_matcher, inflect_matcher }
    }

    /// Whether the reading `w` satisfies both sub-matchers (a missing
    /// sub-matcher accepts everything).
    pub open spec fn spec_reading_match(
        &self,
        w: WordData,
        tokens: Seq<Token>,
        grps: Seq<Seq<usize>>,
        ids: Seq<usize>,
    ) -> bool {
        &&& match self.pos_matcher {
            Option::Some(m) => m.spec_is_match(w.pos@, tokens, grps, ids),
            Option::None => true,
        }
        &&& match self.inflect_matcher {
            Option::Some(m) => m.spec_is_match(w.inflection@, tokens, grps, ids),
            Option::None => true,
        }
    }

    /// An existential AND over the reading pairs: some reading must satisfy
    /// both sub-matchers at once.
    pub open spec fn spec_is_match(
        &self,
        input: Seq<WordData>,
        tokens: Seq<Token>,
        grps: Seq<Seq<usize>>,
        ids: Seq<usize>,
    ) -> bool {
        exists|i: int|
            0 <= i < input.len() && self.spec_reading_match(#[trigger] input[i], tokens, grps, ids)
    }

    pub fn is_match(&self, input: &[WordData], tokens: &[Token], graph: &MatchGraph) -> (r: bool)
        requires
            graph.wf(),
            graph.tokens_in_range(tokens@.len() as int),
        ensures
            r == self.spec_is_match(input@, tokens@, graph.groups_model(), graph.ids_model()),
    {
        let mut i: usize = 0;
        while i < input.len()
            invariant
                i <= input@.len(),
                graph.wf(),
                graph.tokens_in_range(tokens@.len() as int),
                forall|j: int|
                    0 <= j < i ==> !self.spec_reading_match(
                        #[trigger] input@[j],
                        tokens@,
                        graph.groups_model(),
                        graph.ids_model(),
                    ),
            decreases input@.len() - i,
        {
            let pos_matches: bool = match &self.pos_matcher {
                Option::Some(m) => m.is_match(input[i].pos.as_str(), tokens, graph),
                Option::None => true,
            };
            let inflect_matches: bool = match &self.inflect_matcher {
                Option::Some(m) => m.is_match(input[i].inflection.as_str(), tokens, graph),
                Option::None => true,
            };
            if pos_matches && inflect_matches {
                assert(self.spec_reading_match(
                    input@[i as int],
                    tokens@,
                    graph.groups_model(),
                    graph.ids_model(),
                ));
                return true;
            }
            i += 1;
        }
        false
    }
}

/// Tests a value for equality against a fixed value.
pub struct GenericMatcher<T> {
    pub value: T,
}

impl<T: Eq> GenericMatcher<T> {
    pub fn is_match(&self, input: &T) -> (r: bool)
        ensures
            T::obeys_eq_spec() ==> r == input.eq_spec(&self.value),
    {
        *input == self.value
    }

    pub fn new(value: T) -> (r: GenericMatcher<T>)
        ensures
            r.value == value,
    {
        GenericMatcher { value }
    }
}

/// The repetition bound of one pattern part: the part's atom must match at
/// least `min` and at most `max` consecutive tokens.
pub struct Quantifier {
    pub min: usize,
    pub max: usize,
}

impl Quantifier {
    pub fn new(min: usize, max: usize) -> (r: Quantifier)
        requires
            min <= max,
        ensures
            r.min == min,
            r.max == max,
    {
        Quantifier { min, max }
    }
}

/// One capture slot of a match: the indices of the tokens the slot consumed
/// and its reconciled character span into the original text.
pub struct Group {
    pub char_start: usize,
    pub char_end: usize,
    pub tokens: Vec<usize>,
}

impl Group {
    pub(crate) fn empty() -> (r: Group)
        ensures
            r.char_start == 0,
            r.char_end == 0,
            r.tokens@ == Seq::<usize>::empty(),
    {
        Group { char_start: 0, char_end: 0, tokens: Vec::new() }
    }
}

/// The capture-group result of a successful `Composition::apply`: one group
/// per part, and the map from capture ids to the indices of visible parts.
pub struct MatchGraph {
    pub groups: Vec<Group>,
    pub id_to_idx: Vec<usize>,
}

impl MatchGraph {
    /// The token indices held by each group.
    pub open spec fn groups_model(&self) -> Seq<Seq<usize>> {
        self.groups@.map_values(|g: Group| g.tokens@)
    }

    /// The capture-id map: position `id` holds the index of the part the id
    /// was assigned to.
    pub open spec fn ids_model(&self) -> Seq<usize> {
        self.id_to_idx@
    }

    /// Every capture id maps to an existing group.
    pub open spec fn wf(&self) -> bool {
        forall|i: int|
            0 <= i < self.id_to_idx@.len() ==> (#[trigger] self.id_to_idx@[i]) < self.groups@.len()
    }

    /// Every stored token index points into a token slice of length `n`.
    pub open spec fn tokens_in_range(&self, n: int) -> bool {
        forall|i: int, j: int|
            0 <= i < self.groups@.len() && 0 <= j < self.groups@[i].tokens@.len() ==> (
            #[trigger] self.groups@[i].tokens@[j]) < n
    }

    pub open spec fn spec_get_index(&self, id: usize) -> Option<usize> {
        if id < self.id_to_idx@.len() {
            Option::Some(self.id_to_idx@[id as int])
        } else {
            Option::None
        }
    }

    pub fn by_index(&self, index: usize) -> (r: &Group)
        requires
            index < self.groups@.len(),
        ensures
            *r == self.groups@[index as int],
    {
        &self.groups[index]
    }

    pub fn get_index(&self, id: usize) -> (r: Option<usize>)
        ensures
            r == self.spec_get_index(id),
    {
        if id < self.id_to_idx.len() {
            Option::Some(self.id_to_idx[id])
        } else {
            Option::None
        }
    }

    pub fn by_id(&self, id: usize) -> (r: Option<&Group>)
        requires
            self.wf(),
        ensures
            match r {
                Option::Some(g) => id < self.id_to_idx@.len() && *g == self.groups@[self.id_to_idx@[id as int] as int],
                Option::None => self.spec_get_index(id) is None,
            },
    {
        match self.get_index(id) {
            Option::Some(index) => Option::Some(&self.groups[index]),
            Option::None => Option::None,
        }
    }

    pub fn is_empty(&self) -> (r: bool)
        ensures
            r == (self.groups@.len() == 0),
    {
        self.groups.is_empty()
    }

    pub fn len(&self) -> (r: usize)
        ensures
            r == self.groups@.len(),
    {
        self.groups.len()
    }

    pub fn groups(&self) -> (r: &[Group])
        ensures
            r@ == self.groups@,
    {
        self.groups.as_slice()
    }
}

} // verus!

use vstd::prelude::*;

verus! {

/// An atom that accepts every token.
pub struct TrueAtom {}

impl TrueAtom {
    pub fn new() -> (r: TrueAtom)
        ensures
            r == (TrueAtom {  }),
    {
        TrueAtom {  }
    }
}

impl Default for TrueAtom {
    fn default() -> (r: TrueAtom)
        ensures
            r == (TrueAtom {  }),
    {
        TrueAtom::new()
    }
}

/// A conjunction of child atoms, all evaluated at the same position.
pub struct AndAtom {
    pub atoms: Vec<Atom>,
}

impl AndAtom {
    pub fn new(atoms: Vec<Atom>) -> (r: AndAtom)
        ensures
            r.atoms == atoms,
    {
        AndAtom { atoms }
    }
}

/// A disjunction of child atoms, all evaluated at the same position.
pub struct OrAtom {
    pub atoms: Vec<Atom>,
}

impl OrAtom {
    pub fn new(atoms: Vec<Atom>) -> (r: OrAtom)
        ensures
            r.atoms == atoms,
    {
        OrAtom { atoms }
    }
}

/// The negation of a child atom.
pub struct NotAtom {
    pub atom: Box<Atom>,
}

impl NotAtom {
    pub fn new(atom: Box<Atom>) -> (r: NotAtom)
        ensures
            r.atom == atom,
    {
        NotAtom { atom }
    }
}

/// Re-targets a child atom to `position + offset`; a shifted position outside
/// the token slice reports no match.
pub struct OffsetAtom {
    pub atom: Box<Atom>,
    pub offset: isize,
}

impl OffsetAtom {
    pub fn new(atom: Box<Atom>, offset: isize) -> (r: OffsetAtom)
        ensures
            r.atom == atom,
            r.offset == offset,
    {
        OffsetAtom { atom, offset }
    }
}

/// Which token attribute a leaf atom consults, and the matcher it tests the
/// attribute with.
pub enum AttributeMatcher {
    WordText(Matcher),
    WordData(WordDataMatcher),
}

/// A leaf atom: tests one attribute of the token at the current position.
pub struct MatchAtom {
    pub matcher: AttributeMatcher,
}

impl MatchAtom {
    pub fn new(matcher: AttributeMatcher) -> (r: MatchAtom)
        ensures
            r.matcher == matcher,
    {
        MatchAtom { matcher }
    }
}

/// The polymorphic unit of match logic over one token at one position: a
/// closed predicate tree dispatched by a single evaluation function.
pub enum Atom {
    True(TrueAtom),
    And(AndAtom),
    Or(OrAtom),
    Not(NotAtom),
    Offset(OffsetAtom),
    Match(MatchAtom),
}

/// What a leaf atom tests at `position`.
pub open spec fn spec_match_atom(
    m: MatchAtom,
    tokens: Seq<Token>,
    grps: Seq<Seq<usize>>,
    ids: Seq<usize>,
    position: int,
) -> bool {
    0 <= position < tokens.len() && match m.matcher {
        AttributeMatcher::WordText(mm) => mm.spec_is_match(
            tokens[position].word.text@,
            tokens,
            grps,
            ids,
        ),
        AttributeMatcher::WordData(wm) => wm.spec_is_match(
            tokens[position].word.tags@,
            tokens,
            grps,
            ids,
        ),
    }
}

/// Whether `a` matches at `position`, reading the groups captured so far for
/// back-references.
pub open spec fn spec_atom_match(
    a: Atom,
    tokens: Seq<Token>,
    grps: Seq<Seq<usize>>,
    ids: Seq<usize>,
    position: int,
) -> bool
    decreases a,
{
    match a {
        Atom::True(_) => true,
        Atom::And(and) => forall|i: int|
            0 <= i < and.atoms@.len() ==> spec_atom_match(
                #[trigger] and.atoms@[i],
                tokens,
                grps,
                ids,
                position,
            ),
        Atom::Or(or) => exists|i: int|
            0 <= i < or.atoms@.len() && spec_atom_match(
                #[trigger] or.atoms@[i],
                tokens,
                grps,
                ids,
                position,
            ),
        Atom::Not(not) => !spec_atom_match(*not.atom, tokens, grps, ids, position),
        Atom::Offset(off) => {
            let np = position + off.offset as int;
            if np < 0 || np >= tokens.len() {
                false
            } else {
                spec_atom_match(*off.atom, tokens, grps, ids, np)
            }
        },
        Atom::Match(m) => spec_match_atom(m, tokens, grps, ids, position),
    }
}

impl Atom {
    pub fn is_match(&self, tokens: &[Token], graph: &MatchGraph, position: usize) -> (r: bool)
        requires
            graph.wf(),
            graph.tokens_in_range(tokens@.len() as int),
            position < tokens@.len(),
        ensures
            r == spec_atom_match(
                *self,
                tokens@,
                graph.groups_model(),
                graph.ids_model(),
                position as int,
            ),
        decreases *self,
    {
        match self {
            Atom::True(_) => true,
            Atom::And(a) => {
                let mut i: usize = 0;
                while i < a.atoms.len()
                    invariant
                        *self == Atom::And(*a),
                        i <= a.atoms@.len(),
                        graph.wf(),
                        graph.tokens_in_range(tokens@.len() as int),
                        position < tokens@.len(),
                        forall|j: int|
                            0 <= j < i ==> spec_atom_match(
                                #[trigger] a.atoms@[j],
                                tokens@,
                                graph.groups_model(),
                                graph.ids_model(),
                                position as int,
                            ),
                    decreases a.atoms@.len() - i,
                {
                    proof {
                        assert(*a == self->And_0);
                        assert(decreases_to!(*self => self->And_0.atoms@[i as int]));
                    }
                    if !a.atoms[i].is_match(tokens, graph, position) {
                        return false;
                    }
                    i += 1;
                }
                true
            },
            Atom::Or(o) => {
                let mut i: usize = 0;
                while i < o.atoms.len()
                    invariant
                        *self == Atom::Or(*o),
                        i <= o.atoms@.len(),
                        graph.wf(),
                        graph.tokens_in_range(tokens@.len() as int),
                        position < tokens@.len(),
                        forall|j: int|
                            0 <= j < i ==> !spec_atom_match(
                                #[trigger] o.atoms@[j],
                                tokens@,
                                graph.groups_model(),
                                graph.ids_model(),
                                position as int,
                            ),
                    decreases o.atoms@.len() - i,
                {
                    proof {
                        assert(*o == self->Or_0);
                        assert(decreases_to!(*self => self->Or_0.atoms@[i as int]));
                    }
                    if o.atoms[i].is_match(tokens, graph, position) {
                        assert(spec_atom_match(
                            o.atoms@[i as int],
                            tokens@,
                            graph.groups_model(),
                            graph.ids_model(),
                            position as int,
                        ));
                        return true;
                    }
                    i += 1;
                }
                false
            },
            Atom::Not(n) => !n.atom.is_match(tokens, graph, position),
            Atom::Offset(off) => {
                let np: i128 = position as i128 + off.offset as i128;
                if np < 0 || np >= tokens.len() as i128 {
                    false
                } else {
                    off.atom.is_match(tokens, graph, np as usize)
                }
            },
            Atom::Match(m) => match &m.matcher {
                AttributeMatcher::WordText(mm) => mm.is_match(
                    tokens[position].word.text.as_str(),
                    tokens,
                    graph,
                ),
                AttributeMatcher::WordData(wm) => wm.is_match(
                    tokens[position].word.tags.as_slice(),
                    tokens,
                    graph,
                ),
            },
        }
    }
}

} // verus!

verus! {

/// An atom together with its repetition bound and capture visibility.
pub struct Part {
    pub atom: Atom,
    pub quantifier: Quantifier,
    pub visible: bool,
}

impl Part {
    pub fn new(atom: Atom, quantifier: Quantifier, visible: bool) -> (r: Part)
        ensures
            r.atom == atom,
            r.quantifier == quantifier,
            r.visible == visible,
    {
        Part { atom, quantifier, visible }
    }
}

/// The part indices that get capture ids: the indices of the visible parts,
/// in left-to-right order; the id of a part is its position in this sequence.
pub open spec fn visible_indices(parts: Seq<Part>) -> Seq<usize>
    decreases parts.len(),
{
    if parts.len() == 0 {
        Seq::empty()
    } else if parts.last().visible {
        visible_indices(parts.drop_last()).push((parts.len() - 1) as usize)
    } else {
        visible_indices(parts.drop_last())
    }
}

/// One empty capture slot per part.
pub open spec fn empty_groups(n: int) -> Seq<Seq<usize>> {
    Seq::new(n as nat, |i| Seq::<usize>::empty())
}

/// Every remaining part, from `idx` on, is fully optional.
pub open spec fn all_min_zero_from(parts: Seq<Part>, idx: int) -> bool {
    forall|j: int| idx <= j < parts.len() ==> (#[trigger] parts[j]).quantifier.min == 0
}

/// The index just past the next part with `min > 0`, scanning from `j`;
/// `parts.len()` when every part from `j` on is optional.
pub open spec fn spec_next_required_pos(parts: Seq<Part>, j: int) -> int
    decreases parts.len() - j,
{
    if j < 0 || j >= parts.len() {
        parts.len() as int
    } else if parts[j].quantifier.min > 0 {
        j + 1
    } else {
        spec_next_required_pos(parts, j + 1)
    }
}

/// The lookahead of the matcher: whether any part after `index`, up to and
/// including the first part with `min > 0`, matches at `position`.
pub open spec fn spec_next_can_match(
    parts: Seq<Part>,
    tokens: Seq<Token>,
    grps: Seq<Seq<usize>>,
    ids: Seq<usize>,
    position: int,
    index: int,
) -> bool {
    if index == parts.len() - 1 {
        false
    } else {
        exists|j: int|
            index + 1 <= j < spec_next_required_pos(parts, index + 1) && spec_atom_match(
                (#[trigger] parts[j]).atom,
                tokens,
                grps,
                ids,
                position,
            )
    }
}

/// One step at a time, the state of the matching scan: the current position,
/// part index and repetition count, and the groups filled so far. Returns the
/// raw verdict of the scan, the part index where it stopped, and the groups.
pub open spec fn spec_run(
    parts: Seq<Part>,
    tokens: Seq<Token>,
    ids: Seq<usize>,
    grps: Seq<Seq<usize>>,
    position: int,
    idx: int,
    count: int,
) -> (bool, int, Seq<Seq<usize>>)
    decreases parts.len() - idx, tokens.len() - position,
{
    if idx < 0 || idx >= parts.len() {
        (true, idx, grps)
    } else if count >= parts[idx].quantifier.max {
        if idx + 1 >= parts.len() {
            (false, idx + 1, grps)
        } else {
            spec_run(parts, tokens, ids, grps, position, idx + 1, 0)
        }
    } else if position >= tokens.len() {
        (false, idx, grps)
    } else if count >= parts[idx].quantifier.min && spec_next_can_match(
        parts,
        tokens,
        grps,
        ids,
        position,
        idx,
    ) {
        spec_run(parts, tokens, ids, grps, position, idx + 1, 0)
    } else if spec_atom_match(parts[idx].atom, tokens, grps, ids, position) {
        spec_run(
            parts,
            tokens,
            ids,
            grps.update(idx, grps[idx].push(position as usize)),
            position + 1,
            idx,
            count + 1,
        )
    } else {
        (false, idx, grps)
    }
}

/// The scan of `apply` from its initial state.
pub open spec fn run_result(parts: Seq<Part>, tokens: Seq<Token>, start: int) -> (
    bool,
    int,
    Seq<Seq<usize>>,
) {
    spec_run(parts, tokens, visible_indices(parts), empty_groups(parts.len() as int), start, 0, 0)
}

/// Whether `apply` succeeds: the scan's own verdict, softened by the fallback
/// that trailing fully-optional parts need not be visited.
pub open spec fn spec_matches(parts: Seq<Part>, tokens: Seq<Token>, start: int) -> bool {
    let r = run_result(parts, tokens, start);
    r.0 || all_min_zero_from(parts, r.1)
}

/// The first group at or after `i` that holds a token; `grps.len()` if none.
pub open spec fn first_nonempty(grps: Seq<Seq<usize>>, i: int) -> int
    decreases grps.len() - i,
{
    if i < 0 || i >= grps.len() {
        grps.len() as int
    } else if grps[i].len() > 0 {
        i
    } else {
        first_nonempty(grps, i + 1)
    }
}

/// The last group at or before `i` that holds a token; `-1` if none.
pub open spec fn last_nonempty(grps: Seq<Seq<usize>>, i: int) -> int
    decreases i + 1,
{
    if i < 0 || i >= grps.len() {
        -1
    } else if grps[i].len() > 0 {
        i
    } else {
        last_nonempty(grps, i - 1)
    }
}

/// The forward reconciliation pass: a nonempty group's span covers its own
/// tokens; an empty group's end is the running end of the previous nonempty
/// group.
pub open spec fn fwd_pass(
    grps: Seq<Seq<usize>>,
    tokens: Seq<Token>,
    spans: Seq<(usize, usize)>,
    i: int,
    run_start: usize,
) -> Seq<(usize, usize)>
    decreases grps.len() - i,
{
    if i < 0 || i >= grps.len() || spans.len() != grps.len() {
        spans
    } else if grps[i].len() > 0 {
        let cs = tokens[grps[i][0] as int].char_span.0;
        let ce = tokens[grps[i][grps[i].len() - 1] as int].char_span.1;
        fwd_pass(grps, tokens, spans.update(i, (cs, ce)), i + 1, ce)
    } else {
        fwd_pass(grps, tokens, spans.update(i, (spans[i].0, run_start)), i + 1, run_start)
    }
}

/// The backward reconciliation pass: an empty group's start is the start of
/// the next nonempty group.
pub open spec fn bwd_pass(
    grps: Seq<Seq<usize>>,
    spans: Seq<(usize, usize)>,
    i: int,
    run_end: usize,
) -> Seq<(usize, usize)>
    decreases i + 1,
{
    if i < 0 || i >= grps.len() || spans.len() != grps.len() {
        spans
    } else if grps[i].len() > 0 {
        bwd_pass(grps, spans, i - 1, spans[i].0)
    } else {
        bwd_pass(grps, spans.update(i, (run_end, spans[i].1)), i - 1, run_end)
    }
}

/// The reconciled spans of a successful match: every group, matched or empty,
/// gets a well-defined span usable for insertion at its position.
pub open spec fn spec_final_spans(parts: Seq<Part>, tokens: Seq<Token>, start: int) -> Seq<
    (usize, usize),
> {
    let grps = run_result(parts, tokens, start).2;
    let zero_spans = Seq::new(grps.len(), |i: int| (0usize, 0usize));
    let fi = first_nonempty(grps, 0);
    let li = last_nonempty(grps, grps.len() - 1);
    let s0 = tokens[grps[fi][0] as int].char_span.0;
    let e0 = tokens[grps[li][0] as int].char_span.1;
    bwd_pass(grps, fwd_pass(grps, tokens, zero_spans, 0, s0), grps.len() - 1, e0)
}

/// Every stored token index lies in `[lo, hi)`.
pub open spec fn groups_tokens_bounded(grps: Seq<Seq<usize>>, lo: int, hi: int) -> bool {
    forall|i: int, j: int|
        0 <= i < grps.len() && 0 <= j < grps[i].len() ==> lo <= #[trigger] grps[i][j] < hi
}

/// Token indices grow strictly along the groups, read left to right.
pub open spec fn groups_tokens_ordered(grps: Seq<Seq<usize>>) -> bool {
    forall|i1: int, j1: int, i2: int, j2: int|
        0 <= i1 <= i2 < grps.len() && 0 <= j1 < grps[i1].len() && 0 <= j2 < grps[i2].len() && (i1
            < i2 || j1 < j2) ==> #[trigger] grps[i1][j1] < #[trigger] grps[i2][j2]
}

} // verus!

verus! {

/// The character spans currently recorded on the groups of a graph.
pub open spec fn spans_of(g: MatchGraph) -> Seq<(usize, usize)> {
    g.groups@.map_values(|gr: Group| (gr.char_start, gr.char_end))
}

pub(crate) proof fn lemma_first_nonempty_hits(grps: Seq<Seq<usize>>, i: int, j: int)
    requires
        0 <= i <= j < grps.len(),
        grps[j].len() > 0,
    ensures
        i <= first_nonempty(grps, i) <= j,
        grps[first_nonempty(grps, i)].len() > 0,
    decreases j - i,
{
    if grps[i].len() == 0 {
        lemma_first_nonempty_hits(grps, i + 1, j);
    }
}

pub(crate) proof fn lemma_last_nonempty_hits(grps: Seq<Seq<usize>>, i: int, j: int)
    requires
        0 <= j <= i < grps.len(),
        grps[j].len() > 0,
    ensures
        j <= last_nonempty(grps, i) <= i,
        grps[last_nonempty(grps, i)].len() > 0,
    decreases i - j,
{
    if grps[i].len() == 0 {
        lemma_last_nonempty_hits(grps, i - 1, j);
    }
}

impl MatchGraph {
    /// One empty group per part; capture ids are handed out to the visible
    /// parts in left-to-right order starting at 0.
    pub(crate) fn empty_from_parts(parts: &[Part]) -> (r: MatchGraph)
        ensures
            r.groups@.len() == parts@.len(),
            r.groups_model() == empty_groups(parts@.len() as int),
            forall|k: int|
                0 <= k < r.groups@.len() ==> (#[trigger] r.groups@[k]).char_start == 0
                    && r.groups@[k].char_end == 0 && r.groups@[k].tokens@.len() == 0,
            r.id_to_idx@ == visible_indices(parts@),
            r.wf(),
    {
        let mut groups: Vec<Group> = Vec::new();
        let mut id_to_idx: Vec<usize> = Vec::new();
        let mut i: usize = 0;

        while i < parts.len()
            invariant
                i <= parts@.len(),
                groups@.len() == i as int,
                forall|k: int|
                    0 <= k < i ==> (#[trigger] groups@[k]).char_start == 0 && groups@[k].char_end
                        == 0 && groups@[k].tokens@.len() == 0,
                id_to_idx@ == visible_indices(parts@.take(i as int)),
                forall|k: int| 0 <= k < id_to_idx@.len() ==> (#[trigger] id_to_idx@[k]) < i,
            decreases parts@.len() - i,
        {
            if parts[i].visible {
                id_to_idx.push(i);
            }
            groups.push(Group::empty());
            proof {
                assert(parts@.take(i as int + 1).drop_last() =~= parts@.take(i as int));
                assert(parts@.take(i as int + 1).last() == parts@[i as int]);
            }
            i += 1;
        }
        proof {
            assert(parts@.take(parts@.len() as int) =~= parts@);
        }
        let r = MatchGraph { groups, id_to_idx };
        proof {
            assert(r.groups_model() =~~= empty_groups(parts@.len() as int));
        }
        r
    }
}

/// An ordered sequence of quantified parts: one compiled match pattern.
pub struct Composition {
    pub parts: Vec<Part>,
}

impl Composition {
    /// Some part must consume at least one token; a pattern able to match
    /// zero tokens is excluded by construction upstream, since its capture
    /// spans could not be reconciled.
    pub open spec fn has_required_part(&self) -> bool {
        exists|i: int|
            0 <= i < self.parts@.len() && (#[trigger] self.parts@[i]).quantifier.min > 0
    }

    /// Every quantifier keeps the invariant `Quantifier::new` establishes.
    pub open spec fn quantifiers_wf(&self) -> bool {
        forall|i: int|
            0 <= i < self.parts@.len() ==> (#[trigger] self.parts@[i]).quantifier.min
                <= self.parts@[i].quantifier.max
    }

    pub fn new(parts: Vec<Part>) -> (r: Composition)
        ensures
            r.parts == parts,
    {
        Composition { parts }
    }

    fn all_min_zero_from_idx(&self, idx: usize) -> (r: bool)
        requires
            idx <= self.parts@.len(),
        ensures
            r == all_min_zero_from(self.parts@, idx as int),
    {
        let mut j: usize = idx;
        while j < self.parts.len()
            invariant
                idx <= j <= self.parts@.len(),
                forall|k: int| idx <= k < j ==> (#[trigger] self.parts@[k]).quantifier.min == 0,
            decreases self.parts@.len() - j,
        {
            if self.parts[j].quantifier.min > 0 {
                return false;
            }
            j += 1;
        }
        true
    }

    fn next_can_match(&self, tokens: &[Token], graph: &MatchGraph, position: usize, index: usize)
        -> (r: bool)
        requires
            graph.wf(),
            graph.tokens_in_range(tokens@.len() as int),
            position < tokens@.len(),
            index < self.parts@.len(),
        ensures
            r == spec_next_can_match(
                self.parts@,
                tokens@,
                graph.groups_model(),
                graph.ids_model(),
                position as int,
                index as int,
            ),
    {
        if index == self.parts.len() - 1 {
            return false;
        }

        let mut j: usize = index + 1;
        while j < self.parts.len() && self.parts[j].quantifier.min == 0
            invariant
                index + 1 <= j <= self.parts@.len(),
                spec_next_required_pos(self.parts@, index as int + 1) == spec_next_required_pos(
                    self.parts@,
                    j as int,
                ),
                forall|k: int| index + 1 <= k < j ==> (#[trigger] self.parts@[k]).quantifier.min == 0,
            decreases self.parts@.len() - j,
        {
            j += 1;
        }
        let next_required_pos: usize = if j < self.parts.len() {
            j + 1
        } else {
            self.parts.len()
        };
        proof {
            assert(next_required_pos == spec_next_required_pos(self.parts@, index as int + 1));
        }

        let mut k: usize = index + 1;
        while k < next_required_pos
            invariant
                graph.wf(),
                graph.tokens_in_range(tokens@.len() as int),
                position < tokens@.len(),
                index + 1 <= k <= next_required_pos,
                next_required_pos <= self.parts@.len(),
                next_required_pos == spec_next_required_pos(self.parts@, index as int + 1),
                forall|m: int|
                    index + 1 <= m < k ==> !spec_atom_match(
                        (#[trigger] self.parts@[m]).atom,
                        tokens@,
                        graph.groups_model(),
                        graph.ids_model(),
                        position as int,
                    ),
            decreases next_required_pos - k,
        {
            if self.parts[k].atom.is_match(tokens, graph, position) {
                return true;
            }
            k += 1;
        }
        false
    }
}

} // verus!

verus! {

impl Composition {
    /// Attempts to match the whole part sequence beginning at token index
    /// `start`: a single greedy forward pass with the lookahead of
    /// `next_can_match`, softened by the rule that trailing fully-optional
    /// parts need not be visited, followed by span reconciliation of every
    /// group. Returns the capture graph on success, nothing on no-match.
    pub fn apply(&self, tokens: &[Token], start: usize) -> (r: Option<MatchGraph>)
        requires
            self.has_required_part(),
            self.quantifiers_wf(),
        ensures
            match r {
                Option::Some(g) => {
                    &&& spec_matches(self.parts@, tokens@, start as int)
                    &&& g.wf()
                    &&& g.ids_model() == visible_indices(self.parts@)
                    &&& g.groups@.len() == self.parts@.len()
                    &&& g.groups_model() == run_result(self.parts@, tokens@, start as int).2
                    &&& spans_of(g) == spec_final_spans(self.parts@, tokens@, start as int)
                    &&& g.tokens_in_range(tokens@.len() as int)
                    &&& groups_tokens_bounded(
                        g.groups_model(),
                        start as int,
                        tokens@.len() as int,
                    )
                    &&& groups_tokens_ordered(g.groups_model())
                    &&& exists|i: int|
                        0 <= i < g.groups_model().len() && (#[trigger] g.groups_model()[i]).len()
                            > 0
                },
                Option::None => !spec_matches(self.parts@, tokens@, start as int),
            },
    {
        let ghost parts_g = self.parts@;
        let ghost ids = visible_indices(self.parts@);
        let ghost g0 = empty_groups(self.parts@.len() as int);

        let mut position: usize = start;
        let mut cur_count: usize = 0;
        let mut cur_atom_idx: usize = 0;
        let mut graph = MatchGraph::empty_from_parts(self.parts.as_slice());
        let mut matched: bool = false;

        loop
            invariant_except_break
                spec_run(parts_g, tokens@, ids, g0, start as int, 0, 0) == spec_run(
                    parts_g,
                    tokens@,
                    ids,
                    graph.groups_model(),
                    position as int,
                    cur_atom_idx as int,
                    cur_count as int,
                ),
            invariant
                self.has_required_part(),
                self.quantifiers_wf(),
                graph.groups@.len() == parts_g.len(),
                graph.id_to_idx@ == ids,
                graph.wf(),
                graph.tokens_in_range(tokens@.len() as int),
                cur_atom_idx <= parts_g.len(),
                start <= position,
                position <= tokens@.len() || position == start,
                cur_atom_idx < parts_g.len() ==> graph.groups@[cur_atom_idx as int].tokens@.len()
                    == cur_count,
                forall|j: int|
                    0 <= j < cur_atom_idx ==> (#[trigger] graph.groups@[j]).tokens@.len()
                        >= parts_g[j].quantifier.min,
                forall|j: int|
                    cur_atom_idx < j < parts_g.len() ==> (
                    #[trigger] graph.groups@[j]).tokens@.len() == 0,
                forall|k: int|
                    0 <= k < graph.groups@.len() ==> (#[trigger] graph.groups@[k]).char_start == 0
                        && graph.groups@[k].char_end == 0,
                groups_tokens_bounded(graph.groups_model(), start as int, position as int),
                groups_tokens_ordered(graph.groups_model()),
                parts_g == self.parts@,
                ids == visible_indices(self.parts@),
                g0 == empty_groups(self.parts@.len() as int),
            ensures
                graph.groups@.len() == parts_g.len(),
                graph.id_to_idx@ == ids,
                graph.wf(),
                graph.tokens_in_range(tokens@.len() as int),
                cur_atom_idx <= parts_g.len(),
                start <= position,
                position <= tokens@.len() || position == start,
                matched ==> cur_atom_idx == parts_g.len(),
                forall|j: int|
                    0 <= j < cur_atom_idx ==> (#[trigger] graph.groups@[j]).tokens@.len()
                        >= parts_g[j].quantifier.min,
                forall|k: int|
                    0 <= k < graph.groups@.len() ==> (#[trigger] graph.groups@[k]).char_start == 0
                        && graph.groups@[k].char_end == 0,
                groups_tokens_bounded(graph.groups_model(), start as int, position as int),
                groups_tokens_ordered(graph.groups_model()),
                (matched, cur_atom_idx as int, graph.groups_model()) == spec_run(
                    parts_g,
                    tokens@,
                    ids,
                    g0,
                    start as int,
                    0,
                    0,
                ),
            decreases parts_g.len() - cur_atom_idx, tokens@.len() - position,
        {
            if cur_atom_idx >= self.parts.len() {
                matched = true;
                proof {
                    assert(spec_run(
                        parts_g,
                        tokens@,
                        ids,
                        graph.groups_model(),
                        position as int,
                        cur_atom_idx as int,
                        cur_count as int,
                    ) == (true, cur_atom_idx as int, graph.groups_model()));
                }
                break;
            }

            let ghost old_gm = graph.groups_model();
            let ghost old_pos = position as int;
            let ghost old_idx = cur_atom_idx as int;
            let ghost old_count = cur_count as int;

            if cur_count >= self.parts[cur_atom_idx].quantifier.max {
                cur_atom_idx += 1;
                cur_count = 0;
                if cur_atom_idx >= self.parts.len() {
                    matched = false;
                    proof {
                        assert(spec_run(parts_g, tokens@, ids, old_gm, old_pos, old_idx, old_count)
                            == (false, old_idx + 1, old_gm));
                    }
                    break;
                }
                proof {
                    assert(spec_run(parts_g, tokens@, ids, old_gm, old_pos, old_idx, old_count)
                        == spec_run(parts_g, tokens@, ids, old_gm, old_pos, old_idx + 1, 0));
                }
                continue;
            }

            if position >= tokens.len() {
                matched = false;
                proof {
                    assert(spec_run(parts_g, tokens@, ids, old_gm, old_pos, old_idx, old_count)
                        == (false, old_idx, old_gm));
                }
                break;
            }

            let can_advance: bool = if cur_count >= self.parts[cur_atom_idx].quantifier.min {
                self.next_can_match(tokens, &graph, position, cur_atom_idx)
            } else {
                false
            };

            if can_advance {
                cur_atom_idx += 1;
                cur_count = 0;
                proof {
                    assert(spec_run(parts_g, tokens@, ids, old_gm, old_pos, old_idx, old_count)
                        == spec_run(parts_g, tokens@, ids, old_gm, old_pos, old_idx + 1, 0));
                }
            } else if self.parts[cur_atom_idx].atom.is_match(tokens, &graph, position) {
                graph.groups[cur_atom_idx].tokens.push(position);
                proof {
                    let new_gm = graph.groups_model();
                    assert(new_gm =~~= old_gm.update(
                        old_idx,
                        old_gm[old_idx].push(position as usize),
                    ));
                    assert(groups_tokens_bounded(new_gm, start as int, old_pos + 1)) by {
                        assert forall|i: int, j: int|
                            0 <= i < new_gm.len() && 0 <= j < new_gm[i].len() implies start
                            <= #[trigger] new_gm[i][j] < old_pos + 1 by {
                            if i == old_idx && j == old_gm[old_idx].len() {
                            } else {
                                assert(new_gm[i][j] == old_gm[i][j]);
                            }
                        }
                    }
                    assert(groups_tokens_ordered(new_gm)) by {
                        assert forall|i1: int, j1: int, i2: int, j2: int|
                            0 <= i1 <= i2 < new_gm.len() && 0 <= j1 < new_gm[i1].len() && 0 <= j2
                                < new_gm[i2].len() && (i1 < i2 || j1 < j2) implies #[trigger] new_gm[i1][j1]
                            < #[trigger] new_gm[i2][j2] by {
                            if i2 == old_idx && j2 == old_gm[old_idx].len() {
                                assert(old_gm[i1][j1] < old_pos);
                            } else if i1 == old_idx && j1 == old_gm[old_idx].len() {
                                assert(i2 > old_idx ==> old_gm[i2].len() == 0);
                                assert(false);
                            } else {
                                assert(new_gm[i1][j1] == old_gm[i1][j1]);
                                assert(new_gm[i2][j2] == old_gm[i2][j2]);
                            }
                        }
                    }
                    assert(spec_run(parts_g, tokens@, ids, old_gm, old_pos, old_idx, old_count)
                        == spec_run(parts_g, tokens@, ids, new_gm, old_pos + 1, old_idx, old_count
                        + 1));
                }
                position += 1;
                cur_count += 1;
            } else {
                matched = false;
                proof {
                    assert(spec_run(parts_g, tokens@, ids, old_gm, old_pos, old_idx, old_count)
                        == (false, old_idx, old_gm));
                }
                break;
            }
        }

        let mut is_final: bool = matched;
        if !matched {
            is_final = self.all_min_zero_from_idx(cur_atom_idx);
        }
        proof {
            assert(is_final == spec_matches(parts_g, tokens@, start as int));
        }

        if !is_final {
            return Option::None;
        }

        proof {
            let i0 = choose|i: int|
                0 <= i < parts_g.len() && (#[trigger] parts_g[i]).quantifier.min > 0;
            if matched {
                assert(graph.groups@[i0].tokens@.len() >= parts_g[i0].quantifier.min);
            } else {
                assert(i0 < cur_atom_idx) by {
                    if i0 >= cur_atom_idx {
                        assert(parts_g[i0].quantifier.min == 0);
                    }
                }
            }
            assert(graph.groups_model()[i0] == graph.groups@[i0].tokens@);
            assert(graph.groups_model()[i0].len() > 0);
            assert(position <= tokens@.len()) by {
                if position > tokens@.len() {
                    assert(start <= graph.groups_model()[i0][0] < position);
                    assert(position == start);
                }
            }
        }

        let ghost gm = graph.groups_model();
        let glen: usize = graph.groups.len();

        // overall start: the first nonempty group's first token
        let mut fi: usize = 0;
        while fi < glen && graph.groups[fi].tokens.len() == 0
            invariant
                glen == graph.groups@.len(),
                fi <= glen,
                gm == graph.groups_model(),
                first_nonempty(gm, 0) == first_nonempty(gm, fi as int),
                exists|i: int| 0 <= i < gm.len() && (#[trigger] gm[i]).len() > 0,
            decreases glen - fi,
        {
            proof {
                assert(gm[fi as int] == graph.groups@[fi as int].tokens@);
            }
            fi += 1;
        }
        proof {
            let iw = choose|i: int| 0 <= i < gm.len() && (#[trigger] gm[i]).len() > 0;
            lemma_first_nonempty_hits(gm, 0, iw);
            assert(gm[fi as int] == graph.groups@[fi as int].tokens@);
            assert(fi < glen);
            assert(first_nonempty(gm, fi as int) == fi as int);
        }
        let t0: usize = graph.groups[fi].tokens[0];
        let mut start_run: usize = tokens[t0].char_span.0;

        let ghost spans_init = spans_of(graph);
        let ghost s0 = start_run;
        proof {
            assert(spans_init.len() == gm.len());
            assert(spans_init =~= Seq::new(gm.len(), |i: int| (0usize, 0usize)));
        }

        let mut gi: usize = 0;
        while gi < glen
            invariant
                glen == graph.groups@.len(),
                gi <= glen,
                gm == graph.groups_model(),
                graph.id_to_idx@ == ids,
                graph.wf(),
                graph.tokens_in_range(tokens@.len() as int),
                spans_of(graph).len() == gm.len(),
                fwd_pass(gm, tokens@, spans_init, 0, s0) == fwd_pass(
                    gm,
                    tokens@,
                    spans_of(graph),
                    gi as int,
                    start_run,
                ),
            decreases glen - gi,
        {
            let ghost old_spans = spans_of(graph);
            let ghost old_run = start_run;
            proof {
                assert(gm[gi as int] == graph.groups@[gi as int].tokens@);
            }
            if graph.groups[gi].tokens.len() > 0 {
                let tfirst: usize = graph.groups[gi].tokens[0];
                let tcount: usize = graph.groups[gi].tokens.len();
                let tlast: usize = graph.groups[gi].tokens[tcount - 1];
                let cs: usize = tokens[tfirst].char_span.0;
                let ce: usize = tokens[tlast].char_span.1;
                graph.groups[gi].char_start = cs;
                graph.groups[gi].char_end = ce;
                start_run = ce;
                proof {
                    assert(gm == graph.groups_model()) by {
                        assert(gm =~~= graph.groups_model());
                    }
                    assert(spans_of(graph) =~= old_spans.update(gi as int, (cs, ce)));
                    assert(fwd_pass(gm, tokens@, old_spans, gi as int, old_run) == fwd_pass(
                        gm,
                        tokens@,
                        spans_of(graph),
                        gi as int + 1,
                        ce,
                    ));
                }
            } else {
                graph.groups[gi].char_end = start_run;
                proof {
                    assert(gm == graph.groups_model()) by {
                        assert(gm =~~= graph.groups_model());
                    }
                    assert(spans_of(graph) =~= old_spans.update(
                        gi as int,
                        (old_spans[gi as int].0, old_run),
                    ));
                    assert(fwd_pass(gm, tokens@, old_spans, gi as int, old_run) == fwd_pass(
                        gm,
                        tokens@,
                        spans_of(graph),
                        gi as int + 1,
                        old_run,
                    ));
                }
            }
            gi += 1;
        }
        let ghost fwd_done = spans_of(graph);
        proof {
            assert(fwd_done == fwd_pass(gm, tokens@, spans_init, 0, s0));
        }

        // overall end: the last nonempty group's first token
        let mut lj: usize = glen;
        while lj > 0 && graph.groups[lj - 1].tokens.len() == 0
            invariant
                glen == graph.groups@.len(),
                lj <= glen,
                gm == graph.groups_model(),
                last_nonempty(gm, glen as int - 1) == last_nonempty(gm, lj as int - 1),
                exists|i: int| 0 <= i < gm.len() && (#[trigger] gm[i]).len() > 0,
            decreases lj,
        {
            proof {
                assert(gm[lj as int - 1] == graph.groups@[lj as int - 1].tokens@);
            }
            lj -= 1;
        }
        proof {
            let iw = choose|i: int| 0 <= i < gm.len() && (#[trigger] gm[i]).len() > 0;
            lemma_last_nonempty_hits(gm, glen as int - 1, iw);
            assert(lj > 0);
            assert(gm[lj as int - 1] == graph.groups@[lj as int - 1].tokens@);
            assert(last_nonempty(gm, lj as int - 1) == lj as int - 1);
        }
        let lt0: usize = graph.groups[lj - 1].tokens[0];
        let mut end_run: usize = tokens[lt0].char_span.1;
        let ghost e0 = end_run;

        let mut gj: usize = glen;
        while gj > 0
            invariant
                glen == graph.groups@.len(),
                gj <= glen,
                gm == graph.groups_model(),
                graph.id_to_idx@ == ids,
                graph.wf(),
                graph.tokens_in_range(tokens@.len() as int),
                spans_of(graph).len() == gm.len(),
                bwd_pass(gm, fwd_done, glen as int - 1, e0) == bwd_pass(
                    gm,
                    spans_of(graph),
                    gj as int - 1,
                    end_run,
                ),
            decreases gj,
        {
            let ghost old_spans = spans_of(graph);
            let ghost old_run = end_run;
            let g: usize = gj - 1;
            proof {
                assert(gm[g as int] == graph.groups@[g as int].tokens@);
            }
            if graph.groups[g].tokens.len() > 0 {
                end_run = graph.groups[g].char_start;
                proof {
                    assert(old_spans[g as int].0 == graph.groups@[g as int].char_start);
                    assert(bwd_pass(gm, old_spans, g as int, old_run) == bwd_pass(
                        gm,
                        spans_of(graph),
                        g as int - 1,
                        end_run,
                    ));
                }
            } else {
                graph.groups[g].char_start = end_run;
                proof {
                    assert(gm == graph.groups_model()) by {
                        assert(gm =~~= graph.groups_model());
                    }
                    assert(spans_of(graph) =~= old_spans.update(
                        g as int,
                        (old_run, old_spans[g as int].1),
                    ));
                    assert(bwd_pass(gm, old_spans, g as int, old_run) == bwd_pass(
                        gm,
                        spans_of(graph),
                        g as int - 1,
                        old_run,
                    ));
                }
            }
            gj -= 1;
        }

        proof {
            assert(bwd_pass(gm, spans_of(graph), -1, end_run) == spans_of(graph));
            let grps2 = run_result(parts_g, tokens@, start as int).2;
            assert(grps2 == gm);
            let fi_s = first_nonempty(gm, 0);
            let li_s = last_nonempty(gm, gm.len() as int - 1);
            assert(fi_s == fi as int);
            assert(li_s == lj as int - 1);
            assert(t0 == gm[fi_s][0]);
            assert(lt0 == gm[li_s][0]);
            assert(s0 == tokens@[gm[fi_s][0] as int].char_span.0);
            assert(e0 == tokens@[gm[li_s][0] as int].char_span.1);
            assert(spans_init == Seq::new(gm.len(), |i: int| (0usize, 0usize)));
            assert(spec_final_spans(parts_g, tokens@, start as int) == bwd_pass(
                gm,
                fwd_pass(gm, tokens@, spans_init, 0, s0),
                gm.len() as int - 1,
                e0,
            ));
            assert(spans_of(graph) == spec_final_spans(parts_g, tokens@, start as int));
            assert(groups_tokens_bounded(gm, start as int, tokens@.len() as int)) by {
                assert forall|i: int, j: int|
                    0 <= i < gm.len() && 0 <= j < gm[i].len() implies start <= #[trigger] gm[i][j]
                    < tokens@.len() by {
                    assert(gm[i][j] < position);
                }
            }
        }
        Option::Some(graph)
    }
}

} // verus!

verus! {

/// The empty-input policy of leaf matchers: with `empty_always_false` set, a
/// matcher never matches the empty input, regardless of `negate`; without it,
/// matching the empty input returns exactly the value of `negate`.
pub proof fn lemma_empty_input_policy(
    m: Matcher,
    tokens: Seq<Token>,
    grps: Seq<Seq<usize>>,
    ids: Seq<usize>,
)
    ensures
        m.empty_always_false ==> !m.spec_is_match(Seq::empty(), tokens, grps, ids),
        !m.empty_always_false ==> m.spec_is_match(Seq::empty(), tokens, grps, ids) == m.negate,
{
}

/// Capture ids are assigned only to visible parts, in left-to-right order
/// starting at 0: the id map lists exactly the visible part indices in
/// ascending order, so no id ever reaches an invisible part, and every
/// visible part gets an id.
pub proof fn lemma_capture_ids(parts: Seq<Part>)
    requires
        parts.len() <= usize::MAX,
    ensures
        forall|id: int|
            0 <= id < visible_indices(parts).len() ==> (#[trigger] visible_indices(parts)[id])
                < parts.len() && parts[visible_indices(parts)[id] as int].visible,
        forall|a: int, b: int|
            0 <= a < b < visible_indices(parts).len() ==> visible_indices(parts)[a]
                < visible_indices(parts)[b],
        forall|i: int|
            0 <= i < parts.len() && (#[trigger] parts[i]).visible ==> exists|id: int|
                0 <= id < visible_indices(parts).len() && visible_indices(parts)[id] == i,
    decreases parts.len(),
{
    if parts.len() > 0 {
        let pre = parts.drop_last();
        lemma_capture_ids(pre);
        let vi = visible_indices(parts);
        let vip = visible_indices(pre);
        assert(forall|j: int| 0 <= j < pre.len() ==> #[trigger] pre[j] == parts[j]);
        assert forall|i: int|
            0 <= i < parts.len() && (#[trigger] parts[i]).visible implies exists|id: int|
            0 <= id < vi.len() && vi[id] == i by {
            if i < parts.len() - 1 {
                assert(pre[i].visible);
                let id0 = choose|id: int| 0 <= id < vip.len() && vip[id] == i;
                assert(vi[id0] == i);
            } else {
                assert(parts.last() == parts[parts.len() - 1]);
                assert(vi == vip.push((parts.len() - 1) as usize));
                assert(vi[vip.len() as int] == i);
            }
        }
    }
}

/// The greedy quantifier on a single always-true part: applied at position 0
/// to `n` tokens with `n >= min`, and either `min == 0` or `n >= max`, the
/// match succeeds and its one group captures exactly the smaller of `max` and
/// `n` tokens.
pub proof fn lemma_quantifier_greedy(part: Part, tokens: Seq<Token>)
    requires
        part.atom is True,
        part.quantifier.min <= part.quantifier.max,
        tokens.len() >= part.quantifier.min,
        part.quantifier.min == 0 || tokens.len() >= part.quantifier.max,
    ensures
        spec_matches(seq![part], tokens, 0),
        run_result(seq![part], tokens, 0).2.len() == 1,
        run_result(seq![part], tokens, 0).2[0].len() == if part.quantifier.max as int
            <= tokens.len() {
            part.quantifier.max as int
        } else {
            tokens.len() as int
        },
{
    let parts = seq![part];
    let ids = visible_indices(parts);
    let grps0 = empty_groups(1);
    assert(grps0[0] =~= Seq::<usize>::empty());
    lemma_run_true_single(part, tokens, ids, grps0, 0);
    let r = spec_run(parts, tokens, ids, grps0, 0, 0, 0);
    if part.quantifier.max as int <= tokens.len() {
        assert(r.1 == 1);
        assert(all_min_zero_from(parts, 1));
    } else {
        assert(r.1 == 0);
        assert(part.quantifier.min == 0);
        assert(all_min_zero_from(parts, 0));
    }
}

proof fn lemma_run_true_single(
    part: Part,
    tokens: Seq<Token>,
    ids: Seq<usize>,
    grps: Seq<Seq<usize>>,
    k: int,
)
    requires
        part.atom is True,
        part.quantifier.min <= part.quantifier.max,
        0 <= k <= tokens.len(),
        k <= part.quantifier.max,
        grps.len() == 1,
        grps[0].len() == k,
    ensures
        ({
            let r = spec_run(seq![part], tokens, ids, grps, k, 0, k);
            &&& !r.0
            &&& r.2.len() == 1
            &&& if part.quantifier.max as int <= tokens.len() {
                r.1 == 1 && r.2[0].len() == part.quantifier.max as int
            } else {
                r.1 == 0 && r.2[0].len() == tokens.len()
            }
        }),
    decreases part.quantifier.max - k,
{
    let parts = seq![part];
    if k >= part.quantifier.max {
        assert(spec_run(parts, tokens, ids, grps, k, 0, k) == (false, 1int, grps));
    } else if k >= tokens.len() {
        assert(spec_run(parts, tokens, ids, grps, k, 0, k) == (false, 0int, grps));
    } else {
        assert(!spec_next_can_match(parts, tokens, grps, ids, k, 0));
        assert(spec_atom_match(parts[0].atom, tokens, grps, ids, k));
        let grps2 = grps.update(0, grps[0].push(k as usize));
        assert(grps2.len() == 1);
        assert(grps2[0].len() == k + 1);
        lemma_run_true_single(part, tokens, ids, grps2, k + 1);
        assert(spec_run(parts, tokens, ids, grps, k, 0, k) == spec_run(
            parts,
            tokens,
            ids,
            grps2,
            k + 1,
            0,
            k + 1,
        ));
    }
}

} // verus!
