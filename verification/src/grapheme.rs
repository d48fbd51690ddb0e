//! The quantified-literal interval model: a run of identical literal text
//! repeated between `min` and `max` times, optionally composite over
//! sub-runs, together with escaping, rendering and the overlap/split
//! algorithm used to merge literal branches.

use vstd::prelude::*;
use vstd::seq_lib::*;
use crate::color::{
    append_colorized_char, append_colorized_decimal, append_colorized_str, append_group_close,
    append_group_open, colorized, group_open_chars, ColorStyle,
};
use crate::config::RegExpConfig;
use crate::unicode::{
    append_unicode_escape, dec_rep, escaped_char, escaped_fragment,
    escaped_non_ascii_char, escaped_seq, fully_escaped_fragment, is_metachar_exec,
    non_ascii_escaped_seq, push_char, surrogate_escape, unicode_escape,
};

verus! {

/// The side a split piece of two overlapping occurrence ranges belongs to:
/// the first operand (`Left`), the second (`Right`), or their intersection
/// (`Overlap`).
#[derive(PartialEq, Eq, Debug, Clone, Copy, Structural)]
pub enum GraphemeOverlapState {
    Left,
    Right,
    Overlap,
}

impl GraphemeOverlapState {
    /// The tag with `Left` and `Right` exchanged and `Overlap` kept.
    pub open spec fn spec_flip(self) -> Self {
        match self {
            Self::Left => Self::Right,
            Self::Right => Self::Left,
            Self::Overlap => Self::Overlap,
        }
    }

    /// Exchanges `Left` and `Right`, keeping `Overlap`.
    pub fn flip(&self) -> (flipped: Self)
        ensures
            flipped == self.spec_flip(),
    {
        match self {
            Self::Left => Self::Right,
            Self::Right => Self::Left,
            Self::Overlap => Self::Overlap,
        }
    }
}

/// The mathematical value of a [`Grapheme`]: its text fragments as
/// character sequences, the models of its sub-runs, its inclusive
/// occurrence range and its render configuration.
#[verifier::ext_equal]
pub struct GraphemeModel {
    pub frags: Seq<Seq<char>>,
    pub reps: Seq<GraphemeModel>,
    pub min: int,
    pub max: int,
    pub config: RegExpConfig,
}

/// One run of identical, possibly multi-character, text repeated between
/// `min` and `max` times (both inclusive).
///
/// The text of one repetition is the concatenation of `chars`; the
/// fragments are kept separate so that escaping can transform each one
/// independently.  When `repetitions` is non-empty the grapheme is a
/// composite: its rendered value is the concatenation of the sub-runs'
/// renderings instead of its own `chars`.
#[derive(Debug, Hash, Ord, PartialOrd, Eq, PartialEq)]
pub struct Grapheme {
    pub chars: Vec<String>,
    pub repetitions: Vec<Grapheme>,
    pub min: u32,
    pub max: u32,
    pub config: RegExpConfig,
}

impl Grapheme {
    /// The mathematical value of this grapheme.
    pub open spec fn model(self) -> GraphemeModel
        decreases self,
        via Self::model_decreases
    {
        GraphemeModel {
            frags: self.chars.deep_view(),
            reps: Self::models_of(self.repetitions@),
            min: self.min as int,
            max: self.max as int,
            config: self.config,
        }
    }

    /// The models of a sequence of graphemes, in order.
    pub open spec fn models_of(gs: Seq<Grapheme>) -> Seq<GraphemeModel>
        decreases gs,
    {
        if gs.len() == 0 {
            Seq::empty()
        } else {
            seq![gs[0].model()] + Self::models_of(gs.drop_first())
        }
    }

    #[via_fn]
    proof fn model_decreases(self) {
        assert(decreases_to!(self => self.repetitions));
        assert(decreases_to!(self.repetitions => self.repetitions@));
    }
}

impl View for Grapheme {
    type V = GraphemeModel;

    open spec fn view(&self) -> GraphemeModel {
        self.model()
    }
}

/// `models_of` maps each grapheme of the sequence to its model.
pub proof fn lemma_models_of(gs: Seq<Grapheme>)
    ensures
        Grapheme::models_of(gs).len() == gs.len(),
        forall|i: int|
            0 <= i < gs.len() ==> Grapheme::models_of(gs)[i] == gs[i].model(),
    decreases gs.len(),
{
    if gs.len() > 0 {
        lemma_models_of(gs.drop_first());
        assert forall|i: int| 0 <= i < gs.len() implies Grapheme::models_of(gs)[i]
            == gs[i].model() by {
            if i > 0 {
                assert(Grapheme::models_of(gs)[i] == Grapheme::models_of(gs.drop_first())[i - 1]);
                assert(gs.drop_first()[i - 1] == gs[i]);
            }
        }
    }
}

impl Grapheme {
    /// A plain grapheme holding one fragment occurring exactly once.
    pub fn from(s: &str, config: &RegExpConfig) -> (grapheme: Self)
        ensures
            grapheme@.frags =~= seq![s@],
            grapheme@.reps =~= Seq::<GraphemeModel>::empty(),
            grapheme@.min == 1,
            grapheme@.max == 1,
            grapheme@.config == *config,
    {
        let grapheme = Self {
            chars: vec![s.to_owned()],
            repetitions: vec![],
            min: 1,
            max: 1,
            config: *config,
        };
        proof {
            assert(grapheme.chars.deep_view() =~= seq![s@]);
        }
        grapheme
    }

    /// A grapheme over the given fragments and inclusive occurrence range.
    pub fn new(chars: Vec<String>, min: u32, max: u32, config: &RegExpConfig) -> (grapheme: Self)
        ensures
            grapheme@.frags == chars.deep_view(),
            grapheme@.reps =~= Seq::<GraphemeModel>::empty(),
            grapheme@.min == min,
            grapheme@.max == max,
            grapheme@.config == *config,
    {
        Self { chars, repetitions: vec![], min, max, config: *config }
    }

    /// The literal text of one repetition: the concatenation of the
    /// fragments.
    pub fn value(&self) -> (text: String)
        ensures
            text@ == self@.frags.flatten(),
    {
        let mut text = String::new();
        let mut i: usize = 0;
        while i < self.chars.len()
            invariant
                i <= self.chars.len(),
                text@ == self@.frags.take(i as int).flatten(),
            decreases self.chars.len() - i,
        {
            proof {
                assert(self@.frags[i as int] == self.chars@[i as int]@);
                self@.frags.take(i as int).lemma_flatten_push(self@.frags[i as int]);
                assert(self@.frags.take(i + 1) =~= self@.frags.take(i as int).push(
                    self@.frags[i as int],
                ));
            }
            let frag: &String = &self.chars[i];
            text.append(frag.as_str());
            i = i + 1;
        }
        proof {
            assert(self@.frags.take(self.chars@.len() as int) =~= self@.frags);
        }
        text
    }

    /// The fragments of one repetition.
    pub fn chars(&self) -> (frags: &Vec<String>)
        ensures
            frags == &self.chars,
    {
        &self.chars
    }

    /// Mutable access to the fragments of one repetition.
    pub fn chars_mut(&mut self) -> (frags: &mut Vec<String>)
        ensures
            *frags == old(self).chars,
            final(self).chars == *final(frags),
            final(self).repetitions == old(self).repetitions,
            final(self).min == old(self).min,
            final(self).max == old(self).max,
            final(self).config == old(self).config,
    {
        &mut self.chars
    }

    /// Whether this grapheme is a composite over sub-runs.
    pub fn has_repetitions(&self) -> (composite: bool)
        ensures
            composite == (self@.reps.len() != 0),
    {
        proof {
            lemma_models_of(self.repetitions@);
        }
        !self.repetitions.is_empty()
    }

    /// Mutable access to the sub-runs of a composite grapheme.
    pub fn repetitions_mut(&mut self) -> (reps: &mut Vec<Grapheme>)
        ensures
            *reps == old(self).repetitions,
            final(self).repetitions == *final(reps),
            final(self).chars == old(self).chars,
            final(self).min == old(self).min,
            final(self).max == old(self).max,
            final(self).config == old(self).config,
    {
        &mut self.repetitions
    }

    /// The inclusive lower bound of the occurrence range.
    pub fn minimum(&self) -> (bound: u32)
        ensures
            bound == self@.min,
    {
        self.min
    }

    /// The inclusive upper bound of the occurrence range.
    pub fn maximum(&self) -> (bound: u32)
        ensures
            bound == self@.max,
    {
        self.max
    }
}

/// The total number of characters of the fragments of `m`, counted after
/// non-ASCII escaping (without surrogate pairs) when `is_non_ascii_char_escaped`
/// is set, raw otherwise.
pub open spec fn char_count_spec(m: GraphemeModel, is_non_ascii_char_escaped: bool) -> int {
    if is_non_ascii_char_escaped {
        m.frags.flat_map(|f: Seq<char>| non_ascii_escaped_seq(f, false)).len() as int
    } else {
        m.frags.flatten().len() as int
    }
}

/// Escapes one fragment character by character per the literal-context
/// rules, turning a fragment that is exactly one backslash into the
/// two-character escape.
fn escape_fragment_meta(frag: &str) -> (escaped: String)
    ensures
        escaped@ == escaped_fragment(frag@),
{
    let count = frag.unicode_len();
    let mut escaped = String::new();
    let mut i: usize = 0;
    while i < count
        invariant
            i <= count,
            count == frag@.len(),
            escaped@ == frag@.take(i as int).flat_map(|c: char| escaped_char(c)),
        decreases count - i,
    {
        let c = frag.get_char(i);
        proof {
            frag@.lemma_flat_map_take_append(|c: char| escaped_char(c), i as int);
        }
        if is_metachar_exec(c) {
            push_char(&mut escaped, '\\');
            push_char(&mut escaped, c);
        } else if c == '\n' {
            push_char(&mut escaped, '\\');
            push_char(&mut escaped, 'n');
        } else if c == '\r' {
            push_char(&mut escaped, '\\');
            push_char(&mut escaped, 'r');
        } else if c == '\t' {
            push_char(&mut escaped, '\\');
            push_char(&mut escaped, 't');
        } else {
            push_char(&mut escaped, c);
        }
        proof {
            assert(escaped@ =~= frag@.take(i + 1).flat_map(|c: char| escaped_char(c)));
        }
        i = i + 1;
    }
    proof {
        assert(frag@.take(count as int) =~= frag@);
    }
    if escaped.as_str().unicode_len() == 1 && escaped.as_str().get_char(0) == '\\' {
        proof {
            assert(escaped@ =~= seq!['\\']);
        }
        push_char(&mut escaped, '\\');
        proof {
            assert(escaped@ =~= seq!['\\', '\\']);
        }
    }
    escaped
}

impl Grapheme {
    /// The non-ASCII escape of one character: ASCII passes through, an
    /// astral character becomes its surrogate-pair escape when requested,
    /// any other non-ASCII character a single `\u{..}` escape.
    pub fn escape(&self, c: char, use_surrogate_pairs: bool) -> (escaped: String)
        ensures
            escaped@ == escaped_non_ascii_char(c, use_surrogate_pairs),
    {
        let n = c as u32;
        let mut escaped = String::new();
        if n <= 0x7F {
            push_char(&mut escaped, c);
            proof {
                assert(escaped@ =~= seq![c]);
            }
        } else if use_surrogate_pairs && n >= 0x10000 {
            return self.convert_to_surrogate_pair(c);
        } else {
            append_unicode_escape(&mut escaped, n);
        }
        escaped
    }

    /// The `\u{..}` escapes of the UTF-16 code units of `c`: two escapes
    /// for an astral-plane character, one for a character of the basic
    /// plane.
    pub fn convert_to_surrogate_pair(&self, c: char) -> (escaped: String)
        ensures
            escaped@ == surrogate_escape(c),
    {
        let n = c as u32;
        let mut escaped = String::new();
        if n >= 0x10000 {
            let offset = n - 0x10000;
            append_unicode_escape(&mut escaped, 0xD800 + offset / 0x400);
            append_unicode_escape(&mut escaped, 0xDC00 + offset % 0x400);
        } else {
            append_unicode_escape(&mut escaped, n);
        }
        escaped
    }

    /// Applies the non-ASCII escape to every character of every fragment.
    fn non_ascii_escape_fragment(&self, frag: &str, use_surrogate_pairs: bool) -> (escaped: String)
        ensures
            escaped@ == non_ascii_escaped_seq(frag@, use_surrogate_pairs),
    {
        let count = frag.unicode_len();
        let mut escaped = String::new();
        let mut i: usize = 0;
        while i < count
            invariant
                i <= count,
                count == frag@.len(),
                escaped@ == frag@.take(i as int).flat_map(
                    |c: char| escaped_non_ascii_char(c, use_surrogate_pairs),
                ),
            decreases count - i,
        {
            let c = frag.get_char(i);
            proof {
                frag@.lemma_flat_map_take_append(
                    |c: char| escaped_non_ascii_char(c, use_surrogate_pairs),
                    i as int,
                );
            }
            let piece = self.escape(c, use_surrogate_pairs);
            escaped.append(piece.as_str());
            i = i + 1;
        }
        proof {
            assert(frag@.take(count as int) =~= frag@);
        }
        escaped
    }

    /// Expands every non-ASCII character of every fragment to its escape
    /// sequence, leaving the occurrence range, the sub-runs and the
    /// configuration untouched.
    pub fn escape_non_ascii_chars(&mut self, use_surrogate_pairs: bool)
        ensures
            final(self)@.frags =~= old(self)@.frags.map_values(
                |f: Seq<char>| non_ascii_escaped_seq(f, use_surrogate_pairs),
            ),
            final(self).repetitions == old(self).repetitions,
            final(self).min == old(self).min,
            final(self).max == old(self).max,
            final(self).config == old(self).config,
    {
        let mut escaped_frags: Vec<String> = Vec::new();
        let mut i: usize = 0;
        while i < self.chars.len()
            invariant
                i <= self.chars.len(),
                *self == *old(self),
                escaped_frags@.len() == i,
                forall|j: int|
                    0 <= j < i ==> (#[trigger] escaped_frags@[j])@ == non_ascii_escaped_seq(
                        old(self)@.frags[j],
                        use_surrogate_pairs,
                    ),
            decreases self.chars.len() - i,
        {
            proof {
                assert(self@.frags[i as int] == self.chars@[i as int]@);
            }
            let piece = self.non_ascii_escape_fragment(self.chars[i].as_str(), use_surrogate_pairs);
            escaped_frags.push(piece);
            i = i + 1;
        }
        self.chars = escaped_frags;
        proof {
            let target = old(self)@.frags.map_values(
                |f: Seq<char>| non_ascii_escaped_seq(f, use_surrogate_pairs),
            );
            assert forall|j: int| 0 <= j < target.len() implies self@.frags[j] == target[j] by {
                assert(self@.frags[j] == self.chars@[j]@);
            }
            assert(self@.frags =~= target);
        }
    }

    /// Applies the full literal-context escaping pipeline to every
    /// fragment: metacharacter escaping with the lone-backslash special
    /// case, then, when requested, non-ASCII escaping of the result.
    pub fn escape_regexp_symbols(
        &mut self,
        is_non_ascii_char_escaped: bool,
        is_astral_code_point_converted_to_surrogate: bool,
    )
        ensures
            final(self)@.frags =~= old(self)@.frags.map_values(
                (|f: Seq<char>| fully_escaped_fragment(
                    f,
                    is_non_ascii_char_escaped,
                    is_astral_code_point_converted_to_surrogate,
                )),
            ),
            final(self).repetitions == old(self).repetitions,
            final(self).min == old(self).min,
            final(self).max == old(self).max,
            final(self).config == old(self).config,
    {
        let mut escaped_frags: Vec<String> = Vec::new();
        let mut i: usize = 0;
        while i < self.chars.len()
            invariant
                i <= self.chars.len(),
                *self == *old(self),
                escaped_frags@.len() == i,
                forall|j: int|
                    0 <= j < i ==> (#[trigger] escaped_frags@[j])@ == escaped_fragment(
                        old(self)@.frags[j],
                    ),
            decreases self.chars.len() - i,
        {
            proof {
                assert(self@.frags[i as int] == self.chars@[i as int]@);
            }
            let piece = escape_fragment_meta(self.chars[i].as_str());
            escaped_frags.push(piece);
            i = i + 1;
        }
        self.chars = escaped_frags;
        proof {
            let target = old(self)@.frags.map_values(|f: Seq<char>| escaped_fragment(f));
            assert forall|j: int| 0 <= j < target.len() implies self@.frags[j] == target[j] by {
                assert(self@.frags[j] == self.chars@[j]@);
            }
            assert(self@.frags =~= target);
        }
        if is_non_ascii_char_escaped {
            self.escape_non_ascii_chars(is_astral_code_point_converted_to_surrogate);
        }
        proof {
            assert(self@.frags =~= old(self)@.frags.map_values(
                (|f: Seq<char>| fully_escaped_fragment(
                    f,
                    is_non_ascii_char_escaped,
                    is_astral_code_point_converted_to_surrogate,
                )),
            ));
        }
    }

    /// The number of characters of the literal text, counted after
    /// non-ASCII escaping when `is_non_ascii_char_escaped` is set.
    pub fn char_count(&self, is_non_ascii_char_escaped: bool) -> (count: usize)
        ensures
            count as int == char_count_spec(self@, is_non_ascii_char_escaped),
    {
        if is_non_ascii_char_escaped {
            let mut joined = String::new();
            let mut i: usize = 0;
            while i < self.chars.len()
                invariant
                    i <= self.chars.len(),
                    joined@ == self@.frags.take(i as int).flat_map(
                        |f: Seq<char>| non_ascii_escaped_seq(f, false),
                    ),
                decreases self.chars.len() - i,
            {
                proof {
                    assert(self@.frags[i as int] == self.chars@[i as int]@);
                    self@.frags.lemma_flat_map_take_append(
                        |f: Seq<char>| non_ascii_escaped_seq(f, false),
                        i as int,
                    );
                }
                let piece = self.non_ascii_escape_fragment(self.chars[i].as_str(), false);
                joined.append(piece.as_str());
                i = i + 1;
            }
            proof {
                assert(self@.frags.take(self.chars@.len() as int) =~= self@.frags);
            }
            joined.as_str().unicode_len()
        } else {
            let joined = self.value();
            joined.as_str().unicode_len()
        }
    }
}

/// The number of occurrences of `c` in `s`.
pub open spec fn count_char(s: Seq<char>, c: char) -> int
    decreases s.len(),
{
    if s.len() == 0 {
        0
    } else {
        (if s[0] == c {
            1int
        } else {
            0int
        }) + count_char(s.drop_first(), c)
    }
}

/// Counting one more character extends the count by whether it matches.
proof fn lemma_count_char_take(s: Seq<char>, c: char, i: int)
    requires
        0 <= i < s.len(),
    ensures
        count_char(s.take(i + 1), c) == count_char(s.take(i), c) + (if s[i] == c {
            1int
        } else {
            0int
        }),
        count_char(s.take(i), c) >= 0,
    decreases i,
{
    if i == 0 {
        assert(s.take(1) =~= seq![s[0]]);
        assert(s.take(1).drop_first() =~= Seq::<char>::empty());
        assert(s.take(0) =~= Seq::<char>::empty());
    } else {
        lemma_count_char_take(s.drop_first(), c, i - 1);
        assert(s.take(i + 1).drop_first() =~= s.drop_first().take(i));
        assert(s.take(i).drop_first() =~= s.drop_first().take(i - 1));
        assert(s.take(i + 1)[0] == s[0]);
        assert(s.take(i)[0] == s[0]);
        assert(s.drop_first()[i - 1] == s[i]);
    }
}

/// The number of occurrences of `c` in `s`.
pub fn count_char_occurrences(s: &str, c: char) -> (count: usize)
    ensures
        count as int == count_char(s@, c),
{
    let length = s.unicode_len();
    let mut count: usize = 0;
    let mut i: usize = 0;
    while i < length
        invariant
            i <= length,
            length == s@.len(),
            count <= i,
            count as int == count_char(s@.take(i as int), c),
        decreases length - i,
    {
        proof {
            lemma_count_char_take(s@, c, i as int);
        }
        if s.get_char(i) == c {
            count = count + 1;
        }
        i = i + 1;
    }
    proof {
        assert(s@.take(length as int) =~= s@);
    }
    count
}

/// Whether the rendered value needs no grouping before a quantifier: it is
/// one character in all, or one fragment holding exactly one
/// backslash-escape pair.
pub open spec fn is_single_char_spec(m: GraphemeModel) -> bool {
    ||| char_count_spec(m, false) == 1
    ||| (m.frags.len() == 1 && count_char(m.frags[0], '\\') == 1)
}

/// The value a grapheme renders: the concatenation of its fragments, or,
/// for a composite, of its sub-runs' full renderings.
pub open spec fn rendered_value(m: GraphemeModel) -> Seq<char>
    decreases m, 0int,
{
    if m.reps.len() == 0 {
        m.frags.flatten()
    } else {
        rendered_reps(m.reps)
    }
}

/// The concatenation of the full renderings of a sequence of grapheme
/// models.
pub open spec fn rendered_reps(reps: Seq<GraphemeModel>) -> Seq<char>
    decreases reps, 1int,
{
    if reps.len() == 0 {
        Seq::empty()
    } else {
        rendered_grapheme(reps[0]) + rendered_reps(reps.drop_first())
    }
}

/// The full rendering of one grapheme: its value followed by the
/// quantifier the occurrence range calls for, the value parenthesized when
/// it is not a single character, every token wrapped in its ANSI style when
/// colorized output is on.
///
/// A fixed count of one renders the bare value; a fixed count above one
/// renders `value{min}`; a real range renders `value{min,max}`.
pub open spec fn rendered_grapheme(m: GraphemeModel) -> Seq<char>
    decreases m, 1int,
{
    let colorize = m.config.is_output_colorized;
    let value = colorized(rendered_value(m), ColorStyle::Yellow, colorize);
    let open_group = colorized(
        group_open_chars(m.config.is_capturing_group_enabled),
        ColorStyle::Green,
        colorize,
    );
    let close_group = colorized(seq![')'], ColorStyle::Green, colorize);
    let open_brace = colorized(seq!['{'], ColorStyle::Magenta, colorize);
    let close_brace = colorized(seq!['}'], ColorStyle::Magenta, colorize);
    let comma = colorized(seq![','], ColorStyle::Magenta, colorize);
    let low = colorized(dec_rep(m.min), ColorStyle::Cyan, colorize);
    let high = colorized(dec_rep(m.max), ColorStyle::Cyan, colorize);
    let is_range = m.min < m.max;
    let is_repetition = m.min > 1;
    let is_single_char = is_single_char_spec(m);
    if !is_range && is_repetition && is_single_char {
        value + open_brace + low + close_brace
    } else if !is_range && is_repetition && !is_single_char {
        open_group + value + close_group + open_brace + low + close_brace
    } else if is_range && is_single_char {
        value + open_brace + low + comma + high + close_brace
    } else if is_range && !is_single_char {
        open_group + value + close_group + open_brace + low + comma + high + close_brace
    } else {
        value
    }
}

/// Rendering one more sub-run extends the concatenation by its rendering.
proof fn lemma_rendered_reps_take(reps: Seq<GraphemeModel>, i: int)
    requires
        0 <= i < reps.len(),
    ensures
        rendered_reps(reps.take(i + 1)) == rendered_reps(reps.take(i)) + rendered_grapheme(
            reps[i],
        ),
    decreases i,
{
    if i == 0 {
        assert(reps.take(1) =~= seq![reps[0]]);
        assert(reps.take(1).drop_first() =~= Seq::<GraphemeModel>::empty());
        assert(reps.take(0) =~= Seq::<GraphemeModel>::empty());
        assert(rendered_reps(reps.take(1)) =~= rendered_reps(reps.take(0)) + rendered_grapheme(
            reps[0],
        ));
    } else {
        lemma_rendered_reps_take(reps.drop_first(), i - 1);
        assert(reps.take(i + 1).drop_first() =~= reps.drop_first().take(i));
        assert(reps.take(i).drop_first() =~= reps.drop_first().take(i - 1));
        assert(reps.take(i + 1)[0] == reps[0]);
        assert(reps.take(i)[0] == reps[0]);
        assert(reps.drop_first()[i - 1] == reps[i]);
        assert(rendered_reps(reps.take(i + 1)) =~= rendered_reps(reps.take(i)) + rendered_grapheme(
            reps[i],
        ));
    }
}

impl Grapheme {
    /// Serializes this grapheme into its regular-expression form, following
    /// its own configuration for grouping and coloring.
    pub fn to_regexp_string(&self) -> (rendered: String)
        ensures
            rendered@ == rendered_grapheme(self@),
        decreases *self,
    {
        proof {
            lemma_models_of(self.repetitions@);
        }
        let value: String = if self.repetitions.len() == 0 {
            self.value()
        } else {
            let ghost reps = self@.reps;
            let mut acc = String::new();
            let mut j: usize = 0;
            while j < self.repetitions.len()
                invariant
                    j <= self.repetitions.len(),
                    reps == self@.reps,
                    reps.len() == self.repetitions@.len(),
                    forall|k: int|
                        0 <= k < reps.len() ==> reps[k] == (#[trigger] self.repetitions@[k]).model(),
                    acc@ == rendered_reps(reps.take(j as int)),
                decreases self.repetitions@.len() - j,
            {
                proof {
                    lemma_rendered_reps_take(reps, j as int);
                    assert(decreases_to!(*self => self.repetitions));
                    assert(decreases_to!(self.repetitions => self.repetitions@));
                    assert(decreases_to!(self.repetitions@ => self.repetitions@[j as int]));
                }
                let piece = self.repetitions[j].to_regexp_string();
                acc.append(piece.as_str());
                j = j + 1;
            }
            proof {
                assert(reps.take(reps.len() as int) =~= reps);
            }
            acc
        };
        proof {
            assert(value@ == rendered_value(self@));
        }
        let colorize = self.config.is_output_colorized;
        let is_range = self.min < self.max;
        let is_repetition = self.min > 1;
        let is_single_char = self.char_count(false) == 1 || (self.chars.len() == 1
            && count_char_occurrences(self.chars[0].as_str(), '\\') == 1);
        proof {
            assert(self@.frags.len() == self.chars@.len());
            if self.chars@.len() == 1 {
                assert(self@.frags[0] == self.chars@[0]@);
            }
            assert(is_single_char == is_single_char_spec(self@));
        }
        let mut out = String::new();
        if !is_range && is_repetition && is_single_char {
            append_colorized_str(&mut out, value.as_str(), ColorStyle::Yellow, colorize);
            append_colorized_char(&mut out, '{', ColorStyle::Magenta, colorize);
            append_colorized_decimal(&mut out, self.min, ColorStyle::Cyan, colorize);
            append_colorized_char(&mut out, '}', ColorStyle::Magenta, colorize);
        } else if !is_range && is_repetition {
            append_group_open(&mut out, self.config.is_capturing_group_enabled, colorize);
            append_colorized_str(&mut out, value.as_str(), ColorStyle::Yellow, colorize);
            append_group_close(&mut out, colorize);
            append_colorized_char(&mut out, '{', ColorStyle::Magenta, colorize);
            append_colorized_decimal(&mut out, self.min, ColorStyle::Cyan, colorize);
            append_colorized_char(&mut out, '}', ColorStyle::Magenta, colorize);
        } else if is_range && is_single_char {
            append_colorized_str(&mut out, value.as_str(), ColorStyle::Yellow, colorize);
            append_colorized_char(&mut out, '{', ColorStyle::Magenta, colorize);
            append_colorized_decimal(&mut out, self.min, ColorStyle::Cyan, colorize);
            append_colorized_char(&mut out, ',', ColorStyle::Magenta, colorize);
            append_colorized_decimal(&mut out, self.max, ColorStyle::Cyan, colorize);
            append_colorized_char(&mut out, '}', ColorStyle::Magenta, colorize);
        } else if is_range {
            append_group_open(&mut out, self.config.is_capturing_group_enabled, colorize);
            append_colorized_str(&mut out, value.as_str(), ColorStyle::Yellow, colorize);
            append_group_close(&mut out, colorize);
            append_colorized_char(&mut out, '{', ColorStyle::Magenta, colorize);
            append_colorized_decimal(&mut out, self.min, ColorStyle::Cyan, colorize);
            append_colorized_char(&mut out, ',', ColorStyle::Magenta, colorize);
            append_colorized_decimal(&mut out, self.max, ColorStyle::Cyan, colorize);
            append_colorized_char(&mut out, '}', ColorStyle::Magenta, colorize);
        } else {
            append_colorized_str(&mut out, value.as_str(), ColorStyle::Yellow, colorize);
        }
        proof {
            assert(out@ =~= rendered_grapheme(self@));
        }
        out
    }
}

/// The model of a grapheme after the render-time clone-and-escape pass:
/// escaping always targets leaf fragments, one level deep.  A plain
/// grapheme has its own fragments escaped; a composite has the fragments
/// of each sub-run escaped, nothing deeper.
pub open spec fn escaped_model(
    m: GraphemeModel,
    is_non_ascii_char_escaped: bool,
    use_surrogate_pairs: bool,
) -> GraphemeModel {
    if m.reps.len() == 0 {
        GraphemeModel {
            frags: m.frags.map_values(
                (|f: Seq<char>| fully_escaped_fragment(
                    f,
                    is_non_ascii_char_escaped,
                    use_surrogate_pairs,
                )),
            ),
            reps: m.reps,
            min: m.min,
            max: m.max,
            config: m.config,
        }
    } else {
        GraphemeModel {
            frags: m.frags,
            reps: m.reps.map_values(
                (|r: GraphemeModel| GraphemeModel {
                    frags: r.frags.map_values(
                        (|f: Seq<char>| fully_escaped_fragment(
                            f,
                            is_non_ascii_char_escaped,
                            use_surrogate_pairs,
                        )),
                    ),
                    reps: r.reps,
                    min: r.min,
                    max: r.max,
                    config: r.config,
                }),
            ),
            min: m.min,
            max: m.max,
            config: m.config,
        }
    }
}

impl Grapheme {
    /// A copy whose model equals this grapheme's model.
    pub fn deep_copy(&self) -> (copy: Self)
        ensures
            copy@ == self@,
        decreases *self,
    {
        let mut reps: Vec<Grapheme> = Vec::new();
        let mut j: usize = 0;
        while j < self.repetitions.len()
            invariant
                j <= self.repetitions@.len(),
                reps@.len() == j,
                forall|k: int|
                    0 <= k < j ==> (#[trigger] reps@[k]).model() == self.repetitions@[k].model(),
            decreases self.repetitions@.len() - j,
        {
            proof {
                assert(decreases_to!(*self => self.repetitions));
                assert(decreases_to!(self.repetitions => self.repetitions@));
                assert(decreases_to!(self.repetitions@ => self.repetitions@[j as int]));
            }
            let rep_copy = self.repetitions[j].deep_copy();
            reps.push(rep_copy);
            j = j + 1;
        }
        let copy = Grapheme {
            chars: clone_frags(&self.chars),
            repetitions: reps,
            min: self.min,
            max: self.max,
            config: self.config,
        };
        proof {
            lemma_models_of(copy.repetitions@);
            lemma_models_of(self.repetitions@);
            assert(copy@.frags =~= self@.frags);
            assert(copy@.reps =~= self@.reps);
            assert(copy@ =~= self@);
        }
        copy
    }
}

impl Clone for Grapheme {
    /// A clone preserves the model exactly.
    fn clone(&self) -> (copy: Self)
        ensures
            copy@ == self@,
    {
        self.deep_copy()
    }
}

impl Grapheme {
    /// Renders the grapheme as the tree renderer does: a throwaway copy is
    /// escaped — the copy's own fragments, or, for a composite, the
    /// fragments of each sub-run — and that copy is serialized.  The
    /// grapheme itself is left untouched, so escaping is applied exactly
    /// once per render.
    pub fn escaped_rendering(
        &self,
        is_non_ascii_char_escaped: bool,
        is_astral_code_point_converted_to_surrogate: bool,
    ) -> (rendered: String)
        ensures
            rendered@ == rendered_grapheme(
                escaped_model(
                    self@,
                    is_non_ascii_char_escaped,
                    is_astral_code_point_converted_to_surrogate,
                ),
            ),
    {
        proof {
            lemma_models_of(self.repetitions@);
        }
        if self.repetitions.len() > 0 {
            let mut escaped_reps: Vec<Grapheme> = Vec::new();
            let mut j: usize = 0;
            while j < self.repetitions.len()
                invariant
                    j <= self.repetitions@.len(),
                    escaped_reps@.len() == j,
                    forall|k: int|
                        0 <= k < self.repetitions@.len()
                            ==> (#[trigger] self.repetitions@[k]).model() == self@.reps[k],
                    self@.reps.len() == self.repetitions@.len(),
                    forall|k: int|
                        0 <= k < j ==> (#[trigger] escaped_reps@[k]).model()
                            == escaped_model(
                            self@,
                            is_non_ascii_char_escaped,
                            is_astral_code_point_converted_to_surrogate,
                        ).reps[k],
                decreases self.repetitions@.len() - j,
            {
                let mut rep_copy = self.repetitions[j].deep_copy();
                rep_copy.escape_regexp_symbols(
                    is_non_ascii_char_escaped,
                    is_astral_code_point_converted_to_surrogate,
                );
                proof {
                    assert(rep_copy@ =~= escaped_model(
                        self@,
                        is_non_ascii_char_escaped,
                        is_astral_code_point_converted_to_surrogate,
                    ).reps[j as int]);
                }
                escaped_reps.push(rep_copy);
                j = j + 1;
            }
            let copy = Grapheme {
                chars: clone_frags(&self.chars),
                repetitions: escaped_reps,
                min: self.min,
                max: self.max,
                config: self.config,
            };
            proof {
                lemma_models_of(copy.repetitions@);
                assert(copy@.frags =~= self@.frags);
                assert(copy@.reps =~= escaped_model(
                    self@,
                    is_non_ascii_char_escaped,
                    is_astral_code_point_converted_to_surrogate,
                ).reps);
                assert(copy@ =~= escaped_model(
                    self@,
                    is_non_ascii_char_escaped,
                    is_astral_code_point_converted_to_surrogate,
                ));
            }
            copy.to_regexp_string()
        } else {
            let mut copy = self.deep_copy();
            copy.escape_regexp_symbols(
                is_non_ascii_char_escaped,
                is_astral_code_point_converted_to_surrogate,
            );
            proof {
                assert(copy@ =~= escaped_model(
                    self@,
                    is_non_ascii_char_escaped,
                    is_astral_code_point_converted_to_surrogate,
                ));
            }
            copy.to_regexp_string()
        }
    }
}

/// Whether the range `(amin, amax)` sorts after `(bmin, bmax)`: by lower
/// bound, upper bound as tiebreak.
pub open spec fn range_sorts_after(amin: int, amax: int, bmin: int, bmax: int) -> bool {
    amin > bmin || (amin == bmin && amax > bmax)
}

/// The split of the occurrence ranges `[amin, amax]` and `[bmin, bmax]`
/// into disjoint, range-ordered pieces: each piece is an inclusive range
/// tagged with the operand it belongs to (`Left` for the first, `Right`
/// for the second, `Overlap` for their intersection).
pub open spec fn overlap_ranges(amin: int, amax: int, bmin: int, bmax: int) -> Seq<
    (int, int, GraphemeOverlapState),
>
    decreases (if range_sorts_after(amin, amax, bmin, bmax) {
        1int
    } else {
        0int
    }),
{
    if range_sorts_after(amin, amax, bmin, bmax) {
        overlap_ranges(bmin, bmax, amin, amax).map_values(
            (|piece: (int, int, GraphemeOverlapState)| (piece.0, piece.1, piece.2.spec_flip())),
        )
    } else {
        let below = if amin < bmin {
            seq![
                (
                    amin,
                    if amax < bmin - 1 {
                        amax
                    } else {
                        bmin - 1
                    },
                    GraphemeOverlapState::Left,
                ),
            ]
        } else {
            Seq::<(int, int, GraphemeOverlapState)>::empty()
        };
        let middle = if amax >= bmin {
            seq![
                (
                    bmin,
                    if amax < bmax {
                        amax
                    } else {
                        bmax
                    },
                    GraphemeOverlapState::Overlap,
                ),
            ]
        } else {
            Seq::<(int, int, GraphemeOverlapState)>::empty()
        };
        let above = if amax < bmax {
            seq![
                (
                    if amax + 1 > bmin {
                        amax + 1
                    } else {
                        bmin
                    },
                    bmax,
                    GraphemeOverlapState::Right,
                ),
            ]
        } else if amax == bmax {
            Seq::<(int, int, GraphemeOverlapState)>::empty()
        } else {
            seq![
                (
                    if bmax + 1 > amin {
                        bmax + 1
                    } else {
                        amin
                    },
                    amax,
                    GraphemeOverlapState::Left,
                ),
            ]
        };
        below + middle + above
    }
}

/// Whether some piece of `ranges` covers the occurrence count `n`.
pub open spec fn ranges_cover(ranges: Seq<(int, int, GraphemeOverlapState)>, n: int) -> bool {
    exists|i: int| 0 <= i < ranges.len() && (#[trigger] ranges[i]).0 <= n && n <= ranges[i].1
}

/// Interval split totality: for two valid occurrence ranges the split
/// pieces are non-empty, pairwise disjoint and listed in ascending order,
/// and together they cover exactly the union of the two input ranges.
/// Each piece lies entirely in the region its tag names: `Left` in the
/// first range only, `Right` in the second only, `Overlap` in both.
pub proof fn lemma_overlap_ranges_partition(amin: int, amax: int, bmin: int, bmax: int)
    requires
        amin <= amax,
        bmin <= bmax,
    ensures
        ({
            let ranges = overlap_ranges(amin, amax, bmin, bmax);
            &&& forall|i: int| 0 <= i < ranges.len() ==> (#[trigger] ranges[i]).0 <= ranges[i].1
            &&& forall|i: int, j: int|
                0 <= i < j < ranges.len() ==> (#[trigger] ranges[i]).1 < (#[trigger] ranges[j]).0
            &&& forall|n: int|
                #[trigger] ranges_cover(ranges, n) <==> (amin <= n <= amax || bmin <= n <= bmax)
            &&& forall|i: int|
                0 <= i < ranges.len() && (#[trigger] ranges[i]).2 == GraphemeOverlapState::Left
                    ==> amin <= ranges[i].0 && ranges[i].1 <= amax && (ranges[i].1 < bmin
                    || bmax < ranges[i].0)
            &&& forall|i: int|
                0 <= i < ranges.len() && (#[trigger] ranges[i]).2 == GraphemeOverlapState::Right
                    ==> bmin <= ranges[i].0 && ranges[i].1 <= bmax && (ranges[i].1 < amin
                    || amax < ranges[i].0)
            &&& forall|i: int|
                0 <= i < ranges.len() && (#[trigger] ranges[i]).2 == GraphemeOverlapState::Overlap
                    ==> amin <= ranges[i].0 && ranges[i].1 <= amax && bmin <= ranges[i].0
                    && ranges[i].1 <= bmax
        }),
    decreases (if range_sorts_after(amin, amax, bmin, bmax) {
        1int
    } else {
        0int
    }),
{
    let ranges = overlap_ranges(amin, amax, bmin, bmax);
    if range_sorts_after(amin, amax, bmin, bmax) {
        lemma_overlap_ranges_partition(bmin, bmax, amin, amax);
        let swapped = overlap_ranges(bmin, bmax, amin, amax);
        assert forall|i: int| 0 <= i < ranges.len() implies (#[trigger] ranges[i]).0
            == swapped[i].0 && ranges[i].1 == swapped[i].1 && ranges[i].2
            == swapped[i].2.spec_flip() by {}
        assert forall|n: int| #[trigger] ranges_cover(ranges, n) implies (amin <= n <= amax || bmin
            <= n <= bmax) by {
            let i = choose|i: int|
                0 <= i < ranges.len() && (#[trigger] ranges[i]).0 <= n && n <= ranges[i].1;
            assert(swapped[i].0 <= n <= swapped[i].1);
            assert(ranges_cover(swapped, n));
        }
        assert forall|n: int| (amin <= n <= amax || bmin <= n <= bmax) implies #[trigger]
            ranges_cover(ranges, n) by {
            assert(ranges_cover(swapped, n));
            let i = choose|i: int|
                0 <= i < swapped.len() && (#[trigger] swapped[i]).0 <= n && n <= swapped[i].1;
            assert(ranges[i].0 <= n <= ranges[i].1);
        }
    } else {
        assert forall|n: int| (amin <= n <= amax || bmin <= n <= bmax) implies #[trigger]
            ranges_cover(ranges, n) by {
            if n < bmin {
                assert(ranges[0].0 <= n <= ranges[0].1);
            } else if n <= amax && n <= bmax {
                let below_len: int = if amin < bmin {
                    1
                } else {
                    0
                };
                assert(ranges[below_len].0 <= n <= ranges[below_len].1);
            } else {
                assert(ranges[ranges.len() - 1].0 <= n <= ranges[ranges.len() - 1].1);
            }
        }
        assert forall|n: int| #[trigger] ranges_cover(ranges, n) implies (amin <= n <= amax || bmin
            <= n <= bmax) by {
            let i = choose|i: int|
                0 <= i < ranges.len() && (#[trigger] ranges[i]).0 <= n && n <= ranges[i].1;
        }
    }
}

/// Overlap symmetry: splitting the second range against the first yields
/// the same pieces as splitting the first against the second, with `Left`
/// and `Right` tags exchanged and `Overlap` tags kept.
pub proof fn lemma_overlap_ranges_symmetry(amin: int, amax: int, bmin: int, bmax: int)
    requires
        amin <= amax,
        bmin <= bmax,
    ensures
        overlap_ranges(bmin, bmax, amin, amax) =~= overlap_ranges(
            amin,
            amax,
            bmin,
            bmax,
        ).map_values(
            (|piece: (int, int, GraphemeOverlapState)| (piece.0, piece.1, piece.2.spec_flip())),
        ),
{
    let forward = overlap_ranges(amin, amax, bmin, bmax);
    let backward = overlap_ranges(bmin, bmax, amin, amax);
    let flip_all = (|piece: (int, int, GraphemeOverlapState)| (
        piece.0,
        piece.1,
        piece.2.spec_flip(),
    ));
    if range_sorts_after(bmin, bmax, amin, amax) {
        assert(backward == forward.map_values(flip_all));
    } else if range_sorts_after(amin, amax, bmin, bmax) {
        assert(forward == backward.map_values(flip_all));
        assert forall|i: int| 0 <= i < backward.len() implies backward[i] == forward.map_values(
            flip_all,
        )[i] by {}
        assert(backward =~= forward.map_values(flip_all));
    } else {
        assert(amin == bmin && amax == bmax);
        assert(forward == backward);
        assert forall|i: int| 0 <= i < backward.len() implies backward[i] == forward.map_values(
            flip_all,
        )[i] by {}
        assert(backward =~= forward.map_values(flip_all));
    }
}

/// Copies a fragment vector, fragment by fragment.
fn clone_frags(frags: &Vec<String>) -> (copy: Vec<String>)
    ensures
        copy@ =~= frags@,
{
    let mut copy: Vec<String> = Vec::new();
    let mut i: usize = 0;
    while i < frags.len()
        invariant
            i <= frags.len(),
            copy@ =~= frags@.take(i as int),
        decreases frags.len() - i,
    {
        copy.push(frags[i].clone());
        i = i + 1;
    }
    proof {
        assert(frags@.take(frags@.len() as int) =~= frags@);
    }
    copy
}

/// Whether two fragment vectors hold the same text, fragment for fragment.
fn frags_equal(a: &Vec<String>, b: &Vec<String>) -> (eq: bool)
    ensures
        eq == (a.deep_view() == b.deep_view()),
{
    proof {
        assert(a.deep_view().len() == a@.len());
        assert(b.deep_view().len() == b@.len());
    }
    if a.len() != b.len() {
        return false;
    }
    let mut i: usize = 0;
    while i < a.len()
        invariant
            i <= a@.len(),
            a@.len() == b@.len(),
            forall|j: int| 0 <= j < i ==> (#[trigger] a@[j])@ == b@[j]@,
        decreases a@.len() - i,
    {
        if !a[i].eq(&b[i]) {
            proof {
                assert(a.deep_view()[i as int] == a@[i as int]@);
                assert(b.deep_view()[i as int] == b@[i as int]@);
            }
            return false;
        }
        i = i + 1;
    }
    proof {
        assert forall|j: int| 0 <= j < a@.len() implies a.deep_view()[j] == b.deep_view()[j] by {
            assert(a.deep_view()[j] == a@[j]@);
            assert(b.deep_view()[j] == b@[j]@);
        }
        assert(a.deep_view() =~= b.deep_view());
    }
    true
}

impl Grapheme {
    /// Splits the occurrence ranges of two graphemes with identical
    /// fragments into disjoint, range-ordered pieces tagged `Left`,
    /// `Overlap` or `Right`; `None` when the fragments differ, so the two
    /// cannot be merged.
    ///
    /// Every piece carries a copy of the shared fragments, no sub-runs, and
    /// the configuration of the operand whose range sorts first.
    pub fn overlap_with(&self, other: &Self) -> (split: Option<
        Vec<(Grapheme, GraphemeOverlapState)>,
    >)
        ensures
            split.is_some() <==> self@.frags == other@.frags,
            (split matches Some(pieces) ==> {
                let ranges = overlap_ranges(self@.min, self@.max, other@.min, other@.max);
                let shared_config = if range_sorts_after(
                    self@.min,
                    self@.max,
                    other@.min,
                    other@.max,
                ) {
                    other@.config
                } else {
                    self@.config
                };
                &&& pieces@.len() == ranges.len()
                &&& forall|i: int|
                    0 <= i < ranges.len() ==> {
                        &&& (#[trigger] pieces@[i]).0@.frags == self@.frags
                        &&& pieces@[i].0@.reps =~= Seq::<GraphemeModel>::empty()
                        &&& pieces@[i].0@.min == ranges[i].0
                        &&& pieces@[i].0@.max == ranges[i].1
                        &&& pieces@[i].1 == ranges[i].2
                        &&& pieces@[i].0@.config == shared_config
                    }
            }),
        decreases (if range_sorts_after(self@.min, self@.max, other@.min, other@.max) {
            1int
        } else {
            0int
        }),
    {
        if !frags_equal(&self.chars, &other.chars) {
            return None;
        }
        if self.min > other.min || (self.min == other.min && self.max > other.max) {
            let swapped = other.overlap_with(self).unwrap();
            let ghost swapped_ranges = overlap_ranges(
                other@.min,
                other@.max,
                self@.min,
                self@.max,
            );
            let mut flipped: Vec<(Grapheme, GraphemeOverlapState)> = Vec::new();
            let mut i: usize = 0;
            while i < swapped.len()
                invariant
                    i <= swapped@.len(),
                    swapped@.len() == swapped_ranges.len(),
                    forall|j: int|
                        0 <= j < swapped_ranges.len() ==> {
                            &&& (#[trigger] swapped@[j]).0@.frags == self@.frags
                            &&& swapped@[j].0@.reps =~= Seq::<GraphemeModel>::empty()
                            &&& swapped@[j].0@.min == swapped_ranges[j].0
                            &&& swapped@[j].0@.max == swapped_ranges[j].1
                            &&& swapped@[j].1 == swapped_ranges[j].2
                            &&& swapped@[j].0@.config == other@.config
                        },
                    flipped@.len() == i,
                    forall|j: int|
                        0 <= j < i ==> {
                            &&& (#[trigger] flipped@[j]).0@.frags == self@.frags
                            &&& flipped@[j].0@.reps =~= Seq::<GraphemeModel>::empty()
                            &&& flipped@[j].0@.min == swapped_ranges[j].0
                            &&& flipped@[j].0@.max == swapped_ranges[j].1
                            &&& flipped@[j].1 == swapped_ranges[j].2.spec_flip()
                            &&& flipped@[j].0@.config == other@.config
                        },
                decreases swapped@.len() - i,
            {
                let piece = Grapheme::new(
                    clone_frags(&swapped[i].0.chars),
                    swapped[i].0.min,
                    swapped[i].0.max,
                    &swapped[i].0.config,
                );
                proof {
                    assert(piece@.frags =~= swapped@[i as int].0@.frags);
                }
                let tag = swapped[i].1.flip();
                flipped.push((piece, tag));
                i = i + 1;
            }
            proof {
                let ranges = overlap_ranges(self@.min, self@.max, other@.min, other@.max);
                assert(ranges == swapped_ranges.map_values(
                    (|piece: (int, int, GraphemeOverlapState)| (
                        piece.0,
                        piece.1,
                        piece.2.spec_flip(),
                    )),
                ));
            }
            return Some(flipped);
        }
        let mut pieces: Vec<(Grapheme, GraphemeOverlapState)> = Vec::new();
        if self.min < other.min {
            let upper = if self.max < other.min - 1 {
                self.max
            } else {
                other.min - 1
            };
            let piece = Grapheme::new(clone_frags(&self.chars), self.min, upper, &self.config);
            proof {
                assert(piece@.frags =~= self@.frags);
            }
            pieces.push((piece, GraphemeOverlapState::Left));
        }
        if self.max >= other.min {
            let upper = if self.max < other.max {
                self.max
            } else {
                other.max
            };
            let piece = Grapheme::new(clone_frags(&self.chars), other.min, upper, &self.config);
            proof {
                assert(piece@.frags =~= self@.frags);
            }
            pieces.push((piece, GraphemeOverlapState::Overlap));
        }
        if self.max < other.max {
            let lower = if self.max + 1 > other.min {
                self.max + 1
            } else {
                other.min
            };
            let piece = Grapheme::new(clone_frags(&self.chars), lower, other.max, &self.config);
            proof {
                assert(piece@.frags =~= self@.frags);
            }
            pieces.push((piece, GraphemeOverlapState::Right));
        } else if self.max > other.max {
            let lower = if other.max + 1 > self.min {
                other.max + 1
            } else {
                self.min
            };
            let piece = Grapheme::new(clone_frags(&self.chars), lower, self.max, &self.config);
            proof {
                assert(piece@.frags =~= self@.frags);
            }
            pieces.push((piece, GraphemeOverlapState::Left));
        }
        proof {
            let ranges = overlap_ranges(self@.min, self@.max, other@.min, other@.max);
            assert forall|i: int| 0 <= i < ranges.len() implies {
                &&& (#[trigger] pieces@[i]).0@.frags == self@.frags
                &&& pieces@[i].0@.reps =~= Seq::<GraphemeModel>::empty()
                &&& pieces@[i].0@.min == ranges[i].0
                &&& pieces@[i].0@.max == ranges[i].1
                &&& pieces@[i].1 == ranges[i].2
                &&& pieces@[i].0@.config == self@.config
            } by {
            }
        }
        Some(pieces)
    }
}

} // verus!

