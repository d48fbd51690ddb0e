//! The five-variant expression grammar and its precedence-aware renderer:
//! alternation, binary concatenation, character class with contiguous-run
//! compression, literal cluster, and repetition with a quantifier.

use vstd::prelude::*;
use vstd::seq_lib::*;
use crate::color::{
    append_colorized_char, append_group_close, append_group_open, colorized, group_open_chars,
    ColorStyle,
};
use crate::config::RegExpConfig;
use crate::grapheme::{
    count_char_occurrences, escaped_model, is_single_char_spec, lemma_models_of,
    rendered_grapheme, Grapheme, GraphemeModel,
};
use crate::unicode::{append_decimal, codepoint_ordinal, dec_rep, get_codepoint_position, push_char};

verus! {

/// A quantifier appended to a repeated expression.  It binds to the
/// immediately preceding atom or group and never needs parenthesization of
/// its own.
#[derive(Clone, Copy, Debug, PartialEq, Eq, Structural)]
pub enum Quantifier {
    /// Zero or one occurrence: `?`.
    QuestionMark,
    /// Any number of occurrences: `*`.
    Asterisk,
    /// At least one occurrence: `+`.
    Plus,
    /// Exactly `n` occurrences: `{n}`.
    Exactly(u32),
    /// Between `n` and `m` occurrences: `{n,m}`.
    Between(u32, u32),
}

/// The characters a quantifier renders to.
pub open spec fn quantifier_chars(quantifier: Quantifier) -> Seq<char> {
    match quantifier {
        Quantifier::QuestionMark => seq!['?'],
        Quantifier::Asterisk => seq!['*'],
        Quantifier::Plus => seq!['+'],
        Quantifier::Exactly(n) => seq!['{'] + dec_rep(n as int) + seq!['}'],
        Quantifier::Between(n, m) => seq!['{'] + dec_rep(n as int) + seq![','] + dec_rep(m as int)
            + seq!['}'],
    }
}

/// Appends the rendering of `quantifier`.
pub fn append_quantifier(out: &mut String, quantifier: &Quantifier)
    ensures
        final(out)@ == old(out)@ + quantifier_chars(*quantifier),
{
    match quantifier {
        Quantifier::QuestionMark => push_char(out, '?'),
        Quantifier::Asterisk => push_char(out, '*'),
        Quantifier::Plus => push_char(out, '+'),
        Quantifier::Exactly(n) => {
            push_char(out, '{');
            append_decimal(out, *n);
            push_char(out, '}');
        },
        Quantifier::Between(n, m) => {
            push_char(out, '{');
            append_decimal(out, *n);
            push_char(out, ',');
            append_decimal(out, *m);
            push_char(out, '}');
        },
    }
    assert(out@ =~= old(out)@ + quantifier_chars(*quantifier));
}

/// The metacharacters escaped inside a character class: `[ ] \ - ^`.
pub open spec fn is_class_metachar(c: char) -> bool {
    c == '[' || c == ']' || c == '\\' || c == '-' || c == '^'
}

/// The escaped form of one character in class context.
pub open spec fn class_escaped_char(c: char) -> Seq<char> {
    if is_class_metachar(c) {
        seq!['\\', c]
    } else if c == '\n' {
        seq!['\\', 'n']
    } else if c == '\r' {
        seq!['\\', 'r']
    } else if c == '\t' {
        seq!['\\', 't']
    } else {
        seq![c]
    }
}

/// Appends the class-context escape of `c`.
fn append_class_escaped(out: &mut String, c: char)
    ensures
        final(out)@ == old(out)@ + class_escaped_char(c),
{
    if c == '[' || c == ']' || c == '\\' || c == '-' || c == '^' {
        push_char(out, '\\');
        push_char(out, c);
    } else if c == '\n' {
        push_char(out, '\\');
        push_char(out, 'n');
    } else if c == '\r' {
        push_char(out, '\\');
        push_char(out, 'r');
    } else if c == '\t' {
        push_char(out, '\\');
        push_char(out, 't');
    } else {
        push_char(out, c);
    }
    assert(out@ =~= old(out)@ + class_escaped_char(c));
}

/// The rendering of one maximal run `set[start..end)` of a character
/// class: a run of at most two characters is emitted individually, a
/// longer one is collapsed to `first-last`.
pub open spec fn rendered_run(set: Seq<char>, start: int, end: int, colorize: bool) -> Seq<char>
    recommends
        0 <= start < end <= set.len(),
{
    if end - start == 1 {
        class_escaped_char(set[start])
    } else if end - start == 2 {
        class_escaped_char(set[start]) + class_escaped_char(set[start + 1])
    } else {
        class_escaped_char(set[start]) + colorized(seq!['-'], ColorStyle::Cyan, colorize)
            + class_escaped_char(set[end - 1])
    }
}

/// The rendering of the runs of `set` from the run begun at `start` and
/// scanned up to `i` onward: the scan extends the current run while the
/// next character is ordinal-consecutive, and closes it otherwise.
pub open spec fn class_body(set: Seq<char>, start: int, i: int, colorize: bool) -> Seq<char>
    recommends
        0 <= start < i <= set.len(),
    decreases set.len() - i,
{
    if i >= set.len() {
        rendered_run(set, start, i, colorize)
    } else if codepoint_ordinal(set[i]) == codepoint_ordinal(set[i - 1]) + 1 {
        class_body(set, start, i + 1, colorize)
    } else {
        rendered_run(set, start, i, colorize) + class_body(set, i, i + 1, colorize)
    }
}

/// The full rendering of a character class: the compressed runs between
/// brackets, the brackets and any run hyphens wrapped in cyan when
/// colorized output is on.
pub open spec fn rendered_character_class(set: Seq<char>, config: RegExpConfig) -> Seq<char> {
    let colorize = config.is_output_colorized;
    let body = if set.len() == 0 {
        Seq::<char>::empty()
    } else {
        class_body(set, 0, 1, colorize)
    };
    colorized(seq!['['], ColorStyle::Cyan, colorize) + body + colorized(
        seq![']'],
        ColorStyle::Cyan,
        colorize,
    )
}

/// Whether a character-class codepoint sequence is well formed: strictly
/// ascending by scalar value, and therefore unique.  This is the invariant
/// the upstream builder establishes; the run compression of the class
/// renderer reads maximal runs only off such a sequence.
pub open spec fn class_is_sorted(set: Seq<char>) -> bool {
    forall|i: int, j: int|
        #![trigger set[i], set[j]]
        0 <= i < j < set.len() ==> (set[i] as int) < (set[j] as int)
}

/// The expression tree: alternation, strictly binary concatenation,
/// character class over codepoints ordered by scalar value, literal
/// cluster of graphemes, and repetition.  Every node carries the render
/// configuration it was built with.
///
/// A well-formed tree ([`Expression::spec_well_formed`]) keeps every
/// character class strictly ascending by scalar value; malformed trees are
/// a precondition violation of the upstream builder, not a condition the
/// renderer detects.
pub enum Expression {
    Alternation(Vec<Expression>, RegExpConfig),
    CharacterClass(Vec<char>, RegExpConfig),
    Concatenation(Box<Expression>, Box<Expression>, RegExpConfig),
    Literal(Vec<Grapheme>, RegExpConfig),
    Repetition(Box<Expression>, Quantifier, RegExpConfig),
}

impl Expression {
    /// Whether every character class of the tree holds its codepoints
    /// strictly ascending by scalar value.
    pub open spec fn spec_well_formed(&self) -> bool
        decreases self, 1int,
        via Self::spec_well_formed_decreases
    {
        match self {
            Expression::Alternation(options, _) => all_well_formed(options@),
            Expression::CharacterClass(set, _) => class_is_sorted(set@),
            Expression::Concatenation(left, right, _) => left.spec_well_formed()
                && right.spec_well_formed(),
            Expression::Literal(_, _) => true,
            Expression::Repetition(inner, _, _) => inner.spec_well_formed(),
        }
    }

    #[via_fn]
    proof fn spec_well_formed_decreases(&self) {
        match self {
            Expression::Alternation(options, _) => {
                assert(decreases_to!(self => options));
                assert(decreases_to!(options => options@));
            },
            _ => {},
        }
    }
}

/// Whether every expression of the sequence is well formed.
pub open spec fn all_well_formed(options: Seq<Expression>) -> bool
    decreases options, 0int,
{
    if options.len() == 0 {
        true
    } else {
        options[0].spec_well_formed() && all_well_formed(options.drop_first())
    }
}

/// A well-formed sequence is well formed element by element.
proof fn lemma_all_well_formed(options: Seq<Expression>)
    requires
        all_well_formed(options),
    ensures
        forall|i: int| 0 <= i < options.len() ==> (#[trigger] options[i]).spec_well_formed(),
    decreases options.len(),
{
    if options.len() > 0 {
        lemma_all_well_formed(options.drop_first());
        assert forall|i: int| 0 <= i < options.len() implies (
        #[trigger] options[i]).spec_well_formed() by {
            if i > 0 {
                assert(options.drop_first()[i - 1] == options[i]);
            }
        }
    }
}

impl Expression {
    /// The precedence class, low to high: alternation, concatenation,
    /// repetition, atomic (character class and literal).
    pub open spec fn spec_precedence(&self) -> u32 {
        match self {
            Expression::Alternation(_, _) => 1,
            Expression::Concatenation(_, _, _) => 2,
            Expression::Repetition(_, _, _) => 3,
            Expression::CharacterClass(_, _) => 4,
            Expression::Literal(_, _) => 4,
        }
    }

    /// The precedence class of this node.
    pub fn precedence(&self) -> (precedence: u32)
        ensures
            precedence == self.spec_precedence(),
    {
        match self {
            Expression::Alternation(_, _) => 1,
            Expression::Concatenation(_, _, _) => 2,
            Expression::Repetition(_, _, _) => 3,
            Expression::CharacterClass(_, _) => 4,
            Expression::Literal(_, _) => 4,
        }
    }

    /// Whether this node renders to an atomic form that needs no grouping
    /// regardless of context: a character class, or a literal of one
    /// grapheme occurring exactly once whose value is a single character
    /// or a single escape pair.
    pub open spec fn spec_is_single_codepoint(&self) -> bool {
        match self {
            Expression::CharacterClass(_, _) => true,
            Expression::Literal(cluster, _) => {
                let models = Grapheme::models_of(cluster@);
                &&& models.len() == 1
                &&& models[0].min == 1
                &&& models[0].max == 1
                &&& models[0].reps.len() == 0
                &&& is_single_char_spec(models[0])
            },
            _ => false,
        }
    }

    /// Whether this node renders to an atomic form that needs no grouping.
    pub fn is_single_codepoint(&self) -> (single: bool)
        ensures
            single == self.spec_is_single_codepoint(),
    {
        match self {
            Expression::CharacterClass(_, _) => true,
            Expression::Literal(cluster, _) => {
                proof {
                    lemma_models_of(cluster@);
                }
                if cluster.len() == 1 {
                    let grapheme = &cluster[0];
                    proof {
                        if grapheme.chars@.len() == 1 {
                            assert(grapheme@.frags[0] == grapheme.chars@[0]@);
                        }
                        assert(grapheme@.frags.len() == grapheme.chars@.len());
                    }
                    grapheme.minimum() == 1 && grapheme.maximum() == 1
                        && !grapheme.has_repetitions() && (grapheme.char_count(false) == 1 || (
                    grapheme.chars().len() == 1 && count_char_occurrences(
                        grapheme.chars()[0].as_str(),
                        '\\',
                    ) == 1))
                } else {
                    false
                }
            },
            _ => false,
        }
    }
}

/// The rendering of a child embedded under a parent of the given
/// precedence: the child's own rendering, wrapped in a group exactly when
/// the child's precedence is strictly lower and the child is not a single
/// codepoint.
pub open spec fn rendered_grouped(
    child: Expression,
    parent_precedence: u32,
    config: RegExpConfig,
) -> Seq<char>
    decreases child, 2int,
{
    if child.spec_precedence() < parent_precedence && !child.spec_is_single_codepoint() {
        colorized(
            group_open_chars(config.is_capturing_group_enabled),
            ColorStyle::Green,
            config.is_output_colorized,
        ) + rendered_expression(child) + colorized(
            seq![')'],
            ColorStyle::Green,
            config.is_output_colorized,
        )
    } else {
        rendered_expression(child)
    }
}

/// The alternation body: the options rendered under alternation
/// precedence, joined by `|` (red when colorized).
pub open spec fn rendered_alternation_options(
    options: Seq<Expression>,
    config: RegExpConfig,
) -> Seq<char>
    decreases options, 0int,
{
    if options.len() == 0 {
        Seq::<char>::empty()
    } else if options.len() == 1 {
        rendered_grouped(options[0], 1, config)
    } else {
        rendered_grouped(options[0], 1, config) + colorized(
            seq!['|'],
            ColorStyle::Red,
            config.is_output_colorized,
        ) + rendered_alternation_options(options.drop_first(), config)
    }
}

/// The literal body: each grapheme of the cluster escaped on a throwaway
/// copy per the configuration, rendered, and concatenated.
pub open spec fn rendered_literal(cluster: Seq<GraphemeModel>, config: RegExpConfig) -> Seq<char>
    decreases cluster,
{
    if cluster.len() == 0 {
        Seq::<char>::empty()
    } else {
        rendered_grapheme(
            escaped_model(
                cluster[0],
                config.is_non_ascii_char_escaped,
                config.is_astral_code_point_converted_to_surrogate,
            ),
        ) + rendered_literal(cluster.drop_first(), config)
    }
}

/// The full rendering of an expression tree.
pub open spec fn rendered_expression(e: Expression) -> Seq<char>
    decreases e, 1int,
    via rendered_expression_decreases
{
    match e {
        Expression::Alternation(options, config) => rendered_alternation_options(options@, config),
        Expression::CharacterClass(set, config) => rendered_character_class(set@, config),
        Expression::Concatenation(left, right, config) => rendered_grouped(*left, 2, config)
            + rendered_grouped(*right, 2, config),
        Expression::Literal(cluster, config) => rendered_literal(
            Grapheme::models_of(cluster@),
            config,
        ),
        Expression::Repetition(inner, quantifier, config) => rendered_grouped(*inner, 3, config)
            + colorized(
            quantifier_chars(quantifier),
            ColorStyle::Magenta,
            config.is_output_colorized,
        ),
    }
}

#[via_fn]
proof fn rendered_expression_decreases(e: Expression) {
    match e {
        Expression::Alternation(options, _) => {
            assert(decreases_to!(e => options));
            assert(decreases_to!(options => options@));
        },
        _ => {},
    }
}

/// Group necessity: a child embedded under a parent is rendered with a
/// surrounding group if and only if its precedence is strictly lower than
/// the parent's and it is not a single codepoint; otherwise its rendering
/// is embedded unchanged.
pub proof fn lemma_group_necessity(child: Expression, parent_precedence: u32, config: RegExpConfig)
    ensures
        rendered_grouped(child, parent_precedence, config) == rendered_expression(child) <==> !(
        child.spec_precedence() < parent_precedence && !child.spec_is_single_codepoint()),
{
    if child.spec_precedence() < parent_precedence && !child.spec_is_single_codepoint() {
        assert(rendered_grouped(child, parent_precedence, config).len() > rendered_expression(
            child,
        ).len());
    }
}

/// Rendering one more option extends the join by a pipe (except before
/// the first option) and the grouped rendering of that option.
proof fn lemma_rendered_alternation_take(options: Seq<Expression>, config: RegExpConfig, i: int)
    requires
        0 <= i < options.len(),
    ensures
        rendered_alternation_options(options.take(i + 1), config) == rendered_alternation_options(
            options.take(i),
            config,
        ) + (if i == 0 {
            Seq::<char>::empty()
        } else {
            colorized(seq!['|'], ColorStyle::Red, config.is_output_colorized)
        }) + rendered_grouped(options[i], 1, config),
    decreases i,
{
    if i == 0 {
        assert(options.take(1) =~= seq![options[0]]);
        assert(options.take(0) =~= Seq::<Expression>::empty());
        assert(rendered_alternation_options(options.take(1), config) =~=
            rendered_alternation_options(options.take(0), config) + Seq::<char>::empty()
            + rendered_grouped(options[0], 1, config));
    } else {
        lemma_rendered_alternation_take(options.drop_first(), config, i - 1);
        let pipe = colorized(seq!['|'], ColorStyle::Red, config.is_output_colorized);
        assert(options.take(i + 1).drop_first() =~= options.drop_first().take(i));
        assert(options.take(i).drop_first() =~= options.drop_first().take(i - 1));
        assert(options.take(i + 1)[0] == options[0]);
        assert(options.take(i)[0] == options[0]);
        assert(options.drop_first()[i - 1] == options[i]);
        if i == 1 {
            assert(options.drop_first().take(1) =~= seq![options[1]]);
            assert(rendered_alternation_options(options.take(2), config) =~=
                rendered_alternation_options(options.take(1), config) + pipe + rendered_grouped(
                options[1],
                1,
                config,
            ));
        } else {
            assert(rendered_alternation_options(options.take(i + 1), config) =~=
                rendered_alternation_options(options.take(i), config) + pipe + rendered_grouped(
                options[i],
                1,
                config,
            ));
        }
    }
}

/// Rendering one more grapheme of a literal extends the concatenation by
/// its escaped rendering.
proof fn lemma_rendered_literal_take(cluster: Seq<GraphemeModel>, config: RegExpConfig, i: int)
    requires
        0 <= i < cluster.len(),
    ensures
        rendered_literal(cluster.take(i + 1), config) == rendered_literal(cluster.take(i), config)
            + rendered_grapheme(
            escaped_model(
                cluster[i],
                config.is_non_ascii_char_escaped,
                config.is_astral_code_point_converted_to_surrogate,
            ),
        ),
    decreases i,
{
    if i == 0 {
        assert(cluster.take(1) =~= seq![cluster[0]]);
        assert(cluster.take(1).drop_first() =~= Seq::<GraphemeModel>::empty());
        assert(cluster.take(0) =~= Seq::<GraphemeModel>::empty());
        assert(rendered_literal(cluster.take(1), config) =~= rendered_literal(
            cluster.take(0),
            config,
        ) + rendered_grapheme(
            escaped_model(
                cluster[0],
                config.is_non_ascii_char_escaped,
                config.is_astral_code_point_converted_to_surrogate,
            ),
        ));
    } else {
        lemma_rendered_literal_take(cluster.drop_first(), config, i - 1);
        assert(cluster.take(i + 1).drop_first() =~= cluster.drop_first().take(i));
        assert(cluster.take(i).drop_first() =~= cluster.drop_first().take(i - 1));
        assert(cluster.take(i + 1)[0] == cluster[0]);
        assert(cluster.take(i)[0] == cluster[0]);
        assert(cluster.drop_first()[i - 1] == cluster[i]);
        assert(rendered_literal(cluster.take(i + 1), config) =~= rendered_literal(
            cluster.take(i),
            config,
        ) + rendered_grapheme(
            escaped_model(
                cluster[i],
                config.is_non_ascii_char_escaped,
                config.is_astral_code_point_converted_to_surrogate,
            ),
        ));
    }
}

/// Appends the rendering of `child` under a parent of precedence
/// `parent_precedence`: grouped exactly when the child's precedence is
/// strictly lower and it is not a single codepoint.
pub fn append_grouped(
    out: &mut String,
    child: &Expression,
    parent_precedence: u32,
    config: &RegExpConfig,
)
    requires
        child.spec_well_formed(),
    ensures
        final(out)@ == old(out)@ + rendered_grouped(*child, parent_precedence, *config),
    decreases *child, 2int,
{
    let needs_group = child.precedence() < parent_precedence && !child.is_single_codepoint();
    if needs_group {
        append_group_open(out, config.is_capturing_group_enabled, config.is_output_colorized);
        child.append_to(out);
        append_group_close(out, config.is_output_colorized);
        assert(out@ =~= old(out)@ + rendered_grouped(*child, parent_precedence, *config));
    } else {
        child.append_to(out);
    }
}

/// Appends the alternation body: the options rendered under alternation
/// precedence, joined by `|` (red when colorized).
pub fn format_alternation(
    out: &mut String,
    expr: &Expression,
    options: &Vec<Expression>,
    config: &RegExpConfig,
)
    requires
        expr.spec_well_formed(),
        ({
            &&& *expr matches Expression::Alternation(opts, conf)
            &&& opts == *options
            &&& conf == *config
        }),
    ensures
        final(out)@ == old(out)@ + rendered_expression(*expr),
    decreases *expr, 0int,
{
    let mut i: usize = 0;
    while i < options.len()
        invariant
            i <= options@.len(),
            all_well_formed(options@),
            *expr matches Expression::Alternation(opts, conf) && opts == *options && conf
                == *config,
            out@ == old(out)@ + rendered_alternation_options(options@.take(i as int), *config),
        decreases options@.len() - i,
    {
        proof {
            lemma_all_well_formed(options@);
            lemma_rendered_alternation_take(options@, *config, i as int);
            assert(decreases_to!(*expr => expr->Alternation_0));
            assert(decreases_to!(*options => options@));
            assert(decreases_to!(options@ => options@[i as int]));
        }
        if i > 0 {
            append_colorized_char(out, '|', ColorStyle::Red, config.is_output_colorized);
        }
        append_grouped(out, &options[i], 1, config);
        i = i + 1;
    }
    proof {
        assert(options@.take(options@.len() as int) =~= options@);
        assert(out@ =~= old(out)@ + rendered_expression(*expr));
    }
}

/// Appends the rendering of one maximal run of a character class.
fn append_run(out: &mut String, set: &Vec<char>, start: usize, end: usize, config: &RegExpConfig)
    requires
        0 <= start < end <= set@.len(),
    ensures
        final(out)@ == old(out)@ + rendered_run(
            set@,
            start as int,
            end as int,
            config.is_output_colorized,
        ),
{
    if end - start == 1 {
        append_class_escaped(out, set[start]);
    } else if end - start == 2 {
        append_class_escaped(out, set[start]);
        append_class_escaped(out, set[start + 1]);
    } else {
        append_class_escaped(out, set[start]);
        append_colorized_char(out, '-', ColorStyle::Cyan, config.is_output_colorized);
        append_class_escaped(out, set[end - 1]);
    }
    assert(out@ =~= old(out)@ + rendered_run(
        set@,
        start as int,
        end as int,
        config.is_output_colorized,
    ));
}

/// Appends the full rendering of a character class: every codepoint
/// escaped per the class-context rules, maximal ordinal-consecutive runs
/// of three or more collapsed to `first-last`, the whole wrapped in
/// brackets.
pub fn format_character_class(out: &mut String, char_set: &Vec<char>, config: &RegExpConfig)
    requires
        class_is_sorted(char_set@),
    ensures
        final(out)@ == old(out)@ + rendered_character_class(char_set@, *config),
{
    let colorize = config.is_output_colorized;
    append_colorized_char(out, '[', ColorStyle::Cyan, colorize);
    let ghost mid = out@;
    if char_set.len() > 0 {
        let mut run_start: usize = 0;
        let mut i: usize = 1;
        while i < char_set.len()
            invariant
                0 <= run_start < i <= char_set@.len(),
                colorize == config.is_output_colorized,
                mid.len() <= out@.len(),
                out@.take(mid.len() as int) == mid,
                class_body(char_set@, 0, 1, colorize) == out@.skip(mid.len() as int) + class_body(
                    char_set@,
                    run_start as int,
                    i as int,
                    colorize,
                ),
            decreases char_set@.len() - i,
        {
            let previous = char_set[i - 1];
            let current = char_set[i];
            if get_codepoint_position(current) == get_codepoint_position(previous) + 1 {
                i = i + 1;
            } else {
                let ghost emitted = out@.skip(mid.len() as int);
                append_run(out, char_set, run_start, i, config);
                proof {
                    assert(out@.take(mid.len() as int) =~= mid);
                    assert(out@.skip(mid.len() as int) =~= emitted + rendered_run(
                        char_set@,
                        run_start as int,
                        i as int,
                        colorize,
                    ));
                }
                run_start = i;
                i = i + 1;
            }
        }
        let ghost emitted = out@.skip(mid.len() as int);
        append_run(out, char_set, run_start, i, config);
        proof {
            assert(out@.take(mid.len() as int) =~= mid);
            assert(out@.skip(mid.len() as int) =~= emitted + rendered_run(
                char_set@,
                run_start as int,
                i as int,
                colorize,
            ));
            assert(out@.skip(mid.len() as int) =~= class_body(char_set@, 0, 1, colorize));
        }
    }
    proof {
        assert(out@.take(mid.len() as int) =~= mid);
        assert(out@ =~= out@.take(mid.len() as int) + out@.skip(mid.len() as int));
        assert(out@ =~= mid + (if char_set@.len() == 0 {
            Seq::<char>::empty()
        } else {
            class_body(char_set@, 0, 1, colorize)
        }));
    }
    append_colorized_char(out, ']', ColorStyle::Cyan, colorize);
    proof {
        assert(out@ =~= old(out)@ + rendered_character_class(char_set@, *config));
    }
}

/// Appends the concatenation of the two children, each rendered under
/// concatenation precedence, with no separator.
pub fn format_concatenation(
    out: &mut String,
    expr: &Expression,
    expr1: &Expression,
    expr2: &Expression,
    config: &RegExpConfig,
)
    requires
        expr.spec_well_formed(),
        ({
            &&& *expr matches Expression::Concatenation(left, right, conf)
            &&& *left == *expr1
            &&& *right == *expr2
            &&& conf == *config
        }),
    ensures
        final(out)@ == old(out)@ + rendered_expression(*expr),
    decreases *expr, 0int,
{
    let precedence = expr.precedence();
    proof {
        assert(decreases_to!(*expr => expr->Concatenation_0));
        assert(decreases_to!(*expr => expr->Concatenation_1));
    }
    append_grouped(out, expr1, precedence, config);
    append_grouped(out, expr2, precedence, config);
    proof {
        assert(out@ =~= old(out)@ + rendered_expression(*expr));
    }
}

/// Appends the concatenation of the escaped renderings of the cluster's
/// graphemes, with no separator.  Escaping happens on throwaway copies:
/// the cluster is left untouched.
pub fn format_literal(out: &mut String, cluster: &Vec<Grapheme>, config: &RegExpConfig)
    ensures
        final(out)@ == old(out)@ + rendered_literal(Grapheme::models_of(cluster@), *config),
{
    proof {
        lemma_models_of(cluster@);
    }
    let ghost models = Grapheme::models_of(cluster@);
    let mut i: usize = 0;
    while i < cluster.len()
        invariant
            i <= cluster@.len(),
            models == Grapheme::models_of(cluster@),
            models.len() == cluster@.len(),
            forall|k: int| 0 <= k < models.len() ==> models[k] == (#[trigger] cluster@[k]).model(),
            out@ == old(out)@ + rendered_literal(models.take(i as int), *config),
        decreases cluster@.len() - i,
    {
        proof {
            lemma_rendered_literal_take(models, *config, i as int);
        }
        let piece = cluster[i].escaped_rendering(
            config.is_non_ascii_char_escaped,
            config.is_astral_code_point_converted_to_surrogate,
        );
        out.append(piece.as_str());
        i = i + 1;
    }
    proof {
        assert(models.take(models.len() as int) =~= models);
    }
}

/// Appends the rendering of the repeated child under repetition
/// precedence, followed by the quantifier (magenta when colorized).
pub fn format_repetition(
    out: &mut String,
    expr: &Expression,
    expr1: &Expression,
    quantifier: &Quantifier,
    config: &RegExpConfig,
)
    requires
        expr.spec_well_formed(),
        ({
            &&& *expr matches Expression::Repetition(inner, quant, conf)
            &&& *inner == *expr1
            &&& quant == *quantifier
            &&& conf == *config
        }),
    ensures
        final(out)@ == old(out)@ + rendered_expression(*expr),
    decreases *expr, 0int,
{
    let precedence = expr.precedence();
    proof {
        assert(decreases_to!(*expr => expr->Repetition_0));
    }
    append_grouped(out, expr1, precedence, config);
    if config.is_output_colorized {
        crate::color::append_style_prefix(out, ColorStyle::Magenta);
        append_quantifier(out, quantifier);
        crate::color::append_reset(out);
    } else {
        append_quantifier(out, quantifier);
    }
    proof {
        assert(out@ =~= old(out)@ + rendered_expression(*expr));
    }
}

impl Expression {
    /// Appends the full rendering of this expression to `out`.
    fn append_to(&self, out: &mut String)
        requires
            self.spec_well_formed(),
        ensures
            final(out)@ == old(out)@ + rendered_expression(*self),
        decreases *self, 1int,
    {
        match self {
            Expression::Alternation(options, config) => format_alternation(
                out,
                self,
                options,
                config,
            ),
            Expression::CharacterClass(char_set, config) => format_character_class(
                out,
                char_set,
                config,
            ),
            Expression::Concatenation(left, right, config) => format_concatenation(
                out,
                self,
                left,
                right,
                config,
            ),
            Expression::Literal(cluster, config) => format_literal(out, cluster, config),
            Expression::Repetition(inner, quantifier, config) => format_repetition(
                out,
                self,
                inner,
                quantifier,
                config,
            ),
        }
    }

    /// Serializes the expression tree into its regular-expression string.
    /// The tree must be well formed: every character class strictly
    /// ascending by scalar value, as the upstream builder guarantees.
    pub fn to_regexp_string(&self) -> (rendered: String)
        requires
            self.spec_well_formed(),
        ensures
            rendered@ == rendered_expression(*self),
    {
        let mut out = String::new();
        self.append_to(&mut out);
        proof {
            assert(out@ =~= rendered_expression(*self));
        }
        out
    }
}

} // verus!
