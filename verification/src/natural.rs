use vstd::prelude::*;

verus! {

/// The outcome of comparing two names.
#[derive(Clone, Copy, Debug, PartialEq, Eq, Structural)]
pub enum NameOrder {
    Less,
    Equal,
    Greater,
}

impl NameOrder {
    /// The outcome of the same comparison with its operands swapped.
    pub open spec fn reversed(self) -> NameOrder {
        match self {
            NameOrder::Less => NameOrder::Greater,
            NameOrder::Equal => NameOrder::Equal,
            NameOrder::Greater => NameOrder::Less,
        }
    }
}

/// The characters that `lexical_sort::iter::iterate_lexical` yields for a
/// name: ASCII lowered, other alphanumerics transliterated to lower-case
/// ASCII, combining marks dropped.
pub uninterp spec fn lexical_form(name: Seq<char>) -> Seq<char>;

/// Whether `char::is_alphanumeric` holds of a character.
pub uninterp spec fn unicode_alphanumeric(c: char) -> bool;

/// An ASCII decimal digit.
pub open spec fn is_ascii_digit(c: char) -> bool {
    '0' <= c && c <= '9'
}

/// The number of digits that start `s`.
pub open spec fn leading_digits(s: Seq<char>) -> nat
    decreases s.len(),
{
    if s.len() > 0 && is_ascii_digit(s[0]) {
        leading_digits(s.drop_first()) + 1
    } else {
        0
    }
}

/// The number that a string of decimal digits denotes.
pub open spec fn digits_value(s: Seq<char>) -> nat
    decreases s.len(),
{
    if s.len() == 0 {
        0
    } else {
        digits_value(s.drop_last()) * 10 + ((s.last() as int - 48) as nat)
    }
}

/// A digit run is as long as the digits that start a sequence, and no longer.
pub proof fn lemma_leading_digits(s: Seq<char>)
    ensures
        leading_digits(s) <= s.len(),
        s.len() > 0 && is_ascii_digit(s[0]) ==> leading_digits(s) >= 1,
    decreases s.len(),
{
    if s.len() > 0 && is_ascii_digit(s[0]) {
        lemma_leading_digits(s.drop_first());
    }
}

/// One unit of natural comparison: a maximal run of digits, taken as its
/// length and its value, or a single other character.
pub enum Token {
    Digits(nat, nat),
    Char(char),
}

/// The tokens of a character sequence, left to right.
pub open spec fn tokens(s: Seq<char>) -> Seq<Token>
    decreases s.len(),
{
    if s.len() == 0 {
        Seq::empty()
    } else if is_ascii_digit(s[0]) {
        proof {
            lemma_leading_digits(s);
        }
        let n = leading_digits(s);
        seq![Token::Digits(n, digits_value(s.take(n as int)))] + tokens(s.skip(n as int))
    } else {
        seq![Token::Char(s[0])] + tokens(s.drop_first())
    }
}

/// Characters that are not alphanumeric come first, then digit runs, then
/// the other alphanumeric characters.
pub open spec fn token_class(alnum: spec_fn(char) -> bool, t: Token) -> int {
    match t {
        Token::Digits(_, _) => 1,
        Token::Char(c) => if alnum(c) {
            2
        } else {
            0
        },
    }
}

pub open spec fn int_order(x: int, y: int) -> NameOrder {
    if x < y {
        NameOrder::Less
    } else if x == y {
        NameOrder::Equal
    } else {
        NameOrder::Greater
    }
}

pub open spec fn char_order(x: char, y: char) -> NameOrder {
    if x < y {
        NameOrder::Less
    } else if x == y {
        NameOrder::Equal
    } else {
        NameOrder::Greater
    }
}

/// Tokens compare by class; digit runs by length, then by value; other
/// characters by code point.
pub open spec fn token_order(alnum: spec_fn(char) -> bool, a: Token, b: Token) -> NameOrder {
    if token_class(alnum, a) != token_class(alnum, b) {
        int_order(token_class(alnum, a), token_class(alnum, b))
    } else {
        match (a, b) {
            (Token::Digits(l1, v1), Token::Digits(l2, v2)) => if l1 != l2 {
                int_order(l1 as int, l2 as int)
            } else {
                int_order(v1 as int, v2 as int)
            },
            (Token::Char(x), Token::Char(y)) => char_order(x, y),
            _ => NameOrder::Equal,
        }
    }
}

/// Lexicographic order of token sequences; a proper prefix comes first.
pub open spec fn token_seq_order(alnum: spec_fn(char) -> bool, s: Seq<Token>, t: Seq<Token>) -> NameOrder
    decreases s.len(),
{
    if s.len() == 0 {
        if t.len() == 0 {
            NameOrder::Equal
        } else {
            NameOrder::Less
        }
    } else if t.len() == 0 {
        NameOrder::Greater
    } else if token_order(alnum, s[0], t[0]) == NameOrder::Equal {
        token_seq_order(alnum, s.drop_first(), t.drop_first())
    } else {
        token_order(alnum, s[0], t[0])
    }
}

/// Lexicographic order of character sequences by code point, which is the
/// order of `str`'s `cmp` (byte order of UTF-8 follows code-point order).
pub open spec fn char_seq_order(s: Seq<char>, t: Seq<char>) -> NameOrder
    decreases s.len(),
{
    if s.len() == 0 {
        if t.len() == 0 {
            NameOrder::Equal
        } else {
            NameOrder::Less
        }
    } else if t.len() == 0 {
        NameOrder::Greater
    } else if s[0] == t[0] {
        char_seq_order(s.drop_first(), t.drop_first())
    } else {
        char_order(s[0], t[0])
    }
}

/// Natural lexical order, given which characters count as alphanumeric: the
/// tokens of the two transliterated names compared lexicographically, with
/// the names themselves as the tie-break.
pub open spec fn natural_compare_by(alnum: spec_fn(char) -> bool, a: Seq<char>, b: Seq<char>) -> NameOrder {
    let o = token_seq_order(alnum, tokens(lexical_form(a)), tokens(lexical_form(b)));
    if o == NameOrder::Equal {
        char_seq_order(a, b)
    } else {
        o
    }
}

/// The test of `char::is_alphanumeric`.
pub open spec fn alphanumeric() -> spec_fn(char) -> bool {
    |c: char| unicode_alphanumeric(c)
}

/// Natural lexical order, as `lexical_sort::natural_lexical_cmp` orders names.
pub open spec fn natural_compare(a: Seq<char>, b: Seq<char>) -> NameOrder {
    natural_compare_by(alphanumeric(), a, b)
}

/// The number of digits that end the first `k` characters of `s`.
pub open spec fn digit_run(s: Seq<char>, k: int) -> nat
    decreases k,
{
    if k <= 0 || !is_ascii_digit(s[k - 1]) {
        0
    } else {
        digit_run(s, k - 1) + 1
    }
}

/// No run of twenty or more digits.
pub open spec fn short_digit_runs(s: Seq<char>) -> bool {
    forall|k: int| 0 <= k <= s.len() ==> #[trigger] digit_run(s, k) < 20
}

proof fn lemma_digit_run(s: Seq<char>, k: int, m: int)
    requires
        0 <= m <= k <= s.len(),
    ensures
        digit_run(s, k) >= m <==> forall|j: int| k - m <= j < k ==> is_ascii_digit(#[trigger] s[j]),
    decreases m,
{
    if m > 0 {
        lemma_digit_run(s, k - 1, m - 1);
        if digit_run(s, k) >= m {
            assert(is_ascii_digit(s[k - 1]));
        }
    }
}

/// Some one of the twenty characters before index `k` is not a digit.
pub open spec fn window_has_non_digit(s: Seq<char>, k: int) -> bool {
    exists|j: int| k - 20 <= j < k && !is_ascii_digit(#[trigger] s[j])
}

/// A name has short digit runs exactly when every twenty consecutive
/// characters of it hold something other than a digit.
pub proof fn law_short_digit_runs(s: Seq<char>)
    ensures
        short_digit_runs(s) <==> forall|k: int|
            20 <= k <= s.len() ==> #[trigger] window_has_non_digit(s, k),
{
    if short_digit_runs(s) {
        assert forall|k: int| 20 <= k <= s.len() implies #[trigger] window_has_non_digit(s, k) by {
            lemma_digit_run(s, k, 20);
            assert(digit_run(s, k) < 20);
        }
    }
    if forall|k: int| 20 <= k <= s.len() ==> #[trigger] window_has_non_digit(s, k) {
        assert forall|k: int| 0 <= k <= s.len() implies #[trigger] digit_run(s, k) < 20 by {
            if k >= 20 {
                lemma_digit_run(s, k, 20);
                assert(window_has_non_digit(s, k));
            } else {
                lemma_digit_run_bound(s, k);
            }
        }
    }
}

proof fn lemma_digit_run_bound(s: Seq<char>, k: int)
    requires
        0 <= k,
    ensures
        digit_run(s, k) <= k,
    decreases k,
{
    if k > 0 {
        lemma_digit_run_bound(s, k - 1);
    }
}

/// Two names that the natural comparison takes without its digit
/// accumulators overflowing: one of them has no digit run of twenty or more
/// once transliterated, and digits are accumulated on both sides in step.
pub open spec fn comparable(a: Seq<char>, b: Seq<char>) -> bool {
    short_digit_runs(lexical_form(a)) || short_digit_runs(lexical_form(b))
}

/// The transliterated form of `name`, from `lexical_sort::iter::iterate_lexical`.
///
/// Claimed of the outside function: its output is a function of the name
/// alone (it reads fixed transliteration tables).
#[verifier::external_body]
pub(crate) fn lexical_chars(name: &str) -> (form: Vec<char>)
    ensures
        form@ == lexical_form(name@),
{
    lexical_sort::iter::iterate_lexical(name).collect()
}

/// Compares two names with `lexical_sort::natural_lexical_cmp`.
///
/// Claimed of the outside function: it walks the transliterated names of
/// `iterate_lexical` in step; where both sides are at a digit it reads the two
/// digit runs in step and orders the shorter run first, runs of one length by
/// value; otherwise differing characters are ordered non-alphanumeric before
/// alphanumeric (by `char::is_alphanumeric`), then by code point, which puts
/// digits before the letters the transliteration leaves; a name that runs out
/// first comes first; equal walks fall back to `str`'s order of the names.
/// Digit runs are accumulated in a `u64`; the precondition keeps one side's
/// runs below twenty digits, so neither accumulator overflows.
#[verifier::external_body]
pub(crate) fn natural_order(a: &str, b: &str) -> (order: NameOrder)
    requires
        comparable(a@, b@),
    ensures
        order == natural_compare_by(|c: char| unicode_alphanumeric(c), a@, b@),
{
    match lexical_sort::natural_lexical_cmp(a, b) {
        core::cmp::Ordering::Less => NameOrder::Less,
        core::cmp::Ordering::Equal => NameOrder::Equal,
        core::cmp::Ordering::Greater => NameOrder::Greater,
    }
}


proof fn lemma_token_order(alnum: spec_fn(char) -> bool, a: Token, b: Token, c: Token)
    ensures
        token_order(alnum, b, a) == token_order(alnum, a, b).reversed(),
        token_order(alnum, a, b) == NameOrder::Equal ==> a == b,
        token_order(alnum, a, a) == NameOrder::Equal,
        token_order(alnum, a, b) != NameOrder::Greater && token_order(alnum, b, c)
            != NameOrder::Greater ==> token_order(alnum, a, c) != NameOrder::Greater,
{
}

proof fn lemma_token_seq_reverse(alnum: spec_fn(char) -> bool, s: Seq<Token>, t: Seq<Token>)
    ensures
        token_seq_order(alnum, t, s) == token_seq_order(alnum, s, t).reversed(),
        token_seq_order(alnum, s, t) == NameOrder::Equal ==> s == t,
    decreases s.len(),
{
    if s.len() > 0 && t.len() > 0 {
        lemma_token_order(alnum, s[0], t[0], t[0]);
        lemma_token_seq_reverse(alnum, s.drop_first(), t.drop_first());
        if token_seq_order(alnum, s, t) == NameOrder::Equal {
            assert(s =~= seq![s[0]] + s.drop_first());
            assert(t =~= seq![t[0]] + t.drop_first());
        }
    }
}

proof fn lemma_token_seq_transitive(
    alnum: spec_fn(char) -> bool,
    s: Seq<Token>,
    t: Seq<Token>,
    u: Seq<Token>,
)
    requires
        token_seq_order(alnum, s, t) != NameOrder::Greater,
        token_seq_order(alnum, t, u) != NameOrder::Greater,
    ensures
        token_seq_order(alnum, s, u) != NameOrder::Greater,
    decreases s.len(),
{
    if s.len() > 0 {
        lemma_token_order(alnum, s[0], t[0], u[0]);
        lemma_token_order(alnum, t[0], s[0], u[0]);
        lemma_token_order(alnum, s[0], u[0], t[0]);
        if token_order(alnum, s[0], t[0]) == NameOrder::Equal && token_order(alnum, t[0], u[0])
            == NameOrder::Equal {
            lemma_token_seq_transitive(alnum, s.drop_first(), t.drop_first(), u.drop_first());
        }
    }
}

proof fn lemma_char_seq_reverse(s: Seq<char>, t: Seq<char>)
    ensures
        char_seq_order(t, s) == char_seq_order(s, t).reversed(),
        char_seq_order(s, t) == NameOrder::Equal ==> s == t,
    decreases s.len(),
{
    if s.len() > 0 && t.len() > 0 {
        lemma_char_seq_reverse(s.drop_first(), t.drop_first());
        if char_seq_order(s, t) == NameOrder::Equal {
            assert(s =~= seq![s[0]] + s.drop_first());
            assert(t =~= seq![t[0]] + t.drop_first());
        }
    }
}

proof fn lemma_char_seq_transitive(s: Seq<char>, t: Seq<char>, u: Seq<char>)
    requires
        char_seq_order(s, t) != NameOrder::Greater,
        char_seq_order(t, u) != NameOrder::Greater,
    ensures
        char_seq_order(s, u) != NameOrder::Greater,
    decreases s.len(),
{
    if s.len() > 0 && s[0] == t[0] && t[0] == u[0] {
        lemma_char_seq_transitive(s.drop_first(), t.drop_first(), u.drop_first());
    }
}

/// Swapping two names reverses their natural order, and only a name compares
/// equal to itself.
pub proof fn law_natural_order_reverses(a: Seq<char>, b: Seq<char>)
    ensures
        natural_compare(b, a) == natural_compare(a, b).reversed(),
        natural_compare(a, b) == NameOrder::Equal <==> a == b,
{
    let alnum = alphanumeric();
    lemma_token_seq_reverse(alnum, tokens(lexical_form(a)), tokens(lexical_form(b)));
    lemma_char_seq_reverse(a, b);
    if a == b {
        lemma_token_seq_reverse(alnum, tokens(lexical_form(a)), tokens(lexical_form(a)));
        lemma_char_seq_reverse(a, a);
    }
}

/// Natural order is transitive: a name not after a second, which is not
/// after a third, is not after the third.
pub proof fn law_natural_order_transitive(a: Seq<char>, b: Seq<char>, c: Seq<char>)
    requires
        natural_compare(a, b) != NameOrder::Greater,
        natural_compare(b, c) != NameOrder::Greater,
    ensures
        natural_compare(a, c) != NameOrder::Greater,
{
    let ta = tokens(lexical_form(a));
    let tb = tokens(lexical_form(b));
    let tc = tokens(lexical_form(c));
    let alnum = alphanumeric();
    lemma_token_seq_transitive(alnum, ta, tb, tc);
    lemma_token_seq_reverse(alnum, ta, tc);
    lemma_token_seq_reverse(alnum, ta, tb);
    lemma_token_seq_reverse(alnum, tb, tc);
    if token_seq_order(alnum, ta, tc) == NameOrder::Equal {
        assert(ta == tc);
        assert(token_seq_order(alnum, ta, tb) == NameOrder::Equal);
        lemma_char_seq_transitive(a, b, c);
    }
}

} // verus!
