//! Properties of the lexer that hold for every input text.
use vstd::prelude::*;

use crate::tokenizer::{
    digits_value, fold_case, from_word, in_class, in_range, is_digit, is_word_char, keyword_of,
    lemma_run_bound, lex, lex_from, matches_ignoring_case, prepend, punct_lexeme, run,
    select_word, word_lexeme, CharClass, Keyword, LexError, Lexed, Lexeme,
};

verus! {

/// Every character of a run belongs to the run's class.
pub proof fn lemma_run_members(s: Seq<char>, i: int, k: CharClass)
    requires
        0 <= i <= s.len(),
    ensures
        forall|j: int| i <= j < i + run(s, i, k) ==> in_class(#[trigger] s[j], k),
        i + run(s, i, k) < s.len() ==> !in_class(s[i + run(s, i, k)], k),
    decreases s.len() - i,
{
    if i < s.len() && in_class(s[i], k) {
        lemma_run_members(s, i + 1, k);
    }
}

/// A run over characters that are all of its class reaches the end of the text.
pub proof fn lemma_run_to_end(s: Seq<char>, i: int, k: CharClass)
    requires
        0 <= i <= s.len(),
        forall|j: int| i <= j < s.len() ==> in_class(#[trigger] s[j], k),
    ensures
        run(s, i, k) == s.len() - i,
    decreases s.len() - i,
{
    if i < s.len() {
        lemma_run_to_end(s, i + 1, k);
    }
}

/// Where the text at `i` does not start with a space and reads without error,
/// the first token starts at `i`, ends within the text, and the rest are the
/// tokens read from its end on.
pub proof fn lemma_first_token(s: Seq<char>, i: int)
    requires
        0 <= i < s.len(),
        s[i] != ' ',
        lex_from(s, i) is Ok,
    ensures
        ({
            let ls = lex_from(s, i)->Ok_0;
            &&& ls.len() > 0
            &&& ls[0].start == i
            &&& i < ls[0].end <= s.len()
            &&& lex_from(s, ls[0].end) is Ok
            &&& ls == seq![ls[0]] + lex_from(s, ls[0].end)->Ok_0
        }),
{
    let c = s[i];
    if is_digit(c) {
        lemma_run_bound(s, i + 1, CharClass::Digit);
    } else if is_word_char(c) {
        lemma_run_bound(s, i + 1, CharClass::Word);
    } else if c == '"' {
        lemma_run_bound(s, i + 1, CharClass::NotQuote);
    }
}

/// Index `j` lies within one of the tokens `ls`.
pub open spec fn covered(ls: Seq<Lexed>, j: int) -> bool {
    exists|k: int| 0 <= k < ls.len() && (#[trigger] ls[k]).start <= j < ls[k].end
}

/// The tokens `ls` cover nonempty stretches of `lo..hi`, from left to right,
/// without overlap.
pub open spec fn spans_in_order(ls: Seq<Lexed>, lo: int, hi: int) -> bool {
    &&& forall|k: int| 0 <= k < ls.len() ==> lo <= (#[trigger] ls[k]).start < ls[k].end <= hi
    &&& forall|k: int| 0 <= k < ls.len() - 1 ==> (#[trigger] ls[k]).end <= ls[k + 1].start
}

proof fn lemma_cover_from(s: Seq<char>, i: int)
    requires
        0 <= i <= s.len(),
        lex_from(s, i) is Ok,
    ensures
        spans_in_order(lex_from(s, i)->Ok_0, i, s.len() as int),
        forall|j: int|
            i <= j < s.len() && !covered(lex_from(s, i)->Ok_0, j) ==> s[j] == ' ',
    decreases s.len() - i,
{
    if i < s.len() {
        if s[i] == ' ' {
            let e = i + 1 + run(s, i + 1, CharClass::Space);
            lemma_run_bound(s, i + 1, CharClass::Space);
            lemma_run_members(s, i + 1, CharClass::Space);
            lemma_cover_from(s, e);
        } else {
            lemma_first_token(s, i);
            let ls = lex_from(s, i)->Ok_0;
            let e = ls[0].end;
            let rs = lex_from(s, e)->Ok_0;
            lemma_cover_from(s, e);
            assert forall|k: int| 0 <= k < rs.len() implies #[trigger] ls[k + 1] == rs[k] by {}
            assert forall|k: int| 0 <= k < ls.len() - 1 implies (#[trigger] ls[k]).end <= ls[k
                + 1].start by {
                if k > 0 {
                    assert(ls[k] == rs[k - 1]);
                }
            }
            assert forall|j: int| i <= j < s.len() && !covered(ls, j) implies s[j] == ' ' by {
                if j < e {
                    assert(ls[0].start <= j < ls[0].end);
                } else if covered(rs, j) {
                    let k = choose|k: int| 0 <= k < rs.len() && (#[trigger] rs[k]).start <= j < rs[k].end;
                    assert(ls[k + 1] == rs[k]);
                }
            }
        }
    }
}

/// Each token is read from a nonempty stretch of the text, the stretches come
/// from left to right without overlapping, and every character that no token
/// covers is a space: every other character is accounted for exactly once.
pub proof fn lemma_tokens_cover_text(s: Seq<char>)
    requires
        lex(s) is Ok,
    ensures
        spans_in_order(lex(s)->Ok_0, 0, s.len() as int),
        forall|j: int| 0 <= j < s.len() && !covered(lex(s)->Ok_0, j) ==> s[j] == ' ',
{
    lemma_cover_from(s, 0);
}

/// A word that spells a keyword, in any mix of upper and lower case, reads as
/// that one keyword.
pub proof fn lemma_keyword_any_case(w: Seq<char>, kw: Keyword)
    requires
        keyword_of(w) == Some(kw),
    ensures
        lex(w) == Ok::<Seq<Lexed>, LexError>(seq![Lexed { start: 0, end: w.len() as int, value: Lexeme::Keyword(kw) }]),
{
    let word = if matches_ignoring_case(w, select_word()) {
        select_word()
    } else {
        from_word()
    };
    assert(matches_ignoring_case(w, word));
    assert forall|j: int| 0 <= j < w.len() implies is_word_char(#[trigger] w[j]) by {
        assert(in_range(word[j], 'a', 'z'));
        assert(fold_case(w[j]) == word[j] as u32);
    }
    lemma_run_to_end(w, 1, CharClass::Word);
    assert(w.subrange(0, w.len() as int) =~= w);
    assert(word_lexeme(w) == Lexeme::Keyword(kw));
    assert(lex_from(w, w.len() as int) == Ok::<Seq<Lexed>, LexError>(Seq::empty()));
    assert(lex(w)->Ok_0 =~= seq![Lexed { start: 0, end: w.len() as int, value: Lexeme::Keyword(kw) }]);
}

/// The values of the tokens `ls`, without their positions.
pub open spec fn values(ls: Seq<Lexed>) -> Seq<Lexeme> {
    ls.map_values(|l: Lexed| l.value)
}

/// Both readings succeed or both fail, and where they succeed they give the
/// same token values.
pub open spec fn same_values(a: Result<Seq<Lexed>, LexError>, b: Result<Seq<Lexed>, LexError>) -> bool {
    &&& (a is Ok <==> b is Ok)
    &&& a is Ok ==> values(a->Ok_0) == values(b->Ok_0)
}

/// The number of double quotes among the first `n` characters of `s`.
pub open spec fn quotes_before(s: Seq<char>, n: int) -> nat
    decreases n,
{
    if n <= 0 {
        0
    } else {
        quotes_before(s, n - 1) + if s[n - 1] == '"' {
            1nat
        } else {
            0nat
        }
    }
}

proof fn lemma_same_values_prepend(
    t: Lexed,
    u: Lexed,
    a: Result<Seq<Lexed>, LexError>,
    b: Result<Seq<Lexed>, LexError>,
)
    requires
        t.value == u.value,
        same_values(a, b),
    ensures
        same_values(prepend(t, a), prepend(u, b)),
{
    if a is Ok {
        assert(values(seq![t] + a->Ok_0) =~= seq![t.value] + values(a->Ok_0));
        assert(values(seq![u] + b->Ok_0) =~= seq![u.value] + values(b->Ok_0));
    }
}

proof fn lemma_quotes_flat(s: Seq<char>, a: int, b: int)
    requires
        0 <= a <= b <= s.len(),
        forall|j: int| a <= j < b ==> #[trigger] s[j] != '"',
    ensures
        quotes_before(s, b) == quotes_before(s, a),
    decreases b - a,
{
    if b > a {
        lemma_quotes_flat(s, a, b - 1);
    }
}

/// A run reads the same in a text and in a copy of its tail placed `d` further on.
proof fn lemma_run_shift(s: Seq<char>, t: Seq<char>, i: int, d: int, k: CharClass)
    requires
        0 <= i <= s.len(),
        0 <= i + d,
        t.len() == s.len() + d,
        forall|j: int| i <= j < s.len() ==> t[j + d] == #[trigger] s[j],
    ensures
        run(t, i + d, k) == run(s, i, k),
    decreases s.len() - i,
{
    if i < s.len() {
        assert(t[i + d] == s[i]);
        lemma_run_shift(s, t, i + 1, d, k);
    }
}

/// The class of the run that a token or a stretch of spaces starting with `c` reads.
pub open spec fn run_class(c: char) -> CharClass {
    if c == ' ' {
        CharClass::Space
    } else if is_digit(c) {
        CharClass::Digit
    } else {
        CharClass::Word
    }
}

pub open spec fn starts_run(c: char) -> bool {
    c == ' ' || is_digit(c) || is_word_char(c)
}

/// The value of the token read from the run `s[i..e]` that starts with `c`.
pub open spec fn run_lexeme(c: char, w: Seq<char>) -> Lexeme {
    if is_digit(c) {
        Lexeme::Number(digits_value(w))
    } else {
        word_lexeme(w)
    }
}

/// `t` holds the tail of `s` from `i` on, `d` places further on.
pub open spec fn shifted_tail(s: Seq<char>, t: Seq<char>, i: int, d: int) -> bool {
    &&& 0 <= i <= s.len()
    &&& 0 <= i + d
    &&& t.len() == s.len() + d
    &&& forall|j: int| i <= j < s.len() ==> t[j + d] == #[trigger] s[j]
}

/// The tokens of a text's tail do not depend on where the tail stands.
proof fn lemma_lex_shift(s: Seq<char>, t: Seq<char>, i: int, d: int)
    requires
        shifted_tail(s, t, i, d),
    ensures
        same_values(lex_from(t, i + d), lex_from(s, i)),
    decreases s.len() - i, 1nat,
{
    if i < s.len() {
        let c = s[i];
        assert(t[i + d] == c);
        if starts_run(c) {
            lemma_lex_shift_run(s, t, i, d);
        } else if c == '"' {
            lemma_lex_shift_string(s, t, i, d);
        } else if c == '*' || c == '.' || c == ',' {
            lemma_lex_shift(s, t, i + 1, d);
            lemma_same_values_prepend(
                Lexed { start: i + d, end: i + 1 + d, value: punct_lexeme(c) },
                Lexed { start: i, end: i + 1, value: punct_lexeme(c) },
                lex_from(t, i + 1 + d),
                lex_from(s, i + 1),
            );
        }
    }
}

proof fn lemma_lex_shift_run(s: Seq<char>, t: Seq<char>, i: int, d: int)
    requires
        shifted_tail(s, t, i, d),
        i < s.len(),
        starts_run(s[i]),
    ensures
        same_values(lex_from(t, i + d), lex_from(s, i)),
    decreases s.len() - i, 0nat,
{
    let c = s[i];
    let k = run_class(c);
    assert(t[i + d] == c);
    lemma_run_shift(s, t, i + 1, d, k);
    lemma_run_bound(s, i + 1, k);
    let e = i + 1 + run(s, i + 1, k);
    assert(t.subrange(i + d, e + d) =~= s.subrange(i, e));
    lemma_lex_shift(s, t, e, d);
    if c != ' ' {
        let v = run_lexeme(c, s.subrange(i, e));
        lemma_same_values_prepend(
            Lexed { start: i + d, end: e + d, value: v },
            Lexed { start: i, end: e, value: v },
            lex_from(t, e + d),
            lex_from(s, e),
        );
    }
}

proof fn lemma_lex_shift_string(s: Seq<char>, t: Seq<char>, i: int, d: int)
    requires
        shifted_tail(s, t, i, d),
        i < s.len(),
        s[i] == '"',
    ensures
        same_values(lex_from(t, i + d), lex_from(s, i)),
    decreases s.len() - i, 0nat,
{
    assert(t[i + d] == s[i]);
    lemma_run_shift(s, t, i + 1, d, CharClass::NotQuote);
    lemma_run_bound(s, i + 1, CharClass::NotQuote);
    let e = i + 1 + run(s, i + 1, CharClass::NotQuote);
    if e < s.len() {
        let v = Lexeme::Str(s.subrange(i + 1, e));
        assert(t.subrange(i + 1 + d, e + d) =~= s.subrange(i + 1, e));
        lemma_lex_shift(s, t, e + 1, d);
        lemma_same_values_prepend(
            Lexed { start: i + d, end: e + 1 + d, value: v },
            Lexed { start: i, end: e + 1, value: v },
            lex_from(t, e + 1 + d),
            lex_from(s, e + 1),
        );
    }
}

/// A run from `i` at or before a space at `p` grows by one when a second space
/// is put at `p`, where it reaches `p`; otherwise it stays as it is.
proof fn lemma_run_insert(s: Seq<char>, p: int, i: int, k: CharClass)
    requires
        0 <= i <= p < s.len(),
        s[p] == ' ',
    ensures
        !in_class(' ', k) ==> i + run(s, i, k) <= p,
        i + run(s, i, k) <= p ==> run(s.insert(p, ' '), i, k) == run(s, i, k),
        i + run(s, i, k) > p ==> run(s.insert(p, ' '), i, k) == run(s, i, k) + 1,
    decreases p - i,
{
    let t = s.insert(p, ' ');
    if i == p {
        assert(t[p] == ' ');
        if in_class(' ', k) {
            assert(t[p + 1] == ' ');
            assert forall|j: int| p + 1 <= j < s.len() implies t[j + 1] == #[trigger] s[j] by {}
            lemma_run_shift(s, t, p + 1, 1, k);
            assert(run(t, p + 1, k) == 1 + run(t, p + 2, k));
            assert(run(s, p, k) == 1 + run(s, p + 1, k));
            assert(run(t, p, k) == 1 + run(t, p + 1, k));
        }
    } else {
        assert(t[i] == s[i]);
        if in_class(s[i], k) {
            lemma_run_insert(s, p, i + 1, k);
            assert(run(s, i, k) == 1 + run(s, i + 1, k));
            assert(run(t, i, k) == 1 + run(t, i + 1, k));
        }
    }
}

proof fn lemma_no_quote_in_runs(c: char)
    ensures
        in_class(c, CharClass::Space) ==> c != '"',
        in_class(c, CharClass::Digit) ==> c != '"',
        in_class(c, CharClass::Word) ==> c != '"',
{
}

/// The conditions under which doubling the space at `p` is looked at from `i` on.
pub open spec fn insert_point(s: Seq<char>, p: int, i: int) -> bool {
    &&& 0 <= i <= p < s.len()
    &&& s[p] == ' '
    &&& quotes_before(s, i) % 2 == 0
    &&& quotes_before(s, p) % 2 == 0
}

/// From a token boundary `i` at or before `p`, doubling the space at `p` leaves
/// the token values alone.
proof fn lemma_insert_from(s: Seq<char>, p: int, i: int)
    requires
        insert_point(s, p, i),
    ensures
        same_values(lex_from(s.insert(p, ' '), i), lex_from(s, i)),
    decreases p - i, 1nat,
{
    let t = s.insert(p, ' ');
    let c = s[i];
    assert(t[i] == c);
    if i == p {
        lemma_insert_at_space(s, p);
    } else if starts_run(c) {
        lemma_insert_run(s, p, i);
    } else if c == '"' {
        lemma_insert_string(s, p, i);
    } else if c == '*' || c == '.' || c == ',' {
        lemma_quotes_flat(s, i, i + 1);
        lemma_insert_from(s, p, i + 1);
        lemma_same_values_prepend(
            Lexed { start: i, end: i + 1, value: punct_lexeme(c) },
            Lexed { start: i, end: i + 1, value: punct_lexeme(c) },
            lex_from(t, i + 1),
            lex_from(s, i + 1),
        );
    }
}

proof fn lemma_insert_at_space(s: Seq<char>, p: int)
    requires
        0 <= p < s.len(),
        s[p] == ' ',
    ensures
        same_values(lex_from(s.insert(p, ' '), p), lex_from(s, p)),
{
    let t = s.insert(p, ' ');
    assert forall|j: int| p <= j < s.len() implies t[j + 1] == #[trigger] s[j] by {}
    assert(t[p] == ' ');
    assert(t[p + 1] == ' ');
    lemma_run_shift(s, t, p + 1, 1, CharClass::Space);
    assert(run(t, p + 1, CharClass::Space) == 1 + run(t, p + 2, CharClass::Space));
    lemma_run_bound(s, p + 1, CharClass::Space);
    let e = p + 1 + run(s, p + 1, CharClass::Space);
    lemma_lex_shift(s, t, e, 1);
    assert(lex_from(s, p) == lex_from(s, e));
    assert(lex_from(t, p) == lex_from(t, e + 1));
}

proof fn lemma_insert_run(s: Seq<char>, p: int, i: int)
    requires
        insert_point(s, p, i),
        i < p,
        starts_run(s[i]),
    ensures
        same_values(lex_from(s.insert(p, ' '), i), lex_from(s, i)),
    decreases p - i, 0nat,
{
    let t = s.insert(p, ' ');
    assert forall|j: int| p <= j < s.len() implies t[j + 1] == #[trigger] s[j] by {}
    let c = s[i];
    assert(t[i] == c);
    let k = run_class(c);
    lemma_run_insert(s, p, i + 1, k);
    lemma_run_bound(s, i + 1, k);
    lemma_run_members(s, i + 1, k);
    let e = i + 1 + run(s, i + 1, k);
    if e > p {
        lemma_lex_shift(s, t, e, 1);
        assert(lex_from(s, i) == lex_from(s, e));
        assert(lex_from(t, i) == lex_from(t, e + 1));
    } else {
        assert forall|j: int| i <= j < e implies #[trigger] s[j] != '"' by {
            lemma_no_quote_in_runs(s[j]);
        }
        lemma_quotes_flat(s, i, e);
        assert(t.subrange(i, e) =~= s.subrange(i, e));
        lemma_insert_from(s, p, e);
        if c != ' ' {
            let v = run_lexeme(c, s.subrange(i, e));
            lemma_same_values_prepend(
                Lexed { start: i, end: e, value: v },
                Lexed { start: i, end: e, value: v },
                lex_from(t, e),
                lex_from(s, e),
            );
        }
    }
}

proof fn lemma_insert_string(s: Seq<char>, p: int, i: int)
    requires
        insert_point(s, p, i),
        i < p,
        s[i] == '"',
    ensures
        same_values(lex_from(s.insert(p, ' '), i), lex_from(s, i)),
    decreases p - i, 0nat,
{
    let t = s.insert(p, ' ');
    assert(t[i] == s[i]);
    lemma_run_insert(s, p, i + 1, CharClass::NotQuote);
    lemma_run_bound(s, i + 1, CharClass::NotQuote);
    lemma_run_members(s, i + 1, CharClass::NotQuote);
    let e = i + 1 + run(s, i + 1, CharClass::NotQuote);
    assert(quotes_before(s, i + 1) == quotes_before(s, i) + 1);
    if e > p {
        lemma_quotes_flat(s, i + 1, p);
        assert(false);
    }
    assert(s[e] == '"');
    lemma_quotes_flat(s, i + 1, e);
    assert(quotes_before(s, e + 1) == quotes_before(s, i) + 2);
    assert(t.subrange(i + 1, e) =~= s.subrange(i + 1, e));
    lemma_insert_from(s, p, e + 1);
    let v = Lexeme::Str(s.subrange(i + 1, e));
    lemma_same_values_prepend(
        Lexed { start: i, end: e + 1, value: v },
        Lexed { start: i, end: e + 1, value: v },
        lex_from(t, e + 1),
        lex_from(s, e + 1),
    );
}

/// Token values do not depend on how many spaces stand between tokens: putting
/// a second space beside a space that lies outside every string literal (after
/// an even number of double quotes) leaves the text's token values as they
/// were, and leaves a text that fails to read failing. Collapsing a run of
/// spaces to one is a sequence of such steps taken back.
pub proof fn lemma_extra_space(s: Seq<char>, p: int)
    requires
        0 <= p < s.len(),
        s[p] == ' ',
        quotes_before(s, p) % 2 == 0,
    ensures
        same_values(lex(s.insert(p, ' ')), lex(s)),
{
    lemma_insert_from(s, p, 0);
}

/// The text `s` with a second space put at each of the positions `ps`, one
/// after another, each position counted in the text as it stands by then.
pub open spec fn with_doubled_spaces(s: Seq<char>, ps: Seq<int>) -> Seq<char>
    decreases ps.len(),
{
    if ps.len() == 0 {
        s
    } else {
        with_doubled_spaces(s.insert(ps[0], ' '), ps.drop_first())
    }
}

/// Each position of `ps`, in the text as it stands when its turn comes, holds
/// a space outside every string literal (after an even number of double quotes).
pub open spec fn doublings_outside_strings(s: Seq<char>, ps: Seq<int>) -> bool
    decreases ps.len(),
{
    if ps.len() == 0 {
        true
    } else {
        let p = ps[0];
        &&& 0 <= p < s.len()
        &&& s[p] == ' '
        &&& quotes_before(s, p) % 2 == 0
        &&& doublings_outside_strings(s.insert(p, ' '), ps.drop_first())
    }
}

/// Token values are insensitive to repeated spaces: a text and the same text
/// with any number of its spaces outside string literals repeated (so the
/// first is the second with those runs of spaces collapsed) both read or both
/// fail, and where they read they give the same token values.
pub proof fn lemma_extra_spaces(s: Seq<char>, ps: Seq<int>)
    requires
        doublings_outside_strings(s, ps),
    ensures
        same_values(lex(with_doubled_spaces(s, ps)), lex(s)),
    decreases ps.len(),
{
    if ps.len() > 0 {
        let p = ps[0];
        lemma_extra_space(s, p);
        lemma_extra_spaces(s.insert(p, ' '), ps.drop_first());
    }
}

} // verus!
