use vstd::prelude::*;
use vstd::string::StringExecFns;

verus! {

/// The reserved words of the language, recognised without regard to case.
#[derive(Debug, PartialEq, Eq, Clone, Copy)]
pub enum Keyword {
    SELECT,
    FROM,
}

/// What a token is, apart from where it stands.
#[derive(Debug, PartialEq, Eq, Clone)]
pub enum TokenValue {
    Ident(String),
    Keyword(Keyword),
    Number(i32),
    String(String),
    Asterisk,
    Period,
    Comma,
}

/// A token together with the index of its first character in the input
/// (counted in characters, not bytes).
#[derive(Debug, PartialEq, Eq, Clone)]
pub struct Token {
    pub pos: usize,
    pub value: TokenValue,
}

/// Why a text could not be split into tokens.
#[derive(Debug, PartialEq, Eq, Clone, Copy)]
pub enum LexError {
    /// A character that starts no token, and where it stands.
    Unsupported { ch: char, pos: usize },
    /// A string literal opened at `pos` and never closed.
    UnterminatedString { pos: usize },
    /// A run of digits at `pos` whose value does not fit in an `i32`.
    NumberOutOfRange { pos: usize },
}

impl LexError {
    /// A description of the error for people.
    pub fn message(&self) -> (r: String)
        ensures
            match *self {
                LexError::Unsupported { ch, .. } => r@ == seq![ch] + " is not supported"@,
                LexError::UnterminatedString { .. } => r@ == "unterminated string literal"@,
                LexError::NumberOutOfRange { .. } => r@ == "number does not fit in 32 bits"@,
            },
    {
        match *self {
            LexError::Unsupported { ch, .. } => {
                let mut r = String::new();
                push_char(&mut r, ch);
                assert(r@ =~= seq![ch]);
                r.append(" is not supported");
                r
            },
            LexError::UnterminatedString { .. } => String::from_str("unterminated string literal"),
            LexError::NumberOutOfRange { .. } => String::from_str("number does not fit in 32 bits"),
        }
    }
}

/// The mathematical value of a token.
pub enum Lexeme {
    Ident(Seq<char>),
    Keyword(Keyword),
    Number(int),
    Str(Seq<char>),
    Asterisk,
    Period,
    Comma,
}

impl View for TokenValue {
    type V = Lexeme;

    open spec fn view(&self) -> Lexeme {
        match self {
            TokenValue::Ident(s) => Lexeme::Ident(s@),
            TokenValue::Keyword(k) => Lexeme::Keyword(*k),
            TokenValue::Number(n) => Lexeme::Number(*n as int),
            TokenValue::String(s) => Lexeme::Str(s@),
            TokenValue::Asterisk => Lexeme::Asterisk,
            TokenValue::Period => Lexeme::Period,
            TokenValue::Comma => Lexeme::Comma,
        }
    }
}

/// A token of the model: its value and the characters `start..end` it was read from.
pub struct Lexed {
    pub start: int,
    pub end: int,
    pub value: Lexeme,
}

/// The classes of characters that the lexer reads in runs.
pub enum CharClass {
    Space,
    Digit,
    Word,
    NotQuote,
}

/// `c` lies between `lo` and `hi`, by code point.
pub open spec fn in_range(c: char, lo: char, hi: char) -> bool {
    lo as u32 <= c as u32 <= hi as u32
}

pub open spec fn is_digit(c: char) -> bool {
    in_range(c, '0', '9')
}

pub open spec fn is_word_char(c: char) -> bool {
    in_range(c, 'A', 'Z') || in_range(c, 'a', 'z') || c == '_'
}

pub open spec fn in_class(c: char, k: CharClass) -> bool {
    match k {
        CharClass::Space => c == ' ',
        CharClass::Digit => is_digit(c),
        CharClass::Word => is_word_char(c),
        CharClass::NotQuote => c != '"',
    }
}

/// The length of the longest run of characters of class `k` in `s` from `i` on.
pub open spec fn run(s: Seq<char>, i: int, k: CharClass) -> nat
    decreases s.len() - i,
{
    if 0 <= i < s.len() && in_class(s[i], k) {
        1 + run(s, i + 1, k)
    } else {
        0
    }
}

/// A run ends within the text.
pub proof fn lemma_run_bound(s: Seq<char>, i: int, k: CharClass)
    requires
        0 <= i <= s.len(),
    ensures
        i + run(s, i, k) <= s.len(),
    decreases s.len() - i,
{
    if i < s.len() && in_class(s[i], k) {
        lemma_run_bound(s, i + 1, k);
    }
}

/// The decimal value of a sequence of digits.
pub open spec fn digits_value(d: Seq<char>) -> int
    decreases d.len(),
{
    if d.len() == 0 {
        0
    } else {
        digits_value(d.drop_last()) * 10 + (d.last() as u32 - '0' as u32)
    }
}

/// The code of `c` with ASCII upper-case letters taken to lower case.
pub open spec fn fold_case(c: char) -> u32 {
    if in_range(c, 'A', 'Z') {
        (c as u32 + 32) as u32
    } else {
        c as u32
    }
}

/// `w` spells `kw`, a lower-case word, up to the case of ASCII letters.
pub open spec fn matches_ignoring_case(w: Seq<char>, kw: Seq<char>) -> bool {
    w.len() == kw.len() && forall|j: int| 0 <= j < w.len() ==> fold_case(#[trigger] w[j]) == kw[j] as u32
}

pub open spec fn select_word() -> Seq<char> {
    seq!['s', 'e', 'l', 'e', 'c', 't']
}

pub open spec fn from_word() -> Seq<char> {
    seq!['f', 'r', 'o', 'm']
}

pub open spec fn keyword_of(w: Seq<char>) -> Option<Keyword> {
    if matches_ignoring_case(w, select_word()) {
        Some(Keyword::SELECT)
    } else if matches_ignoring_case(w, from_word()) {
        Some(Keyword::FROM)
    } else {
        None
    }
}

pub open spec fn word_lexeme(w: Seq<char>) -> Lexeme {
    match keyword_of(w) {
        Some(k) => Lexeme::Keyword(k),
        None => Lexeme::Ident(w),
    }
}

pub open spec fn punct_lexeme(c: char) -> Lexeme {
    if c == '*' {
        Lexeme::Asterisk
    } else if c == '.' {
        Lexeme::Period
    } else {
        Lexeme::Comma
    }
}

/// `t` put in front of the tokens of `r`, or the error of `r`.
pub open spec fn prepend(t: Lexed, r: Result<Seq<Lexed>, LexError>) -> Result<Seq<Lexed>, LexError> {
    match r {
        Ok(ts) => Ok(seq![t] + ts),
        Err(e) => Err(e),
    }
}

/// The tokens of `s` from index `i` on, or the first lexical error there.
/// Where `s[i]` is of a class read in runs, the run is `s[i]` and the run that follows it.
pub open spec fn lex_from(s: Seq<char>, i: int) -> Result<Seq<Lexed>, LexError>
    decreases s.len() - i,
{
    if i < 0 || i >= s.len() {
        Ok(Seq::empty())
    } else {
        let c = s[i];
        if c == ' ' {
            proof {
                lemma_run_bound(s, i + 1, CharClass::Space);
            }
            lex_from(s, i + 1 + run(s, i + 1, CharClass::Space))
        } else if is_digit(c) {
            let e = i + 1 + run(s, i + 1, CharClass::Digit);
            proof {
                lemma_run_bound(s, i + 1, CharClass::Digit);
            }
            let v = digits_value(s.subrange(i, e));
            if v > i32::MAX {
                Err(LexError::NumberOutOfRange { pos: i as usize })
            } else {
                prepend(
                    Lexed { start: i, end: e, value: Lexeme::Number(v) },
                    lex_from(s, e),
                )
            }
        } else if is_word_char(c) {
            let e = i + 1 + run(s, i + 1, CharClass::Word);
            proof {
                lemma_run_bound(s, i + 1, CharClass::Word);
            }
            prepend(
                Lexed { start: i, end: e, value: word_lexeme(s.subrange(i, e)) },
                lex_from(s, e),
            )
        } else if c == '*' || c == '.' || c == ',' {
            prepend(Lexed { start: i, end: i + 1, value: punct_lexeme(c) }, lex_from(s, i + 1))
        } else if c == '"' {
            let e = i + 1 + run(s, i + 1, CharClass::NotQuote);
            if e >= s.len() {
                Err(LexError::UnterminatedString { pos: i as usize })
            } else {
                prepend(
                    Lexed { start: i, end: e + 1, value: Lexeme::Str(s.subrange(i + 1, e)) },
                    lex_from(s, e + 1),
                )
            }
        } else {
            Err(LexError::Unsupported { ch: c, pos: i as usize })
        }
    }
}

/// The tokens of the whole text `s`.
pub open spec fn lex(s: Seq<char>) -> Result<Seq<Lexed>, LexError> {
    lex_from(s, 0)
}

/// The tokens `ts` are the model tokens `ls`: same positions, same values.
pub open spec fn tokens_agree(ts: Seq<Token>, ls: Seq<Lexed>) -> bool {
    &&& ts.len() == ls.len()
    &&& forall|k: int|
        0 <= k < ts.len() ==> (#[trigger] ts[k]).pos == ls[k].start && ts[k].value@ == ls[k].value
}

/// `pre` put in front of the tokens of `r`, or the error of `r`.
pub open spec fn prepend_all(pre: Seq<Lexed>, r: Result<Seq<Lexed>, LexError>) -> Result<Seq<Lexed>, LexError> {
    match r {
        Ok(ts) => Ok(pre + ts),
        Err(e) => Err(e),
    }
}

proof fn lemma_prepend_step(pre: Seq<Lexed>, t: Lexed, r: Result<Seq<Lexed>, LexError>)
    ensures
        prepend_all(pre, prepend(t, r)) == prepend_all(pre.push(t), r),
{
    if let Ok(ts) = r {
        assert(pre + (seq![t] + ts) =~= pre.push(t) + ts);
    }
}

/// Relies on `String::push`: the character is appended at the end.
#[verifier::external_body]
fn push_char(s: &mut String, c: char)
    ensures
        final(s)@ == old(s)@.push(c),
{
    s.push(c);
}

/// The characters of `text`, one per Unicode scalar value.
fn chars_of(text: &str) -> (r: Vec<char>)
    ensures
        r@ == text@,
{
    let mut r: Vec<char> = Vec::new();
    for c in it: text.chars()
        invariant
            r@ == it.seq().take(it.index()),
    {
        r.push(c);
    }
    r
}

/// Splits a text into tokens.
pub struct Tokenizer {
    text: String,
}

impl View for Tokenizer {
    type V = Seq<char>;

    closed spec fn view(&self) -> Seq<char> {
        self.text@
    }
}

impl Tokenizer {
    pub fn new(str: &str) -> (r: Tokenizer)
        ensures
            r@ == str@,
    {
        Tokenizer { text: str.to_owned() }
    }

    /// The tokens of the text, in order, or the first lexical error in it.
    pub fn tokenize(&self) -> (r: Result<Vec<Token>, LexError>)
        ensures
            r is Ok <==> lex(self@) is Ok,
            r is Ok ==> tokens_agree(r->Ok_0@, lex(self@)->Ok_0),
            r is Err ==> r->Err_0 == lex(self@)->Err_0,
    {
        let s = chars_of(self.text.as_str());
        let mut r: Vec<Token> = Vec::new();
        let mut i: usize = 0;
        let ghost mut done: Seq<Lexed> = Seq::empty();
        assert(done + Seq::<Lexed>::empty() =~= Seq::<Lexed>::empty());
        while i < s.len()
            invariant
                s@ == self@,
                i <= s.len(),
                tokens_agree(r@, done),
                lex(s@) == prepend_all(done, lex_from(s@, i as int)),
            decreases s.len() - i,
        {
            let c = s[i];
            let pos = i;
            if c == ' ' {
                self.skip_whitespaces(&s, &mut i);
            } else if '0' as u32 <= c as u32 && c as u32 <= '9' as u32 {
                match self.take_number(&s, &mut i) {
                    Some(n) => {
                        let ghost t = Lexed { start: pos as int, end: i as int, value: Lexeme::Number(n as int) };
                        proof {
                            lemma_prepend_step(done, t, lex_from(s@, i as int));
                            done = done.push(t);
                        }
                        r.push(Token { pos, value: TokenValue::Number(n) });
                    },
                    None => {
                        return Err(LexError::NumberOutOfRange { pos });
                    },
                }
            } else if is_idnt(c) {
                let w = self.take_word(&s, &mut i);
                let value = match is_keyword(&w) {
                    Some(kw) => TokenValue::Keyword(kw),
                    None => TokenValue::Ident(w),
                };
                let ghost t = Lexed { start: pos as int, end: i as int, value: value@ };
                proof {
                    lemma_prepend_step(done, t, lex_from(s@, i as int));
                    done = done.push(t);
                }
                r.push(Token { pos, value });
            } else if c == '*' || c == '.' || c == ',' {
                let value = if c == '*' {
                    TokenValue::Asterisk
                } else if c == '.' {
                    TokenValue::Period
                } else {
                    TokenValue::Comma
                };
                i = i + 1;
                let ghost t = Lexed { start: pos as int, end: i as int, value: value@ };
                proof {
                    lemma_prepend_step(done, t, lex_from(s@, i as int));
                    done = done.push(t);
                }
                r.push(Token { pos, value });
            } else if c == '"' {
                match self.take_string(&s, &mut i) {
                    Some(body) => {
                        let ghost t = Lexed { start: pos as int, end: i as int, value: Lexeme::Str(body@) };
                        proof {
                            lemma_prepend_step(done, t, lex_from(s@, i as int));
                            done = done.push(t);
                        }
                        r.push(Token { pos, value: TokenValue::String(body) });
                    },
                    None => {
                        return Err(LexError::UnterminatedString { pos });
                    },
                }
            } else {
                return Err(LexError::Unsupported { ch: c, pos });
            }
        }
        assert(done + Seq::<Lexed>::empty() =~= done);
        Ok(r)
    }

    /// Moves `i` past the run of spaces that starts there.
    fn skip_whitespaces(&self, s: &Vec<char>, i: &mut usize)
        requires
            *old(i) <= s.len(),
        ensures
            *final(i) == *old(i) + run(s@, *old(i) as int, CharClass::Space),
            *final(i) <= s.len(),
    {
        let ghost start = *i as int;
        while *i < s.len() && s[*i] == ' '
            invariant
                start <= *i <= s.len(),
                run(s@, start, CharClass::Space) == (*i - start) + run(s@, *i as int, CharClass::Space),
            decreases s.len() - *i,
        {
            *i = *i + 1;
        }
    }

    /// Reads the run of letters and underscores that starts at `i`.
    fn take_word(&self, s: &Vec<char>, i: &mut usize) -> (r: String)
        requires
            *old(i) <= s.len(),
        ensures
            *final(i) == *old(i) + run(s@, *old(i) as int, CharClass::Word),
            *final(i) <= s.len(),
            r@ == s@.subrange(*old(i) as int, *final(i) as int),
    {
        let ghost start = *i as int;
        let mut r = String::new();
        while *i < s.len() && is_idnt(s[*i])
            invariant
                start <= *i <= s.len(),
                run(s@, start, CharClass::Word) == (*i - start) + run(s@, *i as int, CharClass::Word),
                r@ == s@.subrange(start, *i as int),
            decreases s.len() - *i,
        {
            push_char(&mut r, s[*i]);
            *i = *i + 1;
            assert(r@ =~= s@.subrange(start, *i as int));
        }
        r
    }

    /// Reads the run of digits that starts at `i`, and its value where it fits in an `i32`.
    fn take_number(&self, s: &Vec<char>, i: &mut usize) -> (r: Option<i32>)
        requires
            *old(i) <= s.len(),
        ensures
            *final(i) == *old(i) + run(s@, *old(i) as int, CharClass::Digit),
            *final(i) <= s.len(),
            r is Some <==> digits_value(s@.subrange(*old(i) as int, *final(i) as int)) <= i32::MAX,
            r is Some ==> r->0 as int == digits_value(s@.subrange(*old(i) as int, *final(i) as int)),
    {
        let ghost start = *i as int;
        let mut n: i32 = 0;
        let mut fits = true;
        assert(s@.subrange(start, start) =~= Seq::<char>::empty());
        while *i < s.len() && '0' as u32 <= s[*i] as u32 && s[*i] as u32 <= '9' as u32
            invariant
                start <= *i <= s.len(),
                run(s@, start, CharClass::Digit) == (*i - start) + run(s@, *i as int, CharClass::Digit),
                digits_value(s@.subrange(start, *i as int)) >= 0,
                fits ==> n as int == digits_value(s@.subrange(start, *i as int)),
                !fits ==> digits_value(s@.subrange(start, *i as int)) > i32::MAX,
            decreases s.len() - *i,
        {
            let d = s[*i];
            let ghost before = s@.subrange(start, *i as int);
            *i = *i + 1;
            assert(s@.subrange(start, *i as int).drop_last() =~= before);
            if fits {
                let m: i64 = n as i64 * 10 + (d as u32 - '0' as u32) as i64;
                if m > i32::MAX as i64 {
                    fits = false;
                } else {
                    n = m as i32;
                }
            }
        }
        if fits {
            Some(n)
        } else {
            None
        }
    }

    /// Reads a string literal whose opening quote is at `i`: its contents, up
    /// to the closing quote, or `None` where no closing quote follows.
    fn take_string(&self, s: &Vec<char>, i: &mut usize) -> (r: Option<String>)
        requires
            *old(i) < s.len(),
        ensures
            ({
                let e = *old(i) + 1 + run(s@, *old(i) + 1, CharClass::NotQuote);
                if e >= s.len() {
                    r is None
                } else {
                    r is Some && r->0@ == s@.subrange(*old(i) + 1, e) && *final(i) == e + 1
                }
            }),
    {
        *i = *i + 1;
        let ghost start = *i as int;
        let mut r = String::new();
        while *i < s.len() && s[*i] != '"'
            invariant
                start <= *i <= s.len(),
                run(s@, start, CharClass::NotQuote) == (*i - start) + run(s@, *i as int, CharClass::NotQuote),
                r@ == s@.subrange(start, *i as int),
            decreases s.len() - *i,
        {
            push_char(&mut r, s[*i]);
            *i = *i + 1;
            assert(r@ =~= s@.subrange(start, *i as int));
        }
        if *i < s.len() {
            *i = *i + 1;
            Some(r)
        } else {
            None
        }
    }
}

/// Whether `c` may stand in a word: an ASCII letter or an underscore.
fn is_idnt(c: char) -> (r: bool)
    ensures
        r == is_word_char(c),
{
    let n = c as u32;
    ('A' as u32 <= n && n <= 'Z' as u32) || ('a' as u32 <= n && n <= 'z' as u32) || c == '_'
}

/// Whether `w` spells the lower-case word `kw` up to the case of ASCII letters.
fn same_word(w: &Vec<char>, kw: &Vec<char>) -> (r: bool)
    ensures
        r == matches_ignoring_case(w@, kw@),
{
    if w.len() != kw.len() {
        return false;
    }
    let mut j: usize = 0;
    while j < w.len()
        invariant
            w.len() == kw.len(),
            j <= w.len(),
            forall|m: int| 0 <= m < j ==> fold_case(#[trigger] w@[m]) == kw@[m] as u32,
        decreases w.len() - j,
    {
        let c = w[j];
        let n = c as u32;
        let f: u32 = if 'A' as u32 <= n && n <= 'Z' as u32 {
            n + 32
        } else {
            n
        };
        if f != kw[j] as u32 {
            return false;
        }
        j = j + 1;
    }
    true
}

/// The keyword that the word `w` spells, whatever the case of its letters.
fn is_keyword(w: &String) -> (r: Option<Keyword>)
    ensures
        r == keyword_of(w@),
{
    let cs = chars_of(w.as_str());
    let select = vec!['s', 'e', 'l', 'e', 'c', 't'];
    let from = vec!['f', 'r', 'o', 'm'];
    assert(select@ =~= select_word());
    assert(from@ =~= from_word());
    if same_word(&cs, &select) {
        Some(Keyword::SELECT)
    } else if same_word(&cs, &from) {
        Some(Keyword::FROM)
    } else {
        None
    }
}

} // verus!
