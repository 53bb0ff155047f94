//! Lexical analysis: source text to tokens.
//!
//! The alphabet is ASCII. White space separates tokens and is otherwise
//! dropped; the eight symbols are tokens by themselves; a word is the longest
//! run of letters, digits and underscores that starts with a letter or an
//! underscore; a number is the longest run of decimal digits. Any other
//! character, and a number that does not fit in `i32`, stops the scan.

use vstd::prelude::*;
use vstd::std_specs::iter::IteratorSpec;

verus! {

/// White space: blank, tab, line feed, vertical tab, form feed, carriage return.
pub open spec fn space(c: char) -> bool {
    c == ' ' || c == '\t' || c == '\n' || c == '\x0b' || c == '\x0c' || c == '\r'
}

/// The characters that are tokens by themselves.
pub open spec fn symbol(c: char) -> bool {
    c == '+' || c == '-' || c == '*' || c == '/' || c == '(' || c == ')' || c == ';' || c == '='
}

/// The ASCII letters.
pub open spec fn letter(c: char) -> bool {
    ('a' <= c && c <= 'z') || ('A' <= c && c <= 'Z')
}

/// The decimal digits.
pub open spec fn digit(c: char) -> bool {
    '0' <= c && c <= '9'
}

/// What a word may start with.
pub open spec fn word_start(c: char) -> bool {
    letter(c) || c == '_'
}

/// What a word may go on with.
pub open spec fn word_part(c: char) -> bool {
    letter(c) || digit(c) || c == '_'
}

/// The number of characters from `from` on that may go on a word.
pub open spec fn word_run(s: Seq<char>, from: int) -> nat
    decreases s.len() - from,
{
    if 0 <= from < s.len() && word_part(s[from]) {
        1 + word_run(s, from + 1)
    } else {
        0
    }
}

/// The number of decimal digits from `from` on.
pub open spec fn digit_run(s: Seq<char>, from: int) -> nat
    decreases s.len() - from,
{
    if 0 <= from < s.len() && digit(s[from]) {
        1 + digit_run(s, from + 1)
    } else {
        0
    }
}

/// The number that a decimal digit stands for.
pub open spec fn digit_value(c: char) -> int {
    c as int - '0' as int
}

/// The number that a run of decimal digits stands for.
pub open spec fn decimal_value(digits: Seq<char>) -> int
    decreases digits.len(),
{
    if digits.len() == 0 {
        0
    } else {
        decimal_value(digits.drop_last()) * 10 + digit_value(digits.last())
    }
}

/// The value of a run of digits as a token holds it, where it fits.
pub open spec fn number(digits: Seq<char>) -> Option<i32> {
    if decimal_value(digits) <= i32::MAX {
        Some(decimal_value(digits) as i32)
    } else {
        None
    }
}

/// The one reserved word.
pub open spec fn keyword() -> Seq<char> {
    seq!['r', 'e', 't', 'u', 'r', 'n']
}

/// The text that the end of the input carries.
pub open spec fn end_text() -> Seq<char> {
    seq!['E', 'O', 'F']
}

/// What kind of token stands at a place, with what it holds.
#[derive(Debug, Clone, PartialEq, Eq)]
pub enum TokenType {
    Number(i32),
    Symbol(char),
    Identifier(String),
    ReturnKeyword,
    EndOfInput,
}

/// A token: its kind and the source text it was read from.
#[derive(Debug, Clone, PartialEq, Eq)]
pub struct Token {
    pub ty: TokenType,
    pub input: String,
}

/// A `TokenType` in specifications.
pub enum Kind {
    Number(i32),
    Symbol(char),
    Identifier(Seq<char>),
    ReturnKeyword,
    EndOfInput,
}

/// A `Token` in specifications.
pub struct Lexeme {
    pub kind: Kind,
    pub text: Seq<char>,
}

impl View for TokenType {
    type V = Kind;

    open spec fn view(&self) -> Kind {
        match self {
            TokenType::Number(v) => Kind::Number(*v),
            TokenType::Symbol(c) => Kind::Symbol(*c),
            TokenType::Identifier(name) => Kind::Identifier(name@),
            TokenType::ReturnKeyword => Kind::ReturnKeyword,
            TokenType::EndOfInput => Kind::EndOfInput,
        }
    }
}

impl View for Token {
    type V = Lexeme;

    open spec fn view(&self) -> Lexeme {
        Lexeme { kind: self.ty@, text: self.input@ }
    }
}

/// The tokens of a vector in specifications.
pub open spec fn lexemes(tokens: Seq<Token>) -> Seq<Lexeme> {
    Seq::new(tokens.len(), |i: int| tokens[i]@)
}

impl Lexeme {
    /// The token that ends every token sequence.
    pub open spec fn end() -> Lexeme {
        Lexeme { kind: Kind::EndOfInput, text: end_text() }
    }

    /// The text is what the scanner reads a token of this kind from.
    pub open spec fn wf(self) -> bool {
        match self.kind {
            Kind::Number(v) => {
                &&& self.text.len() > 0
                &&& forall|i: int| 0 <= i < self.text.len() ==> digit(#[trigger] self.text[i])
                &&& decimal_value(self.text) == v
            },
            Kind::Symbol(c) => symbol(c) && self.text == seq![c],
            Kind::Identifier(name) => {
                &&& name == self.text
                &&& name.len() > 0
                &&& word_start(name[0])
                &&& forall|i: int| 0 <= i < name.len() ==> word_part(#[trigger] name[i])
                &&& name != keyword()
            },
            Kind::ReturnKeyword => self.text == keyword(),
            Kind::EndOfInput => self.text == end_text(),
        }
    }
}

/// Why the scan stopped: the character from which no token can be read, and
/// the number of characters before it.
#[derive(Debug, Clone, Copy, PartialEq, Eq, Structural)]
pub struct LexError {
    pub character: char,
    pub position: usize,
}

/// The token that starts at `pos` and its length in characters, where one starts there.
pub open spec fn lexeme_at(s: Seq<char>, pos: int) -> Option<(Lexeme, nat)>
    recommends
        0 <= pos < s.len(),
{
    let c = s[pos];
    if symbol(c) {
        Some((Lexeme { kind: Kind::Symbol(c), text: seq![c] }, 1))
    } else if word_start(c) {
        let n = 1 + word_run(s, pos + 1);
        let text = s.subrange(pos, pos + n);
        if text == keyword() {
            Some((Lexeme { kind: Kind::ReturnKeyword, text }, n))
        } else {
            Some((Lexeme { kind: Kind::Identifier(text), text }, n))
        }
    } else if digit(c) {
        let n = 1 + digit_run(s, pos + 1);
        let text = s.subrange(pos, pos + n);
        match number(text) {
            Some(v) => Some((Lexeme { kind: Kind::Number(v), text }, n)),
            None => None,
        }
    } else {
        None
    }
}

/// How much of a text of length `len` is left from `pos` on.
pub open spec fn left(len: nat, pos: int) -> nat {
    if pos <= 0 {
        len
    } else if pos <= len {
        (len - pos) as nat
    } else {
        0
    }
}

/// `front` put before what `back` holds; the failure of `back` stays.
pub open spec fn after(front: Seq<Lexeme>, back: Result<Seq<Lexeme>, LexError>) -> Result<
    Seq<Lexeme>,
    LexError,
> {
    match back {
        Ok(rest) => Ok(front + rest),
        Err(e) => Err(e),
    }
}

/// The tokens of `s` from `pos` on, ended by the end of input, or the first
/// place from which no token can be read.
pub open spec fn lex(s: Seq<char>, pos: int) -> Result<Seq<Lexeme>, LexError>
    decreases left(s.len(), pos),
{
    if !(0 <= pos < s.len()) {
        Ok(seq![Lexeme::end()])
    } else if space(s[pos]) {
        lex(s, pos + 1)
    } else {
        match lexeme_at(s, pos) {
            None => Err(LexError { character: s[pos], position: pos as usize }),
            Some((lexeme, n)) => after(seq![lexeme], lex(s, pos + n)),
        }
    }
}

impl Token {
    /// A number token.
    pub fn with_val(val: i32, input: String) -> (t: Token)
        ensures
            t@ == (Lexeme { kind: Kind::Number(val), text: input@ }),
    {
        Token { ty: TokenType::Number(val), input }
    }

    /// A symbol token.
    pub fn with_symbol(sym: char, input: String) -> (t: Token)
        ensures
            t@ == (Lexeme { kind: Kind::Symbol(sym), text: input@ }),
    {
        Token { ty: TokenType::Symbol(sym), input }
    }

    /// The token of the reserved word.
    pub fn with_return(input: String) -> (t: Token)
        ensures
            t@ == (Lexeme { kind: Kind::ReturnKeyword, text: input@ }),
    {
        Token { ty: TokenType::ReturnKeyword, input }
    }

    /// An identifier token.
    pub fn with_ident(name: String, input: String) -> (t: Token)
        ensures
            t@ == (Lexeme { kind: Kind::Identifier(name@), text: input@ }),
    {
        Token { ty: TokenType::Identifier(name), input }
    }

    /// The token that ends a token sequence.
    pub fn eof(input: String) -> (t: Token)
        ensures
            t@ == (Lexeme { kind: Kind::EndOfInput, text: input@ }),
    {
        Token { ty: TokenType::EndOfInput, input }
    }
}

/// Whether `c` is white space.
pub fn is_space(c: char) -> (b: bool)
    ensures
        b == space(c),
{
    c == ' ' || c == '\t' || c == '\n' || c == '\x0b' || c == '\x0c' || c == '\r'
}

/// Whether `c` is a token by itself.
pub fn is_symbol(c: char) -> (b: bool)
    ensures
        b == symbol(c),
{
    c == '+' || c == '-' || c == '*' || c == '/' || c == '(' || c == ')' || c == ';' || c == '='
}

/// Whether `c` is a decimal digit.
pub fn is_digit(c: char) -> (b: bool)
    ensures
        b == digit(c),
{
    '0' <= c && c <= '9'
}

/// Whether a word may start with `c`.
pub fn is_word_start(c: char) -> (b: bool)
    ensures
        b == word_start(c),
{
    ('a' <= c && c <= 'z') || ('A' <= c && c <= 'Z') || c == '_'
}

/// Whether a word may go on with `c`.
pub fn is_word_part(c: char) -> (b: bool)
    ensures
        b == word_part(c),
{
    is_word_start(c) || is_digit(c)
}

/// A run of `n` word characters that ends at a character of another kind,
/// or at the end of the text, is the whole run.
proof fn lemma_word_run(s: Seq<char>, from: int, n: int)
    requires
        0 <= from,
        0 <= n,
        from + n <= s.len(),
        forall|i: int| from <= i < from + n ==> word_part(#[trigger] s[i]),
        from + n == s.len() || !word_part(s[from + n]),
    ensures
        word_run(s, from) == n,
    decreases n,
{
    if n > 0 {
        lemma_word_run(s, from + 1, n - 1);
    }
}

/// A run of word characters is at least as long as any stretch of them from its start.
proof fn lemma_word_run_at_least(s: Seq<char>, from: int, n: int)
    requires
        0 <= from,
        0 <= n,
        from + n <= s.len(),
        forall|i: int| from <= i < from + n ==> word_part(#[trigger] s[i]),
    ensures
        word_run(s, from) >= n,
    decreases n,
{
    if n > 0 {
        lemma_word_run_at_least(s, from + 1, n - 1);
    }
}

/// A run of word characters lies inside the text and holds nothing else.
proof fn lemma_word_run_inside(s: Seq<char>, from: int)
    requires
        0 <= from <= s.len(),
    ensures
        from + word_run(s, from) <= s.len(),
        forall|i: int| from <= i < from + word_run(s, from) ==> word_part(#[trigger] s[i]),
    decreases s.len() - from,
{
    if from < s.len() && word_part(s[from]) {
        lemma_word_run_inside(s, from + 1);
    }
}

/// A run of digits lies inside the text and holds nothing else.
proof fn lemma_digit_run_inside(s: Seq<char>, from: int)
    requires
        0 <= from <= s.len(),
    ensures
        from + digit_run(s, from) <= s.len(),
        forall|i: int| from <= i < from + digit_run(s, from) ==> digit(#[trigger] s[i]),
    decreases s.len() - from,
{
    if from < s.len() && digit(s[from]) {
        lemma_digit_run_inside(s, from + 1);
    }
}

/// A run ends where the text ends or a character of another kind stands.
proof fn lemma_run_ends(s: Seq<char>, from: int)
    requires
        0 <= from <= s.len(),
    ensures
        from + word_run(s, from) == s.len() || !word_part(s[from + word_run(s, from)]),
        from + digit_run(s, from) == s.len() || !digit(s[from + digit_run(s, from)]),
    decreases s.len() - from,
{
    if from < s.len() {
        lemma_run_ends(s, from + 1);
    }
}

/// Tokens are as long as they can be: no word character follows a word or
/// the reserved word, and no digit follows a number.
pub proof fn lemma_longest_match(s: Seq<char>, pos: int)
    requires
        0 <= pos < s.len(),
        lexeme_at(s, pos) is Some,
    ensures
        ({
            let (lexeme, n) = lexeme_at(s, pos)->Some_0;
            &&& lexeme.kind is Identifier || lexeme.kind is ReturnKeyword ==> pos + n == s.len()
                || !word_part(s[pos + n])
            &&& lexeme.kind is Number ==> pos + n == s.len() || !digit(s[pos + n])
        }),
{
    lemma_run_ends(s, pos + 1);
}

/// A token that is read from the text lies inside the text, is no end of
/// input, and has the text that belongs to its kind.
pub proof fn lemma_lexeme_at(s: Seq<char>, pos: int)
    requires
        0 <= pos < s.len(),
        lexeme_at(s, pos) is Some,
    ensures
        lexeme_at(s, pos)->Some_0.0.wf(),
        !(lexeme_at(s, pos)->Some_0.0.kind is EndOfInput),
        lexeme_at(s, pos)->Some_0.1 >= 1,
        pos + lexeme_at(s, pos)->Some_0.1 <= s.len(),
        lexeme_at(s, pos)->Some_0.0.text =~= s.subrange(pos, pos + lexeme_at(s, pos)->Some_0.1),
{
    let c = s[pos];
    let (lexeme, n) = lexeme_at(s, pos)->Some_0;
    let text = s.subrange(pos, pos + n);
    if symbol(c) {
    } else if word_start(c) {
        lemma_word_run_inside(s, pos + 1);
        assert forall|i: int| 0 <= i < text.len() implies word_part(#[trigger] text[i]) by {
            assert(text[i] == s[pos + i]);
        }
        assert(text[0] == c);
    } else {
        lemma_digit_run_inside(s, pos + 1);
        assert forall|i: int| 0 <= i < text.len() implies digit(#[trigger] text[i]) by {
            assert(text[i] == s[pos + i]);
        }
        lemma_decimal_value_bounds(text);
    }
}

/// A token sequence that is read from a text ends with the end of input,
/// holds no other end of input, and each of its tokens has the text that
/// belongs to its kind.
pub proof fn lemma_lex(s: Seq<char>, pos: int)
    requires
        lex(s, pos) is Ok,
    ensures
        lex(s, pos)->Ok_0.len() >= 1,
        lex(s, pos)->Ok_0.last() == Lexeme::end(),
        forall|i: int|
            0 <= i < lex(s, pos)->Ok_0.len() - 1 ==> !(#[trigger] lex(s, pos)->Ok_0[i].kind
                is EndOfInput),
        forall|i: int| 0 <= i < lex(s, pos)->Ok_0.len() ==> (#[trigger] lex(s, pos)->Ok_0[i]).wf(),
    decreases left(s.len(), pos),
{
    if !(0 <= pos < s.len()) {
    } else if space(s[pos]) {
        lemma_lex(s, pos + 1);
    } else {
        let (lexeme, n) = lexeme_at(s, pos)->Some_0;
        lemma_lexeme_at(s, pos);
        lemma_lex(s, pos + n);
        let rest = lex(s, pos + n)->Ok_0;
        let all = lex(s, pos)->Ok_0;
        assert(all == seq![lexeme] + rest);
        assert forall|i: int| 0 <= i < all.len() implies (#[trigger] all[i]).wf() by {
            if i > 0 {
                assert(all[i] == rest[i - 1]);
            }
        }
        assert forall|i: int| 0 <= i < all.len() - 1 implies !(#[trigger] all[i].kind
            is EndOfInput) by {
            if i > 0 {
                assert(all[i] == rest[i - 1]);
            }
        }
    }
}

/// The characters of `s` from `pos` on that are no white space.
pub open spec fn unspaced(s: Seq<char>, pos: int) -> Seq<char>
    decreases left(s.len(), pos),
{
    if !(0 <= pos < s.len()) {
        Seq::empty()
    } else if space(s[pos]) {
        unspaced(s, pos + 1)
    } else {
        seq![s[pos]] + unspaced(s, pos + 1)
    }
}

/// The texts of the tokens, one after the other.
pub open spec fn spelled(tokens: Seq<Lexeme>) -> Seq<char>
    decreases tokens.len(),
{
    if tokens.len() == 0 {
        Seq::empty()
    } else {
        tokens[0].text + spelled(tokens.drop_first())
    }
}

/// A stretch that holds no white space is kept as it is.
proof fn lemma_unspaced_stretch(s: Seq<char>, pos: int, n: nat)
    requires
        0 <= pos,
        pos + n <= s.len(),
        forall|i: int| pos <= i < pos + n ==> !space(#[trigger] s[i]),
    ensures
        unspaced(s, pos) == s.subrange(pos, pos + n) + unspaced(s, pos + n),
    decreases n,
{
    if n == 0 {
        assert(s.subrange(pos, pos) + unspaced(s, pos) =~= unspaced(s, pos));
    } else {
        lemma_unspaced_stretch(s, pos + 1, (n - 1) as nat);
        assert(seq![s[pos]] + (s.subrange(pos + 1, pos + n) + unspaced(s, pos + n)) =~= s.subrange(
            pos,
            pos + n,
        ) + unspaced(s, pos + n));
    }
}

/// Scanning loses nothing and adds nothing: the texts of the tokens before
/// the end of input, one after the other, are the text without its white
/// space.
pub proof fn lemma_lex_keeps_text(s: Seq<char>, pos: int)
    requires
        lex(s, pos) is Ok,
    ensures
        lex(s, pos)->Ok_0.len() >= 1,
        spelled(lex(s, pos)->Ok_0.drop_last()) == unspaced(s, pos),
    decreases left(s.len(), pos),
{
    lemma_lex(s, pos);
    if !(0 <= pos < s.len()) {
        assert(lex(s, pos)->Ok_0.drop_last() =~= Seq::<Lexeme>::empty());
    } else if space(s[pos]) {
        lemma_lex_keeps_text(s, pos + 1);
    } else {
        let (lexeme, n) = lexeme_at(s, pos)->Some_0;
        lemma_lexeme_at(s, pos);
        lemma_lex_keeps_text(s, pos + n);
        let rest = lex(s, pos + n)->Ok_0;
        let all = lex(s, pos)->Ok_0;
        assert(all == seq![lexeme] + rest);
        let front = all.drop_last();
        assert(front[0] == lexeme);
        assert(front.drop_first() =~= rest.drop_last());
        assert forall|i: int| pos <= i < pos + n implies !space(#[trigger] s[i]) by {
            assert(s[i] == lexeme.text[i - pos]);
        }
        lemma_unspaced_stretch(s, pos, n);
    }
}

/// Putting tokens in front is done one token after the other.
proof fn lemma_after_push(
    front: Seq<Lexeme>,
    lexeme: Lexeme,
    back: Result<Seq<Lexeme>, LexError>,
)
    ensures
        after(front, after(seq![lexeme], back)) == after(front.push(lexeme), back),
{
    if let Ok(rest) = back {
        assert(front + (seq![lexeme] + rest) =~= front.push(lexeme) + rest);
    }
}

/// A scanner over one source text. The cursor counts characters.
pub struct Tokenizer<'a> {
    input: &'a str,
    chars: Vec<char>,
    pos: usize,
}

impl<'a> Tokenizer<'a> {
    /// The cursor is inside the text or at its end.
    pub closed spec fn wf(&self) -> bool {
        &&& self.chars@ == self.input@
        &&& self.pos <= self.chars@.len()
    }

    /// The text that is scanned.
    pub closed spec fn source(&self) -> Seq<char> {
        self.chars@
    }

    /// The number of characters before the cursor.
    pub closed spec fn cursor(&self) -> int {
        self.pos as int
    }

    /// A scanner at the start of `input`.
    pub fn new(input: &'a str) -> (t: Self)
        ensures
            t.wf(),
            t.source() == input@,
            t.cursor() == 0,
    {
        let mut chars: Vec<char> = Vec::new();
        let mut rest = input.chars();
        loop
            invariant
                chars@ + rest.remaining() == input@,
                rest.decrease() is Some,
            ensures
                chars@ == input@,
            decreases rest.decrease()->0,
        {
            match rest.next() {
                Some(c) => {
                    chars.push(c);
                },
                None => {
                    break ;
                },
            }
        }
        Tokenizer { input, chars, pos: 0 }
    }

    /// Scans from the cursor to the end of the text. The tokens end with the
    /// end of input and the cursor rests at the end of the text; where the scan
    /// stops early, the cursor rests on the character it stopped at.
    pub fn tokenize(&mut self) -> (r: Result<Vec<Token>, LexError>)
        requires
            old(self).wf(),
        ensures
            final(self).wf(),
            final(self).source() == old(self).source(),
            match lex(old(self).source(), old(self).cursor()) {
                Ok(all) => r is Ok && lexemes(r->Ok_0@) == all && final(self).cursor()
                    == old(self).source().len(),
                Err(e) => r == Err::<Vec<Token>, LexError>(e) && final(self).cursor()
                    == e.position,
            },
            r matches Ok(tokens) ==> tokens@.len() > 0 && tokens@.last().ty is EndOfInput,
    {
        let mut tokens: Vec<Token> = Vec::new();
        let ghost src = self.source();
        let ghost whole = lex(src, self.cursor());
        proof {
            assert(lexemes(tokens@) =~= Seq::<Lexeme>::empty());
            if let Ok(rest) = whole {
                assert(Seq::<Lexeme>::empty() + rest =~= rest);
            }
        }
        loop
            invariant
                self.wf(),
                self.source() == src,
                src == old(self).source(),
                whole == lex(src, old(self).cursor()),
                whole == after(lexemes(tokens@), lex(src, self.cursor())),
            ensures
                self.cursor() == src.len(),
            decreases src.len() - self.cursor(),
        {
            let ghost before = lexemes(tokens@);
            let c = match self.take_char() {
                Some(c) => c,
                None => {
                    break ;
                },
            };

            if is_space(c) {
                self.inc_cursor(1);
                continue ;
            }
            match self.token(c) {
                Some(token) => {
                    tokens.push(token);
                    proof {
                        assert(lexemes(tokens@) =~= before.push(token@));
                        lemma_after_push(before, token@, lex(src, self.cursor()));
                    }
                },
                None => {
                    return Err(LexError { character: c, position: self.pos });
                },
            }
        }

        let ghost before = lexemes(tokens@);
        tokens.push(Token::eof("EOF".to_owned()));
        proof {
            reveal_strlit("EOF");
            assert("EOF"@ =~= end_text());
            assert(lexemes(tokens@) =~= before + seq![Lexeme::end()]);
        }
        Ok(tokens)
    }

    /// Reads the token that starts with `c` at the cursor and moves the cursor
    /// past it; where none starts there, the cursor stays.
    fn token(&mut self, c: char) -> (r: Option<Token>)
        requires
            old(self).wf(),
            old(self).cursor() < old(self).source().len(),
            c == old(self).source()[old(self).cursor()],
            !space(c),
        ensures
            final(self).wf(),
            final(self).source() == old(self).source(),
            match lexeme_at(old(self).source(), old(self).cursor()) {
                Some((lexeme, n)) => r is Some && r->Some_0@ == lexeme && final(self).cursor()
                    == old(self).cursor() + n,
                None => r is None && final(self).cursor() == old(self).cursor(),
            },
    {
        let ghost src = self.source();
        let ghost at = self.cursor();
        if is_symbol(c) {
            let text = self.take_chars(1).unwrap();
            assert(text@ =~= seq![c]);
            self.inc_cursor(1);
            return Some(Token::with_symbol(c, text));
        }
        let reserved = self.strncmp("return", 6);
        proof {
            reveal_strlit("return");
            assert("return"@ =~= keyword());
        }
        if reserved {
            let text = self.take_chars(6).unwrap();
            self.inc_cursor(6);
            let ends = match self.take_char() {
                Some(next) => !is_word_part(next),
                None => true,
            };
            proof {
                let word = src.subrange(at, at + 6);
                assert(word[0] == 'r' && word[1] == 'e' && word[2] == 't' && word[3] == 'u'
                    && word[4] == 'r' && word[5] == 'n');
                assert forall|i: int| at <= i < at + 6 implies word_part(#[trigger] src[i]) by {
                    assert(src[i] == word[i - at]);
                }
            }
            if ends {
                proof {
                    lemma_word_run(src, at + 1, 5);
                }
                return Some(Token::with_return(text));
            } else {
                assert(at + 6 < src.len() && word_part(src[at + 6]));
                self.dec_cursor(6);
            }
        }
        if is_word_start(c) {
            let len = self.word();
            self.dec_cursor(len);
            let text = self.take_chars(len).unwrap();
            self.inc_cursor(len);
            proof {
                let word = src.subrange(at, at + len);
                if word == keyword() {
                    assert(word.len() == 6);
                    assert(reserved);
                    lemma_word_run_at_least(src, at + 1, 6);
                }
            }
            return Some(Token::with_ident(text.clone(), text));
        }
        if is_digit(c) {
            let start = self.pos;
            let num = self.strtol();
            let len = self.pos - start;
            match num {
                Some(val) => {
                    self.dec_cursor(len);
                    let text = self.take_chars(len).unwrap();
                    self.inc_cursor(len);
                    return Some(Token::with_val(val, text));
                },
                None => {
                    self.dec_cursor(len);
                    return None;
                },
            }
        }
        None
    }

    /// Moves the cursor past the word that starts at it, and gives its length.
    fn word(&mut self) -> (len: usize)
        requires
            old(self).wf(),
            old(self).cursor() < old(self).source().len(),
        ensures
            final(self).wf(),
            final(self).source() == old(self).source(),
            len == 1 + word_run(old(self).source(), old(self).cursor() + 1),
            final(self).cursor() == old(self).cursor() + len,
    {
        let ghost src = self.source();
        let ghost at = self.cursor();
        let mut len: usize = 1;
        self.inc_cursor(1);
        loop
            invariant
                self.wf(),
                self.source() == src,
                0 <= at,
                self.cursor() == at + len,
                len >= 1,
                word_run(src, at + 1) == len - 1 + word_run(src, self.cursor()),
            ensures
                word_run(src, self.cursor()) == 0,
            decreases src.len() - self.cursor(),
        {
            match self.take_char() {
                Some(next) => {
                    if !is_word_part(next) {
                        break ;
                    }
                    self.inc_cursor(1);
                    len += 1;
                },
                None => {
                    break ;
                },
            }
        }
        len
    }

    /// The character at the cursor.
    fn take_char(&self) -> (c: Option<char>)
        requires
            self.wf(),
        ensures
            c == (if self.cursor() < self.source().len() {
                Some(self.source()[self.cursor()])
            } else {
                None
            }),
    {
        if self.pos < self.chars.len() {
            Some(self.chars[self.pos])
        } else {
            None
        }
    }

    /// The next `n` characters from the cursor on, where there are that many.
    fn take_chars(&self, n: usize) -> (r: Option<String>)
        requires
            self.wf(),
        ensures
            match r {
                Some(text) => self.cursor() + n <= self.source().len() && text@
                    == self.source().subrange(self.cursor(), self.cursor() + n),
                None => self.cursor() + n > self.source().len(),
            },
    {
        if n > self.chars.len() - self.pos {
            return None;
        }
        Some(self.input.substring_char(self.pos, self.pos + n).to_owned())
    }

    /// Whether the next `n` characters are there and spell `word`.
    fn strncmp(&self, word: &str, n: usize) -> (b: bool)
        requires
            self.wf(),
        ensures
            b == (self.cursor() + n <= self.source().len() && self.source().subrange(
                self.cursor(),
                self.cursor() + n,
            ) == word@),
    {
        match self.take_chars(n) {
            None => false,
            Some(text) => text == word.to_owned(),
        }
    }

    /// Moves the cursor `n` characters on.
    fn inc_cursor(&mut self, n: usize)
        requires
            old(self).wf(),
            old(self).cursor() + n <= old(self).source().len(),
        ensures
            final(self).wf(),
            final(self).source() == old(self).source(),
            final(self).cursor() == old(self).cursor() + n,
    {
        assert(self.chars@.len() == self.chars.len());
        self.pos = self.pos + n;
    }

    /// Moves the cursor `n` characters back.
    fn dec_cursor(&mut self, n: usize)
        requires
            old(self).wf(),
            n <= old(self).cursor(),
        ensures
            final(self).wf(),
            final(self).source() == old(self).source(),
            final(self).cursor() == old(self).cursor() - n,
    {
        self.pos = self.pos - n;
    }

    /// Reads the digits at the cursor as a number and moves the cursor past them.
    fn strtol(&mut self) -> (r: Option<i32>)
        requires
            old(self).wf(),
        ensures
            final(self).wf(),
            final(self).source() == old(self).source(),
            final(self).cursor() == old(self).cursor() + digit_run(
                old(self).source(),
                old(self).cursor(),
            ),
            r == number(old(self).source().subrange(old(self).cursor(), final(self).cursor())),
    {
        let start = self.pos;
        let mut value: Option<i32> = Some(0);
        assert(self.source().subrange(start as int, start as int) =~= Seq::<char>::empty());
        loop
            invariant
                self.wf(),
                self.source() == old(self).source(),
                start == old(self).cursor(),
                start <= self.cursor(),
                forall|i: int| start <= i < self.cursor() ==> digit(#[trigger] self.source()[i]),
                digit_run(self.source(), start as int) == self.cursor() - start + digit_run(
                    self.source(),
                    self.cursor(),
                ),
                value == number(self.source().subrange(start as int, self.cursor())),
                value matches Some(v) ==> v >= 0,
            ensures
                digit_run(self.source(), self.cursor()) == 0,
            decreases self.source().len() - self.cursor(),
        {
            let c = match self.take_char() {
                Some(c) => c,
                None => {
                    break ;
                },
            };
            if !is_digit(c) {
                break ;
            }
            let d: i32 = (c as u32 - '0' as u32) as i32;
            proof {
                let before = self.source().subrange(start as int, self.cursor());
                let now = self.source().subrange(start as int, self.cursor() + 1);
                assert(now.drop_last() =~= before);
                assert(now.last() == c);
                assert(decimal_value(now) == decimal_value(before) * 10 + d);
                lemma_decimal_value_bounds(before);
            }
            value =
            match value {
                Some(v) => if v <= (i32::MAX - d) / 10 {
                    Some(v * 10 + d)
                } else {
                    None
                },
                None => None,
            };
            self.inc_cursor(1);
        }
        value
    }
}

/// A run of digits stands for a number that is not negative.
proof fn lemma_decimal_value_bounds(digits: Seq<char>)
    requires
        forall|i: int| 0 <= i < digits.len() ==> digit(#[trigger] digits[i]),
    ensures
        0 <= decimal_value(digits),
    decreases digits.len(),
{
    if digits.len() > 0 {
        lemma_decimal_value_bounds(digits.drop_last());
    }
}

} // verus!
