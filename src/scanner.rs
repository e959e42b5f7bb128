//! The scanner: turns the text of a document into a flat stream of tokens,
//! each with the exact text it covers and the line on which it starts.
use crate::pattern::{
    all_stars, alphabetic, char_is_alphabetic, char_is_numeric, enclosed_by, full_match, link_shape,
    numeric, regex_match, BOLD, DATE_PREFIX, DURATION, ITALIC, LINK, STAR_RUN, STRIKETHROUGH,
    TIMESTAMP, UNDERLINE,
};
use vstd::prelude::*;
use vstd::string::*;

verus! {

/// The closed set of token kinds.
#[derive(Clone, Copy, Debug, PartialEq, Eq, Structural)]
pub enum TokenType {
    /// A run of `*` only: a heading marker whose length is its depth.
    Asterisk,
    /// Plain text.
    String,
    Title,
    Author,
    InitiationDate,
    LogBook,
    Bold,
    Italic,
    Underline,
    Strikethrough,
    Link,
    Clock,
    End,
    Duration,
    Date,
    Timestamp,
    Scheduled,
    Deadline,
    Todo,
    Done,
    /// The end of the input; every stream ends with exactly one.
    EOF,
}

#[derive(Clone, Debug, PartialEq, Eq)]
pub struct Token {
    pub token_type: TokenType,
    /// The exact text the token covers.
    pub lexeme: String,
    /// The 1-based line on which the token starts.
    pub line: usize,
}

/// What a token is, in mathematical terms.
pub ghost struct TokenModel {
    pub kind: TokenType,
    pub text: Seq<char>,
    pub line: int,
}

impl View for Token {
    type V = TokenModel;

    open spec fn view(&self) -> TokenModel {
        TokenModel { kind: self.token_type, text: self.lexeme@, line: self.line as int }
    }
}

impl Token {
    /// A copy of the token.
    pub fn duplicate(&self) -> (r: Token)
        ensures
            r@ == self@,
    {
        Token { token_type: self.token_type, lexeme: self.lexeme.clone(), line: self.line }
    }
}

pub open spec fn tokens_view(ts: Seq<Token>) -> Seq<TokenModel> {
    ts.map_values(|t: Token| t@)
}

pub broadcast proof fn lemma_tokens_view_push(ts: Seq<Token>, t: Token)
    ensures
        #[trigger] tokens_view(ts.push(t)) == tokens_view(ts).push(t@),
{
    assert(tokens_view(ts.push(t)) =~= tokens_view(ts).push(t@));
}

pub broadcast proof fn lemma_tokens_view_index(ts: Seq<Token>, i: int)
    requires
        0 <= i < ts.len(),
    ensures
        #[trigger] tokens_view(ts)[i] == ts[i]@,
{
}

pub broadcast proof fn lemma_tokens_view_len(ts: Seq<Token>)
    ensures
        #[trigger] tokens_view(ts).len() == ts.len(),
{
}

/// The one way scanning fails: a character that starts no token.
#[derive(Clone, Copy, Debug, PartialEq, Eq, Structural)]
pub enum ScanError {
    UnrecognizedCharacter { line: usize, character: char },
}

impl ScanError {
    /// The line and the character of the failure.
    pub open spec fn model(self) -> (int, char) {
        match self {
            ScanError::UnrecognizedCharacter { line, character } => (line as int, character),
        }
    }

}

// ---------------------------------------------------------------------------
// The model of scanning.
/// Characters skipped between tokens.
pub open spec fn is_blank(c: char) -> bool {
    c == ' ' || c == '\r' || c == '\t' || c == '\n'
}

pub open spec fn is_ascii_digit(c: char) -> bool {
    c == '0' || c == '1' || c == '2' || c == '3' || c == '4' || c == '5' || c == '6' || c == '7'
        || c == '8' || c == '9'
}

/// Letters, and the punctuation that may stand inside a word.
pub open spec fn is_alpha_spec(c: char) -> bool {
    alphabetic(c) || c == ':' || c == '#' || c == '+' || c == '*' || c == '_' || c == '-' || c
        == '.' || c == ',' || c == '/' || c == '=' || c == '>' || c == '~' || c == '^' || c == '?'
        || c == '!' || c == '\'' || c == '(' || c == ')'
}

/// The classes of characters that a run may be made of.
#[derive(Clone, Copy, Debug, PartialEq, Eq, Structural)]
pub enum Run {
    /// Word characters and letters or numerals: the body of an emphasis span.
    Word,
    /// Word characters only: the body of a keyword or plain word.
    Alpha,
    /// Numerals and `:`: the body of a duration.
    Duration,
}

pub open spec fn in_run(run: Run, c: char) -> bool {
    match run {
        Run::Word => is_alpha_spec(c) || alphabetic(c) || numeric(c),
        Run::Alpha => is_alpha_spec(c),
        Run::Duration => numeric(c) || c == ':',
    }
}

/// Where a run of class `run` that goes on at `i` ends.
pub open spec fn run_end(s: Seq<char>, i: int, run: Run) -> int
    decreases s.len() - i,
{
    if 0 <= i < s.len() && in_run(run, s[i]) {
        run_end(s, i + 1, run)
    } else {
        i
    }
}

/// Where a bracketed span ends, reading from `i` with `depth` brackets
/// open: just past the `]` that closes the last open bracket, or at the end
/// of the text.
pub open spec fn bracket_end(s: Seq<char>, i: int, depth: nat) -> int
    decreases s.len() - i,
{
    if i < 0 || i >= s.len() {
        s.len() as int
    } else if s[i] == ']' && depth <= 1 {
        i + 1
    } else {
        bracket_end(s, i + 1, next_depth(s[i], depth))
    }
}

/// The number of open brackets after reading `c` with `depth` open.
pub open spec fn next_depth(c: char, depth: nat) -> nat {
    if c == '[' {
        depth + 1
    } else if c == ']' && depth > 0 {
        (depth - 1) as nat
    } else {
        depth
    }
}

/// Just past the first `>` at or after `i`, if there is one.
pub open spec fn angle_close(s: Seq<char>, i: int) -> Option<int>
    decreases s.len() - i,
{
    if i < 0 || i >= s.len() {
        None
    } else if s[i] == '>' {
        Some(i + 1)
    } else {
        angle_close(s, i + 1)
    }
}

/// The kind of a keyword, or `String` for any other word.
pub open spec fn keyword_kind(t: Seq<char>) -> TokenType {
    if t == "#+TITLE:"@ {
        TokenType::Title
    } else if t == "#+AUTHOR:"@ {
        TokenType::Author
    } else if t == "#+DATE:"@ {
        TokenType::InitiationDate
    } else if t == ":LOGBOOK:"@ {
        TokenType::LogBook
    } else if t == "CLOCK:"@ {
        TokenType::Clock
    } else if t == ":END:"@ {
        TokenType::End
    } else if t == "SCHEDULED:"@ {
        TokenType::Scheduled
    } else if t == "DEADLINE:"@ {
        TokenType::Deadline
    } else if t == "TODO"@ {
        TokenType::Todo
    } else if t == "DONE"@ {
        TokenType::Done
    } else {
        TokenType::String
    }
}

/// The kind of a span that starts with `m` (one of `*`, `/`, `_`, `+`).
pub open spec fn span_kind(t: Seq<char>, m: char) -> TokenType {
    if m == '*' && all_stars(t) {
        TokenType::Asterisk
    } else if enclosed_by(t, m) {
        if m == '*' {
            TokenType::Bold
        } else if m == '/' {
            TokenType::Italic
        } else if m == '_' {
            TokenType::Underline
        } else {
            TokenType::Strikethrough
        }
    } else {
        TokenType::String
    }
}

pub open spec fn is_span_marker(c: char) -> bool {
    c == '*' || c == '/' || c == '_' || c == '+'
}

pub open spec fn bracket_kind(t: Seq<char>) -> TokenType {
    if regex_match(TIMESTAMP@, t) {
        TokenType::Timestamp
    } else if link_shape(t) {
        TokenType::Link
    } else {
        TokenType::String
    }
}

/// The end and kind of the token that starts at `pos`, which holds no blank;
/// `None` where no token starts with that character.
pub open spec fn token_at(s: Seq<char>, pos: int) -> Option<(int, TokenType)> {
    let c = s[pos];
    if is_span_marker(c) {
        let e = run_end(s, pos + 1, Run::Word);
        Some((e, span_kind(s.subrange(pos, e), c)))
    } else if c == '<' {
        let e = run_end(s, pos + 1, Run::Word);
        if regex_match(DATE_PREFIX@, s.subrange(pos, e)) {
            match angle_close(s, e) {
                Some(f) => Some((f, TokenType::Date)),
                None => Some((s.len() as int, TokenType::String)),
            }
        } else {
            Some((e, TokenType::String))
        }
    } else if c == '[' {
        let e = bracket_end(s, pos + 1, 1);
        Some((e, bracket_kind(s.subrange(pos, e))))
    } else if is_ascii_digit(c) {
        let e = run_end(s, pos + 1, Run::Duration);
        Some(
            (
                e,
                if regex_match(DURATION@, s.subrange(pos, e)) {
                    TokenType::Duration
                } else {
                    TokenType::String
                },
            ),
        )
    } else if is_alpha_spec(c) {
        let e = run_end(s, pos + 1, Run::Alpha);
        Some((e, keyword_kind(s.subrange(pos, e))))
    } else {
        None
    }
}

/// The number of line feeds in `t`.
pub open spec fn newlines(t: Seq<char>) -> nat
    decreases t.len(),
{
    if t.len() == 0 {
        0
    } else {
        newlines(t.drop_last()) + if t.last() == '\n' {
            1nat
        } else {
            0nat
        }
    }
}

/// The 1-based line of position `pos`.
pub open spec fn line_at(s: Seq<char>, pos: int) -> int {
    1 + newlines(s.take(pos)) as int
}

/// The tokens of `s` from position `pos` on, or the line and character of
/// the first character that starts no token.
pub open spec fn scan_from(s: Seq<char>, pos: int) -> Result<Seq<TokenModel>, (int, char)>
    decreases s.len() - pos,
    via scan_from_decreases
{
    if pos < 0 || pos >= s.len() {
        Ok(seq![TokenModel { kind: TokenType::EOF, text: Seq::empty(), line: line_at(s, s.len() as int) }])
    } else if is_blank(s[pos]) {
        scan_from(s, pos + 1)
    } else {
        match token_at(s, pos) {
            Some((e, kind)) => match scan_from(s, e) {
                Ok(rest) => Ok(
                    seq![TokenModel { kind, text: s.subrange(pos, e), line: line_at(s, pos) }]
                        + rest,
                ),
                Err(x) => Err(x),
            },
            None => Err((line_at(s, pos), s[pos])),
        }
    }
}

#[via_fn]
proof fn scan_from_decreases(s: Seq<char>, pos: int) {
    if 0 <= pos < s.len() && !is_blank(s[pos]) {
        lemma_token_at_bounds(s, pos);
    }
}

/// The token stream of a whole text.
pub open spec fn scan_model(s: Seq<char>) -> Result<Seq<TokenModel>, (int, char)> {
    scan_from(s, 0)
}

pub proof fn lemma_run_end_bounds(s: Seq<char>, i: int, run: Run)
    requires
        0 <= i <= s.len(),
    ensures
        i <= run_end(s, i, run) <= s.len(),
    decreases s.len() - i,
{
    if i < s.len() && in_run(run, s[i]) {
        lemma_run_end_bounds(s, i + 1, run);
    }
}

pub proof fn lemma_bracket_end_bounds(s: Seq<char>, i: int, depth: nat)
    requires
        0 <= i <= s.len(),
    ensures
        i <= bracket_end(s, i, depth) <= s.len(),
        i < s.len() ==> i < bracket_end(s, i, depth),
    decreases s.len() - i,
{
    if i < s.len() && !(s[i] == ']' && depth <= 1) {
        lemma_bracket_end_bounds(s, i + 1, next_depth(s[i], depth));
    }
}

pub proof fn lemma_angle_close_bounds(s: Seq<char>, i: int)
    requires
        0 <= i <= s.len(),
    ensures
        angle_close(s, i) matches Some(f) ==> i < f <= s.len(),
    decreases s.len() - i,
{
    if i < s.len() && s[i] != '>' {
        lemma_angle_close_bounds(s, i + 1);
    }
}

/// A token covers at least the character it starts with.
pub proof fn lemma_token_at_bounds(s: Seq<char>, pos: int)
    requires
        0 <= pos < s.len(),
    ensures
        token_at(s, pos) matches Some((e, _)) ==> pos < e <= s.len(),
{
    lemma_run_end_bounds(s, pos + 1, Run::Word);
    lemma_run_end_bounds(s, pos + 1, Run::Alpha);
    lemma_run_end_bounds(s, pos + 1, Run::Duration);
    lemma_bracket_end_bounds(s, pos + 1, 1);
    lemma_angle_close_bounds(s, run_end(s, pos + 1, Run::Word));
}

// ---------------------------------------------------------------------------
// The scanner itself.
/// Scans `source` into its tokens, ending with one `EOF` token; fails on the
/// first character that starts no token.
pub fn scan(source: String) -> (r: Result<Vec<Token>, ScanError>)
    requires
        source@.len() < usize::MAX,
    ensures
        match r {
            Ok(ts) => scan_model(source@) == Ok::<Seq<TokenModel>, (int, char)>(tokens_view(ts@)),
            Err(e) => scan_model(source@) == Err::<Seq<TokenModel>, (int, char)>(e.model()),
        },
{
    let chars = chars_of(&source);
    let mut scanner = Scanner {
        text: source,
        source: chars,
        tokens: Vec::new(),
        start: 0,
        current: 0,
        line: 1,
    };
    proof {
        assert(scanner.source@.take(0) =~= Seq::<char>::empty());
        assert(tokens_view(scanner.tokens@) =~= Seq::<TokenModel>::empty());
    }
    match scanner.scan_source() {
        Ok(_) => Ok(scanner.tokens),
        Err(e) => Err(e),
    }
}

/// The characters of `text`, in order.
fn chars_of(text: &String) -> (r: Vec<char>)
    ensures
        r@ == text@,
{
    let n = text.as_str().unicode_len();
    let mut out: Vec<char> = Vec::new();
    let mut i: usize = 0;
    while i < n
        invariant
            n == text@.len(),
            i <= n,
            out@ == text@.take(i as int),
        decreases n - i,
    {
        let c = text.as_str().get_char(i);
        out.push(c);
        i = i + 1;
        proof {
            assert(out@ =~= text@.take(i as int));
        }
    }
    proof {
        assert(text@.take(n as int) =~= text@);
    }
    out
}

/// Whether `c` may stand inside a word.
fn is_alpha(c: char) -> (r: bool)
    ensures
        r == is_alpha_spec(c),
{
    char_is_alphabetic(c) || c == ':' || c == '#' || c == '+' || c == '*' || c == '_' || c == '-'
        || c == '.' || c == ',' || c == '/' || c == '=' || c == '>' || c == '~' || c == '^' || c
        == '?' || c == '!' || c == '\'' || c == '(' || c == ')'
}

fn in_run_exec(run: Run, c: char) -> (r: bool)
    ensures
        r == in_run(run, c),
{
    match run {
        Run::Word => is_alpha(c) || char_is_alphabetic(c) || char_is_numeric(c),
        Run::Alpha => is_alpha(c),
        Run::Duration => char_is_numeric(c) || c == ':',
    }
}

fn is_digit(c: char) -> (r: bool)
    ensures
        r == is_ascii_digit(c),
{
    c == '0' || c == '1' || c == '2' || c == '3' || c == '4' || c == '5' || c == '6' || c == '7'
        || c == '8' || c == '9'
}

/// Whether `text` is exactly `word`.
fn is_word(text: &String, word: &str) -> (r: bool)
    ensures
        r == (text@ == word@),
{
    let w = word.to_owned();
    *text == w
}

/// The kind of a scanned word: the keyword it spells, or `String`.
fn keyword(text: &String) -> (r: TokenType)
    ensures
        r == keyword_kind(text@),
{
    if is_word(text, "#+TITLE:") {
        TokenType::Title
    } else if is_word(text, "#+AUTHOR:") {
        TokenType::Author
    } else if is_word(text, "#+DATE:") {
        TokenType::InitiationDate
    } else if is_word(text, ":LOGBOOK:") {
        TokenType::LogBook
    } else if is_word(text, "CLOCK:") {
        TokenType::Clock
    } else if is_word(text, ":END:") {
        TokenType::End
    } else if is_word(text, "SCHEDULED:") {
        TokenType::Scheduled
    } else if is_word(text, "DEADLINE:") {
        TokenType::Deadline
    } else if is_word(text, "TODO") {
        TokenType::Todo
    } else if is_word(text, "DONE") {
        TokenType::Done
    } else {
        TokenType::String
    }
}

struct Scanner {
    /// The text being scanned.
    text: String,
    /// The same text, one character per entry.
    source: Vec<char>,
    /// The tokens scanned so far.
    tokens: Vec<Token>,
    /// Where the token being scanned starts.
    start: usize,
    /// The next character to read.
    current: usize,
    /// The line of `start`.
    line: usize,
}

impl Scanner {
    spec fn wf(&self) -> bool {
        &&& self.text@ == self.source@
        &&& self.source.len() < usize::MAX
        &&& self.start <= self.current <= self.source.len()
        &&& self.line == line_at(self.source@, self.start as int)
    }

    /// `self` and `other` differ at most in the cursor.
    spec fn same_but_cursor(&self, other: &Scanner) -> bool {
        &&& self.text == other.text
        &&& self.source == other.source
        &&& self.tokens == other.tokens
        &&& self.start == other.start
        &&& self.line == other.line
    }

    /// Ready to finish the token that starts at `start`, whose first
    /// character has been read.
    spec fn rule_ready(&self) -> bool {
        &&& self.wf()
        &&& self.start < self.source.len()
        &&& self.current == self.start + 1
    }

    /// `after` is `self` with the token that starts at `start` read and
    /// added.
    spec fn rule_done(&self, after: &Scanner) -> bool {
        let s = self.source@;
        &&& token_at(s, self.start as int) matches Some((e, kind)) && {
            &&& after.current == e
            &&& tokens_view(after.tokens@) == tokens_view(self.tokens@).push(
                TokenModel { kind, text: s.subrange(self.start as int, e), line: self.line as int },
            )
        }
        &&& after.text == self.text
        &&& after.source == self.source
        &&& after.start == self.start
        &&& after.line == self.line
    }

    fn is_at_end(&self) -> (r: bool)
        ensures
            r == (self.current >= self.source.len()),
    {
        self.current >= self.source.len()
    }

    /// The next character, or `'\0'` at the end.
    fn peek(&self) -> (r: char)
        ensures
            self.current < self.source.len() ==> r == self.source@[self.current as int],
            self.current >= self.source.len() ==> r == '\0',
    {
        if self.is_at_end() {
            '\0'
        } else {
            self.source[self.current]
        }
    }

    fn advance(&mut self) -> (r: char)
        requires
            old(self).current < old(self).source.len(),
        ensures
            r == old(self).source@[old(self).current as int],
            final(self).current == old(self).current + 1,
            final(self).same_but_cursor(old(self)),
    {
        self.current = self.current + 1;
        self.source[self.current - 1]
    }

    /// The text from `start` to `current`.
    fn lexeme(&self) -> (r: String)
        requires
            self.wf(),
        ensures
            r@ == self.source@.subrange(self.start as int, self.current as int),
    {
        self.text.as_str().substring_char(self.start, self.current).to_owned()
    }

    fn add_token(&mut self, token_type: TokenType, lexeme: String)
        ensures
            final(self).tokens@ == old(self).tokens@.push(
                Token { token_type, lexeme, line: old(self).line },
            ),
            tokens_view(final(self).tokens@) == tokens_view(old(self).tokens@).push(
                TokenModel { kind: token_type, text: lexeme@, line: old(self).line as int },
            ),
            final(self).text == old(self).text,
            final(self).source == old(self).source,
            final(self).start == old(self).start,
            final(self).current == old(self).current,
            final(self).line == old(self).line,
    {
        let token = Token { token_type, lexeme, line: self.line };
        self.tokens.push(token);
        proof {
            assert(tokens_view(self.tokens@) =~= tokens_view(old(self).tokens@).push(token@));
        }
    }

    /// Reads on while the next character belongs to `run`.
    fn skip_run(&mut self, run: Run)
        requires
            old(self).current <= old(self).source.len(),
        ensures
            final(self).current == run_end(old(self).source@, old(self).current as int, run),
            old(self).current <= final(self).current <= final(self).source.len(),
            final(self).same_but_cursor(old(self)),
    {
        let ghost from = self.current as int;
        loop
            invariant
                from <= self.current <= self.source.len(),
                self.same_but_cursor(old(self)),
                run_end(self.source@, self.current as int, run) == run_end(
                    self.source@,
                    from,
                    run,
                ),
            ensures
                self.current == run_end(self.source@, from, run),
                from <= self.current <= self.source.len(),
                self.same_but_cursor(old(self)),
            decreases self.source.len() - self.current,
        {
            if self.is_at_end() {
                break;
            }
            let c = self.peek();
            if !in_run_exec(run, c) {
                break;
            }
            self.advance();
        }
    }
    /// Counts the line feeds from `start` to `current` into `line`.
    fn count_lines(&mut self)
        requires
            old(self).wf(),
        ensures
            final(self).line == line_at(old(self).source@, old(self).current as int),
            final(self).text == old(self).text,
            final(self).source == old(self).source,
            final(self).tokens == old(self).tokens,
            final(self).start == old(self).start,
            final(self).current == old(self).current,
    {
        let ghost s = self.source@;
        let mut k: usize = self.start;
        while k < self.current
            invariant
                self.start <= k <= self.current <= self.source.len() < usize::MAX,
                s == self.source@,
                self.line == line_at(s, k as int),
                self.text == old(self).text,
                self.source == old(self).source,
                self.tokens == old(self).tokens,
                self.start == old(self).start,
                self.current == old(self).current,
            decreases self.current - k,
        {
            proof {
                assert(s.take(k + 1).drop_last() =~= s.take(k as int));
                lemma_newlines_bound(s.take(k as int));
            }
            if self.source[k] == '\n' {
                self.line = self.line + 1;
            }
            k = k + 1;
        }
    }

    /// Scans one token, or skips one blank, from `current`; then moves
    /// `start` up to `current`.
    fn scan_token(&mut self) -> (r: Result<(), ScanError>)
        requires
            old(self).wf(),
            old(self).start == old(self).current,
            old(self).current < old(self).source.len(),
        ensures
            final(self).source == old(self).source,
            final(self).text == old(self).text,
            // It succeeds exactly on a blank or on a character that starts a token.
            r is Ok <==> (is_blank(old(self).source@[old(self).current as int]) || token_at(
                old(self).source@,
                old(self).current as int,
            ) is Some),
            // A blank is skipped alone.
            r is Ok && is_blank(old(self).source@[old(self).current as int]) ==> {
                &&& final(self).current == old(self).current + 1
                &&& final(self).tokens == old(self).tokens
            },
            // Any other character starts one token, which is added.
            r is Ok && !is_blank(old(self).source@[old(self).current as int]) ==> (token_at(
                old(self).source@,
                old(self).current as int,
            ) matches Some((e, kind)) && {
                &&& final(self).current == e
                &&& tokens_view(final(self).tokens@) == tokens_view(old(self).tokens@).push(
                    TokenModel {
                        kind,
                        text: old(self).source@.subrange(old(self).current as int, e),
                        line: old(self).line as int,
                    },
                )
            }),
            r is Ok ==> {
                &&& final(self).wf()
                &&& final(self).start == final(self).current
                &&& old(self).current < final(self).current
                &&& prefixed(tokens_view(final(self).tokens@), scan_from(final(self).source@, final(self).current as int))
                    == prefixed(tokens_view(old(self).tokens@), scan_from(old(self).source@, old(self).current as int))
            },
            // A character that starts no token fails, with its line, and adds nothing.
            r matches Err(e) ==> {
                &&& e.model() == (line_at(old(self).source@, old(self).current as int), old(self).source@[old(self).current as int])
                &&& final(self).tokens == old(self).tokens
                &&& scan_from(old(self).source@, old(self).current as int) == Err::<Seq<TokenModel>, (int, char)>(e.model())
            },
    {
        let ghost s = self.source@;
        let ghost pos = self.current as int;
        let ghost before = tokens_view(self.tokens@);
        let c = self.advance();
        if c == '*' {
            self.asterisk();
        } else if c == '<' {
            self.angle_bracket();
        } else if c == '[' {
            self.square_bracket();
        } else if c == '/' {
            self.forward_slash();
        } else if c == '_' {
            self.underline();
        } else if c == '+' {
            self.plus();
        } else if is_digit(c) {
            self.number();
        } else if c == ' ' || c == '\r' || c == '\t' || c == '\n' {
        } else if is_alpha(c) {
            self.identifier();
        } else {
            return Err(ScanError::UnrecognizedCharacter { line: self.line, character: c });
        }
        proof {
            lemma_token_at_bounds(s, pos);
            if !is_blank(c) {
                let (e, kind) = token_at(s, pos)->Some_0;
                let t = TokenModel { kind, text: s.subrange(pos, e), line: line_at(s, pos) };
                match scan_from(s, e) {
                    Ok(rest) => {
                        assert(before.push(t) + rest =~= before + (seq![t] + rest));
                    },
                    Err(_) => {},
                }
            }
        }
        self.count_lines();
        self.start = self.current;
        Ok(())
    }

    /// Scans from `current` to the end and adds the `EOF` token.
    fn scan_source(&mut self) -> (r: Result<(), ScanError>)
        requires
            old(self).wf(),
            old(self).start == old(self).current,
        ensures
            final(self).source == old(self).source,
            r is Ok ==> prefixed(tokens_view(old(self).tokens@), scan_from(old(self).source@, old(self).current as int))
                    == Ok::<Seq<TokenModel>, (int, char)>(tokens_view(final(self).tokens@)),
            r matches Err(e) ==> prefixed(tokens_view(old(self).tokens@), scan_from(old(self).source@, old(self).current as int))
                    == Err::<Seq<TokenModel>, (int, char)>(e.model()),
    {
        let ghost s = self.source@;
        let ghost goal = prefixed(tokens_view(self.tokens@), scan_from(s, self.current as int));
        while !self.is_at_end()
            invariant
                self.wf(),
                self.source@ == s,
                self.source == old(self).source,
                self.start == self.current,
                prefixed(tokens_view(self.tokens@), scan_from(s, self.current as int)) == goal,
                goal == prefixed(tokens_view(old(self).tokens@), scan_from(s, old(self).current as int)),
                s == old(self).source@,
            decreases s.len() - self.current,
        {
            match self.scan_token() {
                Ok(_) => {},
                Err(e) => {
                    return Err(e);
                },
            }
        }
        let ghost before = tokens_view(self.tokens@);
        self.add_token(TokenType::EOF, String::new());
        proof {
            let t = TokenModel { kind: TokenType::EOF, text: Seq::empty(), line: line_at(s, s.len() as int) };
            assert(before.push(t) =~= before + seq![t]);
        }
        Ok(())
    }

    /// A run of word characters after `*`: a heading marker, bold text, or
    /// plain text.
    fn asterisk(&mut self)
        requires
            old(self).rule_ready(),
            old(self).source@[old(self).start as int] == '*',
        ensures
            old(self).rule_done(final(self)),
    {
        self.skip_run(Run::Word);
        let text = self.lexeme();
        let kind = if full_match(STAR_RUN, text.as_str()) {
            TokenType::Asterisk
        } else if full_match(BOLD, text.as_str()) {
            TokenType::Bold
        } else {
            TokenType::String
        };
        self.add_token(kind, text);
    }

    fn forward_slash(&mut self)
        requires
            old(self).rule_ready(),
            old(self).source@[old(self).start as int] == '/',
        ensures
            old(self).rule_done(final(self)),
    {
        self.skip_run(Run::Word);
        let text = self.lexeme();
        let kind = if full_match(ITALIC, text.as_str()) {
            TokenType::Italic
        } else {
            TokenType::String
        };
        self.add_token(kind, text);
    }

    fn underline(&mut self)
        requires
            old(self).rule_ready(),
            old(self).source@[old(self).start as int] == '_',
        ensures
            old(self).rule_done(final(self)),
    {
        self.skip_run(Run::Word);
        let text = self.lexeme();
        let kind = if full_match(UNDERLINE, text.as_str()) {
            TokenType::Underline
        } else {
            TokenType::String
        };
        self.add_token(kind, text);
    }

    fn plus(&mut self)
        requires
            old(self).rule_ready(),
            old(self).source@[old(self).start as int] == '+',
        ensures
            old(self).rule_done(final(self)),
    {
        self.skip_run(Run::Word);
        let text = self.lexeme();
        let kind = if full_match(STRIKETHROUGH, text.as_str()) {
            TokenType::Strikethrough
        } else {
            TokenType::String
        };
        self.add_token(kind, text);
    }

    /// A run of numerals and colons: a duration, or plain text.
    fn number(&mut self)
        requires
            old(self).rule_ready(),
            is_ascii_digit(old(self).source@[old(self).start as int]),
        ensures
            old(self).rule_done(final(self)),
    {
        self.skip_run(Run::Duration);
        let text = self.lexeme();
        let kind = if full_match(DURATION, text.as_str()) {
            TokenType::Duration
        } else {
            TokenType::String
        };
        self.add_token(kind, text);
    }

    /// A word: a keyword, or plain text.
    fn identifier(&mut self)
        requires
            old(self).rule_ready(),
            is_alpha_spec(old(self).source@[old(self).start as int]),
            !is_span_marker(old(self).source@[old(self).start as int]),
            !is_ascii_digit(old(self).source@[old(self).start as int]),
            old(self).source@[old(self).start as int] != '<',
            old(self).source@[old(self).start as int] != '[',
        ensures
            old(self).rule_done(final(self)),
    {
        self.skip_run(Run::Alpha);
        let text = self.lexeme();
        let kind = keyword(&text);
        self.add_token(kind, text);
    }

    /// After `<`: a date up to the closing `>` where a run of word
    /// characters reads as `<YYYY-MM-DD`; otherwise that run, as plain text.
    fn angle_bracket(&mut self)
        requires
            old(self).rule_ready(),
            old(self).source@[old(self).start as int] == '<',
        ensures
            old(self).rule_done(final(self)),
    {
        self.skip_run(Run::Word);
        let text = self.lexeme();
        if !full_match(DATE_PREFIX, text.as_str()) {
            self.add_token(TokenType::String, text);
        } else {
            let ghost from = self.current as int;
            let ghost s = self.source@;
            proof {
                lemma_run_end_bounds(s, self.start + 1, Run::Word);
            }
            let mut closed = false;
            loop
                invariant_except_break
                    angle_close(s, self.current as int) == angle_close(s, from),
                    !closed,
                invariant
                    from <= self.current <= self.source.len(),
                    self.same_but_cursor(old(self)),
                    s == self.source@,
                ensures
                    closed ==> angle_close(s, from) == Some(self.current as int),
                    !closed ==> angle_close(s, from) is None && self.current == s.len(),
                decreases self.source.len() - self.current,
            {
                if self.is_at_end() {
                    break;
                }
                if self.peek() == '>' {
                    proof {
                        assert(angle_close(s, self.current as int) == Some(self.current + 1));
                    }
                    self.advance();
                    closed = true;
                    break;
                }
                self.advance();
            }
            let text = self.lexeme();
            if closed {
                self.add_token(TokenType::Date, text);
            } else {
                self.add_token(TokenType::String, text);
            }
        }
    }

    /// After `[`: a bracketed span, with nested brackets, as a timestamp, a
    /// link, or plain text.
    fn square_bracket(&mut self)
        requires
            old(self).rule_ready(),
            old(self).source@[old(self).start as int] == '[',
        ensures
            old(self).rule_done(final(self)),
    {
        let ghost s = self.source@;
        let ghost from = self.current as int;
        let mut nesting: usize = 1;
        loop
            invariant_except_break
                bracket_end(s, self.current as int, nesting as nat) == bracket_end(s, from, 1),
                1 <= nesting <= self.current - self.start,
            invariant
                from <= self.current <= self.source.len(),
                self.same_but_cursor(old(self)),
                s == self.source@,
            ensures
                self.current == bracket_end(s, from, 1),
            decreases self.source.len() - self.current,
        {
            if self.is_at_end() {
                break;
            }
            let c = self.advance();
            if c == ']' && nesting == 1 {
                break;
            }
            if c == '[' {
                nesting = nesting + 1;
            } else if c == ']' {
                nesting = nesting - 1;
            }
        }
        let text = self.lexeme();
        let kind = if full_match(TIMESTAMP, text.as_str()) {
            TokenType::Timestamp
        } else if full_match(LINK, text.as_str()) {
            TokenType::Link
        } else {
            TokenType::String
        };
        self.add_token(kind, text);
    }
}

/// `pre` put before the tokens of `r`, if `r` holds tokens.
pub open spec fn prefixed(
    pre: Seq<TokenModel>,
    r: Result<Seq<TokenModel>, (int, char)>,
) -> Result<Seq<TokenModel>, (int, char)> {
    match r {
        Ok(rest) => Ok(pre + rest),
        Err(e) => Err(e),
    }
}

pub proof fn lemma_newlines_bound(t: Seq<char>)
    ensures
        newlines(t) <= t.len(),
    decreases t.len(),
{
    if t.len() > 0 {
        lemma_newlines_bound(t.drop_last());
    }
}

// ---------------------------------------------------------------------------
// What scanning keeps of the text.
/// The lexemes of `ts`, run together.
pub open spec fn joined(ts: Seq<TokenModel>) -> Seq<char>
    decreases ts.len(),
{
    if ts.len() == 0 {
        Seq::empty()
    } else {
        ts[0].text + joined(ts.drop_first())
    }
}

/// `t` with its blanks (space, tab, carriage return, line feed) left out.
pub open spec fn without_blanks(t: Seq<char>) -> Seq<char> {
    t.filter(|c: char| !is_blank(c))
}

proof fn lemma_scan_from_keeps_text(s: Seq<char>, pos: int)
    requires
        0 <= pos <= s.len(),
    ensures
        scan_from(s, pos) matches Ok(ts) ==> without_blanks(joined(ts)) == without_blanks(
            s.subrange(pos, s.len() as int),
        ),
    decreases s.len() - pos,
{
    broadcast use Seq::filter_distributes_over_add;

    let tail = s.subrange(pos, s.len() as int);
    if pos == s.len() {
        let ts = seq![TokenModel { kind: TokenType::EOF, text: Seq::empty(), line: line_at(s, s.len() as int) }];
        assert(joined(ts.drop_first()) == Seq::<char>::empty());
        assert(joined(ts) =~= Seq::<char>::empty());
        assert(tail =~= Seq::<char>::empty());
        reveal(Seq::filter);
    } else {
        lemma_token_at_bounds(s, pos);
        assert(tail =~= seq![s[pos]] + s.subrange(pos + 1, s.len() as int));
        reveal(Seq::filter);
        assert(seq![s[pos]].drop_last() =~= Seq::<char>::empty());
        if is_blank(s[pos]) {
            lemma_scan_from_keeps_text(s, pos + 1);
            assert(without_blanks(Seq::<char>::empty()) =~= Seq::<char>::empty());
            assert(seq![s[pos]].last() == s[pos]);
            assert(without_blanks(seq![s[pos]]) =~= Seq::<char>::empty());
            assert(without_blanks(tail) =~= without_blanks(s.subrange(pos + 1, s.len() as int)));
        } else if let Some((e, kind)) = token_at(s, pos) {
            lemma_scan_from_keeps_text(s, e);
            if let Ok(rest) = scan_from(s, e) {
                let t = TokenModel { kind, text: s.subrange(pos, e), line: line_at(s, pos) };
                let ts = seq![t] + rest;
                assert(ts.drop_first() =~= rest);
                assert(joined(ts) == s.subrange(pos, e) + joined(rest));
                assert(tail =~= s.subrange(pos, e) + s.subrange(e, s.len() as int));
                assert(without_blanks(joined(ts)) == without_blanks(s.subrange(pos, e))
                    + without_blanks(joined(rest)));
                assert(without_blanks(tail) == without_blanks(s.subrange(pos, e)) + without_blanks(
                    s.subrange(e, s.len() as int),
                ));
            }
        }
    }
}

/// Scanning loses nothing but blanks: where a text scans, the lexemes of
/// its tokens, run together, hold exactly the characters of the text that
/// are not blanks, in the same order.
pub proof fn lemma_scan_keeps_text(s: Seq<char>)
    ensures
        scan_model(s) matches Ok(ts) ==> without_blanks(joined(ts)) == without_blanks(s),
{
    lemma_scan_from_keeps_text(s, 0);
    assert(s.subrange(0, s.len() as int) =~= s);
}

// ---------------------------------------------------------------------------
// The shape of every token stream.
proof fn lemma_line_at_mono(s: Seq<char>, a: int, b: int)
    requires
        0 <= a <= b <= s.len(),
    ensures
        line_at(s, a) <= line_at(s, b),
    decreases b - a,
{
    if a < b {
        lemma_line_at_mono(s, a, b - 1);
        assert(s.take(b).drop_last() =~= s.take(b - 1));
    }
}

proof fn lemma_token_kind_not_eof(s: Seq<char>, pos: int)
    requires
        0 <= pos < s.len(),
    ensures
        token_at(s, pos) matches Some((_, kind)) ==> kind != TokenType::EOF,
{
}

proof fn lemma_scan_from_shape(s: Seq<char>, pos: int)
    requires
        0 <= pos <= s.len(),
    ensures
        scan_from(s, pos) matches Ok(ts) ==> {
            &&& ts.len() >= 1
            &&& ts.last().kind == TokenType::EOF
            &&& forall|k: int| 0 <= k < ts.len() - 1 ==> (#[trigger] ts[k]).kind != TokenType::EOF
            &&& forall|k: int| 0 <= k < ts.len() ==> line_at(s, pos) <= (#[trigger] ts[k]).line
            &&& forall|a: int, b: int| 0 <= a <= b < ts.len() ==> (#[trigger] ts[a]).line <= (#[trigger] ts[b]).line
        },
    decreases s.len() - pos,
{
    if pos == s.len() {
    } else {
        lemma_token_at_bounds(s, pos);
        lemma_token_kind_not_eof(s, pos);
        if is_blank(s[pos]) {
            lemma_scan_from_shape(s, pos + 1);
            lemma_line_at_mono(s, pos, pos + 1);
        } else if let Some((e, kind)) = token_at(s, pos) {
            lemma_scan_from_shape(s, e);
            lemma_line_at_mono(s, pos, e);
            if let Ok(rest) = scan_from(s, e) {
                let t = TokenModel { kind, text: s.subrange(pos, e), line: line_at(s, pos) };
                let ts = seq![t] + rest;
                assert forall|k: int| 0 <= k < ts.len() implies line_at(s, pos) <= (#[trigger] ts[k]).line by {
                    if k > 0 {
                        assert(ts[k] == rest[k - 1]);
                    }
                }
                assert forall|a: int, b: int| 0 <= a <= b < ts.len() implies (#[trigger] ts[a]).line <= (#[trigger] ts[b]).line by {
                    if a > 0 {
                        assert(ts[a] == rest[a - 1]);
                        assert(ts[b] == rest[b - 1]);
                    } else if b > 0 {
                        assert(ts[b] == rest[b - 1]);
                    }
                }
                assert forall|k: int| 0 <= k < ts.len() - 1 implies (#[trigger] ts[k]).kind != TokenType::EOF by {
                    if k > 0 {
                        assert(ts[k] == rest[k - 1]);
                    }
                }
                assert(ts.last() == rest.last());
            }
        }
    }
}

/// Every token stream that scanning yields ends with exactly one `EOF`
/// token, and the lines of its tokens never decrease.
pub proof fn lemma_scan_stream_shape(s: Seq<char>)
    ensures
        scan_model(s) matches Ok(ts) ==> {
            &&& ts.len() >= 1
            &&& ts.last().kind == TokenType::EOF
            &&& forall|k: int| 0 <= k < ts.len() - 1 ==> (#[trigger] ts[k]).kind != TokenType::EOF
            &&& forall|a: int, b: int| 0 <= a <= b < ts.len() ==> (#[trigger] ts[a]).line <= (#[trigger] ts[b]).line
        },
{
    lemma_scan_from_shape(s, 0);
}

// ---------------------------------------------------------------------------
// A token scanned on its own.
proof fn lemma_run_end_within(s: Seq<char>, pos: int, i: int, run: Run, end: int)
    requires
        0 <= pos <= i <= run_end(s, i, run) <= end <= s.len(),
    ensures
        run_end(s.subrange(pos, end), i - pos, run) == run_end(s, i, run) - pos,
    decreases s.len() - i,
{
    let t = s.subrange(pos, end);
    if i < end {
        assert(t[i - pos] == s[i]);
    }
    if i < s.len() && in_run(run, s[i]) {
        lemma_run_end_bounds(s, i + 1, run);
        lemma_run_end_within(s, pos, i + 1, run, end);
    }
}

proof fn lemma_bracket_end_within(s: Seq<char>, pos: int, i: int, depth: nat)
    requires
        0 <= pos <= i <= s.len(),
    ensures
        bracket_end(s.subrange(pos, bracket_end(s, i, depth)), i - pos, depth) == bracket_end(
            s,
            i,
            depth,
        ) - pos,
    decreases s.len() - i,
{
    lemma_bracket_end_bounds(s, i, depth);
    let e = bracket_end(s, i, depth);
    let t = s.subrange(pos, e);
    if i < s.len() {
        assert(t[i - pos] == s[i]);
        if !(s[i] == ']' && depth <= 1) {
            lemma_bracket_end_within(s, pos, i + 1, next_depth(s[i], depth));
        }
    }
}

proof fn lemma_angle_close_within(s: Seq<char>, pos: int, i: int)
    requires
        0 <= pos <= i <= s.len(),
    ensures
        angle_close(s, i) matches Some(f) ==> angle_close(s.subrange(pos, f), i - pos) == Some(
            f - pos,
        ),
        angle_close(s, i) is None ==> angle_close(s.subrange(pos, s.len() as int), i - pos) is None,
    decreases s.len() - i,
{
    lemma_angle_close_bounds(s, i);
    if i < s.len() {
        if s[i] != '>' {
            lemma_angle_close_within(s, pos, i + 1);
        }
        if let Some(f) = angle_close(s, i) {
            assert(s.subrange(pos, f)[i - pos] == s[i]);
        }
        assert(s.subrange(pos, s.len() as int)[i - pos] == s[i]);
    }
}

/// The token that starts at `pos` starts the text of its own lexeme too,
/// and covers all of it, with the same kind.
proof fn lemma_token_at_alone(s: Seq<char>, pos: int)
    requires
        0 <= pos < s.len(),
        !is_blank(s[pos]),
        token_at(s, pos) is Some,
    ensures
        ({
            let (e, kind) = token_at(s, pos)->Some_0;
            token_at(s.subrange(pos, e), 0) == Some((e - pos, kind))
        }),
{
    lemma_token_at_bounds(s, pos);
    let (e, kind) = token_at(s, pos)->Some_0;
    let t = s.subrange(pos, e);
    assert(t[0] == s[pos]);
    assert(t.subrange(0, e - pos) =~= t);
    let c = s[pos];
    if is_span_marker(c) {
        lemma_run_end_bounds(s, pos + 1, Run::Word);
        lemma_run_end_within(s, pos, pos + 1, Run::Word, e);
    } else if c == '<' {
        let e1 = run_end(s, pos + 1, Run::Word);
        lemma_run_end_bounds(s, pos + 1, Run::Word);
        lemma_angle_close_bounds(s, e1);
        lemma_run_end_within(s, pos, pos + 1, Run::Word, e);
        lemma_angle_close_within(s, pos, e1);
        assert(t.subrange(0, e1 - pos) =~= s.subrange(pos, e1));
    } else if c == '[' {
        lemma_bracket_end_within(s, pos, pos + 1, 1);
    } else if is_ascii_digit(c) {
        lemma_run_end_bounds(s, pos + 1, Run::Duration);
        lemma_run_end_within(s, pos, pos + 1, Run::Duration, e);
    } else {
        lemma_run_end_bounds(s, pos + 1, Run::Alpha);
        lemma_run_end_within(s, pos, pos + 1, Run::Alpha, e);
    }
}

/// Scanning the lexeme of `t` on its own gives back one token of the same
/// kind and text, then `EOF`.
pub open spec fn rescans_alone(t: TokenModel) -> bool {
    scan_model(t.text) matches Ok(us) && us.len() == 2 && us[0].kind == t.kind && us[0].text
        == t.text
}

proof fn lemma_scan_from_rescans(s: Seq<char>, pos: int)
    requires
        0 <= pos <= s.len(),
    ensures
        scan_from(s, pos) matches Ok(ts) ==> forall|k: int|
            0 <= k < ts.len() - 1 ==> rescans_alone(#[trigger] ts[k]),
    decreases s.len() - pos,
{
    if pos < s.len() {
        lemma_token_at_bounds(s, pos);
        if is_blank(s[pos]) {
            lemma_scan_from_rescans(s, pos + 1);
        } else if let Some((e, kind)) = token_at(s, pos) {
            lemma_scan_from_rescans(s, e);
            lemma_token_at_alone(s, pos);
            let t = s.subrange(pos, e);
            assert(t[0] == s[pos]);
            assert(t.subrange(0, t.len() as int) =~= t);
            if let Ok(rest) = scan_from(s, e) {
                let first = TokenModel { kind, text: t, line: line_at(s, pos) };
                let ts = seq![first] + rest;
                let n = t.len() as int;
                assert(token_at(t, 0) == Some((n, kind)));
                let eof = TokenModel { kind: TokenType::EOF, text: Seq::empty(), line: line_at(t, n) };
                assert(scan_from(t, n) == Ok::<Seq<TokenModel>, (int, char)>(seq![eof]));
                let alone = TokenModel { kind, text: t.subrange(0, n), line: line_at(t, 0) };
                assert(scan_from(t, 0) == Ok::<Seq<TokenModel>, (int, char)>(seq![alone] + seq![eof]));
                assert((seq![alone] + seq![eof])[0] == alone);
                assert(rescans_alone(first));
                assert forall|k: int| 0 <= k < ts.len() - 1 implies rescans_alone(#[trigger] ts[k]) by {
                    if k > 0 {
                        assert(ts[k] == rest[k - 1]);
                    }
                }
            }
        }
    }
}

/// Each token of a scanned text, its lexeme scanned on its own, comes back
/// as one token of the same kind with the same text, followed by `EOF`.
pub proof fn lemma_tokens_rescan_alone(s: Seq<char>)
    ensures
        scan_model(s) matches Ok(ts) ==> forall|k: int|
            0 <= k < ts.len() - 1 ==> rescans_alone(#[trigger] ts[k]),
{
    lemma_scan_from_rescans(s, 0);
}

// ---------------------------------------------------------------------------
// How the tokens lie in the text.
/// Every character of `t` is a blank.
pub open spec fn all_blank(t: Seq<char>) -> bool {
    forall|i: int| 0 <= i < t.len() ==> is_blank(t[i])
}

/// `t` is made of blanks, the first lexeme of `ts`, blanks, the next
/// lexeme, and so on; the last token has an empty lexeme, and only blanks
/// follow the lexeme before it.
pub open spec fn laid_out(t: Seq<char>, ts: Seq<TokenModel>) -> bool
    decreases ts.len(),
{
    if ts.len() == 0 {
        false
    } else if ts.len() == 1 {
        ts[0].text.len() == 0 && all_blank(t)
    } else {
        exists|g: int|
            0 <= g && g + ts[0].text.len() <= t.len() && all_blank(t.take(g))
                && #[trigger] t.subrange(g, g + ts[0].text.len()) == ts[0].text && laid_out(
                t.skip(g + ts[0].text.len()),
                ts.drop_first(),
            )
    }
}

proof fn lemma_laid_out_after_blank(c: char, t: Seq<char>, ts: Seq<TokenModel>)
    requires
        is_blank(c),
        laid_out(t, ts),
    ensures
        laid_out(seq![c] + t, ts),
{
    let u = seq![c] + t;
    if ts.len() == 1 {
        assert(all_blank(u)) by {
            assert forall|i: int| 0 <= i < u.len() implies is_blank(#[trigger] u[i]) by {
                if i > 0 {
                    assert(u[i] == t[i - 1]);
                }
            }
        }
    } else {
        let n = ts[0].text.len() as int;
        let g = choose|g: int|
            0 <= g && g + n <= t.len() && all_blank(t.take(g)) && #[trigger] t.subrange(g, g + n)
                == ts[0].text && laid_out(t.skip(g + n), ts.drop_first());
        assert(u.take(g + 1) =~= seq![c] + t.take(g));
        assert forall|i: int| 0 <= i < g + 1 implies is_blank(#[trigger] u.take(g + 1)[i]) by {
            if i > 0 {
                assert(u.take(g + 1)[i] == t.take(g)[i - 1]);
            }
        }
        assert(u.subrange(g + 1, g + 1 + n) =~= t.subrange(g, g + n));
        assert(u.skip(g + 1 + n) =~= t.skip(g + n));
    }
}

proof fn lemma_scan_from_layout(s: Seq<char>, pos: int)
    requires
        0 <= pos <= s.len(),
    ensures
        scan_from(s, pos) matches Ok(ts) ==> laid_out(s.skip(pos), ts),
    decreases s.len() - pos,
{
    if pos == s.len() {
        assert(s.skip(pos).len() == 0);
    } else {
        lemma_token_at_bounds(s, pos);
        assert(s.skip(pos) =~= seq![s[pos]] + s.skip(pos + 1));
        if is_blank(s[pos]) {
            lemma_scan_from_layout(s, pos + 1);
            if scan_from(s, pos + 1) is Ok {
                lemma_laid_out_after_blank(s[pos], s.skip(pos + 1), scan_from(s, pos + 1)->Ok_0);
            }
        } else if let Some((e, kind)) = token_at(s, pos) {
            lemma_scan_from_layout(s, e);
            if let Ok(rest) = scan_from(s, e) {
                let t = s.skip(pos);
                let first = TokenModel { kind, text: s.subrange(pos, e), line: line_at(s, pos) };
                let ts = seq![first] + rest;
                assert(ts.drop_first() =~= rest);
                assert(ts[0] == first);
                assert(t.take(0) =~= Seq::<char>::empty());
                assert(t.subrange(0, e - pos) =~= s.subrange(pos, e));
                assert(t.skip(e - pos) =~= s.skip(e));
                lemma_scan_from_shape(s, e);
                let n = ts[0].text.len() as int;
                assert(n == e - pos);
                assert(all_blank(t.take(0)));
                assert(t.subrange(0, 0 + n) == ts[0].text);
                assert(laid_out(t.skip(0 + n), ts.drop_first()));
                assert(laid_out(t, ts));
            }
        }
    }
}

/// The tokens of a scanned text lie in it in order, one after the other,
/// with nothing but blanks before, between and after their lexemes.
pub proof fn lemma_scan_layout(s: Seq<char>)
    ensures
        scan_model(s) matches Ok(ts) ==> laid_out(s, ts),
{
    lemma_scan_from_layout(s, 0);
    assert(s.skip(0) =~= s);
}

} // verus!
