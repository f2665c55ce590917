use vstd::prelude::*;
use crate::chars::{digit, is_digit, is_space, is_word, space, word};
use crate::error::TranslateError;
use crate::text::{chars_of, text_of};
use crate::token::{models, Token, TokenModel};

verus! {

/// What the lexer finds at one position of the source.
pub enum Lexed {
    /// A token, and the position behind it.
    Found(TokenModel, int),
    /// White space, and the position behind it.
    Skipped(int),
    /// The source ends where the token needs more.
    Malformed,
}

/// The structural token that `c` stands for, where it is a structural character.
pub open spec fn structural(c: char) -> Option<TokenModel> {
    if c == '(' {
        Some(TokenModel::ParenOpen)
    } else if c == ')' {
        Some(TokenModel::ParenClose)
    } else if c == '{' {
        Some(TokenModel::BraceOpen)
    } else if c == '}' {
        Some(TokenModel::BraceClose)
    } else if c == ';' {
        Some(TokenModel::SemiColon)
    } else if c == '[' {
        Some(TokenModel::SquareOpen)
    } else if c == ']' {
        Some(TokenModel::SquareClose)
    } else {
        None
    }
}

/// The first position from `from` on that holds a double quote with no
/// backslash right before it; the length of the source where there is none.
pub open spec fn closing_quote(s: Seq<char>, from: int) -> int
    decreases s.len() - from,
{
    if from < 1 || from >= s.len() {
        s.len() as int
    } else if s[from] == '"' && s[from - 1] != '\\' {
        from
    } else {
        closing_quote(s, from + 1)
    }
}

/// The first position from `from` on that holds `>`; the length of the
/// source where there is none.
pub open spec fn closing_angle(s: Seq<char>, from: int) -> int
    decreases s.len() - from,
{
    if from < 0 || from >= s.len() {
        s.len() as int
    } else if s[from] == '>' {
        from
    } else {
        closing_angle(s, from + 1)
    }
}

/// The first position from `from` on that holds neither a letter nor an
/// underscore; the length of the source where there is none.
pub open spec fn word_end(s: Seq<char>, from: int) -> int
    decreases s.len() - from,
{
    if from < 0 || from >= s.len() {
        s.len() as int
    } else if is_word(s[from]) {
        word_end(s, from + 1)
    } else {
        from
    }
}

/// The first position from `from` on that holds no digit; the length of the
/// source where there is none.
pub open spec fn digits_end(s: Seq<char>, from: int) -> int
    decreases s.len() - from,
{
    if from < 0 || from >= s.len() {
        s.len() as int
    } else if is_digit(s[from]) {
        digits_end(s, from + 1)
    } else {
        from
    }
}

/// Whether an operator may begin with `c`, so that the character behind it
/// has to be looked at.
pub open spec fn starts_operator(c: char) -> bool {
    c == '<' || c == '>' || c == '-' || c == '+' || c == '*' || c == '/' || c == '=' || c == '!'
        || c == '&' || c == '|' || c == ':'
}

/// Whether `c` alone is an operator.
pub open spec fn stands_alone(c: char) -> bool {
    c == '<' || c == '>' || c == '-' || c == '+' || c == '*' || c == '/' || c == '=' || c == '&'
        || c == '|'
}

/// Whether `c` and `next` together are one operator:
/// `<= >= -= -> += *= /= == != && || :=`.
pub open spec fn merges(c: char, next: char) -> bool {
    if next == '=' {
        c == '<' || c == '>' || c == '-' || c == '+' || c == '*' || c == '/' || c == '=' || c
            == '!' || c == ':'
    } else if next == '>' {
        c == '-'
    } else if next == '&' {
        c == '&'
    } else if next == '|' {
        c == '|'
    } else {
        false
    }
}

/// The operator that begins at `i`. The character behind it decides between
/// the short and the long form, so it must be there. `!->` is tried before
/// `!=`; a `!` or `:` that begins no operator is a symbol.
pub open spec fn lex_operator(s: Seq<char>, i: int) -> Lexed
    recommends
        0 <= i < s.len(),
{
    if i + 1 >= s.len() {
        Lexed::Malformed
    } else if s[i] == '!' && s[i + 1] == '-' && i + 2 < s.len() && s[i + 2] == '>' {
        Lexed::Found(TokenModel::Operation(seq![s[i], s[i + 1], s[i + 2]]), i + 3)
    } else if merges(s[i], s[i + 1]) {
        Lexed::Found(TokenModel::Operation(seq![s[i], s[i + 1]]), i + 2)
    } else if stands_alone(s[i]) {
        Lexed::Found(TokenModel::Operation(seq![s[i]]), i + 1)
    } else {
        Lexed::Found(TokenModel::Symbol(s[i]), i + 1)
    }
}

/// What begins at position `i` of the source.
pub open spec fn lex_at(s: Seq<char>, i: int) -> Lexed
    recommends
        0 <= i < s.len(),
{
    let c = s[i];
    if structural(c) is Some {
        Lexed::Found(structural(c)->0, i + 1)
    } else if c == '"' {
        let close = closing_quote(s, i + 1);
        if close < s.len() {
            Lexed::Found(TokenModel::StringLiteral(s.subrange(i + 1, close)), close + 1)
        } else {
            Lexed::Malformed
        }
    } else if c == '\'' {
        if i + 1 < s.len() {
            Lexed::Found(TokenModel::CharLiteral(s[i + 1]), i + 2)
        } else {
            Lexed::Malformed
        }
    } else if c == '<' && closing_angle(s, i + 1) < s.len() {
        let close = closing_angle(s, i + 1);
        Lexed::Found(TokenModel::Identifier(s.subrange(i, close + 1)), close + 1)
    } else if starts_operator(c) {
        lex_operator(s, i)
    } else if is_space(c) {
        Lexed::Skipped(i + 1)
    } else if is_word(c) {
        let end = word_end(s, i + 1);
        Lexed::Found(TokenModel::Identifier(s.subrange(i, end)), end)
    } else if is_digit(c) {
        let end = digits_end(s, i + 1);
        Lexed::Found(TokenModel::Number(s.subrange(i, end)), end)
    } else {
        Lexed::Found(TokenModel::Symbol(c), i + 1)
    }
}

/// The position behind what [`lex_at`] finds; the end of the source where
/// it finds the source malformed.
pub open spec fn position_after(s: Seq<char>, i: int) -> int {
    match lex_at(s, i) {
        Lexed::Found(_, next) => next,
        Lexed::Skipped(next) => next,
        Lexed::Malformed => s.len() as int,
    }
}

proof fn lemma_closing_quote(s: Seq<char>, from: int)
    requires
        1 <= from <= s.len(),
    ensures
        from <= closing_quote(s, from) <= s.len(),
    decreases s.len() - from,
{
    if from < s.len() && !(s[from] == '"' && s[from - 1] != '\\') {
        lemma_closing_quote(s, from + 1);
    }
}

proof fn lemma_closing_angle(s: Seq<char>, from: int)
    requires
        0 <= from <= s.len(),
    ensures
        from <= closing_angle(s, from) <= s.len(),
    decreases s.len() - from,
{
    if from < s.len() && s[from] != '>' {
        lemma_closing_angle(s, from + 1);
    }
}

proof fn lemma_word_end(s: Seq<char>, from: int)
    requires
        0 <= from <= s.len(),
    ensures
        from <= word_end(s, from) <= s.len(),
    decreases s.len() - from,
{
    if from < s.len() && is_word(s[from]) {
        lemma_word_end(s, from + 1);
    }
}

proof fn lemma_digits_end(s: Seq<char>, from: int)
    requires
        0 <= from <= s.len(),
    ensures
        from <= digits_end(s, from) <= s.len(),
    decreases s.len() - from,
{
    if from < s.len() && is_digit(s[from]) {
        lemma_digits_end(s, from + 1);
    }
}

/// Whatever begins at `i` ends behind `i`, and not behind the source.
pub proof fn lemma_lex_moves_on(s: Seq<char>, i: int)
    requires
        0 <= i < s.len(),
    ensures
        i < position_after(s, i) <= s.len(),
{
    lemma_closing_quote(s, i + 1);
    lemma_closing_angle(s, i + 1);
    lemma_word_end(s, i + 1);
    lemma_digits_end(s, i + 1);
}

/// The tokens found from position `i` on, behind those found before; none
/// where the source is malformed somewhere from `i` on.
pub open spec fn lex_from(s: Seq<char>, i: int, found: Seq<TokenModel>) -> Option<
    Seq<TokenModel>,
>
    decreases s.len() - i,
{
    if 0 <= i < s.len() {
        proof {
            lemma_lex_moves_on(s, i);
        }
        match lex_at(s, i) {
            Lexed::Found(token, next) => lex_from(s, next, found.push(token)),
            Lexed::Skipped(next) => lex_from(s, next, found),
            Lexed::Malformed => None,
        }
    } else {
        Some(found)
    }
}

/// The tokens of a source text; none where it is malformed: where it ends
/// inside a string literal, on the single quote of a character literal, or
/// on a character that may begin an operator.
pub open spec fn tokens_of(s: Seq<char>) -> Option<Seq<TokenModel>> {
    lex_from(s, 0, Seq::empty())
}

/// What the lexer finds at one position, in machine values.
enum Scan {
    Found(Token, usize),
    Skipped(usize),
    Malformed,
}

impl View for Scan {
    type V = Lexed;

    closed spec fn view(&self) -> Lexed {
        match self {
            Scan::Found(token, next) => Lexed::Found(token@, *next as int),
            Scan::Skipped(next) => Lexed::Skipped(*next as int),
            Scan::Malformed => Lexed::Malformed,
        }
    }
}

/// The structural token that `c` stands for.
fn structural_token(c: char) -> (found: Option<Token>)
    ensures
        match found {
            Some(token) => structural(c) == Some(token@),
            None => structural(c) is None,
        },
{
    if c == '(' {
        Some(Token::ParenOpen)
    } else if c == ')' {
        Some(Token::ParenClose)
    } else if c == '{' {
        Some(Token::BraceOpen)
    } else if c == '}' {
        Some(Token::BraceClose)
    } else if c == ';' {
        Some(Token::SemiColon)
    } else if c == '[' {
        Some(Token::SquareOpen)
    } else if c == ']' {
        Some(Token::SquareClose)
    } else {
        None
    }
}

fn find_closing_quote(chars: &Vec<char>, from: usize) -> (at: usize)
    requires
        1 <= from <= chars.len(),
    ensures
        at == closing_quote(chars@, from as int),
        from <= at <= chars.len(),
{
    let mut j: usize = from;
    while j < chars.len() && !(chars[j] == '"' && chars[j - 1] != '\\')
        invariant
            1 <= from <= j <= chars.len(),
            closing_quote(chars@, j as int) == closing_quote(chars@, from as int),
        decreases chars.len() - j,
    {
        j += 1;
    }
    j
}

fn find_closing_angle(chars: &Vec<char>, from: usize) -> (at: usize)
    requires
        from <= chars.len(),
    ensures
        at == closing_angle(chars@, from as int),
        from <= at <= chars.len(),
{
    let mut j: usize = from;
    while j < chars.len() && chars[j] != '>'
        invariant
            from <= j <= chars.len(),
            closing_angle(chars@, j as int) == closing_angle(chars@, from as int),
        decreases chars.len() - j,
    {
        j += 1;
    }
    j
}

fn find_word_end(chars: &Vec<char>, from: usize) -> (at: usize)
    requires
        from <= chars.len(),
    ensures
        at == word_end(chars@, from as int),
        from <= at <= chars.len(),
{
    let mut j: usize = from;
    while j < chars.len() && word(chars[j])
        invariant
            from <= j <= chars.len(),
            word_end(chars@, j as int) == word_end(chars@, from as int),
        decreases chars.len() - j,
    {
        j += 1;
    }
    j
}

fn find_digits_end(chars: &Vec<char>, from: usize) -> (at: usize)
    requires
        from <= chars.len(),
    ensures
        at == digits_end(chars@, from as int),
        from <= at <= chars.len(),
{
    let mut j: usize = from;
    while j < chars.len() && digit(chars[j])
        invariant
            from <= j <= chars.len(),
            digits_end(chars@, j as int) == digits_end(chars@, from as int),
        decreases chars.len() - j,
    {
        j += 1;
    }
    j
}

fn operator_start(c: char) -> (yes: bool)
    ensures
        yes == starts_operator(c),
{
    c == '<' || c == '>' || c == '-' || c == '+' || c == '*' || c == '/' || c == '=' || c == '!'
        || c == '&' || c == '|' || c == ':'
}

fn alone(c: char) -> (yes: bool)
    ensures
        yes == stands_alone(c),
{
    c == '<' || c == '>' || c == '-' || c == '+' || c == '*' || c == '/' || c == '=' || c == '&'
        || c == '|'
}

fn merged(c: char, next: char) -> (yes: bool)
    ensures
        yes == merges(c, next),
{
    if next == '=' {
        c == '<' || c == '>' || c == '-' || c == '+' || c == '*' || c == '/' || c == '=' || c
            == '!' || c == ':'
    } else if next == '>' {
        c == '-'
    } else if next == '&' {
        c == '&'
    } else if next == '|' {
        c == '|'
    } else {
        false
    }
}

/// The operator that begins at `i`.
fn scan_operator(chars: &Vec<char>, i: usize) -> (found: Scan)
    requires
        i < chars.len(),
    ensures
        found@ == lex_operator(chars@, i as int),
{
    if i + 1 >= chars.len() {
        return Scan::Malformed;
    }
    let c = chars[i];
    let next = chars[i + 1];
    let mut text = String::new();
    text.push(c);
    if c == '!' && next == '-' && i + 2 < chars.len() && chars[i + 2] == '>' {
        text.push(next);
        text.push(chars[i + 2]);
        proof {
            assert(text@ =~= seq![chars@[i as int], chars@[i + 1], chars@[i + 2]]);
        }
        Scan::Found(Token::Operation(text), i + 3)
    } else if merged(c, next) {
        text.push(next);
        proof {
            assert(text@ =~= seq![chars@[i as int], chars@[i + 1]]);
        }
        Scan::Found(Token::Operation(text), i + 2)
    } else if alone(c) {
        proof {
            assert(text@ =~= seq![chars@[i as int]]);
        }
        Scan::Found(Token::Operation(text), i + 1)
    } else {
        Scan::Found(Token::Symbol(c), i + 1)
    }
}

/// What begins at position `i`.
fn scan(chars: &Vec<char>, i: usize) -> (found: Scan)
    requires
        i < chars.len(),
    ensures
        found@ == lex_at(chars@, i as int),
{
    let c = chars[i];
    if let Some(token) = structural_token(c) {
        return Scan::Found(token, i + 1);
    }
    if c == '"' {
        let close = find_closing_quote(chars, i + 1);
        if close < chars.len() {
            Scan::Found(Token::StringLiteral(text_of(chars, i + 1, close)), close + 1)
        } else {
            Scan::Malformed
        }
    } else if c == '\'' {
        if i + 1 < chars.len() {
            Scan::Found(Token::CharLiteral(chars[i + 1]), i + 2)
        } else {
            Scan::Malformed
        }
    } else if operator_start(c) {
        if c == '<' {
            let close = find_closing_angle(chars, i + 1);
            if close < chars.len() {
                return Scan::Found(Token::Identifier(text_of(chars, i, close + 1)), close + 1);
            }
        }
        scan_operator(chars, i)
    } else if space(c) {
        Scan::Skipped(i + 1)
    } else if word(c) {
        let end = find_word_end(chars, i + 1);
        Scan::Found(Token::Identifier(text_of(chars, i, end)), end)
    } else if digit(c) {
        let end = find_digits_end(chars, i + 1);
        Scan::Found(Token::Number(text_of(chars, i, end)), end)
    } else {
        Scan::Found(Token::Symbol(c), i + 1)
    }
}

/// The tokens of `code`, in order, or `MalformedInput` where the text ends
/// inside a string literal, on the single quote of a character literal, or
/// on a character that may begin an operator.
pub fn tokenize(code: &str) -> (outcome: Result<Vec<Token>, TranslateError>)
    ensures
        match outcome {
            Ok(tokens) => tokens_of(code@) == Some(models(tokens@)),
            Err(e) => e == TranslateError::MalformedInput && tokens_of(code@) is None,
        },
{
    let chars = chars_of(code);
    let mut tokens: Vec<Token> = Vec::new();
    let mut i: usize = 0;
    proof {
        assert(models(tokens@) =~= Seq::<TokenModel>::empty());
    }
    while i < chars.len()
        invariant
            i <= chars.len(),
            chars@ == code@,
            lex_from(chars@, i as int, models(tokens@)) == tokens_of(code@),
        decreases chars.len() - i,
    {
        proof {
            lemma_lex_moves_on(chars@, i as int);
        }
        match scan(&chars, i) {
            Scan::Found(token, next) => {
                proof {
                    assert(models(tokens@.push(token)) =~= models(tokens@).push(token@));
                }
                tokens.push(token);
                i = next;
            },
            Scan::Skipped(next) => {
                i = next;
            },
            Scan::Malformed => {
                return Err(TranslateError::MalformedInput);
            },
        }
    }
    Ok(tokens)
}

/// A source made only of parentheses, braces, brackets and semicolons has
/// one token for each of its characters, the structural token of that
/// character.
pub proof fn structure_is_kept(s: Seq<char>)
    requires
        forall|i: int| 0 <= i < s.len() ==> structural(#[trigger] s[i]) is Some,
    ensures
        tokens_of(s) == Some(s.map_values(|c: char| structural(c)->0)),
        tokens_of(s)->0.len() == s.len(),
{
    lemma_structure_from(s, 0, Seq::empty());
    assert(s.subrange(0, s.len() as int) =~= s);
    assert(Seq::<TokenModel>::empty() + s.map_values(|c: char| structural(c)->0)
        =~= s.map_values(|c: char| structural(c)->0));
}

proof fn lemma_structure_from(s: Seq<char>, i: int, found: Seq<TokenModel>)
    requires
        0 <= i <= s.len(),
        forall|k: int| 0 <= k < s.len() ==> structural(#[trigger] s[k]) is Some,
    ensures
        lex_from(s, i, found) == Some(
            found + s.subrange(i, s.len() as int).map_values(|c: char| structural(c)->0),
        ),
    decreases s.len() - i,
{
    let rest = s.subrange(i, s.len() as int).map_values(|c: char| structural(c)->0);
    if i < s.len() {
        let token = structural(s[i])->0;
        lemma_structure_from(s, i + 1, found.push(token));
        let later = s.subrange(i + 1, s.len() as int).map_values(|c: char| structural(c)->0);
        assert(found.push(token) + later =~= found + rest);
    } else {
        assert(found + rest =~= found);
    }
}

/// Whether `text` is one of the operators of the language.
pub open spec fn is_operator_text(text: Seq<char>) -> bool {
    ||| text == "+"@
    ||| text == "-"@
    ||| text == "*"@
    ||| text == "/"@
    ||| text == "="@
    ||| text == "=="@
    ||| text == "!="@
    ||| text == "<"@
    ||| text == ">"@
    ||| text == "<="@
    ||| text == ">="@
    ||| text == "&&"@
    ||| text == "||"@
    ||| text == "+="@
    ||| text == "-="@
    ||| text == "*="@
    ||| text == "/="@
    ||| text == "->"@
    ||| text == "!->"@
    ||| text == ":="@
    ||| text == "&"@
    ||| text == "|"@
}

/// What the lexer promises of the text inside a token: a number is a run of
/// digits; an identifier is a run of letters and underscores, or a path in
/// angle brackets; an operation is one of the operators of the language.
pub open spec fn well_shaped(token: TokenModel) -> bool {
    match token {
        TokenModel::Number(digits) => digits.len() > 0 && forall|k: int|
            0 <= k < digits.len() ==> is_digit(#[trigger] digits[k]),
        TokenModel::Identifier(name) => {
            ||| name.len() > 0 && forall|k: int| 0 <= k < name.len() ==> is_word(#[trigger] name[k])
            ||| name.len() >= 2 && name[0] == '<' && name.last() == '>' && forall|k: int|
                1 <= k < name.len() - 1 ==> #[trigger] name[k] != '>'
        },
        TokenModel::Operation(text) => is_operator_text(text),
        _ => true,
    }
}

proof fn lemma_closing_angle_first(s: Seq<char>, from: int)
    requires
        0 <= from <= s.len(),
    ensures
        forall|k: int| from <= k < closing_angle(s, from) ==> s[k] != '>',
        closing_angle(s, from) < s.len() ==> s[closing_angle(s, from)] == '>',
    decreases s.len() - from,
{
    if from < s.len() && s[from] != '>' {
        lemma_closing_angle_first(s, from + 1);
    }
}

proof fn lemma_word_run(s: Seq<char>, from: int)
    requires
        0 <= from <= s.len(),
    ensures
        forall|k: int| from <= k < word_end(s, from) ==> is_word(s[k]),
    decreases s.len() - from,
{
    if from < s.len() && is_word(s[from]) {
        lemma_word_run(s, from + 1);
    }
}

proof fn lemma_digits_run(s: Seq<char>, from: int)
    requires
        0 <= from <= s.len(),
    ensures
        forall|k: int| from <= k < digits_end(s, from) ==> is_digit(s[k]),
    decreases s.len() - from,
{
    if from < s.len() && is_digit(s[from]) {
        lemma_digits_run(s, from + 1);
    }
}

proof fn lemma_operator_shape(s: Seq<char>, i: int)
    requires
        0 <= i < s.len(),
        starts_operator(s[i]),
    ensures
        match lex_operator(s, i) {
            Lexed::Found(token, _) => well_shaped(token),
            _ => true,
        },
{
    reveal_strlit("+");
    reveal_strlit("-");
    reveal_strlit("*");
    reveal_strlit("/");
    reveal_strlit("=");
    reveal_strlit("==");
    reveal_strlit("!=");
    reveal_strlit("<");
    reveal_strlit(">");
    reveal_strlit("<=");
    reveal_strlit(">=");
    reveal_strlit("&&");
    reveal_strlit("||");
    reveal_strlit("+=");
    reveal_strlit("-=");
    reveal_strlit("*=");
    reveal_strlit("/=");
    reveal_strlit("->");
    reveal_strlit("!->");
    reveal_strlit(":=");
    reveal_strlit("&");
    reveal_strlit("|");
    match lex_operator(s, i) {
        Lexed::Found(TokenModel::Operation(text), _) => {
            if text.len() == 1 {
                let c = s[i];
                assert(text =~= seq![c]);
                assert("+"@ =~= seq!['+']);
                assert("-"@ =~= seq!['-']);
                assert("*"@ =~= seq!['*']);
                assert("/"@ =~= seq!['/']);
                assert("="@ =~= seq!['=']);
                assert("<"@ =~= seq!['<']);
                assert(">"@ =~= seq!['>']);
                assert("&"@ =~= seq!['&']);
                assert("|"@ =~= seq!['|']);
            } else if text.len() == 2 {
                assert(text =~= seq![s[i], s[i + 1]]);
                assert("=="@ =~= seq!['=', '=']);
                assert("!="@ =~= seq!['!', '=']);
                assert("<="@ =~= seq!['<', '=']);
                assert(">="@ =~= seq!['>', '=']);
                assert("&&"@ =~= seq!['&', '&']);
                assert("||"@ =~= seq!['|', '|']);
                assert("+="@ =~= seq!['+', '=']);
                assert("-="@ =~= seq!['-', '=']);
                assert("*="@ =~= seq!['*', '=']);
                assert("/="@ =~= seq!['/', '=']);
                assert("->"@ =~= seq!['-', '>']);
                assert(":="@ =~= seq![':', '=']);
            } else {
                assert(text =~= seq!['!', '-', '>']);
                assert("!->"@ =~= seq!['!', '-', '>']);
            }
        },
        _ => {},
    }
}

/// Every token that the lexer finds is well shaped.
pub proof fn lemma_lex_at_shape(s: Seq<char>, i: int)
    requires
        0 <= i < s.len(),
    ensures
        match lex_at(s, i) {
            Lexed::Found(token, _) => well_shaped(token),
            _ => true,
        },
{
    lemma_closing_angle(s, i + 1);
    lemma_closing_angle_first(s, i + 1);
    lemma_word_end(s, i + 1);
    lemma_word_run(s, i + 1);
    lemma_digits_end(s, i + 1);
    lemma_digits_run(s, i + 1);
    if starts_operator(s[i]) {
        lemma_operator_shape(s, i);
    }
}

proof fn lemma_shapes_from(s: Seq<char>, i: int, found: Seq<TokenModel>)
    requires
        0 <= i <= s.len(),
        forall|k: int| 0 <= k < found.len() ==> well_shaped(#[trigger] found[k]),
        lex_from(s, i, found) is Some,
    ensures
        forall|k: int|
            0 <= k < lex_from(s, i, found)->0.len() ==> well_shaped(
                #[trigger] lex_from(s, i, found)->0[k],
            ),
    decreases s.len() - i,
{
    if i < s.len() {
        lemma_lex_moves_on(s, i);
        lemma_lex_at_shape(s, i);
        match lex_at(s, i) {
            Lexed::Found(token, next) => {
                lemma_shapes_from(s, next, found.push(token));
            },
            Lexed::Skipped(next) => {
                lemma_shapes_from(s, next, found);
            },
            Lexed::Malformed => {},
        }
    }
}

/// In the tokens of any source, every number is a run of digits, every
/// identifier a run of letters and underscores or a bracketed path, and
/// every operation one of the operators of the language.
pub proof fn tokens_are_well_shaped(s: Seq<char>, k: int)
    requires
        tokens_of(s) is Some,
        0 <= k < tokens_of(s)->0.len(),
    ensures
        well_shaped(tokens_of(s)->0[k]),
{
    lemma_shapes_from(s, 0, Seq::empty());
}

} // verus!
