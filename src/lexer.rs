//! Line-oriented lexer for plan files.
use vstd::prelude::*;
use crate::ast::trim_brackets;
use crate::optimizer::views;
use crate::text::{chars_of, string_of};

verus! {

/// A token of a plan file.
#[derive(Clone, Debug, PartialEq)]
pub enum Token {
    Block(String),
    Task(String),
    Duration(String),
    Tag(String),
    Priority(String),
    DependsOn(Vec<String>),
    Indent,
    Newline,
    EOF,
}

/// The contents of a token as character sequences.
pub enum TokenModel {
    Block(Seq<char>),
    Task(Seq<char>),
    Duration(Seq<char>),
    Tag(Seq<char>),
    Priority(Seq<char>),
    DependsOn(Seq<Seq<char>>),
    Indent,
    Newline,
    EOF,
}

impl View for Token {
    type V = TokenModel;

    open spec fn view(&self) -> TokenModel {
        match self {
            Token::Block(s) => TokenModel::Block(s@),
            Token::Task(s) => TokenModel::Task(s@),
            Token::Duration(s) => TokenModel::Duration(s@),
            Token::Tag(s) => TokenModel::Tag(s@),
            Token::Priority(s) => TokenModel::Priority(s@),
            Token::DependsOn(v) => TokenModel::DependsOn(views(v@)),
            Token::Indent => TokenModel::Indent,
            Token::Newline => TokenModel::Newline,
            Token::EOF => TokenModel::EOF,
        }
    }
}

/// An error of the lexer.
#[derive(Clone, Debug, PartialEq)]
pub enum LexerError {
    InvalidToken(String),
}

/// The Unicode `White_Space` characters, which `char::is_whitespace` tests for.
pub open spec fn is_ws(c: char) -> bool {
    let u = c as u32;
    (0x09 <= u && u <= 0x0D) || u == 0x20 || u == 0x85 || u == 0xA0 || u == 0x1680 || (0x2000 <= u
        && u <= 0x200A) || u == 0x2028 || u == 0x2029 || u == 0x202F || u == 0x205F || u == 0x3000
}

pub fn is_whitespace(c: char) -> (r: bool)
    ensures
        r == is_ws(c),
{
    let u = c as u32;
    (0x09 <= u && u <= 0x0D) || u == 0x20 || u == 0x85 || u == 0xA0 || u == 0x1680 || (0x2000 <= u
        && u <= 0x200A) || u == 0x2028 || u == 0x2029 || u == 0x202F || u == 0x205F || u == 0x3000
}

/// Splitting the rest `s` at `sep`, the current piece so far being `cur`.
pub open spec fn split_from(s: Seq<char>, sep: char, cur: Seq<char>) -> Seq<Seq<char>>
    decreases s.len(),
{
    if s.len() == 0 {
        seq![cur]
    } else if s[0] == sep {
        seq![cur] + split_from(s.drop_first(), sep, Seq::empty())
    } else {
        split_from(s.drop_first(), sep, cur.push(s[0]))
    }
}

/// The pieces of `s` between occurrences of `sep`, as `str::split` gives them.
pub open spec fn split_on(s: Seq<char>, sep: char) -> Seq<Seq<char>> {
    split_from(s, sep, Seq::empty())
}

/// The lines of `s`, as `str::lines` gives them: a final newline ends the last
/// line rather than starting an empty one.
pub open spec fn lines_of(s: Seq<char>) -> Seq<Seq<char>> {
    if s.len() == 0 {
        Seq::empty()
    } else if s.last() == '\n' {
        split_on(s.drop_last(), '\n')
    } else {
        split_on(s, '\n')
    }
}

/// The words of the rest `s`, the current word so far being `cur`.
pub open spec fn words_from(s: Seq<char>, cur: Seq<char>) -> Seq<Seq<char>>
    decreases s.len(),
{
    if s.len() == 0 {
        if cur.len() > 0 {
            seq![cur]
        } else {
            Seq::empty()
        }
    } else if is_ws(s[0]) {
        (if cur.len() > 0 {
            seq![cur]
        } else {
            Seq::empty()
        }) + words_from(s.drop_first(), Seq::empty())
    } else {
        words_from(s.drop_first(), cur.push(s[0]))
    }
}

/// The whitespace-separated words of `s`, as `str::split_whitespace` gives them.
pub open spec fn words(s: Seq<char>) -> Seq<Seq<char>> {
    words_from(s, Seq::empty())
}

pub open spec fn trim_start_ws(s: Seq<char>) -> Seq<char>
    decreases s.len(),
{
    if s.len() > 0 && is_ws(s[0]) {
        trim_start_ws(s.drop_first())
    } else {
        s
    }
}

pub open spec fn trim_end_ws(s: Seq<char>) -> Seq<char>
    decreases s.len(),
{
    if s.len() > 0 && is_ws(s.last()) {
        trim_end_ws(s.drop_last())
    } else {
        s
    }
}

/// `s` without leading and trailing whitespace, as `str::trim` gives it.
pub open spec fn trim_ws(s: Seq<char>) -> Seq<char> {
    trim_end_ws(trim_start_ws(s))
}

pub open spec fn starts_with(s: Seq<char>, p: Seq<char>) -> bool {
    p.len() <= s.len() && s.take(p.len() as int) == p
}

/// The token, if any, that a word after the task name stands for.
pub open spec fn attribute_tokens(p: Seq<char>) -> Seq<TokenModel> {
    if p.len() > 0 && p[0] == '[' && p.last() == ']' {
        seq![TokenModel::Duration(trim_brackets(p))]
    } else if p.len() > 0 && p[0] == '#' {
        seq![TokenModel::Tag(p.drop_first())]
    } else if starts_with(p, seq!['p', ':']) {
        seq![TokenModel::Priority(p.skip(2))]
    } else if starts_with(p, seq!['a', 'f', 't', 'e', 'r', ':']) {
        seq![TokenModel::DependsOn(split_on(p.skip(6), ','))]
    } else {
        Seq::empty()
    }
}

/// The tokens of the attribute words, in order.
pub open spec fn attributes_tokens(ws: Seq<Seq<char>>) -> Seq<TokenModel>
    decreases ws.len(),
{
    if ws.len() == 0 {
        Seq::empty()
    } else {
        attributes_tokens(ws.drop_last()) + attribute_tokens(ws.last())
    }
}

/// The tokens of one line: a blank line is a newline; `@name` opens a block;
/// any other line is a task name followed by its attributes.
pub open spec fn line_tokens(line: Seq<char>) -> Seq<TokenModel> {
    let t = trim_ws(line);
    if t.len() == 0 {
        seq![TokenModel::Newline]
    } else if t[0] == '@' {
        seq![TokenModel::Block(t.drop_first()), TokenModel::Newline]
    } else {
        let w = words(t);
        seq![TokenModel::Task(w[0])] + attributes_tokens(w.drop_first()) + seq![TokenModel::Newline]
    }
}

/// The tokens of all lines, then the end of file.
pub open spec fn lines_tokens(ls: Seq<Seq<char>>) -> Seq<TokenModel>
    decreases ls.len(),
{
    if ls.len() == 0 {
        Seq::empty()
    } else {
        lines_tokens(ls.drop_last()) + line_tokens(ls.last())
    }
}

pub open spec fn tokens_of(s: Seq<char>) -> Seq<TokenModel> {
    lines_tokens(lines_of(s)).push(TokenModel::EOF)
}

/// The models of a list of tokens.
pub open spec fn token_views(v: Seq<Token>) -> Seq<TokenModel> {
    v.map_values(|t: Token| t@)
}

/// The character sequences of a list of character vectors.
pub open spec fn char_views(v: Seq<Vec<char>>) -> Seq<Seq<char>> {
    v.map_values(|c: Vec<char>| c@)
}

fn copy_chars(s: &[char], from: usize, to: usize) -> (r: Vec<char>)
    requires
        from <= to <= s@.len(),
    ensures
        r@ == s@.subrange(from as int, to as int),
{
    let mut r: Vec<char> = Vec::new();
    let mut i = from;
    while i < to
        invariant
            from <= i <= to <= s@.len(),
            r@ == s@.subrange(from as int, i as int),
        decreases to - i,
    {
        r.push(s[i]);
        assert(s@.subrange(from as int, i + 1) == s@.subrange(from as int, i as int).push(s@[i as int]));
        i = i + 1;
    }
    r
}

/// The pieces of `s` between occurrences of `sep`.
pub fn split_pieces(s: &[char], sep: char) -> (r: Vec<Vec<char>>)
    ensures
        char_views(r@) == split_on(s@, sep),
{
    let mut r: Vec<Vec<char>> = Vec::new();
    let mut cur: Vec<char> = Vec::new();
    let mut i: usize = 0;
    assert(s@.skip(0) == s@);
    assert(char_views(r@) == Seq::<Seq<char>>::empty());
    assert(cur@ == Seq::<char>::empty());
    while i < s.len()
        invariant
            i <= s@.len(),
            char_views(r@) + split_from(s@.skip(i as int), sep, cur@) == split_on(s@, sep),
        decreases s@.len() - i,
    {
        let ghost rest = s@.skip(i as int);
        assert(rest.drop_first() == s@.skip(i + 1));
        assert(rest[0] == s@[i as int]);
        if s[i] == sep {
            let ghost c = cur@;
            let ghost r0 = r@;
            r.push(cur);
            cur = Vec::new();
            assert(char_views(r@) == char_views(r0).push(c));
            assert(char_views(r@) + split_from(s@.skip(i + 1), sep, cur@) == char_views(r0) + (seq![c] + split_from(
                rest.drop_first(), sep, Seq::empty())));
        } else {
            cur.push(s[i]);
        }
        i = i + 1;
    }
    let ghost r0 = r@;
    let ghost c = cur@;
    assert(s@.skip(i as int).len() == 0);
    r.push(cur);
    assert(char_views(r@) == char_views(r0).push(c));
    r
}

/// The whitespace-separated words of `s`.
pub fn split_words(s: &[char]) -> (r: Vec<Vec<char>>)
    ensures
        char_views(r@) == words(s@),
{
    let mut r: Vec<Vec<char>> = Vec::new();
    let mut cur: Vec<char> = Vec::new();
    let mut i: usize = 0;
    assert(s@.skip(0) == s@);
    assert(char_views(r@) == Seq::<Seq<char>>::empty());
    assert(cur@ == Seq::<char>::empty());
    while i < s.len()
        invariant
            i <= s@.len(),
            char_views(r@) + words_from(s@.skip(i as int), cur@) == words(s@),
        decreases s@.len() - i,
    {
        let ghost rest = s@.skip(i as int);
        assert(rest.drop_first() == s@.skip(i + 1));
        assert(rest[0] == s@[i as int]);
        if is_whitespace(s[i]) {
            let ghost c = cur@;
            let ghost r0 = r@;
            if cur.len() > 0 {
                r.push(cur);
                assert(char_views(r@) == char_views(r0).push(c));
            }
            cur = Vec::new();
            assert(char_views(r@) + words_from(s@.skip(i + 1), cur@) == char_views(r0) + ((if c.len() > 0 {
                seq![c]
            } else {
                Seq::empty()
            }) + words_from(rest.drop_first(), Seq::empty())));
        } else {
            cur.push(s[i]);
        }
        i = i + 1;
    }
    let ghost r0 = r@;
    let ghost c = cur@;
    if cur.len() > 0 {
        r.push(cur);
        assert(char_views(r@) == char_views(r0).push(c));
    }
    r
}

/// The bounds of `s` without leading and trailing whitespace.
pub fn trim_bounds(s: &[char]) -> (r: (usize, usize))
    ensures
        r.0 <= r.1 <= s@.len(),
        trim_ws(s@) == s@.subrange(r.0 as int, r.1 as int),
{
    let n = s.len();
    let mut i: usize = 0;
    assert(s@.subrange(0, n as int) == s@);
    while i < n && is_whitespace(s[i])
        invariant
            i <= n == s@.len(),
            trim_start_ws(s@) == trim_start_ws(s@.subrange(i as int, n as int)),
        decreases n - i,
    {
        assert(s@.subrange(i as int, n as int).drop_first() == s@.subrange(i + 1, n as int));
        i = i + 1;
    }
    let mut j: usize = n;
    while j > i && is_whitespace(s[j - 1])
        invariant
            i <= j <= n == s@.len(),
            trim_start_ws(s@) == s@.subrange(i as int, n as int),
            trim_ws(s@) == trim_end_ws(s@.subrange(i as int, j as int)),
        decreases j,
    {
        assert(s@.subrange(i as int, j as int).drop_last() == s@.subrange(i as int, j - 1));
        j = j - 1;
    }
    (i, j)
}

fn has_prefix(p: &Vec<char>, q: &[char]) -> (r: bool)
    ensures
        r == starts_with(p@, q@),
{
    if q.len() > p.len() {
        return false;
    }
    let mut i: usize = 0;
    while i < q.len()
        invariant
            q@.len() <= p@.len(),
            i <= q@.len(),
            forall|k: int| 0 <= k < i ==> p@[k] == q@[k],
        decreases q@.len() - i,
    {
        if p[i] != q[i] {
            assert(p@.take(q@.len() as int)[i as int] != q@[i as int]);
            return false;
        }
        i = i + 1;
    }
    assert(p@.take(q@.len() as int) == q@);
    true
}

/// `p` without its leading and trailing brackets.
pub(crate) fn without_brackets(p: &Vec<char>) -> (r: Vec<char>)
    ensures
        r@ == trim_brackets(p@),
{
    let n = p.len();
    let mut a: usize = 0;
    assert(p@.subrange(0, n as int) == p@);
    while a < n && (p[a] == '[' || p[a] == ']')
        invariant
            a <= n == p@.len(),
            crate::ast::trim_start_brackets(p@) == crate::ast::trim_start_brackets(p@.subrange(a as int, n as int)),
        decreases n - a,
    {
        assert(p@.subrange(a as int, n as int).drop_first() == p@.subrange(a + 1, n as int));
        a = a + 1;
    }
    let mut b: usize = n;
    while b > a && (p[b - 1] == '[' || p[b - 1] == ']')
        invariant
            a <= b <= n == p@.len(),
            crate::ast::trim_start_brackets(p@) == p@.subrange(a as int, n as int),
            trim_brackets(p@) == crate::ast::trim_end_brackets(p@.subrange(a as int, b as int)),
        decreases b,
    {
        assert(p@.subrange(a as int, b as int).drop_last() == p@.subrange(a as int, b - 1));
        b = b - 1;
    }
    copy_chars(p.as_slice(), a, b)
}

/// The token that an attribute word stands for, if any.
fn attribute_token(p: &Vec<char>) -> (r: Option<Token>)
    ensures
        attribute_tokens(p@) == (match r {
            Some(t) => seq![t@],
            None => Seq::empty(),
        }),
{
    let n = p.len();
    if n > 0 && p[0] == '[' && p[n - 1] == ']' {
        let body = without_brackets(p);
        return Some(Token::Duration(string_of(body.as_slice())));
    }
    if n > 0 && p[0] == '#' {
        let body = copy_chars(p.as_slice(), 1, n);
        assert(body@ == p@.drop_first());
        return Some(Token::Tag(string_of(body.as_slice())));
    }
    let pq: [char; 2] = ['p', ':'];
    let ghost pqs = seq!['p', ':'];
    assert(pq@ == pqs);
    if has_prefix(p, &pq) {
        let body = copy_chars(p.as_slice(), 2, n);
        assert(body@ == p@.skip(2));
        return Some(Token::Priority(string_of(body.as_slice())));
    }
    let af: [char; 6] = ['a', 'f', 't', 'e', 'r', ':'];
    assert(af@ == seq!['a', 'f', 't', 'e', 'r', ':']);
    if has_prefix(p, &af) {
        let body = copy_chars(p.as_slice(), 6, n);
        assert(body@ == p@.skip(6));
        let pieces = split_pieces(body.as_slice(), ',');
        let names = strings_of(&pieces);
        return Some(Token::DependsOn(names));
    }
    None
}

/// Each character vector as a string.
fn strings_of(v: &Vec<Vec<char>>) -> (r: Vec<String>)
    ensures
        views(r@) == char_views(v@),
{
    let mut r: Vec<String> = Vec::new();
    let mut i: usize = 0;
    while i < v.len()
        invariant
            i <= v@.len(),
            views(r@) == char_views(v@.take(i as int)),
        decreases v@.len() - i,
    {
        let s = string_of(v[i].as_slice());
        let ghost r0 = r@;
        r.push(s);
        assert(views(r@) == views(r0).push(s@));
        assert(v@.take(i + 1) == v@.take(i as int).push(v@[i as int]));
        assert(char_views(v@.take(i + 1)) == char_views(v@.take(i as int)).push(v@[i as int]@));
        i = i + 1;
    }
    assert(v@.take(v@.len() as int) == v@);
    r
}

/// Appends the tokens of one line.
fn push_line_tokens(tokens: &mut Vec<Token>, line: &[char])
    ensures
        token_views(final(tokens)@) == token_views(old(tokens)@) + line_tokens(line@),
{
    let (a, b) = trim_bounds(line);
    let t = copy_chars(line, a, b);
    let ghost t0 = token_views(tokens@);
    if t.len() == 0 {
        tokens.push(Token::Newline);
        assert(token_views(tokens@) == t0.push(TokenModel::Newline));
        return;
    }
    if t[0] == '@' {
        let body = copy_chars(t.as_slice(), 1, t.len());
        assert(body@ == t@.drop_first());
        let name = string_of(body.as_slice());
        tokens.push(Token::Block(name));
        tokens.push(Token::Newline);
        assert(token_views(tokens@) == t0.push(TokenModel::Block(t@.drop_first())).push(TokenModel::Newline));
        return;
    }
    let w = split_words(t.as_slice());
    proof {
        lemma_trim_first(line@);
        lemma_words_nonempty(t@);
    }
    let name = string_of(w[0].as_slice());
    tokens.push(Token::Task(name));
    let ghost ws = char_views(w@);
    assert(token_views(tokens@) == t0 + seq![TokenModel::Task(ws[0])]);
    let mut k: usize = 1;
    while k < w.len()
        invariant
            1 <= k <= w@.len(),
            ws == char_views(w@),
            token_views(tokens@) == t0 + seq![TokenModel::Task(ws[0])] + attributes_tokens(ws.drop_first().take(k - 1)),
        decreases w@.len() - k,
    {
        let ghost before = token_views(tokens@);
        match attribute_token(&w[k]) {
            Some(tok) => {
                tokens.push(tok);
                assert(token_views(tokens@) == before.push(tok@));
            },
            None => {},
        }
        proof {
            let d = ws.drop_first();
            assert(d.take(k as int).drop_last() == d.take(k - 1));
            assert(d.take(k as int).last() == w@[k as int]@);
        }
        k = k + 1;
    }
    let ghost before = token_views(tokens@);
    tokens.push(Token::Newline);
    assert(token_views(tokens@) == before.push(TokenModel::Newline));
    assert(ws.drop_first().take(w@.len() - 1) == ws.drop_first());
}

proof fn lemma_words_from_nonempty(s: Seq<char>, cur: Seq<char>)
    requires
        cur.len() > 0 || (s.len() > 0 && !is_ws(s[0])),
    ensures
        words_from(s, cur).len() > 0,
    decreases s.len(),
{
    if s.len() > 0 {
        if !is_ws(s[0]) {
            lemma_words_from_nonempty(s.drop_first(), cur.push(s[0]));
        }
    }
}

proof fn lemma_trim_start_first(s: Seq<char>)
    ensures
        trim_start_ws(s).len() == 0 || !is_ws(trim_start_ws(s)[0]),
    decreases s.len(),
{
    if s.len() > 0 && is_ws(s[0]) {
        lemma_trim_start_first(s.drop_first());
    }
}

proof fn lemma_trim_end_prefix(s: Seq<char>)
    ensures
        trim_end_ws(s).len() <= s.len(),
        trim_end_ws(s) == s.take(trim_end_ws(s).len() as int),
    decreases s.len(),
{
    if s.len() > 0 && is_ws(s.last()) {
        lemma_trim_end_prefix(s.drop_last());
        assert(s.drop_last().take(trim_end_ws(s).len() as int) == s.take(trim_end_ws(s).len() as int));
    } else {
        assert(s.take(s.len() as int) == s);
    }
}

/// A trimmed text that is not empty starts with a character that is not whitespace.
proof fn lemma_trim_first(s: Seq<char>)
    ensures
        trim_ws(s).len() == 0 || !is_ws(trim_ws(s)[0]),
{
    lemma_trim_start_first(s);
    let u = trim_start_ws(s);
    lemma_trim_end_prefix(u);
    if trim_ws(s).len() > 0 {
        assert(trim_ws(s)[0] == u.take(trim_ws(s).len() as int)[0]);
    }
}

proof fn lemma_words_nonempty(t: Seq<char>)
    requires
        t.len() > 0,
        !is_ws(t[0]),
    ensures
        words(t).len() > 0,
{
    lemma_words_from_nonempty(t, Seq::empty());
}

/// Splits plan text into tokens, line by line: blank lines give a newline,
/// `@name` lines open a block, other lines give the task name and the
/// attributes `[duration]`, `#tag`, `p:priority` and `after:a,b`; words of
/// any other form are skipped. The list ends with `EOF`.
pub fn tokenize(input: &str) -> (r: Vec<Token>)
    ensures
        token_views(r@) == tokens_of(input@),
{
    let cs = chars_of(input);
    let mut tokens: Vec<Token> = Vec::new();
    if cs.len() > 0 {
        let n = cs.len();
        let body_len: usize = if cs[n - 1] == '\n' { n - 1 } else { n };
        let body = copy_chars(cs.as_slice(), 0, body_len);
        proof {
            if cs@.last() == '\n' {
                assert(body@ == cs@.drop_last());
            } else {
                assert(body@ == cs@);
            }
        }
        let lines = split_pieces(body.as_slice(), '\n');
        let ghost ls = char_views(lines@);
        let mut i: usize = 0;
        while i < lines.len()
            invariant
                i <= lines@.len(),
                ls == char_views(lines@),
                token_views(tokens@) == lines_tokens(ls.take(i as int)),
            decreases lines@.len() - i,
        {
            push_line_tokens(&mut tokens, lines[i].as_slice());
            assert(ls.take(i + 1).drop_last() == ls.take(i as int));
            i = i + 1;
        }
        assert(ls.take(lines@.len() as int) == ls);
    }
    let ghost before = token_views(tokens@);
    tokens.push(Token::EOF);
    assert(token_views(tokens@) == before.push(TokenModel::EOF));
    tokens
}

/// The position of the first `c` in `s`, or the length of `s` when there is none.
pub open spec fn first_at(s: Seq<char>, c: char) -> nat
    decreases s.len(),
{
    if s.len() == 0 || s[0] == c {
        0
    } else {
        1 + first_at(s.drop_first(), c)
    }
}

/// Name and parameters of `name(a, b)`: the name before the first `(`, the
/// parameters between it and the first `)`, split at commas and trimmed.
/// Without such a pair the whole text is the name and there are no parameters.
pub open spec fn task_parts(s: Seq<char>) -> (Seq<char>, Seq<Seq<char>>) {
    let o = first_at(s, '(');
    let c = first_at(s, ')');
    if o < s.len() && c < s.len() && o < c {
        (s.take(o as int), split_on(s.subrange((o + 1) as int, c as int), ',').map_values(|p: Seq<char>| trim_ws(p)))
    } else {
        (s, Seq::empty())
    }
}

proof fn lemma_first_at(s: Seq<char>, c: char)
    ensures
        first_at(s, c) <= s.len(),
        first_at(s, c) < s.len() ==> s[first_at(s, c) as int] == c,
        forall|k: int| 0 <= k < first_at(s, c) ==> s[k] != c,
    decreases s.len(),
{
    if s.len() > 0 && s[0] != c {
        lemma_first_at(s.drop_first(), c);
        assert forall|k: int| 0 <= k < first_at(s, c) implies s[k] != c by {
            if k > 0 {
                assert(s[k] == s.drop_first()[k - 1]);
            }
        }
    }
}

fn find_char(s: &[char], c: char) -> (r: usize)
    ensures
        r == first_at(s@, c),
{
    let mut i: usize = 0;
    assert(s@.skip(0) == s@);
    while i < s.len() && s[i] != c
        invariant
            i <= s@.len(),
            first_at(s@, c) == i + first_at(s@.skip(i as int), c),
        decreases s@.len() - i,
    {
        assert(s@.skip(i as int).drop_first() == s@.skip(i + 1));
        i = i + 1;
    }
    if i < s.len() {
        assert(s@.skip(i as int)[0] == c);
    }
    i
}

/// Splits `name(a, b)` into its name and its trimmed parameters.
pub fn extract_task_params(task_str: &str) -> (r: (String, Vec<String>))
    ensures
        r.0@ == task_parts(task_str@).0,
        views(r.1@) == task_parts(task_str@).1,
{
    let cs = chars_of(task_str);
    assert(cs@.skip(0) == cs@);
    let o = find_char(cs.as_slice(), '(');
    let c = find_char(cs.as_slice(), ')');
    if o < cs.len() && c < cs.len() && o < c {
        let name = copy_chars(cs.as_slice(), 0, o);
        let inner = copy_chars(cs.as_slice(), o + 1, c);
        let pieces = split_pieces(inner.as_slice(), ',');
        let mut params: Vec<String> = Vec::new();
        let mut i: usize = 0;
        let ghost want = split_on(inner@, ',').map_values(|p: Seq<char>| trim_ws(p));
        while i < pieces.len()
            invariant
                i <= pieces@.len(),
                char_views(pieces@) == split_on(inner@, ','),
                want == split_on(inner@, ',').map_values(|p: Seq<char>| trim_ws(p)),
                views(params@) == want.take(i as int),
            decreases pieces@.len() - i,
        {
            let (a, b) = trim_bounds(pieces[i].as_slice());
            let t = copy_chars(pieces[i].as_slice(), a, b);
            let ghost initial = params@;
            params.push(string_of(t.as_slice()));
            proof {
                assert(views(params@) == views(initial).push(t@));
                assert(want[i as int] == trim_ws(pieces@[i as int]@));
                assert(want.take(i + 1) == want.take(i as int).push(want[i as int]));
            }
            i = i + 1;
        }
        assert(want.take(pieces@.len() as int) == want);
        (string_of(name.as_slice()), params)
    } else {
        (string_of(cs.as_slice()), Vec::new())
    }
}

} // verus!
