//! The compact plan notation: `@block` headers, `name(params)` tasks and
//! `[NNh]` / `[NNm]` durations, read as a flat token stream.
use vstd::prelude::*;
use crate::ast::trim_brackets;
use crate::text::{parse_u64, u64_of};
use crate::lexer::{char_views, first_at, split_on, split_pieces, trim_bounds, trim_ws};
use crate::optimizer::views;
use crate::text::{chars_of, decimal, push_char, push_decimal, string_of};

verus! {

/// A token of the compact notation.
#[derive(Clone, Debug, PartialEq)]
pub enum Token {
    At,
    Task(String),
    Duration(String),
    Newline,
    Indent,
    Error,
}

/// The contents of a compact-notation token.
pub enum DslTokenModel {
    At,
    Task(Seq<char>),
    Duration(Seq<char>),
    Newline,
    Indent,
    Error,
}

impl View for Token {
    type V = DslTokenModel;

    open spec fn view(&self) -> DslTokenModel {
        match self {
            Token::At => DslTokenModel::At,
            Token::Task(s) => DslTokenModel::Task(s@),
            Token::Duration(s) => DslTokenModel::Duration(s@),
            Token::Newline => DslTokenModel::Newline,
            Token::Indent => DslTokenModel::Indent,
            Token::Error => DslTokenModel::Error,
        }
    }
}

/// What `u32::from_str` accepts: an optional `+`, then at least one decimal
/// digit, with a value that fits in 32 bits.
pub open spec fn u32_of(s: Seq<char>) -> Option<u32> {
    match u64_of(s) {
        Some(v) => if v <= u32::MAX {
            Some(v as u32)
        } else {
            None
        },
        None => None,
    }
}

/// The minutes of a duration text `NNh` or `NNm`, brackets around it
/// ignored; `None` for other text and for hours whose minutes overflow.
pub open spec fn compact_minutes_of(s: Seq<char>) -> Option<u32> {
    let t = trim_brackets(s);
    if t.len() > 0 && t.last() == 'h' {
        match u32_of(t.drop_last()) {
            Some(h) => if h * 60 <= u32::MAX {
                Some((h * 60) as u32)
            } else {
                None
            },
            None => None,
        }
    } else if t.len() > 0 && t.last() == 'm' {
        u32_of(t.drop_last())
    } else {
        None
    }
}

/// The short form of a minute count: whole hours as `NNh`, else `NNm`.
pub open spec fn short_duration(m: nat) -> Seq<char> {
    if m % 60 == 0 {
        decimal(m / 60).push('h')
    } else {
        decimal(m).push('m')
    }
}

/// What `std::time::Duration::from_secs` returns for a number of seconds.
pub uninterp spec fn duration_of_secs(secs: u64) -> std::time::Duration;

/// Relies on `std::time::Duration::from_secs`: the duration of exactly
/// `secs` whole seconds, which depends on `secs` alone.
#[verifier::external_body]
fn std_duration(secs: u64) -> (r: std::time::Duration)
    ensures
        r == duration_of_secs(secs),
{
    std::time::Duration::from_secs(secs)
}

/// A task length in the compact notation, in whole minutes.
#[derive(Clone, Copy, Debug, PartialEq, Eq, Structural)]
pub struct TaskDuration {
    pub minutes: u32,
}

impl TaskDuration {
    /// Parses `[2h]`, `30m` and the like; see `compact_minutes_of`.
    pub fn from_str(s: &str) -> (r: Option<TaskDuration>)
        ensures
            r == (match compact_minutes_of(s@) {
                Some(m) => Some(TaskDuration { minutes: m }),
                None => None,
            }),
    {
        let cs = chars_of(s);
        let t = crate::lexer::without_brackets(&cs);
        let n = t.len();
        if n == 0 {
            return None;
        }
        let body = vstd::slice::slice_subrange(t.as_slice(), 0, n - 1);
        assert(body@ == t@.drop_last());
        let last = t[n - 1];
        if last != 'h' && last != 'm' {
            return None;
        }
        let v = match parse_u64(body) {
            Some(v) => v,
            None => return None,
        };
        if v > 0xFFFF_FFFF {
            return None;
        }
        let v = v as u32;
        if last == 'h' {
            if v > u32::MAX / 60 {
                None
            } else {
                Some(TaskDuration { minutes: v * 60 })
            }
        } else {
            Some(TaskDuration { minutes: v })
        }
    }

    /// `2h` when the minutes are whole hours, else `NNm`.
    pub fn to_string(&self) -> (r: String)
        ensures
            r@ == short_duration(self.minutes as nat),
    {
        let mut s = String::new();
        if self.minutes % 60 == 0 {
            push_decimal(&mut s, (self.minutes / 60) as u64);
            push_char(&mut s, 'h');
        } else {
            push_decimal(&mut s, self.minutes as u64);
            push_char(&mut s, 'm');
        }
        s
    }

    /// The duration as a `std::time::Duration`.
    pub fn to_std(&self) -> (r: std::time::Duration)
        ensures
            r == duration_of_secs((self.minutes * 60) as u64),
    {
        std_duration(self.minutes as u64 * 60)
    }
}

/// Errors of the compact-notation front end.
#[derive(Clone, Debug, PartialEq)]
pub enum Error {
    IoError(String),
    LexError { line: usize, col: usize, message: String },
    ParseError { line: usize, col: usize, message: String },
    SemanticError(String),
    FileNotFound(String),
    Other(String),
}

pub open spec fn is_blank(c: char) -> bool {
    c == ' ' || c == '\t'
}

pub open spec fn is_ident_start(c: char) -> bool {
    ('a' <= c && c <= 'z') || ('A' <= c && c <= 'Z') || c == '_'
}

pub open spec fn is_ident_char(c: char) -> bool {
    is_ident_start(c) || ('0' <= c && c <= '9')
}

pub open spec fn is_unit(c: char) -> bool {
    c == 'h' || c == 'H' || c == 'm' || c == 'M'
}

/// The length of the leading run of characters satisfying `f`.
pub open spec fn run_len(s: Seq<char>, f: spec_fn(char) -> bool) -> nat
    decreases s.len(),
{
    if s.len() > 0 && f(s[0]) {
        1 + run_len(s.drop_first(), f)
    } else {
        0
    }
}

pub open spec fn blank() -> spec_fn(char) -> bool {
    |c: char| is_blank(c)
}

pub open spec fn ident_char() -> spec_fn(char) -> bool {
    |c: char| is_ident_char(c)
}

pub open spec fn digit() -> spec_fn(char) -> bool {
    |c: char| '0' <= c && c <= '9'
}

/// The length of a task token at the start of `s` (which starts with an
/// identifier character): the identifier, and a following `(...)` group when
/// its closing parenthesis exists.
pub open spec fn task_len(s: Seq<char>) -> nat {
    let k = run_len(s, ident_char());
    let j = first_at(s.skip(k as int), ')');
    if k < s.len() && s[k as int] == '(' && k + j < s.len() {
        k + j + 1
    } else {
        k
    }
}

/// The length of a duration token `[digits unit]` at the start of `s`, or 0.
pub open spec fn duration_len(s: Seq<char>) -> nat {
    let d = run_len(s.drop_first(), digit());
    if s.len() > 0 && s[0] == '[' && d >= 1 && d + 2 < s.len() && is_unit(s[(d + 1) as int]) && s[(d + 2) as int] == ']' {
        d + 3
    } else {
        0
    }
}

/// One step of the lexer on a non-empty rest `s`: the tokens it yields, how
/// many characters it consumes, and whether the next step is at a line start.
pub open spec fn lex_step(s: Seq<char>, line_start: bool) -> (Seq<DslTokenModel>, nat, bool) {
    let c = s[0];
    if line_start && is_blank(c) {
        (seq![DslTokenModel::Indent], run_len(s, blank()), false)
    } else if c == '\n' {
        (seq![DslTokenModel::Newline], 1, true)
    } else if is_blank(c) || c == '\r' {
        (Seq::empty(), 1, false)
    } else if c == '@' {
        (seq![DslTokenModel::At], 1, false)
    } else if is_ident_start(c) {
        (seq![DslTokenModel::Task(s.take(task_len(s) as int))], task_len(s), false)
    } else if duration_len(s) > 0 {
        (seq![DslTokenModel::Duration(s.take(duration_len(s) as int))], duration_len(s), false)
    } else {
        (seq![DslTokenModel::Error], 1, false)
    }
}

/// The tokens of `s`. Blanks at the start of a line give `Indent`, other blanks
/// and carriage returns are skipped, and a character that starts no token
/// gives `Error`.
pub open spec fn lex_tokens(s: Seq<char>, line_start: bool) -> Seq<DslTokenModel>
    decreases s.len(),
{
    if s.len() == 0 {
        Seq::empty()
    } else {
        let (t, n, ls) = lex_step(s, line_start);
        if 1 <= n <= s.len() {
            t + lex_tokens(s.skip(n as int), ls)
        } else {
            Seq::empty()
        }
    }
}

pub open spec fn dsl_views(v: Seq<Token>) -> Seq<DslTokenModel> {
    v.map_values(|t: Token| t@)
}

proof fn lemma_run_len(s: Seq<char>, f: spec_fn(char) -> bool)
    ensures
        run_len(s, f) <= s.len(),
        forall|k: int| 0 <= k < run_len(s, f) ==> f(s[k]),
        run_len(s, f) < s.len() ==> !f(s[run_len(s, f) as int]),
    decreases s.len(),
{
    if s.len() > 0 && f(s[0]) {
        lemma_run_len(s.drop_first(), f);
        assert forall|k: int| 0 <= k < run_len(s, f) implies f(s[k]) by {
            if k > 0 {
                assert(s[k] == s.drop_first()[k - 1]);
            }
        }
        if run_len(s, f) < s.len() {
            assert(s[run_len(s, f) as int] == s.drop_first()[run_len(s, f) - 1]);
        }
    }
}

fn in_class(c: char, which: u8) -> (r: bool)
    requires
        which <= 2,
    ensures
        r == (if which == 0 { blank() } else if which == 1 { ident_char() } else { digit() })(c),
{
    if which == 0 {
        c == ' ' || c == '\t'
    } else if which == 1 {
        ('a' <= c && c <= 'z') || ('A' <= c && c <= 'Z') || c == '_' || ('0' <= c && c <= '9')
    } else {
        '0' <= c && c <= '9'
    }
}

fn run_from(s: &[char], i: usize, which: u8) -> (r: usize)
    requires
        i <= s@.len(),
        which <= 2,
    ensures
        i <= r <= s@.len(),
        r - i == run_len(s@.skip(i as int), if which == 0 { blank() } else if which == 1 { ident_char() } else { digit() }),
{
    let ghost f = if which == 0 { blank() } else if which == 1 { ident_char() } else { digit() };
    let mut j = i;
    while j < s.len() && in_class(s[j], which)
        invariant
            i <= j <= s@.len(),
            which <= 2,
            f == (if which == 0 { blank() } else if which == 1 { ident_char() } else { digit() }),
            run_len(s@.skip(i as int), f) == (j - i) + run_len(s@.skip(j as int), f),
        decreases s@.len() - j,
    {
        assert(s@.skip(j as int)[0] == s@[j as int]);
        assert(s@.skip(j as int).drop_first() == s@.skip(j + 1));
        j = j + 1;
    }
    if j < s.len() {
        assert(s@.skip(j as int)[0] == s@[j as int]);
    }
    j
}

/// Where the task token starting at `i` ends.
fn task_end(s: &[char], i: usize) -> (r: usize)
    requires
        i < s@.len(),
    ensures
        i <= r <= s@.len(),
        r - i == task_len(s@.skip(i as int)),
{
    let n = s.len();
    let ghost rest = s@.skip(i as int);
    let k = run_from(s, i, 1);
    proof { lemma_run_len(rest, ident_char()); }
    let mut end = k;
    proof {
        assert(rest.skip(k - i) == s@.skip(k as int));
    }
    if k < n && s[k] == '(' {
        let mut j = k;
        assert(s@.skip(k as int) == s@.skip(j as int));
        while j < n && s[j] != ')'
            invariant
                k <= j <= n == s@.len(),
                first_at(s@.skip(k as int), ')') == (j - k) + first_at(s@.skip(j as int), ')'),
            decreases n - j,
        {
            assert(s@.skip(j as int)[0] == s@[j as int]);
            assert(s@.skip(j as int).drop_first() == s@.skip(j + 1));
            j = j + 1;
        }
        if j < n {
            assert(s@.skip(j as int)[0] == s@[j as int]);
            end = j + 1;
        }
        assert(rest[k - i] == s@[k as int]);
    } else {
        proof {
            if k < n {
                assert(rest[k - i] == s@[k as int]);
            }
        }
    }
    end
}

/// The length of the duration token at `i`, or 0 when there is none.
fn duration_at(s: &[char], i: usize) -> (r: usize)
    requires
        i < s@.len(),
    ensures
        r == duration_len(s@.skip(i as int)),
        r <= s@.len() - i,
{
    let n = s.len();
    let ghost rest = s@.skip(i as int);
    assert(rest[0] == s@[i as int]);
    let mut dl: usize = 0;
    if s[i] == '[' {
        let d = run_from(s, i + 1, 2);
        proof {
            assert(rest.drop_first() == s@.skip(i + 1));
            lemma_run_len(rest.drop_first(), digit());
        }
        let dd = d - (i + 1);
        if dd >= 1 && d < n && n - d > 1 && (s[d] == 'h' || s[d] == 'H' || s[d] == 'm' || s[d] == 'M') && s[d + 1] == ']' {
            dl = dd + 3;
            assert(rest[dd + 1] == s@[d as int] && rest[dd + 2] == s@[d + 1]);
        } else {
            proof {
                if dd >= 1 && dd + 2 < rest.len() {
                    assert(rest[dd + 1] == s@[d as int] && rest[dd + 2] == s@[d + 1]);
                }
            }
        }
    }
    dl
}

/// The tokens of a text in the compact notation.
#[verifier::rlimit(80)]
pub fn lex(input: &str) -> (r: Vec<Token>)
    ensures
        dsl_views(r@) == lex_tokens(input@, true),
{
    let s = chars_of(input);
    let n = s.len();
    let mut r: Vec<Token> = Vec::new();
    let mut i: usize = 0;
    let mut line_start = true;
    assert(s@.skip(0) == s@);
    while i < n
        invariant
            n == s@.len(),
            i <= n,
            dsl_views(r@) + lex_tokens(s@.skip(i as int), line_start) == lex_tokens(s@, true),
        decreases n - i,
    {
        let ghost rest = s@.skip(i as int);
        let ghost r0 = dsl_views(r@);
        let ls0 = line_start;
        let c = s[i];
        assert(rest[0] == c);
        let next: usize;
        let tok: Option<Token>;
        if line_start && (c == ' ' || c == '\t') {
            next = run_from(s.as_slice(), i, 0);
            tok = Some(Token::Indent);
            line_start = false;
            proof { lemma_run_len(rest, blank()); }
        } else if c == '\n' {
            next = i + 1;
            tok = Some(Token::Newline);
            line_start = true;
        } else if c == ' ' || c == '\t' || c == '\r' {
            next = i + 1;
            tok = None;
            line_start = false;
        } else if c == '@' {
            next = i + 1;
            tok = Some(Token::At);
            line_start = false;
        } else if ('a' <= c && c <= 'z') || ('A' <= c && c <= 'Z') || c == '_' {
            let end = task_end(s.as_slice(), i);
            let text = vstd::slice::slice_subrange(s.as_slice(), i, end);
            assert(text@ == rest.take(task_len(rest) as int));
            tok = Some(Token::Task(string_of(text)));
            next = end;
            line_start = false;
        } else {
            let dl = duration_at(s.as_slice(), i);
            if dl > 0 {
                let text = vstd::slice::slice_subrange(s.as_slice(), i, i + dl);
                assert(text@ == rest.take(dl as int));
                tok = Some(Token::Duration(string_of(text)));
                next = i + dl;
            } else {
                tok = Some(Token::Error);
                next = i + 1;
            }
            line_start = false;
        }
        let ghost tv = match &tok {
            Some(t) => seq![t@],
            None => Seq::<DslTokenModel>::empty(),
        };
        match tok {
            Some(t) => {
                r.push(t);
                assert(dsl_views(r@) == r0.push(t@));
            },
            None => {},
        }
        proof {
            let st = lex_step(rest, ls0);
            assert(st.0 == tv);
            assert(st.1 == next - i);
            assert(st.2 == line_start);
            assert(rest.skip((next - i) as int) == s@.skip(next as int));
        }
        i = next;
    }
    r
}

impl Token {
    /// The tokens of a text in the compact notation; see `lex`.
    pub fn lexer(input: &str) -> (r: Vec<Token>)
        ensures
            dsl_views(r@) == lex_tokens(input@, true),
    {
        lex(input)
    }
}

/// `s` without its trailing closing parentheses.
pub open spec fn trim_end_parens(s: Seq<char>) -> Seq<char>
    decreases s.len(),
{
    if s.len() > 0 && s.last() == ')' {
        trim_end_parens(s.drop_last())
    } else {
        s
    }
}

/// Name and parameters of a task written `name(a, b)`: the trimmed text
/// before the first `(`, and the text after it without trailing `)`, split at
/// commas and trimmed (no parameters when that text is empty). Text without
/// `(` is not a task.
pub open spec fn task_text_parts(s: Seq<char>) -> Option<(Seq<char>, Seq<Seq<char>>)> {
    let t = trim_ws(s);
    let o = first_at(t, '(');
    if o < t.len() {
        let rest = trim_end_parens(t.skip((o + 1) as int));
        Some((
            trim_ws(t.take(o as int)),
            if rest.len() == 0 {
                Seq::empty()
            } else {
                split_on(rest, ',').map_values(|p: Seq<char>| trim_ws(p))
            },
        ))
    } else {
        None
    }
}

/// A task of the compact notation.
#[derive(Clone, Debug, PartialEq)]
pub struct Task {
    pub name: String,
    pub params: Vec<String>,
    pub duration: Option<TaskDuration>,
}

fn trimmed(s: &[char]) -> (r: Vec<char>)
    ensures
        r@ == trim_ws(s@),
{
    let (a, b) = trim_bounds(s);
    let t = vstd::slice::slice_subrange(s, a, b);
    let mut r: Vec<char> = Vec::new();
    let mut i: usize = 0;
    while i < t.len()
        invariant
            i <= t@.len(),
            r@ == t@.take(i as int),
        decreases t@.len() - i,
    {
        r.push(t[i]);
        assert(t@.take(i + 1) == t@.take(i as int).push(t@[i as int]));
        i = i + 1;
    }
    assert(t@.take(t@.len() as int) == t@);
    r
}

impl Task {
    /// Reads a task written `name(param, param)`; `None` when there is no `(`.
    pub fn from_str(s: &str) -> (r: Option<Task>)
        ensures
            match task_text_parts(s@) {
                Some((name, params)) => r matches Some(t) && t.name@ == name && views(t.params@) == params
                    && t.duration is None,
                None => r is None,
            },
    {
        let cs = chars_of(s);
        let t = trimmed(cs.as_slice());
        let n = t.len();
        let mut o: usize = 0;
        assert(t@.skip(0) == t@);
        while o < n && t[o] != '('
            invariant
                o <= n == t@.len(),
                first_at(t@, '(') == o + first_at(t@.skip(o as int), '('),
            decreases n - o,
        {
            assert(t@.skip(o as int).drop_first() == t@.skip(o + 1));
            o = o + 1;
        }
        if o == n {
            return None;
        }
        assert(t@.skip(o as int)[0] == '(');
        let name = trimmed(vstd::slice::slice_subrange(t.as_slice(), 0, o));
        let mut e: usize = n;
        let ghost rest0 = t@.skip(o + 1);
        assert(t@.subrange(o + 1, n as int) == rest0);
        while e > o + 1 && t[e - 1] == ')'
            invariant
                o + 1 <= e <= n == t@.len(),
                trim_end_parens(rest0) == trim_end_parens(t@.subrange(o + 1, e as int)),
            decreases e,
        {
            assert(t@.subrange(o + 1, e as int).drop_last() == t@.subrange(o + 1, e - 1));
            e = e - 1;
        }
        let rest = vstd::slice::slice_subrange(t.as_slice(), o + 1, e);
        assert(rest@ == trim_end_parens(rest0));
        let mut params: Vec<String> = Vec::new();
        if rest.len() > 0 {
            let pieces = split_pieces(rest, ',');
            let ghost want = split_on(rest@, ',').map_values(|p: Seq<char>| trim_ws(p));
            let mut i: usize = 0;
            while i < pieces.len()
                invariant
                    i <= pieces@.len(),
                    char_views(pieces@) == split_on(rest@, ','),
                    want == split_on(rest@, ',').map_values(|p: Seq<char>| trim_ws(p)),
                    views(params@) == want.take(i as int),
                decreases pieces@.len() - i,
            {
                let p = trimmed(pieces[i].as_slice());
                let ghost initial = params@;
                params.push(string_of(p.as_slice()));
                proof {
                    assert(views(params@) == views(initial).push(p@));
                    assert(want[i as int] == trim_ws(pieces@[i as int]@));
                    assert(want.take(i + 1) == want.take(i as int).push(want[i as int]));
                }
                i = i + 1;
            }
            assert(want.take(pieces@.len() as int) == want);
        } else {
            assert(views(params@) == Seq::<Seq<char>>::empty());
        }
        Some(Task { name: string_of(name.as_slice()), params, duration: None })
    }
}

impl Task {
    /// The task written back as `name(a, b)`.
    pub fn to_string(&self) -> (r: String)
        ensures
            r@ == self.name@.push('(') + crate::ir::joined(self.params@).push(')'),
    {
        let mut s = self.name.clone();
        push_char(&mut s, '(');
        let mut i: usize = 0;
        while i < self.params.len()
            invariant
                i <= self.params@.len(),
                s@ == self.name@.push('(') + crate::ir::joined(self.params@.take(i as int)),
            decreases self.params@.len() - i,
        {
            if i > 0 {
                push_char(&mut s, ',');
                push_char(&mut s, ' ');
            }
            crate::ir::append_str(&mut s, &self.params[i]);
            proof {
                let t = self.params@.take(i + 1);
                assert(t.drop_last() == self.params@.take(i as int));
                assert(t.last() == self.params@[i as int]);
                if i == 0 {
                    assert(crate::ir::joined(t) == t[0]@);
                }
            }
            i = i + 1;
        }
        assert(self.params@.take(self.params@.len() as int) == self.params@);
        push_char(&mut s, ')');
        s
    }
}

/// The message of an error of the compact-notation front end.
pub open spec fn error_text(e: Error) -> Seq<char> {
    match e {
        Error::IoError(m) => "I/O error: "@ + m@,
        Error::LexError { line, col, message } => "Lexer error at line "@ + decimal(line as nat) + seq![':']
            + decimal(col as nat) + " - "@ + message@,
        Error::ParseError { line, col, message } => "Parser error at line "@ + decimal(line as nat) + seq![':']
            + decimal(col as nat) + " - "@ + message@,
        Error::SemanticError(m) => "Semantic error: "@ + m@,
        Error::FileNotFound(p) => "File not found: "@ + p@,
        Error::Other(m) => "Error: "@ + m@,
    }
}

fn append_lit(s: &mut String, lit: &str)
    ensures
        final(s)@ == old(s)@ + lit@,
{
    let cs = chars_of(lit);
    let ghost start = s@;
    let mut i: usize = 0;
    while i < cs.len()
        invariant
            i <= cs@.len(),
            cs@ == lit@,
            s@ == start + cs@.take(i as int),
        decreases cs@.len() - i,
    {
        push_char(s, cs[i]);
        assert(cs@.take(i + 1) == cs@.take(i as int).push(cs@[i as int]));
        i = i + 1;
    }
    assert(cs@.take(cs@.len() as int) == cs@);
}

fn append_position(s: &mut String, line: usize, col: usize, message: &String)
    ensures
        final(s)@ == old(s)@ + decimal(line as nat) + seq![':'] + decimal(col as nat) + " - "@ + message@,
{
    push_decimal(s, line as u64);
    push_char(s, ':');
    push_decimal(s, col as u64);
    append_lit(s, " - ");
    crate::ir::append_str(s, message);
}

impl Error {
    /// The error's message.
    pub fn to_string(&self) -> (r: String)
        ensures
            r@ == error_text(*self),
    {
        let mut s = String::new();
        match self {
            Error::IoError(m) => {
                append_lit(&mut s, "I/O error: ");
                crate::ir::append_str(&mut s, m);
            },
            Error::LexError { line, col, message } => {
                append_lit(&mut s, "Lexer error at line ");
                append_position(&mut s, *line, *col, message);
            },
            Error::ParseError { line, col, message } => {
                append_lit(&mut s, "Parser error at line ");
                append_position(&mut s, *line, *col, message);
            },
            Error::SemanticError(m) => {
                append_lit(&mut s, "Semantic error: ");
                crate::ir::append_str(&mut s, m);
            },
            Error::FileNotFound(p) => {
                append_lit(&mut s, "File not found: ");
                crate::ir::append_str(&mut s, p);
            },
            Error::Other(m) => {
                append_lit(&mut s, "Error: ");
                crate::ir::append_str(&mut s, m);
            },
        }
        s
    }
}

impl Token {
    /// The token as written, or its kind for newlines, indents and errors.
    pub fn to_string(&self) -> (r: String)
        ensures
            r@ == (match self@ {
                DslTokenModel::At => "@"@,
                DslTokenModel::Task(t) => t,
                DslTokenModel::Duration(t) => t,
                DslTokenModel::Newline => "newline"@,
                DslTokenModel::Indent => "indent"@,
                DslTokenModel::Error => "error"@,
            }),
    {
        match self {
            Token::At => String::from_str("@"),
            Token::Task(t) => t.clone(),
            Token::Duration(t) => t.clone(),
            Token::Newline => String::from_str("newline"),
            Token::Indent => String::from_str("indent"),
            Token::Error => String::from_str("error"),
        }
    }
}

/// A block of the compact notation.
#[derive(Clone, Debug, PartialEq)]
pub struct Block {
    pub name: String,
    pub tasks: Vec<Task>,
}

impl Block {
    pub fn new(name: &str) -> (r: Block)
        ensures
            r.name@ == name@,
            r.tasks@.len() == 0,
    {
        Block { name: String::from_str(name), tasks: Vec::new() }
    }

    pub fn add_task(&mut self, task: Task)
        ensures
            final(self).name == old(self).name,
            final(self).tasks@ == old(self).tasks@.push(task),
    {
        self.tasks.push(task);
    }
}

/// A whole text in the compact notation.
#[derive(Clone, Debug, PartialEq)]
pub struct Program {
    pub blocks: Vec<Block>,
}

impl Program {
    pub fn new() -> (r: Program)
        ensures
            r.blocks@.len() == 0,
    {
        Program { blocks: Vec::new() }
    }

    pub fn add_block(&mut self, block: Block)
        ensures
            final(self).blocks@ == old(self).blocks@.push(block),
    {
        self.blocks.push(block);
    }
}

/// The contents of a compact-notation task.
pub struct TaskModel {
    pub name: Seq<char>,
    pub params: Seq<Seq<char>>,
    pub duration: Option<TaskDuration>,
}

impl View for Task {
    type V = TaskModel;

    open spec fn view(&self) -> TaskModel {
        TaskModel { name: self.name@, params: views(self.params@), duration: self.duration }
    }
}

/// The contents of a compact-notation block.
pub struct BlockModel {
    pub name: Seq<char>,
    pub tasks: Seq<TaskModel>,
}

impl View for Block {
    type V = BlockModel;

    open spec fn view(&self) -> BlockModel {
        BlockModel { name: self.name@, tasks: self.tasks@.map_values(|t: Task| t@) }
    }
}

pub open spec fn block_models(v: Seq<Block>) -> Seq<BlockModel> {
    v.map_values(|b: Block| b@)
}

/// The first position from `i` on that is not a newline or an indent.
pub open spec fn skip_blank(toks: Seq<DslTokenModel>, i: int) -> int
    decreases toks.len() - i,
{
    if 0 <= i < toks.len() && (toks[i] is Newline || toks[i] is Indent) {
        skip_blank(toks, i + 1)
    } else {
        i
    }
}

/// The first newline from `i` on, or the end.
pub open spec fn line_end(toks: Seq<DslTokenModel>, i: int) -> int
    decreases toks.len() - i,
{
    if 0 <= i < toks.len() && !(toks[i] is Newline) {
        line_end(toks, i + 1)
    } else {
        i
    }
}

/// The task line at `j`, if there is one: a task token (with a parameter
/// list), then an optional valid duration; the rest of the line is ignored.
/// Gives the task and the position of the line's end.
pub open spec fn task_line(toks: Seq<DslTokenModel>, j: int) -> Option<(TaskModel, int)> {
    if 0 <= j < toks.len() && toks[j] is Task && task_text_parts(toks[j]->Task_0) is Some {
        let (name, params) = task_text_parts(toks[j]->Task_0)->Some_0;
        let k = j + 1;
        let has_duration = k < toks.len() && toks[k] is Duration && compact_minutes_of(toks[k]->Duration_0) is Some;
        let duration = if has_duration {
            Some(TaskDuration { minutes: compact_minutes_of(toks[k]->Duration_0)->Some_0 })
        } else {
            None
        };
        Some((TaskModel { name, params, duration }, line_end(toks, if has_duration { k + 1 } else { k })))
    } else {
        None
    }
}

/// The task lines of a block from `i` on, and where the block ends.
pub open spec fn block_tasks(toks: Seq<DslTokenModel>, i: int, tasks: Seq<TaskModel>) -> (Seq<TaskModel>, int)
    decreases toks.len() - i,
{
    let j = skip_blank(toks, i);
    match task_line(toks, j) {
        Some((t, k)) => if 0 <= i < k <= toks.len() {
            block_tasks(toks, k, tasks.push(t))
        } else {
            (tasks, j)
        },
        None => (tasks, j),
    }
}

/// The blocks from `i` on: each `@` followed by a task token opens a block
/// named by it; tokens outside blocks are skipped. An `@` not followed by a
/// name is an error.
pub open spec fn blocks_from(toks: Seq<DslTokenModel>, i: int, blocks: Seq<BlockModel>) -> Result<Seq<BlockModel>, ()>
    decreases toks.len() - i,
{
    if i < 0 || i >= toks.len() {
        Ok(blocks)
    } else if toks[i] is At {
        if i + 1 < toks.len() && toks[i + 1] is Task {
            let (ts, j) = block_tasks(toks, i + 2, Seq::empty());
            if i < j <= toks.len() {
                blocks_from(toks, j, blocks.push(BlockModel { name: toks[i + 1]->Task_0, tasks: ts }))
            } else {
                Ok(blocks)
            }
        } else {
            Err(())
        }
    } else {
        blocks_from(toks, i + 1, blocks)
    }
}

proof fn lemma_skip_blank(toks: Seq<DslTokenModel>, i: int)
    requires
        0 <= i <= toks.len(),
    ensures
        i <= skip_blank(toks, i) <= toks.len(),
    decreases toks.len() - i,
{
    if 0 <= i < toks.len() && (toks[i] is Newline || toks[i] is Indent) {
        lemma_skip_blank(toks, i + 1);
    }
}

proof fn lemma_line_end(toks: Seq<DslTokenModel>, i: int)
    requires
        0 <= i <= toks.len(),
    ensures
        i <= line_end(toks, i) <= toks.len(),
    decreases toks.len() - i,
{
    if 0 <= i < toks.len() && !(toks[i] is Newline) {
        lemma_line_end(toks, i + 1);
    }
}

/// Reads the compact notation block by block.
pub struct Parser {
    tokens: Vec<Token>,
    pos: usize,
}

impl Parser {
    pub closed spec fn token_models(&self) -> Seq<DslTokenModel> {
        dsl_views(self.tokens@)
    }

    pub closed spec fn position(&self) -> int {
        self.pos as int
    }

    /// A parser at the start of `input`.
    pub fn new(input: &str) -> (r: Parser)
        ensures
            r.token_models() == lex_tokens(input@, true),
            r.position() == 0,
    {
        Parser { tokens: lex(input), pos: 0 }
    }

    fn skip_blank_exec(&self, i: usize) -> (r: usize)
        requires
            i <= self.tokens@.len(),
        ensures
            r == skip_blank(self.token_models(), i as int),
            i <= r <= self.tokens@.len(),
    {
        let mut j = i;
        while j < self.tokens.len() && matches!(self.tokens[j], Token::Newline | Token::Indent)
            invariant
                i <= j <= self.tokens@.len(),
                skip_blank(self.token_models(), i as int) == skip_blank(self.token_models(), j as int),
            decreases self.tokens@.len() - j,
        {
            assert(self.token_models()[j as int] == self.tokens@[j as int]@);
            j = j + 1;
        }
        if j < self.tokens.len() {
            assert(self.token_models()[j as int] == self.tokens@[j as int]@);
        }
        j
    }

    fn line_end_exec(&self, i: usize) -> (r: usize)
        requires
            i <= self.tokens@.len(),
        ensures
            r == line_end(self.token_models(), i as int),
            i <= r <= self.tokens@.len(),
    {
        let mut j = i;
        while j < self.tokens.len() && !matches!(self.tokens[j], Token::Newline)
            invariant
                i <= j <= self.tokens@.len(),
                line_end(self.token_models(), i as int) == line_end(self.token_models(), j as int),
            decreases self.tokens@.len() - j,
        {
            assert(self.token_models()[j as int] == self.tokens@[j as int]@);
            j = j + 1;
        }
        if j < self.tokens.len() {
            assert(self.token_models()[j as int] == self.tokens@[j as int]@);
        }
        j
    }

    /// Reads the task line at `j`, as `task_line` states.
    fn parse_task(&self, j: usize) -> (r: Option<(Task, usize)>)
        requires
            j <= self.tokens@.len(),
        ensures
            match task_line(self.token_models(), j as int) {
                Some((m, k)) => r matches Some((t, e)) && t@ == m && e == k && j < e <= self.tokens@.len(),
                None => r is None,
            },
    {
        if j >= self.tokens.len() {
            return None;
        }
        let ghost tm = self.token_models();
        assert(tm[j as int] == self.tokens@[j as int]@);
        let text = match &self.tokens[j] {
            Token::Task(s) => s,
            _ => return None,
        };
        let mut task = match Task::from_str(text.as_str()) {
            Some(t) => t,
            None => return None,
        };
        let mut k = j + 1;
        if k < self.tokens.len() {
            assert(tm[k as int] == self.tokens@[k as int]@);
            match &self.tokens[k] {
                Token::Duration(d) => {
                    match TaskDuration::from_str(d.as_str()) {
                        Some(v) => {
                            task.duration = Some(v);
                            k = k + 1;
                        },
                        None => {},
                    }
                },
                _ => {},
            }
        }
        let e = self.line_end_exec(k);
        assert(task@.params == task_text_parts(tm[j as int]->Task_0)->Some_0.1);
        Some((task, e))
    }

    /// Reads the task lines of a block from `i` on, as `block_tasks` states;
    /// gives the position where the block ends.
    fn parse_block_tasks(&self, i: usize, block: &mut Block) -> (r: usize)
        requires
            i <= self.tokens@.len(),
        ensures
            final(block).name == old(block).name,
            block_tasks(self.token_models(), i as int, old(block)@.tasks) == (final(block)@.tasks, r as int),
            i <= r <= self.tokens@.len(),
    {
        let mut k = i;
        let ghost want = block_tasks(self.token_models(), i as int, old(block)@.tasks);
        loop
            invariant
                i <= k <= self.tokens@.len(),
                block.name == old(block).name,
                want == block_tasks(self.token_models(), i as int, old(block)@.tasks),
                want == block_tasks(self.token_models(), k as int, block@.tasks),
            decreases self.tokens@.len() - k,
        {
            let j = self.skip_blank_exec(k);
            match self.parse_task(j) {
                Some((t, e)) => {
                    let ghost b0 = block@;
                    block.add_task(t);
                    assert(block@.tasks == b0.tasks.push(t@));
                    k = e;
                },
                None => {
                    return j;
                },
            }
        }
    }

    /// Parses the blocks from the current position to the end, as
    /// `blocks_from` states.
    pub fn parse(&mut self) -> (r: Result<Program, Error>)
        ensures
            final(self).token_models() == old(self).token_models(),
            match blocks_from(old(self).token_models(), old(self).position(), Seq::empty()) {
                Ok(bs) => r matches Ok(p) && block_models(p.blocks@) == bs,
                Err(_) => r matches Err(Error::ParseError { line, col, message }) && line == 1 && col == 1
                    && message@ == "Expected block name after @"@,
            },
    {
        let mut program = Program::new();
        if self.pos >= self.tokens.len() {
            return Ok(program);
        }
        let ghost want = blocks_from(self.token_models(), self.position(), Seq::empty());
        assert(block_models(program.blocks@) == Seq::<BlockModel>::empty());
        while self.pos < self.tokens.len()
            invariant
                self.token_models() == old(self).token_models(),
                self.pos <= self.tokens@.len(),
                want == blocks_from(old(self).token_models(), old(self).position(), Seq::empty()),
                want == blocks_from(self.token_models(), self.pos as int, block_models(program.blocks@)),
            decreases self.tokens@.len() - self.pos,
        {
            let i = self.pos;
            let ghost tm = self.token_models();
            assert(tm[i as int] == self.tokens@[i as int]@);
            if matches!(self.tokens[i], Token::At) {
                if i + 1 < self.tokens.len() && matches!(self.tokens[i + 1], Token::Task(_)) {
                    assert(tm[i + 1] == self.tokens@[i + 1]@);
                    let name = match &self.tokens[i + 1] {
                        Token::Task(s) => s.clone(),
                        _ => String::new(),
                    };
                    let mut block = Block { name, tasks: Vec::new() };
                    assert(block@.tasks == Seq::<TaskModel>::empty());
                    let e = self.parse_block_tasks(i + 2, &mut block);
                    let ghost initial = block_models(program.blocks@);
                    program.add_block(block);
                    assert(block_models(program.blocks@) == initial.push(block@));
                    self.pos = e;
                } else {
                    if i + 1 < self.tokens.len() {
                        assert(tm[i + 1] == self.tokens@[i + 1]@);
                    }
                    return Err(Error::ParseError {
                        line: 1,
                        col: 1,
                        message: String::from_str("Expected block name after @"),
                    });
                }
            } else {
                self.pos = i + 1;
            }
        }
        Ok(program)
    }
}

/// Parses a text in the compact notation.
pub fn parse(input: &str) -> (r: Result<Program, Error>)
    ensures
        match blocks_from(lex_tokens(input@, true), 0, Seq::empty()) {
            Ok(bs) => r matches Ok(p) && block_models(p.blocks@) == bs,
            Err(_) => r is Err,
        },
{
    let mut parser = Parser::new(input);
    parser.parse()
}

} // verus!
