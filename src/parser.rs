//! Builds parsed blocks from the token stream.
use vstd::prelude::*;
use crate::ast::{duration_from_chars, duration_value, priority_named, Block, BlockModel, Priority, Task, TaskModel};
use crate::lexer::{extract_task_params, task_parts, Token, TokenModel};
use crate::optimizer::views;
use crate::text::{chars_of, lower_of, push_char};

verus! {

/// Why a token stream is not a plan.
#[derive(Clone, Debug, PartialEq)]
pub enum ParseError {
    UnexpectedEOF,
    UnexpectedToken(String),
    InvalidDuration(String),
    InvalidPriority(String),
}

/// The contents of a parse error.
pub enum ParseErrorModel {
    UnexpectedEOF,
    UnexpectedToken(Seq<char>),
    InvalidDuration(Seq<char>),
    InvalidPriority(Seq<char>),
}

impl View for ParseError {
    type V = ParseErrorModel;

    open spec fn view(&self) -> ParseErrorModel {
        match self {
            ParseError::UnexpectedEOF => ParseErrorModel::UnexpectedEOF,
            ParseError::UnexpectedToken(s) => ParseErrorModel::UnexpectedToken(s@),
            ParseError::InvalidDuration(s) => ParseErrorModel::InvalidDuration(s@),
            ParseError::InvalidPriority(s) => ParseErrorModel::InvalidPriority(s@),
        }
    }
}

pub open spec fn quoted(s: Seq<char>) -> Seq<char> {
    seq!['"'] + s + seq!['"']
}

/// The texts, quoted and separated by `", "`.
pub open spec fn quoted_list(v: Seq<Seq<char>>) -> Seq<char>
    decreases v.len(),
{
    if v.len() == 0 {
        Seq::empty()
    } else if v.len() == 1 {
        quoted(v[0])
    } else {
        quoted_list(v.drop_last()) + seq![',', ' '] + quoted(v.last())
    }
}

/// How an unexpected token is named in an error: its kind, and its text in
/// quotes.
pub open spec fn token_text(t: TokenModel) -> Seq<char> {
    match t {
        TokenModel::Block(s) => "Block("@ + quoted(s) + seq![')'],
        TokenModel::Task(s) => "Task("@ + quoted(s) + seq![')'],
        TokenModel::Duration(s) => "Duration("@ + quoted(s) + seq![')'],
        TokenModel::Tag(s) => "Tag("@ + quoted(s) + seq![')'],
        TokenModel::Priority(s) => "Priority("@ + quoted(s) + seq![')'],
        TokenModel::DependsOn(v) => "DependsOn(["@ + quoted_list(v) + seq![']', ')'],
        TokenModel::Indent => "Indent"@,
        TokenModel::Newline => "Newline"@,
        TokenModel::EOF => "EOF"@,
    }
}

/// A new task from the text of a task token, with default attributes.
pub open spec fn new_task(s: Seq<char>) -> TaskModel {
    TaskModel {
        name: task_parts(s).0,
        params: task_parts(s).1,
        duration: None,
        tags: Seq::empty(),
        priority: Priority::Medium,
        depends_on: Seq::empty(),
    }
}

/// The tags with `g` added unless it is already there.
pub open spec fn add_tag(tags: Seq<Seq<char>>, g: Seq<char>) -> Seq<Seq<char>> {
    if tags.contains(g) {
        tags
    } else {
        tags.push(g)
    }
}

/// Reads the attribute tokens from `i` on into `t`: a duration, a tag, a
/// priority or a dependency list each set or add their attribute (a later
/// duration, priority or list replaces an earlier one); a newline, task,
/// block or end of file ends the task; an indent is an error.
pub open spec fn task_attrs(toks: Seq<TokenModel>, i: int, t: TaskModel) -> Result<(TaskModel, int), ParseErrorModel>
    decreases toks.len() - i,
{
    if i < 0 || i >= toks.len() {
        Ok((t, i))
    } else {
        match toks[i] {
            TokenModel::Duration(d) => match duration_value(d) {
                Some(m) => task_attrs(toks, i + 1, TaskModel { duration: Some(crate::ast::TaskDuration { minutes: m }), ..t }),
                None => Err(ParseErrorModel::InvalidDuration(d)),
            },
            TokenModel::Tag(g) => task_attrs(toks, i + 1, TaskModel { tags: add_tag(t.tags, g), ..t }),
            TokenModel::Priority(p) => match priority_named(lower_of(p)) {
                Ok(pr) => task_attrs(toks, i + 1, TaskModel { priority: pr, ..t }),
                Err(_) => Err(ParseErrorModel::InvalidPriority(p)),
            },
            TokenModel::DependsOn(ds) => task_attrs(toks, i + 1, TaskModel { depends_on: ds, ..t }),
            TokenModel::Indent => Err(ParseErrorModel::UnexpectedToken(token_text(toks[i]))),
            _ => Ok((t, i)),
        }
    }
}

/// Reads the body of a block from `i` on: tasks with their attributes and
/// blank lines, up to the next block header or the end of file.
pub open spec fn block_body(toks: Seq<TokenModel>, i: int, b: BlockModel) -> Result<(BlockModel, int), ParseErrorModel>
    decreases toks.len() - i,
{
    if i < 0 || i >= toks.len() {
        Ok((b, i))
    } else {
        match toks[i] {
            TokenModel::Task(s) => match task_attrs(toks, i + 1, new_task(s)) {
                Ok((t, j)) => if i < j <= toks.len() {
                    block_body(toks, j, BlockModel { tasks: b.tasks.push(t), ..b })
                } else {
                    Ok((b, i))
                },
                Err(e) => Err(e),
            },
            TokenModel::Newline => block_body(toks, i + 1, b),
            TokenModel::Block(_) => Ok((b, i)),
            TokenModel::EOF => Ok((b, i)),
            _ => Err(ParseErrorModel::UnexpectedToken(token_text(toks[i]))),
        }
    }
}

/// The blocks so far, with the block of loose tasks added if it has any.
pub open spec fn finish(blocks: Seq<BlockModel>, loose: BlockModel) -> Seq<BlockModel> {
    if loose.tasks.len() > 0 {
        blocks.push(loose)
    } else {
        blocks
    }
}

/// Reads the plan from `i` on. Tasks outside any block go to a block of
/// loose tasks, first named `default`; when a block header comes and that
/// block holds tasks, it is emitted, and a new one named after the header
/// takes its place. It is emitted last if it holds tasks.
pub open spec fn parse_from(toks: Seq<TokenModel>, i: int, blocks: Seq<BlockModel>, loose: BlockModel) -> Result<Seq<BlockModel>, ParseErrorModel>
    decreases toks.len() - i,
{
    if i < 0 || i >= toks.len() {
        Ok(finish(blocks, loose))
    } else {
        match toks[i] {
            TokenModel::Block(name) => {
                let (bs, l) = if loose.tasks.len() > 0 {
                    (blocks.push(loose), BlockModel { name, tasks: Seq::empty() })
                } else {
                    (blocks, loose)
                };
                match block_body(toks, i + 1, BlockModel { name, tasks: Seq::empty() }) {
                    Ok((b, j)) => if i < j <= toks.len() {
                        parse_from(toks, j, bs.push(b), l)
                    } else {
                        Ok(finish(blocks, loose))
                    },
                    Err(e) => Err(e),
                }
            },
            TokenModel::Task(s) => match task_attrs(toks, i + 1, new_task(s)) {
                Ok((t, j)) => if i < j <= toks.len() {
                    parse_from(toks, j, blocks, BlockModel { tasks: loose.tasks.push(t), ..loose })
                } else {
                    Ok(finish(blocks, loose))
                },
                Err(e) => Err(e),
            },
            TokenModel::Newline => parse_from(toks, i + 1, blocks, loose),
            TokenModel::EOF => Ok(finish(blocks, loose)),
            _ => Err(ParseErrorModel::UnexpectedToken(token_text(toks[i]))),
        }
    }
}

/// The plan that a token stream describes.
pub open spec fn parsed(toks: Seq<TokenModel>) -> Result<Seq<BlockModel>, ParseErrorModel> {
    parse_from(toks, 0, Seq::empty(), BlockModel { name: "default"@, tasks: Seq::empty() })
}

fn append_text(s: &mut String, lit: &str)
    ensures
        final(s)@ == old(s)@ + lit@,
{
    let cs = chars_of(lit);
    let ghost start = s@;
    let mut i: usize = 0;
    while i < cs.len()
        invariant
            i <= cs@.len(),
            cs@ == lit@,
            s@ == start + cs@.take(i as int),
        decreases cs@.len() - i,
    {
        push_char(s, cs[i]);
        assert(cs@.take(i + 1) == cs@.take(i as int).push(cs@[i as int]));
        i = i + 1;
    }
    assert(cs@.take(cs@.len() as int) == cs@);
}

fn append_quoted(s: &mut String, t: &String)
    ensures
        final(s)@ == old(s)@ + quoted(t@),
{
    push_char(s, '"');
    append_text(s, t.as_str());
    push_char(s, '"');
}

/// How a token is named in an error message.
pub fn describe_token(t: &Token) -> (r: String)
    ensures
        r@ == token_text(t@),
{
    let mut s = String::new();
    match t {
        Token::Block(x) => {
            append_text(&mut s, "Block(");
            append_quoted(&mut s, x);
            push_char(&mut s, ')');
        },
        Token::Task(x) => {
            append_text(&mut s, "Task(");
            append_quoted(&mut s, x);
            push_char(&mut s, ')');
        },
        Token::Duration(x) => {
            append_text(&mut s, "Duration(");
            append_quoted(&mut s, x);
            push_char(&mut s, ')');
        },
        Token::Tag(x) => {
            append_text(&mut s, "Tag(");
            append_quoted(&mut s, x);
            push_char(&mut s, ')');
        },
        Token::Priority(x) => {
            append_text(&mut s, "Priority(");
            append_quoted(&mut s, x);
            push_char(&mut s, ')');
        },
        Token::DependsOn(v) => {
            append_text(&mut s, "DependsOn([");
            let ghost base = s@;
            let mut i: usize = 0;
            while i < v.len()
                invariant
                    i <= v@.len(),
                    s@ == base + quoted_list(views(v@).take(i as int)),
                decreases v@.len() - i,
            {
                if i > 0 {
                    push_char(&mut s, ',');
                    push_char(&mut s, ' ');
                }
                append_quoted(&mut s, &v[i]);
                proof {
                    let w = views(v@).take(i + 1);
                    assert(w.drop_last() == views(v@).take(i as int));
                    assert(w.last() == v@[i as int]@);
                    if i == 0 {
                        assert(quoted_list(w) == quoted(w[0]));
                    }
                }
                i = i + 1;
            }
            assert(views(v@).take(v@.len() as int) == views(v@));
            push_char(&mut s, ']');
            push_char(&mut s, ')');
        },
        Token::Indent => append_text(&mut s, "Indent"),
        Token::Newline => append_text(&mut s, "Newline"),
        Token::EOF => append_text(&mut s, "EOF"),
    }
    s
}

/// A task with default attributes from the text of a task token.
pub fn task_from_text(text: &String) -> (r: Task)
    ensures
        r@ == new_task(text@),
{
    let (name, params) = extract_task_params(text.as_str());
    let t = Task::new(name).with_params(params);
    assert(views(t.tags@) == Seq::<Seq<char>>::empty());
    assert(views(t.depends_on@) == Seq::<Seq<char>>::empty());
    t
}

fn add_tag_exec(tags: &mut Vec<String>, g: &String)
    ensures
        views(final(tags)@) == add_tag(views(old(tags)@), g@),
{
    let mut i: usize = 0;
    while i < tags.len()
        invariant
            i <= tags@.len(),
            tags@ == old(tags)@,
            forall|k: int| 0 <= k < i ==> (#[trigger] tags@[k])@ != g@,
        decreases tags@.len() - i,
    {
        if tags[i] == *g {
            assert(views(tags@)[i as int] == g@);
            return;
        }
        i = i + 1;
    }
    proof {
        if views(tags@).contains(g@) {
            let k = choose|k: int| 0 <= k < views(tags@).len() && views(tags@)[k] == g@;
            assert(tags@[k]@ == g@);
        }
    }
    let ghost before = tags@;
    tags.push(g.clone());
    assert(views(tags@) == views(before).push(g@));
}

/// The token models of a token list.
pub open spec fn toks(tokens: Seq<Token>) -> Seq<TokenModel> {
    tokens.map_values(|t: Token| t@)
}

/// Reads the attribute tokens of a task from `i` on, as `task_attrs` states.
pub fn parse_task_attrs(tokens: &[Token], i: usize, task: Task) -> (r: Result<(Task, usize), ParseError>)
    requires
        i <= tokens@.len(),
    ensures
        match task_attrs(toks(tokens@), i as int, task@) {
            Ok((m, j)) => r matches Ok((t, k)) && t@ == m && k == j && i <= k <= tokens@.len(),
            Err(e) => r matches Err(x) && x@ == e,
        },
{
    let mut t = task;
    let mut k = i;
    let ghost want = task_attrs(toks(tokens@), i as int, t@);
    while k < tokens.len()
        invariant
            i <= k <= tokens@.len(),
            want == task_attrs(toks(tokens@), k as int, t@),
            want == task_attrs(toks(tokens@), i as int, task@),
        decreases tokens@.len() - k,
    {
        let ghost tm = toks(tokens@);
        assert(tm[k as int] == tokens@[k as int]@);
        match &tokens[k] {
            Token::Duration(d) => {
                let dc = chars_of(d.as_str());
                match duration_from_chars(dc.as_slice()) {
                    Some(v) => {
                        t.duration = Some(v);
                    },
                    None => {
                        return Err(ParseError::InvalidDuration(d.clone()));
                    },
                }
            },
            Token::Tag(g) => {
                add_tag_exec(&mut t.tags, g);
            },
            Token::Priority(p) => {
                match Priority::from_str(p.as_str()) {
                    Ok(pr) => {
                        t.priority = pr;
                    },
                    Err(_) => {
                        return Err(ParseError::InvalidPriority(p.clone()));
                    },
                }
            },
            Token::DependsOn(ds) => {
                t.depends_on = crate::ir::copy_strings(ds);
            },
            Token::Indent => {
                return Err(ParseError::UnexpectedToken(describe_token(&tokens[k])));
            },
            _ => {
                return Ok((t, k));
            },
        }
        k = k + 1;
    }
    Ok((t, k))
}

/// Reads a block body from `i` on, as `block_body` states.
pub fn parse_block_body(tokens: &[Token], i: usize, block: Block) -> (r: Result<(Block, usize), ParseError>)
    requires
        i <= tokens@.len(),
    ensures
        match block_body(toks(tokens@), i as int, block@) {
            Ok((m, j)) => r matches Ok((b, k)) && b@ == m && k == j && i <= k <= tokens@.len(),
            Err(e) => r matches Err(x) && x@ == e,
        },
{
    let mut b = block;
    let mut k = i;
    let ghost want = block_body(toks(tokens@), i as int, b@);
    while k < tokens.len()
        invariant
            i <= k <= tokens@.len(),
            want == block_body(toks(tokens@), k as int, b@),
            want == block_body(toks(tokens@), i as int, block@),
        decreases tokens@.len() - k,
    {
        let ghost tm = toks(tokens@);
        assert(tm[k as int] == tokens@[k as int]@);
        match &tokens[k] {
            Token::Task(s) => {
                let t = task_from_text(s);
                match parse_task_attrs(tokens, k + 1, t) {
                    Ok((t2, j)) => {
                        let ghost b0 = b@;
                        b.add_task(t2);
                        assert(b@.tasks == b0.tasks.push(t2@));
                        k = j;
                    },
                    Err(e) => {
                        return Err(e);
                    },
                }
            },
            Token::Newline => {
                k = k + 1;
            },
            Token::Block(_) => {
                return Ok((b, k));
            },
            Token::EOF => {
                return Ok((b, k));
            },
            _ => {
                return Err(ParseError::UnexpectedToken(describe_token(&tokens[k])));
            },
        }
    }
    Ok((b, k))
}

/// The block models of a list of blocks.
pub open spec fn block_views(v: Seq<Block>) -> Seq<BlockModel> {
    v.map_values(|b: Block| b@)
}

/// Builds the blocks of a plan from its tokens, as `parsed` states.
pub fn parse(tokens: &[Token]) -> (r: Result<Vec<Block>, ParseError>)
    ensures
        match parsed(toks(tokens@)) {
            Ok(bs) => r matches Ok(v) && block_views(v@) == bs,
            Err(e) => r matches Err(x) && x@ == e,
        },
{
    let mut blocks: Vec<Block> = Vec::new();
    let mut loose = Block::new(String::from_str("default"));
    let mut k: usize = 0;
    let ghost want = parsed(toks(tokens@));
    assert(loose@.tasks == Seq::<TaskModel>::empty());
    assert(block_views(blocks@) == Seq::<BlockModel>::empty());
    while k < tokens.len()
        invariant
            k <= tokens@.len(),
            want == parse_from(toks(tokens@), k as int, block_views(blocks@), loose@),
            want == parsed(toks(tokens@)),
        decreases tokens@.len() - k,
    {
        let ghost tm = toks(tokens@);
        assert(tm[k as int] == tokens@[k as int]@);
        match &tokens[k] {
            Token::Block(name) => {
                let ghost bv0 = block_views(blocks@);
                let ghost l0 = loose@;
                let fresh = Block::new(name.clone());
                assert(fresh@.tasks == Seq::<TaskModel>::empty());
                match parse_block_body(tokens, k + 1, fresh) {
                    Ok((b, j)) => {
                        if loose.tasks.len() > 0 {
                            let done = loose;
                            loose = Block::new(name.clone());
                            blocks.push(done);
                            assert(block_views(blocks@) == bv0.push(l0));
                            assert(loose@.tasks == Seq::<TaskModel>::empty());
                        }
                        let ghost bv1 = block_views(blocks@);
                        blocks.push(b);
                        assert(block_views(blocks@) == bv1.push(b@));
                        k = j;
                    },
                    Err(e) => {
                        return Err(e);
                    },
                }
            },
            Token::Task(s) => {
                let t = task_from_text(s);
                match parse_task_attrs(tokens, k + 1, t) {
                    Ok((t2, j)) => {
                        let ghost l0 = loose@;
                        loose.add_task(t2);
                        assert(loose@.tasks == l0.tasks.push(t2@));
                        k = j;
                    },
                    Err(e) => {
                        return Err(e);
                    },
                }
            },
            Token::Newline => {
                k = k + 1;
            },
            Token::EOF => {
                k = tokens.len();
            },
            _ => {
                return Err(ParseError::UnexpectedToken(describe_token(&tokens[k])));
            },
        }
    }
    if loose.tasks.len() > 0 {
        let ghost bv0 = block_views(blocks@);
        let ghost l0 = loose@;
        blocks.push(loose);
        assert(block_views(blocks@) == bv0.push(l0));
    }
    Ok(blocks)
}

/// The number of tasks in all parsed blocks.
pub open spec fn plan_task_count(bs: Seq<BlockModel>) -> nat
    decreases bs.len(),
{
    if bs.len() == 0 {
        0
    } else {
        plan_task_count(bs.drop_last()) + bs.last().tasks.len()
    }
}

/// Counting tasks of blocks or of their models gives the same number.
pub proof fn lemma_plan_task_count(blocks: Seq<Block>)
    ensures
        crate::ir::task_count(blocks) == plan_task_count(block_views(blocks)),
    decreases blocks.len(),
{
    if blocks.len() > 0 {
        lemma_plan_task_count(blocks.drop_last());
        assert(block_views(blocks).drop_last() == block_views(blocks.drop_last()));
    }
}

} // verus!
