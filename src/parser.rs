use vstd::prelude::*;
use vstd::string::StrSliceExecFns;

use crate::document::{
    add_model, buckets_filled, empty_doc, names_distinct, strings_model, Directive, DirectiveModel,
    Scfg, ScfgModel,
};
use crate::round_trip::lemma_parse_well_built;
use crate::text::{chars_of, find_line_end, line_end, string_of, trim, trim_str};
use crate::words::{split_of, split_words};

verus! {

/// What stopped a parse.
#[derive(Debug)]
pub enum ErrorKind {
    /// A `}` line with no open block to close.
    UnexpectedClosingBrace,
    /// The text ended while a block was still open.
    UnexpectedEof,
    /// A line whose words could not be split, for a quote left open.
    ShellWords(shell_words::ParseError),
}

/// A parse error: what went wrong, and the line (counted from 1) where it
/// was found.
#[derive(Debug)]
pub struct Error {
    pub kind: ErrorKind,
    pub lineno: usize,
}

/// The kinds of parse failure, as the model states them.
pub enum Failure {
    UnexpectedClosingBrace,
    UnexpectedEof,
    Tokenize,
}

pub open spec fn failure_of(k: ErrorKind) -> Failure {
    match k {
        ErrorKind::UnexpectedClosingBrace => Failure::UnexpectedClosingBrace,
        ErrorKind::UnexpectedEof => Failure::UnexpectedEof,
        ErrorKind::ShellWords(_) => Failure::Tokenize,
    }
}

impl Error {
    /// What went wrong.
    pub fn kind(&self) -> (r: &ErrorKind)
        ensures
            *r == self.kind,
    {
        &self.kind
    }

    /// The line, counted from 1, where the error was found.
    pub fn lineno(&self) -> (r: usize)
        ensures
            r == self.lineno,
    {
        self.lineno
    }
}

/// What one line of a document does, as the model states it.
pub enum ActionModel {
    Blank,
    Close,
    Open(Seq<char>, Seq<Seq<char>>),
    Leaf(Seq<char>, Seq<Seq<char>>),
}

/// What one line of a document does.
pub enum LineAction {
    /// An empty line or a comment.
    Blank,
    /// A lone `}`: the current block ends.
    Close,
    /// A directive, with its name and parameters, whose child block starts.
    Open(String, Vec<String>),
    /// A directive, with its name and parameters, without a child block.
    Leaf(String, Vec<String>),
}

impl LineAction {
    pub open spec fn view(&self) -> ActionModel {
        match self {
            LineAction::Blank => ActionModel::Blank,
            LineAction::Close => ActionModel::Close,
            LineAction::Open(n, p) => ActionModel::Open(n@, strings_model(p@)),
            LineAction::Leaf(n, p) => ActionModel::Leaf(n@, strings_model(p@)),
        }
    }
}

/// What a trimmed `line` does, given its `words`. A block opens only where
/// the last word is `{` and the line itself ends in `{`, so that a quoted
/// `"{"` stays a parameter. A block without a name gets the empty name.
pub open spec fn action_of(line: Seq<char>, words: Seq<Seq<char>>) -> ActionModel {
    if words.len() == 0 {
        ActionModel::Blank
    } else if words.len() == 1 && line.len() > 0 && line.last() == '}' {
        ActionModel::Close
    } else if words.last() == seq!['{'] && line.len() > 0 && line.last() == '{' {
        let rest = words.drop_last();
        if rest.len() == 0 {
            ActionModel::Open(Seq::empty(), Seq::empty())
        } else {
            ActionModel::Open(rest[0], rest.skip(1))
        }
    } else {
        ActionModel::Leaf(words[0], words.skip(1))
    }
}

/// Decides what a trimmed `line` does, from the words it was split into.
pub fn line_action(line: &str, words: Vec<String>) -> (r: LineAction)
    ensures
        r@ == action_of(line@, strings_model(words@)),
{
    let ghost ws = strings_model(words@);
    let n = words.len();
    if n == 0 {
        return LineAction::Blank;
    }
    let len = line.unicode_len();
    let last_close = len > 0 && line.get_char(len - 1) == '}';
    let last_open = len > 0 && line.get_char(len - 1) == '{';
    if n == 1 && last_close {
        return LineAction::Close;
    }
    let last_word = words[n - 1].as_str();
    let brace_word = last_word.unicode_len() == 1 && last_word.get_char(0) == '{';
    proof {
        assert(ws.last() == last_word@);
        if brace_word {
            assert(last_word@ =~= seq!['{']);
        }
    }
    let mut words = words;
    if brace_word && last_open {
        words.pop();
        proof {
            assert(strings_model(words@) =~= ws.drop_last());
        }
        if words.len() == 0 {
            proof {
                assert(strings_model(words@) =~= Seq::<Seq<char>>::empty());
            }
            LineAction::Open(String::new(), words)
        } else {
            let ghost before = words@;
            let name = words.remove(0);
            proof {
                assert(strings_model(before)[0] == name@);
                assert(strings_model(words@) =~= strings_model(before).skip(1));
            }
            LineAction::Open(name, words)
        }
    } else {
        let ghost before = words@;
        let name = words.remove(0);
        proof {
            assert(ws[0] == name@);
            assert(strings_model(words@) =~= ws.skip(1));
            if ws.last() == seq!['{'] {
                assert(ws.last().len() == 1 && ws.last()[0] == '{');
            }
        }
        LineAction::Leaf(name, words)
    }
}

/// A block that is still open: the document it belongs to, and the name and
/// parameters of the directive that opened it.
pub struct FrameModel {
    pub doc: ScfgModel,
    pub name: Seq<char>,
    pub params: Seq<Seq<char>>,
}

struct Frame {
    doc: Scfg,
    name: String,
    params: Vec<String>,
}

spec fn frames_model(s: Seq<Frame>) -> Seq<FrameModel> {
    s.map_values(|f: Frame| FrameModel { doc: f.doc@, name: f.name@, params: strings_model(f.params@) })
}

/// The number of the line after `l`, kept within `usize`.
pub open spec fn following(l: int) -> int {
    if l < usize::MAX {
        l + 1
    } else {
        l
    }
}

/// The outcome of reading `text` from `pos`, where `lineno` lines have been
/// read, `cur` is the innermost open block and `stack` holds the blocks
/// around it, innermost last. An error carries the number of the line at
/// which it was found.
pub open spec fn parse_from(
    text: Seq<char>,
    pos: int,
    lineno: int,
    cur: ScfgModel,
    stack: Seq<FrameModel>,
) -> Result<ScfgModel, (Failure, int)>
    decreases text.len() - pos,
{
    if pos < 0 || pos >= text.len() {
        if stack.len() == 0 {
            Ok(cur)
        } else {
            Err((Failure::UnexpectedEof, following(lineno)))
        }
    } else {
        let e = line_end(text, pos);
        if e <= pos || e > text.len() {
            Ok(cur)
        } else {
            let line = trim(text.subrange(pos, e));
            match split_of(line) {
                None => Err((Failure::Tokenize, lineno + 1)),
                Some(words) => match action_of(line, words) {
                    ActionModel::Blank => parse_from(text, e, lineno + 1, cur, stack),
                    ActionModel::Close => if stack.len() == 0 {
                        Err((Failure::UnexpectedClosingBrace, lineno + 1))
                    } else {
                        let f = stack.last();
                        parse_from(
                            text,
                            e,
                            lineno + 1,
                            add_model(f.doc, f.name, DirectiveModel { params: f.params, child: Some(cur) }),
                            stack.drop_last(),
                        )
                    },
                    ActionModel::Open(name, params) => parse_from(
                        text,
                        e,
                        lineno + 1,
                        empty_doc(),
                        stack.push(FrameModel { doc: cur, name, params }),
                    ),
                    ActionModel::Leaf(name, params) => parse_from(
                        text,
                        e,
                        lineno + 1,
                        add_model(cur, name, DirectiveModel { params, child: None }),
                        stack,
                    ),
                },
            }
        }
    }
}

/// The outcome of parsing the whole of `text`.
pub open spec fn parse_model(text: Seq<char>) -> Result<ScfgModel, (Failure, int)> {
    parse_from(text, 0, 0, empty_doc(), Seq::empty())
}

/// Parses a document. Every line is counted, blank ones and comments too,
/// so that an error names the line where it was found.
pub fn document(src: &str) -> (r: Result<Scfg, Error>)
    ensures
        match parse_model(src@) {
            Ok(m) => r matches Ok(d) && d@ == m,
            Err((k, l)) => r matches Err(e) && failure_of(e.kind) == k && e.lineno == l,
        },
        r matches Ok(d) ==> names_distinct(d@) && buckets_filled(d@),
{
    proof {
        lemma_parse_well_built(src@, 0, 0, empty_doc(), Seq::empty());
    }
    let text = chars_of(src);
    let n = text.len();
    let mut pos: usize = 0;
    let mut lineno: usize = 0;
    let mut cur = Scfg::new();
    let mut stack: Vec<Frame> = Vec::new();
    assert(frames_model(stack@) =~= Seq::<FrameModel>::empty());
    loop
        invariant
            text@ == src@,
            n == text@.len(),
            pos <= n,
            lineno <= pos,
            parse_from(src@, pos as int, lineno as int, cur@, frames_model(stack@)) == parse_model(
                src@,
            ),
            parse_model(src@) matches Ok(m) ==> names_distinct(m) && buckets_filled(m),
        decreases n - pos,
    {
        if pos >= n {
            if stack.len() == 0 {
                return Ok(cur);
            }
            let l = if lineno < usize::MAX {
                lineno + 1
            } else {
                lineno
            };
            return Err(Error { kind: ErrorKind::UnexpectedEof, lineno: l });
        }
        let e = find_line_end(&text, pos);
        let raw = string_of(&text, pos, e);
        let line = trim_str(raw.as_str());
        let words = match split_words(line) {
            Ok(w) => w,
            Err(err) => {
                return Err(Error { kind: ErrorKind::ShellWords(err), lineno: lineno + 1 });
            },
        };
        let ghost ws = strings_model(words@);
        match line_action(line, words) {
            LineAction::Blank => {},
            LineAction::Close => {
                if stack.len() == 0 {
                    return Err(Error { kind: ErrorKind::UnexpectedClosingBrace, lineno: lineno + 1 });
                }
                let ghost before = stack@;
                let f = stack.pop().unwrap();
                proof {
                    assert(frames_model(stack@) =~= frames_model(before).drop_last());
                }
                let child = cur;
                cur = f.doc;
                let d = Directive { params: f.params, child: Some(child) };
                cur.add_directive(f.name, d);
            },
            LineAction::Open(name, params) => {
                let parent = cur;
                cur = Scfg::new();
                let ghost before = stack@;
                stack.push(Frame { doc: parent, name, params });
                proof {
                    assert(frames_model(stack@) =~= frames_model(before).push(
                        FrameModel { doc: parent@, name: name@, params: strings_model(params@) },
                    ));
                }
            },
            LineAction::Leaf(name, params) => {
                let d = Directive { params, child: None };
                cur.add_directive(name, d);
            },
        }
        pos = e;
        lineno = lineno + 1;
    }
}

} // verus!
