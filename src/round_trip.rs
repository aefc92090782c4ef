use vstd::prelude::*;

use crate::document::{
    add_model, doc_text, empty_doc, find_name, is_first_index, items_text,
    buckets_filled, lemma_add_well_built, lemma_first_index_unique, names_distinct, params_text, DirectiveModel, EntryModel, ScfgModel,
};
use crate::parser::{action_of, parse_from, parse_model, ActionModel, Failure, FrameModel};
use crate::text::{line_end, trim};
use crate::words::{quote_of, split_of};

verus! {

/// `line` holds no newline, and read as a line of a document it splits
/// into `words` and does `action`.
pub open spec fn reads_as(line: Seq<char>, words: Seq<Seq<char>>, action: ActionModel) -> bool {
    let read = trim(line + seq!['\n']);
    &&& forall|k: int| 0 <= k < line.len() ==> line[k] != '\n'
    &&& split_of(read) == Some(words)
    &&& action_of(read, words) == action
}

/// The written line of a directive, indented by `pad`, before any ` {`.
pub open spec fn head_line(pad: Seq<char>, name: Seq<char>, params: Seq<Seq<char>>) -> Seq<char> {
    pad + quote_of(name) + params_text(params)
}

/// From the `j`-th directive of bucket `i` on, at indentation `pad`, each
/// written line of `m` reads back as what it was written for, and each child
/// block has buckets with distinct names that are not empty.
pub open spec fn readable_from(m: ScfgModel, pad: Seq<char>, i: int, j: int) -> bool
    decreases m, m.entries.len() - i, m.entries[i].directives.len() - j,
{
    if i < 0 || i >= m.entries.len() {
        true
    } else if j < 0 || j >= m.entries[i].directives.len() {
        readable_from(m, pad, i + 1, 0)
    } else {
        let name = m.entries[i].name;
        let d = m.entries[i].directives[j];
        let words = seq![name] + d.params;
        &&& match d.child {
            None => reads_as(head_line(pad, name, d.params), words, ActionModel::Leaf(name, d.params)),
            Some(c) => {
                &&& reads_as(
                    head_line(pad, name, d.params) + seq![' ', '{'],
                    words.push(seq!['{']),
                    ActionModel::Open(name, d.params),
                )
                &&& reads_as(pad + seq!['}'], seq![seq!['}']], ActionModel::Close)
                &&& names_distinct(c)
                &&& buckets_filled(c)
                &&& readable_from(c, pad + seq!['\t'], 0, 0)
            },
        }
        &&& readable_from(m, pad, i, j + 1)
    }
}

proof fn lemma_line_end_at(text: Seq<char>, p: int, line: Seq<char>)
    requires
        0 <= p,
        p + line.len() + 1 <= text.len(),
        text.subrange(p, p + line.len() + 1) == line + seq!['\n'],
        forall|k: int| 0 <= k < line.len() ==> line[k] != '\n',
    ensures
        line_end(text, p) == p + line.len() + 1,
    decreases line.len(),
{
    assert(text[p] == (line + seq!['\n'])[0]);
    if line.len() > 0 {
        let rest = line.skip(1);
        assert(text.subrange(p + 1, p + 1 + rest.len() + 1) =~= rest + seq!['\n']) by {
            assert forall|k: int| 0 <= k < rest.len() + 1 implies text.subrange(
                p + 1,
                p + 1 + rest.len() + 1,
            )[k] == (rest + seq!['\n'])[k] by {
                assert(text.subrange(p, p + line.len() + 1)[k + 1] == (line + seq!['\n'])[k + 1]);
                assert(text.subrange(p, p + line.len() + 1)[k + 1] == text[p + k + 1]);
                assert(text.subrange(p + 1, p + 1 + rest.len() + 1)[k] == text[p + 1 + k]);
                if k < rest.len() {
                    assert((rest + seq!['\n'])[k] == line[k + 1]);
                } else {
                    assert((rest + seq!['\n'])[k] == '\n');
                }
            }
        }
        lemma_line_end_at(text, p + 1, rest);
    }
}

/// `cur` after filing the directives of `m` in order, from the `j`-th one of
/// bucket `i` on.
pub open spec fn add_items(cur: ScfgModel, m: ScfgModel, i: int, j: int) -> ScfgModel
    decreases m.entries.len() - i, m.entries[i].directives.len() - j,
{
    if i < 0 || i >= m.entries.len() {
        cur
    } else if j < 0 || j >= m.entries[i].directives.len() {
        add_items(cur, m, i + 1, 0)
    } else {
        add_items(add_model(cur, m.entries[i].name, m.entries[i].directives[j]), m, i, j + 1)
    }
}

/// The first `i` buckets of `m` and the first `j` directives of bucket `i`.
pub open spec fn prefix_doc(m: ScfgModel, i: int, j: int) -> ScfgModel {
    if j == 0 {
        ScfgModel { entries: m.entries.take(i) }
    } else {
        ScfgModel {
            entries: m.entries.take(i).push(
                EntryModel { name: m.entries[i].name, directives: m.entries[i].directives.take(j) },
            ),
        }
    }
}

proof fn lemma_read_line(
    text: Seq<char>,
    p: int,
    line: Seq<char>,
    words: Seq<Seq<char>>,
    action: ActionModel,
)
    requires
        0 <= p,
        p + line.len() + 1 <= text.len(),
        text.subrange(p, p + line.len() + 1) == line + seq!['\n'],
        reads_as(line, words, action),
    ensures
        line_end(text, p) == p + line.len() + 1,
        split_of(trim(text.subrange(p, p + line.len() + 1))) == Some(words),
        action_of(trim(text.subrange(p, p + line.len() + 1)), words) == action,
{
    lemma_line_end_at(text, p, line);
}

proof fn lemma_split_at(text: Seq<char>, p: int, a: Seq<char>, b: Seq<char>)
    requires
        0 <= p,
        p + a.len() + b.len() <= text.len(),
        text.subrange(p, p + a.len() + b.len()) == a + b,
    ensures
        text.subrange(p, p + a.len()) == a,
        text.subrange(p + a.len(), p + a.len() + b.len()) == b,
{
    let s = text.subrange(p, p + a.len() + b.len());
    assert forall|k: int| 0 <= k < a.len() implies text.subrange(p, p + a.len())[k] == a[k] by {
        assert(s[k] == (a + b)[k]);
    }
    assert(text.subrange(p, p + a.len()) =~= a);
    assert forall|k: int| 0 <= k < b.len() implies text.subrange(
        p + a.len(),
        p + a.len() + b.len(),
    )[k] == b[k] by {
        assert(s[a.len() + k] == (a + b)[a.len() + k]);
    }
    assert(text.subrange(p + a.len(), p + a.len() + b.len()) =~= b);
}

proof fn lemma_step_blank(text: Seq<char>, p: int, lineno: int, cur: ScfgModel, stack: Seq<FrameModel>)
    requires
        0 <= p,
        p + 1 <= text.len(),
        text.subrange(p, p + 1) == seq!['\n'],
        reads_as(Seq::empty(), Seq::empty(), ActionModel::Blank),
    ensures
        parse_from(text, p, lineno, cur, stack) == parse_from(text, p + 1, lineno + 1, cur, stack),
{
    let blank: Seq<char> = Seq::empty();
    assert(seq!['\n'] =~= blank + seq!['\n']);
    lemma_read_line(text, p, blank, Seq::empty(), ActionModel::Blank);
}

proof fn lemma_step_leaf(
    text: Seq<char>,
    p: int,
    lineno: int,
    cur: ScfgModel,
    stack: Seq<FrameModel>,
    line: Seq<char>,
    name: Seq<char>,
    params: Seq<Seq<char>>,
)
    requires
        0 <= p,
        p + line.len() + 1 <= text.len(),
        text.subrange(p, p + line.len() + 1) == line + seq!['\n'],
        reads_as(line, seq![name] + params, ActionModel::Leaf(name, params)),
    ensures
        parse_from(text, p, lineno, cur, stack) == parse_from(
            text,
            p + line.len() + 1,
            lineno + 1,
            add_model(cur, name, DirectiveModel { params, child: None }),
            stack,
        ),
{
    lemma_read_line(text, p, line, seq![name] + params, ActionModel::Leaf(name, params));
}

proof fn lemma_step_open(
    text: Seq<char>,
    p: int,
    lineno: int,
    cur: ScfgModel,
    stack: Seq<FrameModel>,
    line: Seq<char>,
    name: Seq<char>,
    params: Seq<Seq<char>>,
)
    requires
        0 <= p,
        p + line.len() + 1 <= text.len(),
        text.subrange(p, p + line.len() + 1) == line + seq!['\n'],
        reads_as(line, (seq![name] + params).push(seq!['{']), ActionModel::Open(name, params)),
    ensures
        parse_from(text, p, lineno, cur, stack) == parse_from(
            text,
            p + line.len() + 1,
            lineno + 1,
            empty_doc(),
            stack.push(FrameModel { doc: cur, name, params }),
        ),
{
    lemma_read_line(text, p, line, (seq![name] + params).push(seq!['{']), ActionModel::Open(name, params));
}

proof fn lemma_step_close(
    text: Seq<char>,
    p: int,
    lineno: int,
    cur: ScfgModel,
    stack: Seq<FrameModel>,
    frame: FrameModel,
    line: Seq<char>,
)
    requires
        0 <= p,
        p + line.len() + 1 <= text.len(),
        text.subrange(p, p + line.len() + 1) == line + seq!['\n'],
        reads_as(line, seq![seq!['}']], ActionModel::Close),
    ensures
        parse_from(text, p, lineno, cur, stack.push(frame)) == parse_from(
            text,
            p + line.len() + 1,
            lineno + 1,
            add_model(frame.doc, frame.name, DirectiveModel { params: frame.params, child: Some(cur) }),
            stack,
        ),
{
    lemma_read_line(text, p, line, seq![seq!['}']], ActionModel::Close);
    assert(stack.push(frame).last() == frame);
    assert(stack.push(frame).drop_last() =~= stack);
}

/// Reading the written text of the directives of `m` from the `j`-th one of
/// bucket `i` on files them, in order, in the current block.
#[verifier::spinoff_prover]
#[verifier::rlimit(100)]
proof fn lemma_read_items(
    text: Seq<char>,
    p: int,
    lineno: int,
    cur: ScfgModel,
    stack: Seq<FrameModel>,
    m: ScfgModel,
    pad: Seq<char>,
    i: int,
    j: int,
    gap: bool,
) -> (l2: int)
    requires
        readable_from(m, pad, i, j),
        reads_as(Seq::empty(), Seq::empty(), ActionModel::Blank),
        0 <= p,
        0 <= i,
        0 <= j,
        p + items_text(m, pad, i, j, gap).len() <= text.len(),
        text.subrange(p, p + items_text(m, pad, i, j, gap).len()) == items_text(m, pad, i, j, gap),
    ensures
        parse_from(text, p, lineno, cur, stack) == parse_from(
            text,
            p + items_text(m, pad, i, j, gap).len(),
            l2,
            add_items(cur, m, i, j),
            stack,
        ),
    decreases m, m.entries.len() - i, m.entries[i].directives.len() - j,
{
    if i >= m.entries.len() {
        lineno
    } else if j >= m.entries[i].directives.len() {
        lemma_read_items(text, p, lineno, cur, stack, m, pad, i + 1, 0, gap)
    } else {
        let name = m.entries[i].name;
        let d = m.entries[i].directives[j];
        let head = head_line(pad, name, d.params);
        let x = items_text(m, pad, i, j, gap);
        let lead: Seq<char> = if gap {
            seq!['\n']
        } else {
            Seq::empty()
        };
        let q = p + lead.len();
        let l1 = if gap {
            lineno + 1
        } else {
            lineno
        };
        if gap {
            assert(x =~= seq!['\n'] + x.skip(1));
            lemma_split_at(text, p, seq!['\n'], x.skip(1));
            lemma_step_blank(text, p, lineno, cur, stack);
        }
        match d.child {
            None => {
                let rest = items_text(m, pad, i, j + 1, false);
                assert(x =~= lead + ((head + seq!['\n']) + rest));
                lemma_split_at(text, p, lead, (head + seq!['\n']) + rest);
                lemma_split_at(text, q, head + seq!['\n'], rest);
                lemma_step_leaf(text, q, l1, cur, stack, head, name, d.params);
                assert(d == DirectiveModel { params: d.params, child: None });
                let q2 = q + head.len() + 1;
                lemma_read_items(text, q2, l1 + 1, add_model(cur, name, d), stack, m, pad, i, j + 1, false)
            },
            Some(c) => {
                let open = head + seq![' ', '{'];
                let inner = items_text(c, pad + seq!['\t'], 0, 0, false);
                let close = pad + seq!['}'];
                let rest = items_text(m, pad, i, j + 1, true);
                assert(x =~= lead + ((open + seq!['\n']) + (inner + ((close + seq!['\n']) + rest))));
                lemma_split_at(text, p, lead, (open + seq!['\n']) + (inner + ((close + seq!['\n']) + rest)));
                lemma_split_at(text, q, open + seq!['\n'], inner + ((close + seq!['\n']) + rest));
                let q2 = q + open.len() + 1;
                lemma_split_at(text, q2, inner, (close + seq!['\n']) + rest);
                let q3 = q2 + inner.len();
                lemma_split_at(text, q3, close + seq!['\n'], rest);
                let q4 = q3 + close.len() + 1;
                lemma_step_open(text, q, l1, cur, stack, open, name, d.params);
                let frame = FrameModel { doc: cur, name, params: d.params };
                let pushed = stack.push(frame);
                let l3 = lemma_read_items(text, q2, l1 + 1, empty_doc(), pushed, c, pad + seq!['\t'], 0, 0, false);
                assert(prefix_doc(c, 0, 0) == empty_doc()) by {
                    assert(c.entries.take(0) =~= Seq::<EntryModel>::empty());
                }
                lemma_rebuild(c, 0, 0);
                lemma_step_close(text, q3, l3, c, stack, frame, close);
                assert(d == DirectiveModel { params: d.params, child: Some(c) });
                lemma_read_items(text, q4, l3 + 1, add_model(cur, name, d), stack, m, pad, i, j + 1, true)
            },
        }
    }
}

proof fn lemma_rebuild(m: ScfgModel, i: int, j: int)
    requires
        names_distinct(m),
        buckets_filled(m),
        0 <= i <= m.entries.len(),
        i < m.entries.len() ==> 0 <= j <= m.entries[i].directives.len(),
        i == m.entries.len() ==> j == 0,
    ensures
        add_items(prefix_doc(m, i, j), m, i, j) == m,
    decreases m.entries.len() - i, m.entries[i].directives.len() - j,
{
    if i >= m.entries.len() {
        assert(m.entries.take(i) =~= m.entries);
    } else if j >= m.entries[i].directives.len() {
        let e = m.entries[i];
        assert(e.directives.len() > 0);
        assert(e.directives.take(j) =~= e.directives);
        assert(m.entries.take(i).push(EntryModel { name: e.name, directives: e.directives.take(j) })
            =~= m.entries.take(i + 1));
        lemma_rebuild(m, i + 1, 0);
    } else {
        let e = m.entries[i];
        let d = e.directives[j];
        let pre = prefix_doc(m, i, j).entries;
        if j == 0 {
            assert forall|k: int| 0 <= k < pre.len() implies pre[k].name != e.name by {
                assert(pre[k] == m.entries[k]);
            }
            assert(find_name(pre, e.name) is None);
            assert(e.directives.take(1) =~= seq![d]);
            assert(pre.push(EntryModel { name: e.name, directives: seq![d] }) =~= prefix_doc(
                m,
                i,
                1,
            ).entries);
        } else {
            assert forall|k: int| 0 <= k < i implies pre[k].name != e.name by {
                assert(pre[k] == m.entries[k]);
            }
            assert(is_first_index(pre, e.name, i));
            lemma_first_index_unique(pre, e.name, i);
            assert(e.directives.take(j).push(d) =~= e.directives.take(j + 1));
            assert(pre.update(
                i,
                EntryModel { name: e.name, directives: pre[i].directives.push(d) },
            ) =~= prefix_doc(m, i, j + 1).entries);
        }
        assert(add_model(prefix_doc(m, i, j), e.name, d) == prefix_doc(m, i, j + 1));
        lemma_rebuild(m, i, j + 1);
    }
}

/// A document whose buckets have distinct names and are not empty, at every
/// level, and each of whose written lines reads back as what it was written
/// for, is read back from its written text as itself. This takes the
/// tokenizer to read an empty line as no words.
pub proof fn lemma_round_trip(m: ScfgModel)
    requires
        names_distinct(m),
        buckets_filled(m),
        readable_from(m, Seq::empty(), 0, 0),
        reads_as(Seq::empty(), Seq::empty(), ActionModel::Blank),
    ensures
        parse_model(doc_text(m)) == Ok::<ScfgModel, (Failure, int)>(m),
{
    let t = doc_text(m);
    assert(t.subrange(0, t.len() as int) =~= t);
    lemma_read_items(t, 0, 0, empty_doc(), Seq::empty(), m, Seq::empty(), 0, 0, false);
    assert(prefix_doc(m, 0, 0) == empty_doc()) by {
        assert(m.entries.take(0) =~= Seq::<EntryModel>::empty());
    }
    lemma_rebuild(m, 0, 0);
}

pub(crate) proof fn lemma_parse_well_built(
    text: Seq<char>,
    pos: int,
    lineno: int,
    cur: ScfgModel,
    stack: Seq<FrameModel>,
)
    requires
        names_distinct(cur),
        buckets_filled(cur),
        forall|k: int| 0 <= k < stack.len() ==> names_distinct(#[trigger] stack[k].doc) && buckets_filled(stack[k].doc),
    ensures
        parse_from(text, pos, lineno, cur, stack) matches Ok(r) ==> names_distinct(r) && buckets_filled(r),
    decreases text.len() - pos,
{
    if pos < 0 || pos >= text.len() {
    } else {
        let e = line_end(text, pos);
        if e <= pos || e > text.len() {
        } else {
            let line = trim(text.subrange(pos, e));
            match split_of(line) {
                None => {},
                Some(words) => match action_of(line, words) {
                    ActionModel::Blank => lemma_parse_well_built(text, e, lineno + 1, cur, stack),
                    ActionModel::Close => if stack.len() > 0 {
                        let f = stack.last();
                        assert(names_distinct(f.doc) && buckets_filled(f.doc));
                        let d = DirectiveModel { params: f.params, child: Some(cur) };
                        lemma_add_well_built(f.doc, f.name, d);
                        let rest = stack.drop_last();
                        assert forall|k: int| 0 <= k < rest.len() implies names_distinct(#[trigger] rest[k].doc)
                            && buckets_filled(rest[k].doc) by {
                            assert(rest[k] == stack[k]);
                        }
                        lemma_parse_well_built(text, e, lineno + 1, add_model(f.doc, f.name, d), rest);
                    },
                    ActionModel::Open(name, params) => {
                        let pushed = stack.push(FrameModel { doc: cur, name, params });
                        assert forall|k: int| 0 <= k < pushed.len() implies names_distinct(#[trigger] pushed[k].doc)
                            && buckets_filled(pushed[k].doc) by {
                            if k < stack.len() {
                                assert(pushed[k] == stack[k]);
                            }
                        }
                        lemma_parse_well_built(text, e, lineno + 1, empty_doc(), pushed);
                    },
                    ActionModel::Leaf(name, params) => {
                        let d = DirectiveModel { params, child: None };
                        lemma_add_well_built(cur, name, d);
                        lemma_parse_well_built(text, e, lineno + 1, add_model(cur, name, d), stack);
                    },
                },
            }
        }
    }
}

/// Where a text parses to a document each of whose written lines reads back
/// as what it was written for, the written text of that document parses to
/// the same document, so writing it again gives the same text: the written
/// form is stable under a second round. This takes the tokenizer to read an
/// empty line as no words.
pub proof fn lemma_written_text_is_stable(t: Seq<char>, m: ScfgModel)
    requires
        parse_model(t) == Ok::<ScfgModel, (Failure, int)>(m),
        readable_from(m, Seq::empty(), 0, 0),
        reads_as(Seq::empty(), Seq::empty(), ActionModel::Blank),
    ensures
        parse_model(doc_text(m)) == Ok::<ScfgModel, (Failure, int)>(m),
{
    lemma_parse_well_built(t, 0, 0, empty_doc(), Seq::empty());
    lemma_round_trip(m);
}

} // verus!
