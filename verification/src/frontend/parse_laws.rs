use vstd::prelude::*;

use crate::frontend::ast::{lemma_seq_valid_cons, seq_valid, InvalidNode, NodeModel, NodeShape};
use crate::frontend::lexer::{law_lex_reads_exactly_the_commands, lex, TokenKind};
use crate::frontend::parser::{
    advance, brackets_balanced, command_shape, lemma_parse_body_loops, lemma_parse_items_valid,
    lemma_parse_loop_balanced, lemma_parse_loop_loops, tokens_left, parse_body, parse_items,
    parse_loop, parse_tokens, single_node,
};

verus! {

/// The offsets of the tokens strictly increase and each is below
/// `usize::MAX`, as lexing gives them.
pub open spec fn offsets_increasing(toks: Seq<(TokenKind, usize)>) -> bool {
    &&& forall|a: int, b: int| 0 <= a < b < toks.len() ==> #[trigger] toks[a].1 < #[trigger] toks[b].1
    &&& forall|a: int| 0 <= a < toks.len() ==> #[trigger] toks[a].1 < usize::MAX
}

/// Every offset is below `usize::MAX`, so one past it is an offset too.
pub open spec fn offsets_below_max(toks: Seq<(TokenKind, usize)>) -> bool {
    forall|a: int| 0 <= a < toks.len() ==> #[trigger] toks[a].1 < usize::MAX
}

/// The offsets of the tokens `lo..hi` strictly increase.
pub open spec fn increasing_on(toks: Seq<(TokenKind, usize)>, lo: int, hi: int) -> bool {
    forall|a: int, b: int| lo <= a < b < hi && 0 <= a && b < toks.len() ==> #[trigger] toks[a].1
        < #[trigger] toks[b].1
}

/// The tokens of a source have increasing offsets below `usize::MAX`, so
/// the laws on spans below hold of every parsed source.
pub proof fn lemma_lex_offsets_increasing(bytes: Seq<u8>)
    requires
        bytes.len() <= usize::MAX,
    ensures
        offsets_increasing(lex(bytes)),
{
    law_lex_reads_exactly_the_commands(bytes);
}

/// A node's span is not empty; a node made of one token spans exactly that
/// token; the children of a loop lie strictly between its brackets, in
/// order and without overlap.
pub open spec fn node_spanned(n: NodeModel) -> bool
    decreases n,
{
    &&& n.start < n.end
    &&& match n.shape {
        NodeShape::Loop(body) => seq_spanned(body, n.start + 1, n.end - 1),
        NodeShape::Invalid(InvalidNode::OpenLoopStart) => true,
        _ => n.end == n.start + 1,
    }
}

/// Each node is spanned well, lies within `lo..hi`, and ends no later than
/// the next one starts.
pub open spec fn seq_spanned(ns: Seq<NodeModel>, lo: int, hi: int) -> bool
    decreases ns,
{
    if ns.len() == 0 {
        true
    } else {
        &&& node_spanned(ns[0])
        &&& lo <= ns[0].start
        &&& ns[0].end <= hi
        &&& seq_spanned(ns.subrange(1, ns.len() as int), ns[0].end as int, hi)
    }
}

proof fn lemma_seq_spanned_cons(n: NodeModel, rest: Seq<NodeModel>, lo: int, hi: int)
    ensures
        seq_spanned(seq![n] + rest, lo, hi) == (node_spanned(n) && lo <= n.start && n.end <= hi
            && seq_spanned(rest, n.end as int, hi)),
{
    let s = seq![n] + rest;
    assert(s[0] == n);
    assert(s.subrange(1, s.len() as int) =~= rest);
}

proof fn lemma_seq_spanned_lower(ns: Seq<NodeModel>, lo1: int, lo2: int, hi: int)
    requires
        seq_spanned(ns, lo2, hi),
        lo1 <= lo2,
    ensures
        seq_spanned(ns, lo1, hi),
{
}

/// A loop body that starts at a token takes it.
proof fn lemma_body_advances(toks: Seq<(TokenKind, usize)>, pos: int, last: usize)
    requires
        0 <= pos < toks.len(),
    ensures
        pos < parse_body(toks, pos, last).1 <= toks.len(),
{
    let k = toks[pos].0;
    let loc = toks[pos].1;
    if k != TokenKind::LoopEnd {
        let p1 = if k == TokenKind::LoopStart {
            lemma_parse_loop_loops(toks, pos);
            parse_loop(toks, pos).1
        } else {
            pos + 1
        };
        assert(advance(p1, pos) == p1);
        lemma_parse_body_loops(toks, p1, loc);
    }
}

/// The spans of a loop body from token `pos` on. Where the body is closed,
/// its items lie from token `pos` up to the `]` that closes it.
proof fn lemma_body_spans(toks: Seq<(TokenKind, usize)>, pos: int, last: usize)
    requires
        offsets_below_max(toks),
        increasing_on(toks, pos, parse_body(toks, pos, last).1),
        0 <= pos <= toks.len(),
        pos < toks.len() ==> last < toks[pos].1,
        last < usize::MAX,
    ensures
        ({
            let b = parse_body(toks, pos, last);
            &&& pos <= b.1 <= toks.len()
            &&& last <= b.2 < usize::MAX
            &&& !b.3 ==> b.1 == toks.len()
            &&& b.3 ==> pos < b.1 && b.2 == toks[b.1 - 1].1 && seq_spanned(
                b.0,
                toks[pos].1 as int,
                b.2 as int,
            )
        }),
    decreases toks.len() - pos, 1int,
{
    if pos < toks.len() {
        let k = toks[pos].0;
        let loc = toks[pos].1;
        if k != TokenKind::LoopEnd {
            if k == TokenKind::LoopStart {
                lemma_parse_loop_loops(toks, pos);
            }
            let (node, p1) = if k == TokenKind::LoopStart {
                parse_loop(toks, pos)
            } else {
                (single_node(command_shape(k), loc), pos + 1)
            };
            assert(advance(p1, pos) == p1);
            if p1 < toks.len() {
                lemma_body_advances(toks, p1, loc);
                assert(toks[pos].1 < toks[p1].1);
            }
            if k == TokenKind::LoopStart {
                lemma_parse_body_loops(toks, p1, loc);
                lemma_loop_spans(toks, pos);
            }
            lemma_body_spans(toks, p1, loc);
            let rest = parse_body(toks, p1, loc);
            lemma_seq_spanned_cons(node, rest.0, toks[pos].1 as int, rest.2 as int);
            if rest.3 {
                assert(toks[pos].1 < toks[rest.1 - 1].1);
                if k == TokenKind::LoopStart {
                    assert(node.end <= toks[p1].1);
                    lemma_seq_spanned_lower(rest.0, node.end as int, toks[p1].1 as int, rest.2 as int);
                } else {
                    lemma_seq_spanned_lower(rest.0, node.end as int, toks[p1].1 as int, rest.2 as int);
                }
            }
        }
    }
}

/// The node of the loop at `pos` is spanned well and starts at its `[`; a
/// closed loop ends just past its `]`; an open one takes every token left.
proof fn lemma_loop_spans(toks: Seq<(TokenKind, usize)>, pos: int)
    requires
        offsets_below_max(toks),
        increasing_on(toks, pos, parse_loop(toks, pos).1),
        0 <= pos < toks.len(),
        toks[pos].0 == TokenKind::LoopStart,
    ensures
        ({
            let (node, p1) = parse_loop(toks, pos);
            &&& pos < p1 <= toks.len()
            &&& node.start == toks[pos].1
            &&& node_spanned(node)
            &&& node.shape is Loop ==> node.end == toks[p1 - 1].1 + 1
            &&& !(node.shape is Loop) ==> p1 == toks.len()
        }),
    decreases toks.len() - pos, 0int,
{
    let start = toks[pos].1;
    if pos + 1 < toks.len() {
        lemma_body_advances(toks, pos + 1, start);
        assert(toks[pos].1 < toks[pos + 1].1);
    }
    lemma_body_spans(toks, pos + 1, start);
    let b = parse_body(toks, pos + 1, start);
    if b.3 {
        lemma_seq_spanned_lower(b.0, start + 1, toks[pos + 1].1 as int, b.2 as int);
    }
}

proof fn lemma_items_spans(toks: Seq<(TokenKind, usize)>, pos: int)
    requires
        offsets_below_max(toks),
        increasing_on(toks, pos, toks.len() as int),
        0 <= pos <= toks.len(),
    ensures
        pos < toks.len() ==> seq_spanned(parse_items(toks, pos), toks[pos].1 as int, usize::MAX as int),
        pos == toks.len() ==> parse_items(toks, pos).len() == 0,
    decreases toks.len() - pos,
{
    if pos < toks.len() {
        let k = toks[pos].0;
        let loc = toks[pos].1;
        let (node, p1) = if k == TokenKind::LoopStart {
            lemma_loop_spans(toks, pos);
            parse_loop(toks, pos)
        } else {
            (single_node(command_shape(k), loc), pos + 1)
        };
        assert(advance(p1, pos) == p1);
        lemma_items_spans(toks, p1);
        let rest = parse_items(toks, p1);
        assert(parse_items(toks, pos) == seq![node] + rest);
        lemma_seq_spanned_cons(node, rest, loc as int, usize::MAX as int);
        if p1 < toks.len() {
            assert(toks[pos].1 < toks[p1].1);
            assert(node.end <= toks[p1].1);
            lemma_seq_spanned_lower(rest, node.end as int, toks[p1].1 as int, usize::MAX as int);
        }
    }
}

/// What `seq_spanned` says, element by element.
pub proof fn lemma_seq_spanned_elements(ns: Seq<NodeModel>, lo: int, hi: int)
    requires
        seq_spanned(ns, lo, hi),
    ensures
        forall|i: int| 0 <= i < ns.len() ==> node_spanned(#[trigger] ns[i]) && lo <= ns[i].start
            && ns[i].end <= hi,
        forall|i: int| 0 <= i < ns.len() - 1 ==> (#[trigger] ns[i]).end <= ns[i + 1].start,
    decreases ns.len(),
{
    if ns.len() > 0 {
        let t = ns.subrange(1, ns.len() as int);
        lemma_seq_spanned_elements(t, ns[0].end as int, hi);
        assert forall|i: int| 0 <= i < ns.len() implies node_spanned(#[trigger] ns[i]) && lo
            <= ns[i].start && ns[i].end <= hi by {
            assert(node_spanned(ns[0]));
            assert(ns[0].start < ns[0].end);
            if i > 0 {
                assert(ns[i] == t[i - 1]);
                assert(ns[0].end <= t[i - 1].start);
            }
        }
        assert forall|i: int| 0 <= i < ns.len() - 1 implies (#[trigger] ns[i]).end <= ns[i
            + 1].start by {
            assert(ns[i + 1] == t[i]);
            if i > 0 {
                assert(ns[i] == t[i - 1]);
            }
        }
    }
}

/// The loop whose `[` is token `pos`, where the offsets of its own tokens
/// increase (whatever the other tokens hold): its span is not empty, it
/// starts at its `[` and, closed, ends just past its `]`, and its children
/// lie strictly between its brackets, in order, without overlapping, and
/// are spanned well themselves (see `law_loop_children_inside`).
pub proof fn law_loop_spans(toks: Seq<(TokenKind, usize)>, pos: int)
    requires
        offsets_below_max(toks),
        0 <= pos < toks.len(),
        toks[pos].0 == TokenKind::LoopStart,
        increasing_on(toks, pos, parse_loop(toks, pos).1),
    ensures
        node_spanned(parse_loop(toks, pos).0),
        parse_loop(toks, pos).0.start == toks[pos].1,
        parse_loop(toks, pos).0.shape is Loop ==> parse_loop(toks, pos).0.end == toks[parse_loop(
            toks,
            pos,
        ).1 - 1].1 + 1,
{
    lemma_loop_spans(toks, pos);
}

/// The node that the token at `pos` starts: its loop, or the node of that
/// one token.
pub open spec fn item_node(toks: Seq<(TokenKind, usize)>, pos: int) -> NodeModel {
    if toks[pos].0 == TokenKind::LoopStart {
        parse_loop(toks, pos).0
    } else {
        single_node(command_shape(toks[pos].0), toks[pos].1)
    }
}

/// The position just past the node that the token at `pos` starts.
pub open spec fn item_end(toks: Seq<(TokenKind, usize)>, pos: int) -> int {
    if toks[pos].0 == TokenKind::LoopStart {
        advance(parse_loop(toks, pos).1, pos)
    } else {
        pos + 1
    }
}

/// Where the top-level nodes from token `pos` on start.
pub open spec fn item_starts(toks: Seq<(TokenKind, usize)>, pos: int) -> Seq<int>
    decreases tokens_left(toks, pos),
{
    if pos < 0 || pos >= toks.len() {
        Seq::empty()
    } else {
        seq![pos] + item_starts(toks, item_end(toks, pos))
    }
}

/// A node comes from the tokens: some token starts it, at that token's
/// offset; a node of one token spans just that offset; the children of a
/// loop come from the tokens too.
pub open spec fn node_from(toks: Seq<(TokenKind, usize)>, n: NodeModel) -> bool
    decreases n,
{
    &&& exists|p: int| 0 <= p < toks.len() && #[trigger] item_node(toks, p) == n && n.start == toks[p].1
    &&& match n.shape {
        NodeShape::Loop(body) => seq_from(toks, body),
        NodeShape::Invalid(InvalidNode::OpenLoopStart) => true,
        _ => n.end == n.start + 1,
    }
}

/// Every node of the sequence comes from the tokens.
pub open spec fn seq_from(toks: Seq<(TokenKind, usize)>, ns: Seq<NodeModel>) -> bool
    decreases ns,
{
    if ns.len() == 0 {
        true
    } else {
        node_from(toks, ns[0]) && seq_from(toks, ns.subrange(1, ns.len() as int))
    }
}

proof fn lemma_seq_from_cons(toks: Seq<(TokenKind, usize)>, n: NodeModel, rest: Seq<NodeModel>)
    ensures
        seq_from(toks, seq![n] + rest) == (node_from(toks, n) && seq_from(toks, rest)),
{
    let s = seq![n] + rest;
    assert(s[0] == n);
    assert(s.subrange(1, s.len() as int) =~= rest);
}

proof fn lemma_item_node_start(toks: Seq<(TokenKind, usize)>, pos: int)
    requires
        0 <= pos < toks.len(),
    ensures
        item_node(toks, pos).start == toks[pos].1,
{
}

proof fn lemma_body_from(toks: Seq<(TokenKind, usize)>, pos: int, last: usize)
    requires
        offsets_below_max(toks),
        0 <= pos <= toks.len(),
    ensures
        seq_from(toks, parse_body(toks, pos, last).0),
    decreases toks.len() - pos, 1int,
{
    if pos < toks.len() {
        let k = toks[pos].0;
        let loc = toks[pos].1;
        if k != TokenKind::LoopEnd {
            if k == TokenKind::LoopStart {
                lemma_parse_loop_loops(toks, pos);
                lemma_loop_from(toks, pos);
            } else {
                lemma_item_node_start(toks, pos);
                assert(item_node(toks, pos).start == toks[pos].1);
            }
            let (node, p1) = if k == TokenKind::LoopStart {
                parse_loop(toks, pos)
            } else {
                (single_node(command_shape(k), loc), pos + 1)
            };
            assert(advance(p1, pos) == p1);
            lemma_body_from(toks, p1, loc);
            lemma_seq_from_cons(toks, node, parse_body(toks, p1, loc).0);
        }
    }
}

proof fn lemma_loop_from(toks: Seq<(TokenKind, usize)>, pos: int)
    requires
        offsets_below_max(toks),
        0 <= pos < toks.len(),
        toks[pos].0 == TokenKind::LoopStart,
    ensures
        node_from(toks, parse_loop(toks, pos).0),
    decreases toks.len() - pos, 0int,
{
    lemma_body_from(toks, pos + 1, toks[pos].1);
    lemma_item_node_start(toks, pos);
    assert(item_node(toks, pos) == parse_loop(toks, pos).0);
}

proof fn lemma_items_from(toks: Seq<(TokenKind, usize)>, pos: int)
    requires
        offsets_below_max(toks),
        0 <= pos <= toks.len(),
    ensures
        seq_from(toks, parse_items(toks, pos)),
        parse_items(toks, pos).len() == item_starts(toks, pos).len(),
        forall|i: int|
            0 <= i < item_starts(toks, pos).len() ==> pos <= #[trigger] item_starts(toks, pos)[i]
                < toks.len() && parse_items(toks, pos)[i] == item_node(toks, item_starts(toks, pos)[i])
                && item_end(toks, item_starts(toks, pos)[i]) <= toks.len(),
        forall|i: int|
            0 <= i < item_starts(toks, pos).len() - 1 ==> item_starts(toks, pos)[i + 1] == item_end(
                toks,
                #[trigger] item_starts(toks, pos)[i],
            ),
    decreases toks.len() - pos,
{
    if pos < toks.len() {
        let k = toks[pos].0;
        let loc = toks[pos].1;
        if k == TokenKind::LoopStart {
            lemma_parse_loop_loops(toks, pos);
            lemma_loop_from(toks, pos);
        } else {
            lemma_item_node_start(toks, pos);
            assert(item_node(toks, pos).start == toks[pos].1);
        }
        let node = item_node(toks, pos);
        let p1 = item_end(toks, pos);
        assert(parse_items(toks, pos) == seq![node] + parse_items(toks, p1));
        lemma_items_from(toks, p1);
        lemma_seq_from_cons(toks, node, parse_items(toks, p1));
        let st = item_starts(toks, pos);
        let st1 = item_starts(toks, p1);
        assert(st == seq![pos] + st1);
        assert forall|i: int| 0 <= i < st.len() implies pos <= #[trigger] st[i] < toks.len()
            && parse_items(toks, pos)[i] == item_node(toks, st[i]) && item_end(toks, st[i])
            <= toks.len() by {
            if i > 0 {
                assert(st[i] == st1[i - 1]);
                assert(parse_items(toks, pos)[i] == parse_items(toks, p1)[i - 1]);
            }
        }
        assert forall|i: int| 0 <= i < st.len() - 1 implies st[i + 1] == item_end(
            toks,
            #[trigger] st[i],
        ) by {
            assert(st[i + 1] == st1[i]);
            if i > 0 {
                assert(st[i] == st1[i - 1]);
                assert(st1[i - 1 + 1] == item_end(toks, st1[i - 1]));
            } else {
                assert(st[0] == pos);
                assert(st1.len() > 0);
                assert(0 <= p1 < toks.len());
                assert(st1 == seq![p1] + item_starts(toks, item_end(toks, p1)));
                assert(st1[0] == p1);
            }
        }
    }
}

/// Every node of a parsed tree, at any depth, comes from the tokens (see
/// `node_from`), whatever order their offsets come in: it is the node that
/// some token starts, at that token's offset, and a node made of one token
/// spans exactly that offset and the next.
pub proof fn law_nodes_from_tokens(toks: Seq<(TokenKind, usize)>)
    requires
        offsets_below_max(toks),
    ensures
        seq_from(toks, parse_tokens(toks)),
{
    lemma_items_from(toks, 0);
}

proof fn lemma_body_closed_end(toks: Seq<(TokenKind, usize)>, pos: int, last: usize)
    requires
        0 <= pos <= toks.len(),
    ensures
        parse_body(toks, pos, last).3 ==> pos < parse_body(toks, pos, last).1 && parse_body(
            toks,
            pos,
            last,
        ).2 == toks[parse_body(toks, pos, last).1 - 1].1,
    decreases toks.len() - pos,
{
    if pos < toks.len() && toks[pos].0 != TokenKind::LoopEnd {
        let p1 = if toks[pos].0 == TokenKind::LoopStart {
            lemma_parse_loop_loops(toks, pos);
            parse_loop(toks, pos).1
        } else {
            pos + 1
        };
        assert(advance(p1, pos) == p1);
        lemma_body_closed_end(toks, p1, toks[pos].1);
    }
}

/// The top-level nodes of a parsed tree, whatever order the offsets come
/// in: node `i` is the node that token `item_starts(toks, 0)[i]` starts; a
/// closed loop ends just past its `]`; a loop left open is the last node;
/// and two neighbouring nodes do not overlap wherever the last token of the
/// first comes before the first token of the second.
pub proof fn law_top_level_spans(toks: Seq<(TokenKind, usize)>)
    requires
        offsets_below_max(toks),
    ensures
        ({
            let ns = parse_tokens(toks);
            let st = item_starts(toks, 0);
            &&& ns.len() == st.len()
            &&& forall|i: int|
                0 <= i < ns.len() ==> #[trigger] ns[i] == item_node(toks, st[i]) && ns[i].start
                    == toks[st[i]].1
            &&& forall|i: int|
                0 <= i < ns.len() && (#[trigger] ns[i]).shape is Loop ==> ns[i].end == toks[item_end(
                    toks,
                    st[i],
                ) - 1].1 + 1
            &&& forall|i: int|
                0 <= i < ns.len() && (#[trigger] ns[i]).shape == NodeShape::Invalid(
                    InvalidNode::OpenLoopStart,
                ) ==> i == ns.len() - 1
            &&& forall|i: int|
                0 <= i < ns.len() - 1 && toks[item_end(toks, st[i]) - 1].1 < toks[st[i + 1]].1
                    ==> (#[trigger] ns[i]).end <= ns[i + 1].start
        }),
{
    lemma_items_from(toks, 0);
    let ns = parse_tokens(toks);
    let st = item_starts(toks, 0);
    assert forall|i: int| 0 <= i < ns.len() implies #[trigger] ns[i] == item_node(toks, st[i])
        && ns[i].start == toks[st[i]].1 by {
        lemma_item_node_start(toks, st[i]);
    }
    assert forall|i: int| 0 <= i < ns.len() && (#[trigger] ns[i]).shape is Loop implies ns[i].end
        == toks[item_end(toks, st[i]) - 1].1 + 1 by {
        let p = st[i];
        lemma_parse_loop_loops(toks, p);
        lemma_body_closed_end(toks, p + 1, toks[p].1);
        assert(toks[p].0 == TokenKind::LoopStart);
    }
    assert forall|i: int|
        0 <= i < ns.len() && (#[trigger] ns[i]).shape == NodeShape::Invalid(
            InvalidNode::OpenLoopStart,
        ) implies i == ns.len() - 1 by {
        let p = st[i];
        if toks[p].0 == TokenKind::LoopStart {
            lemma_parse_loop_loops(toks, p);
            lemma_body_closed_end(toks, p + 1, toks[p].1);
            lemma_parse_loop_balanced(toks, p, 0);
            if i < ns.len() - 1 {
                assert(st[i + 1] == item_end(toks, p));
                assert(st[i + 1] < toks.len());
            }
        }
    }
    assert forall|i: int|
        0 <= i < ns.len() - 1 && toks[item_end(toks, st[i]) - 1].1 < toks[st[i + 1]].1 implies (
        #[trigger] ns[i]).end <= ns[i + 1].start by {
        let p = st[i];
        lemma_item_node_start(toks, st[i + 1]);
        assert(st[i + 1] == item_end(toks, p));
        if toks[p].0 == TokenKind::LoopStart {
            lemma_parse_loop_loops(toks, p);
            lemma_body_closed_end(toks, p + 1, toks[p].1);
            lemma_parse_loop_balanced(toks, p, 0);
        }
    }
}

/// The spans of a parsed tree: every node's span is non-empty, a node made
/// of one token spans just that token, the top-level nodes come in source
/// order without overlapping, and (see `law_loop_children_inside`) the
/// children of a loop lie strictly between its brackets.
pub proof fn law_parse_spans(toks: Seq<(TokenKind, usize)>)
    requires
        offsets_increasing(toks),
    ensures
        seq_spanned(parse_tokens(toks), 0, usize::MAX as int),
        forall|i: int|
            0 <= i < parse_tokens(toks).len() ==> node_spanned(#[trigger] parse_tokens(toks)[i]),
        forall|i: int|
            0 <= i < parse_tokens(toks).len() - 1 ==> (#[trigger] parse_tokens(toks)[i]).end
                <= parse_tokens(toks)[i + 1].start,
{
    lemma_items_spans(toks, 0);
    if toks.len() > 0 {
        lemma_seq_spanned_lower(parse_tokens(toks), 0, toks[0].1 as int, usize::MAX as int);
    }
    lemma_seq_spanned_elements(parse_tokens(toks), 0, usize::MAX as int);
}

/// The children of a well-spanned loop lie strictly between its brackets,
/// in order and without overlapping, and are well spanned themselves.
pub proof fn law_loop_children_inside(n: NodeModel)
    requires
        node_spanned(n),
    ensures
        n.shape matches NodeShape::Loop(body) ==> (forall|i: int|
            0 <= i < body.len() ==> node_spanned(#[trigger] body[i]) && n.start < body[i].start
                && body[i].end <= n.end - 1),
        n.shape matches NodeShape::Loop(body) ==> (forall|i: int|
            0 <= i < body.len() - 1 ==> (#[trigger] body[i]).end <= body[i + 1].start),
{
    if let NodeShape::Loop(body) = n.shape {
        lemma_seq_spanned_elements(body, n.start + 1, n.end - 1);
    }
}

/// The character of a command.
pub open spec fn kind_char(k: TokenKind) -> char {
    match k {
        TokenKind::Add => '+',
        TokenKind::Sub => '-',
        TokenKind::MoveLeft => '<',
        TokenKind::MoveRight => '>',
        TokenKind::LoopStart => '[',
        TokenKind::LoopEnd => ']',
        TokenKind::Input => ',',
        TokenKind::Output => '.',
    }
}

/// The characters of the commands of a token sequence, in order.
pub open spec fn command_chars(toks: Seq<(TokenKind, usize)>) -> Seq<char> {
    toks.map_values(|t: (TokenKind, usize)| kind_char(t.0))
}

/// A node written back out as commands.
pub open spec fn node_text(n: NodeModel) -> Seq<char>
    decreases n,
{
    match n.shape {
        NodeShape::Add(k) => if k > 0 {
            seq!['+']
        } else if k < 0 {
            seq!['-']
        } else {
            Seq::empty()
        },
        NodeShape::Move(k) => if k > 0 {
            seq!['>']
        } else if k < 0 {
            seq!['<']
        } else {
            Seq::empty()
        },
        NodeShape::Input => seq![','],
        NodeShape::Output => seq!['.'],
        NodeShape::Loop(body) => seq!['['] + seq_text(body) + seq![']'],
        NodeShape::Invalid(InvalidNode::OpenLoopStart) => seq!['['],
        NodeShape::Invalid(InvalidNode::OpenLoopEnd) => seq![']'],
    }
}

/// A node sequence written back out as commands.
pub open spec fn seq_text(ns: Seq<NodeModel>) -> Seq<char>
    decreases ns,
{
    if ns.len() == 0 {
        Seq::empty()
    } else {
        node_text(ns[0]) + seq_text(ns.subrange(1, ns.len() as int))
    }
}

proof fn lemma_seq_text_cons(n: NodeModel, rest: Seq<NodeModel>)
    ensures
        seq_text(seq![n] + rest) == node_text(n) + seq_text(rest),
{
    let s = seq![n] + rest;
    assert(s[0] == n);
    assert(s.subrange(1, s.len() as int) =~= rest);
}

proof fn lemma_command_chars_split(toks: Seq<(TokenKind, usize)>, a: int, m: int, b: int)
    requires
        0 <= a <= m <= b <= toks.len(),
    ensures
        command_chars(toks.subrange(a, b)) == command_chars(toks.subrange(a, m)) + command_chars(
            toks.subrange(m, b),
        ),
{
    assert(command_chars(toks.subrange(a, b)) =~= command_chars(toks.subrange(a, m))
        + command_chars(toks.subrange(m, b)));
}

proof fn lemma_command_chars_one(toks: Seq<(TokenKind, usize)>, a: int)
    requires
        0 <= a < toks.len(),
    ensures
        command_chars(toks.subrange(a, a + 1)) == seq![kind_char(toks[a].0)],
{
    assert(command_chars(toks.subrange(a, a + 1)) =~= seq![kind_char(toks[a].0)]);
}

proof fn lemma_command_text(k: TokenKind, loc: usize)
    requires
        k != TokenKind::LoopStart,
        k != TokenKind::LoopEnd,
    ensures
        node_text(single_node(command_shape(k), loc)) == seq![kind_char(k)],
{
}

/// A closed loop body, written back out with its `]`, gives back the
/// commands it was parsed from.
proof fn lemma_body_text(toks: Seq<(TokenKind, usize)>, pos: int, last: usize)
    requires
        0 <= pos <= toks.len(),
    ensures
        ({
            let b = parse_body(toks, pos, last);
            &&& pos <= b.1 <= toks.len()
            &&& !b.3 ==> b.1 == toks.len()
            &&& b.3 ==> seq_text(b.0) + seq![']'] == command_chars(toks.subrange(pos, b.1))
        }),
    decreases toks.len() - pos, 1int,
{
    if pos < toks.len() {
        let k = toks[pos].0;
        let loc = toks[pos].1;
        if k == TokenKind::LoopEnd {
            lemma_command_chars_one(toks, pos);
            assert(seq_text(Seq::<NodeModel>::empty()) + seq![']'] =~= seq![']']);
        } else {
            let (node, p1) = if k == TokenKind::LoopStart {
                lemma_loop_text(toks, pos);
                parse_loop(toks, pos)
            } else {
                lemma_command_text(k, loc);
                lemma_command_chars_one(toks, pos);
                (single_node(command_shape(k), loc), pos + 1)
            };
            assert(advance(p1, pos) == p1);
            lemma_body_text(toks, p1, loc);
            let rest = parse_body(toks, p1, loc);
            lemma_seq_text_cons(node, rest.0);
            if rest.3 {
                lemma_command_chars_split(toks, pos, p1, rest.1);
                assert(seq_text(seq![node] + rest.0) + seq![']'] =~= node_text(node) + (seq_text(
                    rest.0,
                ) + seq![']']));
            }
        }
    }
}

/// A closed loop, written back out, gives back the commands it was parsed
/// from; an open one takes every token left.
proof fn lemma_loop_text(toks: Seq<(TokenKind, usize)>, pos: int)
    requires
        0 <= pos < toks.len(),
        toks[pos].0 == TokenKind::LoopStart,
    ensures
        ({
            let (node, p1) = parse_loop(toks, pos);
            &&& pos < p1 <= toks.len()
            &&& node.shape is Loop ==> node_text(node) == command_chars(toks.subrange(pos, p1))
            &&& !(node.shape is Loop) ==> p1 == toks.len()
        }),
    decreases toks.len() - pos, 0int,
{
    lemma_body_text(toks, pos + 1, toks[pos].1);
    let b = parse_body(toks, pos + 1, toks[pos].1);
    if b.3 {
        lemma_command_chars_one(toks, pos);
        lemma_command_chars_split(toks, pos, pos + 1, b.1);
        assert(seq!['['] + seq_text(b.0) + seq![']'] =~= seq!['['] + (seq_text(b.0) + seq![']']));
    }
}

proof fn lemma_items_text(toks: Seq<(TokenKind, usize)>, pos: int)
    requires
        0 <= pos <= toks.len(),
    ensures
        seq_valid(parse_items(toks, pos)) ==> seq_text(parse_items(toks, pos)) == command_chars(
            toks.subrange(pos, toks.len() as int),
        ),
    decreases toks.len() - pos,
{
    if pos == toks.len() {
        assert(command_chars(toks.subrange(pos, pos)) =~= Seq::<char>::empty());
    } else {
        let k = toks[pos].0;
        let loc = toks[pos].1;
        let (node, p1) = if k == TokenKind::LoopStart {
            lemma_loop_text(toks, pos);
            parse_loop(toks, pos)
        } else {
            lemma_command_chars_one(toks, pos);
            (single_node(command_shape(k), loc), pos + 1)
        };
        assert(advance(p1, pos) == p1);
        lemma_items_text(toks, p1);
        let rest = parse_items(toks, p1);
        assert(parse_items(toks, pos) == seq![node] + rest);
        lemma_seq_valid_cons(node, rest);
        lemma_seq_text_cons(node, rest);
        if seq_valid(parse_items(toks, pos)) {
            if k != TokenKind::LoopStart {
                assert(k != TokenKind::LoopEnd);
                lemma_command_text(k, loc);
            }
            lemma_command_chars_split(toks, pos, p1, toks.len() as int);
        }
    }
}

/// Parsing balanced tokens loses nothing: no node of the tree, at any
/// depth, is invalid, and writing the tree back out as commands gives the
/// commands of the tokens, in order, each token in exactly one node.
pub proof fn law_parse_gives_back_the_commands(toks: Seq<(TokenKind, usize)>)
    requires
        brackets_balanced(toks),
    ensures
        seq_valid(parse_tokens(toks)),
        seq_text(parse_tokens(toks)) == command_chars(toks),
{
    lemma_parse_items_valid(toks, 0);
    lemma_items_text(toks, 0);
    assert(toks.subrange(0, toks.len() as int) =~= toks);
}

} // verus!
