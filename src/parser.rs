//! Parser for the flattened game-record format: `(;KEY[value]...;B[dd];W[pd])`.
use crate::text::{chars_of, push_char, trim_text, trimmed};
use vstd::hash_map::StringHashMap;
use vstd::prelude::*;

verus! {

/// The colour of a stone.
#[derive(Debug, Clone, Copy, PartialEq, Eq, Structural)]
pub enum Color {
    Black,
    White,
}

/// One move of a record.
#[derive(Debug, Clone)]
pub struct Move {
    pub color: Color,
    /// Column and row, counted from zero; `None` for a pass.
    pub position: Option<(u8, u8)>,
    pub comment: Option<String>,
}

/// A parsed record: the root node's properties and every move in order.
pub struct GameTree {
    pub properties: StringHashMap<Vec<String>>,
    pub moves: Vec<Move>,
}

/// Why a record text was refused.
#[derive(Debug)]
pub enum ParseError {
    InvalidFormat(String),
}

/// The colour and position of a move.
pub open spec fn move_spec(m: Move) -> MoveSpec {
    (m.color, m.position)
}

/// The colours and positions of a list of moves.
pub open spec fn moves_view(ms: Seq<Move>) -> Seq<MoveSpec> {
    ms.map_values(|m: Move| move_spec(m))
}

/// No move of the list carries a comment.
pub open spec fn no_comments(ms: Seq<Move>) -> bool {
    forall|i: int| 0 <= i < ms.len() ==> (#[trigger] ms[i]).comment is None
}

/// The characters of each string of a list.
pub open spec fn strings_view(vs: Seq<String>) -> Seq<Seq<char>> {
    vs.map_values(|s: String| s@)
}

/// A property mapping with each value list seen as character sequences.
pub open spec fn properties_view(m: Map<Seq<char>, Vec<String>>) -> Map<Seq<char>, Seq<Seq<char>>> {
    m.map_values(|v: Vec<String>| strings_view(v@))
}

/// What a coordinate token decodes to: two letters, column then row, each
/// counted from `a`; anything else (empty, other length, out of range) is a pass.
pub open spec fn coords_of(v: Seq<char>) -> Option<(u8, u8)> {
    if v.len() == 2 && 'a' <= v[0] && v[0] <= 's' && 'a' <= v[1] && v[1] <= 's' {
        Some(((v[0] as u32 - 'a' as u32) as u8, (v[1] as u32 - 'a' as u32) as u8))
    } else {
        None
    }
}

/// Decodes a coordinate token (`"dd"` is column 3, row 3).
pub fn sgf_to_coords(s: &str) -> (r: Option<(u8, u8)>)
    ensures
        r == coords_of(s@),
{
    if s.unicode_len() != 2 {
        return None;
    }
    let c0 = s.get_char(0);
    let c1 = s.get_char(1);
    if 'a' <= c0 && c0 <= 's' && 'a' <= c1 && c1 <= 's' {
        Some(((c0 as u32 - 'a' as u32) as u8, (c1 as u32 - 'a' as u32) as u8))
    } else {
        None
    }
}

/// A property as it stands in a node: its key and its bracketed values.
pub type PropSpec = (Seq<char>, Seq<Seq<char>>);

/// A move as the record states it: its colour and its position (`None` for a pass).
pub type MoveSpec = (Color, Option<(u8, u8)>);

/// Keys are runs of ASCII upper-case letters.
pub open spec fn is_key_char(c: char) -> bool {
    'A' <= c && c <= 'Z'
}

/// Index just past the run of key letters that starts at `i` in node `n`.
pub open spec fn key_end(n: Seq<char>, i: int) -> int
    decreases n.len() - i,
{
    if 0 <= i < n.len() && is_key_char(n[i]) {
        key_end(n, i + 1)
    } else {
        i
    }
}

/// Index of the first `]` at or after `i` in node `n` (the node's end if there is none).
pub open spec fn close_at(n: Seq<char>, i: int) -> int
    decreases n.len() - i,
{
    if 0 <= i < n.len() && n[i] != ']' {
        close_at(n, i + 1)
    } else {
        i
    }
}

/// The bracketed values that follow one another from index `i` of node `n`,
/// and the index just past the last of them. A value runs from `[` to the next
/// `]`, or to the end of the node when no `]` follows.
pub open spec fn values_at(n: Seq<char>, i: int) -> (Seq<Seq<char>>, int)
    decreases n.len() - i,
    via values_at_decreases
{
    if 0 <= i < n.len() && n[i] == '[' {
        let c = close_at(n, i + 1);
        let next = if c < n.len() { c + 1 } else { c };
        let rest = values_at(n, next);
        (seq![n.subrange(i + 1, c)] + rest.0, rest.1)
    } else {
        (seq![], i)
    }
}

/// The properties of node `n` from index `i` on, in order: each run of key
/// letters followed by at least one bracketed value. Other characters, and
/// keys without a value, are skipped.
pub open spec fn props_at(n: Seq<char>, i: int) -> Seq<PropSpec>
    decreases n.len() - i,
    via props_at_decreases
{
    if 0 <= i < n.len() {
        if is_key_char(n[i]) {
            let k = key_end(n, i);
            let vs = values_at(n, k);
            let rest = props_at(n, vs.1);
            if vs.0.len() > 0 {
                seq![(n.subrange(i, k), vs.0)] + rest
            } else {
                rest
            }
        } else {
            props_at(n, i + 1)
        }
    } else {
        seq![]
    }
}

proof fn lemma_close_at_bounds(n: Seq<char>, i: int)
    requires
        0 <= i <= n.len(),
    ensures
        i <= close_at(n, i) <= n.len(),
        close_at(n, i) < n.len() ==> n[close_at(n, i)] == ']',
        forall|j: int| i <= j < close_at(n, i) ==> n[j] != ']',
    decreases n.len() - i,
{
    if i < n.len() && n[i] != ']' {
        lemma_close_at_bounds(n, i + 1);
    }
}

proof fn lemma_key_end_bounds(n: Seq<char>, i: int)
    requires
        0 <= i <= n.len(),
    ensures
        i <= key_end(n, i) <= n.len(),
        key_end(n, i) < n.len() ==> !is_key_char(n[key_end(n, i)]),
        forall|j: int| i <= j < key_end(n, i) ==> is_key_char(n[j]),
    decreases n.len() - i,
{
    if i < n.len() && is_key_char(n[i]) {
        lemma_key_end_bounds(n, i + 1);
    }
}

#[via_fn]
proof fn values_at_decreases(n: Seq<char>, i: int) {
    if 0 <= i < n.len() && n[i] == '[' {
        lemma_close_at_bounds(n, i + 1);
    }
}

proof fn lemma_values_at_bounds(n: Seq<char>, i: int)
    requires
        0 <= i <= n.len(),
    ensures
        i <= values_at(n, i).1 <= n.len(),
        values_at(n, i).0.len() == 0 <==> values_at(n, i).1 == i,
    decreases n.len() - i,
{
    if i < n.len() && n[i] == '[' {
        lemma_close_at_bounds(n, i + 1);
        let c = close_at(n, i + 1);
        let next = if c < n.len() { c + 1 } else { c };
        lemma_values_at_bounds(n, next);
    }
}

#[via_fn]
proof fn props_at_decreases(n: Seq<char>, i: int) {
    if 0 <= i < n.len() && is_key_char(n[i]) {
        lemma_key_end_bounds(n, i);
        lemma_values_at_bounds(n, key_end(n, i));
    }
}

/// The pieces of `c` between the separators `;`, empty ones included
/// (one more piece than there are separators).
pub open spec fn split_semis(c: Seq<char>) -> Seq<Seq<char>>
    decreases c.len(),
{
    if c.len() == 0 {
        seq![Seq::<char>::empty()]
    } else {
        let s = split_semis(c.drop_last());
        if c.last() == ';' {
            s.push(Seq::<char>::empty())
        } else {
            s.update(s.len() - 1, s.last().push(c.last()))
        }
    }
}

/// The nodes of a record's content: its non-empty pieces between `;`.
pub open spec fn nodes_of(c: Seq<char>) -> Seq<Seq<char>> {
    split_semis(c).filter(|f: Seq<char>| f.len() > 0)
}

/// A key that places a stone: `B` or `W`.
pub open spec fn is_move_key(k: Seq<char>) -> bool {
    k == seq!['B'] || k == seq!['W']
}

/// The move that a `B` or `W` property stands for; its first value is the position.
pub open spec fn move_of(p: PropSpec) -> MoveSpec {
    (if p.0 == seq!['B'] { Color::Black } else { Color::White }, coords_of(p.1[0]))
}

/// The moves of one node, in order.
pub open spec fn node_moves(n: Seq<char>) -> Seq<MoveSpec> {
    props_at(n, 0).filter(|p: PropSpec| is_move_key(p.0)).map_values(|p: PropSpec| move_of(p))
}

/// The moves of a sequence of nodes, node after node.
pub open spec fn moves_of(nodes: Seq<Seq<char>>) -> Seq<MoveSpec>
    decreases nodes.len(),
{
    if nodes.len() == 0 {
        seq![]
    } else {
        moves_of(nodes.drop_last()) + node_moves(nodes.last())
    }
}

/// The property mapping of a root node's properties: moves are left out, and a
/// key that comes again replaces its earlier values.
pub open spec fn root_map(props: Seq<PropSpec>) -> Map<Seq<char>, Seq<Seq<char>>>
    decreases props.len(),
{
    if props.len() == 0 {
        Map::empty()
    } else {
        let m = root_map(props.drop_last());
        let p = props.last();
        if is_move_key(p.0) {
            m
        } else {
            m.insert(p.0, p.1)
        }
    }
}

/// The content of a record text: what stands between its outer parentheses.
pub open spec fn content_of(t: Seq<char>) -> Seq<char> {
    t.subrange(1, t.len() - 1)
}

/// The message of the error for a text without outer parentheses.
pub const MISSING_PARENS: &'static str = "Missing outer parentheses";

/// The message of the error for a content that does not open with `;`.
pub const MISSING_SEMICOLON: &'static str = "Missing initial semicolon";

/// The record text is enclosed in parentheses.
pub open spec fn has_parens(t: Seq<char>) -> bool {
    t.len() >= 2 && t[0] == '(' && t[t.len() - 1] == ')'
}

/// The record's content opens with a node separator.
pub open spec fn has_first_semi(t: Seq<char>) -> bool {
    content_of(t).len() > 0 && content_of(t)[0] == ';'
}

/// The root properties of a well-formed record text: those of its first node.
pub open spec fn record_properties(t: Seq<char>) -> Map<Seq<char>, Seq<Seq<char>>> {
    let nodes = nodes_of(content_of(t));
    if nodes.len() > 0 {
        root_map(props_at(nodes[0], 0))
    } else {
        Map::empty()
    }
}

/// The moves of a well-formed record text, from all its nodes in order.
pub open spec fn record_moves(t: Seq<char>) -> Seq<MoveSpec> {
    moves_of(nodes_of(content_of(t)))
}

/// Reads the key that starts at `i`, and the index just past it.
fn read_key(n: &Vec<char>, i: usize) -> (r: (String, usize))
    requires
        i < n.len(),
    ensures
        r.1 == key_end(n@, i as int),
        r.0@ == n@.subrange(i as int, r.1 as int),
{
    let mut key = String::new();
    let mut j = i;
    while j < n.len() && 'A' <= n[j] && n[j] <= 'Z'
        invariant
            i <= j <= n.len(),
            key_end(n@, i as int) == key_end(n@, j as int),
            key@ == n@.subrange(i as int, j as int),
        decreases n.len() - j,
    {
        push_char(&mut key, n[j]);
        j = j + 1;
        assert(key@ =~= n@.subrange(i as int, j as int));
    }
    (key, j)
}

/// Reads the bracketed value that opens at `i`, and the index just past it.
fn read_value(n: &Vec<char>, i: usize) -> (r: (String, usize))
    requires
        i < n.len(),
        n[i as int] == '[',
    ensures
        r.0@ == values_at(n@, i as int).0[0],
        values_at(n@, i as int).1 == values_at(n@, r.1 as int).1,
        values_at(n@, i as int).0 == seq![r.0@] + values_at(n@, r.1 as int).0,
        i < r.1 <= n.len(),
{
    let mut value = String::new();
    let mut j = i + 1;
    while j < n.len() && n[j] != ']'
        invariant
            i < j <= n.len(),
            close_at(n@, i + 1) == close_at(n@, j as int),
            value@ == n@.subrange(i + 1, j as int),
        decreases n.len() - j,
    {
        push_char(&mut value, n[j]);
        j = j + 1;
        assert(value@ =~= n@.subrange(i + 1, j as int));
    }
    if j < n.len() {
        j = j + 1;
    }
    (value, j)
}

/// Reads the bracketed values that follow one another from `i`, and the index just past them.
fn read_values(n: &Vec<char>, i: usize) -> (r: (Vec<String>, usize))
    requires
        i <= n.len(),
    ensures
        strings_view(r.0@) == values_at(n@, i as int).0,
        r.1 == values_at(n@, i as int).1,
{
    let mut values: Vec<String> = Vec::new();
    let mut j = i;
    while j < n.len() && n[j] == '['
        invariant
            i <= j <= n.len(),
            values_at(n@, i as int).0 == strings_view(values@) + values_at(n@, j as int).0,
            values_at(n@, i as int).1 == values_at(n@, j as int).1,
        decreases n.len() - j,
    {
        let (v, next) = read_value(n, j);
        proof {
            assert(strings_view(values@.push(v)) =~= strings_view(values@).push(v@));
            assert(strings_view(values@) + values_at(n@, j as int).0 =~= strings_view(values@).push(v@)
                + values_at(n@, next as int).0);
        }
        values.push(v);
        j = next;
    }
    assert(strings_view(values@) + values_at(n@, j as int).0 =~= strings_view(values@));
    (values, j)
}

/// Scans one node: appends its moves, and records its properties when it is
/// the root node.
fn scan_node(
    n: &Vec<char>,
    root: bool,
    props: &mut StringHashMap<Vec<String>>,
    moves: &mut Vec<Move>,
)
    requires
        root ==> old(props)@ == Map::<Seq<char>, Vec<String>>::empty(),
        no_comments(old(moves)@),
    ensures
        moves_view(final(moves)@) == moves_view(old(moves)@) + node_moves(n@),
        no_comments(final(moves)@),
        root ==> properties_view(final(props)@) == root_map(props_at(n@, 0)),
        !root ==> final(props)@ == old(props)@,
{
    let ghost done: Seq<PropSpec> = seq![];
    let ghost is_mv = |p: PropSpec| is_move_key(p.0);
    let ghost mv = |p: PropSpec| move_of(p);
    let mut i: usize = 0;
    proof {
        if root {
            assert(properties_view(props@) =~= Map::empty());
        }
    }
    while i < n.len()
        invariant
            i <= n.len(),
            props_at(n@, 0) == done + props_at(n@, i as int),
            moves_view(moves@) == moves_view(old(moves)@) + done.filter(is_mv).map_values(mv),
            no_comments(moves@),
            root ==> properties_view(props@) == root_map(done),
            !root ==> props@ == old(props)@,
            is_mv == (|p: PropSpec| is_move_key(p.0)),
            mv == (|p: PropSpec| move_of(p)),
        decreases n.len() - i,
    {
        let c = n[i];
        if 'A' <= c && c <= 'Z' {
            let (key, k) = read_key(n, i);
            proof {
                lemma_key_end_bounds(n@, i as int);
            }
            let (values, next) = read_values(n, k);
            proof {
                lemma_values_at_bounds(n@, k as int);
            }
            if values.len() > 0 {
                let ghost p: PropSpec = (key@, strings_view(values@));
                let ghost old_moves = moves@;
                proof {
                    if k == i + 1 {
                        assert(key@ =~= seq![c]);
                        assert(key@[0] == c);
                        assert(seq!['B'][0] == 'B' && seq!['W'][0] == 'W');
                    } else {
                        assert(key@.len() != 1);
                    }
                    assert(is_mv(p) == (k == i + 1 && (c == 'B' || c == 'W')));
                }
                if k == i + 1 && (c == 'B' || c == 'W') {
                    let color = if c == 'B' {
                        Color::Black
                    } else {
                        Color::White
                    };
                    let position = sgf_to_coords(values[0].as_str());
                    moves.push(Move { color, position, comment: None });
                    proof {
                        assert(p.1[0] == values@[0]@);
                        assert(move_of(p) == (color, position));
                        assert(moves_view(moves@) =~= moves_view(old_moves).push(move_of(p)));
                    }
                } else if root {
                    let ghost old_props = props@;
                    props.insert(key, values);
                    proof {
                        assert(properties_view(props@) =~= properties_view(old_props).insert(p.0, p.1));
                    }
                }
                proof {
                    let f = done.filter(is_mv).map_values(mv);
                    done.lemma_filter_push(p, is_mv);
                    done.filter(is_mv).lemma_push_map_commute(mv, p);
                    if is_mv(p) {
                        assert(done.push(p).filter(is_mv).map_values(mv) == f.push(mv(p)));
                        assert(moves_view(old(moves)@) + f.push(mv(p)) =~= (moves_view(old(moves)@)
                            + f).push(mv(p)));
                    } else {
                        assert(done.push(p).filter(is_mv) == done.filter(is_mv));
                    }
                    assert(done.push(p).drop_last() =~= done);
                    assert(done + props_at(n@, i as int) =~= done.push(p) + props_at(n@, next as int));
                    done = done.push(p);
                }
            }
            i = next;
        } else {
            i = i + 1;
        }
    }
    assert(done + props_at(n@, i as int) =~= done);
}

proof fn lemma_split_semis_len(c: Seq<char>)
    ensures
        split_semis(c).len() >= 1,
    decreases c.len(),
{
    if c.len() > 0 {
        lemma_split_semis_len(c.drop_last());
    }
}

/// The outcome that `parse_record` owes for text `t`: the error message, or the
/// record's properties and moves.
pub open spec fn parse_outcome(
    t: Seq<char>,
    r: Result<GameTree, ParseError>,
) -> bool {
    if !has_parens(t) {
        r matches Err(ParseError::InvalidFormat(m)) && m@ == MISSING_PARENS@
    } else if !has_first_semi(t) {
        r matches Err(ParseError::InvalidFormat(m)) && m@ == MISSING_SEMICOLON@
    } else {
        &&& r is Ok
        &&& properties_view(r->Ok_0.properties@) == record_properties(t)
        &&& moves_view(r->Ok_0.moves@) == record_moves(t)
        &&& no_comments(r->Ok_0.moves@)
    }
}

/// Parses a record text that has no surrounding white space.
pub fn parse_record(text: &str) -> (r: Result<GameTree, ParseError>)
    ensures
        parse_outcome(text@, r),
{
    broadcast use vstd::string::group_string_axioms;

    let t = chars_of(text);
    let n = t.len();
    if n < 2 || t[0] != '(' || t[n - 1] != ')' {
        return Err(ParseError::InvalidFormat(MISSING_PARENS.to_string()));
    }
    if n < 3 || t[1] != ';' {
        return Err(ParseError::InvalidFormat(MISSING_SEMICOLON.to_string()));
    }
    let ghost c = content_of(t@);
    let ghost nonempty = |f: Seq<char>| f.len() > 0;
    let mut properties: StringHashMap<Vec<String>> = StringHashMap::new();
    let mut moves: Vec<Move> = Vec::new();
    let mut node: Vec<char> = Vec::new();
    let mut seen = false;
    let mut i: usize = 1;
    proof {
        assert(c.subrange(0, 0) =~= Seq::<char>::empty());
        assert(split_semis(Seq::<char>::empty()).drop_last() =~= Seq::<Seq<char>>::empty());
    }
    while i < n - 1
        invariant
            n == t.len(),
            t@ == text@,
            has_parens(t@),
            c == content_of(t@),
            nonempty == (|f: Seq<char>| f.len() > 0),
            1 <= i <= n - 1,
            split_semis(c.subrange(0, i - 1)).last() == node@,
            moves_view(moves@) == moves_of(split_semis(c.subrange(0, i - 1)).drop_last().filter(nonempty)),
            no_comments(moves@),
            seen == (split_semis(c.subrange(0, i - 1)).drop_last().filter(nonempty).len() > 0),
            seen ==> properties_view(properties@) == root_map(
                props_at(split_semis(c.subrange(0, i - 1)).drop_last().filter(nonempty)[0], 0),
            ),
            !seen ==> properties@ == Map::<Seq<char>, Vec<String>>::empty(),
        decreases n - 1 - i,
    {
        let ghost pre = c.subrange(0, i - 1);
        let ghost s = split_semis(pre);
        let ghost done = s.drop_last().filter(nonempty);
        let ch = t[i];
        proof {
            lemma_split_semis_len(pre);
            assert(c.subrange(0, i as int).drop_last() =~= pre);
            assert(c[i - 1] == ch);
            assert(s =~= s.drop_last().push(s.last()));
            s.drop_last().lemma_filter_push(s.last(), nonempty);
        }
        if ch == ';' {
            if node.len() > 0 {
                scan_node(&node, !seen, &mut properties, &mut moves);
                seen = true;
                proof {
                    assert(done.push(node@).drop_last() =~= done);
                }
            }
            node = Vec::new();
            proof {
                assert(split_semis(c.subrange(0, i as int)) == s.push(Seq::<char>::empty()));
                assert(s.push(Seq::<char>::empty()).drop_last() =~= s);
            }
        } else {
            node.push(ch);
            proof {
                let s2 = s.update(s.len() - 1, s.last().push(ch));
                assert(split_semis(c.subrange(0, i as int)) == s2);
                assert(s2.drop_last() =~= s.drop_last());
            }
        }
        i = i + 1;
    }
    proof {
        let s = split_semis(c.subrange(0, i - 1));
        let done = s.drop_last().filter(nonempty);
        assert(c.subrange(0, i - 1) =~= c);
        lemma_split_semis_len(c);
        assert(s =~= s.drop_last().push(s.last()));
        s.drop_last().lemma_filter_push(s.last(), nonempty);
        if node.len() > 0 {
            assert(done.push(node@).drop_last() =~= done);
        }
    }
    if node.len() > 0 {
        scan_node(&node, !seen, &mut properties, &mut moves);
    }
    proof {
        assert(nodes_of(c) == split_semis(c).filter(nonempty));
        assert(moves_view(moves@) == record_moves(t@));
        assert(properties_view(properties@) == record_properties(t@));
    }
    Ok(GameTree { properties, moves })
}

/// Parses a record text; white space around it is ignored.
pub fn parse_sgf(input: &str) -> (r: Result<GameTree, ParseError>)
    ensures
        parse_outcome(trimmed(input@), r),
{
    let text = trim_text(input);
    parse_record(text)
}

} // verus!
