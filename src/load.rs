//! The text format of a contracted graph: a header with the node count and
//! the edge count, then one line per node (`id osm_id lat long height level`)
//! and one line per edge (`source dest length type speed edge_a edge_b`),
//! fields separated by single spaces. Leading lines that are empty or start
//! with `#` are comments.
use vstd::prelude::*;

use crate::ch::{ChEdgeInfo, ChNodeInfo, EdgeId};
use crate::plain::{EdgeInfo, NodeInfo};

verus! {

/// The pieces of `s` between occurrences of `sep`: one more piece than there
/// are separators.
pub open spec fn split_bytes(s: Seq<u8>, sep: u8) -> Seq<Seq<u8>>
    decreases s.len(),
{
    if s.len() == 0 {
        seq![Seq::<u8>::empty()]
    } else {
        let p = split_bytes(s.drop_last(), sep);
        if s.last() == sep {
            p.push(Seq::<u8>::empty())
        } else {
            p.update(p.len() - 1, p.last().push(s.last()))
        }
    }
}

pub proof fn lemma_split_bytes_nonempty(s: Seq<u8>, sep: u8)
    ensures
        split_bytes(s, sep).len() >= 1,
    decreases s.len(),
{
    if s.len() > 0 {
        lemma_split_bytes_nonempty(s.drop_last(), sep);
    }
}

/// Splits `s` at every `sep`.
pub fn split_at_byte(s: &[u8], sep: u8) -> (r: Vec<Vec<u8>>)
    ensures
        r@.map_values(|p: Vec<u8>| p@) == split_bytes(s@, sep),
{
    let mut pieces: Vec<Vec<u8>> = Vec::new();
    pieces.push(Vec::new());
    let mut i: usize = 0;
    proof {
        assert(s@.take(0) =~= Seq::<u8>::empty());
        assert(pieces@.map_values(|p: Vec<u8>| p@) =~= seq![Seq::<u8>::empty()]);
    }
    while i < s.len()
        invariant
            0 <= i <= s.len(),
            pieces.len() >= 1,
            pieces@.map_values(|p: Vec<u8>| p@) == split_bytes(s@.take(i as int), sep),
        decreases s.len() - i,
    {
        let b = s[i];
        let ghost before = pieces@.map_values(|p: Vec<u8>| p@);
        proof {
            assert(s@.take(i + 1).drop_last() =~= s@.take(i as int));
            assert(s@.take(i + 1).last() == b);
            lemma_split_bytes_nonempty(s@.take(i as int), sep);
        }
        if b == sep {
            pieces.push(Vec::new());
            proof {
                assert(pieces@.map_values(|p: Vec<u8>| p@) =~= before.push(Seq::<u8>::empty()));
            }
        } else {
            let mut last = pieces.pop().unwrap();
            proof {
                assert(last@ == before.last());
            }
            last.push(b);
            pieces.push(last);
            proof {
                assert(pieces@.map_values(|p: Vec<u8>| p@) =~= before.update(
                    before.len() - 1,
                    before.last().push(b),
                ));
            }
        }
        i = i + 1;
    }
    proof {
        assert(s@.take(i as int) =~= s@);
    }
    pieces
}

pub open spec fn is_digit(b: u8) -> bool {
    48 <= b <= 57
}

/// The value of a run of decimal digits.
pub open spec fn digits_value(s: Seq<u8>) -> int
    decreases s.len(),
{
    if s.len() == 0 {
        0
    } else {
        digits_value(s.drop_last()) * 10 + (s.last() - 48)
    }
}

/// The digits of a number text: an optional `+` sign is dropped.
pub open spec fn unsigned_digits(s: Seq<u8>) -> Seq<u8> {
    if s.len() > 0 && s[0] == 43 {
        s.drop_first()
    } else {
        s
    }
}

/// The `usize` that a text denotes as `str::parse::<usize>` reads it: an
/// optional `+` and at least one decimal digit, with a value that fits.
pub open spec fn number_of(s: Seq<u8>) -> Option<usize> {
    let d = unsigned_digits(s);
    if d.len() > 0 && (forall|i: int| 0 <= i < d.len() ==> is_digit(#[trigger] d[i])) && digits_value(d)
        <= usize::MAX {
        Some(digits_value(d) as usize)
    } else {
        None
    }
}

proof fn lemma_digits_value_grows(s: Seq<u8>, i: int)
    requires
        0 <= i <= s.len(),
        forall|k: int| 0 <= k < s.len() ==> is_digit(#[trigger] s[k]),
    ensures
        digits_value(s.take(i)) <= digits_value(s),
        0 <= digits_value(s.take(i)),
    decreases s.len() - i,
{
    if i < s.len() {
        lemma_digits_value_grows(s, i + 1);
        assert(s.take(i + 1).drop_last() =~= s.take(i));
        assert(is_digit(s[i]));
    } else {
        assert(s.take(i) =~= s);
        lemma_digits_value_nonneg(s);
    }
}

proof fn lemma_digits_value_nonneg(s: Seq<u8>)
    requires
        forall|k: int| 0 <= k < s.len() ==> is_digit(#[trigger] s[k]),
    ensures
        0 <= digits_value(s),
    decreases s.len(),
{
    if s.len() > 0 {
        assert(is_digit(s[s.len() - 1]));
        lemma_digits_value_nonneg(s.drop_last());
    }
}

/// Reads a decimal number.
pub fn parse_number(s: &[u8]) -> (r: Option<usize>)
    ensures
        r == number_of(s@),
{
    let start: usize = if s.len() > 0 && s[0] == 43 {
        1
    } else {
        0
    };
    let ghost d = unsigned_digits(s@);
    proof {
        assert(d =~= s@.subrange(start as int, s.len() as int));
    }
    if start == s.len() {
        return None;
    }
    let mut value: usize = 0;
    let mut i: usize = start;
    while i < s.len()
        invariant
            start <= i <= s.len(),
            d == unsigned_digits(s@),
            d =~= s@.subrange(start as int, s.len() as int),
            forall|k: int| 0 <= k < i - start ==> is_digit(#[trigger] d[k]),
            value == digits_value(d.take(i - start)),
        decreases s.len() - i,
    {
        let b = s[i];
        if b < 48 || b > 57 {
            proof {
                assert(d[i - start] == b);
            }
            return None;
        }
        proof {
            assert(d.take(i - start + 1).drop_last() =~= d.take(i - start));
            assert(d.take(i - start + 1).last() == b);
        }
        let digit = (b - 48) as usize;
        match value.checked_mul(10) {
            Some(v10) => match v10.checked_add(digit) {
                Some(v) => {
                    value = v;
                },
                None => {
                    proof {
                        lemma_prefix_too_big(d, i - start + 1);
                    }
                    return None;
                },
            },
            None => {
                proof {
                    assert(digits_value(d.take(i - start + 1)) > usize::MAX) by (nonlinear_arith)
                        requires
                            value * 10 > usize::MAX,
                            digits_value(d.take(i - start + 1)) == value * 10 + (b - 48),
                            48 <= b,
                    ;
                    lemma_prefix_too_big(d, i - start + 1);
                }
                return None;
            },
        }
        i = i + 1;
    }
    proof {
        assert(d.take(i - start) =~= d);
    }
    Some(value)
}

/// A run of digits whose prefix is already too big is too big.
proof fn lemma_prefix_too_big(d: Seq<u8>, i: int)
    requires
        0 <= i <= d.len(),
        digits_value(d.take(i)) > usize::MAX,
    ensures
        number_of_digits_fails(d),
{
    if forall|k: int| 0 <= k < d.len() ==> is_digit(#[trigger] d[k]) {
        lemma_digits_value_grows(d, i);
    }
}

spec fn number_of_digits_fails(d: Seq<u8>) -> bool {
    !(d.len() > 0 && (forall|i: int| 0 <= i < d.len() ==> is_digit(#[trigger] d[i])) && digits_value(d)
        <= usize::MAX)
}

/// Why a line could not be read: field `k` (counted from 0) is missing, or
/// is not a number.
#[derive(Debug, PartialEq, Eq, Clone, Copy)]
pub enum ParseError {
    MissingField(usize),
    BadNumber(usize),
    MissingCount,
    BadCount,
    MissingLine(usize),
    TrailingLine(usize),
}

/// Field `k` of `fs` read as a number, or the error for it.
pub open spec fn number_field(fs: Seq<Seq<u8>>, k: int) -> Result<usize, ParseError> {
    if k >= fs.len() {
        Err(ParseError::MissingField(k as usize))
    } else {
        match number_of(fs[k]) {
            Some(v) => Ok(v),
            None => Err(ParseError::BadNumber(k as usize)),
        }
    }
}

/// Reading the node line `line`: fields 0, 1, 4 and 5 are the id, the OSM id,
/// the height and the level; fields 2 and 3 (latitude, longitude) must be
/// there but are not read here.
pub open spec fn node_line(line: Seq<u8>) -> Result<ChNodeInfo, ParseError> {
    let fs = split_bytes(line, 32);
    if number_field(fs, 0) is Err {
        Err(number_field(fs, 0)->Err_0)
    } else if number_field(fs, 1) is Err {
        Err(number_field(fs, 1)->Err_0)
    } else if fs.len() <= 2 {
        Err(ParseError::MissingField(2))
    } else if fs.len() <= 3 {
        Err(ParseError::MissingField(3))
    } else if number_field(fs, 4) is Err {
        Err(number_field(fs, 4)->Err_0)
    } else if number_field(fs, 5) is Err {
        Err(number_field(fs, 5)->Err_0)
    } else {
        Ok(
            ChNodeInfo {
                id: number_field(fs, 0)->Ok_0,
                osm_id: number_field(fs, 1)->Ok_0,
                height: number_field(fs, 4)->Ok_0,
                level: number_field(fs, 5)->Ok_0,
            },
        )
    }
}

/// Reading the edge line `line`: source, destination and length must be
/// numbers; field 3 (the road type) is skipped; speed, `edge_a` and `edge_b`
/// must be there, and a speed that is not a number counts as 0, a shortcut
/// reference that is not a number as none.
pub open spec fn edge_line(line: Seq<u8>) -> Result<ChEdgeInfo, ParseError> {
    let fs = split_bytes(line, 32);
    if number_field(fs, 0) is Err {
        Err(number_field(fs, 0)->Err_0)
    } else if number_field(fs, 1) is Err {
        Err(number_field(fs, 1)->Err_0)
    } else if number_field(fs, 2) is Err {
        Err(number_field(fs, 2)->Err_0)
    } else if fs.len() <= 4 {
        Err(ParseError::MissingField(4))
    } else if fs.len() <= 5 {
        Err(ParseError::MissingField(5))
    } else if fs.len() <= 6 {
        Err(ParseError::MissingField(6))
    } else {
        Ok(
            ChEdgeInfo {
                source: number_field(fs, 0)->Ok_0,
                dest: number_field(fs, 1)->Ok_0,
                length: number_field(fs, 2)->Ok_0,
                speed: match number_of(fs[4]) {
                    Some(v) => v,
                    None => 0,
                },
                edge_a: number_of(fs[5]),
                edge_b: number_of(fs[6]),
            },
        )
    }
}

fn read_field(fs: &Vec<Vec<u8>>, k: usize) -> (r: Result<usize, ParseError>)
    ensures
        r == number_field(fs@.map_values(|p: Vec<u8>| p@), k as int),
{
    if k >= fs.len() {
        Err(ParseError::MissingField(k))
    } else {
        proof {
            assert(fs@.map_values(|p: Vec<u8>| p@)[k as int] == fs@[k as int]@);
        }
        match parse_number(fs[k].as_slice()) {
            Some(v) => Ok(v),
            None => Err(ParseError::BadNumber(k)),
        }
    }
}

/// Reads one node line.
pub fn parse_node_line(line: &[u8]) -> (r: Result<ChNodeInfo, ParseError>)
    ensures
        r == node_line(line@),
{
    let fs = split_at_byte(line, 32);
    let ghost v = fs@.map_values(|p: Vec<u8>| p@);
    let id = read_field(&fs, 0)?;
    let osm_id = read_field(&fs, 1)?;
    if fs.len() <= 2 {
        return Err(ParseError::MissingField(2));
    }
    if fs.len() <= 3 {
        return Err(ParseError::MissingField(3));
    }
    let height = read_field(&fs, 4)?;
    let level = read_field(&fs, 5)?;
    Ok(ChNodeInfo { id, osm_id, height, level })
}

/// Reads one edge line.
pub fn parse_edge_line(line: &[u8]) -> (r: Result<ChEdgeInfo, ParseError>)
    ensures
        r == edge_line(line@),
{
    let fs = split_at_byte(line, 32);
    let ghost v = fs@.map_values(|p: Vec<u8>| p@);
    let source = read_field(&fs, 0)?;
    let dest = read_field(&fs, 1)?;
    let length = read_field(&fs, 2)?;
    if fs.len() <= 4 {
        return Err(ParseError::MissingField(4));
    }
    if fs.len() <= 5 {
        return Err(ParseError::MissingField(5));
    }
    if fs.len() <= 6 {
        return Err(ParseError::MissingField(6));
    }
    proof {
        assert(v[4] == fs@[4]@);
        assert(v[5] == fs@[5]@);
        assert(v[6] == fs@[6]@);
    }
    let speed = match parse_number(fs[4].as_slice()) {
        Some(s) => s,
        None => 0,
    };
    let edge_a: Option<EdgeId> = parse_number(fs[5].as_slice());
    let edge_b: Option<EdgeId> = parse_number(fs[6].as_slice());
    Ok(ChEdgeInfo { source, dest, length, speed, edge_a, edge_b })
}

/// A line without the `\r` that ends it, if any.
pub open spec fn strip_cr(l: Seq<u8>) -> Seq<u8> {
    if l.len() > 0 && l.last() == 13 {
        l.drop_last()
    } else {
        l
    }
}

/// The lines of a text as `str::lines` gives them: split at `\n`, with a
/// final empty piece dropped and a trailing `\r` removed from each line.
pub open spec fn lines_of(text: Seq<u8>) -> Seq<Seq<u8>> {
    let pieces = split_bytes(text, 10);
    let kept = if text.len() > 0 && text.last() == 10 {
        pieces.drop_last()
    } else {
        pieces
    };
    kept.map_values(|l: Seq<u8>| strip_cr(l))
}

/// An empty line or one that starts with `#`.
pub open spec fn is_comment(l: Seq<u8>) -> bool {
    l.len() == 0 || l[0] == 35
}

/// The first line at or after `i` that is not a comment.
pub open spec fn first_non_comment(ls: Seq<Seq<u8>>, i: int) -> int
    decreases ls.len() - i,
{
    if i >= ls.len() || !is_comment(ls[i]) {
        i
    } else {
        first_non_comment(ls, i + 1)
    }
}

/// The lines of `text` after the leading comments.
pub open spec fn body_of(text: Seq<u8>) -> Seq<Seq<u8>> {
    let ls = lines_of(text);
    ls.subrange(first_non_comment(ls, 0), ls.len() as int)
}

proof fn lemma_node_lines_err(ls: Seq<Seq<u8>>, k: int)
    requires
        0 <= k <= ls.len(),
        node_lines(ls.take(k)) is Err,
    ensures
        node_lines(ls) == node_lines(ls.take(k)),
    decreases ls.len() - k,
{
    if k < ls.len() {
        assert(ls.take(k + 1).drop_last() =~= ls.take(k));
        lemma_node_lines_err(ls, k + 1);
    } else {
        assert(ls.take(k) =~= ls);
    }
}

proof fn lemma_edge_lines_err(ls: Seq<Seq<u8>>, k: int)
    requires
        0 <= k <= ls.len(),
        edge_lines(ls.take(k)) is Err,
    ensures
        edge_lines(ls) == edge_lines(ls.take(k)),
    decreases ls.len() - k,
{
    if k < ls.len() {
        assert(ls.take(k + 1).drop_last() =~= ls.take(k));
        lemma_edge_lines_err(ls, k + 1);
    } else {
        assert(ls.take(k) =~= ls);
    }
}

/// Reading every line of `ls` as a node; the first bad line decides the error.
pub open spec fn node_lines(ls: Seq<Seq<u8>>) -> Result<Seq<ChNodeInfo>, ParseError>
    decreases ls.len(),
{
    if ls.len() == 0 {
        Ok(Seq::empty())
    } else {
        match node_lines(ls.drop_last()) {
            Err(e) => Err(e),
            Ok(ns) => match node_line(ls.last()) {
                Err(e) => Err(e),
                Ok(n) => Ok(ns.push(n)),
            },
        }
    }
}

/// Reading every line of `ls` as an edge; the first bad line decides the error.
pub open spec fn edge_lines(ls: Seq<Seq<u8>>) -> Result<Seq<ChEdgeInfo>, ParseError>
    decreases ls.len(),
{
    if ls.len() == 0 {
        Ok(Seq::empty())
    } else {
        match edge_lines(ls.drop_last()) {
            Err(e) => Err(e),
            Ok(es) => match edge_line(ls.last()) {
                Err(e) => Err(e),
                Ok(e) => Ok(es.push(e)),
            },
        }
    }
}

/// Reading a whole graph text from its lines after the comments: the node
/// count, a line with the edge count (not used), that many node lines, and
/// edge lines for the rest.
pub open spec fn graph_text(body: Seq<Seq<u8>>) -> Result<(Seq<ChNodeInfo>, Seq<ChEdgeInfo>), ParseError> {
    if body.len() == 0 {
        Err(ParseError::MissingCount)
    } else if number_of(body[0]) is None {
        Err(ParseError::BadCount)
    } else if body.len() < (number_of(body[0])->Some_0) + 2 {
        Err(ParseError::MissingLine(body.len() as usize))
    } else {
        let n = (number_of(body[0])->Some_0) as int;
        match node_lines(body.subrange(2, n + 2)) {
            Err(e) => Err(e),
            Ok(ns) => match edge_lines(body.subrange(n + 2, body.len() as int)) {
                Err(e) => Err(e),
                Ok(es) => Ok((ns, es)),
            },
        }
    }
}

fn strip_line(l: Vec<u8>) -> (r: Vec<u8>)
    ensures
        r@ == strip_cr(l@),
{
    let mut l = l;
    if l.len() > 0 && l[l.len() - 1] == 13 {
        l.pop();
    }
    l
}

/// Splits a text into lines as `lines_of` does.
pub fn split_lines(text: &[u8]) -> (r: Vec<Vec<u8>>)
    ensures
        r@.map_values(|l: Vec<u8>| l@) == lines_of(text@),
{
    let pieces = split_at_byte(text, 10);
    let ghost pv = pieces@.map_values(|p: Vec<u8>| p@);
    let n = if text.len() > 0 && text[text.len() - 1] == 10 {
        proof {
            lemma_split_bytes_nonempty(text@, 10);
        }
        pieces.len() - 1
    } else {
        pieces.len()
    };
    let ghost kept = if text@.len() > 0 && text@.last() == 10 {
        pv.drop_last()
    } else {
        pv
    };
    proof {
        assert(kept.len() == n);
    }
    let mut out: Vec<Vec<u8>> = Vec::new();
    let mut pieces = pieces;
    let mut rest: Vec<Vec<u8>> = Vec::new();
    let mut i: usize = 0;
    while i < n
        invariant
            n == kept.len(),
            n <= pieces.len(),
            pieces@.map_values(|p: Vec<u8>| p@) == pv,
            0 <= i <= n,
            out@.map_values(|l: Vec<u8>| l@) == kept.take(i as int).map_values(
                |l: Seq<u8>| strip_cr(l),
            ),
            forall|k: int| 0 <= k < n ==> #[trigger] kept[k] == pv[k],
        decreases n - i,
    {
        let piece = pieces[i].clone();
        proof {
            assert(pv[i as int] == pieces@[i as int]@);
        }
        let line = strip_line(piece);
        let ghost out0 = out@;
        out.push(line);
        proof {
            assert(out@ == out0.push(line));
            assert(out@.map_values(|l: Vec<u8>| l@) =~= out0.map_values(|l: Vec<u8>| l@).push(line@));
            assert(kept.take(i + 1).map_values(|l: Seq<u8>| strip_cr(l)) =~= kept.take(i as int).map_values(
                |l: Seq<u8>| strip_cr(l),
            ).push(strip_cr(kept[i as int])));
        }
        i = i + 1;
    }
    proof {
        assert(kept.take(i as int) =~= kept);
    }
    out
}

/// Reads a whole contracted-graph text into its nodes and edges.
pub fn parse_ch_graph(text: &[u8]) -> (r: Result<(Vec<ChNodeInfo>, Vec<ChEdgeInfo>), ParseError>)
    ensures
        match r {
            Ok((ns, es)) => graph_text(body_of(text@)) == Ok::<
                (Seq<ChNodeInfo>, Seq<ChEdgeInfo>),
                ParseError,
            >((ns@, es@)),
            Err(e) => graph_text(body_of(text@)) == Err::<
                (Seq<ChNodeInfo>, Seq<ChEdgeInfo>),
                ParseError,
            >(e),
        },
{
    let lines = split_lines(text);
    let ghost lv = lines@.map_values(|l: Vec<u8>| l@);
    let mut start: usize = 0;
    while start < lines.len() && (lines[start].len() == 0 || lines[start][0] == 35)
        invariant
            lv == lines@.map_values(|l: Vec<u8>| l@),
            lv == lines_of(text@),
            0 <= start <= lines.len(),
            first_non_comment(lv, 0) == first_non_comment(lv, start as int),
        decreases lines.len() - start,
    {
        proof {
            assert(lv[start as int] == lines@[start as int]@);
        }
        start = start + 1;
    }
    let ghost body = lv.subrange(start as int, lv.len() as int);
    proof {
        if start < lines.len() {
            assert(lv[start as int] == lines@[start as int]@);
        }
        assert(first_non_comment(lv, start as int) == start);
        assert(body == body_of(text@));
    }
    if start >= lines.len() {
        return Err(ParseError::MissingCount);
    }
    proof {
        assert(body[0] == lines@[start as int]@);
    }
    let count = match parse_number(lines[start].as_slice()) {
        Some(c) => c,
        None => {
            return Err(ParseError::BadCount);
        },
    };
    let avail = lines.len() - start;
    if avail < 2 || avail - 2 < count {
        return Err(ParseError::MissingLine(avail));
    }
    let first_edge = start + 2 + count;
    let mut nodes: Vec<ChNodeInfo> = Vec::new();
    let mut i: usize = start + 2;
    while i < first_edge
        invariant
            lv == lines@.map_values(|l: Vec<u8>| l@),
            body == body_of(text@),
            body == lv.subrange(start as int, lv.len() as int),
            lv.len() == lines.len(),
            first_edge == start + 2 + count,
            body.len() >= count + 2,
            number_of(body[0]) == Some(count),
            start + 2 <= i <= first_edge,
            first_edge <= lines.len(),
            node_lines(lv.subrange(start + 2, i as int)) == Ok::<Seq<ChNodeInfo>, ParseError>(nodes@),
        decreases first_edge - i,
    {
        proof {
            assert(lv.subrange(start + 2, i + 1).drop_last() =~= lv.subrange(start + 2, i as int));
            assert(lv.subrange(start + 2, i + 1).last() == lines@[i as int]@);
        }
        let node = match parse_node_line(lines[i].as_slice()) {
            Ok(n) => n,
            Err(e) => {
                proof {
                    let nl = body.subrange(2, count + 2);
                    assert(nl.take(i - start - 1) =~= lv.subrange(start + 2, i + 1));
                    lemma_node_lines_err(nl, i - start - 1);
                }
                return Err(e);
            },
        };
        nodes.push(node);
        i = i + 1;
    }
    let mut edges: Vec<ChEdgeInfo> = Vec::new();
    let mut j: usize = first_edge;
    proof {
        assert(lv.subrange(first_edge as int, first_edge as int) =~= Seq::<Seq<u8>>::empty());
    }
    while j < lines.len()
        invariant
            lv == lines@.map_values(|l: Vec<u8>| l@),
            body == body_of(text@),
            body == lv.subrange(start as int, lv.len() as int),
            lv.len() == lines.len(),
            first_edge == start + 2 + count,
            body.len() >= count + 2,
            number_of(body[0]) == Some(count),
            node_lines(lv.subrange(start + 2, first_edge as int)) == Ok::<Seq<ChNodeInfo>, ParseError>(nodes@),
            first_edge <= j <= lines.len(),
            edge_lines(lv.subrange(first_edge as int, j as int)) == Ok::<Seq<ChEdgeInfo>, ParseError>(edges@),
        decreases lines.len() - j,
    {
        proof {
            assert(lv.subrange(first_edge as int, j + 1).drop_last() =~= lv.subrange(first_edge as int, j as int));
            assert(lv.subrange(first_edge as int, j + 1).last() == lines@[j as int]@);
        }
        let edge = match parse_edge_line(lines[j].as_slice()) {
            Ok(e) => e,
            Err(e) => {
                proof {
                    let el = body.subrange(count + 2, body.len() as int);
                    assert(el.take(j + 1 - first_edge) =~= lv.subrange(first_edge as int, j + 1));
                    lemma_edge_lines_err(el, j + 1 - first_edge);
                    assert(body.subrange(2, count + 2) =~= lv.subrange(start + 2, first_edge as int));
                }
                return Err(e);
            },
        };
        edges.push(edge);
        j = j + 1;
    }
    proof {
        assert(body.subrange(2, count + 2) =~= lv.subrange(start + 2, first_edge as int));
        assert(body.subrange(count + 2, body.len() as int) =~= lv.subrange(first_edge as int, lv.len() as int));
    }
    Ok((nodes, edges))
}

/// Reading a node line of the plain format `id osm_id lat long height`: the
/// id is skipped, latitude and longitude must be there but are not read here.
pub open spec fn plain_node_line(line: Seq<u8>) -> Result<NodeInfo, ParseError> {
    let fs = split_bytes(line, 32);
    if number_field(fs, 1) is Err {
        Err(number_field(fs, 1)->Err_0)
    } else if fs.len() <= 2 {
        Err(ParseError::MissingField(2))
    } else if fs.len() <= 3 {
        Err(ParseError::MissingField(3))
    } else if number_field(fs, 4) is Err {
        Err(number_field(fs, 4)->Err_0)
    } else {
        Ok(NodeInfo { osm_id: number_field(fs, 1)->Ok_0, height: number_field(fs, 4)->Ok_0 })
    }
}

/// Reading an edge line of the plain format `source dest length type speed`:
/// the type is skipped, the other fields must be numbers.
pub open spec fn plain_edge_line(line: Seq<u8>) -> Result<EdgeInfo, ParseError> {
    let fs = split_bytes(line, 32);
    if number_field(fs, 0) is Err {
        Err(number_field(fs, 0)->Err_0)
    } else if number_field(fs, 1) is Err {
        Err(number_field(fs, 1)->Err_0)
    } else if number_field(fs, 2) is Err {
        Err(number_field(fs, 2)->Err_0)
    } else if number_field(fs, 4) is Err {
        Err(number_field(fs, 4)->Err_0)
    } else {
        Ok(
            EdgeInfo {
                source: number_field(fs, 0)->Ok_0,
                dest: number_field(fs, 1)->Ok_0,
                length: number_field(fs, 2)->Ok_0,
                speed: number_field(fs, 4)->Ok_0,
            },
        )
    }
}

/// Reads one node line of the plain format.
pub fn parse_plain_node_line(line: &[u8]) -> (r: Result<NodeInfo, ParseError>)
    ensures
        r == plain_node_line(line@),
{
    let fs = split_at_byte(line, 32);
    let osm_id = read_field(&fs, 1)?;
    if fs.len() <= 2 {
        return Err(ParseError::MissingField(2));
    }
    if fs.len() <= 3 {
        return Err(ParseError::MissingField(3));
    }
    let height = read_field(&fs, 4)?;
    Ok(NodeInfo { osm_id, height })
}

/// Reads one edge line of the plain format.
pub fn parse_plain_edge_line(line: &[u8]) -> (r: Result<EdgeInfo, ParseError>)
    ensures
        r == plain_edge_line(line@),
{
    let fs = split_at_byte(line, 32);
    let source = read_field(&fs, 0)?;
    let dest = read_field(&fs, 1)?;
    let length = read_field(&fs, 2)?;
    let speed = read_field(&fs, 4)?;
    Ok(EdgeInfo { source, dest, length, speed })
}

/// Reading every line of `ls` with the plain node format; the first bad line
/// decides the error.
pub open spec fn plain_node_lines(ls: Seq<Seq<u8>>) -> Result<Seq<NodeInfo>, ParseError>
    decreases ls.len(),
{
    if ls.len() == 0 {
        Ok(Seq::empty())
    } else {
        match plain_node_lines(ls.drop_last()) {
            Err(e) => Err(e),
            Ok(ns) => match plain_node_line(ls.last()) {
                Err(e) => Err(e),
                Ok(n) => Ok(ns.push(n)),
            },
        }
    }
}

/// Reading every line of `ls` with the plain edge format; the first bad line
/// decides the error.
pub open spec fn plain_edge_lines(ls: Seq<Seq<u8>>) -> Result<Seq<EdgeInfo>, ParseError>
    decreases ls.len(),
{
    if ls.len() == 0 {
        Ok(Seq::empty())
    } else {
        match plain_edge_lines(ls.drop_last()) {
            Err(e) => Err(e),
            Ok(es) => match plain_edge_line(ls.last()) {
                Err(e) => Err(e),
                Ok(e) => Ok(es.push(e)),
            },
        }
    }
}

proof fn lemma_plain_node_lines_err(ls: Seq<Seq<u8>>, k: int)
    requires
        0 <= k <= ls.len(),
        plain_node_lines(ls.take(k)) is Err,
    ensures
        plain_node_lines(ls) == plain_node_lines(ls.take(k)),
    decreases ls.len() - k,
{
    if k < ls.len() {
        assert(ls.take(k + 1).drop_last() =~= ls.take(k));
        lemma_plain_node_lines_err(ls, k + 1);
    } else {
        assert(ls.take(k) =~= ls);
    }
}

proof fn lemma_plain_edge_lines_err(ls: Seq<Seq<u8>>, k: int)
    requires
        0 <= k <= ls.len(),
        plain_edge_lines(ls.take(k)) is Err,
    ensures
        plain_edge_lines(ls) == plain_edge_lines(ls.take(k)),
    decreases ls.len() - k,
{
    if k < ls.len() {
        assert(ls.take(k + 1).drop_last() =~= ls.take(k));
        lemma_plain_edge_lines_err(ls, k + 1);
    } else {
        assert(ls.take(k) =~= ls);
    }
}

/// Reading a plain graph text from its lines after the comments: the node
/// count, the edge count, exactly that many node lines and edge lines, and
/// nothing after them.
pub open spec fn plain_graph_text(body: Seq<Seq<u8>>) -> Result<(Seq<NodeInfo>, Seq<EdgeInfo>), ParseError> {
    if body.len() < 2 {
        Err(ParseError::MissingCount)
    } else if number_of(body[0]) is None || number_of(body[1]) is None {
        Err(ParseError::BadCount)
    } else {
        let n = (number_of(body[0])->Some_0) as int;
        let m = (number_of(body[1])->Some_0) as int;
        if body.len() < n + 2 {
            Err(ParseError::MissingLine(body.len() as usize))
        } else {
            match plain_node_lines(body.subrange(2, n + 2)) {
                Err(e) => Err(e),
                Ok(ns) => if body.len() < n + m + 2 {
                    match plain_edge_lines(body.subrange(n + 2, body.len() as int)) {
                        Err(e) => Err(e),
                        Ok(es) => Err(ParseError::MissingLine(body.len() as usize)),
                    }
                } else {
                    match plain_edge_lines(body.subrange(n + 2, n + m + 2)) {
                        Err(e) => Err(e),
                        Ok(es) => if body.len() > n + m + 2 {
                            Err(ParseError::TrailingLine((n + m + 2) as usize))
                        } else {
                            Ok((ns, es))
                        },
                    }
                },
            }
        }
    }
}

/// Reads a whole plain-graph text into its nodes and edges.
pub fn parse_plain_graph(text: &[u8]) -> (r: Result<(Vec<NodeInfo>, Vec<EdgeInfo>), ParseError>)
    ensures
        match r {
            Ok((ns, es)) => plain_graph_text(body_of(text@)) == Ok::<
                (Seq<NodeInfo>, Seq<EdgeInfo>),
                ParseError,
            >((ns@, es@)),
            Err(e) => plain_graph_text(body_of(text@)) == Err::<
                (Seq<NodeInfo>, Seq<EdgeInfo>),
                ParseError,
            >(e),
        },
{
    let lines = split_lines(text);
    let ghost lv = lines@.map_values(|l: Vec<u8>| l@);
    let mut start: usize = 0;
    while start < lines.len() && (lines[start].len() == 0 || lines[start][0] == 35)
        invariant
            lv == lines@.map_values(|l: Vec<u8>| l@),
            lv == lines_of(text@),
            0 <= start <= lines.len(),
            first_non_comment(lv, 0) == first_non_comment(lv, start as int),
        decreases lines.len() - start,
    {
        proof {
            assert(lv[start as int] == lines@[start as int]@);
        }
        start = start + 1;
    }
    let ghost body = lv.subrange(start as int, lv.len() as int);
    proof {
        if start < lines.len() {
            assert(lv[start as int] == lines@[start as int]@);
        }
        assert(first_non_comment(lv, start as int) == start);
        assert(body == body_of(text@));
    }
    let avail = lines.len() - start;
    if avail < 2 {
        return Err(ParseError::MissingCount);
    }
    proof {
        assert(body[0] == lines@[start as int]@);
        assert(body[1] == lines@[start + 1]@);
    }
    let count = match parse_number(lines[start].as_slice()) {
        Some(c) => c,
        None => {
            return Err(ParseError::BadCount);
        },
    };
    let edge_count = match parse_number(lines[start + 1].as_slice()) {
        Some(c) => c,
        None => {
            return Err(ParseError::BadCount);
        },
    };
    if avail - 2 < count {
        return Err(ParseError::MissingLine(avail));
    }
    let first_edge = start + 2 + count;
    let mut nodes: Vec<NodeInfo> = Vec::new();
    let mut i: usize = start + 2;
    while i < first_edge
        invariant
            lv == lines@.map_values(|l: Vec<u8>| l@),
            body == body_of(text@),
            body == lv.subrange(start as int, lv.len() as int),
            lv.len() == lines.len(),
            first_edge == start + 2 + count,
            body.len() >= count + 2,
            number_of(body[0]) == Some(count),
            number_of(body[1]) == Some(edge_count),
            start + 2 <= i <= first_edge,
            first_edge <= lines.len(),
            plain_node_lines(lv.subrange(start + 2, i as int)) == Ok::<Seq<NodeInfo>, ParseError>(nodes@),
        decreases first_edge - i,
    {
        proof {
            assert(lv.subrange(start + 2, i + 1).drop_last() =~= lv.subrange(start + 2, i as int));
            assert(lv.subrange(start + 2, i + 1).last() == lines@[i as int]@);
        }
        let node = match parse_plain_node_line(lines[i].as_slice()) {
            Ok(n) => n,
            Err(e) => {
                proof {
                    let nl = body.subrange(2, count + 2);
                    assert(nl.take(i - start - 1) =~= lv.subrange(start + 2, i + 1));
                    lemma_plain_node_lines_err(nl, i - start - 1);
                }
                return Err(e);
            },
        };
        nodes.push(node);
        i = i + 1;
    }
    let end = if lines.len() - first_edge < edge_count {
        lines.len()
    } else {
        first_edge + edge_count
    };
    let mut edges: Vec<EdgeInfo> = Vec::new();
    let mut j: usize = first_edge;
    proof {
        assert(lv.subrange(first_edge as int, first_edge as int) =~= Seq::<Seq<u8>>::empty());
        assert(body.subrange(2, count + 2) =~= lv.subrange(start + 2, first_edge as int));
    }
    while j < end
        invariant
            lv == lines@.map_values(|l: Vec<u8>| l@),
            body == body_of(text@),
            body == lv.subrange(start as int, lv.len() as int),
            lv.len() == lines.len(),
            first_edge == start + 2 + count,
            body.len() >= count + 2,
            number_of(body[0]) == Some(count),
            number_of(body[1]) == Some(edge_count),
            plain_node_lines(body.subrange(2, count + 2)) == Ok::<Seq<NodeInfo>, ParseError>(nodes@),
            first_edge <= j <= end,
            end <= lines.len(),
            end == if lines.len() - first_edge < edge_count {
                lines.len() as int
            } else {
                first_edge + edge_count
            },
            plain_edge_lines(lv.subrange(first_edge as int, j as int)) == Ok::<Seq<EdgeInfo>, ParseError>(edges@),
        decreases end - j,
    {
        proof {
            assert(lv.subrange(first_edge as int, j + 1).drop_last() =~= lv.subrange(first_edge as int, j as int));
            assert(lv.subrange(first_edge as int, j + 1).last() == lines@[j as int]@);
        }
        let edge = match parse_plain_edge_line(lines[j].as_slice()) {
            Ok(e) => e,
            Err(e) => {
                proof {
                    let el = body.subrange(count + 2, end - start);
                    assert(el.take(j + 1 - first_edge) =~= lv.subrange(first_edge as int, j + 1));
                    lemma_plain_edge_lines_err(el, j + 1 - first_edge);
                }
                return Err(e);
            },
        };
        edges.push(edge);
        j = j + 1;
    }
    proof {
        assert(body.subrange(count + 2, end - start) =~= lv.subrange(first_edge as int, end as int));
    }
    if lines.len() - first_edge < edge_count {
        return Err(ParseError::MissingLine(avail));
    }
    if lines.len() > end {
        return Err(ParseError::TrailingLine(end - start));
    }
    Ok((nodes, edges))
}

} // verus!
