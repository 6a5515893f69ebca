use vstd::prelude::*;

use vstd::string::StrSliceExecFns;

verus! {

/// ASCII whitespace, the separators recognized between tokens.
pub open spec fn is_space(c: char) -> bool {
    c == ' ' || c == '\t' || c == '\n' || c == '\r' || c == '\u{000B}' || c == '\u{000C}'
}

/// Length of the maximal leading run of non-space characters.
pub open spec fn token_len(s: Seq<char>) -> nat
    decreases s.len(),
{
    if s.len() == 0 || is_space(s[0]) {
        0
    } else {
        (1 + token_len(s.subrange(1, s.len() as int))) as nat
    }
}

/// The whitespace-separated tokens of a line, in order.
pub open spec fn tokens_of(s: Seq<char>) -> Seq<Seq<char>>
    decreases s.len(),
    via tokens_of_decreases
{
    if s.len() == 0 {
        Seq::empty()
    } else if is_space(s[0]) {
        tokens_of(s.subrange(1, s.len() as int))
    } else {
        seq![s.subrange(0, token_len(s) as int)] + tokens_of(
            s.subrange(token_len(s) as int, s.len() as int),
        )
    }
}

#[via_fn]
proof fn tokens_of_decreases(s: Seq<char>) {
    if s.len() > 0 && !is_space(s[0]) {
        lemma_token_len_le(s);
        assert(token_len(s) == (1 + token_len(s.subrange(1, s.len() as int))) as nat);
    }
}

pub proof fn lemma_token_len_le(s: Seq<char>)
    ensures
        token_len(s) <= s.len(),
    decreases s.len(),
{
    if s.len() == 0 || is_space(s[0]) {
    } else {
        lemma_token_len_le(s.subrange(1, s.len() as int));
    }
}

/// `token_len` is the unique boundary: all characters before it are
/// non-space and it is the end of the line or a space.
pub proof fn lemma_token_len_is(s: Seq<char>, e: int)
    requires
        0 <= e <= s.len(),
        forall|x: int| 0 <= x < e ==> !is_space(#[trigger] s[x]),
        e == s.len() || is_space(s[e]),
    ensures
        token_len(s) == e,
    decreases e,
{
    if e == 0 {
    } else {
        let s1 = s.subrange(1, s.len() as int);
        assert(!is_space(s[0]));
        assert forall|x: int| 0 <= x < e - 1 implies !is_space(#[trigger] s1[x]) by {
            assert(s1[x] == s[x + 1]);
        }
        if e - 1 < s1.len() {
            assert(s1[e - 1] == s[e]);
        }
        lemma_token_len_is(s1, e - 1);
    }
}

fn is_space_char(c: char) -> (r: bool)
    ensures
        r == is_space(c),
{
    c == ' ' || c == '\t' || c == '\n' || c == '\r' || c == '\u{000B}' || c == '\u{000C}'
}

/// Split a line into its whitespace-separated tokens.
pub fn tokenize(s: &str) -> (ts: Vec<String>)
    ensures
        ts@.len() == tokens_of(s@).len(),
        forall|m: int| 0 <= m < ts@.len() ==> (#[trigger] ts@[m])@ == tokens_of(s@)[m],
    decreases s@.len(),
{
    let len = s.unicode_len();
    if len == 0 {
        Vec::new()
    } else {
        let c0 = s.get_char(0);
        if is_space_char(c0) {
            let rest = s.substring_char(1, len);
            tokenize(rest)
        } else {
            let mut e: usize = 1;
            while e < len && !is_space_char(s.get_char(e))
                invariant
                    1 <= e as int <= s@.len(),
                    len == s@.len(),
                    forall|x: int| 0 <= x < e as int ==> !is_space(#[trigger] s@[x]),
                decreases s@.len() - e as int,
            {
                e = e + 1;
            }
            proof {
                lemma_token_len_is(s@, e as int);
            }
            let tok = s.substring_char(0, e).to_owned();
            let rest = s.substring_char(e, len);
            let rest_toks = tokenize(rest);
            let mut ts: Vec<String> = Vec::new();
            ts.push(tok);
            let mut idx: usize = 0;
            while idx < rest_toks.len()
                invariant
                    idx as int <= rest_toks@.len(),
                    ts@.len() == 1 + idx as int,
                    ts@[0]@ == s@.subrange(0, token_len(s@) as int),
                    forall|m: int|
                        1 <= m < ts@.len() ==> (#[trigger] ts@[m])@ == rest_toks@[m - 1]@,
                decreases rest_toks@.len() - idx as int,
            {
                ts.push(rest_toks[idx].clone());
                idx = idx + 1;
            }
            proof {
                assert(tokens_of(s@) == seq![s@.subrange(0, token_len(s@) as int)] + tokens_of(
                    s@.subrange(token_len(s@) as int, s@.len() as int),
                ));
                assert forall|m: int|
                    0 <= m < ts@.len() implies (#[trigger] ts@[m])@ == tokens_of(s@)[m] by {
                    if m >= 1 {
                        assert(ts@[m]@ == rest_toks@[m - 1]@);
                        assert(rest_toks@[m - 1]@ == tokens_of(rest@)[m - 1]);
                    }
                }
            }
            ts
        }
    }
}

/// A node record: an identifying key used while loading, and the node's
/// display label.
pub struct NodeRecord {
    pub key: String,
    pub label: String,
}

/// An edge record: the keys of its two endpoints and a descriptive label.
pub struct EdgeRecord {
    pub key1: String,
    pub key2: String,
    pub label: String,
}

/// A line describes a node exactly when it has two tokens.
pub open spec fn node_ok(l: String) -> bool {
    tokens_of(l@).len() == 2
}

/// A line describes an edge exactly when it has three tokens.
pub open spec fn edge_ok(l: String) -> bool {
    tokens_of(l@).len() == 3
}

/// Parse one node line: exactly two tokens give `(key, label)`; any other
/// token count is malformed.
pub fn parse_node_line(line: &str) -> (r: Option<NodeRecord>)
    ensures
        r is Some <==> tokens_of(line@).len() == 2,
        r matches Some(rec) ==> rec.key@ == tokens_of(line@)[0] && rec.label@ == tokens_of(
            line@,
        )[1],
{
    let mut ts = tokenize(line);
    if ts.len() == 2 {
        let label = ts.pop().unwrap();
        let key = ts.pop().unwrap();
        Option::Some(NodeRecord { key, label })
    } else {
        Option::None
    }
}

/// Parse one edge line: exactly three tokens give `(key1, key2, label)`;
/// any other token count is malformed.
pub fn parse_edge_line(line: &str) -> (r: Option<EdgeRecord>)
    ensures
        r is Some <==> tokens_of(line@).len() == 3,
        r matches Some(rec) ==> rec.key1@ == tokens_of(line@)[0] && rec.key2@ == tokens_of(
            line@,
        )[1] && rec.label@ == tokens_of(line@)[2],
{
    let mut ts = tokenize(line);
    if ts.len() == 3 {
        let label = ts.pop().unwrap();
        let key2 = ts.pop().unwrap();
        let key1 = ts.pop().unwrap();
        Option::Some(EdgeRecord { key1, key2, label })
    } else {
        Option::None
    }
}

/// How many of the first `upto` lines have exactly `want` tokens.
pub open spec fn count_ok(lines: Seq<String>, upto: int, want: int) -> int
    decreases upto,
{
    if upto <= 0 {
        0
    } else {
        count_ok(lines, upto - 1, want) + if tokens_of(lines[upto - 1]@).len() == want {
            1int
        } else {
            0int
        }
    }
}

/// Parse every node line; malformed lines are skipped and reported by
/// index, and parsing always continues with the remaining lines.
pub fn parse_node_lines(lines: &Vec<String>) -> (out: (Vec<NodeRecord>, Vec<usize>))
    ensures
        out.0@.len() == count_ok(lines@, lines@.len() as int, 2),
        forall|j: int|
            0 <= j < lines@.len() && node_ok(#[trigger] lines@[j]) ==> {
                &&& 0 <= count_ok(lines@, j, 2) < out.0@.len()
                &&& out.0@[count_ok(lines@, j, 2)].key@ == tokens_of(lines@[j]@)[0]
                &&& out.0@[count_ok(lines@, j, 2)].label@ == tokens_of(lines@[j]@)[1]
            },
        out.0@.len() + out.1@.len() == lines@.len(),
        forall|m: int|
            0 <= m < out.1@.len()
                ==> ((#[trigger] out.1@[m] as int) < lines@.len()
                    && !node_ok(lines@[out.1@[m] as int])),
        forall|j: int|
            0 <= j < lines@.len() && !node_ok(#[trigger] lines@[j]) ==> out.1@.contains(
                j as usize,
            ),
{
    let mut recs: Vec<NodeRecord> = Vec::new();
    let mut bad: Vec<usize> = Vec::new();
    let mut i: usize = 0;
    while i < lines.len()
        invariant
            i as int <= lines@.len(),
            recs@.len() == count_ok(lines@, i as int, 2),
            forall|j: int|
                0 <= j < i as int && node_ok(#[trigger] lines@[j]) ==> {
                    &&& 0 <= count_ok(lines@, j, 2) < recs@.len()
                    &&& recs@[count_ok(lines@, j, 2)].key@ == tokens_of(lines@[j]@)[0]
                    &&& recs@[count_ok(lines@, j, 2)].label@ == tokens_of(lines@[j]@)[1]
                },
            recs@.len() + bad@.len() == i as int,
            forall|m: int|
                0 <= m < bad@.len()
                    ==> ((#[trigger] bad@[m] as int) < i as int
                        && !node_ok(lines@[bad@[m] as int])),
            forall|j: int|
                0 <= j < i as int && !node_ok(#[trigger] lines@[j]) ==> bad@.contains(j as usize),
        decreases lines@.len() - i as int,
    {
        let ghost old_bad = bad@;
        match parse_node_line(lines[i].as_str()) {
            Option::Some(rec) => {
                recs.push(rec);
            },
            Option::None => {
                bad.push(i);
                proof {
                    crate::graph::lemma_push_contains(old_bad, i);
                }
            },
        }
        i = i + 1;
    }
    (recs, bad)
}

/// Parse every edge line; malformed lines are skipped and reported by
/// index, and parsing always continues with the remaining lines.
pub fn parse_edge_lines(lines: &Vec<String>) -> (out: (Vec<EdgeRecord>, Vec<usize>))
    ensures
        out.0@.len() == count_ok(lines@, lines@.len() as int, 3),
        forall|j: int|
            0 <= j < lines@.len() && edge_ok(#[trigger] lines@[j]) ==> {
                &&& 0 <= count_ok(lines@, j, 3) < out.0@.len()
                &&& out.0@[count_ok(lines@, j, 3)].key1@ == tokens_of(lines@[j]@)[0]
                &&& out.0@[count_ok(lines@, j, 3)].key2@ == tokens_of(lines@[j]@)[1]
                &&& out.0@[count_ok(lines@, j, 3)].label@ == tokens_of(lines@[j]@)[2]
            },
        out.0@.len() + out.1@.len() == lines@.len(),
        forall|m: int|
            0 <= m < out.1@.len()
                ==> ((#[trigger] out.1@[m] as int) < lines@.len()
                    && !edge_ok(lines@[out.1@[m] as int])),
        forall|j: int|
            0 <= j < lines@.len() && !edge_ok(#[trigger] lines@[j]) ==> out.1@.contains(
                j as usize,
            ),
{
    let mut recs: Vec<EdgeRecord> = Vec::new();
    let mut bad: Vec<usize> = Vec::new();
    let mut i: usize = 0;
    while i < lines.len()
        invariant
            i as int <= lines@.len(),
            recs@.len() == count_ok(lines@, i as int, 3),
            forall|j: int|
                0 <= j < i as int && edge_ok(#[trigger] lines@[j]) ==> {
                    &&& 0 <= count_ok(lines@, j, 3) < recs@.len()
                    &&& recs@[count_ok(lines@, j, 3)].key1@ == tokens_of(lines@[j]@)[0]
                    &&& recs@[count_ok(lines@, j, 3)].key2@ == tokens_of(lines@[j]@)[1]
                    &&& recs@[count_ok(lines@, j, 3)].label@ == tokens_of(lines@[j]@)[2]
                },
            recs@.len() + bad@.len() == i as int,
            forall|m: int|
                0 <= m < bad@.len()
                    ==> ((#[trigger] bad@[m] as int) < i as int
                        && !edge_ok(lines@[bad@[m] as int])),
            forall|j: int|
                0 <= j < i as int && !edge_ok(#[trigger] lines@[j]) ==> bad@.contains(j as usize),
        decreases lines@.len() - i as int,
    {
        let ghost old_bad = bad@;
        match parse_edge_line(lines[i].as_str()) {
            Option::Some(rec) => {
                recs.push(rec);
            },
            Option::None => {
                bad.push(i);
                proof {
                    crate::graph::lemma_push_contains(old_bad, i);
                }
            },
        }
        i = i + 1;
    }
    (recs, bad)
}

} // verus!
