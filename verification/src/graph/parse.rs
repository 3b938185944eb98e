use vstd::prelude::*;

use crate::graph::AdjacencyList;
use crate::graph::Edge;
use crate::graph::Vertex;
use vstd::string::StrSliceExecFns;

verus! {

/// The ways loading a graph description can fail.
#[derive(Clone, Copy, PartialEq, Eq, Structural, Debug)]
pub enum ParseError {
    /// There is no header line to read options from.
    MalformedHeader,
    /// An edge line does not consist of exactly two non-empty labels
    /// joined by a single edge operator.
    MalformedEdge,
    /// The graph is declared weighted and a line's weight field is
    /// absent or not a decimal integer that fits the weight type.
    MissingWeight,
    /// A right-hand label was not registered by the first pass; the
    /// loader proves this cannot happen, but keeps the variant as the
    /// guard of that invariant.
    UnknownEndpoint,
}

// ---------------------------------------------------------------------
// Specification model of the text format
// ---------------------------------------------------------------------
/// Split `s` at every occurrence of `c`; always yields at least one
/// (possibly empty) piece.
pub open spec fn split_seq(s: Seq<char>, c: char) -> Seq<Seq<char>>
    decreases s.len(),
{
    if s.len() == 0 {
        seq![Seq::<char>::empty()]
    } else {
        let r = split_seq(s.drop_last(), c);
        if s.last() == c {
            r.push(Seq::<char>::empty())
        } else {
            r.update(r.len() - 1, r.last().push(s.last()))
        }
    }
}

/// Drop a single trailing carriage return, as line splitting does.
pub open spec fn strip_cr(s: Seq<char>) -> Seq<char> {
    if s.len() > 0 && s.last() == '\r' {
        s.drop_last()
    } else {
        s
    }
}

/// The lines of the input: split on newlines, each stripped of one
/// trailing carriage return.
pub open spec fn all_lines(input: Seq<char>) -> Seq<Seq<char>> {
    split_seq(input, '\n').map_values(|l: Seq<char>| strip_cr(l))
}

/// The edge-declaration lines: everything after the header line.
pub open spec fn edge_lines(input: Seq<char>) -> Seq<Seq<char>> {
    all_lines(input).drop_first()
}

/// Characters trimmed from both ends of the header line.
pub open spec fn header_trim() -> Seq<char> {
    seq!['[', ']', '\r', '\n']
}

/// Characters trimmed from both ends of a label token.
pub open spec fn label_trim() -> Seq<char> {
    seq!['<', '>', ' ']
}

/// Whitespace trimmed from header tokens and weight fields.
pub open spec fn ws_trim() -> Seq<char> {
    seq![' ', '\t']
}

/// Remove from both ends of `s` every character that occurs in `set`.
pub open spec fn trim_seq(s: Seq<char>, set: Seq<char>) -> Seq<char>
    decreases s.len(),
{
    if s.len() > 0 && set.contains(s[0]) {
        trim_seq(s.drop_first(), set)
    } else if s.len() > 0 && set.contains(s.last()) {
        trim_seq(s.drop_last(), set)
    } else {
        s
    }
}

/// Index of the first occurrence of `c` in `s`, or `s.len()` if absent.
pub open spec fn find_char(s: Seq<char>, c: char) -> int
    decreases s.len(),
{
    if s.len() == 0 {
        0
    } else if s[0] == c {
        0
    } else {
        1 + find_char(s.drop_first(), c)
    }
}

/// The option token that declares a directed graph.
pub open spec fn directed_token() -> Seq<char> {
    seq!['D', 'I', 'R', 'E', 'C', 'T', 'E', 'D']
}

/// The option token that declares a weighted graph.
pub open spec fn weighted_token() -> Seq<char> {
    seq!['W', 'E', 'I', 'G', 'H', 'T', 'E', 'D']
}

/// Whether any `;`-separated token of `s`, trimmed of whitespace,
/// equals `target`.
pub open spec fn header_has(s: Seq<char>, target: Seq<char>) -> bool
    decreases s.len(),
{
    let p = find_char(s, ';');
    if 0 <= p < s.len() {
        trim_seq(s.take(p), ws_trim()) == target || header_has(s.skip(p + 1), target)
    } else {
        trim_seq(s, ws_trim()) == target
    }
}

/// The stripped header of the input.
pub open spec fn header_core(input: Seq<char>) -> Seq<char> {
    trim_seq(all_lines(input)[0], header_trim())
}

pub open spec fn parsed_directed(input: Seq<char>) -> bool {
    header_has(header_core(input), directed_token())
}

pub open spec fn parsed_weighted(input: Seq<char>) -> bool {
    header_has(header_core(input), weighted_token())
}

// ---------------------------------------------------------------------
// Edge lines
// ---------------------------------------------------------------------
/// The edge field of a line: everything before the first `;`.
pub open spec fn edge_field(line: Seq<char>) -> Seq<char> {
    line.take(find_char(line, ';'))
}

/// Position of the (unique, if the line is well formed) `-` within the
/// edge field.
pub open spec fn dash_pos(line: Seq<char>) -> int {
    find_char(edge_field(line), '-')
}

pub open spec fn raw_a(line: Seq<char>) -> Seq<char> {
    edge_field(line).take(dash_pos(line))
}

pub open spec fn raw_b(line: Seq<char>) -> Seq<char> {
    edge_field(line).skip(dash_pos(line) + 1)
}

/// Left-hand label of an edge line.
pub open spec fn line_a(line: Seq<char>) -> Seq<char> {
    trim_seq(raw_a(line), label_trim())
}

/// Right-hand label of an edge line.
pub open spec fn line_b(line: Seq<char>) -> Seq<char> {
    trim_seq(raw_b(line), label_trim())
}

/// A line is blank when it has no characters at all; blank lines are
/// tolerated and skipped.
pub open spec fn is_blank(line: Seq<char>) -> bool {
    line.len() == 0
}

/// A non-blank line is a well-formed edge declaration when its edge
/// field splits on a single `-` into two tokens that trim to non-empty
/// labels.
pub open spec fn line_ok(line: Seq<char>) -> bool {
    &&& line.len() > 0
    &&& dash_pos(line) < edge_field(line).len()
    &&& find_char(raw_b(line), '-') == raw_b(line).len()
    &&& line_a(line).len() > 0
    &&& line_b(line).len() > 0
}

/// The edge operator is `<->`: the dash is flanked by `<` and `>`.
pub open spec fn line_bidir(line: Seq<char>) -> bool {
    let ef = edge_field(line);
    let p = dash_pos(line);
    1 <= p && p + 1 < ef.len() && ef[p - 1] == '<' && ef[p + 1] == '>'
}

/// Some edge line is neither blank nor a well-formed declaration.
pub open spec fn any_bad(lines: Seq<Seq<char>>) -> bool {
    exists|i: int| 0 <= i < lines.len() && !is_blank(lines[i]) && !line_ok(#[trigger] lines[i])
}

// ---------------------------------------------------------------------
// Weights
// ---------------------------------------------------------------------
pub open spec fn is_digit(c: char) -> bool {
    c == '0' || c == '1' || c == '2' || c == '3' || c == '4' || c == '5' || c == '6' || c == '7'
        || c == '8' || c == '9'
}

pub open spec fn digit_val(c: char) -> int {
    match c {
        '0' => 0,
        '1' => 1,
        '2' => 2,
        '3' => 3,
        '4' => 4,
        '5' => 5,
        '6' => 6,
        '7' => 7,
        '8' => 8,
        '9' => 9,
        _ => 0,
    }
}

pub open spec fn all_digits(s: Seq<char>) -> bool {
    forall|i: int| 0 <= i < s.len() ==> is_digit(#[trigger] s[i])
}

/// Value of a run of decimal digits.
pub open spec fn digits_val(s: Seq<char>) -> int
    decreases s.len(),
{
    if s.len() == 0 {
        0
    } else {
        digits_val(s.drop_last()) * 10 + digit_val(s.last())
    }
}

/// The integer a token denotes: an optional sign followed by at least
/// one digit, as the standard library's decimal parsing accepts.
pub open spec fn int_literal(s: Seq<char>) -> Option<int> {
    let body = if s.len() > 0 && (s[0] == '+' || s[0] == '-') {
        s.drop_first()
    } else {
        s
    };
    if body.len() > 0 && all_digits(body) {
        if s[0] == '-' {
            Some(-digits_val(body))
        } else {
            Some(digits_val(body))
        }
    } else {
        None
    }
}

/// The weight field of a line: between the first and second `;`;
/// absent when the line has no `;`.
pub open spec fn weight_field(line: Seq<char>) -> Option<Seq<char>> {
    let p = find_char(line, ';');
    if p == line.len() {
        None
    } else {
        let rest = line.skip(p + 1);
        Some(rest.take(find_char(rest, ';')))
    }
}

/// The weight a line carries in a weighted graph, if its weight field
/// is present, parseable, and fits the weight type.
pub open spec fn line_weight(line: Seq<char>) -> Option<int> {
    match weight_field(line) {
        Option::None => Option::None,
        Option::Some(f) => {
            let t = trim_seq(f, ws_trim());
            match int_literal(t) {
                Option::Some(v) => if i32::MIN <= v <= i32::MAX {
                    Option::Some(v)
                } else {
                    Option::None
                },
                Option::None => Option::None,
            }
        },
    }
}

/// Some well-formed edge line lacks a usable weight.
pub open spec fn any_weight_bad(lines: Seq<Seq<char>>, weighted: bool) -> bool {
    weighted && exists|i: int|
        0 <= i < lines.len() && line_ok(#[trigger] lines[i]) && line_weight(lines[i]) is None
}

/// The weight an edge line contributes: 0 when the graph is unweighted.
pub open spec fn weight_of(line: Seq<char>, weighted: bool) -> int {
    if weighted {
        match line_weight(line) {
            Option::Some(v) => v,
            Option::None => 0,
        }
    } else {
        0
    }
}

/// Every weight read from the edge lines is non-negative.
pub open spec fn weights_nonneg(lines: Seq<Seq<char>>, weighted: bool) -> bool {
    forall|i: int|
        0 <= i < lines.len() && line_ok(#[trigger] lines[i]) ==> weight_of(lines[i], weighted) >= 0
}

// ---------------------------------------------------------------------
// First pass: labels in order of first appearance
// ---------------------------------------------------------------------
pub open spec fn add_label(ls: Seq<Seq<char>>, l: Seq<char>) -> Seq<Seq<char>> {
    if ls.contains(l) {
        ls
    } else {
        ls.push(l)
    }
}

/// Labels collected from the edge lines, in order of first appearance.
pub open spec fn labels_upto(lines: Seq<Seq<char>>) -> Seq<Seq<char>>
    decreases lines.len(),
{
    if lines.len() == 0 {
        Seq::<Seq<char>>::empty()
    } else {
        let prev = labels_upto(lines.drop_last());
        let l = lines.last();
        if line_ok(l) {
            add_label(add_label(prev, line_a(l)), line_b(l))
        } else {
            prev
        }
    }
}

/// First index of `l` in `ls`, or `ls.len()` if absent.
pub open spec fn label_index(ls: Seq<Seq<char>>, l: Seq<char>) -> int
    decreases ls.len(),
{
    if ls.len() == 0 {
        0
    } else if ls[0] == l {
        0
    } else {
        1 + label_index(ls.drop_first(), l)
    }
}

// ---------------------------------------------------------------------
// Second pass: edges
// ---------------------------------------------------------------------
/// An edge list entry of the model: target index and weight.
pub open spec fn has_target(es: Seq<(int, int)>, y: int) -> bool {
    exists|k: int| 0 <= k < es.len() && (#[trigger] es[k]).0 == y
}

/// Apply one edge line to the per-vertex edge lists.
pub open spec fn apply_line(
    st: Seq<Seq<(int, int)>>,
    ls: Seq<Seq<char>>,
    line: Seq<char>,
    directed: bool,
    weighted: bool,
) -> Seq<Seq<(int, int)>> {
    if line_ok(line) {
        let x = label_index(ls, line_a(line));
        let y = label_index(ls, line_b(line));
        let w = weight_of(line, weighted);
        if has_target(st[x], y) {
            st
        } else {
            let st1 = st.update(x, st[x].push((y, w)));
            if (!directed || line_bidir(line)) && !has_target(st[y], x) {
                st1.update(y, st1[y].push((x, w)))
            } else {
                st1
            }
        }
    } else {
        st
    }
}

/// The per-vertex edge lists after all edge lines, starting from empty
/// lists for each of the `ls.len()` vertices.
pub open spec fn edges_upto(
    lines: Seq<Seq<char>>,
    ls: Seq<Seq<char>>,
    directed: bool,
    weighted: bool,
) -> Seq<Seq<(int, int)>>
    decreases lines.len(),
{
    if lines.len() == 0 {
        Seq::new(ls.len(), |i: int| Seq::<(int, int)>::empty())
    } else {
        apply_line(
            edges_upto(lines.drop_last(), ls, directed, weighted),
            ls,
            lines.last(),
            directed,
            weighted,
        )
    }
}

/// View of a stored edge list as model pairs.
pub open spec fn edges_model(s: Seq<Edge>) -> Seq<(int, int)> {
    s.map_values(|e: Edge| (e.target_idx as int, e.weight as int))
}

// ---------------------------------------------------------------------
// Basic lemmas
// ---------------------------------------------------------------------
pub proof fn lemma_split_len(s: Seq<char>, c: char)
    ensures
        split_seq(s, c).len() >= 1,
    decreases s.len(),
{
    if s.len() > 0 {
        lemma_split_len(s.drop_last(), c);
    }
}

pub proof fn lemma_find_char(s: Seq<char>, c: char)
    ensures
        0 <= find_char(s, c) <= s.len(),
        find_char(s, c) < s.len() ==> s[find_char(s, c)] == c,
        forall|j: int| 0 <= j < find_char(s, c) ==> s[j] != c,
    decreases s.len(),
{
    if s.len() == 0 {
    } else if s[0] == c {
    } else {
        lemma_find_char(s.drop_first(), c);
        assert forall|j: int| 0 <= j < find_char(s, c) implies s[j] != c by {
            if j >= 1 {
                assert(s[j] == s.drop_first()[j - 1]);
            }
        }
    }
}

pub proof fn lemma_digits_val_bounds(s: Seq<char>)
    requires
        all_digits(s),
    ensures
        digits_val(s) >= 0,
        s.len() > 0 ==> digits_val(s) >= digit_val(s.last()),
    decreases s.len(),
{
    if s.len() > 0 {
        assert(all_digits(s.drop_last())) by {
            assert(forall|i: int|
                0 <= i < s.len() - 1 ==> #[trigger] s.drop_last()[i] == s[i]);
        }
        lemma_digits_val_bounds(s.drop_last());
    }
}

// ---------------------------------------------------------------------
// Executable text helpers
// ---------------------------------------------------------------------
/// Collect the characters of a string slice.
pub fn collect_chars(s: &str) -> (r: Vec<char>)
    ensures
        r@ == s@,
{
    let n: usize = s.unicode_len();
    let mut r: Vec<char> = Vec::new();
    let mut i: usize = 0;
    while i < n
        invariant
            n == s@.len(),
            i <= n,
            r@ == s@.take(i as int),
        decreases n - i,
    {
        let c = s.get_char(i);
        r.push(c);
        proof {
            assert(s@.take(i + 1) =~= s@.take(i as int).push(s@[i as int]));
        }
        i = i + 1;
    }
    proof {
        assert(s@.take(n as int) =~= s@);
    }
    r
}

fn vec_contains_char(set: &Vec<char>, c: char) -> (r: bool)
    ensures
        r == set@.contains(c),
{
    let mut i: usize = 0;
    while i < set.len()
        invariant
            i <= set@.len(),
            forall|j: int| 0 <= j < i ==> set@[j] != c,
        decreases set@.len() - i,
    {
        if set[i] == c {
            return true;
        }
        i = i + 1;
    }
    false
}

/// Narrow `[lo, hi)` from both ends past every character in `set`.
fn trim_range(chars: &Vec<char>, lo: usize, hi: usize, set: &Vec<char>) -> (r: (usize, usize))
    requires
        lo <= hi <= chars@.len(),
    ensures
        lo <= r.0 <= r.1 <= hi,
        chars@.subrange(r.0 as int, r.1 as int) == trim_seq(
            chars@.subrange(lo as int, hi as int),
            set@,
        ),
{
    let mut a: usize = lo;
    let mut b: usize = hi;
    while a < b && vec_contains_char(set, chars[a])
        invariant
            lo <= a <= b <= hi <= chars@.len(),
            trim_seq(chars@.subrange(lo as int, hi as int), set@) == trim_seq(
                chars@.subrange(a as int, b as int),
                set@,
            ),
        decreases b - a,
    {
        proof {
            assert(chars@.subrange(a + 1, b as int) =~= chars@.subrange(
                a as int,
                b as int,
            ).drop_first());
        }
        a = a + 1;
    }
    while a < b && vec_contains_char(set, chars[b - 1])
        invariant
            lo <= a <= b <= hi <= chars@.len(),
            trim_seq(chars@.subrange(lo as int, hi as int), set@) == trim_seq(
                chars@.subrange(a as int, b as int),
                set@,
            ),
            a < b ==> !set@.contains(chars@[a as int]),
        decreases b - a,
    {
        proof {
            assert(chars@.subrange(a as int, b - 1) =~= chars@.subrange(
                a as int,
                b as int,
            ).drop_last());
        }
        b = b - 1;
    }
    (a, b)
}

/// First position of `c` in `[lo, hi)`, or `hi` when absent.
fn find_in(chars: &Vec<char>, lo: usize, hi: usize, c: char) -> (p: usize)
    requires
        lo <= hi <= chars@.len(),
    ensures
        lo <= p <= hi,
        p - lo == find_char(chars@.subrange(lo as int, hi as int), c),
{
    let mut i: usize = lo;
    while i < hi
        invariant
            lo <= i <= hi <= chars@.len(),
            find_char(chars@.subrange(lo as int, hi as int), c) == i - lo + find_char(
                chars@.subrange(i as int, hi as int),
                c,
            ),
        decreases hi - i,
    {
        if chars[i] == c {
            proof {
                assert(chars@.subrange(i as int, hi as int)[0] == c);
            }
            return i;
        }
        proof {
            assert(chars@.subrange(i + 1, hi as int) =~= chars@.subrange(
                i as int,
                hi as int,
            ).drop_first());
            assert(chars@.subrange(i as int, hi as int)[0] != c);
        }
        i = i + 1;
    }
    proof {
        assert(chars@.subrange(hi as int, hi as int).len() == 0);
    }
    hi
}

/// Whether `[lo, hi)` of `chars` holds exactly the characters of `pat`.
fn seq_eq_range(chars: &Vec<char>, lo: usize, hi: usize, pat: &Vec<char>) -> (r: bool)
    requires
        lo <= hi <= chars@.len(),
    ensures
        r == (chars@.subrange(lo as int, hi as int) == pat@),
{
    if hi - lo != pat.len() {
        return false;
    }
    let mut i: usize = 0;
    while i < pat.len()
        invariant
            lo <= hi <= chars@.len(),
            hi - lo == pat@.len(),
            i <= pat@.len(),
            forall|j: int| 0 <= j < i ==> chars@[lo + j] == pat@[j],
        decreases pat@.len() - i,
    {
        if chars[lo + i] != pat[i] {
            proof {
                assert(chars@.subrange(lo as int, hi as int)[i as int] != pat@[i as int]);
            }
            return false;
        }
        i = i + 1;
    }
    proof {
        assert(chars@.subrange(lo as int, hi as int) =~= pat@);
    }
    true
}

/// Copy `[lo, hi)` of `chars` into a fresh vector.
fn copy_range(chars: &Vec<char>, lo: usize, hi: usize) -> (r: Vec<char>)
    requires
        lo <= hi <= chars@.len(),
    ensures
        r@ == chars@.subrange(lo as int, hi as int),
{
    let mut r: Vec<char> = Vec::new();
    let mut i: usize = lo;
    while i < hi
        invariant
            lo <= i <= hi <= chars@.len(),
            r@ == chars@.subrange(lo as int, i as int),
        decreases hi - i,
    {
        r.push(chars[i]);
        proof {
            assert(chars@.subrange(lo as int, i + 1) =~= chars@.subrange(lo as int, i as int).push(
                chars@[i as int],
            ));
        }
        i = i + 1;
    }
    r
}

/// Whether some `;`-separated, whitespace-trimmed token of `[lo, hi)`
/// equals `pat`.
fn header_token(chars: &Vec<char>, lo: usize, hi: usize, pat: &Vec<char>) -> (r: bool)
    requires
        lo <= hi <= chars@.len(),
    ensures
        r == header_has(chars@.subrange(lo as int, hi as int), pat@),
    decreases hi - lo,
{
    let ws: Vec<char> = vec![' ', '\t'];
    proof {
        assert(ws@ =~= ws_trim());
    }
    let p = find_in(chars, lo, hi, ';');
    let (t0, t1) = trim_range(chars, lo, p, &ws);
    proof {
        let s = chars@.subrange(lo as int, hi as int);
        assert(s.take(p - lo) =~= chars@.subrange(lo as int, p as int));
    }
    let token_eq = seq_eq_range(chars, t0, t1, pat);
    if p == hi {
        token_eq
    } else if token_eq {
        true
    } else {
        proof {
            let s = chars@.subrange(lo as int, hi as int);
            assert(s.skip(p - lo + 1) =~= chars@.subrange(p + 1, hi as int));
        }
        header_token(chars, p + 1, hi, pat)
    }
}

/// Parse `[lo, hi)` as a signed decimal integer, rejecting values that
/// do not fit the weight type.
#[verifier::loop_isolation(false)]
fn parse_i32_range(chars: &Vec<char>, lo: usize, hi: usize) -> (r: Option<i32>)
    requires
        lo <= hi <= chars@.len(),
    ensures
        ({
            let s = chars@.subrange(lo as int, hi as int);
            match r {
                Option::Some(v) => int_literal(s) == Option::Some(v as int),
                Option::None => match int_literal(s) {
                    Option::Some(v) => v < i32::MIN || v > i32::MAX,
                    Option::None => true,
                },
            }
        }),
{
    let ghost s = chars@.subrange(lo as int, hi as int);
    if lo == hi {
        return Option::None;
    }
    let neg: bool = chars[lo] == '-';
    let has_sign: bool = neg || chars[lo] == '+';
    let start: usize = if has_sign {
        lo + 1
    } else {
        lo
    };
    proof {
        if has_sign {
            assert(s.drop_first() =~= chars@.subrange(start as int, hi as int));
        }
    }
    let ghost body = chars@.subrange(start as int, hi as int);
    if start == hi {
        return Option::None;
    }
    let mut i: usize = start;
    let mut acc: i64 = 0;
    while i < hi
        invariant
            lo <= start <= i <= hi <= chars@.len(),
            0 <= acc <= 4294967296,
            body == chars@.subrange(start as int, hi as int),
            all_digits(chars@.subrange(start as int, i as int)),
            digits_val(chars@.subrange(start as int, i as int)) < 4294967296 ==> acc == digits_val(
                chars@.subrange(start as int, i as int),
            ),
            digits_val(chars@.subrange(start as int, i as int)) >= 4294967296 ==> acc
                == 4294967296,
            digits_val(chars@.subrange(start as int, i as int)) >= 0,
        decreases hi - i,
    {
        let c = chars[i];
        let d: i64 = match c {
            '0' => 0,
            '1' => 1,
            '2' => 2,
            '3' => 3,
            '4' => 4,
            '5' => 5,
            '6' => 6,
            '7' => 7,
            '8' => 8,
            '9' => 9,
            _ => {
                proof {
                    assert(body[i - start] == c);
                    assert(!all_digits(body));
                }
                return Option::None;
            },
        };
        proof {
            let pre = chars@.subrange(start as int, i as int);
            let post = chars@.subrange(start as int, i + 1);
            assert(post.drop_last() =~= pre);
            assert(post.last() == c);
            assert(digits_val(post) == digits_val(pre) * 10 + digit_val(c));
            assert(forall|j: int| 0 <= j < post.len() ==> is_digit(#[trigger] post[j]));
        }
        if acc >= 4294967296 {
            // the value already exceeds any representable weight
        } else if acc * 10 + d >= 4294967296 {
            proof {
                assert(digits_val(chars@.subrange(start as int, i + 1)) >= 4294967296);
            }
            acc = 4294967296;
        } else {
            acc = acc * 10 + d;
        }
        i = i + 1;
    }
    proof {
        assert(body == chars@.subrange(start as int, i as int));
        assert(int_literal(s) == Option::Some(if s[0] == '-' {
            -digits_val(body)
        } else {
            digits_val(body)
        }));
    }
    if acc >= 4294967296 {
        return Option::None;
    }
    if neg {
        if acc > 2147483648 {
            return Option::None;
        }
        let v: i32 = (0 - acc) as i32;
        Option::Some(v)
    } else {
        if acc > 2147483647 {
            return Option::None;
        }
        Option::Some(acc as i32)
    }
}

/// The line boundaries of the whole input, carriage returns stripped.
fn line_ranges(chars: &Vec<char>) -> (r: Vec<(usize, usize)>)
    ensures
        r@.len() == all_lines(chars@).len(),
        forall|k: int|
            0 <= k < r@.len() ==> (#[trigger] r@[k]).0 <= r@[k].1 <= chars@.len()
                && chars@.subrange(r@[k].0 as int, r@[k].1 as int) == all_lines(chars@)[k],
{
    let mut done: Vec<(usize, usize)> = Vec::new();
    let mut start: usize = 0;
    let mut i: usize = 0;
    while i < chars.len()
        invariant
            start <= i <= chars@.len(),
            split_seq(chars@.take(i as int), '\n').len() == done@.len() + 1,
            split_seq(chars@.take(i as int), '\n').last() == chars@.subrange(
                start as int,
                i as int,
            ),
            forall|k: int|
                0 <= k < done@.len() ==> (#[trigger] done@[k]).0 <= done@[k].1 <= chars@.len()
                    && chars@.subrange(done@[k].0 as int, done@[k].1 as int) == strip_cr(
                    split_seq(chars@.take(i as int), '\n')[k],
                ),
        decreases chars@.len() - i,
    {
        let ghost pre = split_seq(chars@.take(i as int), '\n');
        proof {
            lemma_split_len(chars@.take(i as int), '\n');
            assert(chars@.take(i + 1).drop_last() =~= chars@.take(i as int));
        }
        let c = chars[i];
        if c == '\n' {
            let end: usize = if i > start && chars[i - 1] == '\r' {
                i - 1
            } else {
                i
            };
            proof {
                let tok = chars@.subrange(start as int, i as int);
                if i > start && chars@[i - 1] == '\r' {
                    assert(tok.last() == '\r');
                    assert(chars@.subrange(start as int, end as int) =~= tok.drop_last());
                } else {
                    assert(chars@.subrange(start as int, end as int) == tok);
                }
                assert(split_seq(chars@.take(i + 1), '\n') == pre.push(Seq::<char>::empty()));
            }
            done.push((start, end));
            start = i + 1;
        } else {
            proof {
                assert(split_seq(chars@.take(i + 1), '\n') == pre.update(
                    pre.len() - 1,
                    pre.last().push(c),
                ));
                assert(pre.last().push(c) =~= chars@.subrange(start as int, i + 1));
            }
        }
        i = i + 1;
    }
    let end: usize = if i > start && chars[i - 1] == '\r' {
        i - 1
    } else {
        i
    };
    proof {
        assert(chars@.take(chars@.len() as int) =~= chars@);
        let tok = chars@.subrange(start as int, i as int);
        if i > start && chars@[i - 1] == '\r' {
            assert(tok.last() == '\r');
            assert(chars@.subrange(start as int, end as int) =~= tok.drop_last());
        }
    }
    done.push((start, end));
    done
}

/// How one edge line classifies: blank, malformed, or a declaration
/// with its label ranges and operator kind.
pub enum LineClass {
    Blank,
    Bad,
    Decl { a_lo: usize, a_hi: usize, b_lo: usize, b_hi: usize, bidir: bool },
}

/// Classify the line `[lo, hi)` against the edge grammar.
fn classify_line(chars: &Vec<char>, lo: usize, hi: usize) -> (r: LineClass)
    requires
        lo <= hi <= chars@.len(),
    ensures
        ({
            let line = chars@.subrange(lo as int, hi as int);
            match r {
                LineClass::Blank => is_blank(line),
                LineClass::Bad => !is_blank(line) && !line_ok(line),
                LineClass::Decl { a_lo, a_hi, b_lo, b_hi, bidir } => {
                    &&& line_ok(line)
                    &&& a_lo <= a_hi <= chars@.len()
                    &&& b_lo <= b_hi <= chars@.len()
                    &&& chars@.subrange(a_lo as int, a_hi as int) == line_a(line)
                    &&& chars@.subrange(b_lo as int, b_hi as int) == line_b(line)
                    &&& bidir == line_bidir(line)
                },
            }
        }),
{
    let ghost line = chars@.subrange(lo as int, hi as int);
    if lo == hi {
        return LineClass::Blank;
    }
    let psemi = find_in(chars, lo, hi, ';');
    proof {
        assert(edge_field(line) =~= chars@.subrange(lo as int, psemi as int));
    }
    let p = find_in(chars, lo, psemi, '-');
    if p == psemi {
        return LineClass::Bad;
    }
    proof {
        assert(raw_b(line) =~= chars@.subrange(p + 1, psemi as int));
    }
    let p2 = find_in(chars, p + 1, psemi, '-');
    if p2 != psemi {
        return LineClass::Bad;
    }
    let lab: Vec<char> = vec!['<', '>', ' '];
    proof {
        assert(lab@ =~= label_trim());
        assert(raw_a(line) =~= chars@.subrange(lo as int, p as int));
    }
    let (a_lo, a_hi) = trim_range(chars, lo, p, &lab);
    let (b_lo, b_hi) = trim_range(chars, p + 1, psemi, &lab);
    if a_lo == a_hi || b_lo == b_hi {
        return LineClass::Bad;
    }
    let bidir: bool = p > lo && p + 1 < psemi && chars[p - 1] == '<' && chars[p + 1] == '>';
    proof {
        let ef = edge_field(line);
        let dp = dash_pos(line);
        assert(dp == p - lo);
        if 1 <= dp && dp + 1 < ef.len() {
            assert(ef[dp - 1] == chars@[p - 1]);
            assert(ef[dp + 1] == chars@[p + 1]);
        }
    }
    LineClass::Decl { a_lo, a_hi, b_lo, b_hi, bidir }
}


// ---------------------------------------------------------------------
// Lemmas about the two passes
// ---------------------------------------------------------------------
/// View of the label table as a sequence of character sequences.
pub open spec fn labels_view(t: Seq<Vec<char>>) -> Seq<Seq<char>> {
    t.map_values(|v: Vec<char>| v@)
}

pub open spec fn distinct_seqs(ls: Seq<Seq<char>>) -> bool {
    forall|i: int, j: int|
        0 <= i < ls.len() && 0 <= j < ls.len() && i != j ==> ls[i] != ls[j]
}

pub open spec fn nonempty_seqs(ls: Seq<Seq<char>>) -> bool {
    forall|i: int| 0 <= i < ls.len() ==> (#[trigger] ls[i]).len() > 0
}

pub proof fn lemma_take_step<A>(s: Seq<A>, i: int)
    requires
        0 <= i < s.len(),
    ensures
        s.take(i + 1).drop_last() == s.take(i),
        s.take(i + 1).last() == s[i],
{
    assert(s.take(i + 1).drop_last() =~= s.take(i));
}

pub proof fn lemma_add_label(ls: Seq<Seq<char>>, l: Seq<char>)
    ensures
        add_label(ls, l).contains(l),
        forall|x: Seq<char>| ls.contains(x) ==> add_label(ls, l).contains(x),
        ls.len() <= add_label(ls, l).len(),
        forall|i: int| 0 <= i < ls.len() ==> add_label(ls, l)[i] == ls[i],
        distinct_seqs(ls) ==> distinct_seqs(add_label(ls, l)),
        nonempty_seqs(ls) && l.len() > 0 ==> nonempty_seqs(add_label(ls, l)),
{
    if ls.contains(l) {
    } else {
        let r = ls.push(l);
        assert(r[ls.len() as int] == l);
        assert(r.contains(l));
        assert forall|x: Seq<char>| ls.contains(x) implies r.contains(x) by {
            let i = choose|i: int| 0 <= i < ls.len() && ls[i] == x;
            assert(r[i] == x);
        }
        if distinct_seqs(ls) {
            assert forall|i: int, j: int|
                0 <= i < r.len() && 0 <= j < r.len() && i != j implies r[i] != r[j] by {
                if i < ls.len() && j < ls.len() {
                } else if i == ls.len() {
                    assert(r[j] == ls[j]);
                    assert(!ls.contains(l));
                    assert(ls[j] != l) by {
                        if ls[j] == l {
                            assert(ls.contains(l));
                        }
                    }
                } else {
                    assert(r[i] == ls[i]);
                    assert(ls[i] != l) by {
                        if ls[i] == l {
                            assert(ls.contains(l));
                        }
                    }
                }
            }
        }
    }
}

pub proof fn lemma_labels_distinct(lines: Seq<Seq<char>>)
    ensures
        distinct_seqs(labels_upto(lines)),
        nonempty_seqs(labels_upto(lines)),
    decreases lines.len(),
{
    if lines.len() > 0 {
        lemma_labels_distinct(lines.drop_last());
        let prev = labels_upto(lines.drop_last());
        let l = lines.last();
        if line_ok(l) {
            lemma_add_label(prev, line_a(l));
            lemma_add_label(add_label(prev, line_a(l)), line_b(l));
        }
    }
}

pub proof fn lemma_labels_complete(lines: Seq<Seq<char>>)
    ensures
        forall|i: int|
            0 <= i < lines.len() && line_ok(#[trigger] lines[i]) ==> labels_upto(lines).contains(
                line_a(lines[i]),
            ) && labels_upto(lines).contains(line_b(lines[i])),
    decreases lines.len(),
{
    if lines.len() > 0 {
        lemma_labels_complete(lines.drop_last());
        let prev = labels_upto(lines.drop_last());
        let l = lines.last();
        assert forall|i: int|
            0 <= i < lines.len() && line_ok(#[trigger] lines[i]) implies labels_upto(
            lines,
        ).contains(line_a(lines[i])) && labels_upto(lines).contains(line_b(lines[i])) by {
            if line_ok(l) {
                lemma_add_label(prev, line_a(l));
                lemma_add_label(add_label(prev, line_a(l)), line_b(l));
            }
            if i < lines.len() - 1 {
                assert(lines.drop_last()[i] == lines[i]);
            }
        }
    }
}

pub proof fn lemma_label_index(ls: Seq<Seq<char>>, l: Seq<char>)
    ensures
        0 <= label_index(ls, l) <= ls.len(),
        label_index(ls, l) < ls.len() ==> ls[label_index(ls, l)] == l,
        forall|j: int| 0 <= j < label_index(ls, l) ==> ls[j] != l,
        ls.contains(l) <==> label_index(ls, l) < ls.len(),
    decreases ls.len(),
{
    if ls.len() == 0 {
        assert(!ls.contains(l));
    } else if ls[0] == l {
        assert(ls.contains(l));
    } else {
        lemma_label_index(ls.drop_first(), l);
        assert forall|j: int| 0 <= j < label_index(ls, l) implies ls[j] != l by {
            if j >= 1 {
                assert(ls[j] == ls.drop_first()[j - 1]);
            }
        }
        if ls.contains(l) {
            let i = choose|i: int| 0 <= i < ls.len() && ls[i] == l;
            assert(ls.drop_first()[i - 1] == l);
            assert(ls.drop_first().contains(l));
        } else {
            if ls.drop_first().contains(l) {
                let i = choose|i: int| 0 <= i < ls.drop_first().len() && ls.drop_first()[i] == l;
                assert(ls[i + 1] == l);
                assert(ls.contains(l));
            }
        }
    }
}

// ---------------------------------------------------------------------
// Model-level well-formedness of the edge fold
// ---------------------------------------------------------------------
pub open spec fn m_has(es: Seq<Seq<(int, int)>>, u: int, v: int, w: int) -> bool {
    exists|k: int| 0 <= k < es[u].len() && #[trigger] es[u][k] == (v, w)
}

pub open spec fn m_targets_ok(es: Seq<Seq<(int, int)>>, n: int) -> bool {
    forall|u: int, k: int|
        0 <= u < es.len() && 0 <= k < es[u].len() ==> 0 <= (#[trigger] es[u][k]).0 < n
}

pub open spec fn m_sym(es: Seq<Seq<(int, int)>>) -> bool {
    forall|u: int, k: int|
        0 <= u < es.len() && 0 <= k < es[u].len() ==> m_has(
            es,
            (#[trigger] es[u][k]).0,
            u,
            es[u][k].1,
        )
}

pub open spec fn m_dedup(es: Seq<Seq<(int, int)>>) -> bool {
    forall|u: int, k1: int, k2: int|
        0 <= u < es.len() && 0 <= k1 < es[u].len() && 0 <= k2 < es[u].len() && k1 != k2 && (
        #[trigger] es[u][k1]).0 != u ==> es[u][k1].0 != (#[trigger] es[u][k2]).0
}

pub open spec fn m_weights_ok(es: Seq<Seq<(int, int)>>) -> bool {
    forall|u: int, k: int|
        0 <= u < es.len() && 0 <= k < es[u].len() ==> (#[trigger] es[u][k]).1 >= 0
}

proof fn lemma_apply_line_wf(
    st: Seq<Seq<(int, int)>>,
    ls: Seq<Seq<char>>,
    line: Seq<char>,
    directed: bool,
    weighted: bool,
    w_ok: bool,
)
    requires
        st.len() == ls.len(),
        line_ok(line) ==> ls.contains(line_a(line)) && ls.contains(line_b(line)),
        m_targets_ok(st, ls.len() as int),
        !directed ==> m_sym(st),
        m_dedup(st),
        w_ok ==> m_weights_ok(st),
        w_ok && line_ok(line) ==> weight_of(line, weighted) >= 0,
    ensures
        ({
            let st2 = apply_line(st, ls, line, directed, weighted);
            &&& st2.len() == ls.len()
            &&& m_targets_ok(st2, ls.len() as int)
            &&& (!directed ==> m_sym(st2))
            &&& m_dedup(st2)
            &&& (w_ok ==> m_weights_ok(st2))
        }),
{
    if !line_ok(line) {
        return ;
    }
    let a = line_a(line);
    let b = line_b(line);
    lemma_label_index(ls, a);
    lemma_label_index(ls, b);
    let x = label_index(ls, a);
    let y = label_index(ls, b);
    let w = weight_of(line, weighted);
    if has_target(st[x], y) {
        return ;
    }
    let st1 = st.update(x, st[x].push((y, w)));
    let both = (!directed || line_bidir(line)) && !has_target(st[y], x);
    let st2 = if both {
        st1.update(y, st1[y].push((x, w)))
    } else {
        st1
    };
    assert(apply_line(st, ls, line, directed, weighted) == st2);
    // every old entry is still present at its old index
    assert forall|u: int, k: int|
        0 <= u < st.len() && 0 <= k < st[u].len() implies 0 <= k < st2[u].len() && st2[u][k]
        == st[u][k] by {}
    // the new rows only append
    assert(st2.len() == st.len());
    assert forall|u: int, k: int|
        0 <= u < st2.len() && 0 <= k < st2[u].len() implies (k < st[u].len() && st2[u][k]
        == st[u][k]) || st2[u][k] == (y, w) || st2[u][k] == (x, w) by {}
    assert(m_targets_ok(st2, ls.len() as int));
    if w_ok {
        assert(m_weights_ok(st2));
    }
    if !directed {
        // no reverse edge was stored either, else symmetry of `st`
        // would give a forward edge and the line would have been skipped
        assert(!has_target(st[y], x)) by {
            if has_target(st[y], x) {
                let k = choose|k: int| 0 <= k < st[y].len() && (#[trigger] st[y][k]).0 == x;
                assert(m_has(st, x, y, st[y][k].1));
                let k2 = choose|k2: int|
                    0 <= k2 < st[x].len() && #[trigger] st[x][k2] == (y, st[y][k].1);
                assert(has_target(st[x], y));
            }
        }
        assert(both);
        assert(st2[x].last() == if both && x == y {
            (x, w)
        } else {
            (y, w)
        });
        assert forall|u: int, k: int|
            0 <= u < st2.len() && 0 <= k < st2[u].len() implies m_has(
            st2,
            (#[trigger] st2[u][k]).0,
            u,
            st2[u][k].1,
        ) by {
            if k < st[u].len() && st2[u][k] == st[u][k] {
                let t = st[u][k].0;
                let wt = st[u][k].1;
                assert(m_has(st, t, u, wt));
                let k2 = choose|k2: int| 0 <= k2 < st[t].len() && #[trigger] st[t][k2] == (u, wt);
                assert(st2[t][k2] == (u, wt));
                assert(m_has(st2, t, u, wt));
            } else if st2[u][k] == (y, w) && u == x {
                // mate is the appended (x, w) in row y
                assert(st2[y][st2[y].len() - 1] == (x, w));
                assert(m_has(st2, y, x, w));
            } else {
                // entry (x, w) in row y; mate is (y, w) in row x
                assert(st2[u][k] == (x, w) && u == y);
                if x == y {
                    assert(m_has(st2, x, y, w));
                } else {
                    assert(st2[x][st2[x].len() - 1] == (y, w));
                    assert(m_has(st2, x, y, w));
                }
            }
        }
        assert(m_sym(st2));
    }
    assert forall|u: int, k1: int, k2: int|
        0 <= u < st2.len() && 0 <= k1 < st2[u].len() && 0 <= k2 < st2[u].len() && k1 != k2 && (
        #[trigger] st2[u][k1]).0 != u implies st2[u][k1].0 != (#[trigger] st2[u][k2]).0 by {
        if u != x && u != y {
        } else if x == y {
            // both appended entries target u itself and are exempt
            if u == x {
                if k1 < st[u].len() && k2 < st[u].len() {
                } else if k1 >= st[u].len() {
                    assert(st2[u][k1].0 == u);
                } else {
                    assert(st2[u][k2] == (y, w) || st2[u][k2] == (x, w));
                    assert(st[u][k1].0 != u);
                    assert(st2[u][k1].0 != st2[u][k2].0);
                }
            }
        } else {
            if u == x {
                // row x gained (y, w); no old entry had y as target
                if k1 >= st[u].len() {
                    assert(st2[u][k1] == (y, w));
                    assert(k2 < st[u].len());
                    assert(st2[u][k2].0 != y);
                } else if k2 >= st[u].len() {
                    assert(st2[u][k2] == (y, w));
                    assert(st2[u][k1].0 != y);
                }
            } else {
                // row y gained (x, w) only after the reverse duplicate
                // check ruled out an old entry targeting x
                if k1 >= st[u].len() {
                    assert(both);
                    assert(st2[u][k1] == (x, w));
                    assert(k2 < st[u].len());
                    assert(st2[u][k2].0 != x);
                } else if k2 >= st[u].len() {
                    assert(both);
                    assert(st2[u][k2] == (x, w));
                    assert(st2[u][k1].0 != x);
                }
            }
        }
    }
    assert(m_dedup(st2));
}

pub proof fn lemma_edges_wf(
    lines: Seq<Seq<char>>,
    ls: Seq<Seq<char>>,
    directed: bool,
    weighted: bool,
)
    requires
        forall|i: int|
            0 <= i < lines.len() && line_ok(#[trigger] lines[i]) ==> ls.contains(line_a(lines[i]))
                && ls.contains(line_b(lines[i])),
    ensures
        ({
            let es = edges_upto(lines, ls, directed, weighted);
            &&& es.len() == ls.len()
            &&& m_targets_ok(es, ls.len() as int)
            &&& (!directed ==> m_sym(es))
            &&& m_dedup(es)
            &&& (weights_nonneg(lines, weighted) ==> m_weights_ok(es))
        }),
    decreases lines.len(),
{
    if lines.len() == 0 {
    } else {
        assert forall|i: int|
            0 <= i < lines.drop_last().len() && line_ok(
                #[trigger] lines.drop_last()[i],
            ) implies ls.contains(line_a(lines.drop_last()[i])) && ls.contains(
            line_b(lines.drop_last()[i]),
        ) by {
            assert(lines.drop_last()[i] == lines[i]);
        }
        lemma_edges_wf(lines.drop_last(), ls, directed, weighted);
        let prev = edges_upto(lines.drop_last(), ls, directed, weighted);
        let w_ok = weights_nonneg(lines, weighted);
        if w_ok {
            assert(weights_nonneg(lines.drop_last(), weighted)) by {
                assert forall|i: int|
                    0 <= i < lines.drop_last().len() && line_ok(
                        #[trigger] lines.drop_last()[i],
                    ) implies weight_of(lines.drop_last()[i], weighted) >= 0 by {
                    assert(lines.drop_last()[i] == lines[i]);
                }
            }
        }
        lemma_apply_line_wf(prev, ls, lines.last(), directed, weighted, w_ok);
    }
}

// ---------------------------------------------------------------------
// Executable pass helpers
// ---------------------------------------------------------------------
/// Find the label `[lo, hi)` in the lookup table.
pub(crate) fn lookup_label(table: &Vec<Vec<char>>, chars: &Vec<char>, lo: usize, hi: usize) -> (r: Option<
    usize,
>)
    requires
        lo <= hi <= chars@.len(),
    ensures
        ({
            let l = chars@.subrange(lo as int, hi as int);
            let ls = labels_view(table@);
            match r {
                Option::Some(i) => i < ls.len() && ls[i as int] == l && i == label_index(ls, l)
                    && ls.contains(l),
                Option::None => !ls.contains(l) && label_index(ls, l) == ls.len(),
            }
        }),
{
    let ghost l = chars@.subrange(lo as int, hi as int);
    let ghost ls = labels_view(table@);
    let mut i: usize = 0;
    while i < table.len()
        invariant
            lo <= hi <= chars@.len(),
            i <= table@.len(),
            l == chars@.subrange(lo as int, hi as int),
            ls == labels_view(table@),
            forall|j: int| 0 <= j < i ==> ls[j] != l,
        decreases table@.len() - i,
    {
        if seq_eq_range(chars, lo, hi, &table[i]) {
            proof {
                assert(ls[i as int] == l);
                assert(ls.contains(l));
                lemma_label_index(ls, l);
                assert(label_index(ls, l) == i) by {
                    let li = label_index(ls, l);
                    if li < i {
                        assert(ls[li] != l);
                    }
                }
            }
            return Option::Some(i);
        }
        i = i + 1;
    }
    proof {
        if ls.contains(l) {
            let j = choose|j: int| 0 <= j < ls.len() && ls[j] == l;
            assert(ls[j] != l);
        }
        lemma_label_index(ls, l);
    }
    Option::None
}

/// Register the label `[lo, hi)` if it is new: append a vertex with a
/// fresh dense index and record the label in the lookup table.
fn insert_label(
    vertices: &mut Vec<Vertex>,
    label_table: &mut Vec<Vec<char>>,
    chars: &Vec<char>,
    input: &str,
    lo: usize,
    hi: usize,
)
    requires
        lo <= hi <= chars@.len(),
        chars@ == input@,
        old(vertices)@.len() == old(label_table)@.len(),
        forall|i: int|
            0 <= i < old(vertices)@.len() ==> (#[trigger] old(vertices)@[i]).idx == i
                && old(vertices)@[i].label@ == labels_view(old(label_table)@)[i]
                && old(vertices)@[i].edges@.len() == 0,
    ensures
        labels_view(final(label_table)@) == add_label(
            labels_view(old(label_table)@),
            chars@.subrange(lo as int, hi as int),
        ),
        final(vertices)@.len() == final(label_table)@.len(),
        forall|i: int|
            0 <= i < final(vertices)@.len() ==> (#[trigger] final(vertices)@[i]).idx == i
                && final(vertices)@[i].label@ == labels_view(final(label_table)@)[i]
                && final(vertices)@[i].edges@.len() == 0,
{
    let ghost l = chars@.subrange(lo as int, hi as int);
    let found = lookup_label(label_table, chars, lo, hi);
    match found {
        Option::Some(_) => {
            proof {
                assert(labels_view(label_table@).contains(l));
            }
        },
        Option::None => {
            let idx = vertices.len();
            let s = input.substring_char(lo, hi);
            let v = Vertex::new(idx, s.to_owned());
            vertices.push(v);
            let copy = copy_range(chars, lo, hi);
            label_table.push(copy);
            proof {
                assert(labels_view(label_table@) =~= labels_view(
                    old(label_table)@,
                ).push(l));
            }
        },
    }
}

/// Whether some stored edge of this list already targets `y`.
fn row_has_target(es: &Vec<Edge>, y: usize) -> (r: bool)
    ensures
        r == has_target(edges_model(es@), y as int),
{
    let mut i: usize = 0;
    while i < es.len()
        invariant
            i <= es@.len(),
            forall|j: int| 0 <= j < i ==> (#[trigger] edges_model(es@)[j]).0 != y,
        decreases es@.len() - i,
    {
        if es[i].target_idx == y {
            proof {
                assert((#[trigger] edges_model(es@)[i as int]).0 == y);
            }
            return true;
        }
        i = i + 1;
    }
    false
}


// ---------------------------------------------------------------------
// Loading
// ---------------------------------------------------------------------
/// The error loading `input` produces, if any.
pub open spec fn load_err(input: Seq<char>) -> Option<ParseError> {
    if input.len() == 0 {
        Option::Some(ParseError::MalformedHeader)
    } else if any_bad(edge_lines(input)) {
        Option::Some(ParseError::MalformedEdge)
    } else if any_weight_bad(edge_lines(input), parsed_weighted(input)) {
        Option::Some(ParseError::MissingWeight)
    } else {
        Option::None
    }
}

/// The store a successful load of `input` returns: flags from the
/// header, vertices in order of first appearance, edge lists as the
/// line fold produces them.
pub open spec fn loaded_ok(input: Seq<char>, g: AdjacencyList) -> bool {
    let lines = edge_lines(input);
    let ls = labels_upto(lines);
    &&& g.directed == parsed_directed(input)
    &&& g.weighted == parsed_weighted(input)
    &&& g.nonnegative == weights_nonneg(lines, g.weighted)
    &&& g.vertices@.len() == ls.len()
    &&& (forall|i: int| 0 <= i < g.n() ==> #[trigger] g.label_of(i) == ls[i])
    &&& (forall|u: int|
        0 <= u < g.n() ==> edges_model(#[trigger] g.edges(u)) == edges_upto(
            lines,
            ls,
            g.directed,
            g.weighted,
        )[u])
}


proof fn lemma_nonneg_step(lines: Seq<Seq<char>>, i: int, weighted: bool)
    requires
        0 <= i < lines.len(),
    ensures
        weights_nonneg(lines.take(i + 1), weighted) == (weights_nonneg(lines.take(i), weighted)
            && (line_ok(lines[i]) ==> weight_of(lines[i], weighted) >= 0)),
{
    let pre = lines.take(i);
    let cur = lines.take(i + 1);
    assert(forall|k: int| 0 <= k < pre.len() ==> pre[k] == lines[k]);
    assert(forall|k: int| 0 <= k < cur.len() ==> cur[k] == lines[k]);
    if weights_nonneg(cur, weighted) {
        assert forall|k: int| 0 <= k < pre.len() && line_ok(#[trigger] pre[k]) implies weight_of(
            pre[k],
            weighted,
        ) >= 0 by {
            assert(cur[k] == pre[k]);
        }
        assert(cur[i] == lines[i]);
    }
    if weights_nonneg(pre, weighted) && (line_ok(lines[i]) ==> weight_of(lines[i], weighted)
        >= 0) {
        assert forall|k: int| 0 <= k < cur.len() && line_ok(#[trigger] cur[k]) implies weight_of(
            cur[k],
            weighted,
        ) >= 0 by {
            if k < i {
                assert(pre[k] == cur[k]);
            }
        }
    }
}

/// Bridge from the model-level facts of the fold to the store's
/// well-formedness invariant.
proof fn lemma_assemble_wf(g: AdjacencyList, ls: Seq<Seq<char>>, es: Seq<Seq<(int, int)>>)
    requires
        g.label_table@.len() == g.vertices@.len(),
        ls.len() == g.vertices@.len(),
        es.len() == ls.len(),
        forall|i: int| 0 <= i < g.n() ==> (#[trigger] g.vertices@[i]).idx == i,
        forall|i: int| 0 <= i < g.n() ==> (#[trigger] g.label_table@[i])@ == ls[i],
        forall|i: int| 0 <= i < g.n() ==> (#[trigger] g.vertices@[i]).label@ == ls[i],
        distinct_seqs(ls),
        nonempty_seqs(ls),
        forall|u: int| 0 <= u < g.n() ==> edges_model(#[trigger] g.edges(u)) == es[u],
        m_targets_ok(es, ls.len() as int),
        !g.directed ==> m_sym(es),
        m_dedup(es),
        g.nonnegative ==> m_weights_ok(es),
    ensures
        g.wf(),
{
    assert forall|u: int, k: int|
        0 <= u < g.n() && 0 <= k < g.edges(u).len() implies ((#[trigger] g.edges(
        u,
    )[k]).target_idx < g.n() && (g.nonnegative ==> g.edges(u)[k].weight >= 0)) by {
        assert(edges_model(g.edges(u))[k] == (
            g.edges(u)[k].target_idx as int,
            g.edges(u)[k].weight as int,
        ));
        assert(es[u][k].0 < ls.len());
    }
    assert(g.targets_in_range());
    assert(g.nonnegative_sound());
    if !g.directed {
        assert forall|u: int, k: int|
            0 <= u < g.n() && 0 <= k < g.edges(u).len() implies g.has_edge(
            (#[trigger] g.edges(u)[k]).target_idx as int,
            u,
            g.edges(u)[k].weight as int,
        ) by {
            let t = g.edges(u)[k].target_idx as int;
            let w = g.edges(u)[k].weight as int;
            assert(edges_model(g.edges(u))[k] == (t, w));
            assert(es[u][k] == (t, w));
            assert(m_has(es, t, u, w));
            let k2 = choose|k2: int| 0 <= k2 < es[t].len() && #[trigger] es[t][k2] == (u, w);
            assert(0 <= t < g.n());
            assert(edges_model(g.edges(t))[k2] == (u, w));
            assert((g.edges(t)[k2].target_idx as int, g.edges(t)[k2].weight as int) == (u, w));
            assert(g.edges(t)[k2].target_idx == u && g.edges(t)[k2].weight == w);
        }
        assert(g.symmetric());
    }
    assert forall|u: int, k1: int, k2: int|
        0 <= u < g.n() && 0 <= k1 < g.edges(u).len() && 0 <= k2 < g.edges(u).len() && k1 != k2
            && (#[trigger] g.edges(u)[k1]).target_idx != u implies g.edges(u)[k1].target_idx != (
    #[trigger] g.edges(u)[k2]).target_idx by {
        assert(edges_model(g.edges(u))[k1] == (
            g.edges(u)[k1].target_idx as int,
            g.edges(u)[k1].weight as int,
        ));
        assert(edges_model(g.edges(u))[k2] == (
            g.edges(u)[k2].target_idx as int,
            g.edges(u)[k2].weight as int,
        ));
        assert(es[u][k1].0 != es[u][k2].0);
    }
    assert(g.deduplicated());
}

impl AdjacencyList {
    /// Parse a graph description: an options header line, then one edge
    /// declaration per line. Returns the populated store, or the first
    /// error the two passes encounter.
    #[verifier::loop_isolation(false)]
    #[verifier::rlimit(30)]
    pub fn load(input: &str) -> (r: Result<AdjacencyList, ParseError>)
        ensures
            match r {
                Result::Ok(g) => load_err(input@) is None && g.wf() && loaded_ok(input@, g),
                Result::Err(e) => load_err(input@) == Option::Some(e),
            },
    {
        let chars = collect_chars(input);
        if chars.len() == 0 {
            return Result::Err(ParseError::MalformedHeader);
        }
        let lines = line_ranges(&chars);
        proof {
            lemma_split_len(chars@, '\n');
        }
        let ghost els = edge_lines(chars@);
        proof {
            assert(els.len() == lines@.len() - 1);
        }
        // header options
        let hdr_set: Vec<char> = vec!['[', ']', '\r', '\n'];
        proof {
            assert(hdr_set@ =~= header_trim());
        }
        let (l00, l01) = lines[0];
        let (h0, h1) = trim_range(&chars, l00, l01, &hdr_set);
        proof {
            assert(chars@.subrange(h0 as int, h1 as int) == header_core(chars@));
        }
        let dtok: Vec<char> = vec!['D', 'I', 'R', 'E', 'C', 'T', 'E', 'D'];
        let wtok: Vec<char> = vec!['W', 'E', 'I', 'G', 'H', 'T', 'E', 'D'];
        proof {
            assert(dtok@ =~= directed_token());
            assert(wtok@ =~= weighted_token());
        }
        let directed = header_token(&chars, h0, h1, &dtok);
        let weighted = header_token(&chars, h0, h1, &wtok);
        // first pass: register labels and vertices
        let mut vertices: Vec<Vertex> = Vec::new();
        let mut label_table: Vec<Vec<char>> = Vec::new();
        let mut li: usize = 1;
        while li < lines.len()
            invariant
                1 <= li <= lines@.len(),
                labels_view(label_table@) == labels_upto(els.take(li - 1)),
                vertices@.len() == label_table@.len(),
                forall|i: int|
                    0 <= i < vertices@.len() ==> (#[trigger] vertices@[i]).idx == i
                        && vertices@[i].label@ == labels_view(label_table@)[i]
                        && vertices@[i].edges@.len() == 0,
                forall|k: int| 0 <= k < li - 1 ==> is_blank(#[trigger] els[k]) || line_ok(els[k]),
            decreases lines@.len() - li,
        {
            let (lo, hi) = lines[li];
            let ghost line = els[li - 1];
            proof {
                assert(line == chars@.subrange(lo as int, hi as int));
                lemma_take_step(els, li - 1);
            }
            match classify_line(&chars, lo, hi) {
                LineClass::Blank => {},
                LineClass::Bad => {
                    return Result::Err(ParseError::MalformedEdge);
                },
                LineClass::Decl { a_lo, a_hi, b_lo, b_hi, bidir: _ } => {
                    insert_label(&mut vertices, &mut label_table, &chars, input, a_lo, a_hi);
                    insert_label(&mut vertices, &mut label_table, &chars, input, b_lo, b_hi);
                },
            }
            li = li + 1;
        }
        proof {
            assert(els.take(lines@.len() - 1) =~= els);
            assert(!any_bad(els));
            lemma_labels_complete(els);
            lemma_labels_distinct(els);
        }
        let ghost ls = labels_upto(els);
        // second pass: weights and edges
        let mut nonnegative = true;
        let mut li: usize = 1;
        while li < lines.len()
            invariant
                1 <= li <= lines@.len(),
                vertices@.len() == ls.len(),
                forall|i: int|
                    0 <= i < vertices@.len() ==> (#[trigger] vertices@[i]).idx == i
                        && vertices@[i].label@ == ls[i],
                forall|u: int|
                    0 <= u < vertices@.len() ==> edges_model(#[trigger] vertices@[u].edges@)
                        == edges_upto(els.take(li - 1), ls, directed, weighted)[u],
                nonnegative == weights_nonneg(els.take(li - 1), weighted),
                weighted ==> forall|k: int|
                    0 <= k < li - 1 && line_ok(#[trigger] els[k]) ==> line_weight(els[k]) is Some,
            decreases lines@.len() - li,
        {
            let (lo, hi) = lines[li];
            let ghost line = els[li - 1];
            let ghost st = edges_upto(els.take(li - 1), ls, directed, weighted);
            proof {
                assert(line == chars@.subrange(lo as int, hi as int));
                lemma_take_step(els, li - 1);
                assert forall|i: int|
                    0 <= i < els.take(li - 1).len() && line_ok(
                        #[trigger] els.take(li - 1)[i],
                    ) implies ls.contains(line_a(els.take(li - 1)[i])) && ls.contains(
                    line_b(els.take(li - 1)[i]),
                ) by {
                    assert(els.take(li - 1)[i] == els[i]);
                }
                lemma_edges_wf(els.take(li - 1), ls, directed, weighted);
                assert(edges_upto(els.take(li as int), ls, directed, weighted) == apply_line(
                    st,
                    ls,
                    line,
                    directed,
                    weighted,
                ));
                lemma_nonneg_step(els, li - 1, weighted);
            }
            match classify_line(&chars, lo, hi) {
                LineClass::Blank => {},
                LineClass::Bad => {
                    proof {
                        assert(false);
                    }
                    return Result::Err(ParseError::MalformedEdge);
                },
                LineClass::Decl { a_lo, a_hi, b_lo, b_hi, bidir } => {
                    let mut w: i32 = 0;
                    if weighted {
                        let psemi = find_in(&chars, lo, hi, ';');
                        if psemi == hi {
                            proof {
                                assert(line_weight(line) is None);
                            }
                            return Result::Err(ParseError::MissingWeight);
                        }
                        let p2 = find_in(&chars, psemi + 1, hi, ';');
                        proof {
                            assert(line.skip(psemi - lo + 1) =~= chars@.subrange(
                                psemi + 1,
                                hi as int,
                            ));
                            assert(line.skip(psemi - lo + 1).take(p2 - psemi - 1) =~= chars@.subrange(
                                psemi + 1,
                                p2 as int,
                            ));
                            assert(weight_field(line) == Option::Some(
                                chars@.subrange(psemi + 1, p2 as int),
                            ));
                        }
                        let ws: Vec<char> = vec![' ', '\t'];
                        proof {
                            assert(ws@ =~= ws_trim());
                        }
                        let (w0, w1) = trim_range(&chars, psemi + 1, p2, &ws);
                        match parse_i32_range(&chars, w0, w1) {
                            Option::Some(v) => {
                                w = v;
                                proof {
                                    assert(line_weight(line) == Option::Some(v as int));
                                }
                            },
                            Option::None => {
                                proof {
                                    assert(line_weight(line) is None);
                                }
                                return Result::Err(ParseError::MissingWeight);
                            },
                        }
                        if w < 0 {
                            nonnegative = false;
                        }
                    }
                    proof {
                        assert(weight_of(line, weighted) == w as int);
                    }
                    let xo = lookup_label(&label_table, &chars, a_lo, a_hi);
                    let x = match xo {
                        Option::Some(i) => i,
                        Option::None => {
                            proof {
                                assert(false);
                            }
                            return Result::Err(ParseError::UnknownEndpoint);
                        },
                    };
                    let yo = lookup_label(&label_table, &chars, b_lo, b_hi);
                    let y = match yo {
                        Option::Some(i) => i,
                        Option::None => {
                            proof {
                                assert(false);
                            }
                            return Result::Err(ParseError::UnknownEndpoint);
                        },
                    };
                    proof {
                        assert(x == label_index(ls, line_a(line)));
                        assert(y == label_index(ls, line_b(line)));
                    }
                    let dup = row_has_target(&vertices[x].edges, y);
                    if !dup {
                        let rev_dup = row_has_target(&vertices[y].edges, x);
                        let ghost st1 = st.update(x as int, st[x as int].push((y as int, w as int)));
                        vertices[x].edges.push(Edge { target_idx: y, weight: w });
                        proof {
                            assert(edges_model(vertices@[x as int].edges@) =~= st1[x as int]);
                            assert forall|u: int|
                                0 <= u < vertices@.len() implies edges_model(
                                #[trigger] vertices@[u].edges@,
                            ) == st1[u] by {}
                        }
                        if (!directed || bidir) && !rev_dup {
                            vertices[y].edges.push(Edge { target_idx: x, weight: w });
                            proof {
                                assert(edges_model(vertices@[y as int].edges@) =~= st1.update(
                                    y as int,
                                    st1[y as int].push((x as int, w as int)),
                                )[y as int]);
                            }
                        }
                    }
                },
            }
            li = li + 1;
        }
        proof {
            assert(els.take(lines@.len() - 1) =~= els);
            assert(!any_weight_bad(els, weighted));
        }
        let g = AdjacencyList { vertices, directed, weighted, nonnegative, label_table };
        proof {
            lemma_edges_wf(els, ls, directed, weighted);
            lemma_assemble_wf(g, ls, edges_upto(els, ls, directed, weighted));
        }
        Result::Ok(g)
    }
}

} // verus!
