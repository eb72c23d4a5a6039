use vstd::prelude::*;
use vstd::string::StrSliceExecFns;

verus! {

/// The whitespace that separates tokens.
pub open spec fn is_ws(c: char) -> bool {
    c == ' ' || c == '\t' || c == '\n' || c == '\r'
}

/// A decimal digit.
pub open spec fn is_digit(c: char) -> bool {
    48 <= c as u32 <= 57
}

/// The value of one decimal digit.
pub open spec fn digit_val(c: char) -> nat {
    (c as u32 - 48) as nat
}

/// The first position at or after `i` that does not hold whitespace.
pub open spec fn skip_ws(s: Seq<char>, i: int) -> int
    decreases s.len() - i,
{
    if 0 <= i < s.len() && is_ws(s[i]) {
        skip_ws(s, i + 1)
    } else {
        i
    }
}

/// The first position at or after `i` that ends the token there: the next
/// whitespace, or the end of the line.
pub open spec fn token_end(s: Seq<char>, i: int) -> int
    decreases s.len() - i,
{
    if 0 <= i < s.len() && !is_ws(s[i]) {
        token_end(s, i + 1)
    } else {
        i
    }
}

/// Positions `i` (inclusive) to `j` (exclusive) all hold digits.
pub open spec fn all_digits(s: Seq<char>, i: int, j: int) -> bool {
    forall|k: int| i <= k < j ==> is_digit(#[trigger] s[k])
}

/// The number the digits from `i` to `j` write in decimal.
pub open spec fn token_val(s: Seq<char>, i: int, j: int) -> nat
    decreases j - i,
{
    if j <= i {
        0
    } else {
        token_val(s, i, j - 1) * 10 + digit_val(s[j - 1])
    }
}

/// The next `n` whitespace-separated decimal numbers of `s`, starting at
/// position `i`; nothing if a token is missing or holds a non-digit.
pub open spec fn parse_tokens(s: Seq<char>, i: int, n: nat) -> Option<Seq<nat>>
    decreases n,
{
    if n == 0 {
        Some(Seq::empty())
    } else {
        let j = skip_ws(s, i);
        let e = token_end(s, j);
        if j < e && all_digits(s, j, e) {
            match parse_tokens(s, e, (n - 1) as nat) {
                Some(rest) => Some(seq![token_val(s, j, e)] + rest),
                None => None,
            }
        } else {
            None
        }
    }
}

/// The end of a token never lies before its start.
proof fn lemma_token_end_ge(s: Seq<char>, i: int)
    ensures
        token_end(s, i) >= i,
    decreases s.len() - i,
{
    if 0 <= i < s.len() && !is_ws(s[i]) {
        lemma_token_end_ge(s, i + 1);
    }
}

/// Reads the first `n` whitespace-separated decimal numbers starting at
/// `pos`, or reports that the line has no such reading (a missing token,
/// a stray character, or a number too large for `usize`).
fn parse_rec(line: &str, pos: usize, n: usize) -> (r: Option<Vec<usize>>)
    requires
        pos <= line@.len(),
        line@.len() < usize::MAX,
    ensures
        r matches Some(vs) ==> (parse_tokens(line@, pos as int, n as nat) matches Some(ts)
            && vs@.len() == n && ts.len() == n && (forall|k: int|
            0 <= k < n ==> ts[k] == #[trigger] vs@[k] as nat)),
        r is None ==> (parse_tokens(line@, pos as int, n as nat) matches Some(ts) ==> exists|k: int|
            0 <= k < ts.len() && #[trigger] ts[k] > usize::MAX),
    decreases n,
{
    let ghost s = line@;
    if n == 0 {
        return Some(Vec::new());
    }
    let len = line.unicode_len();
    let mut j = pos;
    while j < len && line.get_char(j) == ' ' || j < len && line.get_char(j) == '\t' || j < len
        && line.get_char(j) == '\n' || j < len && line.get_char(j) == '\r'
        invariant
            pos <= j <= len,
            len == s.len(),
            s == line@,
            skip_ws(s, j as int) == skip_ws(s, pos as int),
        decreases len - j,
    {
        j = j + 1;
    }
    proof {
        assert(skip_ws(s, j as int) == j as int);
    }
    let start = j;
    let mut value: usize = 0;
    let mut overflow = false;
    while j < len && !(line.get_char(j) == ' ' || line.get_char(j) == '\t' || line.get_char(j)
        == '\n' || line.get_char(j) == '\r')
        invariant
            start <= j <= len,
            len == s.len(),
            s == line@,
            1 <= n,
            token_end(s, j as int) == token_end(s, start as int),
            all_digits(s, start as int, j as int),
            skip_ws(s, pos as int) == start,
            !overflow ==> value as nat == token_val(s, start as int, j as int),
            overflow ==> token_val(s, start as int, j as int) > usize::MAX,
        decreases len - j,
    {
        let c = line.get_char(j);
        let code = c as u32;
        if code < 48 || code > 57 {
            proof {
                assert(!is_digit(s[j as int]));
                lemma_token_end_ge(s, j + 1);
                assert(token_end(s, j as int) == token_end(s, j + 1));
                assert(token_end(s, start as int) > j);
                assert(!all_digits(s, start as int, token_end(s, start as int)));
                assert(parse_tokens(s, pos as int, n as nat) is None);
            }
            return None;
        }
        let d = (code - 48) as usize;
        proof {
            assert(token_val(s, start as int, j + 1) == token_val(s, start as int, j as int) * 10
                + digit_val(s[j as int]));
        }
        if overflow || value > (usize::MAX - d) / 10 {
            proof {
                if !overflow {
                    assert(value * 10 + d > usize::MAX) by (nonlinear_arith)
                        requires
                            value > (usize::MAX - d) / 10,
                            usize::MAX - d == 10 * ((usize::MAX - d) / 10) + (usize::MAX - d) % 10,
                            0 <= (usize::MAX - d) % 10 < 10,
                            d <= 9,
                    ;
                } else {
                    assert(token_val(s, start as int, j as int) * 10 + digit_val(s[j as int])
                        > usize::MAX) by (nonlinear_arith)
                        requires
                            token_val(s, start as int, j as int) > usize::MAX,
                    ;
                }
            }
            overflow = true;
        } else {
            value = value * 10 + d;
        }
        j = j + 1;
    }
    proof {
        assert(token_end(s, j as int) == j as int);
    }
    if j == start {
        proof {
            let sk = skip_ws(s, pos as int);
            let te = token_end(s, sk);
            assert(!(sk < te));
        }
        return None;
    }
    if overflow {
        proof {
            let sk = skip_ws(s, pos as int);
            let te = token_end(s, sk);
            let pt = parse_tokens(s, pos as int, n as nat);
            if pt is Some {
                assert(pt->0[0] == token_val(s, sk, te));
                assert(pt->0[0] > usize::MAX);
            }
        }
        return None;
    }
    let rest = parse_rec(line, j, n - 1);
    match rest {
        Some(mut vs) => {
            vs.insert(0, value);
            proof {
                let sk = skip_ws(s, pos as int);
                let te = token_end(s, sk);
                let ts0 = parse_tokens(s, te, (n - 1) as nat);
                assert(parse_tokens(s, pos as int, n as nat) == Some(
                    seq![token_val(s, sk, te)] + ts0->0,
                ));
            }
            Some(vs)
        },
        None => {
            proof {
                let pt = parse_tokens(s, pos as int, n as nat);
                if pt is Some {
                    let sk = skip_ws(s, pos as int);
                    let te = token_end(s, sk);
                    let ts0 = parse_tokens(s, te, (n - 1) as nat);
                    assert(ts0 is Some && pt->0 == seq![token_val(s, sk, te)] + ts0->0);
                    let k = choose|k: int|
                        0 <= k < ts0->0.len() && #[trigger] ts0->0[k] > usize::MAX;
                    assert(pt->0[k + 1] > usize::MAX);
                }
            }
            None
        },
    }
}

/// Reads `n` whitespace-separated decimal numbers from the line; nothing
/// when the line does not start with `n` such numbers, or one of them does
/// not fit.
pub fn parse_values(line: &str, n: usize) -> (r: Option<Vec<usize>>)
    requires
        line@.len() < usize::MAX,
    ensures
        r matches Some(vs) ==> (parse_tokens(line@, 0, n as nat) matches Some(ts) && vs@.len() == n
            && ts.len() == n && (forall|k: int| 0 <= k < n ==> ts[k] == #[trigger] vs@[k] as nat)),
        r is None ==> (parse_tokens(line@, 0, n as nat) matches Some(ts) ==> exists|k: int|
            0 <= k < ts.len() && #[trigger] ts[k] > usize::MAX),
{
    parse_rec(line, 0, n)
}

/// Parse a line into a tuple which has 2 items
pub fn parse_tuple2(line: &str) -> (r: Option<(usize, usize)>)
    requires
        line@.len() < usize::MAX,
    ensures
        r matches Some(p) ==> (parse_tokens(line@, 0, 2) matches Some(ts) && ts.len() == 2
            && ts[0] == p.0 as nat && ts[1] == p.1 as nat),
        r is None ==> (parse_tokens(line@, 0, 2) matches Some(ts) ==> exists|k: int|
            0 <= k < ts.len() && #[trigger] ts[k] > usize::MAX),
{
    match parse_rec(line, 0, 2) {
        Some(vs) => Some((vs[0], vs[1])),
        None => None,
    }
}

/// Parse a line into a tuple which has 3 items
pub fn parse_tuple3(line: &str) -> (r: Option<(usize, usize, usize)>)
    requires
        line@.len() < usize::MAX,
    ensures
        r matches Some(p) ==> (parse_tokens(line@, 0, 3) matches Some(ts) && ts.len() == 3
            && ts[0] == p.0 as nat && ts[1] == p.1 as nat && ts[2] == p.2 as nat),
        r is None ==> (parse_tokens(line@, 0, 3) matches Some(ts) ==> exists|k: int|
            0 <= k < ts.len() && #[trigger] ts[k] > usize::MAX),
{
    match parse_rec(line, 0, 3) {
        Some(vs) => Some((vs[0], vs[1], vs[2])),
        None => None,
    }
}

/// Parse a line into a tuple which has 4 items
pub fn parse_tuple4(line: &str) -> (r: Option<(usize, usize, usize, usize)>)
    requires
        line@.len() < usize::MAX,
    ensures
        r matches Some(p) ==> (parse_tokens(line@, 0, 4) matches Some(ts) && ts.len() == 4
            && ts[0] == p.0 as nat && ts[1] == p.1 as nat && ts[2] == p.2 as nat && ts[3] == p.3
            as nat),
        r is None ==> (parse_tokens(line@, 0, 4) matches Some(ts) ==> exists|k: int|
            0 <= k < ts.len() && #[trigger] ts[k] > usize::MAX),
{
    match parse_rec(line, 0, 4) {
        Some(vs) => Some((vs[0], vs[1], vs[2], vs[3])),
        None => None,
    }
}

} // verus!
