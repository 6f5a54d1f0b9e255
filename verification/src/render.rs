//! Rendering walks as polyline strokes of a vector-image document, and the
//! path-data text format the strokes carry.

use crate::grid::{all_fillable_visited, same_occupancy, visited_monotone, Grid};
use crate::rng::RandomSource;
use crate::walks::{generate_walks, walk_ok, Walk};
use vstd::prelude::*;
use vstd::string::StrSliceExecFns;
use vstd::string::StringExecFns;

verus! {

/// Size of one grid cell in output pixels: grid coordinates are scaled by
/// this factor.
pub const CELL_SIZE: usize = 10;

/// The character for one decimal digit.
pub open spec fn dec_digit(d: nat) -> char {
    if d == 0 {
        '0'
    } else if d == 1 {
        '1'
    } else if d == 2 {
        '2'
    } else if d == 3 {
        '3'
    } else if d == 4 {
        '4'
    } else if d == 5 {
        '5'
    } else if d == 6 {
        '6'
    } else if d == 7 {
        '7'
    } else if d == 8 {
        '8'
    } else {
        '9'
    }
}

/// The decimal representation of `n`, most significant digit first, with no
/// leading zeros (a single `'0'` for zero).
pub open spec fn dec_rep(n: nat) -> Seq<char>
    decreases n,
{
    if n < 10 {
        seq![dec_digit(n)]
    } else {
        dec_rep(n / 10).push(dec_digit(n % 10))
    }
}

/// The text of one coordinate pair: `x`, a comma, `y`.
pub open spec fn coord_rep(p: (usize, usize)) -> Seq<char> {
    dec_rep(p.0 as nat) + seq![','] + dec_rep(p.1 as nat)
}

/// The text of the line commands for the points of `pts` from index `i` on:
/// `" L"` and a coordinate pair for each.
pub open spec fn lines_rep(pts: Seq<(usize, usize)>, i: int) -> Seq<char>
    decreases pts.len() - i,
{
    if i < 1 || i >= pts.len() {
        Seq::empty()
    } else {
        seq![' ', 'L'] + coord_rep(pts[i]) + lines_rep(pts, i + 1)
    }
}

/// The path-data string of a polyline: a move to the first point, then a
/// line to each further point.
pub open spec fn path_data_spec(pts: Seq<(usize, usize)>) -> Seq<char> {
    seq!['M'] + coord_rep(pts[0]) + lines_rep(pts, 1)
}

/// The digits collected by repeated division, read back most significant
/// first.
pub open spec fn rev_chars(ds: Seq<usize>) -> Seq<char> {
    Seq::new(ds.len(), |i: int| dec_digit(ds[ds.len() - 1 - i] as nat))
}

/// The one-character string for a decimal digit.
fn digit_str(d: usize) -> (r: &'static str)
    requires
        d < 10,
    ensures
        r@ == seq![dec_digit(d as nat)],
{
    proof {
        reveal_strlit("0");
        reveal_strlit("1");
        reveal_strlit("2");
        reveal_strlit("3");
        reveal_strlit("4");
        reveal_strlit("5");
        reveal_strlit("6");
        reveal_strlit("7");
        reveal_strlit("8");
        reveal_strlit("9");
    }
    let r = if d == 0 {
        "0"
    } else if d == 1 {
        "1"
    } else if d == 2 {
        "2"
    } else if d == 3 {
        "3"
    } else if d == 4 {
        "4"
    } else if d == 5 {
        "5"
    } else if d == 6 {
        "6"
    } else if d == 7 {
        "7"
    } else if d == 8 {
        "8"
    } else {
        "9"
    };
    proof {
        assert(r@ =~= seq![dec_digit(d as nat)]);
    }
    r
}

/// Appends the decimal representation of `n` to `out`.
fn push_decimal(out: &mut String, n: usize)
    ensures
        final(out)@ == old(out)@ + dec_rep(n as nat),
{
    let mut digits: Vec<usize> = Vec::new();
    let mut m = n;
    digits.push(m % 10);
    m = m / 10;
    proof {
        if m == 0 {
            assert(dec_rep(n as nat) =~= rev_chars(digits@));
        } else {
            assert(dec_rep(n as nat) == dec_rep(m as nat).push(dec_digit((n % 10) as nat)));
            assert(dec_rep(n as nat) =~= dec_rep(m as nat) + rev_chars(digits@));
        }
    }
    while m > 0
        invariant
            forall|k: int| 0 <= k < digits@.len() ==> (#[trigger] digits@[k]) < 10,
            digits@.len() >= 1,
            m == 0 ==> dec_rep(n as nat) == rev_chars(digits@),
            m > 0 ==> dec_rep(n as nat) == dec_rep(m as nat) + rev_chars(digits@),
        decreases m,
    {
        let d = m % 10;
        proof {
            assert(rev_chars(digits@.push(d)) =~= seq![dec_digit(d as nat)] + rev_chars(digits@));
            if m >= 10 {
                assert(dec_rep(m as nat) == dec_rep((m / 10) as nat).push(dec_digit(d as nat)));
                assert(dec_rep((m / 10) as nat).push(dec_digit(d as nat)) =~= dec_rep(
                    (m / 10) as nat,
                ) + seq![dec_digit(d as nat)]);
                assert((dec_rep((m / 10) as nat) + seq![dec_digit(d as nat)]) + rev_chars(digits@)
                    =~= dec_rep((m / 10) as nat) + (seq![dec_digit(d as nat)] + rev_chars(
                    digits@,
                )));
            } else {
                assert(dec_rep(m as nat) =~= seq![dec_digit(d as nat)]);
            }
        }
        digits.push(d);
        m = m / 10;
    }
    let ghost rep = dec_rep(n as nat);
    let ghost out0 = old(out)@;
    let len = digits.len();
    let mut k: usize = 0;
    proof {
        assert(out@ + rep.take(0) =~= out@);
    }
    while k < len
        invariant
            len == digits@.len(),
            forall|kk: int| 0 <= kk < digits@.len() ==> (#[trigger] digits@[kk]) < 10,
            rep == rev_chars(digits@),
            k <= len,
            out@ == out0 + rep.take(k as int),
        decreases len - k,
    {
        let d = digits[len - 1 - k];
        let s = digit_str(d);
        proof {
            assert(rep[k as int] == dec_digit(digits@[len - 1 - k] as nat));
            assert((out0 + rep.take(k as int)) + s@ =~= out0 + rep.take(k as int + 1));
        }
        out.append(s);
        k = k + 1;
    }
    proof {
        assert(rep.take(len as int) =~= rep);
    }
}

/// Appends the coordinate-pair text of `p` to `out`.
fn push_coord(out: &mut String, p: (usize, usize))
    ensures
        final(out)@ == old(out)@ + coord_rep(p),
{
    let ghost out0 = old(out)@;
    push_decimal(out, p.0);
    proof {
        reveal_strlit(",");
    }
    out.append(",");
    push_decimal(out, p.1);
    proof {
        assert(","@ =~= seq![',']);
        assert(((out0 + dec_rep(p.0 as nat)) + seq![',']) + dec_rep(p.1 as nat) =~= out0
            + coord_rep(p));
    }
}

/// Appends the line commands for the points of `pts` from index `i` on.
fn append_lines(out: &mut String, pts: &Vec<(usize, usize)>, i: usize)
    requires
        i >= 1,
    ensures
        final(out)@ == old(out)@ + lines_rep(pts@, i as int),
    decreases pts@.len() - i,
{
    let ghost out0 = old(out)@;
    if i < pts.len() {
        proof {
            reveal_strlit(" L");
        }
        out.append(" L");
        push_coord(out, pts[i]);
        append_lines(out, pts, i + 1);
        proof {
            assert(" L"@ =~= seq![' ', 'L']);
            assert(((out0 + seq![' ', 'L']) + coord_rep(pts@[i as int])) + lines_rep(
                pts@,
                i as int + 1,
            ) =~= out0 + lines_rep(pts@, i as int));
        }
    } else {
        proof {
            assert(lines_rep(pts@, i as int) =~= Seq::<char>::empty());
            assert(out0 + lines_rep(pts@, i as int) =~= out0);
        }
    }
}

/// Builds the path-data string for a polyline: `"M"` and the first point,
/// then `" L"` and a point for each further point.
pub fn path_data(pts: &Vec<(usize, usize)>) -> (s: String)
    requires
        pts@.len() >= 1,
    ensures
        s@ == path_data_spec(pts@),
{
    let mut s = String::new();
    proof {
        reveal_strlit("M");
    }
    s.append("M");
    push_coord(&mut s, pts[0]);
    append_lines(&mut s, pts, 1);
    proof {
        assert("M"@ =~= seq!['M']);
        assert(((Seq::<char>::empty() + seq!['M']) + coord_rep(pts@[0])) + lines_rep(pts@, 1)
            =~= path_data_spec(pts@));
    }
    s
}

/// The character is a decimal digit.
pub open spec fn is_digit(c: char) -> bool {
    ||| c == '0'
    ||| c == '1'
    ||| c == '2'
    ||| c == '3'
    ||| c == '4'
    ||| c == '5'
    ||| c == '6'
    ||| c == '7'
    ||| c == '8'
    ||| c == '9'
}

/// The value of a decimal digit character.
pub open spec fn digit_val(c: char) -> nat {
    if c == '0' {
        0
    } else if c == '1' {
        1
    } else if c == '2' {
        2
    } else if c == '3' {
        3
    } else if c == '4' {
        4
    } else if c == '5' {
        5
    } else if c == '6' {
        6
    } else if c == '7' {
        7
    } else if c == '8' {
        8
    } else {
        9
    }
}

/// Folds the maximal run of digits from position `i` into `acc`; yields the
/// value and the first position after the run.
pub open spec fn parse_num(s: Seq<char>, i: int, acc: nat) -> (nat, int)
    decreases s.len() - i,
{
    if 0 <= i < s.len() && is_digit(s[i]) {
        parse_num(s, i + 1, acc * 10 + digit_val(s[i]))
    } else {
        (acc, i)
    }
}

/// Parses one coordinate pair (digits, a comma, digits) at `i`: the two
/// values and the position after, or `None` when digits or the comma are
/// missing.
pub open spec fn parse_pair(s: Seq<char>, i: int) -> Option<(nat, nat, int)> {
    let (x, j) = parse_num(s, i, 0);
    if j == i {
        None
    } else if j < s.len() && s[j] == ',' {
        let (y, k) = parse_num(s, j + 1, 0);
        if k == j + 1 {
            None
        } else {
            Some((x, y, k))
        }
    } else {
        None
    }
}

/// Parses the remaining `" L"` line commands from `i` on, accumulating the
/// coordinate pairs onto `acc`.
pub open spec fn parse_lines(s: Seq<char>, i: int, acc: Seq<(nat, nat)>) -> Option<Seq<(nat, nat)>>
    decreases s.len() - i,
{
    if i == s.len() {
        Some(acc)
    } else if 0 <= i && i + 2 <= s.len() && s[i] == ' ' && s[i + 1] == 'L' {
        match parse_pair(s, i + 2) {
            Some((x, y, k)) => if i < k <= s.len() {
                parse_lines(s, k, acc.push((x, y)))
            } else {
                None
            },
            None => None,
        }
    } else {
        None
    }
}

/// Parses a whole path-data string: a move command, then line commands to
/// the end. Yields the coordinate pairs in order.
pub open spec fn spec_parse(s: Seq<char>) -> Option<Seq<(nat, nat)>> {
    if s.len() >= 1 && s[0] == 'M' {
        match parse_pair(s, 1) {
            Some((x, y, k)) => if 1 < k <= s.len() {
                parse_lines(s, k, seq![(x, y)])
            } else {
                None
            },
            None => None,
        }
    } else {
        None
    }
}

/// The coordinate pairs of `pts` as unbounded values.
pub open spec fn nat_pairs(pts: Seq<(usize, usize)>) -> Seq<(nat, nat)> {
    Seq::new(pts.len(), |k: int| (pts[k].0 as nat, pts[k].1 as nat))
}

/// A digit run ends at or before the end of the text, and folding never
/// lowers the accumulator.
proof fn lemma_parse_num_bounds(s: Seq<char>, i: int, acc: nat)
    requires
        0 <= i <= s.len(),
    ensures
        i <= parse_num(s, i, acc).1 <= s.len(),
        parse_num(s, i, acc).0 >= acc,
    decreases s.len() - i,
{
    if i < s.len() && is_digit(s[i]) {
        lemma_parse_num_bounds(s, i + 1, acc * 10 + digit_val(s[i]));
    }
}

/// Where a digit run ends does not depend on the accumulator.
proof fn lemma_parse_num_end_indep(s: Seq<char>, i: int, a: nat, b: nat)
    requires
        0 <= i <= s.len(),
    ensures
        parse_num(s, i, a).1 == parse_num(s, i, b).1,
    decreases s.len() - i,
{
    if i < s.len() && is_digit(s[i]) {
        lemma_parse_num_end_indep(s, i + 1, a * 10 + digit_val(s[i]), b * 10 + digit_val(s[i]));
    }
}

/// Left fold of digit characters into a value.
pub open spec fn num_val(d: Seq<char>, acc: nat) -> nat
    decreases d.len(),
{
    if d.len() == 0 {
        acc
    } else {
        num_val(d.subrange(1, d.len() as int), acc * 10 + digit_val(d[0]))
    }
}

/// Folding one more digit multiplies the folded value by ten and adds it.
proof fn lemma_num_val_push(d: Seq<char>, c: char, acc: nat)
    ensures
        num_val(d.push(c), acc) == num_val(d, acc) * 10 + digit_val(c),
    decreases d.len(),
{
    if d.len() == 0 {
        let t = d.push(c).subrange(1, d.push(c).len() as int);
        assert(t =~= Seq::<char>::empty());
        assert(d.push(c)[0] == c);
        assert(num_val(d.push(c), acc) == num_val(t, acc * 10 + digit_val(c)));
        assert(num_val(t, acc * 10 + digit_val(c)) == acc * 10 + digit_val(c));
    } else {
        let t = d.push(c).subrange(1, d.push(c).len() as int);
        assert(t =~= d.subrange(1, d.len() as int).push(c));
        assert(d.push(c)[0] == d[0]);
        assert(num_val(d.push(c), acc) == num_val(t, acc * 10 + digit_val(d[0])));
        assert(num_val(d, acc) == num_val(d.subrange(1, d.len() as int), acc * 10 + digit_val(d[0])));
        lemma_num_val_push(d.subrange(1, d.len() as int), c, acc * 10 + digit_val(d[0]));
    }
}

/// Folding the decimal representation of `n` from zero gives back `n`.
proof fn lemma_num_val_dec_rep(n: nat)
    ensures
        num_val(dec_rep(n), 0) == n,
    decreases n,
{
    if n < 10 {
        let d0 = dec_rep(n);
        assert(d0 == seq![dec_digit(n)]);
        let t = d0.subrange(1, d0.len() as int);
        assert(t =~= Seq::<char>::empty());
        assert(digit_val(dec_digit(n)) == n);
        assert(num_val(d0, 0) == num_val(t, 0 * 10 + digit_val(d0[0])));
        assert(num_val(t, 0 * 10 + digit_val(d0[0])) == digit_val(dec_digit(n)));
    } else {
        lemma_num_val_dec_rep(n / 10);
        assert(dec_rep(n) == dec_rep(n / 10).push(dec_digit(n % 10)));
        lemma_num_val_push(dec_rep(n / 10), dec_digit(n % 10), 0);
        assert(digit_val(dec_digit(n % 10)) == n % 10);
        vstd::arithmetic::div_mod::lemma_fundamental_div_mod(n as int, 10);
    }
}

/// A decimal representation is non-empty and all digits.
proof fn lemma_dec_rep_digits(n: nat)
    ensures
        dec_rep(n).len() >= 1,
        forall|k: int| 0 <= k < dec_rep(n).len() ==> is_digit(#[trigger] dec_rep(n)[k]),
    decreases n,
{
    if n >= 10 {
        lemma_dec_rep_digits(n / 10);
    }
}

/// Scanning a known digit block followed by a non-digit (or the end) folds
/// exactly that block.
proof fn lemma_parse_num_digits(s: Seq<char>, i: int, d: Seq<char>, acc: nat)
    requires
        0 <= i,
        i + d.len() <= s.len(),
        forall|k: int| 0 <= k < d.len() ==> is_digit(#[trigger] d[k]) && s[i + k] == d[k],
        i + d.len() == s.len() || !is_digit(s[i + d.len()]),
    ensures
        parse_num(s, i, acc) == (num_val(d, acc), i + d.len()),
    decreases d.len(),
{
    if d.len() == 0 {
    } else {
        assert(s[i] == d[0]);
        let tail = d.subrange(1, d.len() as int);
        assert forall|k: int| 0 <= k < tail.len() implies is_digit(#[trigger] tail[k]) && s[i + 1
            + k] == tail[k] by {
            assert(tail[k] == d[k + 1]);
            assert(s[i + (k + 1)] == d[k + 1]);
        }
        lemma_parse_num_digits(s, i + 1, tail, acc * 10 + digit_val(d[0]));
    }
}

/// Parsing a pair at the start of a coordinate text followed by a non-digit
/// (or the end) yields exactly the pair's values.
proof fn lemma_parse_pair_rt(s: Seq<char>, i: int, p: (usize, usize))
    requires
        0 <= i,
        i + coord_rep(p).len() <= s.len(),
        forall|k: int| 0 <= k < coord_rep(p).len() ==> s[i + k] == #[trigger] coord_rep(p)[k],
        i + coord_rep(p).len() == s.len() || !is_digit(s[i + coord_rep(p).len()]),
    ensures
        parse_pair(s, i) == Some((p.0 as nat, p.1 as nat, i + coord_rep(p).len())),
{
    let dx = dec_rep(p.0 as nat);
    let dy = dec_rep(p.1 as nat);
    lemma_dec_rep_digits(p.0 as nat);
    lemma_dec_rep_digits(p.1 as nat);
    assert forall|k: int| 0 <= k < dx.len() implies is_digit(#[trigger] dx[k]) && s[i + k]
        == dx[k] by {
        assert(coord_rep(p)[k] == dx[k]);
        assert(s[i + k] == coord_rep(p)[k]);
    }
    assert(coord_rep(p)[dx.len() as int] == ',');
    assert(s[i + dx.len()] == ',');
    assert(!is_digit(','));
    lemma_parse_num_digits(s, i, dx, 0);
    lemma_num_val_dec_rep(p.0 as nat);
    let j = i + dx.len();
    assert forall|k: int| 0 <= k < dy.len() implies is_digit(#[trigger] dy[k]) && s[j + 1 + k]
        == dy[k] by {
        assert(coord_rep(p)[dx.len() + 1 + k] == dy[k]);
        assert(s[i + (dx.len() + 1 + k)] == coord_rep(p)[dx.len() + 1 + k]);
    }
    assert(j + 1 + dy.len() == i + coord_rep(p).len());
    lemma_parse_num_digits(s, j + 1, dy, 0);
    lemma_num_val_dec_rep(p.1 as nat);
}

/// Indexing into a known suffix of a text.
proof fn lemma_suffix_index(s: Seq<char>, pos: int, t: Seq<char>, k: int)
    requires
        0 <= pos <= s.len(),
        s.subrange(pos, s.len() as int) == t,
        0 <= k < t.len(),
    ensures
        s[pos + k] == t[k],
{
    assert(s.subrange(pos, s.len() as int)[k] == s[pos + k]);
}

/// Parsing the line commands of a polyline's tail reconstructs all its
/// pairs.
proof fn lemma_parse_lines_rt(
    s: Seq<char>,
    pts: Seq<(usize, usize)>,
    i: int,
    pos: int,
    acc: Seq<(nat, nat)>,
)
    requires
        1 <= i <= pts.len(),
        0 <= pos <= s.len(),
        s.subrange(pos, s.len() as int) == lines_rep(pts, i),
        acc == nat_pairs(pts.take(i)),
    ensures
        parse_lines(s, pos, acc) == Some(nat_pairs(pts)),
    decreases pts.len() - i,
{
    if i == pts.len() {
        assert(lines_rep(pts, i).len() == 0);
        assert(pos == s.len());
        assert(pts.take(i) =~= pts);
    } else {
        let seg = seq![' ', 'L'] + coord_rep(pts[i]);
        let rest = lines_rep(pts, i + 1);
        let suffix = lines_rep(pts, i);
        assert(suffix =~= seg + rest);
        assert(s.len() - pos == suffix.len());
        lemma_suffix_index(s, pos, suffix, 0);
        assert(suffix[0] == ' ');
        assert(s[pos] == ' ');
        lemma_suffix_index(s, pos, suffix, 1);
        assert(suffix[1] == 'L');
        assert(s[pos + 1] == 'L');
        let clen = coord_rep(pts[i]).len() as int;
        assert forall|k: int| 0 <= k < clen implies s[pos + 2 + k] == #[trigger] coord_rep(
            pts[i],
        )[k] by {
            lemma_suffix_index(s, pos, suffix, 2 + k);
            assert(suffix[2 + k] == coord_rep(pts[i])[k]);
            assert(pos + 2 + k == pos + (2 + k));
        }
        if i + 1 == pts.len() {
            assert(rest.len() == 0);
            assert(pos + 2 + clen == s.len());
        } else {
            assert(rest[0] == ' ');
            lemma_suffix_index(s, pos, suffix, seg.len() as int);
            assert(suffix[seg.len() as int] == rest[0]);
            assert(pos + 2 + clen == pos + seg.len());
            assert(!is_digit(' '));
        }
        lemma_parse_pair_rt(s, pos + 2, pts[i]);
        let k_next: int = pos + seg.len() as int;
        assert(s.subrange(k_next, s.len() as int) =~= rest) by {
            assert forall|k: int| 0 <= k < s.len() - k_next implies s.subrange(
                k_next,
                s.len() as int,
            )[k] == rest[k] by {
                lemma_suffix_index(s, pos, suffix, seg.len() + k);
                assert(suffix[seg.len() + k] == rest[k]);
                assert(s.subrange(k_next, s.len() as int)[k] == s[k_next + k]);
                assert(k_next + k == pos + (seg.len() + k));
            }
        }
        assert(acc.push((pts[i].0 as nat, pts[i].1 as nat)) =~= nat_pairs(pts.take(i + 1))) by {
            assert forall|k: int| 0 <= k < i + 1 implies acc.push(
                (pts[i].0 as nat, pts[i].1 as nat),
            )[k] == nat_pairs(pts.take(i + 1))[k] by {
                if k < i {
                    assert(acc[k] == nat_pairs(pts.take(i))[k]);
                    assert(pts.take(i)[k] == pts[k]);
                    assert(pts.take(i + 1)[k] == pts[k]);
                }
            }
        }
        lemma_parse_lines_rt(s, pts, i + 1, k_next, acc.push((pts[i].0 as nat, pts[i].1 as nat)));
    }
}

/// Round trip: parsing the path-data string of a polyline reconstructs
/// exactly its coordinate sequence.
pub proof fn lemma_path_data_round_trip(pts: Seq<(usize, usize)>)
    requires
        pts.len() >= 1,
    ensures
        spec_parse(path_data_spec(pts)) == Some(nat_pairs(pts)),
{
    let s = path_data_spec(pts);
    let c0 = coord_rep(pts[0]);
    let rest = lines_rep(pts, 1);
    let cat = seq!['M'] + c0 + rest;
    assert(s == cat);
    assert(cat[0] == 'M');
    assert(s[0] == 'M');
    assert forall|k: int| 0 <= k < c0.len() implies s[1 + k] == #[trigger] c0[k] by {
        assert(cat[1 + k] == c0[k]);
    }
    if pts.len() == 1 {
        assert(rest.len() == 0);
        assert(1 + c0.len() == s.len());
    } else {
        assert(rest[0] == ' ');
        assert(cat[1 + c0.len() as int] == rest[0]);
        assert(s[1 + c0.len() as int] == rest[0]);
        assert(!is_digit(' '));
    }
    lemma_parse_pair_rt(s, 1, pts[0]);
    let k0: int = 1 + c0.len() as int;
    assert(s.subrange(k0, s.len() as int) =~= rest) by {
        assert forall|k: int| 0 <= k < s.len() - k0 implies s.subrange(k0, s.len() as int)[k]
            == rest[k] by {
            assert(cat[k0 + k] == rest[k]);
            assert(s.subrange(k0, s.len() as int)[k] == s[k0 + k]);
        }
    }
    assert(seq![(pts[0].0 as nat, pts[0].1 as nat)] =~= nat_pairs(pts.take(1)));
    lemma_parse_lines_rt(s, pts, 1, k0, seq![(pts[0].0 as nat, pts[0].1 as nat)]);
}

/// The character is a decimal digit.
fn is_digit_char(c: char) -> (r: bool)
    ensures
        r == is_digit(c),
{
    c == '0' || c == '1' || c == '2' || c == '3' || c == '4' || c == '5' || c == '6' || c == '7'
        || c == '8' || c == '9'
}

/// The value of a decimal digit character.
fn digit_value(c: char) -> (v: usize)
    requires
        is_digit(c),
    ensures
        v as nat == digit_val(c),
        v < 10,
{
    if c == '0' {
        0
    } else if c == '1' {
        1
    } else if c == '2' {
        2
    } else if c == '3' {
        3
    } else if c == '4' {
        4
    } else if c == '5' {
        5
    } else if c == '6' {
        6
    } else if c == '7' {
        7
    } else if c == '8' {
        8
    } else {
        9
    }
}

/// Scans the maximal digit run from `i`: the position after the run, and
/// the folded value when it fits in `usize`.
fn scan_num(s: &str, i: usize) -> (r: (Option<usize>, usize))
    requires
        i <= s@.len(),
    ensures
        i <= r.1 <= s@.len(),
        r.1 as int == parse_num(s@, i as int, 0).1,
        r.0 matches Some(v) ==> v as nat == parse_num(s@, i as int, 0).0,
        r.0 is None ==> parse_num(s@, i as int, 0).0 > usize::MAX,
{
    let n = s.unicode_len();
    let mut j = i;
    let mut acc: usize = 0;
    let mut overflow = false;
    let mut done = false;
    while !done
        invariant
            i <= j <= n,
            n == s@.len(),
            !overflow ==> parse_num(s@, i as int, 0) == parse_num(s@, j as int, acc as nat),
            overflow ==> parse_num(s@, i as int, 0).1 == parse_num(s@, j as int, 0).1,
            overflow ==> parse_num(s@, i as int, 0).0 > usize::MAX,
            done ==> (j == n || !is_digit(s@[j as int])),
        decreases n - j + (if done {
            0int
        } else {
            1int
        }),
    {
        if j == n {
            done = true;
        } else {
            let c = s.get_char(j);
            if !is_digit_char(c) {
                done = true;
            } else {
                let d = digit_value(c);
                if !overflow && acc <= (usize::MAX - d) / 10 {
                    proof {
                        vstd::arithmetic::div_mod::lemma_fundamental_div_mod(
                            (usize::MAX - d) as int,
                            10,
                        );
                        assert(acc * 10 + d <= usize::MAX);
                    }
                    acc = acc * 10 + d;
                } else {
                    proof {
                        let dv = digit_val(s@[j as int]);
                        if !overflow {
                            vstd::arithmetic::div_mod::lemma_fundamental_div_mod(
                                (usize::MAX - d) as int,
                                10,
                            );
                            assert(acc as nat * 10 + dv > usize::MAX);
                            lemma_parse_num_bounds(s@, j as int + 1, acc as nat * 10 + dv);
                            lemma_parse_num_end_indep(s@, j as int + 1, acc as nat * 10 + dv, 0);
                        } else {
                            lemma_parse_num_end_indep(s@, j as int + 1, dv, 0);
                        }
                    }
                    overflow = true;
                }
                j = j + 1;
            }
        }
    }
    if overflow {
        (None, j)
    } else {
        (Some(acc), j)
    }
}

/// Parses one coordinate pair at `i`: `None` when the text has no pair
/// there; otherwise the position after it, and the values when both fit in
/// `usize`.
fn parse_pair_exec(s: &str, i: usize) -> (r: Option<(Option<(usize, usize)>, usize)>)
    requires
        i <= s@.len(),
    ensures
        r is None ==> parse_pair(s@, i as int) is None,
        r matches Some(rr) ==> {
            &&& parse_pair(s@, i as int) matches Some(t)
            &&& t.2 == rr.1 as int
            &&& i < rr.1 <= s@.len()
            &&& (rr.0 matches Some(p) ==> t.0 == p.0 as nat && t.1 == p.1 as nat)
            &&& (rr.0 is None ==> t.0 > usize::MAX || t.1 > usize::MAX)
        },
{
    let n = s.unicode_len();
    let (xv, j) = scan_num(s, i);
    if j == i {
        return None;
    }
    if j == n {
        return None;
    }
    let c = s.get_char(j);
    if c != ',' {
        return None;
    }
    let (yv, k) = scan_num(s, j + 1);
    if k == j + 1 {
        return None;
    }
    let v = match (xv, yv) {
        (Some(a), Some(b)) => Some((a, b)),
        _ => None,
    };
    Some((v, k))
}

/// Some parsed coordinate value does not fit in `usize`.
pub open spec fn has_oversized(vals: Seq<(nat, nat)>) -> bool {
    exists|k: int|
        0 <= k < vals.len() && ((#[trigger] vals[k]).0 > usize::MAX || vals[k].1 > usize::MAX)
}

/// Parses a path-data string back into its coordinate pairs. Yields the
/// pairs exactly when the text is well-formed and every value fits in
/// `usize`; a well-formed text with an oversized value yields `None`, as
/// does a malformed one.
pub fn parse_path_data(s: &str) -> (r: Option<Vec<(usize, usize)>>)
    ensures
        spec_parse(s@) is None ==> r is None,
        r matches Some(v) ==> spec_parse(s@) == Some(nat_pairs(v@)),
        spec_parse(s@) matches Some(vals) ==> (r is None ==> has_oversized(vals)),
{
    let n = s.unicode_len();
    if n == 0 {
        return None;
    }
    if s.get_char(0) != 'M' {
        return None;
    }
    let first = match parse_pair_exec(s, 1) {
        None => {
            return None;
        },
        Some(rr) => rr,
    };
    let k0 = first.1;
    let ghost t0: (nat, nat, int) = choose|t: (nat, nat, int)| parse_pair(s@, 1) == Some(t);
    let ghost mut acc_spec: Seq<(nat, nat)> = seq![(t0.0, t0.1)];
    proof {
        assert(spec_parse(s@) == parse_lines(s@, k0 as int, acc_spec));
    }
    let mut out: Vec<(usize, usize)> = Vec::new();
    let mut missing = false;
    match first.0 {
        Some(p) => {
            out.push(p);
            proof {
                assert(nat_pairs(out@) =~= acc_spec);
            }
        },
        None => {
            proof {
                assert(acc_spec[0] == (t0.0, t0.1));
            }
            missing = true;
        },
    }
    let mut pos = k0;
    while pos < n
        invariant
            pos <= n,
            n == s@.len(),
            spec_parse(s@) == parse_lines(s@, pos as int, acc_spec),
            !missing ==> nat_pairs(out@) == acc_spec,
            missing ==> has_oversized(acc_spec),
        decreases n - pos,
    {
        if n - pos < 2 {
            proof {
                assert(parse_lines(s@, pos as int, acc_spec) is None);
            }
            return None;
        }
        let c1 = s.get_char(pos);
        let c2 = s.get_char(pos + 1);
        if c1 != ' ' || c2 != 'L' {
            proof {
                assert(parse_lines(s@, pos as int, acc_spec) is None);
            }
            return None;
        }
        let pr = match parse_pair_exec(s, pos + 2) {
            None => {
                proof {
                    assert(parse_lines(s@, pos as int, acc_spec) is None);
                }
                return None;
            },
            Some(rr) => rr,
        };
        let ghost t: (nat, nat, int) = choose|t: (nat, nat, int)|
            parse_pair(s@, pos as int + 2) == Some(t);
        let ghost acc_before = acc_spec;
        proof {
            acc_spec = acc_spec.push((t.0, t.1));
            assert(parse_lines(s@, pos as int, acc_before) == parse_lines(s@, t.2, acc_spec));
            if missing {
                let kw = choose|k: int|
                    0 <= k < acc_before.len() && ((#[trigger] acc_before[k]).0 > usize::MAX
                        || acc_before[k].1 > usize::MAX);
                assert(acc_spec[kw] == acc_before[kw]);
                assert(has_oversized(acc_spec));
            }
        }
        match pr.0 {
            Some(p) => {
                if !missing {
                    out.push(p);
                    proof {
                        assert(nat_pairs(out@) =~= acc_spec);
                    }
                }
            },
            None => {
                proof {
                    assert(acc_spec[acc_spec.len() - 1] == (t.0, t.1));
                }
                missing = true;
            },
        }
        pos = pr.1;
    }
    proof {
        assert(parse_lines(s@, pos as int, acc_spec) == Some(acc_spec));
        assert(spec_parse(s@) == Some(acc_spec));
        if !missing {
            assert(nat_pairs(out@) == acc_spec);
        }
    }
    if missing {
        None
    } else {
        Some(out)
    }
}

/// A drawable polyline: a walk's coordinates scaled by `CELL_SIZE`, and the
/// path-data string that encodes exactly those scaled coordinates.
pub struct Stroke {
    pub points: Vec<(usize, usize)>,
    pub path_data: String,
}

/// `spts` is `pts` scaled by the cell size, pointwise.
pub open spec fn scaled_points(pts: Seq<(usize, usize)>, spts: Seq<(usize, usize)>) -> bool {
    &&& spts.len() == pts.len()
    &&& forall|i: int|
        0 <= i < pts.len() ==> (#[trigger] spts[i]).0 == pts[i].0 * CELL_SIZE && spts[i].1
            == pts[i].1 * CELL_SIZE
}

/// The output document: pixel dimensions and the strokes in generation
/// order. Every stroke is drawn with no fill, black stroke colour and
/// stroke width one; only the geometry varies, so only it is modelled.
pub struct Document {
    pub width: usize,
    pub height: usize,
    pub strokes: Vec<Stroke>,
}

/// The stroke faithfully renders some valid walk over `g`.
pub open spec fn stroke_ok(g: Grid, st: Stroke) -> bool {
    exists|pts: Seq<(usize, usize)>|
        #[trigger] walk_ok(g, pts) && scaled_points(pts, st.points@) && st.path_data@
            == path_data_spec(st.points@)
}

/// Renders one walk: scales each coordinate by the cell size and encodes
/// the scaled polyline as a path-data string.
pub fn render_walk(w: &Walk) -> (st: Stroke)
    requires
        w.points@.len() >= 1,
        forall|i: int|
            0 <= i < w.points@.len() ==> (#[trigger] w.points@[i]).0 * CELL_SIZE <= usize::MAX
                && w.points@[i].1 * CELL_SIZE <= usize::MAX,
    ensures
        scaled_points(w.points@, st.points@),
        st.path_data@ == path_data_spec(st.points@),
{
    let mut spts: Vec<(usize, usize)> = Vec::new();
    let mut i: usize = 0;
    while i < w.points.len()
        invariant
            i <= w.points@.len(),
            forall|k: int|
                0 <= k < w.points@.len() ==> (#[trigger] w.points@[k]).0 * CELL_SIZE <= usize::MAX
                    && w.points@[k].1 * CELL_SIZE <= usize::MAX,
            spts@.len() == i,
            forall|k: int|
                0 <= k < i ==> (#[trigger] spts@[k]).0 == w.points@[k].0 * CELL_SIZE && spts@[k].1
                    == w.points@[k].1 * CELL_SIZE,
        decreases w.points@.len() - i,
    {
        let p = w.points[i];
        spts.push((p.0 * CELL_SIZE, p.1 * CELL_SIZE));
        i = i + 1;
    }
    let pd = path_data(&spts);
    Stroke { points: spts, path_data: pd }
}

/// The whole pipeline: drives walk generation to exhaustion over the grid
/// and renders each emitted walk, in generation order, as one stroke of the
/// output document. The document's pixel dimensions are the grid dimensions
/// scaled by the cell size, fixed before any walk is generated.
pub fn generate_svg(g: &mut Grid, rng: &mut RandomSource) -> (doc: Document)
    requires
        old(g).wf(),
        old(g).width() * CELL_SIZE <= usize::MAX,
        old(g).height() * CELL_SIZE <= usize::MAX,
    ensures
        final(g).wf(),
        same_occupancy(*old(g), *final(g)),
        visited_monotone(*old(g), *final(g)),
        all_fillable_visited(*final(g)),
        doc.width == old(g).width() * CELL_SIZE,
        doc.height == old(g).height() * CELL_SIZE,
        forall|k: int|
            0 <= k < doc.strokes@.len() ==> stroke_ok(*final(g), #[trigger] doc.strokes@[k]),
        doc.strokes@.len() == 0 <==> all_fillable_visited(*old(g)),
{
    let width = g.num_cols() * CELL_SIZE;
    let height = g.num_rows() * CELL_SIZE;
    let walks = generate_walks(g, rng);
    let mut strokes: Vec<Stroke> = Vec::new();
    let mut k: usize = 0;
    while k < walks.len()
        invariant
            k <= walks@.len(),
            g.wf(),
            g.width() * CELL_SIZE <= usize::MAX,
            g.height() * CELL_SIZE <= usize::MAX,
            forall|kk: int|
                0 <= kk < walks@.len() ==> walk_ok(*g, (#[trigger] walks@[kk]).points@),
            strokes@.len() == k,
            forall|kk: int| 0 <= kk < k ==> stroke_ok(*g, #[trigger] strokes@[kk]),
        decreases walks@.len() - k,
    {
        let wlk = &walks[k];
        proof {
            assert(walk_ok(*g, wlk.points@));
            assert forall|i: int| 0 <= i < wlk.points@.len() implies (
            #[trigger] wlk.points@[i]).0 * CELL_SIZE <= usize::MAX && wlk.points@[i].1 * CELL_SIZE
                <= usize::MAX by {
                assert(g.in_bounds(wlk.points@[i].0 as int, wlk.points@[i].1 as int));
            }
        }
        let st = render_walk(wlk);
        proof {
            assert(walk_ok(*g, wlk.points@) && scaled_points(wlk.points@, st.points@)
                && st.path_data@ == path_data_spec(st.points@));
        }
        strokes.push(st);
        k = k + 1;
    }
    Document { width, height, strokes }
}

} // verus!
