//! The matrix builder: turns the lines of the input text into row
//! labels, column labels and a dense fixed-point distance matrix.
//!
//! The first line is a whitespace-separated header; each token may be
//! wrapped in double quotes and may carry a trailing carriage return,
//! both stripped. A token's first character decides its category: `R`
//! marks a row item, `S` a column item, anything else is ignored. Every
//! later line starts with a label; lines whose label is not a known row
//! label are skipped; the remaining tokens are parsed as decimal
//! distances (micro-units) assigned positionally to header columns,
//! keeping the values under `S` columns. A non-numeric token is fatal.
//! Row labels from the header that never head a data line are excluded
//! from the row set.

use vstd::prelude::*;
use crate::errors::Error;

verus! {

/// The views of a list of byte vectors.
pub open spec fn views_of(v: Seq<Vec<u8>>) -> Seq<Seq<u8>> {
    v.map_values(|x: Vec<u8>| x@)
}

/// The tokens of `s[i..]`, split on single spaces (empty tokens kept,
/// as with consecutive separators).
pub open spec fn split_from(s: Seq<u8>, i: int) -> Seq<Seq<u8>>
    decreases s.len() - i,
{
    if i < 0 || i >= s.len() {
        seq![Seq::<u8>::empty()]
    } else {
        let rest = split_from(s, i + 1);
        if s[i] == 32 {
            seq![Seq::<u8>::empty()] + rest
        } else {
            seq![seq![s[i]] + rest[0]] + rest.drop_first()
        }
    }
}

pub open spec fn spec_split(s: Seq<u8>) -> Seq<Seq<u8>> {
    split_from(s, 0)
}

/// Strips a trailing carriage return, then a surrounding double-quote
/// pair (first and last byte, when the token opens with a quote).
pub open spec fn spec_clean(t: Seq<u8>) -> Seq<u8> {
    let u = if t.len() > 0 && t.last() == 13u8 {
        t.drop_last()
    } else {
        t
    };
    if u.len() >= 2 && u[0] == 34u8 {
        u.subrange(1, u.len() - 1)
    } else {
        u
    }
}

/// The cleaned tokens of one line.
pub open spec fn clean_tokens(s: Seq<u8>) -> Seq<Seq<u8>> {
    spec_split(s).map_values(|t: Seq<u8>| spec_clean(t))
}

pub open spec fn is_r(t: Seq<u8>) -> bool {
    t.len() > 0 && t[0] == 82u8
}

pub open spec fn is_s(t: Seq<u8>) -> bool {
    t.len() > 0 && t[0] == 83u8
}

/// The row labels of a header token list, in header order.
pub open spec fn header_r(toks: Seq<Seq<u8>>) -> Seq<Seq<u8>>
    decreases toks.len(),
{
    if toks.len() == 0 {
        Seq::empty()
    } else {
        header_r(toks.drop_last()) + (if is_r(toks.last()) {
            seq![toks.last()]
        } else {
            Seq::empty()
        })
    }
}

/// The column labels of a header token list, in header order.
pub open spec fn header_s(toks: Seq<Seq<u8>>) -> Seq<Seq<u8>>
    decreases toks.len(),
{
    if toks.len() == 0 {
        Seq::empty()
    } else {
        header_s(toks.drop_last()) + (if is_s(toks.last()) {
            seq![toks.last()]
        } else {
            Seq::empty()
        })
    }
}

/// The header positions of the column labels, in header order.
pub open spec fn header_s_pos(toks: Seq<Seq<u8>>) -> Seq<int>
    decreases toks.len(),
{
    if toks.len() == 0 {
        Seq::empty()
    } else {
        header_s_pos(toks.drop_last()) + (if is_s(toks.last()) {
            seq![toks.len() - 1]
        } else {
            Seq::empty()
        })
    }
}

pub open spec fn is_digit(b: u8) -> bool {
    48 <= b <= 57
}

pub open spec fn all_digits(s: Seq<u8>) -> bool {
    forall|i: int| 0 <= i < s.len() ==> is_digit(#[trigger] s[i])
}

/// The number a digit string denotes.
pub open spec fn digits_val(s: Seq<u8>) -> int
    decreases s.len(),
{
    if s.len() == 0 {
        0
    } else {
        digits_val(s.drop_last()) * 10 + (s.last() - 48)
    }
}

pub open spec fn pow10(k: nat) -> int
    decreases k,
{
    if k == 0 {
        1
    } else {
        10 * pow10((k - 1) as nat)
    }
}

/// Position of the first dot, or the length when there is none.
pub open spec fn dot_pos(t: Seq<u8>) -> int
    decreases t.len(),
{
    if t.len() == 0 {
        0
    } else if t[0] == 46u8 {
        0
    } else {
        1 + dot_pos(t.drop_first())
    }
}

/// The first six fraction digits, zero-padded to six places.
pub open spec fn frac6(s: Seq<u8>) -> Seq<u8> {
    if s.len() >= 6 {
        s.take(6)
    } else {
        s + Seq::new((6 - s.len()) as nat, |i: int| 48u8)
    }
}

/// The value, in micro-units, that a decimal token denotes: digits, at
/// most one dot, at least one digit in all; fraction digits beyond the
/// sixth are ignored. `None` for malformed tokens and for values that
/// do not fit in 64 bits.
pub open spec fn spec_parse_micros(t: Seq<u8>) -> Option<u64> {
    let d = dot_pos(t);
    let ip = t.take(d);
    let fp = if d < t.len() {
        t.skip(d + 1)
    } else {
        Seq::<u8>::empty()
    };
    let v = digits_val(ip) * 1000000 + digits_val(frac6(fp));
    if all_digits(ip) && all_digits(fp) && ip.len() + fp.len() >= 1 && v <= u64::MAX {
        Some(v as u64)
    } else {
        None
    }
}

proof fn lemma_split_nonempty(s: Seq<u8>, i: int)
    ensures
        split_from(s, i).len() >= 1,
    decreases s.len() - i,
{
    if 0 <= i < s.len() {
        lemma_split_nonempty(s, i + 1);
    }
}

/// A space-free stretch `[t, p)` closed by a space (or the line end)
/// forms exactly one token of the split.
proof fn lemma_split_step(s: Seq<u8>, t: int, p: int)
    requires
        0 <= t <= p <= s.len(),
        forall|x: int| t <= x < p ==> s[x] != 32u8,
        p < s.len() ==> s[p] == 32u8,
    ensures
        p < s.len() ==> split_from(s, t) == seq![s.subrange(t, p)] + split_from(s, p + 1),
        p == s.len() ==> split_from(s, t) == seq![s.subrange(t, p)],
    decreases p - t,
{
    lemma_split_nonempty(s, t + 1);
    if t == p {
        if p < s.len() {
            assert(split_from(s, t) == seq![Seq::<u8>::empty()] + split_from(s, t + 1));
            assert(s.subrange(t, p) =~= Seq::<u8>::empty());
            assert(split_from(s, t) =~~= seq![s.subrange(t, p)] + split_from(s, p + 1));
        } else {
            assert(split_from(s, t) =~~= seq![s.subrange(t, p)]);
        }
    } else {
        lemma_split_step(s, t + 1, p);
        let rest = split_from(s, t + 1);
        if p < s.len() {
            assert(rest == seq![s.subrange(t + 1, p)] + split_from(s, p + 1));
            assert(rest[0] == s.subrange(t + 1, p));
            assert(seq![s[t]] + s.subrange(t + 1, p) =~= s.subrange(t, p));
            assert(rest.drop_first() =~~= split_from(s, p + 1));
            assert(split_from(s, t) =~~= seq![s.subrange(t, p)] + split_from(s, p + 1));
        } else {
            assert(rest == seq![s.subrange(t + 1, p)]);
            assert(rest[0] == s.subrange(t + 1, p));
            assert(seq![s[t]] + s.subrange(t + 1, p) =~= s.subrange(t, p));
            assert(rest.drop_first() =~~= Seq::<Seq<u8>>::empty());
            assert(split_from(s, t) =~~= seq![s.subrange(t, p)]);
        }
    }
}

proof fn lemma_dot_pos(t: Seq<u8>)
    ensures
        0 <= dot_pos(t) <= t.len(),
        dot_pos(t) < t.len() ==> t[dot_pos(t)] == 46u8,
        forall|x: int| 0 <= x < dot_pos(t) ==> t[x] != 46u8,
    decreases t.len(),
{
    if t.len() > 0 && t[0] != 46u8 {
        lemma_dot_pos(t.drop_first());
        assert forall|x: int| 0 <= x < dot_pos(t) implies t[x] != 46u8 by {
            if x > 0 {
                assert(t.drop_first()[x - 1] == t[x]);
            }
        }
    }
}

/// `dot_pos` is the unique position with no dot before it that either
/// carries a dot or closes the token.
proof fn lemma_dot_pos_eq(t: Seq<u8>, p: int)
    requires
        0 <= p <= t.len(),
        forall|x: int| 0 <= x < p ==> t[x] != 46u8,
        p < t.len() ==> t[p] == 46u8,
    ensures
        dot_pos(t) == p,
    decreases t.len(),
{
    lemma_dot_pos(t);
    if t.len() > 0 && t[0] != 46u8 {
        assert forall|x: int| 0 <= x < p - 1 implies t.drop_first()[x] != 46u8 by {
            assert(t.drop_first()[x] == t[x + 1]);
        }
        lemma_dot_pos_eq(t.drop_first(), p - 1);
    }
}

proof fn lemma_digits_nonneg(s: Seq<u8>)
    requires
        all_digits(s),
    ensures
        digits_val(s) >= 0,
    decreases s.len(),
{
    if s.len() > 0 {
        lemma_digits_nonneg(s.drop_last());
    }
}

/// A digit string is worth at least any of its prefixes.
proof fn lemma_digits_prefix(s: Seq<u8>, k: int)
    requires
        all_digits(s),
        0 <= k <= s.len(),
    ensures
        digits_val(s.take(k)) <= digits_val(s),
    decreases s.len(),
{
    if k < s.len() {
        assert(s.drop_last().take(k) =~= s.take(k));
        lemma_digits_prefix(s.drop_last(), k);
        lemma_digits_nonneg(s.drop_last());
    } else {
        assert(s.take(k) =~= s);
    }
}

proof fn lemma_digits_upper(s: Seq<u8>)
    requires
        all_digits(s),
    ensures
        digits_val(s) < pow10(s.len()),
    decreases s.len(),
{
    if s.len() > 0 {
        lemma_digits_upper(s.drop_last());
    }
}

/// Extracts the token starting at `from` (up to the next space or the
/// line end) and reports the position that closed it.
fn scan_token(line: &[u8], from: usize) -> (out: (Vec<u8>, usize))
    requires
        from <= line@.len(),
    ensures
        from <= out.1 <= line@.len(),
        out.0@ == line@.subrange(from as int, out.1 as int),
        forall|x: int| from <= x < out.1 ==> line@[x] != 32u8,
        out.1 < line@.len() ==> line@[out.1 as int] == 32u8,
{
    let mut cur: Vec<u8> = Vec::new();
    let mut p = from;
    while p < line.len() && line[p] != 32
        invariant
            from <= p <= line@.len(),
            cur@ == line@.subrange(from as int, p as int),
            forall|x: int| from <= x < p ==> line@[x] != 32u8,
        decreases line@.len() - p,
    {
        cur.push(line[p]);
        proof {
            assert(line@.subrange(from as int, p + 1) =~= line@.subrange(from as int, p as int)
                .push(line@[p as int]));
        }
        p = p + 1;
    }
    (cur, p)
}

/// Splits a line on single spaces; empty tokens are kept.
fn split_tokens(line: &[u8]) -> (toks: Vec<Vec<u8>>)
    ensures
        views_of(toks@) == spec_split(line@),
{
    let mut toks: Vec<Vec<u8>> = Vec::new();
    let mut start: usize = 0;
    let mut done = false;
    while !done
        invariant
            start <= line@.len(),
            !done ==> spec_split(line@) == views_of(toks@) + split_from(line@, start as int),
            done ==> views_of(toks@) == spec_split(line@),
        decreases (line@.len() - start) + (if done {
            0int
        } else {
            1int
        }),
    {
        let (cur, p) = scan_token(line, start);
        let ghost cv = cur@;
        toks.push(cur);
        proof {
            assert(views_of(toks@) =~~= views_of(toks@.drop_last()) + seq![cv]);
            lemma_split_step(line@, start as int, p as int);
        }
        if p < line.len() {
            start = p + 1;
            proof {
                assert(spec_split(line@) =~~= views_of(toks@) + split_from(line@, start as int));
            }
        } else {
            done = true;
            proof {
                assert(views_of(toks@) =~~= spec_split(line@));
            }
        }
    }
    toks
}

/// Strips the carriage return and quote pair from one raw token.
fn clean_token(tok: &Vec<u8>) -> (r: Vec<u8>)
    ensures
        r@ == spec_clean(tok@),
{
    let mut end = tok.len();
    if end > 0 && tok[end - 1] == 13 {
        end = end - 1;
    }
    proof {
        assert(tok@.take(end as int) =~= (if tok@.len() > 0 && tok@.last() == 13u8 {
            tok@.drop_last()
        } else {
            tok@
        }));
    }
    let mut lo: usize = 0;
    let mut hi: usize = end;
    if end >= 2 && tok[0] == 34 {
        lo = 1;
        hi = end - 1;
    }
    let mut r: Vec<u8> = Vec::new();
    let mut i = lo;
    while i < hi
        invariant
            lo <= i <= hi <= tok@.len(),
            r@ == tok@.subrange(lo as int, i as int),
        decreases hi - i,
    {
        r.push(tok[i]);
        proof {
            assert(tok@.subrange(lo as int, i + 1) =~= tok@.subrange(lo as int, i as int).push(
                tok@[i as int],
            ));
        }
        i = i + 1;
    }
    proof {
        assert(r@ =~= spec_clean(tok@));
    }
    r
}

/// Splits and cleans one line into its tokens.
fn tokenize(line: &Vec<u8>) -> (toks: Vec<Vec<u8>>)
    ensures
        views_of(toks@) == clean_tokens(line@),
        toks@.len() >= 1,
{
    let raw = split_tokens(line.as_slice());
    let mut toks: Vec<Vec<u8>> = Vec::new();
    let mut i: usize = 0;
    while i < raw.len()
        invariant
            i <= raw@.len(),
            views_of(raw@) == spec_split(line@),
            toks@.len() == i,
            forall|t: int| 0 <= t < i ==> (#[trigger] toks@[t])@ == spec_clean(spec_split(line@)[t]),
        decreases raw@.len() - i,
    {
        proof {
            assert(views_of(raw@)[i as int] == raw@[i as int]@);
        }
        toks.push(clean_token(&raw[i]));
        i = i + 1;
    }
    proof {
        lemma_split_nonempty(line@, 0);
        assert(views_of(toks@) =~~= clean_tokens(line@));
    }
    toks
}

proof fn lemma_pow10_le6(z: nat)
    requires
        z <= 6,
    ensures
        1 <= pow10(z) <= 1000000,
{
    reveal_with_fuel(pow10, 8);
    if z == 0 {
    } else if z == 1 {
    } else if z == 2 {
    } else if z == 3 {
    } else if z == 4 {
    } else if z == 5 {
    } else {
        assert(z == 6);
    }
}

proof fn lemma_frac6_digits(s: Seq<u8>)
    requires
        all_digits(s),
    ensures
        all_digits(frac6(s)),
{
    assert forall|i: int| 0 <= i < frac6(s).len() implies is_digit(#[trigger] frac6(s)[i]) by {
        if s.len() >= 6 {
            assert(frac6(s)[i] == s[i]);
        } else if i < s.len() {
            assert(frac6(s)[i] == s[i]);
        } else {
            assert(frac6(s)[i] == 48u8);
        }
    }
}

/// Parses one decimal token into micro-units.
#[verifier::loop_isolation(false)]
#[verifier::rlimit(60)]
fn parse_micros(tok: &[u8]) -> (r: Option<u64>)
    ensures
        r == spec_parse_micros(tok@),
{
    let n = tok.len();
    let mut d: usize = 0;
    while d < n && tok[d] != 46
        invariant
            d <= n,
            n == tok@.len(),
            forall|x: int| 0 <= x < d ==> tok@[x] != 46u8,
        decreases n - d,
    {
        d = d + 1;
    }
    proof {
        lemma_dot_pos_eq(tok@, d as int);
    }
    let fstart = if d < n {
        d + 1
    } else {
        n
    };
    let ghost ip = tok@.take(d as int);
    let ghost fp = if (d as int) < tok@.len() {
        tok@.skip(d + 1)
    } else {
        Seq::<u8>::empty()
    };
    if d == 0 && fstart == n {
        return None;
    }
    // integer part
    let mut iv: u64 = 0;
    let mut x: usize = 0;
    while x < d
        invariant
            x <= d,
            d <= n,
            n == tok@.len(),
            ip == tok@.take(d as int),
            all_digits(ip.take(x as int)),
            iv as int == digits_val(ip.take(x as int)),
        decreases d - x,
    {
        let b = tok[x];
        if b < 48 || b > 57 {
            proof {
                assert(ip[x as int] == tok@[x as int]);
                assert(!all_digits(ip));
            }
            return None;
        }
        proof {
            assert(ip.take(x + 1) =~= ip.take(x as int).push(ip[x as int]));
            assert(ip.take(x + 1).drop_last() =~= ip.take(x as int));
        }
        let step = match iv.checked_mul(10) {
            Some(v) => v.checked_add((b - 48) as u64),
            None => None,
        };
        iv = match step {
            Some(v) => v,
            None => {
                proof {
                    if all_digits(ip) && all_digits(fp) {
                        lemma_digits_prefix(ip, x + 1);
                        lemma_digits_nonneg(ip);
                        lemma_frac6_digits(fp);
                        lemma_digits_nonneg(frac6(fp));
                        assert(digits_val(ip) * 1000000 >= digits_val(ip)) by (nonlinear_arith)
                            requires
                                digits_val(ip) >= 0,
                        ;
                    }
                }
                return None;
            },
        };
        x = x + 1;
    }
    proof {
        assert(ip.take(d as int) =~= ip);
    }
    // fraction part: validate, take six digits, zero-pad
    let mut y: usize = fstart;
    while y < n
        invariant
            fstart <= y <= n,
            n == tok@.len(),
            fstart == (if (d as int) < tok@.len() {
                d + 1
            } else {
                n as int
            }),
            fp == (if (d as int) < tok@.len() {
                tok@.skip(d + 1)
            } else {
                Seq::<u8>::empty()
            }),
            forall|t: int| 0 <= t < y - fstart ==> is_digit(#[trigger] fp[t]),
        decreases n - y,
    {
        let b = tok[y];
        if b < 48 || b > 57 {
            proof {
                assert(fp[y - fstart] == tok@[y as int]);
                assert(!all_digits(fp));
            }
            return None;
        }
        proof {
            assert(fp[y - fstart] == tok@[y as int]);
        }
        y = y + 1;
    }
    proof {
        assert(all_digits(fp));
        assert(all_digits(frac6(fp)));
        lemma_digits_upper(frac6(fp));
        reveal_with_fuel(pow10, 8);
    }
    let mut fv: u64 = 0;
    let mut z: usize = 0;
    while z < 6
        invariant
            z <= 6,
            fv as int == digits_val(frac6(fp).take(z as int)),
            (fv as int) < pow10(z as nat),
        decreases 6 - z,
    {
        proof {
            assert(fp.len() == n - fstart);
            assert(frac6(fp).len() == 6);
            assert(frac6(fp).take(z + 1) =~= frac6(fp).take(z as int).push(frac6(fp)[z as int]));
            assert(frac6(fp).take(z + 1).drop_last() =~= frac6(fp).take(z as int));
            lemma_pow10_le6(z as nat);
            lemma_pow10_le6((z + 1) as nat);
        }
        let b = if z < n - fstart {
            tok[fstart + z]
        } else {
            48
        };
        proof {
            if (z as int) < fp.len() {
                assert(fp[z as int] == tok@[fstart + z]);
                assert(frac6(fp)[z as int] == fp[z as int]);
            } else {
                assert(frac6(fp)[z as int] == 48u8);
            }
            assert(all_digits(frac6(fp).take(z + 1))) by {
                assert(all_digits(frac6(fp)));
            }
            lemma_digits_upper(frac6(fp).take(z + 1));
        }
        fv = fv * 10 + ((b - 48) as u64);
        z = z + 1;
    }
    proof {
        assert(frac6(fp).take(6) =~= frac6(fp));
        lemma_digits_nonneg(frac6(fp));
        lemma_pow10_le6(6);
    }
    let total = match iv.checked_mul(1000000) {
        Some(v) => v.checked_add(fv),
        None => None,
    };
    match total {
        Some(v) => Some(v),
        None => {
            proof {
                lemma_digits_nonneg(ip);
            }
            None
        },
    }
}

/// The line's first (cleaned) token names a known row item.
pub open spec fn line_matches(line: Seq<u8>, hr: Seq<Seq<u8>>) -> bool {
    is_r(clean_tokens(line)[0]) && hr.contains(clean_tokens(line)[0])
}

/// Every value token of the line parses, and the line is long enough
/// to cover every column position.
pub open spec fn data_line_ok(line: Seq<u8>, spos: Seq<int>) -> bool {
    &&& forall|t: int|
        1 <= t < clean_tokens(line).len() ==> spec_parse_micros(#[trigger] clean_tokens(line)[t]) is Some
    &&& forall|j: int| 0 <= j < spos.len() ==> #[trigger] spos[j] + 1 < clean_tokens(line).len()
}

/// The distances a data line contributes, one per column position.
pub open spec fn line_values(line: Seq<u8>, spos: Seq<int>) -> Seq<u64> {
    Seq::new(spos.len(), |j: int| spec_parse_micros(clean_tokens(line)[spos[j] + 1]).unwrap())
}

proof fn lemma_header_s_len(toks: Seq<Seq<u8>>)
    ensures
        header_s(toks).len() == header_s_pos(toks).len(),
    decreases toks.len(),
{
    if toks.len() > 0 {
        lemma_header_s_len(toks.drop_last());
    }
}

/// The row labels, column labels and dense matrix parsed from the
/// input lines.
#[derive(Debug)]
pub struct ParsedMatrix {
    pub r_labels: Vec<Vec<u8>>,
    pub s_labels: Vec<Vec<u8>>,
    pub dist: Vec<Vec<u64>>,
}

fn copy_bytes(v: &Vec<u8>) -> (r: Vec<u8>)
    ensures
        r@ == v@,
{
    let mut r: Vec<u8> = Vec::new();
    let mut i: usize = 0;
    while i < v.len()
        invariant
            i <= v@.len(),
            r@ == v@.take(i as int),
        decreases v@.len() - i,
    {
        r.push(v[i]);
        proof {
            assert(v@.take(i + 1) =~= v@.take(i as int).push(v@[i as int]));
        }
        i = i + 1;
    }
    proof {
        assert(v@.take(v@.len() as int) =~= v@);
    }
    r
}

fn copy_row(v: &Vec<u64>) -> (r: Vec<u64>)
    ensures
        r@ == v@,
{
    let mut r: Vec<u64> = Vec::new();
    let mut i: usize = 0;
    while i < v.len()
        invariant
            i <= v@.len(),
            r@ == v@.take(i as int),
        decreases v@.len() - i,
    {
        r.push(v[i]);
        proof {
            assert(v@.take(i + 1) =~= v@.take(i as int).push(v@[i as int]));
        }
        i = i + 1;
    }
    proof {
        assert(v@.take(v@.len() as int) =~= v@);
    }
    r
}

fn bytes_eq(a: &Vec<u8>, b: &Vec<u8>) -> (r: bool)
    ensures
        r == (a@ == b@),
{
    if a.len() != b.len() {
        return false;
    }
    let mut i: usize = 0;
    while i < a.len()
        invariant
            i <= a@.len(),
            a@.len() == b@.len(),
            forall|x: int| 0 <= x < i ==> a@[x] == b@[x],
        decreases a@.len() - i,
    {
        if a[i] != b[i] {
            return false;
        }
        i = i + 1;
    }
    proof {
        assert(a@ =~= b@);
    }
    true
}

/// The index of the first row label equal to `lab`, if any.
fn find_label(r_all: &Vec<Vec<u8>>, lab: &Vec<u8>) -> (r: Option<usize>)
    ensures
        match r {
            Some(i) => i < r_all@.len() && r_all@[i as int]@ == lab@ && (forall|x: int|
                0 <= x < i ==> (#[trigger] r_all@[x])@ != lab@),
            None => forall|x: int| 0 <= x < r_all@.len() ==> (#[trigger] r_all@[x])@ != lab@,
        },
{
    let mut i: usize = 0;
    while i < r_all.len()
        invariant
            i <= r_all@.len(),
            forall|x: int| 0 <= x < i ==> (#[trigger] r_all@[x])@ != lab@,
        decreases r_all@.len() - i,
    {
        if bytes_eq(&r_all[i], lab) {
            return Some(i);
        }
        i = i + 1;
    }
    None
}

/// Classifies the cleaned header tokens into row labels, column
/// labels and the column labels' header positions.
#[verifier::loop_isolation(false)]
fn parse_header(line: &Vec<u8>, Ghost(hseq): Ghost<Seq<Seq<u8>>>) -> (res: (
    Vec<Vec<u8>>,
    Vec<Vec<u8>>,
    Vec<usize>,
))
    requires
        hseq == clean_tokens(line@),
    ensures
        views_of(res.0@) == header_r(hseq),
        views_of(res.1@) == header_s(hseq),
        res.2@.len() == header_s_pos(hseq).len(),
        forall|j: int|
            0 <= j < res.2@.len() ==> #[trigger] res.2@[j] as int == header_s_pos(hseq)[j],
        forall|j: int| 0 <= j < res.2@.len() ==> (#[trigger] res.2@[j] as int) < hseq.len(),
{
    let hd = tokenize(line);
    let mut r_all: Vec<Vec<u8>> = Vec::new();
    let mut s_labels: Vec<Vec<u8>> = Vec::new();
    let mut spos: Vec<usize> = Vec::new();
    let mut i: usize = 0;
    while i < hd.len()
        invariant
            i <= hd@.len(),
            views_of(r_all@) == header_r(hseq.take(i as int)),
            views_of(s_labels@) == header_s(hseq.take(i as int)),
            spos@.len() == header_s_pos(hseq.take(i as int)).len(),
            forall|j: int|
                0 <= j < spos@.len() ==> #[trigger] spos@[j] as int == header_s_pos(
                    hseq.take(i as int),
                )[j],
            forall|j: int| 0 <= j < spos@.len() ==> #[trigger] spos@[j] < i,
        decreases hd@.len() - i,
    {
        proof {
            assert(hseq.take(i + 1).drop_last() =~= hseq.take(i as int));
            assert(hseq.take(i + 1).last() == hseq[i as int]);
            assert(views_of(hd@)[i as int] == hd@[i as int]@);
        }
        let t = &hd[i];
        if t.len() > 0 && t[0] == 82 {
            r_all.push(copy_bytes(t));
            proof {
                assert(views_of(r_all@) =~~= header_r(hseq.take(i + 1)));
                assert(views_of(s_labels@) =~~= header_s(hseq.take(i + 1)));
            }
        } else if t.len() > 0 && t[0] == 83 {
            s_labels.push(copy_bytes(t));
            spos.push(i);
            proof {
                assert(views_of(r_all@) =~~= header_r(hseq.take(i + 1)));
                assert(views_of(s_labels@) =~~= header_s(hseq.take(i + 1)));
                assert(header_s_pos(hseq.take(i + 1)) =~= header_s_pos(hseq.take(i as int))
                    + seq![i as int]);
            }
        } else {
            proof {
                assert(views_of(r_all@) =~~= header_r(hseq.take(i + 1)));
                assert(views_of(s_labels@) =~~= header_s(hseq.take(i + 1)));
            }
        }
        i = i + 1;
    }
    proof {
        assert(hseq.take(hseq.len() as int) =~= hseq);
        lemma_header_s_len(hseq);
    }
    (r_all, s_labels, spos)
}

/// Parses the input lines into labels and a dense distance matrix.
///
/// The header (first line) fixes the row and column label sets; every
/// later line whose first token names a row label supplies that row's
/// distances (a later line for the same label replaces the earlier
/// one). Header rows that no data line supplies are excluded. Fatal:
/// an empty input, a header without row or without column items, a
/// value token that does not parse, a matching line too short for some
/// column, and an input whose header rows are all unsupplied.
#[verifier::loop_isolation(false)]
#[verifier::rlimit(90)]
pub fn parse_input(lines: &Vec<Vec<u8>>) -> (r: Result<ParsedMatrix, Error>)
    ensures
        (r matches Err(e) ==> e == Error::ParseError),
        lines@.len() == 0 ==> r is Err,
        lines@.len() >= 1 && (header_r(clean_tokens(lines@[0]@)).len() == 0 || header_s(
            clean_tokens(lines@[0]@),
        ).len() == 0) ==> r is Err,
        (exists|l: int|
            1 <= l < lines@.len() && line_matches(
                (#[trigger] lines@[l])@,
                header_r(clean_tokens(lines@[0]@)),
            ) && !data_line_ok(lines@[l]@, header_s_pos(clean_tokens(lines@[0]@)))) ==> r is Err,
        (lines@.len() >= 1 && header_r(clean_tokens(lines@[0]@)).len() > 0 && header_s(
            clean_tokens(lines@[0]@),
        ).len() > 0 && (forall|l: int|
            1 <= l < lines@.len() && line_matches(
                (#[trigger] lines@[l])@,
                header_r(clean_tokens(lines@[0]@)),
            ) ==> data_line_ok(lines@[l]@, header_s_pos(clean_tokens(lines@[0]@)))) && (exists|
            l: int,
        |
            1 <= l < lines@.len() && line_matches(
                (#[trigger] lines@[l])@,
                header_r(clean_tokens(lines@[0]@)),
            ))) ==> r is Ok,
        r matches Ok(p) ==> {
            &&& lines@.len() >= 1
            &&& views_of(p.s_labels@) == header_s(clean_tokens(lines@[0]@))
            &&& p.s_labels@.len() >= 1
            &&& p.r_labels@.len() == p.dist@.len()
            &&& p.dist@.len() >= 1
            &&& forall|i: int|
                0 <= i < p.dist@.len() ==> (#[trigger] p.dist@[i])@.len() == p.s_labels@.len()
            &&& forall|i: int|
                0 <= i < p.r_labels@.len() ==> header_r(clean_tokens(lines@[0]@)).contains(
                    (#[trigger] p.r_labels@[i])@,
                )
            &&& forall|i: int|
                #![trigger p.r_labels@[i]]
                0 <= i < p.r_labels@.len() ==> exists|l: int|
                    1 <= l < lines@.len() && clean_tokens((#[trigger] lines@[l])@)[0]
                        == p.r_labels@[i]@ && data_line_ok(
                        lines@[l]@,
                        header_s_pos(clean_tokens(lines@[0]@)),
                    ) && line_values(lines@[l]@, header_s_pos(clean_tokens(lines@[0]@)))
                        == p.dist@[i]@
        },
{
    if lines.len() == 0 {
        return Err(Error::ParseError);
    }
    let ghost hseq = clean_tokens(lines@[0]@);
    let (r_all, s_labels, spos) = parse_header(&lines[0], Ghost(hseq));
    proof {
        lemma_header_s_len(hseq);
    }
    if r_all.len() == 0 || s_labels.len() == 0 {
        return Err(Error::ParseError);
    }
    let ns = s_labels.len();
    let ghost sposi = header_s_pos(hseq);
    let mut rows: Vec<Vec<u64>> = Vec::new();
    let mut filled: Vec<bool> = Vec::new();
    let mut t0: usize = 0;
    while t0 < r_all.len()
        invariant
            t0 <= r_all@.len(),
            rows@.len() == t0,
            filled@.len() == t0,
            forall|t: int| 0 <= t < t0 ==> !(#[trigger] filled@[t]),
        decreases r_all@.len() - t0,
    {
        rows.push(Vec::new());
        filled.push(false);
        t0 = t0 + 1;
    }
    let mut l: usize = 1;
    while l < lines.len()
        invariant
            1 <= l <= lines@.len(),
            rows@.len() == r_all@.len(),
            filled@.len() == r_all@.len(),
            forall|l2: int|
                1 <= l2 < l && line_matches((#[trigger] lines@[l2])@, header_r(hseq))
                    ==> data_line_ok(lines@[l2]@, sposi),
            forall|t: int|
                0 <= t < filled@.len() && #[trigger] filled@[t] ==> exists|l2: int|
                    1 <= l2 < l && clean_tokens((#[trigger] lines@[l2])@)[0] == r_all@[t]@
                        && data_line_ok(lines@[l2]@, sposi) && line_values(lines@[l2]@, sposi)
                        == rows@[t]@,
            forall|t: int|
                0 <= t < filled@.len() && #[trigger] filled@[t] ==> (#[trigger] rows@[t])@.len()
                    == ns,
            (exists|l2: int|
                1 <= l2 < l && line_matches((#[trigger] lines@[l2])@, header_r(hseq))) ==> (exists|
                t: int,
            | 0 <= t < filled@.len() && filled@[t]),
        decreases lines@.len() - l,
    {
        let toks = tokenize(&lines[l]);
        let ghost tseq = clean_tokens(lines@[l as int]@);
        proof {
            assert(views_of(toks@)[0] == toks@[0]@);
        }
        let lab = &toks[0];
        if lab.len() > 0 && lab[0] == 82 {
            match find_label(&r_all, lab) {
                Some(idx) => {
                    proof {
                        assert(views_of(r_all@).contains(tseq[0])) by {
                            assert(views_of(r_all@)[idx as int] == tseq[0]);
                        }
                        assert(line_matches(lines@[l as int]@, header_r(hseq)));
                    }
                    let mut vals: Vec<u64> = Vec::new();
                    let mut t: usize = 1;
                    while t < toks.len()
                        invariant
                            1 <= t <= toks@.len(),
                            vals@.len() == t - 1,
                            forall|k: int|
                                1 <= k < t ==> spec_parse_micros(#[trigger] tseq[k]) is Some,
                            forall|k: int|
                                1 <= k < t ==> #[trigger] vals@[k - 1] == spec_parse_micros(
                                    tseq[k],
                                ).unwrap(),
                        decreases toks@.len() - t,
                    {
                        proof {
                            assert(views_of(toks@)[t as int] == toks@[t as int]@);
                        }
                        match parse_micros(toks[t].as_slice()) {
                            Some(v) => {
                                vals.push(v);
                            },
                            None => {
                                proof {
                                    assert(!data_line_ok(lines@[l as int]@, sposi));
                                }
                                return Err(Error::ParseError);
                            },
                        }
                        t = t + 1;
                    }
                    let mut row: Vec<u64> = Vec::new();
                    let mut j: usize = 0;
                    while j < spos.len()
                        invariant
                            j <= spos@.len(),
                            row@.len() == j,
                            vals@.len() == toks@.len() - 1,
                            forall|k: int| 0 <= k < j ==> #[trigger] sposi[k] + 1 < tseq.len(),
                            forall|k: int|
                                0 <= k < j ==> #[trigger] row@[k] == spec_parse_micros(
                                    tseq[sposi[k] + 1],
                                ).unwrap(),
                        decreases spos@.len() - j,
                    {
                        let p = spos[j];
                        if toks.len() < 2 || p >= toks.len() - 1 {
                            proof {
                                assert(!data_line_ok(lines@[l as int]@, sposi));
                            }
                            return Err(Error::ParseError);
                        }
                        row.push(vals[p]);
                        proof {
                            assert(sposi[j as int] == spos@[j as int] as int);
                            assert(vals@[p as int] == spec_parse_micros(tseq[p + 1]).unwrap());
                            assert(row@[j as int] == spec_parse_micros(
                                tseq[sposi[j as int] + 1],
                            ).unwrap());
                        }
                        j = j + 1;
                    }
                    proof {
                        assert(data_line_ok(lines@[l as int]@, sposi));
                        assert(line_values(lines@[l as int]@, sposi) =~= row@);
                    }
                    let ghost old_rows = rows@;
                    let ghost old_filled = filled@;
                    rows[idx] = row;
                    filled[idx] = true;
                    proof {
                        assert forall|t2: int|
                            0 <= t2 < filled@.len() && #[trigger] filled@[t2] implies exists|
                            l2: int,
                        |
                            1 <= l2 < l + 1 && clean_tokens((#[trigger] lines@[l2])@)[0]
                                == r_all@[t2]@ && data_line_ok(lines@[l2]@, sposi) && line_values(
                                lines@[l2]@,
                                sposi,
                            ) == rows@[t2]@ by {
                            if t2 == idx {
                                assert(1 <= (l as int) < l + 1 && clean_tokens(
                                    lines@[l as int]@,
                                )[0] == r_all@[t2]@ && data_line_ok(lines@[l as int]@, sposi)
                                    && line_values(lines@[l as int]@, sposi) == rows@[t2]@);
                            } else {
                                assert(old_filled[t2]);
                                let l2 = choose|l2: int|
                                    1 <= l2 < l && clean_tokens((lines@[l2])@)[0] == r_all@[t2]@
                                        && data_line_ok(lines@[l2]@, sposi) && line_values(
                                        lines@[l2]@,
                                        sposi,
                                    ) == old_rows[t2]@;
                                assert(rows@[t2] == old_rows[t2]);
                                assert(1 <= l2 < l + 1 && clean_tokens((lines@[l2])@)[0]
                                    == r_all@[t2]@ && data_line_ok(lines@[l2]@, sposi)
                                    && line_values(lines@[l2]@, sposi) == rows@[t2]@);
                            }
                        }
                    }
                },
                None => {
                    proof {
                        if views_of(r_all@).contains(tseq[0]) {
                            let x = choose|x: int|
                                0 <= x < views_of(r_all@).len() && views_of(r_all@)[x] == tseq[0];
                            assert(r_all@[x]@ == tseq[0]);
                            assert(false);
                        }
                        assert(!line_matches(lines@[l as int]@, header_r(hseq)));
                    }
                },
            }
        } else {
            proof {
                assert(!is_r(tseq[0]));
                assert(!line_matches(lines@[l as int]@, header_r(hseq)));
            }
        }
        l = l + 1;
    }
    let mut r_labels: Vec<Vec<u8>> = Vec::new();
    let mut dist: Vec<Vec<u64>> = Vec::new();
    let mut t2: usize = 0;
    while t2 < r_all.len()
        invariant
            t2 <= r_all@.len(),
            r_labels@.len() == dist@.len(),
            forall|i2: int|
                0 <= i2 < r_labels@.len() ==> header_r(hseq).contains(
                    (#[trigger] r_labels@[i2])@,
                ),
            forall|i2: int| 0 <= i2 < dist@.len() ==> (#[trigger] dist@[i2])@.len() == ns,
            forall|i2: int|
                #![trigger r_labels@[i2]]
                0 <= i2 < r_labels@.len() ==> exists|l2: int|
                    1 <= l2 < lines@.len() && clean_tokens((#[trigger] lines@[l2])@)[0]
                        == r_labels@[i2]@ && data_line_ok(lines@[l2]@, sposi) && line_values(
                        lines@[l2]@,
                        sposi,
                    ) == dist@[i2]@,
            (exists|t3: int| 0 <= t3 < t2 && filled@[t3]) ==> dist@.len() >= 1,
        decreases r_all@.len() - t2,
    {
        if filled[t2] {
            r_labels.push(copy_bytes(&r_all[t2]));
            dist.push(copy_row(&rows[t2]));
            proof {
                assert(views_of(r_all@)[t2 as int] == r_all@[t2 as int]@);
                assert(header_r(hseq).contains(r_all@[t2 as int]@));
            }
        }
        t2 = t2 + 1;
    }
    if dist.len() == 0 {
        proof {
            if exists|l2: int|
                1 <= l2 < lines@.len() && line_matches((#[trigger] lines@[l2])@, header_r(hseq)) {
                assert(exists|t3: int| 0 <= t3 < filled@.len() && filled@[t3]);
            }
        }
        return Err(Error::ParseError);
    }
    Ok(ParsedMatrix { r_labels, s_labels, dist })
}

} // verus!
