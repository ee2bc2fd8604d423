//! Text helpers: decimal and hexadecimal rendering and parsing, the taint
//! queue's display form, and the timestamp format used in exports.

use vstd::prelude::*;
use vstd::string::StringExecFns;
use std::collections::VecDeque;
use crate::taint::TaintPart;

verus! {

/// The decimal digit character for `d` (0 through 9).
pub open spec fn digit_char(d: int) -> char {
    if d == 0 {
        '0'
    } else if d == 1 {
        '1'
    } else if d == 2 {
        '2'
    } else if d == 3 {
        '3'
    } else if d == 4 {
        '4'
    } else if d == 5 {
        '5'
    } else if d == 6 {
        '6'
    } else if d == 7 {
        '7'
    } else if d == 8 {
        '8'
    } else {
        '9'
    }
}

/// The decimal rendering of `n`, most significant digit first.
pub open spec fn dec_str(n: nat) -> Seq<char>
    decreases n,
{
    if n < 10 {
        seq![digit_char(n as int)]
    } else {
        dec_str(n / 10).push(digit_char((n % 10) as int))
    }
}

fn digit_str(d: u64) -> (r: &'static str)
    requires
        d < 10,
    ensures
        r@ == seq![digit_char(d as int)],
{
    proof {
        reveal_strlit("0");
        reveal_strlit("1");
        reveal_strlit("2");
        reveal_strlit("3");
        reveal_strlit("4");
        reveal_strlit("5");
        reveal_strlit("6");
        reveal_strlit("7");
        reveal_strlit("8");
        reveal_strlit("9");
    }
    match d {
        0 => "0",
        1 => "1",
        2 => "2",
        3 => "3",
        4 => "4",
        5 => "5",
        6 => "6",
        7 => "7",
        8 => "8",
        _ => "9",
    }
}

/// Render `n` in decimal.
pub fn u64_to_string(n: u64) -> (r: String)
    ensures
        r@ == dec_str(n as nat),
{
    let mut digits: Vec<u64> = Vec::new();
    let mut m: u64 = n;
    digits.push(m % 10);
    m = m / 10;
    while m > 0
        invariant
            digits@.len() >= 1,
            forall|i: int| 0 <= i < digits@.len() ==> #[trigger] digits@[i] < 10,
            dec_str(n as nat) == (if m > 0 {
                dec_str(m as nat)
            } else {
                Seq::<char>::empty()
            }) + Seq::new(digits@.len(), |i: int| digit_char(digits@[digits@.len() - 1 - i] as int)),
        decreases m,
    {
        let ghost dpre = digits@;
        let d = m % 10;
        digits.push(d);
        m = m / 10;
        proof {
            let rnew = Seq::new(
                digits@.len(),
                |i: int| digit_char(digits@[digits@.len() - 1 - i] as int),
            );
            let rold = Seq::new(dpre.len(), |i: int| digit_char(dpre[dpre.len() - 1 - i] as int));
            if m > 0 {
                assert(rnew =~= seq![digit_char(d as int)] + rold);
                assert(dec_str((m * 10 + d) as nat) == dec_str(m as nat).push(
                    digit_char(d as int),
                ));
                assert(dec_str(m as nat).push(digit_char(d as int)) =~= dec_str(m as nat) + seq![
                    digit_char(d as int),
                ]);
                assert((dec_str(m as nat) + seq![digit_char(d as int)]) + rold =~= dec_str(m as nat)
                    + rnew);
            } else {
                assert(rnew =~= seq![digit_char(d as int)] + rold);
                assert(dec_str(d as nat) == seq![digit_char(d as int)]);
                assert((seq![digit_char(d as int)]) + rold =~= Seq::<char>::empty() + rnew);
            }
        }
    }
    let mut s = String::new();
    let mut i: usize = digits.len();
    while i > 0
        invariant
            0 <= i <= digits@.len(),
            forall|j: int| 0 <= j < digits@.len() ==> #[trigger] digits@[j] < 10,
            s@ == Seq::new(
                (digits@.len() - i) as nat,
                |k: int| digit_char(digits@[digits@.len() - 1 - k] as int),
            ),
        decreases i,
    {
        i = i - 1;
        s.append(digit_str(digits[i]));
        proof {
            assert(s@ =~= Seq::new(
                (digits@.len() - i) as nat,
                |k: int| digit_char(digits@[digits@.len() - 1 - k] as int),
            ));
        }
    }
    proof {
        assert(s@ =~= Seq::new(
            digits@.len(),
            |k: int| digit_char(digits@[digits@.len() - 1 - k] as int),
        ));
    }
    s
}

/// The numeric value of a decimal digit string (by digit positions).
pub open spec fn dec_val(s: Seq<u8>) -> int
    decreases s.len(),
{
    if s.len() == 0 {
        0
    } else {
        dec_val(s.drop_last()) * 10 + (s.last() - 48)
    }
}

pub open spec fn all_digits(s: Seq<u8>) -> bool {
    forall|i: int| 0 <= i < s.len() ==> 48 <= #[trigger] s[i] <= 57
}

/// A token parses as a u64 exactly when it is a nonempty digit string
/// whose value fits.
pub open spec fn valid_u64_text(s: Seq<u8>) -> bool {
    s.len() > 0 && all_digits(s) && dec_val(s) <= u64::MAX
}

proof fn lemma_dec_val_nonneg(s: Seq<u8>)
    requires
        all_digits(s),
    ensures
        dec_val(s) >= 0,
    decreases s.len(),
{
    if s.len() > 0 {
        assert forall|i: int| 0 <= i < s.drop_last().len() implies 48 <= #[trigger] s.drop_last()[i]
            <= 57 by {
            assert(s.drop_last()[i] == s[i]);
        }
        lemma_dec_val_nonneg(s.drop_last());
    }
}

/// Parse a base-10 u64; `None` exactly on tokens that are empty, hold a
/// non-digit, or overflow.
pub fn parse_u64_bytes(tok: &Vec<u8>) -> (r: Option<u64>)
    ensures
        match r {
            Some(v) => valid_u64_text(tok@) && v as int == dec_val(tok@),
            None => !valid_u64_text(tok@),
        },
{
    if tok.len() == 0 {
        return None;
    }
    let mut acc: u64 = 0;
    let mut i: usize = 0;
    while i < tok.len()
        invariant
            0 <= i <= tok@.len(),
            all_digits(tok@.take(i as int)),
            acc as int == dec_val(tok@.take(i as int)),
        decreases tok@.len() - i,
    {
        let c = tok[i];
        if c < 48 || c > 57 {
            proof {
                assert(!all_digits(tok@));
            }
            return None;
        }
        let d = (c - 48) as u64;
        if acc > (u64::MAX - d) / 10 {
            proof {
                assert(tok@.take(i as int + 1).drop_last() =~= tok@.take(i as int));
                assert(tok@.take(i as int + 1).last() == c);
                lemma_dec_val_nonneg(tok@.take(i as int + 1));
                lemma_dec_val_grows(tok@, i as int + 1);
            }
            return None;
        }
        proof {
            assert(tok@.take(i as int + 1).drop_last() =~= tok@.take(i as int));
            assert(tok@.take(i as int + 1).last() == c);
        }
        acc = acc * 10 + d;
        i = i + 1;
    }
    proof {
        assert(tok@.take(tok@.len() as int) =~= tok@);
    }
    Some(acc)
}

/// A longer digit prefix never has a smaller value.
proof fn lemma_dec_val_grows(s: Seq<u8>, i: int)
    requires
        0 <= i <= s.len(),
        all_digits(s.take(i)),
    ensures
        dec_val(s) >= dec_val(s.take(i)) || !all_digits(s),
    decreases s.len() - i,
{
    if i == s.len() {
        assert(s.take(i) =~= s);
    } else if all_digits(s) {
        assert(s.take(i + 1).drop_last() =~= s.take(i));
        assert(s.take(i + 1).last() == s[i]);
        assert forall|j: int| 0 <= j < s.take(i + 1).len() implies 48 <= #[trigger] s.take(i + 1)[j]
            <= 57 by {
            assert(s.take(i + 1)[j] == s[j]);
        }
        lemma_dec_val_nonneg(s.take(i));
        lemma_dec_val_grows(s, i + 1);
    }
}

/// The lowercase hexadecimal digit character for `d` (0 through 15).
pub open spec fn hex_digit_char(d: int) -> char {
    if d < 10 {
        digit_char(d)
    } else if d == 10 {
        'a'
    } else if d == 11 {
        'b'
    } else if d == 12 {
        'c'
    } else if d == 13 {
        'd'
    } else if d == 14 {
        'e'
    } else {
        'f'
    }
}

/// Hex rendering of a byte string in swapped (display) order: the last
/// byte is printed first, two digits per byte.
pub open spec fn hex_swapped_text(b: Seq<u8>) -> Seq<char>
    decreases b.len(),
{
    if b.len() == 0 {
        Seq::empty()
    } else {
        seq![
            hex_digit_char(b.last() as int / 16),
            hex_digit_char(b.last() as int % 16),
        ] + hex_swapped_text(b.drop_last())
    }
}

fn hex_digit_str(d: u8) -> (r: &'static str)
    requires
        d < 16,
    ensures
        r@ == seq![hex_digit_char(d as int)],
{
    if d < 10 {
        digit_str(d as u64)
    } else {
        proof {
            reveal_strlit("a");
            reveal_strlit("b");
            reveal_strlit("c");
            reveal_strlit("d");
            reveal_strlit("e");
            reveal_strlit("f");
        }
        match d {
            10 => "a",
            11 => "b",
            12 => "c",
            13 => "d",
            14 => "e",
            _ => "f",
        }
    }
}

/// Render a transaction hash (or any byte string) as lowercase hex in the
/// byte-swapped display orientation.
pub fn bytes_to_hex_swapped(b: &Vec<u8>) -> (r: String)
    ensures
        r@ == hex_swapped_text(b@),
{
    let mut s = String::new();
    let mut i: usize = b.len();
    proof {
        assert(b@.take(b@.len() as int) =~= b@);
        assert(Seq::<char>::empty() + hex_swapped_text(b@) =~= hex_swapped_text(b@));
    }
    while i > 0
        invariant
            0 <= i <= b@.len(),
            s@ + hex_swapped_text(b@.take(i as int)) == hex_swapped_text(b@),
        decreases i,
    {
        i = i - 1;
        let byte = b[i];
        let ghost spre = s@;
        s.append(hex_digit_str(byte / 16));
        s.append(hex_digit_str(byte % 16));
        proof {
            assert(b@.take(i as int + 1).last() == byte);
            assert(b@.take(i as int + 1).drop_last() =~= b@.take(i as int));
            assert(s@ =~= spre + seq![
                hex_digit_char(byte as int / 16),
                hex_digit_char(byte as int % 16),
            ]);
            assert(s@ + hex_swapped_text(b@.take(i as int)) =~= spre + hex_swapped_text(
                b@.take(i as int + 1),
            ));
        }
    }
    proof {
        assert(b@.take(0) =~= Seq::<u8>::empty());
        assert(s@ + Seq::<char>::empty() =~= s@);
    }
    s
}

/// Whether a byte is a lowercase hexadecimal digit character.
pub open spec fn is_hex_lc(c: u8) -> bool {
    (48 <= c <= 57) || (97 <= c <= 102)
}

/// Value of a lowercase hexadecimal digit character.
pub open spec fn hexv(c: u8) -> int {
    if c <= 57 {
        c - 48
    } else {
        c - 87
    }
}

/// A valid displayed transaction hash: 64 lowercase hex characters.
pub open spec fn valid_txid_hex(t: Seq<u8>) -> bool {
    t.len() == 64 && forall|i: int| 0 <= i < 64 ==> is_hex_lc(#[trigger] t[i])
}

/// The 32 bytes named by a displayed hash, swapped back to internal order.
pub open spec fn unhex_swapped(t: Seq<u8>) -> Seq<u8> {
    Seq::new(32, |i: int| (hexv(t[2 * (31 - i)]) * 16 + hexv(t[2 * (31 - i) + 1])) as u8)
}

/// Parse a displayed transaction hash into internal byte order; `None`
/// exactly when the token is not 64 lowercase hex characters.
pub fn txid_from_hex(tok: &Vec<u8>) -> (r: Option<Vec<u8>>)
    ensures
        match r {
            Some(v) => valid_txid_hex(tok@) && v@ == unhex_swapped(tok@),
            None => !valid_txid_hex(tok@),
        },
{
    if tok.len() != 64 {
        return None;
    }
    let mut out: Vec<u8> = Vec::new();
    let mut i: usize = 0;
    while i < 32
        invariant
            0 <= i <= 32,
            tok@.len() == 64,
            out@.len() == i,
            forall|j: int|
                0 <= j < 2 * i ==> is_hex_lc(#[trigger] tok@[63 - j]),
            forall|j: int|
                0 <= j < i ==> #[trigger] out@[j] == (hexv(tok@[2 * (31 - j)]) * 16 + hexv(
                    tok@[2 * (31 - j) + 1],
                )) as u8,
        decreases 32 - i,
    {
        let hi = tok[62 - 2 * i];
        let lo = tok[63 - 2 * i];
        let hv: u8;
        let lv: u8;
        if 48 <= hi && hi <= 57 {
            hv = hi - 48;
        } else if 97 <= hi && hi <= 102 {
            hv = hi - 87;
        } else {
            return None;
        }
        if 48 <= lo && lo <= 57 {
            lv = lo - 48;
        } else if 97 <= lo && lo <= 102 {
            lv = lo - 87;
        } else {
            return None;
        }
        out.push(hv * 16 + lv);
        proof {
            assert(2 * ((31 - i) as int) == 62 - 2 * (i as int));
        }
        i = i + 1;
    }
    proof {
        assert forall|i1: int| 0 <= i1 < 64 implies is_hex_lc(#[trigger] tok@[i1]) by {
            assert(is_hex_lc(tok@[63 - (63 - i1)]));
        }
        assert(out@ =~= unhex_swapped(tok@));
    }
    Some(out)
}

/// Display form of one fragment inside a queue: `color value,`.
pub open spec fn taint_part_text(p: TaintPart) -> Seq<char> {
    dec_str(p.name as nat) + seq![' '] + dec_str(p.value as nat) + seq![',']
}

/// Display form of a whole queue, fragments in order.
pub open spec fn taint_text(s: Seq<TaintPart>) -> Seq<char>
    decreases s.len(),
{
    if s.len() == 0 {
        Seq::empty()
    } else {
        taint_text(s.drop_last()) + taint_part_text(s.last())
    }
}

/// Render an optional taint queue as `color value,` groups; `None` (fully
/// clean) renders as the empty string.
pub fn taint_to_string(vdtp: &Option<VecDeque<TaintPart>>) -> (r: String)
    ensures
        match vdtp {
            Some(q) => r@ == taint_text(q@),
            None => r@ == Seq::<char>::empty(),
        },
{
    match vdtp {
        Some(q) => {
            let mut s = String::new();
            let mut i: usize = 0;
            proof {
                assert(q@.take(0) =~= Seq::<TaintPart>::empty());
            }
            while i < q.len()
                invariant
                    0 <= i <= q@.len(),
                    s@ == taint_text(q@.take(i as int)),
                decreases q@.len() - i,
            {
                let p = q[i];
                let ghost spre = s@;
                s.append(u64_to_string(p.name as u64).as_str());
                s.append(" ");
                s.append(u64_to_string(p.value).as_str());
                s.append(",");
                proof {
                    reveal_strlit(" ");
                    reveal_strlit(",");
                    assert(" "@ =~= seq![' ']);
                    assert(","@ =~= seq![',']);
                    assert(q@.take(i as int + 1).drop_last() =~= q@.take(i as int));
                    assert(q@.take(i as int + 1).last() == p);
                    assert(s@ =~= spre + taint_part_text(p));
                }
                i = i + 1;
            }
            proof {
                assert(q@.take(q@.len() as int) =~= q@);
            }
            s
        },
        None => String::new(),
    }
}

/// Index of the last comma in `s`, or -1 if there is none.
pub open spec fn last_comma(s: Seq<u8>) -> int
    decreases s.len(),
{
    if s.len() == 0 {
        -1
    } else if s.last() == 44 {
        s.len() - 1
    } else {
        last_comma(s.drop_last())
    }
}

pub proof fn lemma_last_comma_range(s: Seq<u8>)
    ensures
        -1 <= last_comma(s) < s.len(),
    decreases s.len(),
{
    if s.len() > 0 && s.last() != 44 {
        lemma_last_comma_range(s.drop_last());
    }
}

/// The comma-separated tokens of `s`, in order. Splitting the empty
/// string gives one empty token.
pub open spec fn split_text(s: Seq<u8>) -> Seq<Seq<u8>>
    decreases s.len()
        via split_text_decreases
{
    if last_comma(s) < 0 {
        seq![s]
    } else {
        split_text(s.take(last_comma(s))).push(s.skip(last_comma(s) + 1))
    }
}

#[via_fn]
proof fn split_text_decreases(s: Seq<u8>) {
    lemma_last_comma_range(s);
}

/// Tokens reassembled with commas between them.
pub open spec fn join_tokens(ts: Seq<Seq<u8>>) -> Seq<u8>
    decreases ts.len(),
{
    if ts.len() == 0 {
        Seq::empty()
    } else if ts.len() == 1 {
        ts[0]
    } else {
        join_tokens(ts.drop_last()) + seq![44u8] + ts.last()
    }
}

pub open spec fn no_commas(ts: Seq<Seq<u8>>) -> bool {
    forall|i: int, j: int|
        0 <= i < ts.len() && 0 <= j < ts[i].len() ==> #[trigger] ts[i][j] != 44
}

proof fn lemma_last_comma_none(s: Seq<u8>)
    requires
        forall|j: int| 0 <= j < s.len() ==> #[trigger] s[j] != 44,
    ensures
        last_comma(s) == -1,
    decreases s.len(),
{
    if s.len() > 0 {
        assert forall|j: int| 0 <= j < s.drop_last().len() implies #[trigger] s.drop_last()[j]
            != 44 by {
            assert(s.drop_last()[j] == s[j]);
        }
        lemma_last_comma_none(s.drop_last());
    }
}

proof fn lemma_last_comma_at(x: Seq<u8>, y: Seq<u8>)
    requires
        forall|j: int| 0 <= j < y.len() ==> #[trigger] y[j] != 44,
    ensures
        last_comma(x + seq![44u8] + y) == x.len(),
    decreases y.len(),
{
    let s = x + seq![44u8] + y;
    if y.len() == 0 {
        assert(s.last() == 44);
    } else {
        assert(s.last() == y.last());
        assert(y.last() != 44);
        assert(s.drop_last() =~= x + seq![44u8] + y.drop_last());
        assert forall|j: int| 0 <= j < y.drop_last().len() implies #[trigger] y.drop_last()[j]
            != 44 by {
            assert(y.drop_last()[j] == y[j]);
        }
        lemma_last_comma_at(x, y.drop_last());
    }
}

/// Tokens without commas that join back to `s` are exactly `split_text(s)`:
/// the decomposition is unique.
pub proof fn lemma_split_unique(ts: Seq<Seq<u8>>, s: Seq<u8>)
    requires
        ts.len() >= 1,
        no_commas(ts),
        join_tokens(ts) == s,
    ensures
        ts == split_text(s),
    decreases ts.len(),
{
    if ts.len() == 1 {
        assert(s == ts[0]);
        assert forall|j: int| 0 <= j < s.len() implies #[trigger] s[j] != 44 by {
            assert(ts[0][j] != 44);
        }
        lemma_last_comma_none(s);
        assert(ts =~= seq![s]);
    } else {
        let x = join_tokens(ts.drop_last());
        let y = ts.last();
        assert forall|j: int| 0 <= j < y.len() implies #[trigger] y[j] != 44 by {
            assert(ts[ts.len() - 1][j] != 44);
        }
        lemma_last_comma_at(x, y);
        assert(s.take(x.len() as int) =~= x);
        assert(s.skip(x.len() as int + 1) =~= y);
        assert forall|i: int, j: int|
            0 <= i < ts.drop_last().len() && 0 <= j < ts.drop_last()[i].len() implies #[trigger] ts.drop_last()[i][j]
            != 44 by {
            assert(ts.drop_last()[i] == ts[i]);
            assert(ts[i][j] != 44);
        }
        lemma_split_unique(ts.drop_last(), x);
        assert(ts =~= ts.drop_last().push(y));
    }
}

/// The views of a vector of byte vectors.
pub open spec fn views_of(v: Seq<Vec<u8>>) -> Seq<Seq<u8>> {
    Seq::new(v.len(), |i: int| v[i]@)
}

/// Split a line on commas. The result is exactly the comma-separated
/// tokens of the line, in order.
pub fn split_commas(line: &Vec<u8>) -> (r: Vec<Vec<u8>>)
    ensures
        views_of(r@) == split_text(line@),
        r@.len() == split_text(line@).len(),
{
    let mut tokens: Vec<Vec<u8>> = Vec::new();
    let mut cur: Vec<u8> = Vec::new();
    let mut i: usize = 0;
    proof {
        assert(join_tokens(views_of(tokens@).push(cur@)) =~= line@.take(0));
    }
    while i < line.len()
        invariant
            0 <= i <= line@.len(),
            join_tokens(views_of(tokens@).push(cur@)) == line@.take(i as int),
            no_commas(views_of(tokens@).push(cur@)),
        decreases line@.len() - i,
    {
        let ghost tsv = views_of(tokens@).push(cur@);
        let b = line[i];
        if b == 44 {
            tokens.push(cur);
            cur = Vec::new();
            proof {
                let tsv2 = views_of(tokens@).push(cur@);
                assert(tsv2.drop_last() =~= tsv);
                assert(join_tokens(tsv2) == join_tokens(tsv) + seq![44u8] + cur@);
                assert(join_tokens(tsv) + seq![44u8] + cur@ =~= line@.take(i as int + 1));
                assert forall|i1: int, j1: int|
                    0 <= i1 < tsv2.len() && 0 <= j1 < tsv2[i1].len() implies #[trigger] tsv2[i1][j1]
                    != 44 by {
                    if i1 < tsv2.len() - 1 {
                        assert(tsv2[i1] == tsv[i1]);
                        assert(tsv[i1][j1] != 44);
                    }
                }
            }
        } else {
            cur.push(b);
            proof {
                let tsv2 = views_of(tokens@).push(cur@);
                if tsv.len() == 1 {
                    assert(tsv2 =~= seq![cur@]);
                    assert(join_tokens(tsv2) == cur@);
                    assert(cur@ =~= line@.take(i as int + 1));
                } else {
                    assert(tsv2.drop_last() =~= tsv.drop_last());
                    assert(join_tokens(tsv2) == join_tokens(tsv.drop_last()) + seq![44u8] + cur@);
                    assert(join_tokens(tsv.drop_last()) + seq![44u8] + cur@ =~= line@.take(
                        i as int + 1,
                    ));
                }
                assert forall|i1: int, j1: int|
                    0 <= i1 < tsv2.len() && 0 <= j1 < tsv2[i1].len() implies #[trigger] tsv2[i1][j1]
                    != 44 by {
                    if i1 < tsv2.len() - 1 {
                        assert(tsv2[i1] == tsv[i1]);
                        assert(tsv[i1][j1] != 44);
                    } else {
                        assert(tsv2[i1] == cur@);
                        if j1 < cur@.len() - 1 {
                            assert(tsv[tsv.len() - 1][j1] != 44);
                        }
                    }
                }
            }
        }
        i = i + 1;
    }
    let ghost tsv = views_of(tokens@).push(cur@);
    tokens.push(cur);
    proof {
        assert(line@.take(line@.len() as int) =~= line@);
        assert(views_of(tokens@) =~= tsv);
        lemma_split_unique(views_of(tokens@), line@);
    }
    tokens
}

/// The timestamp rendering used in exports, `YYYYMMDD-HHMMSS` in UTC,
/// named as a function of the Unix timestamp alone.
pub uninterp spec fn date_string_of(timestamp: i64) -> Seq<char>;

/// Relies on chrono: `DateTime::<Utc>::from_timestamp` converts a Unix
/// timestamp in the supported range, and formatting with `%Y%m%d-%H%M%S`
/// renders it as `YYYYMMDD-HHMMSS` in UTC, a function of the timestamp
/// alone.
#[verifier::external_body]
pub fn timestamp_to_date(timestamp: i64) -> (r: String)
    requires
        0 <= timestamp <= u32::MAX,
    ensures
        r@ == date_string_of(timestamp),
{
    match chrono::DateTime::<chrono::Utc>::from_timestamp(timestamp, 0) {
        Some(dt) => dt.format("%Y%m%d-%H%M%S").to_string(),
        None => String::new(),
    }
}

} // verus!
