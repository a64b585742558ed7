//! Textual encoding of a cell list, as external persistence stores it.
//!
//! A non-empty list of `(row, column)` cells is written as dash-joined
//! decimal pairs separated by commas, `"1-1,2-2,3-3"`, held here as ASCII
//! bytes. The decoder accepts exactly the canonical spellings the encoder
//! produces — every number in plain decimal without leading zeros and within
//! `u32` — and rejects anything else, so a decoded list re-encodes to the
//! same bytes and an encoded list decodes to the same cells.
//!
//! Byte values used below: `45` is `-`, `44` is `,`, `48` is `0`, `57` is `9`.

use vstd::prelude::*;

verus! {

/// Is `b` the ASCII code of a decimal digit?
pub open spec fn is_digit(b: u8) -> bool {
    48 <= b <= 57
}

/// The ASCII digits of `n` in decimal, most significant first.
pub open spec fn dec_digits(n: nat) -> Seq<u8>
    decreases n,
{
    if n < 10 {
        seq![(48 + n) as u8]
    } else {
        dec_digits(n / 10).push((48 + n % 10) as u8)
    }
}

/// The bytes of one cell: row, a dash, column.
pub open spec fn encode_pair(c: (u32, u32)) -> Seq<u8> {
    dec_digits(c.0 as nat) + seq![45u8] + dec_digits(c.1 as nat)
}

/// The bytes of a cell list: encoded cells joined by commas; empty for an
/// empty list.
pub open spec fn encode_cells(cs: Seq<(u32, u32)>) -> Seq<u8>
    decreases cs.len(),
{
    if cs.len() == 0 {
        Seq::empty()
    } else if cs.len() == 1 {
        encode_pair(cs[0])
    } else {
        encode_pair(cs[0]) + seq![44u8] + encode_cells(cs.drop_first())
    }
}

/// How many consecutive digits stand at `pos`.
pub open spec fn digit_run(s: Seq<u8>, pos: int) -> nat
    decreases s.len() - pos,
    when 0 <= pos <= s.len()
{
    if pos < s.len() && is_digit(s[pos]) {
        (1 + digit_run(s, pos + 1)) as nat
    } else {
        0
    }
}

/// The value of a digit string, most significant first.
pub open spec fn digits_val(ds: Seq<u8>) -> int
    decreases ds.len(),
{
    if ds.len() == 0 {
        0
    } else {
        digits_val(ds.drop_last()) * 10 + (ds.last() as int) - 48
    }
}

/// A canonical decimal token: non-empty, digits only, no leading zero
/// unless it is the single digit `0`, and a value that fits in `u32`.
pub open spec fn is_num_token(ds: Seq<u8>) -> bool {
    &&& ds.len() > 0
    &&& (forall|t: int| 0 <= t < ds.len() ==> is_digit(#[trigger] ds[t]))
    &&& (ds[0] != 48 || ds.len() == 1)
    &&& digits_val(ds) <= u32::MAX
}

/// Parse a cell list beginning at `pos` and running to the end of `s`:
/// `Some` exactly when the bytes from `pos` on are a canonical encoding.
pub open spec fn parse_cells_at(s: Seq<u8>, pos: int) -> Option<Seq<(u32, u32)>>
    decreases s.len() - pos,
    when 0 <= pos <= s.len()
{
    let r1 = digit_run(s, pos);
    let tok1 = s.subrange(pos, pos + r1);
    if !is_num_token(tok1) {
        None
    } else {
        let p1 = pos + r1;
        if p1 < s.len() && s[p1] == 45 {
            let r2 = digit_run(s, p1 + 1);
            let tok2 = s.subrange(p1 + 1, p1 + 1 + r2);
            if !is_num_token(tok2) {
                None
            } else {
                let p2 = p1 + 1 + r2;
                let c = (digits_val(tok1) as u32, digits_val(tok2) as u32);
                if p2 == s.len() {
                    Some(seq![c])
                } else if p2 < s.len() && s[p2] == 44 {
                    match parse_cells_at(s, p2 + 1) {
                        None => None,
                        Some(rest) => Some(seq![c] + rest),
                    }
                } else {
                    None
                }
            }
        } else {
            None
        }
    }
}

/// Append the decimal spelling of `n`.
fn push_decimal(out: &mut Vec<u8>, n: u32)
    ensures
        final(out)@ == old(out)@ + dec_digits(n as nat),
    decreases n,
{
    if n < 10 {
        out.push(48 + (n as u8));
        proof {
            assert(out@ =~= old(out)@ + dec_digits(n as nat));
        }
    } else {
        push_decimal(out, n / 10);
        out.push(48 + ((n % 10) as u8));
        proof {
            assert(out@ =~= old(out)@ + dec_digits(n as nat));
        }
    }
}

/// The tail form of the encoding: appending one more cell appends a comma
/// and its bytes.
proof fn lemma_encode_push(cs: Seq<(u32, u32)>, c: (u32, u32))
    ensures
        encode_cells(cs.push(c)) == (if cs.len() == 0 {
            encode_pair(c)
        } else {
            encode_cells(cs) + seq![44u8] + encode_pair(c)
        }),
    decreases cs.len(),
{
    let sp = cs.push(c);
    if cs.len() == 0 {
        assert(sp.len() == 1);
        assert(sp[0] == c);
    } else {
        assert(sp.len() >= 2);
        assert(sp[0] == cs[0]);
        assert(sp.drop_first() =~= cs.drop_first().push(c));
        lemma_encode_push(cs.drop_first(), c);
        if cs.len() == 1 {
            assert(cs.drop_first().len() == 0);
            assert(encode_cells(sp) =~= encode_cells(cs) + seq![44u8] + encode_pair(c));
        } else {
            assert(encode_cells(sp) =~= encode_cells(cs) + seq![44u8] + encode_pair(c));
        }
    }
}

/// A digit appended to a digit string multiplies its value by ten and never
/// lowers it.
proof fn lemma_digits_val_step(ds: Seq<u8>, d: u8)
    requires
        forall|t: int| 0 <= t < ds.len() ==> is_digit(#[trigger] ds[t]),
        is_digit(d),
    ensures
        digits_val(ds.push(d)) == digits_val(ds) * 10 + (d as int) - 48,
        digits_val(ds) >= 0,
        digits_val(ds.push(d)) >= digits_val(ds),
    decreases ds.len(),
{
    assert(ds.push(d).drop_last() =~= ds);
    if ds.len() > 0 {
        assert(ds.drop_last().push(ds.last()) =~= ds);
        lemma_digits_val_step(ds.drop_last(), ds.last());
    }
}

/// Read one canonical decimal number beginning at `pos`: its value and the
/// position just past it, or `None` when the digits there are not one.
fn parse_number(bytes: &Vec<u8>, pos: usize) -> (r: Option<(u32, usize)>)
    requires
        pos <= bytes@.len(),
    ensures
        (match r {
            Some(v) => {
                &&& is_num_token(bytes@.subrange(pos as int, pos + digit_run(bytes@, pos as int)))
                &&& v.0 == digits_val(
                    bytes@.subrange(pos as int, pos + digit_run(bytes@, pos as int)),
                )
                &&& v.1 == pos + digit_run(bytes@, pos as int)
                &&& v.1 <= bytes@.len()
            },
            None => !is_num_token(
                bytes@.subrange(pos as int, pos + digit_run(bytes@, pos as int)),
            ),
        }),
{
    let ghost s = bytes@;
    let n = bytes.len();
    let mut end = pos;
    while end < n && 48 <= bytes[end] && bytes[end] <= 57
        invariant
            s == bytes@,
            n == s.len(),
            pos <= end <= n,
            forall|t: int| pos <= t < end ==> is_digit(#[trigger] s[t]),
            digit_run(s, pos as int) == end - pos + digit_run(s, end as int),
        decreases n - end,
    {
        end += 1;
    }
    proof {
        assert(digit_run(s, end as int) == 0);
        assert(digit_run(s, pos as int) == end - pos);
    }
    let ghost tok = s.subrange(pos as int, end as int);
    if end == pos {
        proof {
            assert(tok.len() == 0);
        }
        return None;
    }
    if bytes[pos] == 48 && end - pos > 1 {
        proof {
            assert(tok[0] == 48 && tok.len() > 1);
        }
        return None;
    }
    let mut val: u64 = 0;
    let mut too_big = false;
    let mut k = pos;
    while k < end
        invariant
            s == bytes@,
            pos <= k <= end <= s.len(),
            tok == s.subrange(pos as int, end as int),
            forall|t: int| pos <= t < end ==> is_digit(#[trigger] s[t]),
            !too_big ==> val == digits_val(s.subrange(pos as int, k as int)) && val <= u32::MAX,
            too_big ==> digits_val(s.subrange(pos as int, k as int)) > u32::MAX,
            digits_val(s.subrange(pos as int, k as int)) >= 0,
        decreases end - k,
    {
        let d = bytes[k];
        proof {
            assert(s.subrange(pos as int, k + 1) =~= s.subrange(pos as int, k as int).push(
                s[k as int],
            ));
            lemma_digits_val_step(s.subrange(pos as int, k as int), s[k as int]);
        }
        if too_big {
        } else if val > 0xFFFF_FFFFu64 / 10 || (val == 0xFFFF_FFFFu64 / 10 && d > 53) {
            // the next digit would push the value past u32::MAX
            too_big = true;
            proof {
                assert(digits_val(s.subrange(pos as int, k + 1)) > u32::MAX);
            }
        } else {
            val = val * 10 + ((d - 48) as u64);
        }
        k += 1;
    }
    if too_big {
        return None;
    }
    proof {
        assert(is_num_token(tok));
    }
    Some((val as u32, end))
}

/// The stored text of a cell list: dash-joined decimal pairs separated by
/// commas, e.g. `1-1,2-2,3-3`; empty bytes for an empty list.
pub fn serialize_cells(cells: &Vec<(u32, u32)>) -> (r: Vec<u8>)
    ensures
        r@ == encode_cells(cells@),
{
    let mut out: Vec<u8> = Vec::new();
    let mut k: usize = 0;
    while k < cells.len()
        invariant
            0 <= k <= cells@.len(),
            out@ == encode_cells(cells@.take(k as int)),
        decreases cells@.len() - k,
    {
        let c = cells[k];
        if k > 0 {
            out.push(44);
        }
        push_decimal(&mut out, c.0);
        out.push(45);
        push_decimal(&mut out, c.1);
        proof {
            assert(cells@.take(k + 1) =~= cells@.take(k as int).push(cells@[k as int]));
            lemma_encode_push(cells@.take(k as int), cells@[k as int]);
            if k == 0 {
                assert(out@ =~= encode_cells(cells@.take(k + 1)));
            } else {
                assert(out@ =~= encode_cells(cells@.take(k + 1)));
            }
        }
        k += 1;
    }
    proof {
        assert(cells@.take(cells@.len() as int) =~= cells@);
    }
    out
}

/// Decode stored text back into a cell list: the cells whose canonical
/// encoding the bytes are, or `None` when the bytes are not one — empty
/// input included, since an empty list encodes to empty bytes but no cell
/// list is read out of them.
pub fn deserialize_cells(bytes: &Vec<u8>) -> (r: Option<Vec<(u32, u32)>>)
    ensures
        (match r {
            Some(v) => parse_cells_at(bytes@, 0) == Some(v@),
            None => parse_cells_at(bytes@, 0) is None,
        }),
{
    let ghost s = bytes@;
    let n = bytes.len();
    let mut res: Vec<(u32, u32)> = Vec::new();
    let mut pos: usize = 0;
    loop
        invariant
            s == bytes@,
            n == s.len(),
            0 <= pos <= n,
            (match parse_cells_at(s, pos as int) {
                None => parse_cells_at(s, 0) is None,
                Some(rest) => parse_cells_at(s, 0) == Some(res@ + rest),
            }),
        decreases n - pos,
    {
        let ghost pvalue = parse_cells_at(s, pos as int);
        let first = parse_number(bytes, pos);
        let (a, p1) = match first {
            None => {
                return None;
            },
            Some(v) => v,
        };
        if !(p1 < n && bytes[p1] == 45) {
            return None;
        }
        let second = parse_number(bytes, p1 + 1);
        let (b, p2) = match second {
            None => {
                return None;
            },
            Some(v) => v,
        };
        proof {
            assert(pvalue == (if p2 == n {
                Some(seq![(a, b)])
            } else if p2 < n && s[p2 as int] == 44 {
                match parse_cells_at(s, p2 + 1) {
                    None => None::<Seq<(u32, u32)>>,
                    Some(rest) => Some(seq![(a, b)] + rest),
                }
            } else {
                None::<Seq<(u32, u32)>>
            }));
        }
        let ghost res0 = res@;
        if p2 == n {
            res.push((a, b));
            proof {
                assert(res@ =~= res0 + seq![(a, b)]);
            }
            return Some(res);
        }
        if !(bytes[p2] == 44) {
            return None;
        }
        res.push((a, b));
        proof {
            assert(res@ =~= res0 + seq![(a, b)]);
            match parse_cells_at(s, p2 + 1) {
                None => {},
                Some(rest) => {
                    assert(res0 + (seq![(a, b)] + rest) =~= res@ + rest);
                },
            }
        }
        pos = p2 + 1;
    }
}

/// A digit run never reaches past the end of the bytes.
proof fn lemma_digit_run_le(s: Seq<u8>, pos: int)
    requires
        0 <= pos <= s.len(),
    ensures
        pos + digit_run(s, pos) <= s.len(),
    decreases s.len() - pos,
{
    if pos < s.len() && is_digit(s[pos]) {
        lemma_digit_run_le(s, pos + 1);
    }
}

/// Inside `d + r`, the digit run from a position of the all-digit part `d`
/// runs exactly to the end of `d` when `r` does not begin with a digit.
proof fn lemma_digit_run_prefix(d: Seq<u8>, r: Seq<u8>, pos: int)
    requires
        0 <= pos <= d.len(),
        forall|t: int| 0 <= t < d.len() ==> is_digit(#[trigger] d[t]),
        r.len() == 0 || !is_digit(r[0]),
    ensures
        digit_run(d + r, pos) == d.len() - pos,
    decreases d.len() - pos,
{
    let s = d + r;
    if pos < d.len() {
        assert(s[pos] == d[pos]);
        lemma_digit_run_prefix(d, r, pos + 1);
    } else {
        if pos < s.len() {
            assert(s[pos] == r[0]);
        }
    }
}

/// A digit run, and so every parse step, sees only the bytes at and after
/// its position: shifting past a prefix changes nothing.
proof fn lemma_digit_run_shift(a: Seq<u8>, b: Seq<u8>, pos: int)
    requires
        0 <= pos <= b.len(),
    ensures
        digit_run(a + b, a.len() + pos) == digit_run(b, pos),
    decreases b.len() - pos,
{
    let s = a + b;
    if pos < b.len() {
        assert(s[a.len() + pos] == b[pos]);
        if is_digit(b[pos]) {
            lemma_digit_run_shift(a, b, pos + 1);
        }
    }
}

/// Parsing from a position past a prefix `a` reads the same cells as
/// parsing the suffix alone.
proof fn lemma_parse_shift(a: Seq<u8>, b: Seq<u8>, pos: int)
    requires
        0 <= pos <= b.len(),
    ensures
        parse_cells_at(a + b, a.len() + pos) == parse_cells_at(b, pos),
    decreases b.len() - pos,
{
    let s = a + b;
    lemma_digit_run_shift(a, b, pos);
    lemma_digit_run_le(b, pos);
    let r1 = digit_run(b, pos);
    assert(s.subrange(a.len() + pos, a.len() + pos + r1) =~= b.subrange(pos, pos + r1));
    let tok1 = b.subrange(pos, pos + r1);
    if is_num_token(tok1) {
        let p1 = pos + r1;
        if p1 < b.len() {
            assert(s[a.len() + p1] == b[p1]);
        }
        if p1 < b.len() && b[p1] == 45 {
            lemma_digit_run_shift(a, b, p1 + 1);
            lemma_digit_run_le(b, p1 + 1);
            let r2 = digit_run(b, p1 + 1);
            assert(s.subrange(a.len() + p1 + 1, a.len() + p1 + 1 + r2) =~= b.subrange(
                p1 + 1,
                p1 + 1 + r2,
            ));
            let tok2 = b.subrange(p1 + 1, p1 + 1 + r2);
            if is_num_token(tok2) {
                let p2 = p1 + 1 + r2;
                if p2 == b.len() {
                    assert(a.len() + p2 == s.len());
                } else {
                    assert(s[a.len() + p2] == b[p2]);
                    if b[p2] == 44 {
                        lemma_parse_shift(a, b, p2 + 1);
                    }
                }
            }
        }
    }
}

/// The decimal spelling of any number is a canonical token of its value.
proof fn lemma_dec_digits_wf(n: nat)
    ensures
        dec_digits(n).len() >= 1,
        forall|t: int| 0 <= t < dec_digits(n).len() ==> is_digit(#[trigger] dec_digits(n)[t]),
        n >= 1 ==> dec_digits(n)[0] != 48,
        digits_val(dec_digits(n)) == n,
    decreases n,
{
    if n < 10 {
        let ds = dec_digits(n);
        assert(ds =~= seq![(48 + n) as u8]);
        assert(ds.len() == 1);
        assert(ds.drop_last() =~= Seq::<u8>::empty());
        assert(digits_val(Seq::<u8>::empty()) == 0);
        assert(digits_val(ds) == digits_val(ds.drop_last()) * 10 + (ds.last() as int) - 48);
        assert(digits_val(ds) == (ds.last() as int) - 48);
    } else {
        lemma_dec_digits_wf(n / 10);
        let dd = dec_digits(n / 10);
        let d = (48 + n % 10) as u8;
        let ds = dec_digits(n);
        assert(ds == dd.push(d));
        assert(ds.drop_last() =~= dd);
        assert(forall|t: int| 0 <= t < dd.len() ==> ds[t] == dd[t]);
        assert(ds.last() == d);
        assert(digits_val(ds) == digits_val(dd) * 10 + (d as int) - 48);
        assert(digits_val(ds) == (n / 10) * 10 + n % 10);
    }
}

/// The spelling of a `u32` passes every canonical-token test.
proof fn lemma_dec_digits_token(m: u32)
    ensures
        is_num_token(dec_digits(m as nat)),
{
    lemma_dec_digits_wf(m as nat);
}

/// Parsing bytes that begin with one encoded cell reads that cell, then
/// finishes or continues after the comma exactly as the remainder directs.
proof fn lemma_parse_pair_head(c: (u32, u32), rest: Seq<u8>)
    requires
        rest.len() == 0 || rest[0] == 44,
    ensures
        ({
            let s = encode_pair(c) + rest;
            let p2 = encode_pair(c).len() as int;
            parse_cells_at(s, 0) == (if rest.len() == 0 {
                Some(seq![c])
            } else {
                match parse_cells_at(s, p2 + 1) {
                    None => None::<Seq<(u32, u32)>>,
                    Some(r2) => Some(seq![c] + r2),
                }
            })
        }),
{
    let s = encode_pair(c) + rest;
    let da = dec_digits(c.0 as nat);
    let db = dec_digits(c.1 as nat);
    lemma_dec_digits_wf(c.0 as nat);
    lemma_dec_digits_wf(c.1 as nat);
    lemma_dec_digits_token(c.0);
    lemma_dec_digits_token(c.1);
    let tail1 = seq![45u8] + db + rest;
    assert(s =~= da + tail1);
    assert(tail1[0] == 45);
    lemma_digit_run_prefix(da, tail1, 0);
    assert(digit_run(s, 0) == da.len());
    let r1 = digit_run(s, 0) as int;
    assert(s.subrange(0, r1) =~= da);
    let p1 = r1;
    assert(s[p1] == tail1[0]);
    let head2 = da + seq![45u8];
    let tail2 = db + rest;
    assert(s =~= head2 + tail2);
    lemma_digit_run_shift(head2, tail2, 0);
    assert(rest.len() == 0 || !is_digit(rest[0]));
    lemma_digit_run_prefix(db, rest, 0);
    assert(tail2 =~= db + rest);
    assert(digit_run(s, p1 + 1) == db.len());
    let r2 = digit_run(s, p1 + 1) as int;
    assert(s.subrange(p1 + 1, p1 + 1 + r2) =~= db);
    let p2 = p1 + 1 + r2;
    assert(p2 == encode_pair(c).len());
    assert(digits_val(da) as u32 == c.0);
    assert(digits_val(db) as u32 == c.1);
    if rest.len() == 0 {
        assert(p2 == s.len());
    } else {
        assert(p2 < s.len());
        assert(s[p2] == rest[0]);
    }
}

/// Persistence round trip: a non-empty cell list, written out and read
/// back, yields exactly the cells it held, in the order it held them.
pub proof fn lemma_encode_decode_roundtrip(cs: Seq<(u32, u32)>)
    requires
        cs.len() > 0,
    ensures
        parse_cells_at(encode_cells(cs), 0) == Some(cs),
    decreases cs.len(),
{
    if cs.len() == 1 {
        let s = encode_cells(cs);
        assert(s == encode_pair(cs[0]));
        assert(s =~= encode_pair(cs[0]) + Seq::<u8>::empty());
        lemma_parse_pair_head(cs[0], Seq::<u8>::empty());
        assert(seq![cs[0]] =~= cs);
    } else {
        let c = cs[0];
        let e2 = encode_cells(cs.drop_first());
        let rest = seq![44u8] + e2;
        let s = encode_cells(cs);
        assert(s == encode_pair(c) + rest);
        assert(rest[0] == 44);
        lemma_parse_pair_head(c, rest);
        let p2 = encode_pair(c).len() as int;
        let head = encode_pair(c) + seq![44u8];
        assert(encode_pair(c) + rest =~= head + e2);
        lemma_parse_shift(head, e2, 0);
        assert(head.len() == p2 + 1);
        assert(parse_cells_at(encode_pair(c) + rest, p2 + 1) == parse_cells_at(e2, 0));
        lemma_encode_decode_roundtrip(cs.drop_first());
        assert(seq![c] + cs.drop_first() =~= cs);
    }
}

} // verus!
