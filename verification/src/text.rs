use vstd::prelude::*;

use crate::model::Edge;
use vstd::string::{StringExecFns, StringSliceAdditionalSpecFns};

verus! {

/// The decimal digit character for `d`.
pub open spec fn digit_char(d: nat) -> char {
    if d == 0 {
        '0'
    } else if d == 1 {
        '1'
    } else if d == 2 {
        '2'
    } else if d == 3 {
        '3'
    } else if d == 4 {
        '4'
    } else if d == 5 {
        '5'
    } else if d == 6 {
        '6'
    } else if d == 7 {
        '7'
    } else if d == 8 {
        '8'
    } else {
        '9'
    }
}

/// The decimal rendering of `n`, most significant digit first.
pub open spec fn dec_str(n: nat) -> Seq<char>
    decreases n,
{
    if n < 10 {
        seq![digit_char(n)]
    } else {
        dec_str(n / 10).push(digit_char(n % 10))
    }
}

fn push_digit(s: &mut String, d: usize)
    requires
        d < 10,
    ensures
        final(s)@ == old(s)@.push(digit_char(d as nat)),
{
    let t: &str = match d {
        0 => "0",
        1 => "1",
        2 => "2",
        3 => "3",
        4 => "4",
        5 => "5",
        6 => "6",
        7 => "7",
        8 => "8",
        _ => "9",
    };
    proof {
        reveal_strlit("0");
        reveal_strlit("1");
        reveal_strlit("2");
        reveal_strlit("3");
        reveal_strlit("4");
        reveal_strlit("5");
        reveal_strlit("6");
        reveal_strlit("7");
        reveal_strlit("8");
        reveal_strlit("9");
        assert(t@ =~= seq![digit_char(d as nat)]);
    }
    s.append(t);
    proof {
        assert(final(s)@ =~= old(s)@.push(digit_char(d as nat)));
    }
}

/// Append the decimal rendering of `n`.
pub fn push_number(s: &mut String, n: usize)
    ensures
        final(s)@ == old(s)@ + dec_str(n as nat),
    decreases n,
{
    if n < 10 {
        push_digit(s, n);
        proof {
            assert(old(s)@.push(digit_char(n as nat)) =~= old(s)@ + dec_str(n as nat));
        }
    } else {
        push_number(s, n / 10);
        push_digit(s, n % 10);
        proof {
            assert((old(s)@ + dec_str((n / 10) as nat)).push(digit_char((n % 10) as nat)) =~= old(
                s,
            )@ + dec_str(n as nat));
        }
    }
}

/// Append the decimal rendering of `n`.
pub fn push_number_u64(s: &mut String, n: u64)
    ensures
        final(s)@ == old(s)@ + dec_str(n as nat),
    decreases n,
{
    if n < 10 {
        push_digit(s, (n % 10) as usize);
        proof {
            assert(old(s)@.push(digit_char(n as nat)) =~= old(s)@ + dec_str(n as nat));
        }
    } else {
        push_number_u64(s, n / 10);
        push_digit(s, (n % 10) as usize);
        proof {
            assert((old(s)@ + dec_str((n / 10) as nat)).push(digit_char((n % 10) as nat)) =~= old(
                s,
            )@ + dec_str(n as nat));
        }
    }
}

/// The canonical key text of a sorted canonical edge list: each edge as
/// `a-b`, edges joined by `|`.
pub open spec fn key_str(es: Seq<Edge>) -> Seq<char>
    decreases es.len(),
{
    if es.len() == 0 {
        Seq::empty()
    } else if es.len() == 1 {
        edge_str(es[0])
    } else {
        key_str(es.drop_last()) + seq!['|'] + edge_str(es.last())
    }
}

pub open spec fn edge_str(e: Edge) -> Seq<char> {
    dec_str(e.0 as nat) + seq!['-'] + dec_str(e.1 as nat)
}

fn push_edge(s: &mut String, e: Edge)
    ensures
        final(s)@ == old(s)@ + edge_str(e),
{
    push_number(s, e.0);
    proof {
        reveal_strlit("-");
    }
    s.append("-");
    push_number(s, e.1);
    proof {
        assert(final(s)@ =~= old(s)@ + edge_str(e));
    }
}

/// Render the canonical key string of an edge list.
pub fn render_key(es: &Vec<Edge>) -> (r: String)
    ensures
        r@ == key_str(es@),
{
    let mut s = String::new();
    let mut i: usize = 0;
    while i < es.len()
        invariant
            i <= es@.len(),
            s@ == key_str(es@.subrange(0, i as int)),
        decreases es@.len() - i,
    {
        proof {
            assert(es@.subrange(0, i + 1).drop_last() =~= es@.subrange(0, i as int));
            assert(es@.subrange(0, i + 1).last() == es@[i as int]);
            assert(es@.subrange(0, 1) =~= seq![es@[0]]);
            reveal_strlit("|");
        }
        if i > 0 {
            s.append("|");
        }
        push_edge(&mut s, es[i]);
        proof {
            assert(s@ =~= key_str(es@.subrange(0, i + 1)));
        }
        i += 1;
    }
    proof {
        assert(es@.subrange(0, es@.len() as int) =~= es@);
    }
    s
}

/// The numeric value of a decimal digit byte, ten when it is none.
pub open spec fn digit_val(b: u8) -> nat {
    if 48 <= b <= 57 {
        (b - 48) as nat
    } else {
        10
    }
}

pub open spec fn all_digits(bs: Seq<u8>) -> bool {
    forall|i: int| 0 <= i < bs.len() ==> digit_val(#[trigger] bs[i]) < 10
}

/// The number a digit string denotes, most significant first.
pub open spec fn dec_val(bs: Seq<u8>) -> nat
    decreases bs.len(),
{
    if bs.len() == 0 {
        0
    } else {
        dec_val(bs.drop_last()) * 10 + digit_val(bs.last())
    }
}

/// Parse an unsigned decimal from a byte slice range. Returns the value
/// exactly when the range is nonempty, all digits, and fits in `usize`.
pub fn parse_usize(bs: &[u8], from: usize, to: usize) -> (r: Option<usize>)
    requires
        from <= to <= bs@.len(),
    ensures
        r matches Some(v) ==> from < to && all_digits(bs@.subrange(from as int, to as int)) && v
            == dec_val(bs@.subrange(from as int, to as int)),
        r is None ==> !(from < to && all_digits(bs@.subrange(from as int, to as int)) && dec_val(
            bs@.subrange(from as int, to as int),
        ) <= usize::MAX),
{
    if from >= to {
        return None;
    }
    let mut acc: usize = 0;
    let mut i: usize = from;
    let ghost whole = bs@.subrange(from as int, to as int);
    while i < to
        invariant
            from <= i <= to <= bs@.len(),
            whole == bs@.subrange(from as int, to as int),
            all_digits(bs@.subrange(from as int, i as int)),
            acc == dec_val(bs@.subrange(from as int, i as int)),
        decreases to - i,
    {
        let b = vstd::slice::slice_index_get(bs, i);
        proof {
            assert(bs@.subrange(from as int, i + 1).drop_last() =~= bs@.subrange(
                from as int,
                i as int,
            ));
            assert(bs@.subrange(from as int, i + 1).last() == bs@[i as int]);
        }
        if *b < 48 || *b > 57 {
            proof {
                assert(whole[i - from] == bs@[i as int]);
                assert(!all_digits(whole));
            }
            return None;
        }
        let d = (*b - 48) as usize;
        let acc10 = match acc.checked_mul(10) {
            Some(x) => x,
            None => {
                proof {
                    lemma_dec_val_grows(bs@, from as int, i as int, to as int);
                }
                return None;
            },
        };
        let acc2 = match acc10.checked_add(d) {
            Some(x) => x,
            None => {
                proof {
                    lemma_dec_val_grows(bs@, from as int, i as int, to as int);
                }
                return None;
            },
        };
        acc = acc2;
        i += 1;
    }
    proof {
        assert(bs@.subrange(from as int, to as int) == whole);
    }
    Some(acc)
}

/// Digits appended to the right never shrink the value.
proof fn lemma_dec_val_grows(bs: Seq<u8>, from: int, i: int, to: int)
    requires
        0 <= from <= i < to <= bs.len(),
    ensures
        dec_val(bs.subrange(from, to)) >= dec_val(bs.subrange(from, i + 1)),
    decreases to - i,
{
    if i + 1 < to {
        lemma_dec_val_grows(bs, from, i + 1, to);
        let a = bs.subrange(from, i + 1);
        let b = bs.subrange(from, i + 2);
        assert(b.drop_last() =~= a);
        assert(dec_val(b) == dec_val(a) * 10 + digit_val(b.last()));
        assert(dec_val(a) * 10 >= dec_val(a)) by (nonlinear_arith);
    }
}

/// Position of the first comma byte at or after `from`, or the length.
pub fn find_comma(bs: &[u8], from: usize) -> (r: usize)
    requires
        from <= bs@.len(),
    ensures
        from <= r <= bs@.len(),
        forall|j: int| from <= j < r ==> bs@[j] != 44,
        r < bs@.len() ==> bs@[r as int] == 44,
{
    let n = bs.len();
    let mut i: usize = from;
    while i < n
        invariant
            from <= i <= n,
            n == bs@.len(),
            forall|j: int| from <= j < i ==> bs@[j] != 44,
        decreases n - i,
    {
        if *vstd::slice::slice_index_get(bs, i) == 44 {
            return i;
        }
        i += 1;
    }
    n
}

/// Index of the first comma byte at or after `from`, or the length.
pub open spec fn comma_at(bs: Seq<u8>, from: int) -> int
    decreases bs.len() - from,
{
    if from < 0 || from >= bs.len() {
        bs.len() as int
    } else if bs[from] == 44 {
        from
    } else {
        comma_at(bs, from + 1)
    }
}

pub proof fn lemma_comma_at(bs: Seq<u8>, from: int, r: int)
    requires
        0 <= from <= r <= bs.len(),
        forall|j: int| from <= j < r ==> bs[j] != 44,
        r < bs.len() ==> bs[r] == 44,
    ensures
        comma_at(bs, from) == r,
    decreases r - from,
{
    if from < r {
        lemma_comma_at(bs, from + 1, r);
    }
}

/// Whether the byte range holds a number that fits the machine.
pub open spec fn num_field(bs: Seq<u8>, from: int, to: int) -> bool {
    from < to && all_digits(bs.subrange(from, to)) && dec_val(bs.subrange(from, to)) <= usize::MAX
}

/// Parse one `u,v` line of the edge-list input, the two endpoint fields
/// split at the first two commas; text after a second comma is ignored,
/// as the loader ignores extra fields.
pub fn parse_edge_line(line: &str) -> (r: Option<Edge>)
    ensures
        ({
            let bs = line.spec_bytes();
            let c1 = comma_at(bs, 0);
            let c2 = comma_at(bs, c1 + 1);
            &&& (r matches Some(e) ==> c1 < bs.len() && num_field(bs, 0, c1) && num_field(
                bs,
                c1 + 1,
                c2,
            ) && e.0 == dec_val(bs.subrange(0, c1)) && e.1 == dec_val(bs.subrange(c1 + 1, c2)))
            &&& (r is None ==> !(c1 < bs.len() && num_field(bs, 0, c1) && num_field(
                bs,
                c1 + 1,
                c2,
            )))
        }),
{
    let bs = line.as_bytes();
    let c1 = find_comma(bs, 0);
    proof {
        lemma_comma_at(bs@, 0, c1 as int);
    }
    if c1 >= bs.len() {
        return None;
    }
    let c2 = find_comma(bs, c1 + 1);
    proof {
        lemma_comma_at(bs@, c1 + 1, c2 as int);
    }
    let u = parse_usize(bs, 0, c1);
    let v = parse_usize(bs, c1 + 1, c2);
    match (u, v) {
        (Some(a), Some(b)) => Some((a, b)),
        _ => None,
    }
}

/// Where a memo line's signed value field starts: after the comma, and
/// after the sign when one stands there.
pub open spec fn memo_value_start(bs: Seq<u8>) -> int {
    let c1 = comma_at(bs, 0);
    if c1 + 1 < bs.len() && bs[c1 + 1] == 45 {
        c1 + 2
    } else {
        c1 + 1
    }
}

/// A well-formed memo line: a comma, then an optionally signed decimal
/// whose magnitude the machine can hold.
pub open spec fn memo_line_ok(bs: Seq<u8>) -> bool {
    let c1 = comma_at(bs, 0);
    let start = memo_value_start(bs);
    &&& c1 < bs.len()
    &&& start < bs.len()
    &&& all_digits(bs.subrange(start, bs.len() as int))
    &&& dec_val(bs.subrange(start, bs.len() as int)) <= usize::MAX
    &&& dec_val(bs.subrange(start, bs.len() as int)) <= if start == c1 + 2 {
        0x8000_0000_0000_0000int
    } else {
        0x7fff_ffff_ffff_ffffint
    }
}

/// Parse one `key,value` line of the memo file: the key is the text before
/// the first comma, the value a signed decimal filling the rest. Succeeds
/// exactly on well-formed lines (the comma of a genuine string always sits
/// on a character boundary; the conjunct records what `split_at` needs).
pub fn parse_memo_line(line: &str) -> (r: Option<(String, i64)>)
    ensures
        ({
            let bs = line.spec_bytes();
            let c1 = comma_at(bs, 0);
            let start = memo_value_start(bs);
            &&& (r matches Some(p) ==> memo_line_ok(bs) && vstd::utf8::encode_utf8(p.0@)
                == bs.subrange(0, c1) && (start == c1 + 2 ==> p.1 as int == -(dec_val(
                bs.subrange(start, bs.len() as int),
            ) as int)) && (start == c1 + 1 ==> p.1 as int == dec_val(
                bs.subrange(start, bs.len() as int),
            ) as int))
            &&& (r is None ==> !memo_line_ok(bs) || !vstd::utf8::is_char_boundary(bs, c1))
        }),
{
    let bs = line.as_bytes();
    let c1 = find_comma(bs, 0);
    proof {
        lemma_comma_at(bs@, 0, c1 as int);
    }
    if c1 >= bs.len() {
        return None;
    }
    let n = bs.len();
    if c1 + 1 >= n {
        return None;
    }
    let neg = *vstd::slice::slice_index_get(bs, c1 + 1) == 45;
    let start = if neg {
        c1 + 2
    } else {
        c1 + 1
    };
    if start >= n {
        return None;
    }
    let mag = parse_usize(bs, start, n);
    let v: i64 = match mag {
        Some(m) => {
            if (m as u64) <= 0x7fff_ffff_ffff_ffffu64 {
                if neg {
                    -(m as i64)
                } else {
                    m as i64
                }
            } else if neg && (m as u64) == 0x8000_0000_0000_0000u64 {
                i64::MIN
            } else {
                return None;
            }
        },
        None => {
            return None;
        },
    };
    if !line.is_char_boundary(c1) {
        return None;
    }
    let (a, _rest) = line.split_at(c1);
    let key = a.to_owned();
    proof {
        assert(vstd::utf8::encode_utf8(key@) =~= bs@.subrange(0, c1 as int));
    }
    Some((key, v))
}

/// Render one `key,value` memo line.
pub fn render_memo_line(key: &String, value: i64) -> (r: String)
    ensures
        r@ == key@ + seq![','] + (if value < 0 {
            seq!['-'] + dec_str((-(value as int)) as nat)
        } else {
            dec_str(value as nat)
        }),
{
    let mut s = key.clone();
    proof {
        reveal_strlit(",");
        reveal_strlit("-");
    }
    s.append(",");
    if value < 0 {
        s.append("-");
        let m: u64 = if value == i64::MIN {
            9223372036854775808u64
        } else {
            (-value) as u64
        };
        push_number_u64(&mut s, m);
        proof {
            assert(s@ =~= key@ + seq![','] + (seq!['-'] + dec_str((-(value as int)) as nat)));
        }
    } else {
        push_number_u64(&mut s, value as u64);
        proof {
            assert(s@ =~= key@ + seq![','] + dec_str(value as nat));
        }
    }
    s
}

} // verus!
