//! The four-variant binary wire format: integers (`i<decimal>e`), byte
//! strings (`<len>:<raw bytes>`), lists (`l...e`) and dictionaries
//! (`d...e` with strictly ascending byte-lexicographic keys).
//!
//! `decode` accepts exactly the canonical encodings: every accepted input
//! equals `encoded` of the returned value, so re-encoding a decoded value
//! reproduces the input byte for byte.  Every decoded node keeps the
//! half-open span `[start, end)` of the input bytes that produced it, so a
//! sub-structure can later be hashed over its exact original bytes.

use vstd::prelude::*;

verus! {

/// Canonical decimal digits of a non-negative integer, most significant
/// first, with no redundant leading zeros.
pub open spec fn dec_of(n: nat) -> Seq<u8>
    decreases n,
{
    if n < 10 {
        seq![(48 + n) as u8]
    } else {
        dec_of(n / 10) + seq![(48 + n % 10) as u8]
    }
}

/// Strict byte-lexicographic order: `a` comes before `b`.
pub open spec fn lex_lt(a: Seq<u8>, b: Seq<u8>) -> bool
    decreases a.len(),
{
    if b.len() == 0 {
        false
    } else if a.len() == 0 {
        true
    } else if a[0] < b[0] {
        true
    } else if a[0] > b[0] {
        false
    } else {
        lex_lt(a.drop_first(), b.drop_first())
    }
}

/// A decoded value, with the half-open span `[start, end)` of the bytes in
/// the original input buffer that produced it.
pub struct Value {
    pub start: usize,
    pub end: usize,
    pub kind: Kind,
}

/// The four variants of the wire format.
pub enum Kind {
    Integer(i64),
    ByteString(Vec<u8>),
    List(Vec<Value>),
    Dictionary(Vec<(Vec<u8>, Value)>),
}

/// The data-model invariant: dictionary keys are strictly ascending in
/// byte-lexicographic order, at every nesting depth.
pub open spec fn wf(v: Value) -> bool
    decreases v,
{
    match v.kind {
        Kind::Integer(_) => true,
        Kind::ByteString(_) => true,
        Kind::List(l) => forall|i: int| 0 <= i < l@.len() ==> wf(#[trigger] l@[i]),
        Kind::Dictionary(es) => {
            &&& forall|i: int| 0 <= i < es@.len() ==> wf((#[trigger] es@[i]).1)
            &&& forall|i: int|
                0 <= i && i + 1 < es@.len() ==> lex_lt((#[trigger] es@[i]).0@, es@[i + 1].0@)
        },
    }
}

/// The encoding of one byte string: decimal length, `:` (58), the bytes.
pub open spec fn str_bytes(s: Seq<u8>) -> Seq<u8> {
    dec_of(s.len()) + seq![58u8] + s
}

/// The digits of a signed integer: a `-` (45) for negatives, then the
/// canonical decimal digits of the magnitude.
pub open spec fn int_bytes(i: int) -> Seq<u8> {
    if i < 0 {
        seq![45u8] + dec_of((-i) as nat)
    } else {
        dec_of(i as nat)
    }
}

/// The canonical encoding of a value.  On a well-formed value (`wf`) this
/// is the canonical form other implementations of the format produce:
/// sorted keys and no redundant leading zeros.
pub open spec fn encoded(v: Value) -> Seq<u8>
    decreases v,
{
    match v.kind {
        Kind::Integer(i) => seq![105u8] + int_bytes(i as int) + seq![101u8],
        Kind::ByteString(s) => str_bytes(s@),
        Kind::List(l) => seq![108u8] + encoded_list(l@) + seq![101u8],
        Kind::Dictionary(es) => seq![100u8] + encoded_pairs(es@) + seq![101u8],
    }
}

/// The concatenated encodings of a sequence of values.
pub open spec fn encoded_list(l: Seq<Value>) -> Seq<u8>
    decreases l,
{
    if l.len() == 0 {
        Seq::empty()
    } else {
        encoded(l[0]) + encoded_list(l.drop_first())
    }
}

/// The concatenated encodings of a sequence of key/value pairs.
pub open spec fn encoded_pairs(es: Seq<(Vec<u8>, Value)>) -> Seq<u8>
    decreases es,
{
    if es.len() == 0 {
        Seq::empty()
    } else {
        str_bytes(es[0].0@) + encoded(es[0].1) + encoded_pairs(es.drop_first())
    }
}

/// Every node's span selects exactly that node's encoding out of the
/// original buffer `b`, recursively.
pub open spec fn spans_ok(v: Value, b: Seq<u8>) -> bool
    decreases v,
{
    &&& v.start <= v.end <= b.len()
    &&& b.subrange(v.start as int, v.end as int) == encoded(v)
    &&& match v.kind {
        Kind::Integer(_) => true,
        Kind::ByteString(_) => true,
        Kind::List(l) => forall|i: int| 0 <= i < l@.len() ==> spans_ok(#[trigger] l@[i], b),
        Kind::Dictionary(es) => forall|i: int|
            0 <= i < es@.len() ==> spans_ok((#[trigger] es@[i]).1, b),
    }
}

/// Why a byte buffer was rejected.
#[derive(Clone, Copy, Debug, PartialEq, Eq, Structural)]
pub enum DecodeError {
    /// The input ended before the value did.
    Truncated,
    /// A byte where a value had to start is none of `i`, `l`, `d` or a digit.
    BadTag,
    /// A byte-string length prefix is malformed or overlong.
    BadLength,
    /// An integer is malformed or non-canonical (leading zero, `-0`,
    /// a non-digit, or out of the signed 64-bit range).
    BadInteger,
    /// Dictionary keys are not strictly ascending.
    UnsortedKeys,
    /// Bytes remain after the top-level value.
    TrailingBytes,
}

proof fn lemma_dec_step(n: nat, d: nat)
    requires
        n >= 1,
        d < 10,
    ensures
        dec_of(n * 10 + d) == dec_of(n) + seq![(48 + d) as u8],
{
    let m = n * 10 + d;
    assert(m >= 10) by (nonlinear_arith)
        requires
            n >= 1,
            d < 10,
            m == n * 10 + d,
    ;
    assert(m / 10 == n && m % 10 == d) by (nonlinear_arith)
        requires
            n >= 1,
            d < 10,
            m == n * 10 + d,
    ;
}

proof fn lemma_encoded_list_snoc(l: Seq<Value>, v: Value)
    ensures
        encoded_list(l.push(v)) == encoded_list(l) + encoded(v),
    decreases l.len(),
{
    if l.len() == 0 {
        assert(l.push(v)[0] == v);
        assert(l.push(v).drop_first() =~= Seq::<Value>::empty());
        assert(encoded_list(Seq::<Value>::empty()) == Seq::<u8>::empty());
        assert(encoded_list(l.push(v)) =~= encoded_list(l) + encoded(v));
    } else {
        assert(l.push(v)[0] == l[0]);
        assert(l.push(v).drop_first() =~= l.drop_first().push(v));
        lemma_encoded_list_snoc(l.drop_first(), v);
        assert(encoded_list(l.push(v)) =~= encoded_list(l) + encoded(v));
    }
}

proof fn lemma_encoded_pairs_snoc(es: Seq<(Vec<u8>, Value)>, p: (Vec<u8>, Value))
    ensures
        encoded_pairs(es.push(p)) == encoded_pairs(es) + str_bytes(p.0@) + encoded(p.1),
    decreases es.len(),
{
    if es.len() == 0 {
        assert(es.push(p)[0] == p);
        assert(es.push(p).drop_first() =~= Seq::<(Vec<u8>, Value)>::empty());
        assert(encoded_pairs(Seq::<(Vec<u8>, Value)>::empty()) == Seq::<u8>::empty());
        assert(encoded_pairs(es.push(p)) =~= encoded_pairs(es) + str_bytes(p.0@) + encoded(p.1));
    } else {
        assert(es.push(p)[0] == es[0]);
        assert(es.push(p).drop_first() =~= es.drop_first().push(p));
        lemma_encoded_pairs_snoc(es.drop_first(), p);
        assert(encoded_pairs(es.push(p)) =~= encoded_pairs(es) + str_bytes(p.0@) + encoded(p.1));
    }
}

proof fn lemma_lex_skip(a: Seq<u8>, b: Seq<u8>, i: int)
    requires
        0 <= i <= a.len(),
        i <= b.len(),
        a.subrange(0, i) == b.subrange(0, i),
    ensures
        lex_lt(a, b) == lex_lt(a.skip(i), b.skip(i)),
    decreases i,
{
    if i == 0 {
        assert(a.skip(0) =~= a);
        assert(b.skip(0) =~= b);
    } else {
        assert(a.subrange(0, i)[0] == a[0]);
        assert(b.subrange(0, i)[0] == b[0]);
        assert(a[0] == b[0]);
        assert(a.drop_first().subrange(0, i - 1) =~= a.subrange(0, i).subrange(1, i));
        assert(b.drop_first().subrange(0, i - 1) =~= b.subrange(0, i).subrange(1, i));
        lemma_lex_skip(a.drop_first(), b.drop_first(), i - 1);
        assert(a.drop_first().skip(i - 1) =~= a.skip(i));
        assert(b.drop_first().skip(i - 1) =~= b.skip(i));
    }
}

proof fn lemma_dec_zero_first(n: nat)
    ensures
        n > 0 ==> dec_of(n)[0] != 48,
    decreases n,
{
    if n >= 10 {
        lemma_dec_zero_first(n / 10);
        assert(dec_of(n)[0] == dec_of(n / 10)[0]);
    }
}

proof fn lemma_dec_prefix_step(a: nat, x: u8, n: nat)
    requires
        48 <= x <= 57,
        is_prefix(dec_of(a) + seq![x], dec_of(n)),
    ensures
        n >= a * 10 + (x - 48),
    decreases n,
{
    lemma_dec_digits(a);
    lemma_dec_digits(n);
    assert(forall|j: int|
        0 <= j < dec_of(a).len() + 1 ==> (dec_of(a) + seq![x])[j] == #[trigger] dec_of(n)[j]) by {
        assert(forall|j: int|
            0 <= j < dec_of(a).len() + 1 ==> (dec_of(a) + seq![x])[j] == #[trigger] dec_of(
                n,
            ).subrange(0, dec_of(a).len() as int + 1)[j]);
    }
    if n < 10 {
        assert(dec_of(n).len() == 1);
        assert(false);
    }
    vstd::arithmetic::div_mod::lemma_fundamental_div_mod(n as int, 10);
    if dec_of(a).len() + 1 == dec_of(n).len() {
        assert(dec_of(a) =~= dec_of(n / 10)) by {
            assert(forall|j: int|
                0 <= j < dec_of(n / 10).len() ==> #[trigger] dec_of(n / 10)[j] == dec_of(n)[j]);
        }
        lemma_dec_injective(a, n / 10);
        assert(x == dec_of(n)[dec_of(n).len() - 1]);
        assert(dec_of(n)[dec_of(n).len() - 1] == (48 + n % 10) as u8);
    } else {
        assert(is_prefix(dec_of(a) + seq![x], dec_of(n / 10))) by {
            assert(dec_of(a) + seq![x] =~= dec_of(n / 10).subrange(0, dec_of(a).len() as int + 1)) by {
                assert(forall|j: int|
                    0 <= j < dec_of(n / 10).len() ==> #[trigger] dec_of(n / 10)[j] == dec_of(n)[j]);
            }
        }
        lemma_dec_prefix_step(a, x, n / 10);
        assert(n >= 10 * (n / 10) >= n / 10);
    }
}

proof fn lemma_digit_run_unique(b: Seq<u8>, pos: int, n: nat, end: int, m: nat, c: u8)
    requires
        0 <= pos <= end <= b.len(),
        b.subrange(pos, end) == dec_of(n),
        n > 0 ==> (end == b.len() || !(48 <= b[end] <= 57)),
        n == 0 ==> end == pos + 1,
        is_prefix(dec_of(m) + seq![c], b.skip(pos)),
        !(48 <= c <= 57),
    ensures
        m == n,
        pos + dec_of(m).len() == end,
{
    lemma_dec_digits(n);
    lemma_dec_digits(m);
    let dm = dec_of(m);
    let dn = dec_of(n);
    assert(forall|j: int| 0 <= j < dm.len() + 1 ==> (dm + seq![c])[j] == #[trigger] b[pos + j]) by {
        assert(forall|j: int|
            0 <= j < dm.len() + 1 ==> (dm + seq![c])[j] == #[trigger] b.skip(pos).subrange(
                0,
                dm.len() as int + 1,
            )[j]);
        assert(forall|j: int| 0 <= j < b.len() - pos ==> #[trigger] b.skip(pos)[j] == b[pos + j]);
    }
    assert(forall|j: int| 0 <= j < end - pos ==> #[trigger] dn[j] == b[pos + j]) by {
        assert(forall|j: int| 0 <= j < end - pos ==> #[trigger] b.subrange(pos, end)[j] == b[pos
            + j]);
    }
    assert(dn.len() == end - pos);
    if n == 0 {
        assert(b[pos] == dn[0]);
        assert(dn[0] == 48);
        assert(dm[0] == b[pos]);
        lemma_dec_zero_first(m);
        assert(m == 0);
    } else {
        if dm.len() < end - pos {
            assert(c == b[pos + dm.len()]);
            assert(b[pos + dm.len()] == dn[dm.len() as int]);
            assert(false);
        }
        if dm.len() > end - pos {
            assert(end < b.len());
            assert((dm + seq![c])[end - pos] == dm[end - pos]);
            assert(b[end] == dm[end - pos]);
            assert(48 <= dm[end - pos] <= 57);
            assert(false);
        }
        assert(dm =~= dn);
        lemma_dec_injective(m, n);
    }
}

/// Appends the canonical decimal digits of `n` to `out`.
fn push_dec(n: u64, out: &mut Vec<u8>)
    ensures
        final(out)@ == old(out)@ + dec_of(n as nat),
    decreases n,
{
    if n < 10 {
        out.push((48 + n) as u8);
    } else {
        push_dec(n / 10, out);
        out.push((48 + (n % 10)) as u8);
    }
}

/// Strict byte-lexicographic comparison of two byte vectors.
pub fn bytes_lt(a: &Vec<u8>, b: &Vec<u8>) -> (r: bool)
    ensures
        r == lex_lt(a@, b@),
{
    let n: usize = if a.len() < b.len() {
        a.len()
    } else {
        b.len()
    };
    let mut i: usize = 0;
    while i < n
        invariant
            0 <= i <= n,
            n <= a@.len(),
            n <= b@.len(),
            a@.subrange(0, i as int) == b@.subrange(0, i as int),
        decreases n - i,
    {
        proof {
            lemma_lex_skip(a@, b@, i as int);
        }
        if a[i] < b[i] {
            assert(a@.skip(i as int)[0] == a@[i as int]);
            assert(b@.skip(i as int)[0] == b@[i as int]);
            return true;
        }
        if a[i] > b[i] {
            assert(a@.skip(i as int)[0] == a@[i as int]);
            assert(b@.skip(i as int)[0] == b@[i as int]);
            return false;
        }
        assert(a@.subrange(0, i + 1 as int) =~= a@.subrange(0, i as int).push(a@[i as int]));
        assert(b@.subrange(0, i + 1 as int) =~= b@.subrange(0, i as int).push(b@[i as int]));
        i = i + 1;
    }
    proof {
        lemma_lex_skip(a@, b@, n as int);
    }
    a.len() < b.len()
}

/// Parses a canonical run of decimal digits starting at `pos`: at least one
/// digit, no redundant leading zero, value within 64 bits.  On failure no
/// 64-bit canonical digit run followed by a non-digit stands at `pos`.
fn parse_digits(input: &Vec<u8>, pos: usize) -> (r: Result<(u64, usize), DecodeError>)
    requires
        pos <= input@.len(),
    ensures
        r matches Ok(p) ==> {
            &&& pos < p.1 <= input@.len()
            &&& input@.subrange(pos as int, p.1 as int) == dec_of(p.0 as nat)
            &&& p.0 > 0 ==> (p.1 == input@.len() || !(48 <= input@[p.1 as int] <= 57))
            &&& p.0 == 0 ==> p.1 == pos + 1
        },
        r is Err ==> forall|m: nat, c: u8|
            m <= 18446744073709551615 && !(48 <= c <= 57) ==> !(#[trigger] is_prefix(
                dec_of(m) + seq![c],
                input@.skip(pos as int),
            )),
        r matches Err(e) ==> e == DecodeError::BadInteger,
        (pos < input@.len() && input@[pos as int] == 48) ==> (r matches Ok(p) && p.0 == 0 && p.1
            == pos + 1),
{
    if pos >= input.len() {
        proof {
            assert forall|m: nat, c: u8| m <= 18446744073709551615 && !(48 <= c <= 57) implies !(
            #[trigger] is_prefix(dec_of(m) + seq![c], input@.skip(pos as int))) by {
                lemma_dec_digits(m);
            }
        }
        return Err(DecodeError::BadInteger);
    }
    let b = input[pos];
    if b < 48 || b > 57 {
        proof {
            assert forall|m: nat, c: u8| m <= 18446744073709551615 && !(48 <= c <= 57) implies !(
            #[trigger] is_prefix(dec_of(m) + seq![c], input@.skip(pos as int))) by {
                lemma_dec_digits(m);
                if is_prefix(dec_of(m) + seq![c], input@.skip(pos as int)) {
                    assert((dec_of(m) + seq![c])[0] == input@.skip(pos as int).subrange(
                        0,
                        dec_of(m).len() as int + 1,
                    )[0]);
                    assert(input@.skip(pos as int)[0] == input@[pos as int]);
                    assert((dec_of(m) + seq![c])[0] == dec_of(m)[0]);
                    assert(false);
                }
            }
        }
        return Err(DecodeError::BadInteger);
    }
    let mut acc: u64 = (b - 48) as u64;
    let mut cur: usize = pos + 1;
    assert(input@.subrange(pos as int, cur as int) =~= seq![b]);
    if acc == 0 {
        // a leading zero stands alone
        return Ok((0, cur));
    }
    while cur < input.len()
        invariant
            pos < cur <= input@.len(),
            1 <= acc,
            input@[pos as int] != 48,
            input@.subrange(pos as int, cur as int) == dec_of(acc as nat),
        decreases input@.len() - cur,
    {
        let b2 = input[cur];
        if b2 < 48 || b2 > 57 {
            return Ok((acc, cur));
        }
        let d: u64 = (b2 - 48) as u64;
        if acc > (18446744073709551615 - d) / 10 {
            proof {
                let bq = input@;
                assert forall|m: nat, c: u8| m <= 18446744073709551615 && !(48 <= c <= 57)
                    implies !(#[trigger] is_prefix(dec_of(m) + seq![c], bq.skip(pos as int))) by {
                    if is_prefix(dec_of(m) + seq![c], bq.skip(pos as int)) {
                        lemma_dec_digits(m);
                        lemma_dec_digits(acc as nat);
                        let dm = dec_of(m);
                        assert(forall|j: int|
                            0 <= j < dm.len() + 1 ==> (dm + seq![c])[j] == #[trigger] bq[pos + j])
                            by {
                            assert(forall|j: int|
                                0 <= j < dm.len() + 1 ==> (dm + seq![c])[j] == #[trigger] bq.skip(
                                    pos as int,
                                ).subrange(0, dm.len() as int + 1)[j]);
                            assert(forall|j: int|
                                0 <= j < bq.len() - pos ==> #[trigger] bq.skip(pos as int)[j]
                                    == bq[pos + j]);
                        }
                        assert(forall|j: int|
                            0 <= j < cur - pos ==> #[trigger] dec_of(acc as nat)[j] == bq[pos + j])
                            by {
                            assert(forall|j: int|
                                0 <= j < cur - pos ==> #[trigger] bq.subrange(
                                    pos as int,
                                    cur as int,
                                )[j] == bq[pos + j]);
                        }
                        if dm.len() < cur - pos {
                            assert(c == bq[pos + dm.len()]);
                            assert(bq[pos + dm.len()] == dec_of(acc as nat)[dm.len() as int]);
                            assert(false);
                        } else if dm.len() == cur - pos {
                            assert(c == bq[pos + dm.len()]);
                            assert(bq[cur as int] == b2);
                            assert(false);
                        } else {
                            assert(is_prefix(dec_of(acc as nat) + seq![b2], dm)) by {
                                assert(forall|j: int|
                                    0 <= j < dm.len() ==> (dm + seq![c])[j] == #[trigger] dm[j]);
                                assert(bq[cur as int] == b2);
                                assert(dm[cur - pos] == bq[pos + (cur - pos)]);
                                assert(dec_of(acc as nat) + seq![b2] =~= dm.subrange(
                                    0,
                                    cur - pos + 1,
                                ));
                            }
                            lemma_dec_prefix_step(acc as nat, b2, m);
                            vstd::arithmetic::div_mod::lemma_fundamental_div_mod(
                                (18446744073709551615 - d) as int,
                                10,
                            );
                            assert(m > 18446744073709551615);
                            assert(false);
                        }
                    }
                }
            }
            return Err(DecodeError::BadInteger);
        }
        proof {
            lemma_dec_step(acc as nat, d as nat);
            assert(input@.subrange(pos as int, cur + 1 as int) =~= input@.subrange(
                pos as int,
                cur as int,
            ) + seq![input@[cur as int]]);
        }
        acc = acc * 10 + d;
        cur = cur + 1;
    }
    Ok((acc, cur))
}

proof fn lemma_prefix_trans(a: Seq<u8>, b: Seq<u8>, c: Seq<u8>)
    requires
        is_prefix(a, b),
        is_prefix(b, c),
    ensures
        is_prefix(a, c),
{
    assert(forall|j: int| 0 <= j < a.len() ==> a[j] == #[trigger] b[j]) by {
        assert(forall|j: int| 0 <= j < a.len() ==> a[j] == #[trigger] b.subrange(
            0,
            a.len() as int,
        )[j]);
    }
    assert(forall|j: int| 0 <= j < b.len() ==> b[j] == #[trigger] c[j]) by {
        assert(forall|j: int| 0 <= j < b.len() ==> b[j] == #[trigger] c.subrange(
            0,
            b.len() as int,
        )[j]);
    }
    assert(a =~= c.subrange(0, a.len() as int));
}

proof fn lemma_str_bytes_head(s: Seq<u8>, b: Seq<u8>, pos: int)
    requires
        0 <= pos <= b.len(),
        is_prefix(str_bytes(s), b.skip(pos)),
    ensures
        is_prefix(dec_of(s.len()) + seq![58u8], b.skip(pos)),
        pos + dec_of(s.len()).len() + 1 + s.len() <= b.len(),
{
    lemma_dec_digits(s.len());
    assert(is_prefix(dec_of(s.len()) + seq![58u8], str_bytes(s))) by {
        assert(dec_of(s.len()) + seq![58u8] =~= str_bytes(s).subrange(
            0,
            dec_of(s.len()).len() as int + 1,
        ));
    }
    lemma_prefix_trans(dec_of(s.len()) + seq![58u8], str_bytes(s), b.skip(pos));
}

/// Parses one byte string (`<len>:<bytes>`) starting at `pos`.  On failure
/// no byte-string encoding stands at `pos`.
fn parse_raw_string(input: &Vec<u8>, pos: usize) -> (r: Result<(Vec<u8>, usize), DecodeError>)
    requires
        pos <= input@.len(),
    ensures
        r matches Ok(p) ==> {
            &&& pos < p.1 <= input@.len()
            &&& input@.subrange(pos as int, p.1 as int) == str_bytes(p.0@)
        },
        r is Err ==> forall|s: Seq<u8>|
            !(#[trigger] is_prefix(str_bytes(s), input@.skip(pos as int))),
        r matches Err(e) ==> (e == DecodeError::Truncated || e == DecodeError::BadLength),
{
    let ilen: usize = input.len();
    let (n, p1) = match parse_digits(input, pos) {
        Ok(x) => x,
        Err(_) => {
            proof {
                assert forall|s: Seq<u8>| !(#[trigger] is_prefix(
                    str_bytes(s),
                    input@.skip(pos as int),
                )) by {
                    if is_prefix(str_bytes(s), input@.skip(pos as int)) {
                        lemma_str_bytes_head(s, input@, pos as int);
                        assert(s.len() <= ilen);
                        assert(!is_prefix(dec_of(s.len()) + seq![58u8], input@.skip(pos as int)));
                    }
                }
            }
            return Err(DecodeError::BadLength);
        },
    };
    if p1 >= input.len() {
        proof {
            assert forall|s: Seq<u8>| !(#[trigger] is_prefix(
                str_bytes(s),
                input@.skip(pos as int),
            )) by {
                if is_prefix(str_bytes(s), input@.skip(pos as int)) {
                    lemma_str_bytes_head(s, input@, pos as int);
                    lemma_digit_run_unique(
                        input@,
                        pos as int,
                        n as nat,
                        p1 as int,
                        s.len(),
                        58,
                    );
                }
            }
        }
        return Err(DecodeError::Truncated);
    }
    if input[p1] != 58 {
        proof {
            assert forall|s: Seq<u8>| !(#[trigger] is_prefix(
                str_bytes(s),
                input@.skip(pos as int),
            )) by {
                if is_prefix(str_bytes(s), input@.skip(pos as int)) {
                    lemma_str_bytes_head(s, input@, pos as int);
                    lemma_digit_run_unique(
                        input@,
                        pos as int,
                        n as nat,
                        p1 as int,
                        s.len(),
                        58,
                    );
                    let hd = dec_of(s.len()) + seq![58u8];
                    assert(hd[hd.len() - 1] == input@.skip(pos as int).subrange(
                        0,
                        hd.len() as int,
                    )[hd.len() - 1]);
                    assert(input@.skip(pos as int)[hd.len() - 1] == input@[pos + hd.len() - 1]);
                    assert(input@[p1 as int] == 58);
                }
            }
        }
        return Err(DecodeError::BadLength);
    }
    let body: usize = p1 + 1;
    let remaining: usize = input.len() - body;
    if n > remaining as u64 {
        proof {
            assert forall|s: Seq<u8>| !(#[trigger] is_prefix(
                str_bytes(s),
                input@.skip(pos as int),
            )) by {
                if is_prefix(str_bytes(s), input@.skip(pos as int)) {
                    lemma_str_bytes_head(s, input@, pos as int);
                    lemma_digit_run_unique(input@, pos as int, n as nat, p1 as int, s.len(), 58);
                    assert(p1 + 1 + s.len() <= input@.len());
                }
            }
        }
        return Err(DecodeError::Truncated);
    }
    let ln: usize = n as usize;
    let total: usize = input.len();
    let mut s: Vec<u8> = Vec::new();
    let mut i: usize = 0;
    while i < ln
        invariant
            0 <= i <= ln,
            body + ln <= total,
            total == input@.len(),
            s@ == input@.subrange(body as int, body + i as int),
        decreases ln - i,
    {
        s.push(input[body + i]);
        assert(s@ =~= input@.subrange(body as int, body + (i + 1) as int));
        i = i + 1;
    }
    let end: usize = body + ln;
    proof {
        assert(s@.len() == ln);
        assert(dec_of(s@.len()) == input@.subrange(pos as int, p1 as int));
        assert(input@.subrange(pos as int, end as int) =~= input@.subrange(pos as int, p1 as int)
            + seq![input@[p1 as int]] + input@.subrange(body as int, end as int));
        assert(input@.subrange(pos as int, end as int) == str_bytes(s@));
    }
    Ok((s, end))
}

spec fn i64_mag(x: i64) -> nat {
    if x < 0 {
        (-(x as int)) as nat
    } else {
        x as nat
    }
}

proof fn lemma_prefix_at(a: Seq<u8>, b: Seq<u8>, pos: int)
    requires
        0 <= pos <= b.len(),
        is_prefix(a, b.skip(pos)),
    ensures
        pos + a.len() <= b.len(),
        forall|j: int| 0 <= j < a.len() ==> a[j] == #[trigger] b[pos + j],
{
    assert forall|j: int| 0 <= j < a.len() implies a[j] == #[trigger] b[pos + j] by {
        assert(a[j] == b.skip(pos).subrange(0, a.len() as int)[j]);
        assert(b.skip(pos)[j] == b[pos + j]);
    }
}

proof fn lemma_int_at(v: Value, b: Seq<u8>, pos: int, neg: bool, dpos: int)
    requires
        0 <= pos <= b.len(),
        is_prefix(encoded(v), b.skip(pos)),
        b[pos] == 105,
        neg <==> (pos + 1 < b.len() && b[pos + 1] == 45),
        dpos == if neg {
            pos + 2
        } else {
            pos + 1
        },
    ensures
        v.kind is Integer,
        neg <==> v.kind->Integer_0 < 0,
        is_prefix(dec_of(i64_mag(v.kind->Integer_0)) + seq![101u8], b.skip(dpos)),
{
    lemma_first_byte(v);
    lemma_prefix_at(encoded(v), b, pos);
    assert(encoded(v)[0] == b[pos]);
    assert(v.kind is Integer);
    let x = v.kind->Integer_0;
    let ib = int_bytes(x as int);
    lemma_int_bytes_shape(x as int);
    assert(encoded(v) == seq![105u8] + ib + seq![101u8]);
    assert(encoded(v).len() == ib.len() + 2);
    assert(forall|j: int| 0 <= j < ib.len() ==> #[trigger] ib[j] == encoded(v)[1 + j]);
    assert(ib[0] == b[pos + 1]);
    if x < 0 {
        assert(ib[0] == 45);
        assert(neg);
        assert(ib == seq![45u8] + dec_of(i64_mag(x)));
        assert(is_prefix(dec_of(i64_mag(x)) + seq![101u8], b.skip(dpos))) by {
            assert(forall|j: int|
                0 <= j < dec_of(i64_mag(x)).len() ==> #[trigger] dec_of(i64_mag(x))[j] == encoded(
                    v,
                )[2 + j]);
            assert(encoded(v)[encoded(v).len() - 1] == 101);
            assert(forall|j: int|
                0 <= j < b.len() - dpos ==> #[trigger] b.skip(dpos)[j] == b[dpos + j]);
            assert(dec_of(i64_mag(x)) + seq![101u8] =~= b.skip(dpos).subrange(
                0,
                dec_of(i64_mag(x)).len() as int + 1,
            ));
        }
    } else {
        assert(48 <= ib[0] <= 57);
        assert(!neg);
        assert(ib == dec_of(i64_mag(x)));
        assert(is_prefix(dec_of(i64_mag(x)) + seq![101u8], b.skip(dpos))) by {
            assert(encoded(v)[encoded(v).len() - 1] == 101);
            assert(forall|j: int|
                0 <= j < b.len() - dpos ==> #[trigger] b.skip(dpos)[j] == b[dpos + j]);
            assert(dec_of(i64_mag(x)) + seq![101u8] =~= b.skip(dpos).subrange(
                0,
                dec_of(i64_mag(x)).len() as int + 1,
            ));
        }
    }
}

proof fn lemma_list_case(v: Value, b: Seq<u8>, pos: int, cur: int, elems: Seq<Value>)
    requires
        0 <= pos < cur <= b.len(),
        b[pos] == 108,
        is_prefix(encoded(v), b.skip(pos)),
        wf(v),
        b.subrange(pos + 1, cur) == encoded_list(elems),
    ensures
        v.kind is List,
        ({
            let ys = v.kind->List_0@;
            &&& pos + 1 + encoded_list(ys).len() >= cur
            &&& (pos + 1 + encoded_list(ys).len() == cur ==> cur < b.len() && b[cur] == 101)
            &&& (pos + 1 + encoded_list(ys).len() > cur ==> elems.len() < ys.len() && is_prefix(
                encoded(ys[elems.len() as int]),
                b.skip(cur),
            ) && wf(ys[elems.len() as int]))
        }),
{
    lemma_first_byte(v);
    lemma_prefix_at(encoded(v), b, pos);
    assert(encoded(v)[0] == b[pos]);
    assert(v.kind is List);
    let ys = v.kind->List_0@;
    assert(encoded(v) == seq![108u8] + encoded_list(ys) + seq![101u8]);
    let ta = encoded_list(ys) + seq![101u8];
    assert(is_prefix(ta, b.skip(pos + 1))) by {
        assert(forall|j: int| 0 <= j < ta.len() ==> #[trigger] ta[j] == encoded(v)[1 + j]);
        assert(forall|j: int|
            0 <= j < b.len() - (pos + 1) ==> #[trigger] b.skip(pos + 1)[j] == b[pos + 1 + j]);
        assert(ta =~= b.skip(pos + 1).subrange(0, ta.len() as int));
    }
    lemma_el_strip(ys, b, pos + 1, cur, elems);
}

proof fn lemma_dict_case(v: Value, b: Seq<u8>, pos: int, cur: int, entries: Seq<(Vec<u8>, Value)>)
    requires
        0 <= pos < cur <= b.len(),
        b[pos] == 100,
        is_prefix(encoded(v), b.skip(pos)),
        wf(v),
        b.subrange(pos + 1, cur) == encoded_pairs(entries),
    ensures
        v.kind is Dictionary,
        ({
            let fs = v.kind->Dictionary_0@;
            &&& pos + 1 + encoded_pairs(fs).len() >= cur
            &&& (pos + 1 + encoded_pairs(fs).len() == cur ==> cur < b.len() && b[cur] == 101)
            &&& (pos + 1 + encoded_pairs(fs).len() > cur ==> ({
                let k = entries.len() as int;
                &&& entries.len() < fs.len()
                &&& (forall|i: int| 0 <= i < k ==> (#[trigger] entries[i]).0@ == fs[i].0@)
                &&& is_prefix(
                    str_bytes(fs[k].0@) + (encoded(fs[k].1) + (encoded_pairs(fs.skip(k + 1))
                        + seq![101u8])),
                    b.skip(cur),
                )
                &&& wf(fs[k].1)
                &&& (k > 0 ==> lex_lt(fs[k - 1].0@, fs[k].0@))
            }))
        }),
{
    lemma_first_byte(v);
    lemma_prefix_at(encoded(v), b, pos);
    assert(encoded(v)[0] == b[pos]);
    assert(v.kind is Dictionary);
    let fs = v.kind->Dictionary_0@;
    assert(encoded(v) == seq![100u8] + encoded_pairs(fs) + seq![101u8]);
    let ta = encoded_pairs(fs) + seq![101u8];
    assert(is_prefix(ta, b.skip(pos + 1))) by {
        assert(forall|j: int| 0 <= j < ta.len() ==> #[trigger] ta[j] == encoded(v)[1 + j]);
        assert(forall|j: int|
            0 <= j < b.len() - (pos + 1) ==> #[trigger] b.skip(pos + 1)[j] == b[pos + 1 + j]);
        assert(ta =~= b.skip(pos + 1).subrange(0, ta.len() as int));
    }
    lemma_ep_strip(fs, b, pos + 1, cur, entries);
}

/// Parses one value starting at `pos`.  On success the returned value is
/// well formed, its spans index the input, and its encoding is exactly the
/// consumed byte range.  On failure no well-formed value's encoding starts
/// at `pos`.
#[verifier::rlimit(80)]
pub fn parse_value(input: &Vec<u8>, pos: usize) -> (r: Result<(Value, usize), DecodeError>)
    requires
        pos <= input@.len(),
    ensures
        r matches Ok(p) ==> {
            &&& pos < p.1 <= input@.len()
            &&& p.0.start == pos
            &&& p.0.end == p.1
            &&& wf(p.0)
            &&& spans_ok(p.0, input@)
        },
        r is Err ==> forall|v: Value|
            wf(v) ==> !(#[trigger] is_prefix(encoded(v), input@.skip(pos as int))),
        r matches Err(e) ==> e != DecodeError::TrailingBytes,
        (pos + 3 <= input@.len() && input@[pos as int] == 105 && input@[pos + 1] == 48 && input@[pos
            + 2] != 101) ==> r == Err::<(Value, usize), DecodeError>(DecodeError::BadInteger),
        (pos + 4 <= input@.len() && input@[pos as int] == 105 && input@[pos + 1] == 45 && input@[pos
            + 2] == 48) ==> r == Err::<(Value, usize), DecodeError>(DecodeError::BadInteger),
        (pos + 2 <= input@.len() && input@[pos as int] == 105 && !(48 <= input@[pos + 1] <= 57)
            && input@[pos + 1] != 45) ==> r == Err::<(Value, usize), DecodeError>(DecodeError::BadInteger),
        (pos + 3 <= input@.len() && input@[pos as int] == 105 && input@[pos + 1] == 45 && !(48
            <= input@[pos + 2] <= 57)) ==> r == Err::<(Value, usize), DecodeError>(DecodeError::BadInteger),
    decreases input@.len() - pos,
{
    if pos >= input.len() {
        proof {
            assert forall|v: Value| wf(v) implies !(#[trigger] is_prefix(
                encoded(v),
                input@.skip(pos as int),
            )) by {
                lemma_first_byte(v);
            }
        }
        return Err(DecodeError::Truncated);
    }
    let tag = input[pos];
    if tag == 105 {
        // integer: i<digits>e
        let neg = pos + 1 < input.len() && input[pos + 1] == 45;
        let dpos: usize = if neg {
            pos + 2
        } else {
            pos + 1
        };
        let (mag, p2) = match parse_digits(input, dpos) {
            Ok(x) => x,
            Err(e) => {
                proof {
                    assert forall|v: Value| wf(v) implies !(#[trigger] is_prefix(
                        encoded(v),
                        input@.skip(pos as int),
                    )) by {
                        if is_prefix(encoded(v), input@.skip(pos as int)) {
                            lemma_int_at(v, input@, pos as int, neg, dpos as int);
                            let x = v.kind->Integer_0;
                            assert(i64_mag(x) <= 18446744073709551615);
                            assert(!is_prefix(
                                dec_of(i64_mag(x)) + seq![101u8],
                                input@.skip(dpos as int),
                            ));
                        }
                    }
                }
                return Err(e);
            },
        };
        proof {
            if !(48 <= input@[dpos as int] <= 57) {
                lemma_dec_digits(mag as nat);
                assert(input@.subrange(dpos as int, p2 as int)[0] == input@[dpos as int]);
                assert(false);
            }
        }
        if p2 >= input.len() {
            proof {
                assert forall|v: Value| wf(v) implies !(#[trigger] is_prefix(
                    encoded(v),
                    input@.skip(pos as int),
                )) by {
                    if is_prefix(encoded(v), input@.skip(pos as int)) {
                        lemma_int_at(v, input@, pos as int, neg, dpos as int);
                        let x = v.kind->Integer_0;
                        lemma_digit_run_unique(
                            input@,
                            dpos as int,
                            mag as nat,
                            p2 as int,
                            i64_mag(x),
                            101,
                        );
                        lemma_prefix_at(dec_of(i64_mag(x)) + seq![101u8], input@, dpos as int);
                        assert(false);
                    }
                }
            }
            return Err(DecodeError::Truncated);
        }
        if input[p2] != 101 {
            proof {
                assert forall|v: Value| wf(v) implies !(#[trigger] is_prefix(
                    encoded(v),
                    input@.skip(pos as int),
                )) by {
                    if is_prefix(encoded(v), input@.skip(pos as int)) {
                        lemma_int_at(v, input@, pos as int, neg, dpos as int);
                        let x = v.kind->Integer_0;
                        lemma_digit_run_unique(
                            input@,
                            dpos as int,
                            mag as nat,
                            p2 as int,
                            i64_mag(x),
                            101,
                        );
                        lemma_prefix_at(dec_of(i64_mag(x)) + seq![101u8], input@, dpos as int);
                        assert((dec_of(i64_mag(x)) + seq![101u8])[dec_of(i64_mag(x)).len() as int]
                            == 101);
                        assert(false);
                    }
                }
            }
            return Err(DecodeError::BadInteger);
        }
        if neg && mag == 0 {
            proof {
                assert forall|v: Value| wf(v) implies !(#[trigger] is_prefix(
                    encoded(v),
                    input@.skip(pos as int),
                )) by {
                    if is_prefix(encoded(v), input@.skip(pos as int)) {
                        lemma_int_at(v, input@, pos as int, neg, dpos as int);
                        let x = v.kind->Integer_0;
                        assert(input@.subrange(dpos as int, p2 as int)[0] == input@[dpos as int]);
                        assert(input@[dpos as int] == 48);
                        lemma_prefix_at(dec_of(i64_mag(x)) + seq![101u8], input@, dpos as int);
                        assert(dec_of(i64_mag(x))[0] == (dec_of(i64_mag(x)) + seq![101u8])[0]);
                        lemma_dec_zero_first(i64_mag(x));
                        assert(false);
                    }
                }
            }
            return Err(DecodeError::BadInteger);
        }
        let i: i64 = if neg {
            if mag > 9223372036854775808 {
                proof {
                    assert forall|v: Value| wf(v) implies !(#[trigger] is_prefix(
                        encoded(v),
                        input@.skip(pos as int),
                    )) by {
                        if is_prefix(encoded(v), input@.skip(pos as int)) {
                            lemma_int_at(v, input@, pos as int, neg, dpos as int);
                            let x = v.kind->Integer_0;
                            lemma_digit_run_unique(
                                input@,
                                dpos as int,
                                mag as nat,
                                p2 as int,
                                i64_mag(x),
                                101,
                            );
                            assert(false);
                        }
                    }
                }
                return Err(DecodeError::BadInteger);
            }
            if mag == 9223372036854775808 {
                i64::MIN
            } else {
                -(mag as i64)
            }
        } else {
            if mag > 9223372036854775807 {
                proof {
                    assert forall|v: Value| wf(v) implies !(#[trigger] is_prefix(
                        encoded(v),
                        input@.skip(pos as int),
                    )) by {
                        if is_prefix(encoded(v), input@.skip(pos as int)) {
                            lemma_int_at(v, input@, pos as int, neg, dpos as int);
                            let x = v.kind->Integer_0;
                            lemma_digit_run_unique(
                                input@,
                                dpos as int,
                                mag as nat,
                                p2 as int,
                                i64_mag(x),
                                101,
                            );
                            assert(false);
                        }
                    }
                }
                return Err(DecodeError::BadInteger);
            }
            mag as i64
        };
        let end: usize = p2 + 1;
        let v = Value { start: pos, end, kind: Kind::Integer(i) };
        proof {
            if neg {
                assert((-(i as int)) as nat == mag as nat);
                assert(int_bytes(i as int) == seq![45u8] + dec_of(mag as nat));
                assert(input@.subrange(pos as int, end as int) =~= seq![105u8] + int_bytes(
                    i as int,
                ) + seq![101u8]);
            } else {
                assert(i as int == mag as int);
                assert(int_bytes(i as int) == dec_of(mag as nat));
                assert(input@.subrange(pos as int, end as int) =~= seq![105u8] + int_bytes(
                    i as int,
                ) + seq![101u8]);
            }
            assert(input@.subrange(pos as int, end as int) == encoded(v));
        }
        Ok((v, end))
    } else if 48 <= tag && tag <= 57 {
        // byte string
        let (s, end) = match parse_raw_string(input, pos) {
            Ok(x) => x,
            Err(e) => {
                proof {
                    assert forall|v: Value| wf(v) implies !(#[trigger] is_prefix(
                        encoded(v),
                        input@.skip(pos as int),
                    )) by {
                        if is_prefix(encoded(v), input@.skip(pos as int)) {
                            lemma_first_byte(v);
                            lemma_prefix_at(encoded(v), input@, pos as int);
                            assert(encoded(v)[0] == input@[pos as int]);
                            assert(v.kind is ByteString);
                            assert(encoded(v) == str_bytes(v.kind->ByteString_0@));
                            assert(false);
                        }
                    }
                }
                return Err(e);
            },
        };
        let v = Value { start: pos, end, kind: Kind::ByteString(s) };
        assert(input@.subrange(pos as int, end as int) == encoded(v));
        Ok((v, end))
    } else if tag == 108 {
        // list: l<values>e
        let mut elems: Vec<Value> = Vec::new();
        let mut cur: usize = pos + 1;
        assert(input@.subrange(pos + 1 as int, cur as int) =~= encoded_list(elems@));
        while cur < input.len()
            invariant
                pos < cur <= input@.len(),
                input@[pos as int] == 108,
                input@.subrange(pos + 1 as int, cur as int) == encoded_list(elems@),
                forall|i: int| 0 <= i < elems@.len() ==> wf(#[trigger] elems@[i]),
                forall|i: int| 0 <= i < elems@.len() ==> spans_ok(#[trigger] elems@[i], input@),
            decreases input@.len() - cur,
        {
            if input[cur] == 101 {
                let end: usize = cur + 1;
                let v = Value { start: pos, end, kind: Kind::List(elems) };
                proof {
                    assert(input@.subrange(pos as int, end as int) =~= seq![108u8]
                        + input@.subrange(pos + 1 as int, cur as int) + seq![101u8]);
                    assert(input@.subrange(pos as int, end as int) == encoded(v));
                }
                return Ok((v, end));
            }
            let (elem, e2) = match parse_value(input, cur) {
                Ok(x) => x,
                Err(e) => {
                    proof {
                        assert forall|v: Value| wf(v) implies !(#[trigger] is_prefix(
                            encoded(v),
                            input@.skip(pos as int),
                        )) by {
                            if is_prefix(encoded(v), input@.skip(pos as int)) {
                                lemma_list_case(v, input@, pos as int, cur as int, elems@);
                                let ys = v.kind->List_0@;
                                if pos + 1 + encoded_list(ys).len() > cur {
                                    assert(!is_prefix(
                                        encoded(ys[elems@.len() as int]),
                                        input@.skip(cur as int),
                                    ));
                                }
                                assert(false);
                            }
                        }
                    }
                    return Err(e);
                },
            };
            proof {
                lemma_encoded_list_snoc(elems@, elem);
                assert(input@.subrange(pos + 1 as int, e2 as int) =~= input@.subrange(
                    pos + 1 as int,
                    cur as int,
                ) + input@.subrange(cur as int, e2 as int));
            }
            elems.push(elem);
            cur = e2;
        }
        proof {
            assert forall|v: Value| wf(v) implies !(#[trigger] is_prefix(
                encoded(v),
                input@.skip(pos as int),
            )) by {
                if is_prefix(encoded(v), input@.skip(pos as int)) {
                    lemma_list_case(v, input@, pos as int, cur as int, elems@);
                    let ys = v.kind->List_0@;
                    if pos + 1 + encoded_list(ys).len() > cur {
                        lemma_first_byte(ys[elems@.len() as int]);
                        lemma_prefix_at(
                            encoded(ys[elems@.len() as int]),
                            input@,
                            cur as int,
                        );
                    }
                    assert(false);
                }
            }
        }
        Err(DecodeError::Truncated)
    } else if tag == 100 {
        // dictionary: d<key value pairs>e
        let mut entries: Vec<(Vec<u8>, Value)> = Vec::new();
        let mut cur: usize = pos + 1;
        assert(input@.subrange(pos + 1 as int, cur as int) =~= encoded_pairs(entries@));
        while cur < input.len()
            invariant
                pos < cur <= input@.len(),
                input@[pos as int] == 100,
                input@.subrange(pos + 1 as int, cur as int) == encoded_pairs(entries@),
                forall|i: int| 0 <= i < entries@.len() ==> wf((#[trigger] entries@[i]).1),
                forall|i: int|
                    0 <= i < entries@.len() ==> spans_ok((#[trigger] entries@[i]).1, input@),
                forall|i: int|
                    0 <= i && i + 1 < entries@.len() ==> lex_lt(
                        (#[trigger] entries@[i]).0@,
                        entries@[i + 1].0@,
                    ),
            decreases input@.len() - cur,
        {
            if input[cur] == 101 {
                let end: usize = cur + 1;
                let v = Value { start: pos, end, kind: Kind::Dictionary(entries) };
                proof {
                    assert(input@.subrange(pos as int, end as int) =~= seq![100u8]
                        + input@.subrange(pos + 1 as int, cur as int) + seq![101u8]);
                    assert(input@.subrange(pos as int, end as int) == encoded(v));
                }
                return Ok((v, end));
            }
            let (key, p1) = match parse_raw_string(input, cur) {
                Ok(x) => x,
                Err(e) => {
                    proof {
                        assert forall|v: Value| wf(v) implies !(#[trigger] is_prefix(
                            encoded(v),
                            input@.skip(pos as int),
                        )) by {
                            if is_prefix(encoded(v), input@.skip(pos as int)) {
                                lemma_dict_case(v, input@, pos as int, cur as int, entries@);
                                let fs = v.kind->Dictionary_0@;
                                if pos + 1 + encoded_pairs(fs).len() > cur {
                                    let k = entries@.len() as int;
                                    let head = str_bytes(fs[k].0@);
                                    let tail = encoded(fs[k].1) + (encoded_pairs(fs.skip(k + 1))
                                        + seq![101u8]);
                                    assert(is_prefix(head, head + tail)) by {
                                        assert(head =~= (head + tail).subrange(
                                            0,
                                            head.len() as int,
                                        ));
                                    }
                                    lemma_prefix_trans(head, head + tail, input@.skip(cur as int));
                                    assert(!is_prefix(
                                        str_bytes(fs[k].0@),
                                        input@.skip(cur as int),
                                    ));
                                }
                                assert(false);
                            }
                        }
                    }
                    return Err(e);
                },
            };
            proof {
                assert(str_bytes(key@) + input@.skip(p1 as int) =~= input@.skip(cur as int)) by {
                    assert(forall|j: int|
                        0 <= j < p1 - cur ==> #[trigger] str_bytes(key@)[j] == input@[cur + j]) by {
                        assert(forall|j: int|
                            0 <= j < p1 - cur ==> #[trigger] input@.subrange(
                                cur as int,
                                p1 as int,
                            )[j] == input@[cur + j]);
                    }
                    assert(forall|j: int|
                        0 <= j < input@.len() - p1 ==> #[trigger] input@.skip(p1 as int)[j]
                            == input@[p1 + j]);
                    assert(forall|j: int|
                        0 <= j < input@.len() - cur ==> #[trigger] input@.skip(cur as int)[j]
                            == input@[cur + j]);
                }
            }
            if entries.len() > 0 {
                let last = entries.len() - 1;
                if !bytes_lt(&entries[last].0, &key) {
                    proof {
                        assert forall|v: Value| wf(v) implies !(#[trigger] is_prefix(
                            encoded(v),
                            input@.skip(pos as int),
                        )) by {
                            if is_prefix(encoded(v), input@.skip(pos as int)) {
                                lemma_dict_case(v, input@, pos as int, cur as int, entries@);
                                let fs = v.kind->Dictionary_0@;
                                if pos + 1 + encoded_pairs(fs).len() > cur {
                                    let k = entries@.len() as int;
                                    let tail = encoded(fs[k].1) + (encoded_pairs(fs.skip(k + 1))
                                        + seq![101u8]);
                                    lemma_str_bytes_disambiguate(
                                        fs[k].0@,
                                        key@,
                                        tail,
                                        input@.skip(p1 as int),
                                    );
                                    assert(fs[k].0@ == key@);
                                    assert(entries@[k - 1].0@ == fs[k - 1].0@);
                                    assert(lex_lt(fs[k - 1].0@, fs[k].0@));
                                }
                                assert(false);
                            }
                        }
                    }
                    return Err(DecodeError::UnsortedKeys);
                }
            }
            let (val, p2) = match parse_value(input, p1) {
                Ok(x) => x,
                Err(e) => {
                    proof {
                        assert forall|v: Value| wf(v) implies !(#[trigger] is_prefix(
                            encoded(v),
                            input@.skip(pos as int),
                        )) by {
                            if is_prefix(encoded(v), input@.skip(pos as int)) {
                                lemma_dict_case(v, input@, pos as int, cur as int, entries@);
                                let fs = v.kind->Dictionary_0@;
                                if pos + 1 + encoded_pairs(fs).len() > cur {
                                    let k = entries@.len() as int;
                                    let tail = encoded(fs[k].1) + (encoded_pairs(fs.skip(k + 1))
                                        + seq![101u8]);
                                    lemma_str_bytes_disambiguate(
                                        fs[k].0@,
                                        key@,
                                        tail,
                                        input@.skip(p1 as int),
                                    );
                                    assert(is_prefix(encoded(fs[k].1), tail)) by {
                                        assert(encoded(fs[k].1) =~= tail.subrange(
                                            0,
                                            encoded(fs[k].1).len() as int,
                                        ));
                                    }
                                    lemma_prefix_trans(
                                        encoded(fs[k].1),
                                        tail,
                                        input@.skip(p1 as int),
                                    );
                                    assert(!is_prefix(encoded(fs[k].1), input@.skip(p1 as int)));
                                }
                                assert(false);
                            }
                        }
                    }
                    return Err(e);
                },
            };
            proof {
                lemma_encoded_pairs_snoc(entries@, (key, val));
                assert(input@.subrange(pos + 1 as int, p2 as int) =~= input@.subrange(
                    pos + 1 as int,
                    cur as int,
                ) + input@.subrange(cur as int, p1 as int) + input@.subrange(p1 as int, p2 as int));
            }
            entries.push((key, val));
            cur = p2;
        }
        proof {
            assert forall|v: Value| wf(v) implies !(#[trigger] is_prefix(
                encoded(v),
                input@.skip(pos as int),
            )) by {
                if is_prefix(encoded(v), input@.skip(pos as int)) {
                    lemma_dict_case(v, input@, pos as int, cur as int, entries@);
                    let fs = v.kind->Dictionary_0@;
                    if pos + 1 + encoded_pairs(fs).len() > cur {
                        let k = entries@.len() as int;
                        let head = str_bytes(fs[k].0@);
                        let tail = encoded(fs[k].1) + (encoded_pairs(fs.skip(k + 1))
                            + seq![101u8]);
                        lemma_dec_digits(fs[k].0@.len());
                        lemma_prefix_at(head + tail, input@, cur as int);
                    }
                    assert(false);
                }
            }
        }
        Err(DecodeError::Truncated)
    } else {
        proof {
            assert forall|v: Value| wf(v) implies !(#[trigger] is_prefix(
                encoded(v),
                input@.skip(pos as int),
            )) by {
                if is_prefix(encoded(v), input@.skip(pos as int)) {
                    lemma_first_byte(v);
                    lemma_prefix_at(encoded(v), input@, pos as int);
                    assert(encoded(v)[0] == input@[pos as int]);
                    assert(false);
                }
            }
        }
        Err(DecodeError::BadTag)
    }
}

/// Decodes a complete buffer: one value, no trailing bytes.  A returned
/// value is well formed, spans the whole input, and its canonical encoding
/// is exactly the input — the input was canonical.  Decoding fails exactly
/// on the buffers that are no well-formed value's encoding.
pub fn decode(input: &Vec<u8>) -> (r: Result<Value, DecodeError>)
    ensures
        r matches Ok(v) ==> {
            &&& wf(v)
            &&& v.start == 0
            &&& v.end == input@.len()
            &&& spans_ok(v, input@)
            &&& encoded(v) == input@
        },
        r is Err ==> forall|v: Value| wf(v) ==> #[trigger] encoded(v) != input@,
        r == Err::<Value, DecodeError>(DecodeError::TrailingBytes) <==> (exists|v: Value|
            wf(v) && (#[trigger] encoded(v)).len() < input@.len() && is_prefix(
                encoded(v),
                input@,
            )),
        (input@.len() >= 3 && input@[0] == 105 && input@[1] == 48 && input@[2] != 101) ==> r
            == Err::<Value, DecodeError>(DecodeError::BadInteger),
        (input@.len() >= 4 && input@[0] == 105 && input@[1] == 45 && input@[2] == 48) ==> r
            == Err::<Value, DecodeError>(DecodeError::BadInteger),
        (input@.len() >= 2 && input@[0] == 105 && !(48 <= input@[1] <= 57) && input@[1] != 45) ==> r
            == Err::<Value, DecodeError>(DecodeError::BadInteger),
        (input@.len() >= 3 && input@[0] == 105 && input@[1] == 45 && !(48 <= input@[2] <= 57)) ==> r
            == Err::<Value, DecodeError>(DecodeError::BadInteger),
{
    match parse_value(input, 0) {
        Ok((v, end)) => {
            if end == input.len() {
                assert(input@.subrange(0, input@.len() as int) =~= input@);
                proof {
                    assert forall|w: Value|
                        wf(w) && (#[trigger] encoded(w)).len() < input@.len() implies !is_prefix(
                        encoded(w),
                        input@,
                    ) by {
                        if is_prefix(encoded(w), input@) {
                            assert(is_prefix(encoded(w), encoded(v)));
                            lemma_encoded_prefix_free(w, v);
                            assert(false);
                        }
                    }
                }
                Ok(v)
            } else {
                proof {
                    assert forall|w: Value| wf(w) implies #[trigger] encoded(w) != input@ by {
                        if encoded(w) == input@ {
                            assert(encoded(v) == input@.subrange(0, end as int));
                            assert(is_prefix(encoded(v), encoded(w))) by {
                                assert(encoded(v) =~= encoded(w).subrange(
                                    0,
                                    encoded(v).len() as int,
                                ));
                            }
                            lemma_encoded_prefix_free(v, w);
                            assert(false);
                        }
                    }
                    assert(encoded(v) == input@.subrange(0, end as int));
                    assert(is_prefix(encoded(v), input@)) by {
                        assert(encoded(v) =~= input@.subrange(0, encoded(v).len() as int));
                    }
                }
                Err(DecodeError::TrailingBytes)
            }
        },
        Err(e) => {
            proof {
                assert forall|v: Value| wf(v) implies #[trigger] encoded(v) != input@ by {
                    if encoded(v) == input@ {
                        assert(input@.skip(0) =~= input@);
                        assert(is_prefix(encoded(v), input@.skip(0))) by {
                            assert(encoded(v) =~= input@.skip(0).subrange(
                                0,
                                encoded(v).len() as int,
                            ));
                        }
                        assert(false);
                    }
                }
                assert forall|v: Value|
                    wf(v) && (#[trigger] encoded(v)).len() < input@.len() implies !is_prefix(
                    encoded(v),
                    input@,
                ) by {
                    if is_prefix(encoded(v), input@) {
                        assert(input@.skip(0) =~= input@);
                        assert(is_prefix(encoded(v), input@.skip(0)));
                        assert(false);
                    }
                }
            }
            Err(e)
        },
    }
}

/// Appends `str_bytes(s@)` to `out`.
fn push_str_bytes(s: &Vec<u8>, out: &mut Vec<u8>)
    ensures
        final(out)@ == old(out)@ + str_bytes(s@),
{
    push_dec(s.len() as u64, out);
    out.push(58);
    let mut i: usize = 0;
    let base = Ghost(out@);
    while i < s.len()
        invariant
            0 <= i <= s@.len(),
            out@ == base@ + s@.subrange(0, i as int),
        decreases s@.len() - i,
    {
        out.push(s[i]);
        assert(out@ =~= base@ + s@.subrange(0, i + 1 as int));
        i = i + 1;
    }
    assert(s@.subrange(0, s@.len() as int) =~= s@);
    assert(final(out)@ =~= old(out)@ + str_bytes(s@));
}

/// Appends `encoded(*v)` to `out`.
fn encode_into(v: &Value, out: &mut Vec<u8>)
    ensures
        final(out)@ == old(out)@ + encoded(*v),
    decreases *v,
{
    match &v.kind {
        Kind::Integer(n) => {
            out.push(105);
            let n: i64 = *n;
            let mag: u64 = if n < 0 {
                out.push(45);
                if n == i64::MIN {
                    9223372036854775808
                } else {
                    (-n) as u64
                }
            } else {
                n as u64
            };
            push_dec(mag, out);
            out.push(101);
            assert(final(out)@ =~= old(out)@ + encoded(*v));
        },
        Kind::ByteString(s) => {
            push_str_bytes(s, out);
        },
        Kind::List(l) => {
            out.push(108);
            let mut j: usize = 0;
            let base = Ghost(out@);
            assert(l@.subrange(0, 0) =~= Seq::<Value>::empty());
            while j < l.len()
                invariant
                    0 <= j <= l@.len(),
                    v.kind == Kind::List(*l),
                    out@ == base@ + encoded_list(l@.subrange(0, j as int)),
                decreases l@.len() - j,
            {
                proof {
                    assert(decreases_to!(*v => v.kind));
                    assert(v.kind->List_0 == *l);
                    assert(decreases_to!(v.kind => v.kind->List_0));
                    assert(decreases_to!(*l => l@));
                    assert(decreases_to!(l@ => l@[j as int]));
                    assert(decreases_to!(*v => l@[j as int]));
                }
                encode_into(&l[j], out);
                proof {
                    lemma_encoded_list_snoc(l@.subrange(0, j as int), l@[j as int]);
                    assert(l@.subrange(0, j + 1 as int) =~= l@.subrange(0, j as int).push(
                        l@[j as int],
                    ));
                }
                j = j + 1;
            }
            assert(l@.subrange(0, l@.len() as int) =~= l@);
            out.push(101);
            assert(final(out)@ =~= old(out)@ + encoded(*v));
        },
        Kind::Dictionary(es) => {
            out.push(100);
            let mut j: usize = 0;
            let base = Ghost(out@);
            assert(es@.subrange(0, 0) =~= Seq::<(Vec<u8>, Value)>::empty());
            while j < es.len()
                invariant
                    0 <= j <= es@.len(),
                    v.kind == Kind::Dictionary(*es),
                    out@ == base@ + encoded_pairs(es@.subrange(0, j as int)),
                decreases es@.len() - j,
            {
                push_str_bytes(&es[j].0, out);
                proof {
                    assert(decreases_to!(*v => v.kind));
                    assert(v.kind->Dictionary_0 == *es);
                    assert(decreases_to!(v.kind => v.kind->Dictionary_0));
                    assert(decreases_to!(*es => es@));
                    assert(decreases_to!(es@ => es@[j as int]));
                    assert(decreases_to!(es@[j as int] => es@[j as int].1));
                    assert(decreases_to!(*v => es@[j as int].1));
                }
                encode_into(&es[j].1, out);
                proof {
                    lemma_encoded_pairs_snoc(es@.subrange(0, j as int), es@[j as int]);
                    assert(es@.subrange(0, j + 1 as int) =~= es@.subrange(0, j as int).push(
                        es@[j as int],
                    ));
                }
                j = j + 1;
            }
            assert(es@.subrange(0, es@.len() as int) =~= es@);
            out.push(101);
            assert(final(out)@ =~= old(out)@ + encoded(*v));
        },
    }
}

/// The structural inverse of `decode`: produces exactly `encoded(*v)`,
/// which on a well-formed value is the canonical form.
pub fn encode(v: &Value) -> (r: Vec<u8>)
    ensures
        r@ == encoded(*v),
{
    let mut out: Vec<u8> = Vec::new();
    encode_into(v, &mut out);
    out
}

/// `a` is an initial segment of `b`.
pub open spec fn is_prefix(a: Seq<u8>, b: Seq<u8>) -> bool {
    a.len() <= b.len() && a == b.subrange(0, a.len() as int)
}

/// Structural equality of two values, ignoring their spans.
pub open spec fn equiv(a: Value, b: Value) -> bool
    decreases a,
{
    match a.kind {
        Kind::Integer(x) => b.kind matches Kind::Integer(y) && x == y,
        Kind::ByteString(s) => b.kind matches Kind::ByteString(t) && s@ == t@,
        Kind::List(xs) => b.kind matches Kind::List(ys) && xs@.len() == ys@.len() && (forall|
            i: int,
        |
            0 <= i < xs@.len() ==> equiv(#[trigger] xs@[i], ys@[i])),
        Kind::Dictionary(es) => b.kind matches Kind::Dictionary(fs) && es@.len() == fs@.len() && (
        forall|i: int|
            0 <= i < es@.len() ==> ((#[trigger] es@[i]).0@ == fs@[i].0@ && equiv(
                es@[i].1,
                fs@[i].1,
            ))),
    }
}

proof fn lemma_dec_digits(n: nat)
    ensures
        dec_of(n).len() >= 1,
        forall|i: int| 0 <= i < dec_of(n).len() ==> 48 <= #[trigger] dec_of(n)[i] <= 57,
    decreases n,
{
    if n >= 10 {
        lemma_dec_digits(n / 10);
        assert forall|i: int| 0 <= i < dec_of(n).len() implies 48 <= #[trigger] dec_of(n)[i]
            <= 57 by {
            if i < dec_of(n / 10).len() {
                assert(dec_of(n)[i] == dec_of(n / 10)[i]);
            } else {
                assert(dec_of(n)[i] == (48 + n % 10) as u8);
            }
        }
    }
}

proof fn lemma_dec_injective(m: nat, n: nat)
    requires
        dec_of(m) == dec_of(n),
    ensures
        m == n,
    decreases m,
{
    lemma_dec_digits(m);
    lemma_dec_digits(n);
    if m < 10 && n < 10 {
        assert(dec_of(m)[0] == (48 + m) as u8);
        assert(dec_of(n)[0] == (48 + n) as u8);
    } else if m < 10 && n >= 10 {
        lemma_dec_digits(n / 10);
        assert(dec_of(n).len() >= 2);
    } else if m >= 10 && n < 10 {
        lemma_dec_digits(m / 10);
        assert(dec_of(m).len() >= 2);
    } else {
        assert(dec_of(m).last() == (48 + m % 10) as u8);
        assert(dec_of(n).last() == (48 + n % 10) as u8);
        assert(m % 10 == n % 10);
        assert(dec_of(m).subrange(0, dec_of(m).len() - 1) =~= dec_of(m / 10));
        assert(dec_of(n).subrange(0, dec_of(n).len() - 1) =~= dec_of(n / 10));
        lemma_dec_injective(m / 10, n / 10);
        vstd::arithmetic::div_mod::lemma_fundamental_div_mod(m as int, 10);
        vstd::arithmetic::div_mod::lemma_fundamental_div_mod(n as int, 10);
    }
}

proof fn lemma_int_bytes_shape(i: int)
    ensures
        int_bytes(i).len() >= 1,
        forall|j: int|
            0 <= j < int_bytes(i).len() ==> (#[trigger] int_bytes(i)[j] == 45 || 48 <= int_bytes(
                i,
            )[j] <= 57),
        i >= 0 ==> 48 <= int_bytes(i)[0] <= 57,
        i < 0 ==> int_bytes(i)[0] == 45,
{
    if i < 0 {
        lemma_dec_digits((-i) as nat);
        assert forall|j: int| 0 <= j < int_bytes(i).len() implies (#[trigger] int_bytes(i)[j] == 45
            || 48 <= int_bytes(i)[j] <= 57) by {
            if j >= 1 {
                assert(int_bytes(i)[j] == dec_of((-i) as nat)[j - 1]);
            }
        }
    } else {
        lemma_dec_digits(i as nat);
    }
}

proof fn lemma_int_bytes_injective(x: int, y: int)
    requires
        int_bytes(x) == int_bytes(y),
    ensures
        x == y,
{
    lemma_int_bytes_shape(x);
    lemma_int_bytes_shape(y);
    if x < 0 && y < 0 {
        assert(int_bytes(x).drop_first() =~= dec_of((-x) as nat));
        assert(int_bytes(y).drop_first() =~= dec_of((-y) as nat));
        lemma_dec_injective((-x) as nat, (-y) as nat);
    } else if x >= 0 && y >= 0 {
        lemma_dec_injective(x as nat, y as nat);
    }
}

proof fn lemma_first_byte(v: Value)
    ensures
        encoded(v).len() >= 2,
        v.kind is Integer ==> encoded(v)[0] == 105,
        v.kind is ByteString ==> 48 <= encoded(v)[0] <= 57,
        v.kind is List ==> encoded(v)[0] == 108,
        v.kind is Dictionary ==> encoded(v)[0] == 100,
{
    match v.kind {
        Kind::Integer(i) => {
            lemma_int_bytes_shape(i as int);
            assert(encoded(v)[0] == 105);
        },
        Kind::ByteString(s) => {
            lemma_dec_digits(s@.len());
            assert(encoded(v)[0] == dec_of(s@.len())[0]);
        },
        Kind::List(_) => {
            assert(encoded(v)[0] == 108);
        },
        Kind::Dictionary(_) => {
            assert(encoded(v)[0] == 100);
        },
    }
}

proof fn lemma_str_bytes_disambiguate(s: Seq<u8>, t: Seq<u8>, a: Seq<u8>, b: Seq<u8>)
    requires
        is_prefix(str_bytes(s) + a, str_bytes(t) + b),
    ensures
        s == t,
        is_prefix(a, b),
{
    let dx = dec_of(s.len());
    let dy = dec_of(t.len());
    lemma_dec_digits(s.len());
    lemma_dec_digits(t.len());
    let lhs = str_bytes(s) + a;
    let rhs = str_bytes(t) + b;
    assert(forall|i: int| 0 <= i < lhs.len() ==> lhs[i] == rhs[i]) by {
        assert(forall|i: int|
            0 <= i < lhs.len() ==> lhs[i] == #[trigger] rhs.subrange(0, lhs.len() as int)[i]);
    }
    if dx.len() < dy.len() {
        assert(lhs[dx.len() as int] == 58);
        assert(rhs[dx.len() as int] == dy[dx.len() as int]);
        assert(false);
    }
    if dx.len() > dy.len() {
        assert(rhs[dy.len() as int] == 58);
        assert(lhs[dy.len() as int] == dx[dy.len() as int]);
        assert(false);
    }
    assert(dx =~= dy) by {
        assert(forall|i: int| 0 <= i < dx.len() ==> lhs[i] == #[trigger] dx[i]);
        assert(forall|i: int| 0 <= i < dy.len() ==> rhs[i] == #[trigger] dy[i]);
    }
    lemma_dec_injective(s.len(), t.len());
    let hdr = dx.len() + 1;
    assert(s =~= t) by {
        assert(forall|j: int| 0 <= j < s.len() ==> lhs[hdr + j] == #[trigger] s[j]);
        assert(forall|j: int| 0 <= j < t.len() ==> rhs[hdr + j] == #[trigger] t[j]);
    }
    assert(a.len() <= b.len());
    let body = hdr + s.len();
    assert(a =~= b.subrange(0, a.len() as int)) by {
        assert(forall|j: int| 0 <= j < a.len() ==> lhs[body + j] == #[trigger] a[j]);
        assert(forall|j: int| 0 <= j < b.len() ==> rhs[body + j] == #[trigger] b[j]);
    }
}

proof fn lemma_encoded_prefix_free(a: Value, b: Value)
    requires
        is_prefix(encoded(a), encoded(b)),
    ensures
        encoded(a) == encoded(b),
        equiv(a, b),
    decreases encoded(a).len(),
{
    lemma_first_byte(a);
    lemma_first_byte(b);
    let ea = encoded(a);
    let eb = encoded(b);
    assert(forall|i: int| 0 <= i < ea.len() ==> ea[i] == eb[i]) by {
        assert(forall|i: int|
            0 <= i < ea.len() ==> ea[i] == #[trigger] eb.subrange(0, ea.len() as int)[i]);
    }
    match a.kind {
        Kind::Integer(x) => {
            if !(b.kind is Integer) {
                assert(false);
            }
            let y = b.kind->Integer_0;
            let ibx = int_bytes(x as int);
            let iby = int_bytes(y as int);
            lemma_int_bytes_shape(x as int);
            lemma_int_bytes_shape(y as int);
            if ibx.len() < iby.len() {
                assert(ea[1 + ibx.len() as int] == 101);
                assert(eb[1 + ibx.len() as int] == iby[ibx.len() as int]);
                assert(false);
            }
            if ibx.len() > iby.len() {
                assert(eb[1 + iby.len() as int] == 101);
                assert(ea[1 + iby.len() as int] == ibx[iby.len() as int]);
                assert(false);
            }
            assert(ibx =~= iby) by {
                assert(forall|j: int| 0 <= j < ibx.len() ==> ea[1 + j] == #[trigger] ibx[j]);
                assert(forall|j: int| 0 <= j < iby.len() ==> eb[1 + j] == #[trigger] iby[j]);
            }
            lemma_int_bytes_injective(x as int, y as int);
            assert(ea =~= eb);
        },
        Kind::ByteString(s) => {
            if !(b.kind is ByteString) {
                assert(false);
            }
            let t = b.kind->ByteString_0;
            assert(ea =~= str_bytes(s@) + Seq::<u8>::empty());
            assert(eb =~= str_bytes(t@) + Seq::<u8>::empty());
            assert(is_prefix(str_bytes(s@) + Seq::<u8>::empty(), str_bytes(t@) + Seq::<u8>::empty()));
            lemma_str_bytes_disambiguate(s@, t@, Seq::empty(), Seq::empty());
            assert(ea =~= eb);
        },
        Kind::List(xs) => {
            if !(b.kind is List) {
                assert(false);
            }
            let ys = b.kind->List_0;
            let ta = encoded_list(xs@) + seq![101u8];
            let tb = encoded_list(ys@) + seq![101u8];
            assert(ta =~= ea.subrange(1, ea.len() as int));
            assert(tb =~= eb.subrange(1, eb.len() as int));
            assert(is_prefix(ta, tb)) by {
                assert(ta =~= tb.subrange(0, ta.len() as int)) by {
                    assert(forall|i: int| 0 <= i < ta.len() ==> #[trigger] ta[i] == ea[1 + i]);
                    assert(forall|i: int| 0 <= i < tb.len() ==> #[trigger] tb[i] == eb[1 + i]);
                }
            }
            lemma_list_prefix(xs@, ys@);
            assert(ea =~= eb);
        },
        Kind::Dictionary(es) => {
            if !(b.kind is Dictionary) {
                assert(false);
            }
            let fs = b.kind->Dictionary_0;
            let ta = encoded_pairs(es@) + seq![101u8];
            let tb = encoded_pairs(fs@) + seq![101u8];
            assert(ta =~= ea.subrange(1, ea.len() as int));
            assert(tb =~= eb.subrange(1, eb.len() as int));
            assert(is_prefix(ta, tb)) by {
                assert(ta =~= tb.subrange(0, ta.len() as int)) by {
                    assert(forall|i: int| 0 <= i < ta.len() ==> #[trigger] ta[i] == ea[1 + i]);
                    assert(forall|i: int| 0 <= i < tb.len() ==> #[trigger] tb[i] == eb[1 + i]);
                }
            }
            lemma_pairs_prefix(es@, fs@);
            assert(ea =~= eb);
        },
    }
}

proof fn lemma_list_prefix(xs: Seq<Value>, ys: Seq<Value>)
    requires
        is_prefix(encoded_list(xs) + seq![101u8], encoded_list(ys) + seq![101u8]),
    ensures
        encoded_list(xs) == encoded_list(ys),
        xs.len() == ys.len(),
        forall|i: int| 0 <= i < xs.len() ==> equiv(#[trigger] xs[i], ys[i]),
    decreases encoded_list(xs).len() + 1,
{
    let la = encoded_list(xs) + seq![101u8];
    let lb = encoded_list(ys) + seq![101u8];
    assert(forall|i: int| 0 <= i < la.len() ==> la[i] == lb[i]) by {
        assert(forall|i: int|
            0 <= i < la.len() ==> la[i] == #[trigger] lb.subrange(0, la.len() as int)[i]);
    }
    if xs.len() == 0 && ys.len() == 0 {
        assert(encoded_list(xs) =~= encoded_list(ys));
    } else if xs.len() == 0 {
        lemma_first_byte(ys[0]);
        assert(la[0] == 101);
        assert(lb[0] == encoded(ys[0])[0]);
        assert(false);
    } else if ys.len() == 0 {
        lemma_first_byte(xs[0]);
        assert(la.len() > 1);
        assert(lb.len() == 1);
        assert(false);
    } else {
        let e0 = encoded(xs[0]);
        let f0 = encoded(ys[0]);
        lemma_first_byte(xs[0]);
        lemma_first_byte(ys[0]);
        assert(forall|j: int| 0 <= j < e0.len() ==> la[j] == #[trigger] e0[j]);
        assert(forall|j: int| 0 <= j < f0.len() ==> lb[j] == #[trigger] f0[j]);
        if e0.len() <= f0.len() {
            assert(is_prefix(e0, f0)) by {
                assert(e0 =~= f0.subrange(0, e0.len() as int));
            }
            lemma_encoded_prefix_free(xs[0], ys[0]);
        } else {
            assert(is_prefix(f0, e0)) by {
                assert(f0 =~= e0.subrange(0, f0.len() as int));
            }
            lemma_encoded_prefix_free(ys[0], xs[0]);
            assert(is_prefix(e0, f0)) by {
                assert(e0 =~= f0.subrange(0, e0.len() as int));
            }
            lemma_encoded_prefix_free(xs[0], ys[0]);
        }
        let ra = encoded_list(xs.drop_first()) + seq![101u8];
        let rb = encoded_list(ys.drop_first()) + seq![101u8];
        assert(is_prefix(ra, rb)) by {
            assert(forall|j: int| 0 <= j < ra.len() ==> #[trigger] ra[j] == la[e0.len() + j]);
            assert(forall|j: int| 0 <= j < rb.len() ==> #[trigger] rb[j] == lb[f0.len() + j]);
            assert(ra =~= rb.subrange(0, ra.len() as int));
        }
        lemma_list_prefix(xs.drop_first(), ys.drop_first());
        assert(encoded_list(xs) =~= encoded_list(ys));
        assert forall|i: int| 0 <= i < xs.len() implies equiv(#[trigger] xs[i], ys[i]) by {
            if i > 0 {
                assert(xs.drop_first()[i - 1] == xs[i]);
                assert(ys.drop_first()[i - 1] == ys[i]);
            }
        }
    }
}

proof fn lemma_pairs_prefix(es: Seq<(Vec<u8>, Value)>, fs: Seq<(Vec<u8>, Value)>)
    requires
        is_prefix(encoded_pairs(es) + seq![101u8], encoded_pairs(fs) + seq![101u8]),
    ensures
        encoded_pairs(es) == encoded_pairs(fs),
        es.len() == fs.len(),
        forall|i: int|
            0 <= i < es.len() ==> ((#[trigger] es[i]).0@ == fs[i].0@ && equiv(es[i].1, fs[i].1)),
    decreases encoded_pairs(es).len() + 1,
{
    let la = encoded_pairs(es) + seq![101u8];
    let lb = encoded_pairs(fs) + seq![101u8];
    assert(forall|i: int| 0 <= i < la.len() ==> la[i] == lb[i]) by {
        assert(forall|i: int|
            0 <= i < la.len() ==> la[i] == #[trigger] lb.subrange(0, la.len() as int)[i]);
    }
    if es.len() == 0 && fs.len() == 0 {
        assert(encoded_pairs(es) =~= encoded_pairs(fs));
    } else if es.len() == 0 {
        lemma_dec_digits(fs[0].0@.len());
        assert(la[0] == 101);
        assert(lb[0] == dec_of(fs[0].0@.len())[0]);
        assert(false);
    } else if fs.len() == 0 {
        lemma_dec_digits(es[0].0@.len());
        assert(la.len() > 1);
        assert(lb.len() == 1);
        assert(false);
    } else {
        let k0 = es[0].0@;
        let k1 = fs[0].0@;
        let v0 = es[0].1;
        let v1 = fs[0].1;
        let resta = encoded(v0) + (encoded_pairs(es.drop_first()) + seq![101u8]);
        let restb = encoded(v1) + (encoded_pairs(fs.drop_first()) + seq![101u8]);
        assert(la =~= str_bytes(k0) + resta);
        assert(lb =~= str_bytes(k1) + restb);
        assert(is_prefix(str_bytes(k0) + resta, str_bytes(k1) + restb));
        lemma_str_bytes_disambiguate(k0, k1, resta, restb);
        assert(forall|i: int| 0 <= i < resta.len() ==> resta[i] == restb[i]) by {
            assert(forall|i: int|
                0 <= i < resta.len() ==> resta[i] == #[trigger] restb.subrange(
                    0,
                    resta.len() as int,
                )[i]);
        }
        let e0 = encoded(v0);
        let f0 = encoded(v1);
        lemma_first_byte(v0);
        lemma_first_byte(v1);
        assert(forall|j: int| 0 <= j < e0.len() ==> resta[j] == #[trigger] e0[j]);
        assert(forall|j: int| 0 <= j < f0.len() ==> restb[j] == #[trigger] f0[j]);
        if e0.len() <= f0.len() {
            assert(is_prefix(e0, f0)) by {
                assert(e0 =~= f0.subrange(0, e0.len() as int));
            }
            lemma_encoded_prefix_free(v0, v1);
        } else {
            assert(is_prefix(f0, e0)) by {
                assert(f0 =~= e0.subrange(0, f0.len() as int));
            }
            lemma_encoded_prefix_free(v1, v0);
            assert(is_prefix(e0, f0)) by {
                assert(e0 =~= f0.subrange(0, e0.len() as int));
            }
            lemma_encoded_prefix_free(v0, v1);
        }
        let ra = encoded_pairs(es.drop_first()) + seq![101u8];
        let rb = encoded_pairs(fs.drop_first()) + seq![101u8];
        assert(is_prefix(ra, rb)) by {
            assert(forall|j: int| 0 <= j < ra.len() ==> #[trigger] ra[j] == resta[e0.len() + j]);
            assert(forall|j: int| 0 <= j < rb.len() ==> #[trigger] rb[j] == restb[f0.len() + j]);
            assert(ra =~= rb.subrange(0, ra.len() as int));
        }
        lemma_pairs_prefix(es.drop_first(), fs.drop_first());
        assert(encoded_pairs(es) =~= encoded_pairs(fs));
        assert forall|i: int| 0 <= i < es.len() implies ((#[trigger] es[i]).0@ == fs[i].0@ && equiv(
            es[i].1,
            fs[i].1,
        )) by {
            if i > 0 {
                assert(es.drop_first()[i - 1] == es[i]);
                assert(fs.drop_first()[i - 1] == fs[i]);
            }
        }
    }
}

/// Canonical encodings are unique: two values with the same encoding are
/// structurally equal, spans aside.  Together with the contracts of
/// `encode` and `decode` this gives the other direction of the round trip:
/// whatever `decode` returns for `encode(v)` is `v` itself, spans aside.
pub proof fn lemma_encoded_injective(a: Value, b: Value)
    requires
        encoded(a) == encoded(b),
    ensures
        equiv(a, b),
{
    assert(is_prefix(encoded(a), encoded(b))) by {
        assert(encoded(a) =~= encoded(b).subrange(0, encoded(a).len() as int));
    }
    lemma_encoded_prefix_free(a, b);
}

proof fn lemma_el_strip(ys: Seq<Value>, b: Seq<u8>, p: int, cur: int, xs: Seq<Value>)
    requires
        0 <= p <= cur <= b.len(),
        encoded_list(xs) == b.subrange(p, cur),
        is_prefix(encoded_list(ys) + seq![101u8], b.skip(p)),
    ensures
        p + encoded_list(ys).len() >= cur,
        p + encoded_list(ys).len() == cur ==> cur < b.len() && b[cur] == 101,
        p + encoded_list(ys).len() > cur ==> xs.len() < ys.len() && is_prefix(
            encoded(ys[xs.len() as int]),
            b.skip(cur),
        ),
    decreases xs.len(),
{
    let la = encoded_list(ys) + seq![101u8];
    assert(forall|j: int| 0 <= j < la.len() ==> la[j] == #[trigger] b[p + j]) by {
        assert(forall|j: int|
            0 <= j < la.len() ==> la[j] == #[trigger] b.skip(p).subrange(0, la.len() as int)[j]);
        assert(forall|j: int| 0 <= j < b.len() - p ==> #[trigger] b.skip(p)[j] == b[p + j]);
    }
    assert(forall|j: int|
        0 <= j < cur - p ==> #[trigger] encoded_list(xs)[j] == b[p + j]) by {
        assert(forall|j: int| 0 <= j < cur - p ==> #[trigger] b.subrange(p, cur)[j] == b[p + j]);
    }
    if xs.len() == 0 {
        assert(cur == p);
        if ys.len() == 0 {
            assert(b[cur] == la[0]);
        } else {
            lemma_first_byte(ys[0]);
            assert(encoded_list(ys).len() >= encoded(ys[0]).len());
            assert(is_prefix(encoded(ys[0]), encoded_list(ys) + seq![101u8])) by {
                assert(encoded(ys[0]) =~= la.subrange(0, encoded(ys[0]).len() as int));
            }
            lemma_prefix_trans(encoded(ys[0]), la, b.skip(p));
        }
    } else {
        let e0 = encoded(xs[0]);
        lemma_first_byte(xs[0]);
        assert(encoded_list(xs) == e0 + encoded_list(xs.drop_first()));
        assert(e0.len() <= cur - p);
        assert(forall|j: int| 0 <= j < e0.len() ==> #[trigger] e0[j] == b[p + j]) by {
            assert(forall|j: int| 0 <= j < e0.len() ==> #[trigger] e0[j] == encoded_list(xs)[j]);
        }
        if ys.len() == 0 {
            assert(la[0] == 101);
            assert(b[p] == la[0]);
            assert(b[p] == e0[0]);
            assert(false);
        }
        let f0 = encoded(ys[0]);
        lemma_first_byte(ys[0]);
        assert(encoded_list(ys) == f0 + encoded_list(ys.drop_first()));
        assert(forall|j: int| 0 <= j < f0.len() ==> #[trigger] f0[j] == b[p + j]) by {
            assert(forall|j: int| 0 <= j < f0.len() ==> #[trigger] f0[j] == la[j]);
        }
        if f0.len() <= e0.len() {
            assert(is_prefix(f0, e0)) by {
                assert(f0 =~= e0.subrange(0, f0.len() as int));
            }
            lemma_encoded_prefix_free(ys[0], xs[0]);
        } else {
            assert(is_prefix(e0, f0)) by {
                assert(e0 =~= f0.subrange(0, e0.len() as int));
            }
            lemma_encoded_prefix_free(xs[0], ys[0]);
        }
        assert(e0 == f0);
        let p2 = p + e0.len();
        assert(encoded_list(xs.drop_first()) =~= b.subrange(p2 as int, cur)) by {
            assert(forall|j: int|
                0 <= j < cur - p2 ==> #[trigger] encoded_list(xs.drop_first())[j] == encoded_list(
                    xs,
                )[e0.len() + j]);
            assert(forall|j: int|
                0 <= j < cur - p2 ==> #[trigger] b.subrange(p2 as int, cur)[j] == b[p2 + j]);
        }
        let lr = encoded_list(ys.drop_first()) + seq![101u8];
        assert(is_prefix(lr, b.skip(p2 as int))) by {
            assert(forall|j: int| 0 <= j < lr.len() ==> #[trigger] lr[j] == la[f0.len() + j]);
            assert(forall|j: int|
                0 <= j < b.len() - p2 ==> #[trigger] b.skip(p2 as int)[j] == b[p2 + j]);
            assert(lr =~= b.skip(p2 as int).subrange(0, lr.len() as int));
        }
        lemma_el_strip(ys.drop_first(), b, p2 as int, cur, xs.drop_first());
        if p + encoded_list(ys).len() > cur {
            assert(ys.drop_first()[xs.drop_first().len() as int] == ys[xs.len() as int]);
        }
    }
}

#[verifier::rlimit(100)]
proof fn lemma_ep_strip(
    ys: Seq<(Vec<u8>, Value)>,
    b: Seq<u8>,
    p: int,
    cur: int,
    xs: Seq<(Vec<u8>, Value)>,
)
    requires
        0 <= p <= cur <= b.len(),
        encoded_pairs(xs) == b.subrange(p, cur),
        is_prefix(encoded_pairs(ys) + seq![101u8], b.skip(p)),
    ensures
        p + encoded_pairs(ys).len() >= cur,
        p + encoded_pairs(ys).len() == cur ==> cur < b.len() && b[cur] == 101,
        p + encoded_pairs(ys).len() > cur ==> ({
            &&& xs.len() < ys.len()
            &&& forall|i: int| 0 <= i < xs.len() ==> (#[trigger] xs[i]).0@ == ys[i].0@
            &&& is_prefix(
                str_bytes(ys[xs.len() as int].0@) + (encoded(ys[xs.len() as int].1) + (
                encoded_pairs(ys.skip(xs.len() as int + 1)) + seq![101u8])),
                b.skip(cur),
            )
        }),
    decreases xs.len(),
{
    let la = encoded_pairs(ys) + seq![101u8];
    assert(forall|j: int| 0 <= j < la.len() ==> la[j] == #[trigger] b[p + j]) by {
        assert(forall|j: int|
            0 <= j < la.len() ==> la[j] == #[trigger] b.skip(p).subrange(0, la.len() as int)[j]);
        assert(forall|j: int| 0 <= j < b.len() - p ==> #[trigger] b.skip(p)[j] == b[p + j]);
    }
    assert(forall|j: int|
        0 <= j < cur - p ==> #[trigger] encoded_pairs(xs)[j] == b[p + j]) by {
        assert(forall|j: int| 0 <= j < cur - p ==> #[trigger] b.subrange(p, cur)[j] == b[p + j]);
    }
    if xs.len() == 0 {
        assert(cur == p);
        if ys.len() == 0 {
            assert(b[cur] == la[0]);
        } else {
            lemma_dec_digits(ys[0].0@.len());
            let head = str_bytes(ys[0].0@) + (encoded(ys[0].1) + (encoded_pairs(ys.skip(1))
                + seq![101u8]));
            lemma_first_byte(ys[0].1);
            assert(ys.drop_first() =~= ys.skip(1));
            assert(head =~= la) by {
                assert(encoded_pairs(ys) == str_bytes(ys[0].0@) + encoded(ys[0].1) + encoded_pairs(
                    ys.drop_first(),
                ));
            }
            assert(is_prefix(head, b.skip(p)));
            assert(encoded_pairs(ys).len() >= str_bytes(ys[0].0@).len() + encoded(ys[0].1).len());
            assert(str_bytes(ys[0].0@).len() >= 2);
        }
    } else {
        let sbx = str_bytes(xs[0].0@);
        let e0 = encoded(xs[0].1);
        lemma_dec_digits(xs[0].0@.len());
        lemma_first_byte(xs[0].1);
        assert(encoded_pairs(xs) == sbx + e0 + encoded_pairs(xs.drop_first()));
        assert(sbx.len() + e0.len() <= cur - p);
        assert(forall|j: int| 0 <= j < sbx.len() ==> #[trigger] sbx[j] == b[p + j]) by {
            assert(forall|j: int|
                0 <= j < sbx.len() ==> #[trigger] sbx[j] == encoded_pairs(xs)[j]);
        }
        if ys.len() == 0 {
            assert(la[0] == 101);
            assert(b[p] == la[0]);
            assert(b[p] == sbx[0]);
            assert(sbx[0] == dec_of(xs[0].0@.len())[0]);
            assert(false);
        }
        let sby = str_bytes(ys[0].0@);
        let f0 = encoded(ys[0].1);
        lemma_dec_digits(ys[0].0@.len());
        lemma_first_byte(ys[0].1);
        assert(encoded_pairs(ys) == sby + f0 + encoded_pairs(ys.drop_first()));
        let taily = f0 + (encoded_pairs(ys.drop_first()) + seq![101u8]);
        assert(sby + taily =~= la);
        // the bytes after the first parsed key, as seen from p
        let psb = p + sbx.len();
        assert(sbx + b.skip(psb as int) =~= b.skip(p)) by {
            assert(forall|j: int|
                0 <= j < b.len() - psb ==> #[trigger] b.skip(psb as int)[j] == b[psb + j]);
            assert(forall|j: int| 0 <= j < b.len() - p ==> #[trigger] b.skip(p)[j] == b[p + j]);
        }
        assert(is_prefix(sby + taily, sbx + b.skip(psb as int)));
        lemma_str_bytes_disambiguate(ys[0].0@, xs[0].0@, taily, b.skip(psb as int));
        assert(ys[0].0@ == xs[0].0@);
        assert(sby == sbx);
        // the two first values both stand at psb
        assert(forall|j: int| 0 <= j < e0.len() ==> #[trigger] e0[j] == b[psb + j]) by {
            assert(forall|j: int|
                0 <= j < e0.len() ==> #[trigger] e0[j] == encoded_pairs(xs)[sbx.len() + j]);
        }
        assert(forall|j: int| 0 <= j < f0.len() ==> #[trigger] f0[j] == b[psb + j]) by {
            assert(forall|j: int|
                0 <= j < taily.len() ==> #[trigger] taily[j] == b.skip(psb as int).subrange(
                    0,
                    taily.len() as int,
                )[j]);
            assert(forall|j: int|
                0 <= j < b.len() - psb ==> #[trigger] b.skip(psb as int)[j] == b[psb + j]);
            assert(forall|j: int| 0 <= j < f0.len() ==> #[trigger] f0[j] == taily[j]);
        }
        if f0.len() <= e0.len() {
            assert(is_prefix(f0, e0)) by {
                assert(f0 =~= e0.subrange(0, f0.len() as int));
            }
            lemma_encoded_prefix_free(ys[0].1, xs[0].1);
        } else {
            assert(is_prefix(e0, f0)) by {
                assert(e0 =~= f0.subrange(0, e0.len() as int));
            }
            lemma_encoded_prefix_free(xs[0].1, ys[0].1);
        }
        assert(e0 == f0);
        let p2 = psb + e0.len();
        assert(encoded_pairs(xs.drop_first()) =~= b.subrange(p2 as int, cur)) by {
            assert(forall|j: int|
                0 <= j < cur - p2 ==> #[trigger] encoded_pairs(xs.drop_first())[j] == encoded_pairs(
                    xs,
                )[sbx.len() + e0.len() + j]);
            assert(forall|j: int|
                0 <= j < cur - p2 ==> #[trigger] b.subrange(p2 as int, cur)[j] == b[p2 + j]);
        }
        let lr = encoded_pairs(ys.drop_first()) + seq![101u8];
        assert(is_prefix(lr, b.skip(p2 as int))) by {
            assert(forall|j: int|
                0 <= j < lr.len() ==> #[trigger] lr[j] == la[sby.len() + f0.len() + j]);
            assert(forall|j: int|
                0 <= j < b.len() - p2 ==> #[trigger] b.skip(p2 as int)[j] == b[p2 + j]);
            assert(lr =~= b.skip(p2 as int).subrange(0, lr.len() as int));
        }
        lemma_ep_strip(ys.drop_first(), b, p2 as int, cur, xs.drop_first());
        if p + encoded_pairs(ys).len() > cur {
            assert(ys.drop_first()[xs.drop_first().len() as int] == ys[xs.len() as int]);
            assert(ys.drop_first().skip(xs.drop_first().len() as int + 1) =~= ys.skip(
                xs.len() as int + 1,
            ));
            assert forall|i: int| 0 <= i < xs.len() implies (#[trigger] xs[i]).0@ == ys[i].0@ by {
                if i > 0 {
                    assert(xs.drop_first()[i - 1] == xs[i]);
                    assert(ys.drop_first()[i - 1] == ys[i]);
                }
            }
        }
    }
}

/// The value stored under key `k`, searching pairs front to back.
pub open spec fn dict_get(es: Seq<(Vec<u8>, Value)>, k: Seq<u8>) -> Option<Value>
    decreases es.len(),
{
    if es.len() == 0 {
        None
    } else if es[0].0@ == k {
        Some(es[0].1)
    } else {
        dict_get(es.drop_first(), k)
    }
}

/// A value found by `dict_get` is one of the dictionary's stored values.
pub proof fn lemma_dict_get_member(es: Seq<(Vec<u8>, Value)>, k: Seq<u8>)
    requires
        dict_get(es, k) is Some,
    ensures
        exists|i: int| 0 <= i < es.len() && (#[trigger] es[i]).1 == dict_get(es, k)->Some_0,
    decreases es.len(),
{
    if es.len() > 0 {
        if es[0].0@ == k {
            assert(es[0].1 == dict_get(es, k)->Some_0);
        } else {
            lemma_dict_get_member(es.drop_first(), k);
            let j = choose|j: int|
                0 <= j < es.drop_first().len() && (#[trigger] es.drop_first()[j]).1 == dict_get(
                    es.drop_first(),
                    k,
                )->Some_0;
            assert(es[j + 1] == es.drop_first()[j]);
        }
    }
}

/// The byte-string stored under key `k`, if the key is present and its
/// value is a byte string.
pub open spec fn get_bytes(es: Seq<(Vec<u8>, Value)>, k: Seq<u8>) -> Option<Seq<u8>> {
    match dict_get(es, k) {
        Some(v) => match v.kind {
            Kind::ByteString(s) => Some(s@),
            _ => None,
        },
        None => None,
    }
}

/// The integer stored under key `k`, if the key is present and its value
/// is an integer.
pub open spec fn get_int(es: Seq<(Vec<u8>, Value)>, k: Seq<u8>) -> Option<int> {
    match dict_get(es, k) {
        Some(v) => match v.kind {
            Kind::Integer(i) => Some(i as int),
            _ => None,
        },
        None => None,
    }
}

/// Structurally equal dictionaries agree on every lookup: the same keys
/// are present, and the values found are structurally equal.
pub proof fn lemma_dict_get_equiv(es: Seq<(Vec<u8>, Value)>, fs: Seq<(Vec<u8>, Value)>, k: Seq<u8>)
    requires
        es.len() == fs.len(),
        forall|i: int|
            0 <= i < es.len() ==> ((#[trigger] es[i]).0@ == fs[i].0@ && equiv(es[i].1, fs[i].1)),
    ensures
        dict_get(es, k) is Some <==> dict_get(fs, k) is Some,
        dict_get(es, k) matches Some(v) ==> equiv(v, dict_get(fs, k)->Some_0),
    decreases es.len(),
{
    if es.len() > 0 {
        assert(es[0].0@ == fs[0].0@);
        if es[0].0@ != k {
            assert(forall|i: int|
                0 <= i < es.drop_first().len() ==> #[trigger] es.drop_first()[i] == es[i + 1]);
            assert(forall|i: int|
                0 <= i < fs.drop_first().len() ==> #[trigger] fs.drop_first()[i] == fs[i + 1]);
            lemma_dict_get_equiv(es.drop_first(), fs.drop_first(), k);
        }
    }
}

/// Structurally equal dictionaries agree on `get_bytes`.
pub proof fn lemma_get_bytes_equiv(es: Seq<(Vec<u8>, Value)>, fs: Seq<(Vec<u8>, Value)>, k: Seq<u8>)
    requires
        es.len() == fs.len(),
        forall|i: int|
            0 <= i < es.len() ==> ((#[trigger] es[i]).0@ == fs[i].0@ && equiv(es[i].1, fs[i].1)),
    ensures
        get_bytes(es, k) == get_bytes(fs, k),
{
    lemma_dict_get_equiv(es, fs, k);
    if dict_get(es, k) is Some {
        let v = dict_get(es, k)->Some_0;
        let v2 = dict_get(fs, k)->Some_0;
        assert(equiv(v, v2));
        match v.kind {
            Kind::ByteString(_) => {
                assert(v2.kind is ByteString);
            },
            Kind::Integer(_) => {
                assert(v2.kind is Integer);
            },
            Kind::List(_) => {
                assert(v2.kind is List);
            },
            Kind::Dictionary(_) => {
                assert(v2.kind is Dictionary);
            },
        }
    }
}

/// Structurally equal dictionaries agree on `get_int`.
pub proof fn lemma_get_int_equiv(es: Seq<(Vec<u8>, Value)>, fs: Seq<(Vec<u8>, Value)>, k: Seq<u8>)
    requires
        es.len() == fs.len(),
        forall|i: int|
            0 <= i < es.len() ==> ((#[trigger] es[i]).0@ == fs[i].0@ && equiv(es[i].1, fs[i].1)),
    ensures
        get_int(es, k) == get_int(fs, k),
{
    lemma_dict_get_equiv(es, fs, k);
    if dict_get(es, k) is Some {
        let v = dict_get(es, k)->Some_0;
        let v2 = dict_get(fs, k)->Some_0;
        assert(equiv(v, v2));
        match v.kind {
            Kind::ByteString(_) => {
                assert(v2.kind is ByteString);
            },
            Kind::Integer(_) => {
                assert(v2.kind is Integer);
            },
            Kind::List(_) => {
                assert(v2.kind is List);
            },
            Kind::Dictionary(_) => {
                assert(v2.kind is Dictionary);
            },
        }
    }
}

/// Equality of a byte vector and a byte slice.
pub fn bytes_eq(a: &Vec<u8>, b: &[u8]) -> (r: bool)
    ensures
        r == (a@ == b@),
{
    if a.len() != b.len() {
        return false;
    }
    let n: usize = a.len();
    let mut i: usize = 0;
    while i < n
        invariant
            0 <= i <= n,
            n == a@.len() == b@.len(),
            forall|j: int| 0 <= j < i ==> a@[j] == b@[j],
        decreases n - i,
    {
        if a[i] != b[i] {
            return false;
        }
        i = i + 1;
    }
    assert(a@ =~= b@);
    true
}

/// Finds the value stored under `key`, if any.
pub fn lookup<'a>(es: &'a Vec<(Vec<u8>, Value)>, key: &[u8]) -> (r: Option<&'a Value>)
    ensures
        match r {
            Some(v) => dict_get(es@, key@) == Some(*v),
            None => dict_get(es@, key@) is None,
        },
{
    let mut i: usize = 0;
    assert(es@.skip(0) =~= es@);
    while i < es.len()
        invariant
            0 <= i <= es@.len(),
            dict_get(es@, key@) == dict_get(es@.skip(i as int), key@),
        decreases es@.len() - i,
    {
        let hit = bytes_eq(&es[i].0, key);
        proof {
            assert(es@.skip(i as int)[0] == es@[i as int]);
            assert(es@.skip(i as int).drop_first() =~= es@.skip(i + 1 as int));
        }
        if hit {
            return Some(&es[i].1);
        }
        i = i + 1;
    }
    assert(es@.skip(es@.len() as int) =~= Seq::<(Vec<u8>, Value)>::empty());
    None
}

/// Round trip: any value that satisfies `decode`'s postcondition for a
/// buffer re-encodes to exactly that buffer, so `encode` applied to a
/// decoded value reproduces the canonical input byte for byte.
pub proof fn lemma_decode_then_encode(v: Value, bytes: Seq<u8>)
    requires
        spans_ok(v, bytes),
        v.start == 0,
        v.end == bytes.len(),
    ensures
        encoded(v) == bytes,
{
    assert(bytes.subrange(0, bytes.len() as int) =~= bytes);
}

} // verus!
