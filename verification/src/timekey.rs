//! The time-key codec: a deterministic, order-sensitive mapping between a
//! Unix timestamp in seconds and the byte key used in the ordered store.
//!
//! A key is the decimal ASCII text of the timestamp, with a leading minus
//! sign when it is negative.  Decoding accepts exactly the canonical
//! encodings (no leading zeros, no `-0`, no other bytes); everything else is
//! rejected as corruption.

use vstd::prelude::*;

use crate::TsError;

verus! {

/// The ASCII byte of one decimal digit (`0 <= d <= 9`).
pub open spec fn digit_byte(d: nat) -> u8 {
    (48 + d) as u8
}

/// The ASCII decimal digits of `n`, most significant first.
pub open spec fn dec_digits(n: nat) -> Seq<u8>
    decreases n,
{
    if n < 10 {
        seq![digit_byte(n)]
    } else {
        dec_digits(n / 10).push(digit_byte(n % 10))
    }
}

/// The byte key under which the timestamp `t` is stored: its decimal text,
/// with a leading minus sign when `t` is negative.
pub open spec fn ts_key(t: int) -> Seq<u8> {
    if t >= 0 {
        dec_digits(t as nat)
    } else {
        seq![45u8] + dec_digits((-t) as nat)
    }
}

/// Whether `b` is an ASCII decimal digit.
pub open spec fn is_digit(b: u8) -> bool {
    48 <= b <= 57
}

/// Whether every byte of `s` is an ASCII decimal digit.
pub open spec fn all_digits(s: Seq<u8>) -> bool {
    forall|i: int| 0 <= i < s.len() ==> is_digit(s[i])
}

/// A canonical digit string: nonempty, digits only, no leading zero
/// (except for the single digit `0` itself).
pub open spec fn canonical_digits(s: Seq<u8>) -> bool {
    &&& s.len() > 0
    &&& all_digits(s)
    &&& (s.len() > 1 ==> s[0] != 48)
}

/// The numeric value of a digit string, most significant digit first.
pub open spec fn dec_val(s: Seq<u8>) -> nat
    decreases s.len(),
{
    if s.len() == 0 {
        0
    } else {
        dec_val(s.drop_last()) * 10 + (s.last() - 48) as nat
    }
}

/// Strict lexicographic order on byte strings, as an ordered byte-oriented
/// store compares its keys.
pub open spec fn lex_lt(a: Seq<u8>, b: Seq<u8>) -> bool
    decreases a.len(),
{
    if b.len() == 0 {
        false
    } else if a.len() == 0 {
        true
    } else if a[0] < b[0] {
        true
    } else if a[0] > b[0] {
        false
    } else {
        lex_lt(a.drop_first(), b.drop_first())
    }
}

/// The digit string of `n` is canonical, its length grows past one exactly
/// at ten, and it never starts with `0` unless `n` is zero.
pub proof fn lemma_dec_digits_props(n: nat)
    ensures
        all_digits(dec_digits(n)),
        dec_digits(n).len() >= 1,
        n >= 10 <==> dec_digits(n).len() >= 2,
        n >= 1 ==> dec_digits(n)[0] != 48,
        canonical_digits(dec_digits(n)),
    decreases n,
{
    if n < 10 {
        assert(dec_digits(n) == seq![digit_byte(n)]);
        assert(dec_digits(n)[0] == (48 + n) as u8);
    } else {
        lemma_dec_digits_props(n / 10);
        let p = dec_digits(n / 10);
        assert(dec_digits(n) == p.push(digit_byte(n % 10)));
        assert(dec_digits(n)[0] == p[0]);
        assert(forall|i: int| 0 <= i < p.len() ==> dec_digits(n)[i] == p[i]);
        assert(is_digit(digit_byte((n % 10) as nat)));
    }
}

/// Evaluating the digit string of `n` gives back `n`.
pub proof fn lemma_dec_val_of_digits(n: nat)
    ensures
        dec_val(dec_digits(n)) == n,
    decreases n,
{
    if n < 10 {
        let s = dec_digits(n);
        assert(s == seq![digit_byte(n)]);
        assert(s.drop_last() =~= Seq::<u8>::empty());
        assert(s.last() == digit_byte(n));
        assert(digit_byte(n) == 48 + n);
        assert(dec_val(s) == dec_val(s.drop_last()) * 10 + (s.last() - 48) as nat);
        assert(dec_val(s.drop_last()) == 0);
    } else {
        lemma_dec_val_of_digits(n / 10);
        let p = dec_digits(n / 10);
        let s = dec_digits(n);
        assert(s == p.push(digit_byte(n % 10)));
        assert(s.drop_last() =~= p);
        assert(s.last() == digit_byte(n % 10));
        assert(dec_val(s) == (n / 10) * 10 + n % 10);
        assert((n / 10) * 10 + n % 10 == n) by {
            vstd::arithmetic::div_mod::lemma_fundamental_div_mod(n as int, 10);
        }
    }
}

/// A nonempty digit string that does not start with `0` has value at least 1.
pub proof fn lemma_dec_val_lower(s: Seq<u8>)
    requires
        s.len() >= 1,
        all_digits(s),
        s[0] != 48,
    ensures
        dec_val(s) >= 1,
    decreases s.len(),
{
    if s.len() == 1 {
        assert(dec_val(s.drop_last()) == 0);
        assert((s.last() - 48) as nat >= 1);
    } else {
        let p = s.drop_last();
        assert(p[0] == s[0]);
        assert(all_digits(p));
        lemma_dec_val_lower(p);
    }
}

/// A canonical digit string is the digit string of its own value.
pub proof fn lemma_digits_of_dec_val(s: Seq<u8>)
    requires
        canonical_digits(s),
    ensures
        dec_digits(dec_val(s)) == s,
    decreases s.len(),
{
    if s.len() == 1 {
        assert(s.drop_last() =~= Seq::<u8>::empty());
        let d = (s.last() - 48) as nat;
        assert(s.last() == s[0]);
        assert(is_digit(s[0]));
        assert(dec_val(s) == dec_val(s.drop_last()) * 10 + (s.last() - 48) as nat);
        assert(dec_val(s.drop_last()) == 0);
        assert(dec_val(s) == d);
        assert(d < 10);
        assert(dec_digits(d) == seq![digit_byte(d)]);
        assert(digit_byte(d) == s.last());
        assert(seq![s.last()] =~= s);
    } else {
        let p = s.drop_last();
        assert(p.len() == s.len() - 1);
        assert(all_digits(p)) by {
            assert(forall|i: int| 0 <= i < p.len() ==> p[i] == s[i]);
        }
        assert(p[0] == s[0]);
        assert(canonical_digits(p));
        lemma_digits_of_dec_val(p);
        lemma_dec_val_lower(p);
        let v = dec_val(p);
        let d = (s.last() - 48) as nat;
        assert(dec_val(s) == v * 10 + d);
        assert(v >= 1);
        assert(v * 10 >= 10) by (nonlinear_arith)
            requires v >= 1,
        ;
        let n = v * 10 + d;
        assert(n >= 10);
        assert(n / 10 == v && n % 10 == d) by {
            vstd::arithmetic::div_mod::lemma_fundamental_div_mod_converse(
                n as int, 10, v as int, d as int);
        }
        assert(dec_digits(n) == dec_digits(v).push(digit_byte(d)));
        assert(digit_byte(d) == s.last());
        assert(p.push(s.last()) =~= s);
    }
}

/// The shape of every key: a canonical digit string for a nonnegative
/// timestamp, and a minus sign followed by a canonical digit string for a
/// negative one; the digits evaluate back to the timestamp's magnitude.
pub proof fn lemma_key_shape(t: int)
    ensures
        ts_key(t).len() >= 1,
        t >= 0 ==> ts_key(t) == dec_digits(t as nat) && canonical_digits(ts_key(t))
            && dec_val(ts_key(t)) == t,
        t < 0 ==> ts_key(t)[0] == 45 && ts_key(t).len() >= 2
            && ts_key(t).drop_first() == dec_digits((-t) as nat)
            && canonical_digits(ts_key(t).drop_first())
            && dec_val(ts_key(t).drop_first()) == -t,
{
    if t >= 0 {
        lemma_dec_digits_props(t as nat);
        lemma_dec_val_of_digits(t as nat);
    } else {
        let m = (-t) as nat;
        lemma_dec_digits_props(m);
        lemma_dec_val_of_digits(m);
        assert(ts_key(t) == seq![45u8] + dec_digits(m));
        assert(ts_key(t).drop_first() =~= dec_digits(m));
    }
}

/// Two distinct timestamps never share a key.
pub proof fn lemma_ts_key_injective(t1: int, t2: int)
    requires
        ts_key(t1) == ts_key(t2),
    ensures
        t1 == t2,
{
    lemma_key_shape(t1);
    lemma_key_shape(t2);
    if t1 >= 0 && t2 >= 0 {
        assert(dec_val(ts_key(t1)) == dec_val(ts_key(t2)));
    } else if t1 < 0 && t2 < 0 {
        assert(ts_key(t1).drop_first() == ts_key(t2).drop_first());
        assert(dec_val(ts_key(t1).drop_first()) == dec_val(ts_key(t2).drop_first()));
    } else if t1 >= 0 && t2 < 0 {
        assert(is_digit(ts_key(t1)[0]));
        assert(ts_key(t2)[0] == 45);
    } else {
        assert(is_digit(ts_key(t2)[0]));
        assert(ts_key(t1)[0] == 45);
    }
}

/// The lexicographic order never holds of a string and itself.
pub proof fn lemma_lex_irrefl(a: Seq<u8>)
    ensures
        !lex_lt(a, a),
    decreases a.len(),
{
    if a.len() > 0 {
        lemma_lex_irrefl(a.drop_first());
    }
}

/// Any two byte strings are lexicographically comparable.
pub proof fn lemma_lex_total(a: Seq<u8>, b: Seq<u8>)
    ensures
        lex_lt(a, b) || lex_lt(b, a) || a == b,
    decreases a.len(),
{
    if a.len() == 0 || b.len() == 0 {
        if a.len() == 0 && b.len() == 0 {
            assert(a =~= b);
        }
    } else if a[0] == b[0] {
        lemma_lex_total(a.drop_first(), b.drop_first());
        if a.drop_first() == b.drop_first() {
            assert(a.drop_first().len() == b.drop_first().len());
            assert(a.len() == b.len());
            assert forall|i: int| 0 <= i < a.len() implies a[i] == b[i] by {
                if i >= 1 {
                    assert(a[i] == a.drop_first()[i - 1]);
                    assert(b[i] == b.drop_first()[i - 1]);
                }
            }
            assert(a =~= b);
        }
    }
}

/// The lexicographic order is transitive.
pub proof fn lemma_lex_trans(a: Seq<u8>, b: Seq<u8>, c: Seq<u8>)
    requires
        lex_lt(a, b),
        lex_lt(b, c),
    ensures
        lex_lt(a, c),
    decreases a.len(),
{
    if a.len() == 0 {
        assert(c.len() > 0);
    } else {
        assert(b.len() > 0 && c.len() > 0);
        if a[0] == b[0] && b[0] == c[0] {
            lemma_lex_trans(a.drop_first(), b.drop_first(), c.drop_first());
        }
    }
}

/// Dropping an equal prefix does not change how two strings compare.
pub proof fn lemma_lex_common_prefix(a: Seq<u8>, b: Seq<u8>, i: int)
    requires
        0 <= i <= a.len(),
        i <= b.len(),
        forall|j: int| 0 <= j < i ==> a[j] == b[j],
    ensures
        lex_lt(a, b) == lex_lt(a.skip(i), b.skip(i)),
    decreases i,
{
    if i == 0 {
        assert(a.skip(0) =~= a);
        assert(b.skip(0) =~= b);
    } else {
        assert(a[0] == b[0]);
        assert(a.drop_first() =~= a.skip(1));
        assert(b.drop_first() =~= b.skip(1));
        lemma_lex_common_prefix(a.skip(1), b.skip(1), i - 1);
        assert(a.skip(1).skip(i - 1) =~= a.skip(i));
        assert(b.skip(1).skip(i - 1) =~= b.skip(i));
    }
}

/// Appending one byte to each of two equally long strings compares them by
/// the prefixes first and by the appended bytes on a tie.
pub proof fn lemma_lex_push(a: Seq<u8>, b: Seq<u8>, x: u8, y: u8)
    requires
        a.len() == b.len(),
    ensures
        lex_lt(a.push(x), b.push(y)) == (lex_lt(a, b) || (a == b && x < y)),
    decreases a.len(),
{
    if a.len() == 0 {
        assert(a =~= b);
        assert(a.push(x)[0] == x && b.push(y)[0] == y);
        if x == y {
            assert(a.push(x).drop_first() =~= Seq::<u8>::empty());
            assert(b.push(y).drop_first() =~= Seq::<u8>::empty());
            assert(lex_lt(a.push(x), b.push(y))
                == lex_lt(a.push(x).drop_first(), b.push(y).drop_first()));
            assert(!lex_lt(Seq::<u8>::empty(), Seq::<u8>::empty()));
        }
    } else {
        assert(a.push(x)[0] == a[0] && b.push(y)[0] == b[0]);
        if a[0] == b[0] {
            assert(a.push(x).drop_first() =~= a.drop_first().push(x));
            assert(b.push(y).drop_first() =~= b.drop_first().push(y));
            assert(lex_lt(a.push(x), b.push(y))
                == lex_lt(a.drop_first().push(x), b.drop_first().push(y)));
            assert(lex_lt(a, b) == lex_lt(a.drop_first(), b.drop_first()));
            lemma_lex_push(a.drop_first(), b.drop_first(), x, y);
            if a.drop_first() == b.drop_first() {
                assert forall|i: int| 0 <= i < a.len() implies a[i] == b[i] by {
                    if i >= 1 {
                        assert(a[i] == a.drop_first()[i - 1]);
                        assert(b[i] == b.drop_first()[i - 1]);
                    }
                }
                assert(a =~= b);
            } else {
                assert(a != b) by {
                    if a == b {
                        assert(a.drop_first() == b.drop_first());
                    }
                }
            }
        } else {
            assert(a != b) by {
                assert(a[0] != b[0]);
            }
        }
    }
}

/// Of two numbers with equally long digit strings, the smaller one has the
/// lexicographically smaller digit string.
pub proof fn lemma_dec_digits_order(n1: nat, n2: nat)
    requires
        n1 < n2,
        dec_digits(n1).len() == dec_digits(n2).len(),
    ensures
        lex_lt(dec_digits(n1), dec_digits(n2)),
    decreases n2,
{
    lemma_dec_digits_props(n1);
    lemma_dec_digits_props(n2);
    if n2 < 10 {
        let a = dec_digits(n1);
        let b = dec_digits(n2);
        assert(a == seq![digit_byte(n1)] && b == seq![digit_byte(n2)]);
        assert(a[0] < b[0]);
    } else {
        assert(n1 >= 10);
        let p1 = dec_digits(n1 / 10);
        let p2 = dec_digits(n2 / 10);
        assert(dec_digits(n1) == p1.push(digit_byte(n1 % 10)));
        assert(dec_digits(n2) == p2.push(digit_byte(n2 % 10)));
        assert(p1.len() == p2.len());
        vstd::arithmetic::div_mod::lemma_div_is_ordered(n1 as int, n2 as int, 10);
        lemma_lex_push(p1, p2, digit_byte((n1 % 10) as nat), digit_byte((n2 % 10) as nat));
        if n1 / 10 < n2 / 10 {
            lemma_dec_digits_order(n1 / 10, n2 / 10);
        } else {
            assert(n1 / 10 == n2 / 10);
            assert(p1 == p2);
            assert(n1 % 10 < n2 % 10) by {
                vstd::arithmetic::div_mod::lemma_fundamental_div_mod(n1 as int, 10);
                vstd::arithmetic::div_mod::lemma_fundamental_div_mod(n2 as int, 10);
            }
            assert(digit_byte((n1 % 10) as nat) < digit_byte((n2 % 10) as nat));
        }
    }
}

/// Key ordering: for nonnegative timestamps whose keys have the same
/// digit length, the byte keys compare exactly as the timestamps do.
/// (With unequal digit lengths, or with negative timestamps, the decimal
/// text encoding does not preserve order; that is a documented limit of
/// this key shape.)
pub proof fn lemma_key_order(t1: int, t2: int)
    requires
        0 <= t1 < t2,
        ts_key(t1).len() == ts_key(t2).len(),
    ensures
        lex_lt(ts_key(t1), ts_key(t2)),
{
    lemma_dec_digits_order(t1 as nat, t2 as nat);
}

/// A longer prefix of a digit string never has a smaller value.
pub proof fn lemma_dec_val_prefix_le(s: Seq<u8>, l: int, j: int, m: int)
    requires
        0 <= l <= j <= m <= s.len(),
    ensures
        dec_val(s.subrange(l, j)) <= dec_val(s.subrange(l, m)),
    decreases m - j,
{
    if j < m {
        lemma_dec_val_prefix_le(s, l, j, m - 1);
        let w = s.subrange(l, m);
        assert(w.drop_last() =~= s.subrange(l, m - 1));
        assert(dec_val(w) == dec_val(s.subrange(l, m - 1)) * 10 + (w.last() - 48) as nat);
        assert(dec_val(s.subrange(l, m - 1)) * 10 >= dec_val(s.subrange(l, m - 1)));
    }
}

/// Whether `a` is lexicographically smaller than `b`.
pub fn lex_less(a: &Vec<u8>, b: &Vec<u8>) -> (r: bool)
    ensures
        r == lex_lt(a@, b@),
{
    let mut i: usize = 0;
    #[verifier::loop_isolation(false)]
    loop
        invariant
            i <= a.len(),
            i <= b.len(),
            forall|j: int| 0 <= j < i ==> a@[j] == b@[j],
        decreases a.len() - i,
    {
        proof {
            lemma_lex_common_prefix(a@, b@, i as int);
        }
        if i >= b.len() {
            proof {
                assert(b@.skip(i as int).len() == 0);
            }
            return false;
        }
        if i >= a.len() {
            proof {
                assert(a@.skip(i as int).len() == 0);
                assert(b@.skip(i as int).len() > 0);
            }
            return true;
        }
        let x = a[i];
        let y = b[i];
        proof {
            assert(a@.skip(i as int)[0] == a@[i as int]);
            assert(b@.skip(i as int)[0] == b@[i as int]);
        }
        if x < y {
            return true;
        }
        if x > y {
            return false;
        }
        i += 1;
    }
}

/// Whether two byte strings hold the same bytes.
pub fn bytes_eq(a: &Vec<u8>, b: &Vec<u8>) -> (r: bool)
    ensures
        r == (a@ == b@),
{
    if a.len() != b.len() {
        proof {
            assert(a@ != b@);
        }
        return false;
    }
    let mut i: usize = 0;
    #[verifier::loop_isolation(false)]
    while i < a.len()
        invariant
            i <= a.len(),
            a.len() == b.len(),
            forall|j: int| 0 <= j < i ==> a@[j] == b@[j],
        decreases a.len() - i,
    {
        if a[i] != b[i] {
            return false;
        }
        i += 1;
    }
    proof {
        assert(a@ =~= b@);
    }
    true
}

/// Encode a timestamp as its byte key.
pub fn encode_key(ts: i64) -> (k: Vec<u8>)
    ensures
        k@ == ts_key(ts as int),
{
    let neg = ts < 0;
    let wide: i128 = ts as i128;
    let mag: u64 = if wide < 0 { (-wide) as u64 } else { wide as u64 };
    proof {
        if ts < 0 {
            assert(mag == -(ts as int));
        } else {
            assert(mag == ts as int);
        }
    }
    let mut digits: Vec<u8> = Vec::new();
    let mut n: u64 = mag;
    proof {
        assert(dec_digits(mag as nat) =~= dec_digits(n as nat) + digits@);
    }
    #[verifier::loop_isolation(false)]
    while n >= 10
        invariant
            dec_digits(mag as nat) == dec_digits(n as nat) + digits@,
        decreases n,
    {
        let d: u8 = 48 + (n % 10) as u8;
        proof {
            assert(d == digit_byte((n % 10) as nat));
            assert(dec_digits(n as nat) == dec_digits((n as nat) / 10).push(d));
            assert((n / 10) as nat == (n as nat) / 10);
            assert(dec_digits((n as nat) / 10).push(d) + digits@
                =~= dec_digits((n as nat) / 10) + (seq![d] + digits@));
        }
        digits.insert(0, d);
        n = n / 10;
    }
    let d: u8 = 48 + (n % 10) as u8;
    proof {
        assert(n < 10);
        assert((n % 10) as nat == n as nat);
        assert(d == digit_byte(n as nat));
        assert(dec_digits(n as nat) == seq![d]);
        assert(seq![d] + digits@ =~= dec_digits(n as nat) + digits@);
    }
    digits.insert(0, d);
    proof {
        assert(digits@ == dec_digits(mag as nat));
    }
    if neg {
        let mut k: Vec<u8> = Vec::new();
        k.push(45);
        k.append(&mut digits);
        proof {
            assert(k@ =~= seq![45u8] + dec_digits((-(ts as int)) as nat));
        }
        k
    } else {
        proof {
            assert(digits@ == ts_key(ts as int));
        }
        digits
    }
}

/// Decode a byte key back into the timestamp it encodes.  Exactly the
/// canonical encodings are accepted: `None` means that no timestamp at all
/// is stored under these bytes, which the caller treats as corruption (or
/// as a foreign key).
pub fn decode_key(k: &Vec<u8>) -> (r: Result<i64, TsError>)
    ensures
        match r {
            Ok(t) => k@ == ts_key(t as int),
            Err(e) => e == TsError::DecodeError,
        },
        forall|t: i64| k@ == ts_key(t as int) ==> r == Ok::<i64, TsError>(t),
{
    let n = k.len();
    if n == 0 {
        proof {
            assert forall|t: i64| k@ != ts_key(t as int) by {
                lemma_key_shape(t as int);
            }
        }
        return Err(TsError::DecodeError);
    }
    let neg = k[0] == 45;
    let s: usize = if neg { 1 } else { 0 };
    if n == s {
        proof {
            assert forall|t: i64| k@ != ts_key(t as int) by {
                lemma_key_shape(t as int);
                if k@ == ts_key(t as int) {
                    if t >= 0 {
                        assert(is_digit(ts_key(t as int)[0]));
                    } else {
                        assert(ts_key(t as int).len() >= 2);
                    }
                }
            }
        }
        return Err(TsError::DecodeError);
    }
    if n - s > 1 && k[s] == 48 {
        proof {
            assert forall|t: i64| k@ != ts_key(t as int) by {
                lemma_key_shape(t as int);
                if k@ == ts_key(t as int) {
                    if t >= 0 {
                        assert(is_digit(ts_key(t as int)[0]));
                        assert(!neg);
                        assert(ts_key(t as int)[0] != 48);
                    } else {
                        assert(neg);
                        assert(ts_key(t as int).drop_first()[0] == k@[1]);
                        assert(ts_key(t as int).drop_first().len() > 1);
                        assert(ts_key(t as int).drop_first()[0] != 48);
                    }
                }
            }
        }
        return Err(TsError::DecodeError);
    }
    let mut i: usize = s;
    let mut acc: u64 = 0;
    #[verifier::loop_isolation(false)]
    while i < n
        invariant
            s <= i <= n,
            acc == dec_val(k@.subrange(s as int, i as int)),
            forall|j: int| s <= j < i ==> is_digit(k@[j]),
            acc <= u64::MAX,
        decreases n - i,
    {
        let b = k[i];
        if b < 48 || b > 57 {
            proof {
                assert forall|t: i64| k@ != ts_key(t as int) by {
                    lemma_key_shape(t as int);
                    if k@ == ts_key(t as int) {
                        if t >= 0 {
                            assert(is_digit(k@[i as int]));
                        } else {
                            assert(neg);
                            assert(i >= 1);
                            assert(k@[i as int]
                                == ts_key(t as int).drop_first()[i - 1]);
                            assert(is_digit(ts_key(t as int).drop_first()[i - 1]));
                        }
                    }
                }
            }
            return Err(TsError::DecodeError);
        }
        let d: u64 = (b - 48) as u64;
        let limit: u64 = (u64::MAX - d) / 10;
        proof {
            vstd::arithmetic::div_mod::lemma_fundamental_div_mod((u64::MAX - d) as int, 10);
            assert(k@.subrange(s as int, i + 1).drop_last() =~= k@.subrange(
                s as int, i as int));
            assert(k@.subrange(s as int, i + 1).last() == k@[i as int]);
            assert(dec_val(k@.subrange(s as int, i + 1)) == acc * 10 + d);
        }
        if acc > limit {
            proof {
                assert(acc * 10 + d > u64::MAX);
                assert forall|t: i64| k@ != ts_key(t as int) by {
                    lemma_key_shape(t as int);
                    if k@ == ts_key(t as int) {
                        let digits = if t >= 0 { k@ } else { k@.drop_first() };
                        let lo: int = if t >= 0 { 0 } else { 1 };
                        assert(digits =~= k@.subrange(lo, n as int));
                        assert(dec_val(k@.subrange(lo, n as int)) <= 9223372036854775808);
                        assert(lo == s as int) by {
                            if t >= 0 {
                                assert(is_digit(ts_key(t as int)[0]));
                            }
                        }
                        lemma_dec_val_prefix_le(k@, s as int, i + 1, n as int);
                    }
                }
            }
            return Err(TsError::DecodeError);
        }
        acc = acc * 10 + d;
        i += 1;
    }
    let digits_len = n - s;
    proof {
        let digits = k@.subrange(s as int, n as int);
        assert(digits.len() == digits_len);
        assert(all_digits(digits)) by {
            assert(forall|j: int| 0 <= j < digits.len() ==> digits[j] == k@[j + s]);
        }
        assert(canonical_digits(digits)) by {
            if digits.len() > 1 {
                assert(digits[0] == k@[s as int]);
            }
        }
        lemma_digits_of_dec_val(digits);
        assert(dec_digits(acc as nat) == digits);
    }
    if neg {
        if acc == 0 {
            proof {
                assert forall|t: i64| k@ != ts_key(t as int) by {
                    lemma_key_shape(t as int);
                    if k@ == ts_key(t as int) {
                        assert(t < 0) by {
                            if t >= 0 {
                                assert(is_digit(ts_key(t as int)[0]));
                            }
                        }
                        assert(k@.drop_first() =~= k@.subrange(1, n as int));
                        assert(dec_val(k@.subrange(1, n as int)) == -t);
                    }
                }
            }
            return Err(TsError::DecodeError);
        }
        if acc > 9223372036854775808u64 {
            proof {
                assert forall|t: i64| k@ != ts_key(t as int) by {
                    lemma_key_shape(t as int);
                    if k@ == ts_key(t as int) {
                        assert(t < 0) by {
                            if t >= 0 {
                                assert(is_digit(ts_key(t as int)[0]));
                            }
                        }
                        assert(k@.drop_first() =~= k@.subrange(1, n as int));
                        assert(dec_val(k@.subrange(1, n as int)) == -t);
                        assert(-t <= 9223372036854775808);
                    }
                }
            }
            return Err(TsError::DecodeError);
        }
        let t: i64 = if acc == 9223372036854775808u64 {
            i64::MIN
        } else {
            -(acc as i64)
        };
        proof {
            assert(-(t as int) == acc);
            assert(ts_key(t as int) == seq![45u8] + dec_digits(acc as nat));
            assert(k@ =~= seq![45u8] + k@.subrange(1, n as int));
            assert forall|t2: i64| k@ == ts_key(t2 as int) implies Ok::<i64, TsError>(t) == Ok::<i64, TsError>(t2) by {
                lemma_ts_key_injective(t as int, t2 as int);
            }
        }
        Ok(t)
    } else {
        if acc > i64::MAX as u64 {
            proof {
                assert forall|t: i64| k@ != ts_key(t as int) by {
                    lemma_key_shape(t as int);
                    if k@ == ts_key(t as int) {
                        assert(t >= 0) by {
                            if t < 0 {
                                assert(ts_key(t as int)[0] == 45);
                            }
                        }
                        assert(k@ =~= k@.subrange(0, n as int));
                        assert(dec_val(k@) == t);
                    }
                }
            }
            return Err(TsError::DecodeError);
        }
        let t: i64 = acc as i64;
        proof {
            assert(k@ =~= k@.subrange(0, n as int));
            assert(ts_key(t as int) == dec_digits(acc as nat));
            assert forall|t2: i64| k@ == ts_key(t2 as int) implies Ok::<i64, TsError>(t) == Ok::<i64, TsError>(t2) by {
                lemma_ts_key_injective(t as int, t2 as int);
            }
        }
        Ok(t)
    }
}

} // verus!
