//! The mathematical model of a bencode value and its canonical encoding.
//!
//! `BencodeSpec` is the ghost counterpart of the executable `Bencode` tree:
//! byte strings become `Seq<u8>`, integers become unbounded `int`, and the
//! dictionary is a sequence of key/value pairs whose keys must be strictly
//! ascending in byte-wise lexicographic order (`wf`). `spec_encode` gives the
//! canonical byte sequence of a value, exactly as the grammar prescribes.

use vstd::prelude::*;

verus! {

/// Byte value of `:`, which separates a string length from its bytes.
pub const COLON_BYTE: u8 = 58;

/// Byte value of `d`, which opens a dictionary.
pub const D_BYTE: u8 = 100;

/// Byte value of `e`, which closes integers, lists and dictionaries.
pub const E_BYTE: u8 = 101;

/// Byte value of `i`, which opens an integer.
pub const I_BYTE: u8 = 105;

/// Byte value of `l`, which opens a list.
pub const L_BYTE: u8 = 108;

/// Byte value of `-`, the sign of a negative integer.
pub const MINUS_BYTE: u8 = 45;

/// Byte value of `0`, the least ASCII digit.
pub const ZERO_BYTE: u8 = 48;

/// Byte value of `9`, the greatest ASCII digit.
pub const NINE_BYTE: u8 = 57;

/// The ghost form of a bencode value tree.
pub enum BencodeSpec {
    /// An arbitrary byte string.
    Bytes(Seq<u8>),
    /// A signed integer; the model is unbounded, the machine form is `isize`.
    Integer(int),
    /// An ordered sequence of values.
    List(Seq<BencodeSpec>),
    /// Key/value pairs; well-formed trees keep the keys strictly ascending.
    Dictionary(Seq<(Seq<u8>, BencodeSpec)>),
}

/// Byte-wise lexicographic order on byte strings: compare position by
/// position, a proper prefix comes before every extension of it.
pub open spec fn lex_lt(a: Seq<u8>, b: Seq<u8>) -> bool
    decreases a.len(),
{
    if b.len() == 0 {
        false
    } else if a.len() == 0 {
        true
    } else if a[0] < b[0] {
        true
    } else if a[0] > b[0] {
        false
    } else {
        lex_lt(a.drop_first(), b.drop_first())
    }
}

/// A well-formed list has well-formed elements.
pub proof fn lemma_wf_list(s: Seq<BencodeSpec>)
    requires
        wf(BencodeSpec::List(s)),
    ensures
        forall|i: int| 0 <= i < s.len() ==> wf(#[trigger] s[i]),
{
    lemma_wf_items_index(s);
}

/// A well-formed dictionary has sorted keys and well-formed values.
pub proof fn lemma_wf_dict(ps: Seq<(Seq<u8>, BencodeSpec)>)
    requires
        wf(BencodeSpec::Dictionary(ps)),
    ensures
        pairs_sorted(ps),
        forall|i: int| 0 <= i < ps.len() ==> wf(#[trigger] ps[i].1),
{
    lemma_wf_pairs_index(ps);
}

/// Byte-wise order is total: two byte strings are ordered one way or the
/// other, or they are equal.
pub proof fn lemma_lex_trichotomy(a: Seq<u8>, b: Seq<u8>)
    ensures
        lex_lt(a, b) || lex_lt(b, a) || a == b,
        lex_lt(a, b) ==> !lex_lt(b, a) && a != b,
    decreases a.len() + b.len(),
{
    if b.len() == 0 {
        if a.len() == 0 {
            assert(a =~= b);
        }
    } else if a.len() == 0 {
    } else if a[0] == b[0] {
        lemma_lex_trichotomy(a.drop_first(), b.drop_first());
        if a.drop_first() == b.drop_first() {
            assert(a =~= b) by {
                assert forall|t: int| 0 <= t < a.len() implies a[t] == b[t] by {
                    if t > 0 {
                        assert(a.drop_first()[t - 1] == b.drop_first()[t - 1]);
                    }
                }
            }
        }
        if a == b {
            assert(a.drop_first() =~= b.drop_first());
        }
    }
}

/// Byte-wise order is transitive.
pub proof fn lemma_lex_trans(a: Seq<u8>, b: Seq<u8>, c: Seq<u8>)
    requires
        lex_lt(a, b),
        lex_lt(b, c),
    ensures
        lex_lt(a, c),
    decreases a.len() + b.len() + c.len(),
{
    if a.len() == 0 {
    } else if a[0] < b[0] {
    } else {
        // a[0] == b[0], so b is nonempty and b[0] <= c[0]
        if b[0] == c[0] {
            lemma_lex_trans(a.drop_first(), b.drop_first(), c.drop_first());
        }
    }
}

/// Discarding an equal prefix does not change the byte-wise order.
pub proof fn lemma_lex_skip(a: Seq<u8>, b: Seq<u8>, i: int)
    requires
        0 <= i <= a.len(),
        i <= b.len(),
        forall|t: int| 0 <= t < i ==> a[t] == b[t],
    ensures
        lex_lt(a, b) <==> lex_lt(a.skip(i), b.skip(i)),
    decreases i,
{
    if i > 0 {
        assert(a[0] == b[0]);
        assert(forall|t: int|
            0 <= t < i - 1 ==> #[trigger] a.drop_first()[t] == b.drop_first()[t]);
        lemma_lex_skip(a.drop_first(), b.drop_first(), i - 1);
        assert(a.drop_first().skip(i - 1) =~= a.skip(i));
        assert(b.drop_first().skip(i - 1) =~= b.skip(i));
    } else {
        assert(a.skip(0) =~= a);
        assert(b.skip(0) =~= b);
    }
}

/// Keys of a pair sequence are strictly ascending (so also unique).
pub open spec fn pairs_sorted(ps: Seq<(Seq<u8>, BencodeSpec)>) -> bool {
    forall|i: int, j: int|
        0 <= i < j < ps.len() ==> lex_lt(#[trigger] ps[i].0, #[trigger] ps[j].0)
}

/// The data-model invariant: every dictionary in the tree keeps its keys in
/// strictly ascending byte-wise order.
pub open spec fn wf(v: BencodeSpec) -> bool
    decreases v,
{
    match v {
        BencodeSpec::Bytes(_) => true,
        BencodeSpec::Integer(_) => true,
        BencodeSpec::List(l) => wf_items(l),
        BencodeSpec::Dictionary(ps) => pairs_sorted(ps) && wf_pairs(ps),
    }
}

/// Every element of a list body is well formed.
pub open spec fn wf_items(s: Seq<BencodeSpec>) -> bool
    decreases s,
{
    s.len() == 0 || (wf(s[0]) && wf_items(s.subrange(1, s.len() as int)))
}

/// Every value of a dictionary body is well formed.
pub open spec fn wf_pairs(ps: Seq<(Seq<u8>, BencodeSpec)>) -> bool
    decreases ps,
{
    ps.len() == 0 || (wf(ps[0].1) && wf_pairs(ps.subrange(1, ps.len() as int)))
}

/// `wf_items` element by element.
pub proof fn lemma_wf_items_index(s: Seq<BencodeSpec>)
    ensures
        wf_items(s) <==> (forall|i: int| 0 <= i < s.len() ==> wf(#[trigger] s[i])),
    decreases s.len(),
{
    if s.len() > 0 {
        let rest = s.subrange(1, s.len() as int);
        lemma_wf_items_index(rest);
        assert(forall|i: int| 0 <= i < rest.len() ==> #[trigger] rest[i] == s[i + 1]);
        if wf_items(s) {
            assert forall|i: int| 0 <= i < s.len() implies wf(#[trigger] s[i]) by {
                if i > 0 {
                    assert(wf(rest[i - 1]));
                }
            }
        }
        if forall|i: int| 0 <= i < s.len() ==> wf(#[trigger] s[i]) {
            assert forall|i: int| 0 <= i < rest.len() implies wf(#[trigger] rest[i]) by {
                assert(wf(s[i + 1]));
            }
        }
    }
}

/// `wf_pairs` value by value.
pub proof fn lemma_wf_pairs_index(ps: Seq<(Seq<u8>, BencodeSpec)>)
    ensures
        wf_pairs(ps) <==> (forall|i: int| 0 <= i < ps.len() ==> wf(#[trigger] ps[i].1)),
    decreases ps.len(),
{
    if ps.len() > 0 {
        let rest = ps.subrange(1, ps.len() as int);
        lemma_wf_pairs_index(rest);
        assert(forall|i: int| 0 <= i < rest.len() ==> #[trigger] rest[i] == ps[i + 1]);
        if wf_pairs(ps) {
            assert forall|i: int| 0 <= i < ps.len() implies wf(#[trigger] ps[i].1) by {
                if i > 0 {
                    assert(wf(rest[i - 1].1));
                }
            }
        }
        if forall|i: int| 0 <= i < ps.len() ==> wf(#[trigger] ps[i].1) {
            assert forall|i: int| 0 <= i < rest.len() implies wf(#[trigger] rest[i].1) by {
                assert(wf(ps[i + 1].1));
            }
        }
    }
}

/// Whether a byte is an ASCII digit.
pub open spec fn is_digit(b: u8) -> bool {
    ZERO_BYTE <= b <= NINE_BYTE
}

/// The shortest ASCII decimal form of a nonnegative number: no leading zero,
/// except that zero itself is the single digit `0`.
pub open spec fn dec_digits(n: nat) -> Seq<u8>
    decreases n,
{
    if n < 10 {
        seq![(ZERO_BYTE + n) as u8]
    } else {
        dec_digits(n / 10).push((ZERO_BYTE + n % 10) as u8)
    }
}

/// The ASCII decimal form of a signed number: a single `-` before the digits
/// of the magnitude when negative, so zero is `0` and never `-0`.
pub open spec fn int_literal(i: int) -> Seq<u8> {
    if i < 0 {
        seq![MINUS_BYTE] + dec_digits((-i) as nat)
    } else {
        dec_digits(i as nat)
    }
}

/// The number that a run of ASCII digits denotes.
pub open spec fn digits_val(s: Seq<u8>) -> int
    decreases s.len(),
{
    if s.len() == 0 {
        0
    } else {
        digits_val(s.drop_last()) * 10 + (s.last() - ZERO_BYTE)
    }
}

/// A run of digits denotes a nonnegative number.
pub proof fn lemma_digits_val_nonneg(s: Seq<u8>)
    requires
        forall|i: int| 0 <= i < s.len() ==> is_digit(#[trigger] s[i]),
    ensures
        digits_val(s) >= 0,
    decreases s.len(),
{
    if s.len() > 0 {
        assert(forall|i: int| 0 <= i < s.len() - 1 ==> #[trigger] s.drop_last()[i] == s[i]);
        lemma_digits_val_nonneg(s.drop_last());
    }
}

/// The shortest decimal form is nonempty, all digits, and free of leading
/// zeros.
pub proof fn lemma_dec_digits_props(n: nat)
    ensures
        dec_digits(n).len() >= 1,
        forall|i: int| 0 <= i < dec_digits(n).len() ==> is_digit(#[trigger] dec_digits(n)[i]),
        n > 0 ==> dec_digits(n)[0] != ZERO_BYTE,
        n == 0 ==> dec_digits(n) == seq![ZERO_BYTE],
    decreases n,
{
    if n < 10 {
        assert(dec_digits(n) == seq![(ZERO_BYTE + n) as u8]);
    } else {
        lemma_dec_digits_props(n / 10);
        let s = dec_digits(n / 10);
        assert(dec_digits(n) == s.push((ZERO_BYTE + n % 10) as u8));
        assert(forall|i: int| 0 <= i < s.len() ==> #[trigger] dec_digits(n)[i] == s[i]);
        assert(dec_digits(n)[s.len() as int] == (ZERO_BYTE + n % 10) as u8);
    }
}

/// Reading back the shortest decimal form of a number gives the number.
pub proof fn lemma_digits_val_of_dec(n: nat)
    ensures
        digits_val(dec_digits(n)) == n,
    decreases n,
{
    if n < 10 {
        let s = dec_digits(n);
        assert(s == seq![(ZERO_BYTE + n) as u8]);
        assert(s.drop_last() =~= Seq::<u8>::empty());
        assert(s.last() == (ZERO_BYTE + n) as u8);
        assert(digits_val(s) == digits_val(s.drop_last()) * 10 + (s.last() - ZERO_BYTE));
        assert(digits_val(s.drop_last()) == 0);
    } else {
        lemma_digits_val_of_dec(n / 10);
        let s = dec_digits(n / 10);
        let d = (ZERO_BYTE + n % 10) as u8;
        assert(dec_digits(n) == s.push(d));
        assert(s.push(d).drop_last() =~= s);
        assert(s.push(d).last() == d);
        assert(digits_val(s.push(d)) == digits_val(s) * 10 + (d - ZERO_BYTE));
        assert(d - ZERO_BYTE == n % 10);
        assert(n == (n / 10) * 10 + n % 10) by {
            vstd::arithmetic::div_mod::lemma_fundamental_div_mod(n as int, 10);
        }
    }
}

/// An encoding is at least two bytes long and starts with a digit (byte
/// string), `i` (integer), `l` (list) or `d` (dictionary) — never with `e`.
pub proof fn lemma_encode_first_byte(v: BencodeSpec)
    ensures
        spec_encode(v).len() >= 2,
        is_digit(spec_encode(v)[0]) || spec_encode(v)[0] == I_BYTE || spec_encode(v)[0] == L_BYTE
            || spec_encode(v)[0] == D_BYTE,
        spec_encode(v)[0] != E_BYTE,
{
    match v {
        BencodeSpec::Bytes(s) => {
            lemma_dec_digits_props(s.len());
            assert(spec_encode(v)[0] == dec_digits(s.len())[0]);
        },
        BencodeSpec::Integer(i) => {
            lemma_dec_digits_props(if i < 0 {
                (-i) as nat
            } else {
                i as nat
            });
            assert(spec_encode(v)[0] == I_BYTE);
        },
        BencodeSpec::List(l) => {
            assert(spec_encode(v)[0] == L_BYTE);
        },
        BencodeSpec::Dictionary(ps) => {
            assert(spec_encode(v)[0] == D_BYTE);
        },
    }
}

/// The tail of a sorted pair sequence is sorted.
pub proof fn lemma_pairs_sorted_rest(ps: Seq<(Seq<u8>, BencodeSpec)>)
    requires
        pairs_sorted(ps),
        ps.len() > 0,
    ensures
        pairs_sorted(ps.subrange(1, ps.len() as int)),
{
    let rest = ps.subrange(1, ps.len() as int);
    assert forall|i: int, j: int| 0 <= i < j < rest.len() implies lex_lt(
        #[trigger] rest[i].0,
        #[trigger] rest[j].0,
    ) by {
        assert(rest[i] == ps[i + 1] && rest[j] == ps[j + 1]);
    }
}

/// A key below every key of a sorted pair sequence is not in it.
pub proof fn lemma_pairs_get_below(ps: Seq<(Seq<u8>, BencodeSpec)>, k: Seq<u8>)
    requires
        pairs_sorted(ps),
        ps.len() > 0 ==> lex_lt(k, ps[0].0),
    ensures
        spec_pairs_get(ps, k) is None,
    decreases ps.len(),
{
    if ps.len() > 0 {
        lemma_lex_trichotomy(k, ps[0].0);
        let rest = ps.subrange(1, ps.len() as int);
        lemma_pairs_sorted_rest(ps);
        if rest.len() > 0 {
            assert(rest[0] == ps[1]);
            lemma_lex_trans(k, ps[0].0, ps[1].0);
        }
        lemma_pairs_get_below(rest, k);
    }
}

/// CANONICAL ORDERING: two sorted dictionaries that store the same value
/// under every key are the same sequence of pairs, so their encodings are
/// byte-for-byte equal — the canonical form does not depend on how the
/// dictionary was built.
pub proof fn lemma_dictionary_canonical(
    ps1: Seq<(Seq<u8>, BencodeSpec)>,
    ps2: Seq<(Seq<u8>, BencodeSpec)>,
)
    requires
        pairs_sorted(ps1),
        pairs_sorted(ps2),
        forall|k: Seq<u8>| #[trigger] spec_pairs_get(ps1, k) == spec_pairs_get(ps2, k),
    ensures
        ps1 == ps2,
        spec_encode(BencodeSpec::Dictionary(ps1)) == spec_encode(BencodeSpec::Dictionary(ps2)),
    decreases ps1.len() + ps2.len(),
{
    if ps1.len() == 0 && ps2.len() == 0 {
        assert(ps1 =~= ps2);
    } else if ps1.len() == 0 {
        assert(spec_pairs_get(ps1, ps2[0].0) is None);
        assert(spec_pairs_get(ps2, ps2[0].0) == Some(ps2[0].1));
        assert(false);
    } else if ps2.len() == 0 {
        assert(spec_pairs_get(ps2, ps1[0].0) is None);
        assert(spec_pairs_get(ps1, ps1[0].0) == Some(ps1[0].1));
        assert(false);
    } else {
        let k1 = ps1[0].0;
        let k2 = ps2[0].0;
        lemma_lex_trichotomy(k1, k2);
        if lex_lt(k1, k2) {
            lemma_pairs_get_below(ps2, k1);
            assert(spec_pairs_get(ps1, k1) == Some(ps1[0].1));
            assert(false);
        }
        if lex_lt(k2, k1) {
            lemma_pairs_get_below(ps1, k2);
            assert(spec_pairs_get(ps2, k2) == Some(ps2[0].1));
            assert(false);
        }
        assert(k1 == k2);
        assert(spec_pairs_get(ps1, k1) == Some(ps1[0].1));
        assert(spec_pairs_get(ps2, k1) == Some(ps2[0].1));
        let rest1 = ps1.subrange(1, ps1.len() as int);
        let rest2 = ps2.subrange(1, ps2.len() as int);
        lemma_pairs_sorted_rest(ps1);
        lemma_pairs_sorted_rest(ps2);
        assert forall|k: Seq<u8>| #[trigger] spec_pairs_get(rest1, k) == spec_pairs_get(
            rest2,
            k,
        ) by {
            if k == k1 {
                if rest1.len() > 0 {
                    assert(rest1[0] == ps1[1]);
                }
                if rest2.len() > 0 {
                    assert(rest2[0] == ps2[1]);
                }
                lemma_pairs_get_below(rest1, k);
                lemma_pairs_get_below(rest2, k);
            } else {
                assert(spec_pairs_get(ps1, k) == spec_pairs_get(rest1, k));
                assert(spec_pairs_get(ps2, k) == spec_pairs_get(rest2, k));
            }
        }
        lemma_dictionary_canonical(rest1, rest2);
        assert(ps1[0] == ps2[0]);
        assert(ps1 =~= ps2) by {
            assert(ps1.len() == ps2.len());
            assert forall|t: int| 0 <= t < ps1.len() implies ps1[t] == ps2[t] by {
                if t > 0 {
                    assert(rest1[t - 1] == rest2[t - 1]);
                }
            }
        }
    }
}

/// What a sorted insertion stores: the new value under the new key, and what
/// was there before under every other key.
pub proof fn lemma_insert_pair_get(
    ps: Seq<(Seq<u8>, BencodeSpec)>,
    k: Seq<u8>,
    v: BencodeSpec,
    q: Seq<u8>,
)
    requires
        pairs_sorted(ps),
    ensures
        spec_pairs_get(spec_insert_pair(ps, k, v), q) == if q == k {
            Some(v)
        } else {
            spec_pairs_get(ps, q)
        },
    decreases ps.len(),
{
    let r = spec_insert_pair(ps, k, v);
    if ps.len() == 0 {
        assert(r == seq![(k, v)]);
        assert(r[0] == (k, v));
        if q != k {
            assert(r.subrange(1, 1) =~= Seq::<(Seq<u8>, BencodeSpec)>::empty());
            assert(spec_pairs_get(r, q) is None);
            assert(spec_pairs_get(ps, q) is None);
        } else {
            assert(spec_pairs_get(r, q) == Some(v));
        }
    } else {
        let rest = ps.subrange(1, ps.len() as int);
        lemma_pairs_sorted_rest(ps);
        if lex_lt(ps[0].0, k) {
            lemma_lex_trichotomy(ps[0].0, k);
            assert(r == seq![ps[0]] + spec_insert_pair(rest, k, v));
            assert(r[0] == ps[0]);
            assert(r.len() > 0);
            assert(r.subrange(1, r.len() as int) =~= spec_insert_pair(rest, k, v));
            lemma_insert_pair_get(rest, k, v, q);
            if q == ps[0].0 {
                assert(q != k);
                assert(spec_pairs_get(r, q) == Some(ps[0].1));
                assert(spec_pairs_get(ps, q) == Some(ps[0].1));
            } else {
                assert(spec_pairs_get(r, q) == spec_pairs_get(spec_insert_pair(rest, k, v), q));
                assert(spec_pairs_get(ps, q) == spec_pairs_get(rest, q));
            }
        } else if ps[0].0 == k {
            assert(r == seq![(k, v)] + rest);
            assert(r[0] == (k, v));
            assert(r.subrange(1, r.len() as int) =~= rest);
            if q == k {
                assert(spec_pairs_get(r, q) == Some(v));
            } else {
                assert(spec_pairs_get(r, q) == spec_pairs_get(rest, q));
                assert(spec_pairs_get(ps, q) == spec_pairs_get(rest, q));
            }
        } else {
            assert(r == seq![(k, v)] + ps);
            assert(r[0] == (k, v));
            assert(r.subrange(1, r.len() as int) =~= ps);
            if q == k {
                assert(spec_pairs_get(r, q) == Some(v));
            } else {
                assert(spec_pairs_get(r, q) == spec_pairs_get(ps, q));
            }
        }
    }
}

/// The encoding of a byte string: `<decimal length>:<bytes>`.
pub open spec fn spec_encode_bytes(s: Seq<u8>) -> Seq<u8> {
    dec_digits(s.len()) + seq![COLON_BYTE] + s
}

/// The canonical encoding of a value. For a well-formed tree the dictionary
/// pairs are already sorted by key, so emitting them in storage order yields
/// the canonical form.
pub open spec fn spec_encode(v: BencodeSpec) -> Seq<u8>
    decreases v,
{
    match v {
        BencodeSpec::Bytes(s) => spec_encode_bytes(s),
        BencodeSpec::Integer(i) => seq![I_BYTE] + int_literal(i) + seq![E_BYTE],
        BencodeSpec::List(l) => seq![L_BYTE] + spec_encode_items(l) + seq![E_BYTE],
        BencodeSpec::Dictionary(ps) => seq![D_BYTE] + spec_encode_pairs(ps) + seq![E_BYTE],
    }
}

/// The concatenated encodings of a list's elements.
pub open spec fn spec_encode_items(l: Seq<BencodeSpec>) -> Seq<u8>
    decreases l,
{
    if l.len() == 0 {
        Seq::empty()
    } else {
        spec_encode(l[0]) + spec_encode_items(l.subrange(1, l.len() as int))
    }
}

/// The concatenated encodings of a dictionary's pairs, each key before its
/// value.
pub open spec fn spec_encode_pairs(ps: Seq<(Seq<u8>, BencodeSpec)>) -> Seq<u8>
    decreases ps,
{
    if ps.len() == 0 {
        Seq::empty()
    } else {
        spec_encode_bytes(ps[0].0) + spec_encode(ps[0].1) + spec_encode_pairs(
            ps.subrange(1, ps.len() as int),
        )
    }
}

/// The tree fits the machine: integers are `isize` values and byte-string
/// lengths fit `usize`. Trees read back from a real buffer always fit.
pub open spec fn fits(v: BencodeSpec) -> bool
    decreases v,
{
    match v {
        BencodeSpec::Bytes(s) => s.len() <= usize::MAX,
        BencodeSpec::Integer(i) => isize::MIN <= i <= isize::MAX,
        BencodeSpec::List(l) => fits_items(l),
        BencodeSpec::Dictionary(ps) => fits_pairs(ps),
    }
}

/// Every element of a list body fits the machine.
pub open spec fn fits_items(s: Seq<BencodeSpec>) -> bool
    decreases s,
{
    s.len() == 0 || (fits(s[0]) && fits_items(s.subrange(1, s.len() as int)))
}

/// Every key and value of a dictionary body fits the machine.
pub open spec fn fits_pairs(ps: Seq<(Seq<u8>, BencodeSpec)>) -> bool
    decreases ps,
{
    ps.len() == 0 || (ps[0].0.len() <= usize::MAX && fits(ps[0].1) && fits_pairs(
        ps.subrange(1, ps.len() as int),
    ))
}

/// `fits_items` element by element.
pub proof fn lemma_fits_items_index(s: Seq<BencodeSpec>)
    ensures
        fits_items(s) <==> (forall|i: int| 0 <= i < s.len() ==> fits(#[trigger] s[i])),
    decreases s.len(),
{
    if s.len() > 0 {
        let rest = s.subrange(1, s.len() as int);
        lemma_fits_items_index(rest);
        assert(forall|i: int| 0 <= i < rest.len() ==> #[trigger] rest[i] == s[i + 1]);
        if fits_items(s) {
            assert forall|i: int| 0 <= i < s.len() implies fits(#[trigger] s[i]) by {
                if i > 0 {
                    assert(fits(rest[i - 1]));
                }
            }
        }
        if forall|i: int| 0 <= i < s.len() ==> fits(#[trigger] s[i]) {
            assert forall|i: int| 0 <= i < rest.len() implies fits(#[trigger] rest[i]) by {
                assert(fits(s[i + 1]));
            }
        }
    }
}

/// `fits_pairs` pair by pair.
pub proof fn lemma_fits_pairs_index(ps: Seq<(Seq<u8>, BencodeSpec)>)
    ensures
        fits_pairs(ps) <==> (forall|i: int|
            0 <= i < ps.len() ==> (#[trigger] ps[i]).0.len() <= usize::MAX && fits(ps[i].1)),
    decreases ps.len(),
{
    if ps.len() > 0 {
        let rest = ps.subrange(1, ps.len() as int);
        lemma_fits_pairs_index(rest);
        assert(forall|i: int| 0 <= i < rest.len() ==> #[trigger] rest[i] == ps[i + 1]);
        if fits_pairs(ps) {
            assert forall|i: int| 0 <= i < ps.len() implies (#[trigger] ps[i]).0.len()
                <= usize::MAX && fits(ps[i].1) by {
                if i > 0 {
                    assert(rest[i - 1].0.len() <= usize::MAX && fits(rest[i - 1].1));
                }
            }
        }
        if forall|i: int|
            0 <= i < ps.len() ==> (#[trigger] ps[i]).0.len() <= usize::MAX && fits(ps[i].1) {
            assert forall|i: int| 0 <= i < rest.len() implies (#[trigger] rest[i]).0.len()
                <= usize::MAX && fits(rest[i].1) by {
                assert(ps[i + 1].0.len() <= usize::MAX && fits(ps[i + 1].1));
            }
        }
    }
}

/// Container nesting depth: byte strings and integers sit at depth zero, a
/// container is one deeper than its deepest child.
pub open spec fn depth_of(v: BencodeSpec) -> nat
    decreases v,
{
    match v {
        BencodeSpec::Bytes(_) => 0,
        BencodeSpec::Integer(_) => 0,
        BencodeSpec::List(l) => 1 + depth_of_items(l),
        BencodeSpec::Dictionary(ps) => 1 + depth_of_pairs(ps),
    }
}

/// The deepest nesting depth among a list's elements.
pub open spec fn depth_of_items(l: Seq<BencodeSpec>) -> nat
    decreases l,
{
    if l.len() == 0 {
        0
    } else {
        let d0 = depth_of(l[0]);
        let dr = depth_of_items(l.subrange(1, l.len() as int));
        if d0 >= dr {
            d0
        } else {
            dr
        }
    }
}

/// The deepest nesting depth among a dictionary's values.
pub open spec fn depth_of_pairs(ps: Seq<(Seq<u8>, BencodeSpec)>) -> nat
    decreases ps,
{
    if ps.len() == 0 {
        0
    } else {
        let d0 = depth_of(ps[0].1);
        let dr = depth_of_pairs(ps.subrange(1, ps.len() as int));
        if d0 >= dr {
            d0
        } else {
            dr
        }
    }
}

/// The value stored under a key: the first pair carrying the key, which in a
/// sorted sequence is also the only one.
pub open spec fn spec_pairs_get(ps: Seq<(Seq<u8>, BencodeSpec)>, k: Seq<u8>) -> Option<BencodeSpec>
    decreases ps.len(),
{
    if ps.len() == 0 {
        None
    } else if ps[0].0 == k {
        Some(ps[0].1)
    } else {
        spec_pairs_get(ps.subrange(1, ps.len() as int), k)
    }
}

/// Path lookup: descend through nested dictionaries key by key; absent the
/// moment a step is not a dictionary or its key is missing.
pub open spec fn spec_get_in(v: BencodeSpec, keys: Seq<Seq<u8>>) -> Option<BencodeSpec>
    decreases keys.len(),
{
    if keys.len() == 0 {
        Some(v)
    } else {
        match v {
            BencodeSpec::Dictionary(ps) => match spec_pairs_get(ps, keys[0]) {
                Some(child) => spec_get_in(child, keys.subrange(1, keys.len() as int)),
                None => None,
            },
            _ => None,
        }
    }
}

/// Insertion into a key-sorted pair sequence: the new pair goes in front of
/// the first key not below it, and replaces that key's pair when equal. This
/// is how a decoded dictionary absorbs its pairs, whatever order the input
/// presented them in.
pub open spec fn spec_insert_pair(
    ps: Seq<(Seq<u8>, BencodeSpec)>,
    k: Seq<u8>,
    v: BencodeSpec,
) -> Seq<(Seq<u8>, BencodeSpec)>
    decreases ps.len(),
{
    if ps.len() == 0 {
        seq![(k, v)]
    } else if lex_lt(ps[0].0, k) {
        seq![ps[0]] + spec_insert_pair(ps.subrange(1, ps.len() as int), k, v)
    } else if ps[0].0 == k {
        seq![(k, v)] + ps.subrange(1, ps.len() as int)
    } else {
        seq![(k, v)] + ps
    }
}

/// Where the inserted pair lands: before the first slot whose key is not
/// below the new key, replacing that slot when the keys are equal.
pub proof fn lemma_insert_pair_at(ps: Seq<(Seq<u8>, BencodeSpec)>, k: Seq<u8>, v: BencodeSpec, j: int)
    requires
        0 <= j <= ps.len(),
        forall|t: int| 0 <= t < j ==> lex_lt(#[trigger] ps[t].0, k),
        j < ps.len() ==> !lex_lt(ps[j].0, k),
    ensures
        j == ps.len() ==> spec_insert_pair(ps, k, v) == ps.push((k, v)),
        j < ps.len() && ps[j].0 == k ==> spec_insert_pair(ps, k, v) == ps.update(j, (k, v)),
        j < ps.len() && ps[j].0 != k ==> spec_insert_pair(ps, k, v) == ps.subrange(0, j)
            + seq![(k, v)] + ps.subrange(j, ps.len() as int),
    decreases j,
{
    if j == 0 {
        if ps.len() == 0 {
            assert(spec_insert_pair(ps, k, v) =~= ps.push((k, v)));
        } else if ps[0].0 == k {
            assert(spec_insert_pair(ps, k, v) =~= ps.update(0, (k, v)));
        } else {
            assert(spec_insert_pair(ps, k, v) =~= ps.subrange(0, 0) + seq![(k, v)] + ps.subrange(
                0,
                ps.len() as int,
            ));
        }
    } else {
        let rest = ps.subrange(1, ps.len() as int);
        lemma_insert_pair_at(rest, k, v, j - 1);
        if j == ps.len() {
            assert(seq![ps[0]] + rest.push((k, v)) =~= ps.push((k, v)));
        } else if ps[j].0 == k {
            assert(rest[j - 1] == ps[j]);
            assert(seq![ps[0]] + rest.update(j - 1, (k, v)) =~= ps.update(j, (k, v)));
        } else {
            assert(seq![ps[0]] + (rest.subrange(0, j - 1) + seq![(k, v)] + rest.subrange(
                j - 1,
                rest.len() as int,
            )) =~= ps.subrange(0, j) + seq![(k, v)] + ps.subrange(j, ps.len() as int));
        }
    }
}

/// Inserting into a sorted pair sequence keeps it sorted, and every pair of
/// the result is either the inserted pair or one carried over.
pub proof fn lemma_insert_pair_sorted(ps: Seq<(Seq<u8>, BencodeSpec)>, k: Seq<u8>, v: BencodeSpec)
    requires
        pairs_sorted(ps),
    ensures
        pairs_sorted(spec_insert_pair(ps, k, v)),
        forall|i: int|
            0 <= i < spec_insert_pair(ps, k, v).len() ==> (#[trigger] spec_insert_pair(ps, k, v)[i]
                == (k, v) || exists|j: int| 0 <= j < ps.len() && spec_insert_pair(ps, k, v)[i]
                == ps[j]),
    decreases ps.len(),
{
    let r = spec_insert_pair(ps, k, v);
    if ps.len() == 0 {
    } else if lex_lt(ps[0].0, k) {
        let rest = ps.subrange(1, ps.len() as int);
        assert(pairs_sorted(rest)) by {
            assert(forall|i: int, j: int|
                0 <= i < j < rest.len() ==> rest[i] == ps[i + 1] && rest[j] == ps[j + 1]);
        }
        lemma_insert_pair_sorted(rest, k, v);
        let rr = spec_insert_pair(rest, k, v);
        assert(r == seq![ps[0]] + rr);
        // the head key is below the inserted key and below every carried key
        assert(forall|i: int| 0 <= i < rr.len() ==> lex_lt(ps[0].0, #[trigger] rr[i].0)) by {
            assert(forall|j: int| 0 <= j < rest.len() ==> lex_lt(ps[0].0, #[trigger] rest[j].0))
                by {
                assert(forall|j: int| 0 <= j < rest.len() ==> rest[j] == ps[j + 1]);
            }
        }
        assert(pairs_sorted(r)) by {
            assert(forall|i: int, j: int|
                0 <= i < j < r.len() ==> lex_lt(#[trigger] r[i].0, #[trigger] r[j].0)) by {
                assert(forall|i: int| 1 <= i < r.len() ==> r[i] == rr[i - 1]);
                assert(r[0] == ps[0]);
            }
        }
        assert(forall|i: int|
            0 <= i < r.len() ==> (#[trigger] r[i] == (k, v) || exists|j: int|
                0 <= j < ps.len() && r[i] == ps[j])) by {
            assert(forall|i: int| 1 <= i < r.len() ==> r[i] == rr[i - 1]);
            assert(forall|j: int| 0 <= j < rest.len() ==> rest[j] == ps[j + 1]);
            assert(r[0] == ps[0]);
            assert forall|i: int| 1 <= i < r.len() && #[trigger] rr[i - 1] != (k, v) implies exists|
                j: int,
            | 0 <= j < ps.len() && r[i] == ps[j] by {
                let j0 = choose|j0: int| 0 <= j0 < rest.len() && rr[i - 1] == rest[j0];
                assert(r[i] == ps[j0 + 1]);
            }
        }
    } else if ps[0].0 == k {
        let rest = ps.subrange(1, ps.len() as int);
        assert(r == seq![(k, v)] + rest);
        assert(forall|j: int| 0 <= j < rest.len() ==> rest[j] == ps[j + 1]);
        assert(forall|j: int| 0 <= j < rest.len() ==> lex_lt(k, #[trigger] rest[j].0));
        assert(pairs_sorted(r)) by {
            assert(forall|i: int, j: int|
                0 <= i < j < r.len() ==> lex_lt(#[trigger] r[i].0, #[trigger] r[j].0)) by {
                assert(forall|i: int| 1 <= i < r.len() ==> r[i] == rest[i - 1]);
            }
        }
        assert(forall|i: int| 1 <= i < r.len() ==> r[i] == ps[i]);
    } else {
        lemma_lex_trichotomy(ps[0].0, k);
        assert(lex_lt(k, ps[0].0));
        assert(r == seq![(k, v)] + ps);
        assert(forall|j: int| 0 <= j < ps.len() ==> lex_lt(k, #[trigger] ps[j].0)) by {
            assert forall|j: int| 0 <= j < ps.len() implies lex_lt(k, #[trigger] ps[j].0) by {
                if j > 0 {
                    lemma_lex_trans(k, ps[0].0, ps[j].0);
                }
            }
        }
        assert(pairs_sorted(r)) by {
            assert(forall|i: int, j: int|
                0 <= i < j < r.len() ==> lex_lt(#[trigger] r[i].0, #[trigger] r[j].0)) by {
                assert(forall|i: int| 1 <= i < r.len() ==> r[i] == ps[i - 1]);
            }
        }
        assert(forall|i: int| 1 <= i < r.len() ==> r[i] == ps[i - 1]);
    }
}

/// The encoding of a one-element list body is the element's encoding.
pub proof fn lemma_encode_items_single(x: BencodeSpec)
    ensures
        spec_encode_items(seq![x]) == spec_encode(x),
{
    let s = seq![x];
    assert(s.subrange(1, 1) =~= Seq::<BencodeSpec>::empty());
    assert(spec_encode_items(s.subrange(1, 1)) == Seq::<u8>::empty());
    assert(spec_encode(x) + Seq::<u8>::empty() =~= spec_encode(x));
}

/// The encoding of a one-pair dictionary body is the key's encoding followed
/// by the value's.
pub proof fn lemma_encode_pairs_single(p: (Seq<u8>, BencodeSpec))
    ensures
        spec_encode_pairs(seq![p]) == spec_encode_bytes(p.0) + spec_encode(p.1),
{
    let s = seq![p];
    assert(s.subrange(1, 1) =~= Seq::<(Seq<u8>, BencodeSpec)>::empty());
    assert(spec_encode_pairs(s.subrange(1, 1)) == Seq::<u8>::empty());
    assert(spec_encode_bytes(p.0) + spec_encode(p.1) + Seq::<u8>::empty() =~= spec_encode_bytes(p.0)
        + spec_encode(p.1));
}

/// Appending a well-formed, machine-fitting element keeps a list body well
/// formed and fitting.
pub proof fn lemma_items_push(s: Seq<BencodeSpec>, v: BencodeSpec)
    requires
        wf_items(s),
        fits_items(s),
        wf(v),
        fits(v),
    ensures
        wf_items(s.push(v)),
        fits_items(s.push(v)),
{
    lemma_wf_items_index(s);
    lemma_fits_items_index(s);
    lemma_wf_items_index(s.push(v));
    lemma_fits_items_index(s.push(v));
    assert(forall|i: int| 0 <= i < s.len() ==> #[trigger] s.push(v)[i] == s[i]);
    assert(s.push(v)[s.len() as int] == v);
}

/// Inserting a well-formed, machine-fitting pair keeps a sorted dictionary
/// body sorted, well formed and fitting.
pub proof fn lemma_insert_pair_wf(ps: Seq<(Seq<u8>, BencodeSpec)>, k: Seq<u8>, v: BencodeSpec)
    requires
        pairs_sorted(ps),
        wf_pairs(ps),
        fits_pairs(ps),
        wf(v),
        fits(v),
        k.len() <= usize::MAX,
    ensures
        pairs_sorted(spec_insert_pair(ps, k, v)),
        wf_pairs(spec_insert_pair(ps, k, v)),
        fits_pairs(spec_insert_pair(ps, k, v)),
{
    let r = spec_insert_pair(ps, k, v);
    lemma_insert_pair_sorted(ps, k, v);
    lemma_wf_pairs_index(ps);
    lemma_fits_pairs_index(ps);
    lemma_wf_pairs_index(r);
    lemma_fits_pairs_index(r);
    assert forall|i: int| 0 <= i < r.len() implies wf(#[trigger] r[i].1) && r[i].0.len()
        <= usize::MAX && fits(r[i].1) by {
        if r[i] == (k, v) {
        } else {
            let j = choose|j: int| 0 <= j < ps.len() && r[i] == ps[j];
            assert(wf(ps[j].1) && ps[j].0.len() <= usize::MAX && fits(ps[j].1));
        }
    }
}

/// `spec_encode_items` distributes over concatenation.
pub proof fn lemma_encode_items_app(s1: Seq<BencodeSpec>, s2: Seq<BencodeSpec>)
    ensures
        spec_encode_items(s1 + s2) == spec_encode_items(s1) + spec_encode_items(s2),
    decreases s1.len(),
{
    if s1.len() == 0 {
        assert(s1 + s2 =~= s2);
        assert(spec_encode_items(s1) + spec_encode_items(s2) =~= spec_encode_items(s2));
    } else {
        assert((s1 + s2).subrange(1, (s1 + s2).len() as int) =~= s1.subrange(
            1,
            s1.len() as int,
        ) + s2);
        lemma_encode_items_app(s1.subrange(1, s1.len() as int), s2);
        assert(spec_encode_items(s1 + s2) =~= spec_encode_items(s1) + spec_encode_items(s2));
    }
}

/// `spec_encode_pairs` distributes over concatenation.
pub proof fn lemma_encode_pairs_app(
    s1: Seq<(Seq<u8>, BencodeSpec)>,
    s2: Seq<(Seq<u8>, BencodeSpec)>,
)
    ensures
        spec_encode_pairs(s1 + s2) == spec_encode_pairs(s1) + spec_encode_pairs(s2),
    decreases s1.len(),
{
    if s1.len() == 0 {
        assert(s1 + s2 =~= s2);
        assert(spec_encode_pairs(s1) + spec_encode_pairs(s2) =~= spec_encode_pairs(s2));
    } else {
        assert((s1 + s2).subrange(1, (s1 + s2).len() as int) =~= s1.subrange(
            1,
            s1.len() as int,
        ) + s2);
        lemma_encode_pairs_app(s1.subrange(1, s1.len() as int), s2);
        assert(spec_encode_pairs(s1 + s2) =~= spec_encode_pairs(s1) + spec_encode_pairs(s2));
    }
}

} // verus!
