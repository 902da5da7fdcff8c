//! The laws that tie the decoder and the encoder together.
//!
//! The centrepiece is the round-trip theorem: parsing the canonical encoding
//! of any well-formed, machine-fitting value (nested within the depth budget)
//! succeeds, consumes exactly the encoding, and yields the value back.
//! Together with the exact contracts of [`crate::decode`] and
//! [`crate::encode`], this pins down `decode(encode(v)) == v` and
//! `encode(decode(b)) == b` for canonical bytes `b`.

use vstd::prelude::*;

use crate::decode::ErrorKind;
use crate::decode::MAX_DEPTH;
use crate::decode::lemma_skip_digits_char;
use crate::decode::spec_decode;
use crate::decode::spec_parse_integer;
use crate::decode::spec_parse_items;
use crate::decode::spec_parse_pairs;
use crate::decode::spec_parse_string;
use crate::decode::spec_parse_value;
use crate::model::BencodeSpec;
use crate::model::COLON_BYTE;
use crate::model::D_BYTE;
use crate::model::E_BYTE;
use crate::model::I_BYTE;
use crate::model::L_BYTE;
use crate::model::MINUS_BYTE;
use crate::model::ZERO_BYTE;
use crate::model::dec_digits;
use crate::model::depth_of;
use crate::model::depth_of_items;
use crate::model::depth_of_pairs;
use crate::model::digits_val;
use crate::model::fits;
use crate::model::fits_items;
use crate::model::fits_pairs;
use crate::model::int_literal;
use crate::model::is_digit;
use crate::model::lemma_dec_digits_props;
use crate::model::lemma_digits_val_of_dec;
use crate::model::lemma_encode_first_byte;
use crate::model::lemma_insert_pair_at;
use crate::model::lemma_pairs_sorted_rest;
use crate::model::lex_lt;
use crate::model::pairs_sorted;
use crate::model::spec_encode;
use crate::model::spec_encode_bytes;
use crate::model::spec_encode_items;
use crate::model::spec_encode_pairs;
use crate::model::spec_insert_pair;
use crate::model::wf;
use crate::model::wf_items;
use crate::model::wf_pairs;

verus! {

/// Splitting a buffer slice known to hold a concatenation.
proof fn lemma_subrange_split(b: Seq<u8>, pos: int, s1: Seq<u8>, s2: Seq<u8>)
    requires
        0 <= pos,
        pos + s1.len() + s2.len() <= b.len(),
        b.subrange(pos, pos + s1.len() + s2.len()) == s1 + s2,
    ensures
        b.subrange(pos, pos + s1.len() as int) == s1,
        b.subrange(pos + s1.len() as int, pos + s1.len() + s2.len()) == s2,
{
    let whole = b.subrange(pos, pos + s1.len() + s2.len());
    assert(b.subrange(pos, pos + s1.len() as int) =~= s1) by {
        assert forall|t: int| 0 <= t < s1.len() implies #[trigger] b.subrange(
            pos,
            pos + s1.len() as int,
        )[t] == s1[t] by {
            assert(whole[t] == (s1 + s2)[t]);
        }
    }
    assert(b.subrange(pos + s1.len() as int, pos + s1.len() + s2.len()) =~= s2) by {
        assert forall|t: int| 0 <= t < s2.len() implies #[trigger] b.subrange(
            pos + s1.len() as int,
            pos + s1.len() + s2.len(),
        )[t] == s2[t] by {
            assert(whole[s1.len() + t] == (s1 + s2)[s1.len() + t]);
        }
    }
}

/// Parsing the encoding of a byte string yields the byte string.
proof fn lemma_parse_string_enc(b: Seq<u8>, pos: int, k: Seq<u8>)
    requires
        0 <= pos,
        k.len() <= usize::MAX,
        pos + spec_encode_bytes(k).len() <= b.len(),
        b.subrange(pos, pos + spec_encode_bytes(k).len() as int) == spec_encode_bytes(k),
    ensures
        spec_parse_string(b, pos) == Ok::<(Seq<u8>, int), (ErrorKind, int)>(
            (k, pos + spec_encode_bytes(k).len()),
        ),
{
    let enc = spec_encode_bytes(k);
    let dd = dec_digits(k.len());
    let ll = dd.len() as int;
    let total = enc.len() as int;
    lemma_dec_digits_props(k.len());
    assert(total == ll + 1 + k.len());
    assert forall|t: int| 0 <= t < total implies #[trigger] b[pos + t] == enc[t] by {
        assert(b.subrange(pos, pos + total)[t] == enc[t]);
    }
    assert(forall|t: int| 0 <= t < ll ==> #[trigger] enc[t] == dd[t]);
    assert(enc[ll] == COLON_BYTE);
    assert(forall|t: int| 0 <= t < k.len() ==> #[trigger] enc[ll + 1 + t] == k[t]);
    assert forall|t: int| pos <= t < pos + ll implies is_digit(#[trigger] b[t]) by {
        assert(b[pos + (t - pos)] == enc[t - pos]);
        assert(enc[t - pos] == dd[t - pos]);
    }
    assert(b[pos + ll] == COLON_BYTE);
    assert(!is_digit(COLON_BYTE));
    lemma_skip_digits_char(b, pos, pos + ll);
    assert(b.subrange(pos, pos + ll) =~= dd) by {
        assert forall|t: int| 0 <= t < ll implies #[trigger] b.subrange(pos, pos + ll)[t]
            == dd[t] by {
            assert(b[pos + t] == enc[t]);
        }
    }
    lemma_digits_val_of_dec(k.len());
    assert(digits_val(b.subrange(pos, pos + ll)) == k.len());
    if ll > 1 {
        assert(k.len() > 0) by {
            if k.len() == 0 {
                assert(dd == seq![ZERO_BYTE]);
            }
        }
        assert(b[pos] == dd[0]);
        assert(dd[0] != ZERO_BYTE);
    }
    assert(b.subrange(pos + ll + 1, pos + ll + 1 + k.len() as int) =~= k) by {
        assert forall|t: int| 0 <= t < k.len() implies #[trigger] b.subrange(
            pos + ll + 1,
            pos + ll + 1 + k.len() as int,
        )[t] == k[t] by {
            assert(b[pos + (ll + 1 + t)] == enc[ll + 1 + t]);
        }
    }
}

/// Parsing the encoding of an integer yields the integer.
proof fn lemma_parse_integer_enc(b: Seq<u8>, pos: int, i: int)
    requires
        0 <= pos,
        isize::MIN <= i <= isize::MAX,
        pos + 2 + int_literal(i).len() <= b.len(),
        b.subrange(pos, pos + 2 + int_literal(i).len()) == seq![I_BYTE] + int_literal(i)
            + seq![E_BYTE],
    ensures
        spec_parse_integer(b, pos) == Ok::<(int, int), (ErrorKind, int)>(
            (i, pos + 2 + int_literal(i).len()),
        ),
{
    let lit = int_literal(i);
    let enc = seq![I_BYTE] + lit + seq![E_BYTE];
    let total = enc.len() as int;
    let mag = if i < 0 {
        (-i) as nat
    } else {
        i as nat
    };
    let dd = dec_digits(mag);
    let ll = dd.len() as int;
    lemma_dec_digits_props(mag);
    assert forall|t: int| 0 <= t < total implies #[trigger] b[pos + t] == enc[t] by {
        assert(b.subrange(pos, pos + total)[t] == enc[t]);
    }
    assert(enc[0] == I_BYTE);
    let ds = if i < 0 {
        pos + 2
    } else {
        pos + 1
    };
    if i < 0 {
        assert(lit == seq![MINUS_BYTE] + dd);
        assert(enc[1] == MINUS_BYTE);
        assert(b[pos + 1] == MINUS_BYTE);
        assert(forall|t: int| 0 <= t < ll ==> #[trigger] enc[2 + t] == dd[t]);
        assert(enc[2 + ll] == E_BYTE);
    } else {
        assert(lit == dd);
        assert(forall|t: int| 0 <= t < ll ==> #[trigger] enc[1 + t] == dd[t]);
        assert(enc[1 + ll] == E_BYTE);
        assert(b[pos + 1] == dd[0]);
        assert(is_digit(dd[0]));
        assert(b[pos + 1] != MINUS_BYTE);
    }
    assert forall|t: int| ds <= t < ds + ll implies is_digit(#[trigger] b[t]) by {
        assert(b[pos + (t - pos)] == enc[t - pos]);
    }
    assert(b[ds + ll] == E_BYTE);
    assert(!is_digit(E_BYTE));
    lemma_skip_digits_char(b, ds, ds + ll);
    assert(b.subrange(ds, ds + ll) =~= dd) by {
        assert forall|t: int| 0 <= t < ll implies #[trigger] b.subrange(ds, ds + ll)[t]
            == dd[t] by {
            assert(b[pos + (t + ds - pos)] == enc[t + ds - pos]);
        }
    }
    lemma_digits_val_of_dec(mag);
    assert(digits_val(b.subrange(ds, ds + ll)) == mag);
    if i < 0 {
        assert(mag > 0);
        assert(b[ds] == dd[0]);
        assert(dd[0] != ZERO_BYTE);
    } else if ll > 1 {
        assert(mag >= 10) by {
            if mag < 10 {
                assert(dd == seq![(ZERO_BYTE + mag) as u8]);
            }
        }
        assert(b[ds] == dd[0]);
        assert(dd[0] != ZERO_BYTE);
    }
}

/// Parsing the encoding of a well-formed value yields the value.
proof fn lemma_parse_encoded_value(b: Seq<u8>, pos: int, depth: nat, v: BencodeSpec)
    requires
        wf(v),
        fits(v),
        depth_of(v) <= depth,
        0 <= pos,
        pos + spec_encode(v).len() <= b.len(),
        b.subrange(pos, pos + spec_encode(v).len() as int) == spec_encode(v),
    ensures
        spec_parse_value(b, pos, depth) == Ok::<(BencodeSpec, int), (ErrorKind, int)>(
            (v, pos + spec_encode(v).len()),
        ),
    decreases v, 0int,
{
    let enc = spec_encode(v);
    let total = enc.len() as int;
    lemma_encode_first_byte(v);
    assert(b[pos] == enc[0]) by {
        assert(b.subrange(pos, pos + total)[0] == enc[0]);
    }
    match v {
        BencodeSpec::Bytes(s) => {
            lemma_parse_string_enc(b, pos, s);
        },
        BencodeSpec::Integer(i) => {
            assert(!is_digit(I_BYTE));
            lemma_parse_integer_enc(b, pos, i);
        },
        BencodeSpec::List(l) => {
            assert(!is_digit(L_BYTE) && L_BYTE != I_BYTE);
            assert(depth >= 1);
            let body = spec_encode_items(l) + seq![E_BYTE];
            assert(enc =~= seq![L_BYTE] + body);
            lemma_subrange_split(b, pos, seq![L_BYTE], body);
            lemma_parse_encoded_items(b, pos + 1, (depth - 1) as nat, l, Seq::empty());
            assert(Seq::<BencodeSpec>::empty() + l =~= l);
            assert(pos + 1 + body.len() == pos + total);
        },
        BencodeSpec::Dictionary(ps) => {
            assert(!is_digit(D_BYTE) && D_BYTE != I_BYTE && D_BYTE != L_BYTE);
            assert(depth >= 1);
            let body = spec_encode_pairs(ps) + seq![E_BYTE];
            assert(enc =~= seq![D_BYTE] + body);
            lemma_subrange_split(b, pos, seq![D_BYTE], body);
            lemma_parse_encoded_pairs(b, pos + 1, (depth - 1) as nat, ps, Seq::empty());
            assert(Seq::<(Seq<u8>, BencodeSpec)>::empty() + ps =~= ps);
            assert(pos + 1 + body.len() == pos + total);
        },
    }
}

/// Parsing the encodings of list elements followed by `e` appends exactly
/// those elements.
proof fn lemma_parse_encoded_items(
    b: Seq<u8>,
    pos: int,
    depth: nat,
    l: Seq<BencodeSpec>,
    acc: Seq<BencodeSpec>,
)
    requires
        wf_items(l),
        fits_items(l),
        depth_of_items(l) <= depth,
        0 <= pos,
        pos + spec_encode_items(l).len() + 1 <= b.len(),
        b.subrange(pos, pos + spec_encode_items(l).len() + 1) == spec_encode_items(l)
            + seq![E_BYTE],
    ensures
        spec_parse_items(b, pos, depth, acc) == Ok::<(Seq<BencodeSpec>, int), (ErrorKind, int)>(
            (acc + l, pos + spec_encode_items(l).len() + 1),
        ),
    decreases l, 1int,
{
    if l.len() == 0 {
        assert(spec_encode_items(l) == Seq::<u8>::empty());
        assert(b[pos] == E_BYTE) by {
            assert(b.subrange(pos, pos + 1)[0] == (spec_encode_items(l) + seq![E_BYTE])[0]);
        }
        assert(acc + l =~= acc);
    } else {
        let v0 = l[0];
        let rest = l.subrange(1, l.len() as int);
        let e0 = spec_encode(v0);
        let tail = spec_encode_items(rest) + seq![E_BYTE];
        assert(spec_encode_items(l) + seq![E_BYTE] =~= e0 + tail);
        lemma_subrange_split(b, pos, e0, tail);
        lemma_encode_first_byte(v0);
        assert(b[pos] == e0[0]) by {
            assert(b.subrange(pos, pos + e0.len() as int)[0] == e0[0]);
        }
        assert(b[pos] != E_BYTE);
        assert(pos < b.len());
        lemma_parse_encoded_value(b, pos, depth, v0);
        let p1 = pos + e0.len() as int;
        lemma_parse_encoded_items(b, p1, depth, rest, acc.push(v0));
        assert(acc.push(v0) + rest =~= acc + l);
        assert(p1 + spec_encode_items(rest).len() + 1 == pos + spec_encode_items(l).len() + 1);
    }
}

/// Parsing the encodings of sorted dictionary pairs followed by `e` appends
/// exactly those pairs, in order.
proof fn lemma_parse_encoded_pairs(
    b: Seq<u8>,
    pos: int,
    depth: nat,
    l: Seq<(Seq<u8>, BencodeSpec)>,
    acc: Seq<(Seq<u8>, BencodeSpec)>,
)
    requires
        pairs_sorted(l),
        wf_pairs(l),
        fits_pairs(l),
        depth_of_pairs(l) <= depth,
        forall|i: int, j: int|
            0 <= i < acc.len() && 0 <= j < l.len() ==> lex_lt(
                #[trigger] acc[i].0,
                #[trigger] l[j].0,
            ),
        0 <= pos,
        pos + spec_encode_pairs(l).len() + 1 <= b.len(),
        b.subrange(pos, pos + spec_encode_pairs(l).len() + 1) == spec_encode_pairs(l)
            + seq![E_BYTE],
    ensures
        spec_parse_pairs(b, pos, depth, acc) == Ok::<
            (Seq<(Seq<u8>, BencodeSpec)>, int),
            (ErrorKind, int),
        >((acc + l, pos + spec_encode_pairs(l).len() + 1)),
    decreases l, 1int,
{
    if l.len() == 0 {
        assert(spec_encode_pairs(l) == Seq::<u8>::empty());
        assert(b[pos] == E_BYTE) by {
            assert(b.subrange(pos, pos + 1)[0] == (spec_encode_pairs(l) + seq![E_BYTE])[0]);
        }
        assert(acc + l =~= acc);
    } else {
        let k0 = l[0].0;
        let v0 = l[0].1;
        let rest = l.subrange(1, l.len() as int);
        let ek = spec_encode_bytes(k0);
        let ev = spec_encode(v0);
        let tail = spec_encode_pairs(rest) + seq![E_BYTE];
        assert(spec_encode_pairs(l) + seq![E_BYTE] =~= ek + (ev + tail));
        lemma_subrange_split(b, pos, ek, ev + tail);
        let p1 = pos + ek.len() as int;
        lemma_subrange_split(b, p1, ev, tail);
        let p2 = p1 + ev.len() as int;
        lemma_dec_digits_props(k0.len());
        assert(b[pos] == ek[0]) by {
            assert(b.subrange(pos, pos + ek.len() as int)[0] == ek[0]);
        }
        assert(ek[0] == dec_digits(k0.len())[0]);
        assert(is_digit(b[pos]));
        assert(b[pos] != E_BYTE);
        assert(pos < b.len());
        lemma_parse_string_enc(b, pos, k0);
        lemma_parse_encoded_value(b, p1, depth, v0);
        // the inserted pair lands at the end of the accumulator
        lemma_insert_pair_at(acc, k0, v0, acc.len() as int);
        assert(spec_insert_pair(acc, k0, v0) == acc.push((k0, v0)));
        // sortedness and ordering hypotheses for the tail
        lemma_pairs_sorted_rest(l);
        let acc2 = acc.push((k0, v0));
        assert(forall|j: int| 0 <= j < rest.len() ==> #[trigger] rest[j] == l[j + 1]);
        assert forall|i: int, j: int|
            0 <= i < acc2.len() && 0 <= j < rest.len() implies lex_lt(
            #[trigger] acc2[i].0,
            #[trigger] rest[j].0,
        ) by {
            assert(rest[j] == l[j + 1]);
            if i < acc.len() {
                assert(acc2[i] == acc[i]);
                assert(lex_lt(acc[i].0, l[j + 1].0));
            } else {
                assert(acc2[i] == (k0, v0));
                assert(lex_lt(l[0].0, l[j + 1].0));
            }
        }
        lemma_parse_encoded_pairs(b, p2, depth, rest, acc2);
        assert(acc2 + rest =~= acc + l);
        assert(p2 + spec_encode_pairs(rest).len() + 1 == pos + spec_encode_pairs(l).len() + 1);
    }
}

/// ROUND TRIP: decoding the canonical encoding of any well-formed,
/// machine-fitting value nested within the depth budget yields that value
/// back, having consumed the whole buffer. With the decoder's and encoder's
/// own contracts this gives `decode(encode(v)) == v`, and
/// `encode(decode(b)) == b` for every such canonical `b`.
pub proof fn lemma_round_trip(v: BencodeSpec)
    requires
        wf(v),
        fits(v),
        depth_of(v) <= MAX_DEPTH,
    ensures
        spec_decode(spec_encode(v)) == Ok::<(BencodeSpec, int), (ErrorKind, int)>(
            (v, spec_encode(v).len() as int),
        ),
{
    let b = spec_encode(v);
    assert(b.subrange(0, b.len() as int) =~= b);
    lemma_parse_encoded_value(b, 0, MAX_DEPTH as nat, v);
}

/// IDEMPOTENT RE-ENCODE: decoding canonical bytes and encoding the result
/// reproduces the bytes, so a second decode/encode pass changes nothing:
/// `encode(decode(encode(v))) == encode(v)`.
pub proof fn lemma_reencode_idempotent(v: BencodeSpec)
    requires
        wf(v),
        fits(v),
        depth_of(v) <= MAX_DEPTH,
    ensures
        spec_decode(spec_encode(v)) matches Ok(p) && spec_encode(p.0) == spec_encode(v),
{
    lemma_round_trip(v);
}

} // verus!
