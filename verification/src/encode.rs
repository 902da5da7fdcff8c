//! The encoder: turns a value tree into its canonical byte encoding.
//!
//! Encoding never fails. Each function appends to a growing buffer and its
//! contract states the exact bytes appended, in terms of the spec-level
//! encoding from [`crate::model`]. A well-formed dictionary already stores its
//! pairs in ascending key order, so emitting them in storage order yields the
//! canonical form.

use vstd::prelude::*;

use crate::Bencode;
use crate::elems_view;
use crate::lemma_elems_view;
use crate::lemma_pairs_view;
use crate::model::BencodeSpec;
use crate::model::COLON_BYTE;
use crate::model::D_BYTE;
use crate::model::E_BYTE;
use crate::model::I_BYTE;
use crate::model::L_BYTE;
use crate::model::MINUS_BYTE;
use crate::model::ZERO_BYTE;
use crate::model::dec_digits;
use crate::model::int_literal;
use crate::model::lemma_encode_items_app;
use crate::model::lemma_encode_pairs_app;
use crate::model::lemma_encode_items_single;
use crate::model::lemma_encode_pairs_single;
use crate::pairs_view;
use crate::model::spec_encode;
use crate::model::spec_encode_bytes;
use crate::model::spec_encode_items;
use crate::model::spec_encode_pairs;
use crate::model::lemma_wf_dict;
use crate::model::lemma_wf_list;
use crate::model::wf;

verus! {

/// The canonical encoding of a value, as a fresh buffer.
pub fn encode(bencode: &Bencode) -> (r: Vec<u8>)
    requires
        wf(bencode@),
    ensures
        r@ == spec_encode(bencode@),
{
    let mut buf: Vec<u8> = Vec::new();
    do_encode(bencode, &mut buf);
    proof {
        assert(buf@ =~= spec_encode(bencode@));
    }
    buf
}

/// Appends the canonical encoding of one value to the buffer.
pub fn do_encode(bencode: &Bencode, buf: &mut Vec<u8>)
    requires
        wf(bencode@),
    ensures
        final(buf)@ == old(buf)@ + spec_encode(bencode@),
    decreases bencode,
{
    match bencode {
        Bencode::Bytes(s) => encode_string(s, buf),
        Bencode::Integer(i) => encode_integer(i, buf),
        Bencode::List(l) => {
            proof {
                lemma_elems_view(l@);
                assert(bencode@ == BencodeSpec::List(elems_view(l@)));
                lemma_wf_list(elems_view(l@));
            }
            encode_list(l, buf);
        },
        Bencode::Dictionary(d) => {
            proof {
                lemma_pairs_view(d@);
                assert(bencode@ == BencodeSpec::Dictionary(pairs_view(d@)));
                lemma_wf_dict(pairs_view(d@));
            }
            encode_dictionary(d, buf);
        },
    }
}

/// Appends `<decimal length>:<bytes>` for one byte string.
pub fn encode_string(s: &Vec<u8>, buf: &mut Vec<u8>)
    ensures
        final(buf)@ == old(buf)@ + spec_encode_bytes(s@),
{
    write_decimal(s.len(), buf);
    buf.push(COLON_BYTE);
    buf.extend_from_slice(s.as_slice());
    proof {
        assert(buf@ =~= old(buf)@ + spec_encode_bytes(s@));
    }
}

/// Appends `i<decimal>e` for one integer, with a single `-` for negatives and
/// `0` (never `-0`) for zero.
pub fn encode_integer(i: &isize, buf: &mut Vec<u8>)
    ensures
        final(buf)@ == old(buf)@ + seq![I_BYTE] + int_literal(*i as int) + seq![E_BYTE],
{
    buf.push(I_BYTE);
    let v: isize = *i;
    if v >= 0 {
        write_decimal(v as usize, buf);
    } else {
        buf.push(MINUS_BYTE);
        let m: usize = ((-(v + 1)) as usize) + 1;
        assert(m as int == -(v as int));
        write_decimal(m, buf);
    }
    buf.push(E_BYTE);
    proof {
        assert(buf@ =~= old(buf)@ + seq![I_BYTE] + int_literal(v as int) + seq![E_BYTE]);
    }
}

/// Appends `l`, each element's encoding in order, then `e`.
pub fn encode_list(l: &Vec<Bencode>, buf: &mut Vec<u8>)
    requires
        forall|i: int| 0 <= i < l@.len() ==> wf(#[trigger] elems_view(l@)[i]),
    ensures
        final(buf)@ == old(buf)@ + seq![L_BYTE] + spec_encode_items(elems_view(l@)) + seq![E_BYTE],
    decreases l,
{
    proof {
        lemma_elems_view(l@);
    }
    buf.push(L_BYTE);
    let ghost pre = buf@;
    let mut idx: usize = 0;
    while idx < l.len()
        invariant
            idx <= l@.len(),
            forall|i: int| 0 <= i < l@.len() ==> wf(#[trigger] elems_view(l@)[i]),
            elems_view(l@).len() == l@.len(),
            forall|i: int|
                0 <= i < l@.len() ==> #[trigger] elems_view(l@)[i] == crate::value_view(l@[i]),
            buf@ == pre + spec_encode_items(elems_view(l@).subrange(0, idx as int)),
        decreases l@.len() - idx,
    {
        proof {
            assert(elems_view(l@).subrange(0, idx + 1) =~= elems_view(l@).subrange(0, idx as int)
                + seq![elems_view(l@)[idx as int]]);
            lemma_encode_items_app(
                elems_view(l@).subrange(0, idx as int),
                seq![elems_view(l@)[idx as int]],
            );
            lemma_encode_items_single(elems_view(l@)[idx as int]);
        }
        do_encode(&l[idx], buf);
        idx = idx + 1;
    }
    proof {
        assert(elems_view(l@).subrange(0, l@.len() as int) =~= elems_view(l@));
    }
    buf.push(E_BYTE);
    proof {
        assert(buf@ =~= old(buf)@ + seq![L_BYTE] + spec_encode_items(elems_view(l@))
            + seq![E_BYTE]);
    }
}

/// Appends `d`, each key/value pair's encoding in storage order, then `e`.
pub fn encode_dictionary(d: &Vec<(Vec<u8>, Bencode)>, buf: &mut Vec<u8>)
    requires
        forall|i: int| 0 <= i < d@.len() ==> wf(#[trigger] pairs_view(d@)[i].1),
    ensures
        final(buf)@ == old(buf)@ + seq![D_BYTE] + spec_encode_pairs(pairs_view(d@)) + seq![E_BYTE],
    decreases d,
{
    proof {
        lemma_pairs_view(d@);
    }
    buf.push(D_BYTE);
    let ghost pre = buf@;
    let mut idx: usize = 0;
    while idx < d.len()
        invariant
            idx <= d@.len(),
            forall|i: int| 0 <= i < d@.len() ==> wf(#[trigger] pairs_view(d@)[i].1),
            pairs_view(d@).len() == d@.len(),
            forall|i: int|
                0 <= i < d@.len() ==> #[trigger] pairs_view(d@)[i] == (
                    d@[i].0@,
                    crate::value_view(d@[i].1),
                ),
            buf@ == pre + spec_encode_pairs(pairs_view(d@).subrange(0, idx as int)),
        decreases d@.len() - idx,
    {
        proof {
            assert(pairs_view(d@).subrange(0, idx + 1) =~= pairs_view(d@).subrange(0, idx as int)
                + seq![pairs_view(d@)[idx as int]]);
            lemma_encode_pairs_app(
                pairs_view(d@).subrange(0, idx as int),
                seq![pairs_view(d@)[idx as int]],
            );
            lemma_encode_pairs_single(pairs_view(d@)[idx as int]);
        }
        let pair = &d[idx];
        encode_string(&pair.0, buf);
        do_encode(&pair.1, buf);
        idx = idx + 1;
    }
    proof {
        assert(pairs_view(d@).subrange(0, d@.len() as int) =~= pairs_view(d@));
    }
    buf.push(E_BYTE);
    proof {
        assert(buf@ =~= old(buf)@ + seq![D_BYTE] + spec_encode_pairs(pairs_view(d@))
            + seq![E_BYTE]);
    }
}

/// Appends the shortest decimal form of a nonnegative number.
fn write_decimal(n: usize, buf: &mut Vec<u8>)
    ensures
        final(buf)@ == old(buf)@ + dec_digits(n as nat),
    decreases n,
{
    if n < 10 {
        buf.push(ZERO_BYTE + n as u8);
        proof {
            assert(buf@ =~= old(buf)@ + dec_digits(n as nat));
        }
    } else {
        write_decimal(n / 10, buf);
        buf.push(ZERO_BYTE + (n % 10) as u8);
        proof {
            assert(buf@ =~= old(buf)@ + dec_digits(n as nat));
        }
    }
}

} // verus!
