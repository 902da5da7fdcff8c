//! A verified bencode codec: byte strings, signed integers, lists and
//! dictionaries with byte-wise lexicographically sorted keys, decoded from and
//! encoded to the self-delimiting ASCII-prefixed grammar used by BitTorrent
//! metadata.
//!
//! The decoder is strict about numeric tokens (no leading zeros, no `-0`) and
//! tolerant about dictionary key order: pairs are re-sorted on insertion, so
//! every decoded dictionary satisfies the sorted-keys invariant `model::wf`.
//! The encoder emits the canonical form, with dictionary keys ascending.

use vstd::prelude::*;

pub mod decode;
pub mod encode;
pub mod laws;
pub mod model;

use crate::decode::DecodeError;
use crate::decode::ErrorKind;
use crate::decode::MAX_DEPTH;
use crate::decode::lemma_parse_value_props;
use crate::decode::parse_outcome;
use crate::decode::spec_decode;
use crate::model::BencodeSpec;
use crate::model::fits;
use crate::model::lemma_insert_pair_at;
use crate::model::lemma_lex_skip;
use crate::model::lemma_lex_trichotomy;
use crate::model::lex_lt;
use crate::model::spec_encode;
use crate::model::spec_get_in;
use crate::model::spec_insert_pair;
use crate::model::spec_pairs_get;
use crate::model::wf;
use vstd::utf8::decode_utf8;
use vstd::utf8::valid_utf8;

verus! {

/// A bencode value tree. Byte strings own their bytes; a dictionary is a
/// vector of key/value pairs which is well formed when its keys are strictly
/// ascending in byte-wise lexicographic order (see [`model::wf`]).
#[derive(Debug, PartialEq)]
pub enum Bencode {
    /// An arbitrary byte string.
    Bytes(Vec<u8>),
    /// A signed machine integer.
    Integer(isize),
    /// An ordered sequence of values.
    List(Vec<Bencode>),
    /// Key/value pairs, kept sorted by key through [`dict_insert`].
    Dictionary(Vec<(Vec<u8>, Bencode)>),
}

/// The ghost tree that a value stands for.
pub open spec fn value_view(v: Bencode) -> BencodeSpec
    decreases v,
{
    match v {
        Bencode::Bytes(s) => BencodeSpec::Bytes(s@),
        Bencode::Integer(i) => BencodeSpec::Integer(i as int),
        Bencode::List(l) => BencodeSpec::List(elems_view(l@)),
        Bencode::Dictionary(d) => BencodeSpec::Dictionary(pairs_view(d@)),
    }
}

/// The ghost trees that a sequence of list elements stands for.
pub open spec fn elems_view(s: Seq<Bencode>) -> Seq<BencodeSpec>
    decreases s,
{
    if s.len() == 0 {
        Seq::empty()
    } else {
        seq![value_view(s[0])] + elems_view(s.subrange(1, s.len() as int))
    }
}

/// The ghost pairs that a sequence of dictionary entries stands for.
pub open spec fn pairs_view(s: Seq<(Vec<u8>, Bencode)>) -> Seq<(Seq<u8>, BencodeSpec)>
    decreases s,
{
    if s.len() == 0 {
        Seq::empty()
    } else {
        seq![(s[0].0@, value_view(s[0].1))] + pairs_view(s.subrange(1, s.len() as int))
    }
}

/// `elems_view` element by element.
pub proof fn lemma_elems_view(s: Seq<Bencode>)
    ensures
        elems_view(s).len() == s.len(),
        forall|i: int| 0 <= i < s.len() ==> #[trigger] elems_view(s)[i] == value_view(s[i]),
    decreases s.len(),
{
    if s.len() > 0 {
        lemma_elems_view(s.subrange(1, s.len() as int));
    }
}

/// How two byte-string keys compare in byte-wise lexicographic order.
#[derive(Clone, Copy, Debug, PartialEq, Eq, Structural)]
pub enum KeyOrder {
    /// The first key sorts before the second.
    Before,
    /// The keys are equal.
    Same,
    /// The first key sorts after the second.
    After,
}

/// Compares two byte strings in byte-wise lexicographic order.
pub fn lex_compare(a: &Vec<u8>, b: &Vec<u8>) -> (r: KeyOrder)
    ensures
        r == KeyOrder::Before <==> lex_lt(a@, b@),
        r == KeyOrder::Same <==> a@ == b@,
        r == KeyOrder::After <==> lex_lt(b@, a@),
{
    proof {
        lemma_lex_trichotomy(a@, b@);
        lemma_lex_trichotomy(b@, a@);
    }
    let mut i: usize = 0;
    while i < a.len() && i < b.len()
        invariant
            i <= a@.len(),
            i <= b@.len(),
            forall|t: int| 0 <= t < i ==> a@[t] == b@[t],
        decreases a@.len() - i,
    {
        let ca = a[i];
        let cb = b[i];
        if ca < cb {
            proof {
                lemma_lex_skip(a@, b@, i as int);
                assert(lex_lt(a@.skip(i as int), b@.skip(i as int))) by {
                    assert(a@.skip(i as int)[0] == ca && b@.skip(i as int)[0] == cb);
                }
                lemma_lex_trichotomy(a@, b@);
            }
            return KeyOrder::Before;
        }
        if ca > cb {
            proof {
                lemma_lex_skip(b@, a@, i as int);
                assert(lex_lt(b@.skip(i as int), a@.skip(i as int))) by {
                    assert(a@.skip(i as int)[0] == ca && b@.skip(i as int)[0] == cb);
                }
                lemma_lex_trichotomy(b@, a@);
            }
            return KeyOrder::After;
        }
        i = i + 1;
    }
    if a.len() == b.len() {
        proof {
            assert(a@ =~= b@);
        }
        KeyOrder::Same
    } else if a.len() < b.len() {
        proof {
            lemma_lex_skip(a@, b@, i as int);
            assert(a@.skip(i as int).len() == 0);
            assert(b@.skip(i as int).len() > 0);
        }
        KeyOrder::Before
    } else {
        proof {
            lemma_lex_skip(b@, a@, i as int);
            assert(b@.skip(i as int).len() == 0);
            assert(a@.skip(i as int).len() > 0);
        }
        KeyOrder::After
    }
}

/// Inserts a pair into a key-sorted dictionary vector, keeping the keys
/// sorted; an equal key has its value replaced, as [`model::spec_insert_pair`]
/// says.
pub fn dict_insert(d: &mut Vec<(Vec<u8>, Bencode)>, key: Vec<u8>, value: Bencode)
    ensures
        pairs_view(final(d)@) == spec_insert_pair(pairs_view(old(d)@), key@, value@),
{
    proof {
        lemma_pairs_view(d@);
    }
    let ghost ps = pairs_view(d@);
    let mut i: usize = 0;
    let mut found: bool = false;
    let mut same: bool = false;
    while i < d.len() && !found
        invariant
            i <= d@.len(),
            ps == pairs_view(d@),
            ps.len() == d@.len(),
            forall|t: int| 0 <= t < ps.len() ==> #[trigger] ps[t] == (d@[t].0@, value_view(d@[t].1)),
            forall|t: int| 0 <= t < i ==> lex_lt(#[trigger] ps[t].0, key@),
            found ==> i < d@.len() && !lex_lt(ps[i as int].0, key@),
            found ==> (same <==> ps[i as int].0 == key@),
            !found ==> !same,
        decreases d@.len() - i + (if found { 0int } else { 1int }),
    {
        match lex_compare(&d[i].0, &key) {
            KeyOrder::Before => {
                i = i + 1;
            },
            KeyOrder::Same => {
                proof {
                    lemma_lex_trichotomy(ps[i as int].0, key@);
                }
                found = true;
                same = true;
            },
            KeyOrder::After => {
                proof {
                    lemma_lex_trichotomy(ps[i as int].0, key@);
                }
                found = true;
            },
        }
    }
    proof {
        lemma_insert_pair_at(ps, key@, value@, i as int);
    }
    if same {
        d.set(i, (key, value));
        proof {
            lemma_pairs_view(d@);
            assert(pairs_view(d@) =~= ps.update(i as int, (key@, value@)));
        }
    } else {
        d.insert(i, (key, value));
        proof {
            lemma_pairs_view(d@);
            if i < ps.len() {
                assert(pairs_view(d@) =~= ps.subrange(0, i as int) + seq![(key@, value@)]
                    + ps.subrange(i as int, ps.len() as int));
            } else {
                assert(pairs_view(d@) =~= ps.push((key@, value@)));
            }
        }
    }
}

/// Appending an element extends the ghost view by the element's view.
pub proof fn lemma_elems_view_push(s: Seq<Bencode>, v: Bencode)
    ensures
        elems_view(s.push(v)) == elems_view(s).push(value_view(v)),
{
    lemma_elems_view(s);
    lemma_elems_view(s.push(v));
    assert(forall|i: int| 0 <= i < s.len() ==> #[trigger] s.push(v)[i] == s[i]);
    assert(s.push(v)[s.len() as int] == v);
    assert(elems_view(s.push(v)) =~= elems_view(s).push(value_view(v)));
}

/// `pairs_view` element by element.
pub proof fn lemma_pairs_view(s: Seq<(Vec<u8>, Bencode)>)
    ensures
        pairs_view(s).len() == s.len(),
        forall|i: int|
            0 <= i < s.len() ==> #[trigger] pairs_view(s)[i] == (s[i].0@, value_view(s[i].1)),
    decreases s.len(),
{
    if s.len() > 0 {
        lemma_pairs_view(s.subrange(1, s.len() as int));
    }
}

impl View for Bencode {
    type V = BencodeSpec;

    open spec fn view(&self) -> BencodeSpec {
        value_view(*self)
    }
}

/// Parses exactly one value from the front of the buffer and ignores
/// whatever follows it, like the lenient entry point of the grammar.
pub fn decode(b: &[u8]) -> (r: Result<Bencode, DecodeError>)
    ensures
        r matches Ok(v) ==> (spec_decode(b@) matches Ok(sp) && sp.0 == v@ && wf(v@) && fits(v@)),
        r matches Err(e) ==> spec_decode(b@) == Err::<(BencodeSpec, int), (ErrorKind, int)>(
            (e.kind, e.offset as int),
        ),
{
    match decode_prefix(b) {
        Ok((v, _)) => Ok(v),
        Err(e) => Err(e),
    }
}

/// Parses one value from the front of the buffer and also returns how many
/// bytes it consumed, so the caller can keep the remainder.
pub fn decode_prefix(b: &[u8]) -> (r: Result<(Bencode, usize), DecodeError>)
    ensures
        parse_outcome(r, spec_decode(b@)),
        r matches Ok(p) ==> wf(p.0@) && fits(p.0@) && p.1 <= b@.len(),
{
    let r = crate::decode::parse_value(b, 0, MAX_DEPTH);
    proof {
        lemma_parse_value_props(b@, 0, MAX_DEPTH as nat);
    }
    r
}

/// Parses one value from the front of the buffer with a caller-chosen
/// nesting budget in place of the default [`MAX_DEPTH`].
pub fn decode_with_depth(b: &[u8], max_depth: usize) -> (r: Result<(Bencode, usize), DecodeError>)
    ensures
        parse_outcome(r, crate::decode::spec_parse_value(b@, 0, max_depth as nat)),
        r matches Ok(p) ==> wf(p.0@) && fits(p.0@) && p.1 <= b@.len(),
{
    let r = crate::decode::parse_value(b, 0, max_depth);
    proof {
        lemma_parse_value_props(b@, 0, max_depth as nat);
    }
    r
}

/// Parses one value that must span the whole buffer: trailing bytes are an
/// error, reported as `TrailingBytes` at the first unconsumed offset.
pub fn decode_all(b: &[u8]) -> (r: Result<Bencode, DecodeError>)
    ensures
        r matches Ok(v) ==> spec_decode(b@) == Ok::<(BencodeSpec, int), (ErrorKind, int)>(
            (v@, b@.len() as int),
        ) && wf(v@) && fits(v@),
        r matches Err(e) ==> match spec_decode(b@) {
            Err((k, o)) => e.kind == k && e.offset as int == o,
            Ok((_, p)) => p < b@.len() && e.kind == ErrorKind::TrailingBytes && e.offset as int
                == p,
        },
{
    match decode_prefix(b) {
        Ok((v, n)) => {
            if n == b.len() {
                Ok(v)
            } else {
                Err(DecodeError { kind: ErrorKind::TrailingBytes, offset: n })
            }
        },
        Err(e) => Err(e),
    }
}

impl Bencode {
    /// The canonical encoding of this value; for a well-formed tree it is the
    /// unique sorted-keys byte form of the grammar.
    pub fn encode(&self) -> (r: Vec<u8>)
        requires
            wf(self@),
        ensures
            r@ == spec_encode(self@),
    {
        crate::encode::encode(self)
    }

    /// The payload of a `Bytes` value as text. As in the grammar, bytes carry
    /// no encoding; the caller asserts they are UTF-8, and any other variant
    /// or non-UTF-8 bytes are outside this method's contract.
    pub fn unwrap_string(&self) -> (r: String)
        requires
            self matches Bencode::Bytes(s) && valid_utf8(s@),
        ensures
            self matches Bencode::Bytes(s) ==> r@ == decode_utf8(s@),
    {
        match self {
            Bencode::Bytes(s) => utf8_string(s),
            _ => vstd::pervasive::unreached(),
        }
    }

    /// The payload of a `Bytes` value, copied.
    pub fn unwrap_bytes(&self) -> (r: Vec<u8>)
        requires
            self is Bytes,
        ensures
            self matches Bencode::Bytes(s) ==> r@ == s@,
    {
        match self {
            Bencode::Bytes(s) => s.clone(),
            _ => vstd::pervasive::unreached(),
        }
    }

    /// The payload of an `Integer` value.
    pub fn unwrap_integer(&self) -> (r: isize)
        requires
            self is Integer,
        ensures
            self matches Bencode::Integer(i) ==> r == i,
    {
        match self {
            Bencode::Integer(i) => *i,
            _ => vstd::pervasive::unreached(),
        }
    }

    /// The elements of a `List` value.
    pub fn unwrap_list(&self) -> (r: &Vec<Bencode>)
        requires
            self is List,
        ensures
            self matches Bencode::List(l) ==> r@ == l@,
    {
        match self {
            Bencode::List(l) => l,
            _ => vstd::pervasive::unreached(),
        }
    }

    /// The key/value pairs of a `Dictionary` value, in storage order.
    pub fn unwrap_dictionary(&self) -> (r: &Vec<(Vec<u8>, Bencode)>)
        requires
            self is Dictionary,
        ensures
            self matches Bencode::Dictionary(d) ==> r@ == d@,
    {
        match self {
            Bencode::Dictionary(d) => d,
            _ => vstd::pervasive::unreached(),
        }
    }
}

/// The ghost keys that a vector of path keys stands for.
pub open spec fn keys_view(s: Seq<Vec<u8>>) -> Seq<Seq<u8>> {
    Seq::new(s.len(), |i: int| s[i]@)
}

/// Looks a key up in a dictionary's pair vector, as
/// [`model::spec_pairs_get`] says: the first pair carrying the key.
pub fn dict_get<'a>(d: &'a Vec<(Vec<u8>, Bencode)>, key: &Vec<u8>) -> (r: Option<&'a Bencode>)
    ensures
        match r {
            Some(v) => spec_pairs_get(pairs_view(d@), key@) == Some(v@),
            None => spec_pairs_get(pairs_view(d@), key@) is None,
        },
{
    proof {
        lemma_pairs_view(d@);
    }
    let ghost ps = pairs_view(d@);
    proof {
        assert(ps.skip(0) =~= ps);
    }
    let mut i: usize = 0;
    while i < d.len()
        invariant
            i <= d@.len(),
            ps == pairs_view(d@),
            ps.len() == d@.len(),
            forall|t: int| 0 <= t < ps.len() ==> #[trigger] ps[t] == (d@[t].0@, value_view(d@[t].1)),
            spec_pairs_get(ps, key@) == spec_pairs_get(ps.skip(i as int), key@),
        decreases d@.len() - i,
    {
        proof {
            assert(ps.skip(i as int)[0] == ps[i as int]);
            assert(ps.skip(i as int).subrange(1, ps.skip(i as int).len() as int) =~= ps.skip(
                i + 1,
            ));
        }
        match lex_compare(&d[i].0, key) {
            KeyOrder::Same => {
                return Some(&d[i].1);
            },
            _ => {
                i = i + 1;
            },
        }
    }
    proof {
        assert(ps.skip(i as int).len() == 0);
    }
    None
}

/// Path lookup through nested dictionaries, as the grammar's collaborators
/// use it: follow each key in turn, absent the moment a step is not a
/// dictionary or its key is missing (see [`model::spec_get_in`]).
pub fn get_in<'a>(v: &'a Bencode, keys: &Vec<Vec<u8>>) -> (r: Option<&'a Bencode>)
    ensures
        match r {
            Some(out) => spec_get_in(v@, keys_view(keys@)) == Some(out@),
            None => spec_get_in(v@, keys_view(keys@)) is None,
        },
{
    let ghost ks = keys_view(keys@);
    proof {
        assert(ks.skip(0) =~= ks);
    }
    let mut cur: &Bencode = v;
    let mut i: usize = 0;
    while i < keys.len()
        invariant
            i <= keys@.len(),
            ks == keys_view(keys@),
            ks.len() == keys@.len(),
            forall|t: int| 0 <= t < ks.len() ==> #[trigger] ks[t] == keys@[t]@,
            spec_get_in(v@, ks) == spec_get_in(cur@, ks.skip(i as int)),
        decreases keys@.len() - i,
    {
        proof {
            assert(ks.skip(i as int)[0] == ks[i as int]);
            assert(ks.skip(i as int).subrange(1, ks.skip(i as int).len() as int) =~= ks.skip(
                i + 1,
            ));
        }
        match cur {
            Bencode::Dictionary(d) => {
                proof {
                    assert(cur@ == BencodeSpec::Dictionary(pairs_view(d@)));
                }
                match dict_get(d, &keys[i]) {
                    Some(child) => {
                        cur = child;
                        i = i + 1;
                    },
                    None => {
                        return None;
                    },
                }
            },
            _ => {
                return None;
            },
        }
    }
    proof {
        assert(ks.skip(i as int).len() == 0);
    }
    Some(cur)
}

/// Relies on std::str::from_utf8: it accepts exactly the valid UTF-8 byte
/// strings, and the `str` it returns holds exactly the input bytes, so its
/// characters are their UTF-8 decoding, as vstd's `decode_utf8` states it.
#[verifier::external_body]
fn utf8_string(s: &Vec<u8>) -> (r: String)
    requires
        valid_utf8(s@),
    ensures
        r@ == decode_utf8(s@),
{
    std::str::from_utf8(s.as_slice()).unwrap().to_string()
}

} // verus!
