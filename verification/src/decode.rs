//! The decoder: turns a byte buffer into a value tree or a structured error.
//!
//! The grammar is given once, as the spec-level parser `spec_parse_value` and
//! its companions; every executable parsing function is proved to return
//! exactly what the spec parser returns. Policy, stated here once:
//!
//! - Numeric tokens are strict: an empty digit run, a spurious leading zero
//!   (`03:abc`, `i03e`) and `i-0e` are rejected.
//! - Dictionary key order is tolerant: pairs may arrive in any order and are
//!   re-sorted on insertion, a later duplicate key replacing the earlier pair,
//!   so decoded dictionaries always satisfy the sorted-keys invariant.
//! - A missing byte reports `UnexpectedEof` at the end of the buffer; a wrong
//!   byte reports the token's error at the offending offset; numeric-token
//!   errors point at the start of the digit run.
//! - Containers may nest at most [`MAX_DEPTH`] levels; deeper input fails
//!   with `NestingTooDeep` instead of exhausting the call stack.

use vstd::prelude::*;

use crate::Bencode;
use crate::dict_insert;
use crate::elems_view;
use crate::pairs_view;
use crate::model::BencodeSpec;
use crate::model::COLON_BYTE;
use crate::model::D_BYTE;
use crate::model::E_BYTE;
use crate::model::I_BYTE;
use crate::model::L_BYTE;
use crate::model::MINUS_BYTE;
use crate::model::ZERO_BYTE;
use crate::model::NINE_BYTE;
use crate::model::digits_val;
use crate::model::is_digit;
use crate::model::spec_insert_pair;
use crate::model::wf;
use crate::model::fits;
use crate::model::wf_items;
use crate::model::fits_items;
use crate::model::wf_pairs;
use crate::model::fits_pairs;
use crate::model::pairs_sorted;

verus! {

/// The deepest container nesting the decoder accepts.
pub const MAX_DEPTH: usize = 512;

/// What went wrong while decoding.
#[derive(Clone, Copy, Debug, PartialEq, Eq, Structural)]
pub enum ErrorKind {
    /// A byte-string length token was empty, too large for this machine, or
    /// not followed by `:`.
    MalformedLength,
    /// A byte-string length token had a spurious leading zero.
    LeadingZero,
    /// The buffer ended where the grammar required more input.
    UnexpectedEof,
    /// An integer token was empty, had a spurious leading zero or `-0`, or
    /// was not closed by `e`.
    MalformedInteger,
    /// An integer token does not fit a signed machine word.
    IntegerOverflow,
    /// The buffer ended inside a list, before its closing `e`.
    UnterminatedList,
    /// The buffer ended inside a dictionary, before its closing `e`.
    UnterminatedDictionary,
    /// A dictionary key position held an integer, list or dictionary.
    NonStringKey,
    /// A byte opened none of the four productions.
    UnknownTag,
    /// Containers nested deeper than [`MAX_DEPTH`].
    NestingTooDeep,
    /// The strict entry point found bytes after the parsed value.
    TrailingBytes,
}

/// A decode failure: what went wrong and the byte offset where.
#[derive(Clone, Copy, Debug, PartialEq, Eq, Structural)]
pub struct DecodeError {
    /// What went wrong.
    pub kind: ErrorKind,
    /// The byte offset of the offending input position.
    pub offset: usize,
}

/// The position after the run of ASCII digits that starts at `pos`.
pub open spec fn spec_skip_digits(b: Seq<u8>, pos: int) -> int
    decreases b.len() - pos,
{
    if pos < b.len() && is_digit(b[pos]) {
        spec_skip_digits(b, pos + 1)
    } else {
        pos
    }
}

/// `spec_skip_digits` stays within the buffer, skips digits only, and stops
/// at the first non-digit.
pub proof fn lemma_skip_digits_bounds(b: Seq<u8>, pos: int)
    requires
        0 <= pos <= b.len(),
    ensures
        pos <= spec_skip_digits(b, pos) <= b.len(),
        forall|t: int| pos <= t < spec_skip_digits(b, pos) ==> is_digit(#[trigger] b[t]),
        spec_skip_digits(b, pos) == b.len() || !is_digit(b[spec_skip_digits(b, pos)]),
    decreases b.len() - pos,
{
    if pos < b.len() && is_digit(b[pos]) {
        lemma_skip_digits_bounds(b, pos + 1);
    }
}

/// A position after digits only, itself holding no digit, is where
/// `spec_skip_digits` stops.
pub proof fn lemma_skip_digits_char(b: Seq<u8>, pos: int, j: int)
    requires
        0 <= pos <= j <= b.len(),
        forall|t: int| pos <= t < j ==> is_digit(#[trigger] b[t]),
        j == b.len() || !is_digit(b[j]),
    ensures
        spec_skip_digits(b, pos) == j,
    decreases j - pos,
{
    if pos < j {
        lemma_skip_digits_char(b, pos + 1, j);
    }
}

/// The byte-string production `<decimal length>:<raw bytes>`, starting at
/// `pos`: the raw bytes and the position after them, or the error.
pub open spec fn spec_parse_string(b: Seq<u8>, pos: int) -> Result<(Seq<u8>, int), (ErrorKind, int)> {
    let dend = spec_skip_digits(b, pos);
    if dend == pos {
        Err((ErrorKind::MalformedLength, pos))
    } else if b[pos] == ZERO_BYTE && dend - pos > 1 {
        Err((ErrorKind::LeadingZero, pos))
    } else {
        let n = digits_val(b.subrange(pos, dend));
        if n > usize::MAX as int {
            Err((ErrorKind::MalformedLength, pos))
        } else if dend >= b.len() {
            Err((ErrorKind::UnexpectedEof, b.len() as int))
        } else if b[dend] != COLON_BYTE {
            Err((ErrorKind::MalformedLength, dend))
        } else if dend + 1 + n > b.len() {
            Err((ErrorKind::UnexpectedEof, b.len() as int))
        } else {
            Ok((b.subrange(dend + 1, dend + 1 + n), dend + 1 + n))
        }
    }
}

/// The integer production `i<signed decimal>e`, starting at the `i` at `pos`:
/// the value and the position after the closing `e`, or the error.
pub open spec fn spec_parse_integer(b: Seq<u8>, pos: int) -> Result<(int, int), (ErrorKind, int)> {
    let sp = pos + 1;
    if sp >= b.len() {
        Err((ErrorKind::UnexpectedEof, b.len() as int))
    } else {
        let neg = b[sp] == MINUS_BYTE;
        let ds = if neg {
            sp + 1
        } else {
            sp
        };
        let dend = spec_skip_digits(b, ds);
        if dend == ds {
            Err((ErrorKind::MalformedInteger, ds))
        } else if b[ds] == ZERO_BYTE && (neg || dend - ds > 1) {
            Err((ErrorKind::MalformedInteger, ds))
        } else {
            let m = digits_val(b.subrange(ds, dend));
            let val = if neg {
                -m
            } else {
                m
            };
            if val < isize::MIN as int || val > isize::MAX as int {
                Err((ErrorKind::IntegerOverflow, ds))
            } else if dend >= b.len() {
                Err((ErrorKind::UnexpectedEof, b.len() as int))
            } else if b[dend] != E_BYTE {
                Err((ErrorKind::MalformedInteger, dend))
            } else {
                Ok((val, dend + 1))
            }
        }
    }
}

/// One value starting at `pos`, dispatched on its first byte, with containers
/// allowed to nest `depth` more levels: the value and the position after it,
/// or the error.
pub open spec fn spec_parse_value(b: Seq<u8>, pos: int, depth: nat) -> Result<
    (BencodeSpec, int),
    (ErrorKind, int),
>
    decreases depth, b.len() - pos, 1int,
{
    if pos >= b.len() {
        Err((ErrorKind::UnexpectedEof, b.len() as int))
    } else if is_digit(b[pos]) {
        spec_parse_string_value(b, pos)
    } else if b[pos] == I_BYTE {
        spec_parse_integer_value(b, pos)
    } else if b[pos] == L_BYTE {
        if depth == 0 {
            Err((ErrorKind::NestingTooDeep, pos))
        } else {
            match spec_parse_items(b, pos + 1, (depth - 1) as nat, Seq::empty()) {
                Ok((l, p)) => Ok((BencodeSpec::List(l), p)),
                Err(e) => Err(e),
            }
        }
    } else if b[pos] == D_BYTE {
        if depth == 0 {
            Err((ErrorKind::NestingTooDeep, pos))
        } else {
            match spec_parse_pairs(b, pos + 1, (depth - 1) as nat, Seq::empty()) {
                Ok((ps, p)) => Ok((BencodeSpec::Dictionary(ps), p)),
                Err(e) => Err(e),
            }
        }
    } else {
        Err((ErrorKind::UnknownTag, pos))
    }
}

/// List elements from `pos` up to the closing `e`, appended to `acc`. A
/// parsed element always moves `pos` forward, so the guard on `p` only keeps
/// the recursion well founded; its failing branch is unreachable.
pub open spec fn spec_parse_items(b: Seq<u8>, pos: int, depth: nat, acc: Seq<BencodeSpec>) -> Result<
    (Seq<BencodeSpec>, int),
    (ErrorKind, int),
>
    decreases depth, b.len() - pos, 2int,
{
    if pos >= b.len() {
        Err((ErrorKind::UnterminatedList, b.len() as int))
    } else if b[pos] == E_BYTE {
        Ok((acc, pos + 1))
    } else {
        match spec_parse_value(b, pos, depth) {
            Err(e) => Err(e),
            Ok((v, p)) => if pos < p <= b.len() {
                spec_parse_items(b, p, depth, acc.push(v))
            } else {
                Err((ErrorKind::UnterminatedList, b.len() as int))
            },
        }
    }
}

/// Dictionary pairs from `pos` up to the closing `e`, inserted into `acc` in
/// sorted key order. The guards on `p1` and `p2` only keep the recursion well
/// founded; their failing branches are unreachable.
pub open spec fn spec_parse_pairs(
    b: Seq<u8>,
    pos: int,
    depth: nat,
    acc: Seq<(Seq<u8>, BencodeSpec)>,
) -> Result<(Seq<(Seq<u8>, BencodeSpec)>, int), (ErrorKind, int)>
    decreases depth, b.len() - pos, 2int,
{
    if pos >= b.len() {
        Err((ErrorKind::UnterminatedDictionary, b.len() as int))
    } else if b[pos] == E_BYTE {
        Ok((acc, pos + 1))
    } else if is_digit(b[pos]) {
        match spec_parse_string(b, pos) {
            Err(e) => Err(e),
            Ok((k, p1)) => if pos < p1 <= b.len() {
                match spec_parse_value(b, p1, depth) {
                    Err(e) => Err(e),
                    Ok((v, p2)) => if p1 < p2 <= b.len() {
                        spec_parse_pairs(b, p2, depth, spec_insert_pair(acc, k, v))
                    } else {
                        Err((ErrorKind::UnterminatedDictionary, b.len() as int))
                    },
                }
            } else {
                Err((ErrorKind::UnterminatedDictionary, b.len() as int))
            },
        }
    } else if b[pos] == I_BYTE || b[pos] == L_BYTE || b[pos] == D_BYTE {
        Err((ErrorKind::NonStringKey, pos))
    } else {
        Err((ErrorKind::UnknownTag, pos))
    }
}

/// One whole buffer, parsed as a single value from offset zero with the
/// default depth budget.
pub open spec fn spec_decode(b: Seq<u8>) -> Result<(BencodeSpec, int), (ErrorKind, int)> {
    spec_parse_value(b, 0, MAX_DEPTH as nat)
}

/// The byte-string production wrapped as a value, exactly the digit branch of
/// [`spec_parse_value`].
pub open spec fn spec_parse_string_value(b: Seq<u8>, pos: int) -> Result<
    (BencodeSpec, int),
    (ErrorKind, int),
> {
    match spec_parse_string(b, pos) {
        Ok((s, p)) => Ok((BencodeSpec::Bytes(s), p)),
        Err(e) => Err(e),
    }
}

/// The integer production wrapped as a value, exactly the `i` branch of
/// [`spec_parse_value`].
pub open spec fn spec_parse_integer_value(b: Seq<u8>, pos: int) -> Result<
    (BencodeSpec, int),
    (ErrorKind, int),
> {
    match spec_parse_integer(b, pos) {
        Ok((i, p)) => Ok((BencodeSpec::Integer(i), p)),
        Err(e) => Err(e),
    }
}

/// A decoded byte string lies after its token: the spec parser moved forward
/// and stayed inside the buffer, and the bytes fit the machine.
pub proof fn lemma_parse_string_props(b: Seq<u8>, pos: int)
    requires
        0 <= pos <= b.len(),
    ensures
        spec_parse_string(b, pos) matches Ok((s, p)) ==> pos < p <= b.len() && s.len()
            <= usize::MAX,
{
    lemma_skip_digits_bounds(b, pos);
    let dend = spec_skip_digits(b, pos);
    if spec_parse_string(b, pos) is Ok {
        crate::model::lemma_digits_val_nonneg(b.subrange(pos, dend));
    }
}

/// A decoded integer moved forward, stayed inside the buffer, and fits a
/// machine word.
pub proof fn lemma_parse_integer_props(b: Seq<u8>, pos: int)
    requires
        0 <= pos <= b.len(),
    ensures
        spec_parse_integer(b, pos) matches Ok((i, p)) ==> pos < p <= b.len() && isize::MIN <= i
            <= isize::MAX,
{
    let sp = pos + 1;
    if sp < b.len() {
        let ds = if b[sp] == MINUS_BYTE {
            sp + 1
        } else {
            sp
        };
        lemma_skip_digits_bounds(b, ds);
    }
}

/// A decoded value moved forward, stayed inside the buffer, and is well
/// formed and machine-fitting.
pub proof fn lemma_parse_value_props(b: Seq<u8>, pos: int, depth: nat)
    requires
        0 <= pos <= b.len(),
    ensures
        spec_parse_value(b, pos, depth) matches Ok((v, p)) ==> pos < p <= b.len() && wf(v) && fits(
            v,
        ),
    decreases depth, b.len() - pos, 1int,
{
    if pos < b.len() {
        if is_digit(b[pos]) {
            lemma_parse_string_props(b, pos);
        } else if b[pos] == I_BYTE {
            lemma_parse_integer_props(b, pos);
        } else if b[pos] == L_BYTE && depth > 0 {
            lemma_parse_items_props(b, pos + 1, (depth - 1) as nat, Seq::empty());
        } else if b[pos] == D_BYTE && depth > 0 {
            lemma_parse_pairs_props(b, pos + 1, (depth - 1) as nat, Seq::empty());
        }
    }
}

/// Parsed list items moved forward and are all well formed and fitting, as
/// long as the already-collected items were.
pub proof fn lemma_parse_items_props(b: Seq<u8>, pos: int, depth: nat, acc: Seq<BencodeSpec>)
    requires
        0 <= pos <= b.len(),
        wf_items(acc),
        fits_items(acc),
    ensures
        spec_parse_items(b, pos, depth, acc) matches Ok((l, p)) ==> pos < p <= b.len() && wf_items(
            l,
        ) && fits_items(l),
    decreases depth, b.len() - pos, 2int,
{
    if pos < b.len() && b[pos] != E_BYTE {
        lemma_parse_value_props(b, pos, depth);
        match spec_parse_value(b, pos, depth) {
            Ok((v, p)) => {
                crate::model::lemma_items_push(acc, v);
                lemma_parse_items_props(b, p, depth, acc.push(v));
            },
            Err(_) => {},
        }
    }
}

/// Parsed dictionary pairs moved forward and stay sorted, well formed and
/// fitting, as long as the already-collected pairs were.
pub proof fn lemma_parse_pairs_props(
    b: Seq<u8>,
    pos: int,
    depth: nat,
    acc: Seq<(Seq<u8>, BencodeSpec)>,
)
    requires
        0 <= pos <= b.len(),
        pairs_sorted(acc),
        wf_pairs(acc),
        fits_pairs(acc),
    ensures
        spec_parse_pairs(b, pos, depth, acc) matches Ok((ps, p)) ==> pos < p <= b.len()
            && pairs_sorted(ps) && wf_pairs(ps) && fits_pairs(ps),
    decreases depth, b.len() - pos, 2int,
{
    if pos < b.len() && b[pos] != E_BYTE && is_digit(b[pos]) {
        lemma_parse_string_props(b, pos);
        match spec_parse_string(b, pos) {
            Ok((k, p1)) => {
                lemma_parse_value_props(b, p1, depth);
                match spec_parse_value(b, p1, depth) {
                    Ok((v, p2)) => {
                        crate::model::lemma_insert_pair_wf(acc, k, v);
                        lemma_parse_pairs_props(b, p2, depth, spec_insert_pair(acc, k, v));
                    },
                    Err(_) => {},
                }
            },
            Err(_) => {},
        }
    }
}

/// The executable result returns exactly what the spec parser returns.
pub open spec fn parse_outcome(
    r: Result<(Bencode, usize), DecodeError>,
    s: Result<(BencodeSpec, int), (ErrorKind, int)>,
) -> bool {
    match r {
        Ok((v, p)) => s == Ok::<(BencodeSpec, int), (ErrorKind, int)>((v@, p as int)),
        Err(e) => s == Err::<(BencodeSpec, int), (ErrorKind, int)>((e.kind, e.offset as int)),
    }
}

/// Scans the digit run starting at `pos` and accumulates its value, capped:
/// the first result is the position after the run, the second the value when
/// it is at most `limit` and nothing otherwise.
fn scan_number(b: &[u8], pos: usize, limit: usize) -> (r: (usize, Option<usize>))
    requires
        pos <= b@.len(),
        limit >= 9,
    ensures
        r.0 as int == spec_skip_digits(b@, pos as int),
        pos <= r.0 <= b@.len(),
        forall|t: int| pos <= t < r.0 ==> is_digit(#[trigger] b@[t]),
        match r.1 {
            Some(v) => v as int == digits_val(b@.subrange(pos as int, r.0 as int)) && v <= limit,
            None => digits_val(b@.subrange(pos as int, r.0 as int)) > limit,
        },
{
    let mut j: usize = pos;
    let mut acc: usize = 0;
    let mut over: bool = false;
    loop
        invariant
            pos <= j <= b@.len(),
            limit >= 9,
            forall|t: int| pos <= t < j ==> is_digit(#[trigger] b@[t]),
            !over ==> acc as int == digits_val(b@.subrange(pos as int, j as int)) && acc <= limit,
            over ==> digits_val(b@.subrange(pos as int, j as int)) > limit,
        ensures
            pos <= j <= b@.len(),
            forall|t: int| pos <= t < j ==> is_digit(#[trigger] b@[t]),
            j == b@.len() || !is_digit(b@[j as int]),
            !over ==> acc as int == digits_val(b@.subrange(pos as int, j as int)) && acc <= limit,
            over ==> digits_val(b@.subrange(pos as int, j as int)) > limit,
        decreases b@.len() - j,
    {
        if j >= b.len() {
            break ;
        }
        let c = b[j];
        if c < ZERO_BYTE || c > NINE_BYTE {
            break ;
        }
        let d: usize = (c - ZERO_BYTE) as usize;
        proof {
            assert(b@.subrange(pos as int, j + 1).drop_last() =~= b@.subrange(
                pos as int,
                j as int,
            ));
            assert(b@.subrange(pos as int, j + 1).last() == c);
            assert(digits_val(b@.subrange(pos as int, j + 1)) == digits_val(
                b@.subrange(pos as int, j as int),
            ) * 10 + d);
        }
        if over {
        } else if acc > (limit - d) / 10 {
            proof {
                assert(acc * 10 + d > limit) by (nonlinear_arith)
                    requires
                        acc > (limit - d) / 10,
                        0 <= d <= limit,
                        0 <= acc,
                ;
            }
            over = true;
        } else {
            proof {
                assert(acc * 10 + d <= limit) by (nonlinear_arith)
                    requires
                        acc <= (limit - d) / 10,
                        0 <= d <= limit,
                        0 <= acc,
                ;
            }
            acc = acc * 10 + d;
        }
        j = j + 1;
    }
    proof {
        lemma_skip_digits_char(b@, pos as int, j as int);
    }
    if over {
        (j, None)
    } else {
        (j, Some(acc))
    }
}

/// Decodes the byte-string production at `pos`: the raw bytes and the
/// position after them.
fn parse_string_raw(b: &[u8], pos: usize) -> (r: Result<(Vec<u8>, usize), DecodeError>)
    requires
        pos <= b@.len(),
    ensures
        match r {
            Ok((s, p)) => spec_parse_string(b@, pos as int) == Ok::<(Seq<u8>, int), (ErrorKind, int)>(
                (s@, p as int),
            ),
            Err(e) => spec_parse_string(b@, pos as int) == Err::<(Seq<u8>, int), (ErrorKind, int)>(
                (e.kind, e.offset as int),
            ),
        },
{
    let (dend, val) = scan_number(b, pos, usize::MAX);
    if dend == pos {
        return Err(DecodeError { kind: ErrorKind::MalformedLength, offset: pos });
    }
    if b[pos] == ZERO_BYTE && dend - pos > 1 {
        return Err(DecodeError { kind: ErrorKind::LeadingZero, offset: pos });
    }
    match val {
        None => Err(DecodeError { kind: ErrorKind::MalformedLength, offset: pos }),
        Some(n) => {
            if dend >= b.len() {
                return Err(DecodeError { kind: ErrorKind::UnexpectedEof, offset: b.len() });
            }
            if b[dend] != COLON_BYTE {
                return Err(DecodeError { kind: ErrorKind::MalformedLength, offset: dend });
            }
            if n > b.len() - (dend + 1) {
                return Err(DecodeError { kind: ErrorKind::UnexpectedEof, offset: b.len() });
            }
            let s = vstd::slice::slice_to_vec(vstd::slice::slice_subrange(b, dend + 1, dend + 1 + n));
            Ok((s, dend + 1 + n))
        },
    }
}

/// Decodes one byte string at `pos`, as the grammar's
/// `<decimal length>:<raw bytes>` production.
pub fn decode_string(b: &[u8], pos: usize) -> (r: Result<(Bencode, usize), DecodeError>)
    requires
        pos <= b@.len(),
    ensures
        parse_outcome(r, spec_parse_string_value(b@, pos as int)),
{
    match parse_string_raw(b, pos) {
        Ok((s, p)) => Ok((Bencode::Bytes(s), p)),
        Err(e) => Err(e),
    }
}

/// Decodes one value at `pos`, dispatching on the first byte, with containers
/// allowed to nest `depth` more levels.
pub(crate) fn parse_value(b: &[u8], pos: usize, depth: usize) -> (r: Result<
    (Bencode, usize),
    DecodeError,
>)
    requires
        pos <= b@.len(),
    ensures
        parse_outcome(r, spec_parse_value(b@, pos as int, depth as nat)),
    decreases depth, 1int,
{
    if pos >= b.len() {
        return Err(DecodeError { kind: ErrorKind::UnexpectedEof, offset: b.len() });
    }
    let t = b[pos];
    if ZERO_BYTE <= t && t <= NINE_BYTE {
        decode_string(b, pos)
    } else if t == I_BYTE {
        decode_integer(b, pos)
    } else if t == L_BYTE {
        if depth == 0 {
            Err(DecodeError { kind: ErrorKind::NestingTooDeep, offset: pos })
        } else {
            parse_list_body(b, pos, depth)
        }
    } else if t == D_BYTE {
        if depth == 0 {
            Err(DecodeError { kind: ErrorKind::NestingTooDeep, offset: pos })
        } else {
            parse_dict_body(b, pos, depth)
        }
    } else {
        Err(DecodeError { kind: ErrorKind::UnknownTag, offset: pos })
    }
}

/// Decodes the list production `l<value>*e` whose opening `l` sits at `pos`.
fn parse_list_body(b: &[u8], pos: usize, depth: usize) -> (r: Result<(Bencode, usize), DecodeError>)
    requires
        pos < b@.len(),
        b@[pos as int] == L_BYTE,
        depth >= 1,
    ensures
        parse_outcome(r, spec_parse_value(b@, pos as int, depth as nat)),
    decreases depth, 0int,
{
    let blen = b.len();
    let mut p: usize = pos + 1;
    let mut items: Vec<Bencode> = Vec::new();
    loop
        invariant
            pos < b@.len(),
            b@[pos as int] == L_BYTE,
            1 <= depth,
            pos + 1 <= p <= b@.len(),
            spec_parse_items(b@, pos + 1, (depth - 1) as nat, Seq::empty())
                == spec_parse_items(b@, p as int, (depth - 1) as nat, elems_view(items@)),
        decreases b@.len() - p,
    {
        if p >= b.len() {
            return Err(DecodeError { kind: ErrorKind::UnterminatedList, offset: b.len() });
        }
        if b[p] == E_BYTE {
            let out = Bencode::List(items);
            let next = p + 1;
            proof {
                assert(out@ == BencodeSpec::List(elems_view(items@)));
            }
            return Ok((out, next));
        }
        match parse_value(b, p, depth - 1) {
            Err(e) => {
                return Err(e);
            },
            Ok((v, p2)) => {
                proof {
                    lemma_parse_value_props(b@, p as int, (depth - 1) as nat);
                    crate::lemma_elems_view_push(items@, v);
                }
                items.push(v);
                p = p2;
            },
        }
    }
}

/// Decodes the dictionary production `d(<byte string><value>)*e` whose
/// opening `d` sits at `pos`, inserting each pair in sorted key order.
fn parse_dict_body(b: &[u8], pos: usize, depth: usize) -> (r: Result<(Bencode, usize), DecodeError>)
    requires
        pos < b@.len(),
        b@[pos as int] == D_BYTE,
        depth >= 1,
    ensures
        parse_outcome(r, spec_parse_value(b@, pos as int, depth as nat)),
    decreases depth, 0int,
{
    let blen = b.len();
    let mut p: usize = pos + 1;
    let mut pairs: Vec<(Vec<u8>, Bencode)> = Vec::new();
    loop
        invariant
            pos < b@.len(),
            b@[pos as int] == D_BYTE,
            1 <= depth,
            pos + 1 <= p <= b@.len(),
            spec_parse_pairs(b@, pos + 1, (depth - 1) as nat, Seq::empty())
                == spec_parse_pairs(b@, p as int, (depth - 1) as nat, pairs_view(pairs@)),
        decreases b@.len() - p,
    {
        if p >= b.len() {
            return Err(DecodeError { kind: ErrorKind::UnterminatedDictionary, offset: b.len() });
        }
        let t = b[p];
        if t == E_BYTE {
            let out = Bencode::Dictionary(pairs);
            let next = p + 1;
            proof {
                assert(out@ == BencodeSpec::Dictionary(pairs_view(pairs@)));
            }
            return Ok((out, next));
        }
        if ZERO_BYTE <= t && t <= NINE_BYTE {
            match parse_string_raw(b, p) {
                Err(e) => {
                    return Err(e);
                },
                Ok((kv, p1)) => {
                    proof {
                        lemma_parse_string_props(b@, p as int);
                    }
                    match parse_value(b, p1, depth - 1) {
                        Err(e) => {
                            return Err(e);
                        },
                        Ok((v, p2)) => {
                            proof {
                                lemma_parse_value_props(b@, p1 as int, (depth - 1) as nat);
                            }
                            dict_insert(&mut pairs, kv, v);
                            p = p2;
                        },
                    }
                },
            }
        } else if t == I_BYTE || t == L_BYTE || t == D_BYTE {
            return Err(DecodeError { kind: ErrorKind::NonStringKey, offset: p });
        } else {
            return Err(DecodeError { kind: ErrorKind::UnknownTag, offset: p });
        }
    }
}

/// Decodes one list at `pos`, as the grammar's `l<value>*e` production; any
/// other leading byte is `UnknownTag`.
pub fn decode_list(b: &[u8], pos: usize) -> (r: Result<(Bencode, usize), DecodeError>)
    requires
        pos <= b@.len(),
    ensures
        pos < b@.len() && b@[pos as int] == L_BYTE ==> parse_outcome(
            r,
            spec_parse_value(b@, pos as int, MAX_DEPTH as nat),
        ),
        !(pos < b@.len() && b@[pos as int] == L_BYTE) ==> r == Err::<(Bencode, usize), DecodeError>(
            DecodeError { kind: ErrorKind::UnknownTag, offset: pos },
        ),
{
    if pos < b.len() && b[pos] == L_BYTE {
        parse_list_body(b, pos, MAX_DEPTH)
    } else {
        Err(DecodeError { kind: ErrorKind::UnknownTag, offset: pos })
    }
}

/// Decodes one dictionary at `pos`, as the grammar's
/// `d(<byte string><value>)*e` production; any other leading byte is
/// `UnknownTag`.
pub fn decode_dictionary(b: &[u8], pos: usize) -> (r: Result<(Bencode, usize), DecodeError>)
    requires
        pos <= b@.len(),
    ensures
        pos < b@.len() && b@[pos as int] == D_BYTE ==> parse_outcome(
            r,
            spec_parse_value(b@, pos as int, MAX_DEPTH as nat),
        ),
        !(pos < b@.len() && b@[pos as int] == D_BYTE) ==> r == Err::<(Bencode, usize), DecodeError>(
            DecodeError { kind: ErrorKind::UnknownTag, offset: pos },
        ),
{
    if pos < b.len() && b[pos] == D_BYTE {
        parse_dict_body(b, pos, MAX_DEPTH)
    } else {
        Err(DecodeError { kind: ErrorKind::UnknownTag, offset: pos })
    }
}

/// Decodes one integer at `pos`, as the grammar's `i<signed decimal>e`
/// production.
pub fn decode_integer(b: &[u8], pos: usize) -> (r: Result<(Bencode, usize), DecodeError>)
    requires
        pos <= b@.len(),
    ensures
        parse_outcome(r, spec_parse_integer_value(b@, pos as int)),
{
    if pos >= b.len() {
        return Err(DecodeError { kind: ErrorKind::UnexpectedEof, offset: b.len() });
    }
    let sp = pos + 1;
    if sp >= b.len() {
        return Err(DecodeError { kind: ErrorKind::UnexpectedEof, offset: b.len() });
    }
    let neg = b[sp] == MINUS_BYTE;
    let ds = if neg {
        sp + 1
    } else {
        sp
    };
    let limit: usize = if neg {
        (isize::MAX as usize) + 1
    } else {
        isize::MAX as usize
    };
    let (dend, val) = scan_number(b, ds, limit);
    if dend == ds {
        return Err(DecodeError { kind: ErrorKind::MalformedInteger, offset: ds });
    }
    if b[ds] == ZERO_BYTE && (neg || dend - ds > 1) {
        return Err(DecodeError { kind: ErrorKind::MalformedInteger, offset: ds });
    }
    match val {
        None => Err(DecodeError { kind: ErrorKind::IntegerOverflow, offset: ds }),
        Some(m) => {
            if dend >= b.len() {
                return Err(DecodeError { kind: ErrorKind::UnexpectedEof, offset: b.len() });
            }
            if b[dend] != E_BYTE {
                return Err(DecodeError { kind: ErrorKind::MalformedInteger, offset: dend });
            }
            let v: isize = if neg {
                if m == (isize::MAX as usize) + 1 {
                    isize::MIN
                } else {
                    -(m as isize)
                }
            } else {
                m as isize
            };
            Ok((Bencode::Integer(v), dend + 1))
        },
    }
}

} // verus!
