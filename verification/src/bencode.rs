//! Bencoding codec: a recursive, self-terminating binary serialization
//! format. `decode_value` parses a value at a cursor; `encode` emits the
//! canonical form (dictionary keys in lexicographic byte order).
use vstd::prelude::*;

verus! {

broadcast use vstd::std_specs::vec::group_vec_axioms;

/// A bencoded document: integers, raw byte strings, lists and
/// dictionaries keyed by byte strings. Dictionary entries keep the order
/// in which they stood on the wire; the canonical emitted order is
/// lexicographic by key.
#[derive(Debug, PartialEq, Eq)]
pub enum BencodeValue {
    Integer(i64),
    ByteString(Vec<u8>),
    List(Vec<BencodeValue>),
    Dict(Vec<(Vec<u8>, BencodeValue)>),
}

/// Why a byte buffer failed to parse.
#[derive(Debug, Clone, Copy, PartialEq, Eq, Structural)]
pub enum BencodeErrorKind {
    /// A byte-string length prefix is not a plain decimal number.
    BadLengthPrefix,
    /// An integer literal is empty, non-decimal, not canonical, or has
    /// no closing marker.
    UnterminatedInteger,
    /// An integer literal does not fit in a signed 64-bit value.
    IntegerOverflow,
    /// A list or dictionary is not closed before the buffer ends.
    UnterminatedContainer,
    /// A dictionary key is not a byte string.
    NonStringDictKey,
    /// The buffer ends in the middle of a value.
    Truncated,
    /// The leading byte opens no production of the grammar.
    InvalidPrefix,
}

/// A parse failure: its kind and the offset at which it was detected.
#[derive(Debug, Clone, Copy, PartialEq, Eq, Structural)]
pub struct BencodeError {
    pub kind: BencodeErrorKind,
    pub offset: usize,
}

pub open spec fn is_digit_byte(b: u8) -> bool {
    48 <= b <= 57
}

/// The numeric value of a sequence of decimal digit bytes.
pub open spec fn digits_val(s: Seq<u8>) -> nat
    decreases s.len(),
{
    if s.len() == 0 {
        0
    } else {
        digits_val(s.take(s.len() - 1)) * 10 + (s[s.len() - 1] - 48) as nat
    }
}

/// The canonical decimal rendering of a natural number.
pub open spec fn dec_digits(n: nat) -> Seq<u8>
    decreases n,
{
    if n < 10 {
        seq![(48 + n) as u8]
    } else {
        dec_digits(n / 10).push((48 + n % 10) as u8)
    }
}

/// The canonical decimal rendering of an integer, minus sign included.
pub open spec fn dec_int(n: int) -> Seq<u8> {
    if n < 0 {
        seq![45u8] + dec_digits((-n) as nat)
    } else {
        dec_digits(n as nat)
    }
}

/// The wire form of a byte string: decimal length, colon, payload.
pub open spec fn spec_encode_str(s: Seq<u8>) -> Seq<u8> {
    dec_digits(s.len()) + seq![58u8] + s
}

/// The wire form of a value, emitting containers in stored order.
pub open spec fn spec_encode(v: BencodeValue) -> Seq<u8>
    decreases v,
{
    match v {
        BencodeValue::Integer(n) => seq![105u8] + dec_int(n as int) + seq![101u8],
        BencodeValue::ByteString(s) => spec_encode_str(s@),
        BencodeValue::List(l) => seq![108u8] + spec_encode_list(l@) + seq![101u8],
        BencodeValue::Dict(d) => seq![100u8] + spec_encode_pairs(d@) + seq![101u8],
    }
}

pub open spec fn spec_encode_list(l: Seq<BencodeValue>) -> Seq<u8>
    decreases l,
{
    if l.len() == 0 {
        Seq::empty()
    } else {
        spec_encode(l[0]) + spec_encode_list(l.drop_first())
    }
}

pub open spec fn spec_encode_pairs(d: Seq<(Vec<u8>, BencodeValue)>) -> Seq<u8>
    decreases d,
{
    if d.len() == 0 {
        Seq::empty()
    } else {
        spec_encode_str(d[0].0@) + spec_encode(d[0].1) + spec_encode_pairs(d.drop_first())
    }
}

/// Strict lexicographic order on byte sequences.
pub open spec fn lex_less(a: Seq<u8>, b: Seq<u8>) -> bool
    decreases a.len(),
{
    if b.len() == 0 {
        false
    } else if a.len() == 0 {
        true
    } else if a[0] < b[0] {
        true
    } else if a[0] > b[0] {
        false
    } else {
        lex_less(a.drop_first(), b.drop_first())
    }
}

/// Dictionary entries stand in strictly increasing key order, so keys
/// are also unique.
pub open spec fn keys_sorted(d: Seq<(Vec<u8>, BencodeValue)>) -> bool {
    forall|i: int, j: int| 0 <= i < j < d.len() ==> lex_less(d[i].0@, d[j].0@)
}

/// Every dictionary inside the value, at any depth, is in canonical
/// (strictly sorted) key order.
pub open spec fn dicts_sorted(v: BencodeValue) -> bool
    decreases v,
{
    match v {
        BencodeValue::Integer(_) => true,
        BencodeValue::ByteString(_) => true,
        BencodeValue::List(l) => dicts_sorted_list(l@),
        BencodeValue::Dict(d) => keys_sorted(d@) && dicts_sorted_pairs(d@),
    }
}

pub open spec fn dicts_sorted_list(l: Seq<BencodeValue>) -> bool
    decreases l,
{
    l.len() == 0 || (dicts_sorted(l[0]) && dicts_sorted_list(l.drop_first()))
}

pub open spec fn dicts_sorted_pairs(d: Seq<(Vec<u8>, BencodeValue)>) -> bool
    decreases d,
{
    d.len() == 0 || (dicts_sorted(d[0].1) && dicts_sorted_pairs(d.drop_first()))
}

/// The first index at or after `j` that does not hold a decimal digit
/// (the buffer end if the digits run out with it).
pub open spec fn digit_run_end(s: Seq<u8>, j: int) -> int
    decreases s.len() - j,
{
    if j < 0 || j >= s.len() || !is_digit_byte(s[j]) {
        j
    } else {
        digit_run_end(s, j + 1)
    }
}

/// The grammar of the format, as a span: `Some(end)` when a single
/// canonical value occupies exactly `i..end` of `s`, `None` when no
/// canonical value starts at `i`. Canonical means: no superfluous
/// leading zeros, no negative zero, integers within the signed 64-bit
/// range, and dictionary keys that are byte strings.
pub open spec fn spec_span(s: Seq<u8>, i: int) -> Option<int>
    decreases s.len() - i, 0int,
{
    if i < 0 || i >= s.len() {
        None
    } else if s[i] == 105 {
        let neg = i + 1 < s.len() && s[i + 1] == 45;
        let body = if neg { i + 2 } else { i + 1 };
        let dend = digit_run_end(s, body);
        if dend == body || dend >= s.len() || s[dend] != 101 {
            None
        } else if s[body] == 48 && (neg || dend != body + 1) {
            None
        } else if digits_val(s.subrange(body, dend)) > i64::MAX as nat + (if neg { 1nat } else { 0nat }) {
            None
        } else {
            Some(dend + 1)
        }
    } else if is_digit_byte(s[i]) {
        let dend = digit_run_end(s, i);
        if dend >= s.len() || s[dend] != 58 {
            None
        } else if s[i] == 48 && dend != i + 1 {
            None
        } else if dend + 1 + digits_val(s.subrange(i, dend)) > s.len() {
            None
        } else {
            Some(dend + 1 + digits_val(s.subrange(i, dend)))
        }
    } else if s[i] == 108 {
        spec_items_end(s, i + 1)
    } else if s[i] == 100 {
        spec_pairs_end(s, i + 1)
    } else {
        None
    }
}

/// Where a run of list items followed by the closing marker ends.
pub open spec fn spec_items_end(s: Seq<u8>, j: int) -> Option<int>
    decreases s.len() - j, 1int,
{
    if j < 0 || j >= s.len() {
        None
    } else if s[j] == 101 {
        Some(j + 1)
    } else {
        match spec_span(s, j) {
            None => None,
            Some(end) => if j < end <= s.len() {
                spec_items_end(s, end)
            } else {
                None
            },
        }
    }
}

/// Where a run of key-value pairs followed by the closing marker ends.
/// A key must be a byte string.
pub open spec fn spec_pairs_end(s: Seq<u8>, j: int) -> Option<int>
    decreases s.len() - j, 1int,
{
    if j < 0 || j >= s.len() {
        None
    } else if s[j] == 101 {
        Some(j + 1)
    } else if !is_digit_byte(s[j]) {
        None
    } else {
        match spec_span(s, j) {
            None => None,
            Some(kend) => if !(j < kend <= s.len()) {
                None
            } else {
                match spec_span(s, kend) {
                    None => None,
                    Some(vend) => if kend < vend <= s.len() {
                        spec_pairs_end(s, vend)
                    } else {
                        None
                    },
                }
            },
        }
    }
}

/// The kind and offset of the failure when no canonical value starts
/// at `i`: exactly the error that decoding reports, `None` on
/// well-formed input. Mirrors the grammar (`spec_span`) case by case.
pub open spec fn spec_fault(s: Seq<u8>, i: int) -> Option<(BencodeErrorKind, int)>
    decreases s.len() - i, 0int,
{
    if i < 0 || i >= s.len() {
        Some((BencodeErrorKind::Truncated, i))
    } else if s[i] == 105 {
        let neg = i + 1 < s.len() && s[i + 1] == 45;
        let body = if neg { i + 2 } else { i + 1 };
        let dend = digit_run_end(s, body);
        if dend == body {
            Some((BencodeErrorKind::UnterminatedInteger, body))
        } else if dend >= s.len() || s[dend] != 101 {
            Some((BencodeErrorKind::UnterminatedInteger, dend))
        } else if s[body] == 48 && (neg || dend != body + 1) {
            Some((BencodeErrorKind::UnterminatedInteger, body))
        } else if digits_val(s.subrange(body, dend)) > i64::MAX as nat + (if neg { 1nat } else { 0nat }) {
            Some((BencodeErrorKind::IntegerOverflow, body))
        } else {
            None
        }
    } else if is_digit_byte(s[i]) {
        let dend = digit_run_end(s, i);
        if dend >= s.len() {
            Some((BencodeErrorKind::Truncated, dend))
        } else if s[dend] != 58 {
            Some((BencodeErrorKind::BadLengthPrefix, dend))
        } else if s[i] == 48 && dend != i + 1 {
            Some((BencodeErrorKind::BadLengthPrefix, i))
        } else if dend + 1 + digits_val(s.subrange(i, dend)) > s.len() {
            Some((BencodeErrorKind::Truncated, i))
        } else {
            None
        }
    } else if s[i] == 108 {
        spec_items_fault(s, i + 1)
    } else if s[i] == 100 {
        spec_pairs_fault(s, i + 1)
    } else {
        Some((BencodeErrorKind::InvalidPrefix, i))
    }
}

/// The failure among a run of list items, if any.
pub open spec fn spec_items_fault(s: Seq<u8>, j: int) -> Option<(BencodeErrorKind, int)>
    decreases s.len() - j, 1int,
{
    if j < 0 || j >= s.len() {
        Some((BencodeErrorKind::UnterminatedContainer, j))
    } else if s[j] == 101 {
        None
    } else {
        match spec_span(s, j) {
            None => spec_fault(s, j),
            Some(end) => if j < end <= s.len() {
                spec_items_fault(s, end)
            } else {
                None
            },
        }
    }
}

/// The failure among a run of key-value pairs, if any.
pub open spec fn spec_pairs_fault(s: Seq<u8>, j: int) -> Option<(BencodeErrorKind, int)>
    decreases s.len() - j, 1int,
{
    if j < 0 || j >= s.len() {
        Some((BencodeErrorKind::UnterminatedContainer, j))
    } else if s[j] == 101 {
        None
    } else if !is_digit_byte(s[j]) {
        Some((BencodeErrorKind::NonStringDictKey, j))
    } else {
        match spec_span(s, j) {
            None => spec_fault(s, j),
            Some(kend) => if !(j < kend <= s.len()) {
                None
            } else {
                match spec_span(s, kend) {
                    None => spec_fault(s, kend),
                    Some(vend) => if kend < vend <= s.len() {
                        spec_pairs_fault(s, vend)
                    } else {
                        None
                    },
                }
            },
        }
    }
}

/// The value bound to the first occurrence of `k` among the pairs.
pub open spec fn dict_lookup(d: Seq<(Vec<u8>, BencodeValue)>, k: Seq<u8>) -> Option<BencodeValue>
    decreases d,
{
    if d.len() == 0 {
        None
    } else if d[0].0@ == k {
        Some(d[0].1)
    } else {
        dict_lookup(d.drop_first(), k)
    }
}

proof fn lemma_dec_digits_props(n: nat)
    ensures
        dec_digits(n).len() >= 1,
        forall|i: int| 0 <= i < dec_digits(n).len() ==> is_digit_byte(#[trigger] dec_digits(n)[i]),
        dec_digits(n)[0] == 48 ==> n == 0,
    decreases n,
{
    if n >= 10 {
        lemma_dec_digits_props(n / 10);
    }
}

proof fn lemma_digits_val_dec(n: nat)
    ensures
        digits_val(dec_digits(n)) == n,
    decreases n,
{
    if n < 10 {
        assert(dec_digits(n).take(0) =~= Seq::<u8>::empty());
        assert(digits_val(Seq::<u8>::empty()) == 0);
    } else {
        lemma_digits_val_dec(n / 10);
        lemma_dec_digits_props(n / 10);
        let d = dec_digits(n);
        assert(d.take(d.len() - 1) =~= dec_digits(n / 10));
        assert(n / 10 * 10 + n % 10 == n) by (nonlinear_arith);
        assert(d[d.len() - 1] == (48 + n % 10) as u8);
    }
}

/// A non-empty digit run without a superfluous leading zero is the
/// canonical rendering of its value.
proof fn lemma_dec_canon(s: Seq<u8>)
    requires
        s.len() >= 1,
        forall|i: int| 0 <= i < s.len() ==> is_digit_byte(#[trigger] s[i]),
        s[0] == 48 ==> s.len() == 1,
    ensures
        dec_digits(digits_val(s)) == s,
    decreases s.len(),
{
    if s.len() == 1 {
        assert(s.take(0) =~= Seq::<u8>::empty());
        assert(digits_val(Seq::<u8>::empty()) == 0);
        assert(dec_digits(digits_val(s)) =~= s);
    } else {
        let front = s.take(s.len() - 1);
        lemma_dec_canon(front);
        lemma_front_val_pos(front);
        let n = digits_val(s);
        let a = digits_val(front);
        let b = (s[s.len() - 1] - 48) as nat;
        assert(n == a * 10 + b);
        assert(n / 10 == a && n % 10 == b) by (nonlinear_arith)
            requires n == a * 10 + b && b < 10;
        assert(n >= 10) by (nonlinear_arith)
            requires n == a * 10 + b && a >= 1;
        assert(dec_digits(n) =~= s);
    }
}

/// A digit run whose first digit is not zero has a positive value.
proof fn lemma_front_val_pos(s: Seq<u8>)
    requires
        s.len() >= 1,
        forall|i: int| 0 <= i < s.len() ==> is_digit_byte(#[trigger] s[i]),
        s[0] != 48,
    ensures
        digits_val(s) >= 1,
    decreases s.len(),
{
    if s.len() == 1 {
    } else {
        lemma_front_val_pos(s.take(s.len() - 1));
    }
}

/// Appending a digit multiplies the run's value by ten and adds it.
proof fn lemma_digits_val_push(s: Seq<u8>, d: u8)
    ensures
        digits_val(s.push(d)) == digits_val(s) * 10 + (d - 48) as nat,
{
    assert(s.push(d).take(s.len() as int) =~= s);
}

proof fn lemma_encode_list_push(l: Seq<BencodeValue>, v: BencodeValue)
    ensures
        spec_encode_list(l.push(v)) == spec_encode_list(l) + spec_encode(v),
    decreases l,
{
    if l.len() == 0 {
        assert(l.push(v).drop_first() =~= l);
        assert(spec_encode_list(l.push(v)) =~= spec_encode_list(l) + spec_encode(v));
    } else {
        assert(l.push(v).drop_first() =~= l.drop_first().push(v));
        assert(l.push(v)[0] == l[0]);
        lemma_encode_list_push(l.drop_first(), v);
        assert(spec_encode_list(l.push(v)) == spec_encode(l[0]) + (spec_encode_list(l.drop_first())
            + spec_encode(v)));
        assert(spec_encode_list(l.push(v)) =~= spec_encode_list(l) + spec_encode(v));
    }
}

proof fn lemma_encode_pairs_push(d: Seq<(Vec<u8>, BencodeValue)>, k: Vec<u8>, v: BencodeValue)
    ensures
        spec_encode_pairs(d.push((k, v))) == spec_encode_pairs(d) + spec_encode_str(k@)
            + spec_encode(v),
    decreases d,
{
    if d.len() == 0 {
        assert(d.push((k, v)).drop_first() =~= d);
        assert(spec_encode_pairs(d.push((k, v))) =~= spec_encode_pairs(d) + spec_encode_str(k@)
            + spec_encode(v));
    } else {
        assert(d.push((k, v)).drop_first() =~= d.drop_first().push((k, v)));
        assert(d.push((k, v))[0] == d[0]);
        lemma_encode_pairs_push(d.drop_first(), k, v);
        assert(spec_encode_pairs(d.push((k, v))) == spec_encode_str(d[0].0@) + spec_encode(d[0].1)
            + (spec_encode_pairs(d.drop_first()) + spec_encode_str(k@) + spec_encode(v)));
        assert(spec_encode_pairs(d.push((k, v))) =~= spec_encode_pairs(d) + spec_encode_str(k@)
            + spec_encode(v));
    }
}

pub open spec fn val_capped(n: nat, limit: nat) -> nat {
    if n > limit {
        limit + 1
    } else {
        n
    }
}

proof fn lemma_digit_run_end_ge(s: Seq<u8>, j: int)
    ensures
        digit_run_end(s, j) >= j,
    decreases s.len() - j,
{
    if !(j < 0 || j >= s.len() || !is_digit_byte(s[j])) {
        lemma_digit_run_end_ge(s, j + 1);
    }
}

/// The end of the run of decimal digits that starts at `from`.
fn digit_run(bytes: &[u8], from: usize) -> (j: usize)
    requires
        from <= bytes@.len(),
    ensures
        from <= j <= bytes@.len(),
        j as int == digit_run_end(bytes@, from as int),
        forall|k: int| from <= k < j ==> is_digit_byte(#[trigger] bytes@[k]),
{
    let len: usize = bytes.len();
    let mut j: usize = from;
    while j < len && 48 <= bytes[j] && bytes[j] <= 57
        invariant
            from <= j <= len,
            len == bytes@.len(),
            digit_run_end(bytes@, from as int) == digit_run_end(bytes@, j as int),
            forall|k: int| from <= k < j ==> is_digit_byte(#[trigger] bytes@[k]),
        decreases len - j,
    {
        j += 1;
    }
    j
}

/// The value of the digit run `from..to`, capped just above `limit` so
/// that it cannot overflow; `limit` never exceeds two to the sixty-fourth.
fn digits_value_capped(bytes: &[u8], from: usize, to: usize, limit: u128) -> (val: u128)
    requires
        from <= to <= bytes@.len(),
        forall|k: int| from <= k < to ==> is_digit_byte(#[trigger] bytes@[k]),
        limit <= 0x1_0000_0000_0000_0000u128,
    ensures
        val as nat == val_capped(digits_val(bytes@.subrange(from as int, to as int)), limit as nat),
{
    let ghost s = bytes@;
    let mut val: u128 = 0;
    let mut k: usize = from;
    proof {
        assert(s.subrange(from as int, from as int) =~= Seq::<u8>::empty());
        assert(digits_val(Seq::<u8>::empty()) == 0);
    }
    while k < to
        invariant
            from <= k <= to <= s.len(),
            s == bytes@,
            forall|kk: int| from <= kk < to ==> is_digit_byte(#[trigger] s[kk]),
            limit <= 0x1_0000_0000_0000_0000u128,
            val as nat == val_capped(digits_val(s.subrange(from as int, k as int)), limit as nat),
        decreases to - k,
    {
        let d: u8 = bytes[k];
        let ghost pre = s.subrange(from as int, k as int);
        proof {
            assert(s.subrange(from as int, k as int + 1) =~= pre.push(s[k as int]));
            lemma_digits_val_push(pre, s[k as int]);
        }
        let dig: u128 = (d - 48) as u128;
        let next: u128 = val * 10 + dig;
        proof {
            let dv = digits_val(pre);
            if dv > limit as nat {
                assert(dv * 10 + (d - 48) as nat >= dv) by (nonlinear_arith)
                    requires dv >= 0;
            } else {
                assert(dv * 10 + (d - 48) as nat == next as nat);
            }
        }
        if next > limit {
            val = limit + 1;
        } else {
            val = next;
        }
        k += 1;
    }
    val
}

/// Decodes the byte string whose length prefix starts at `start`.
pub fn decode_string(bytes: &[u8], start: usize) -> (r: Result<(Vec<u8>, usize), BencodeError>)
    requires
        start < bytes@.len(),
        is_digit_byte(bytes@[start as int]),
    ensures
        r matches Ok(p) ==> start < p.1 <= bytes@.len() && spec_encode_str(p.0@) == bytes@.subrange(
            start as int, p.1 as int) && spec_span(bytes@, start as int) == Some(p.1 as int),
        r is Err ==> spec_span(bytes@, start as int) is None,
        r matches Err(e) ==> spec_fault(bytes@, start as int) == Some((e.kind, e.offset as int)),
{
    let len: usize = bytes.len();
    let ghost s = bytes@;
    let j: usize = digit_run(bytes, start);
    proof {
        lemma_digit_run_end_ge(s, start as int + 1);
    }
    assert(j > start);
    if j >= len {
        return Err(BencodeError { kind: BencodeErrorKind::Truncated, offset: j });
    }
    if bytes[j] != 58 {
        return Err(BencodeError { kind: BencodeErrorKind::BadLengthPrefix, offset: j });
    }
    if bytes[start] == 48 && j > start + 1 {
        return Err(BencodeError { kind: BencodeErrorKind::BadLengthPrefix, offset: start });
    }
    let cap: u128 = len as u128;
    let val: u128 = digits_value_capped(bytes, start, j, cap);
    let ghost run = s.subrange(start as int, j as int);
    if val > cap || (val as usize) > len - (j + 1) {
        proof {
            if val <= cap {
                assert(digits_val(run) == val as nat);
            }
        }
        return Err(BencodeError { kind: BencodeErrorKind::Truncated, offset: start });
    }
    let n: usize = val as usize;
    let end: usize = j + 1 + n;
    let payload: Vec<u8> = vstd::slice::slice_to_vec(vstd::slice::slice_subrange(bytes, j + 1, end));
    proof {
        assert(digits_val(run) == n as nat);
        lemma_dec_canon(run);
        assert(spec_encode_str(payload@) =~= s.subrange(start as int, end as int));
    }
    Ok((payload, end))
}

/// Decodes the integer literal whose opening marker stands at `start`.
pub fn decode_integer(bytes: &[u8], start: usize) -> (r: Result<(i64, usize), BencodeError>)
    requires
        start < bytes@.len(),
        bytes@[start as int] == 105,
    ensures
        r matches Ok(p) ==> start < p.1 <= bytes@.len() && spec_encode(BencodeValue::Integer(p.0))
            == bytes@.subrange(start as int, p.1 as int) && spec_span(bytes@, start as int)
            == Some(p.1 as int),
        r is Err ==> spec_span(bytes@, start as int) is None,
        r matches Err(e) ==> spec_fault(bytes@, start as int) == Some((e.kind, e.offset as int)),
{
    let len: usize = bytes.len();
    let ghost s = bytes@;
    let neg: bool = start + 1 < len && bytes[start + 1] == 45;
    let body: usize = if neg { start + 2 } else { start + 1 };
    let j: usize = if body <= len { digit_run(bytes, body) } else { body };
    if j == body {
        return Err(BencodeError { kind: BencodeErrorKind::UnterminatedInteger, offset: body });
    }
    if j >= len {
        return Err(BencodeError { kind: BencodeErrorKind::UnterminatedInteger, offset: j });
    }
    if bytes[j] != 101 {
        return Err(BencodeError { kind: BencodeErrorKind::UnterminatedInteger, offset: j });
    }
    if bytes[body] == 48 && (neg || j != body + 1) {
        return Err(BencodeError { kind: BencodeErrorKind::UnterminatedInteger, offset: body });
    }
    let limit: u128 = if neg { 9223372036854775808u128 } else { 9223372036854775807u128 };
    let val: u128 = digits_value_capped(bytes, body, j, limit);
    let ghost run = s.subrange(body as int, j as int);
    if val > limit {
        return Err(BencodeError { kind: BencodeErrorKind::IntegerOverflow, offset: body });
    }
    assert(digits_val(run) == val as nat);
    proof {
        lemma_dec_canon(run);
    }
    let end: usize = j + 1;
    let n: i64;
    if neg {
        proof {
            lemma_front_val_pos(run);
        }
        n = (-(val as i128)) as i64;
        assert(n as int == -(val as int));
    } else {
        n = val as i64;
    }
    proof {
        assert(spec_encode(BencodeValue::Integer(n)) =~= s.subrange(start as int, end as int));
    }
    Ok((n, end))
}

/// Decodes the single value that starts at offset `start`, returning it
/// with the offset just past its end. Succeeds exactly on the inputs the
/// grammar (`spec_span`) accepts, and the decoded value re-encodes to
/// exactly the consumed bytes.
pub fn decode_value(bytes: &[u8], start: usize) -> (r: Result<(BencodeValue, usize), BencodeError>)
    ensures
        r matches Ok(p) ==> start < p.1 <= bytes@.len() && spec_encode(p.0) == bytes@.subrange(
            start as int, p.1 as int) && spec_span(bytes@, start as int) == Some(p.1 as int),
        r is Err ==> spec_span(bytes@, start as int) is None,
        r matches Err(e) ==> spec_fault(bytes@, start as int) == Some((e.kind, e.offset as int)),
    decreases bytes@.len() - start,
{
    let len: usize = bytes.len();
    let ghost s = bytes@;
    if start >= len {
        return Err(BencodeError { kind: BencodeErrorKind::Truncated, offset: start });
    }
    let b: u8 = bytes[start];
    if b == 105 {
        match decode_integer(bytes, start) {
            Ok((n, end)) => Ok((BencodeValue::Integer(n), end)),
            Err(e) => Err(e),
        }
    } else if 48 <= b && b <= 57 {
        match decode_string(bytes, start) {
            Ok((p, end)) => Ok((BencodeValue::ByteString(p), end)),
            Err(e) => Err(e),
        }
    } else if b == 108 {
        let mut items: Vec<BencodeValue> = Vec::new();
        let mut cur: usize = start + 1;
        proof {
            assert(spec_encode_list(items@) =~= s.subrange(start as int + 1, cur as int));
        }
        loop
            invariant
                start < cur <= len,
                len == s.len(),
                s == bytes@,
                s[start as int] == 108,
                spec_encode_list(items@) == s.subrange(start as int + 1, cur as int),
                spec_items_end(s, cur as int) == spec_items_end(s, start as int + 1),
                spec_items_fault(s, cur as int) == spec_items_fault(s, start as int + 1),
            decreases len - cur,
        {
            if cur >= len {
                return Err(BencodeError { kind: BencodeErrorKind::UnterminatedContainer, offset: cur });
            }
            if bytes[cur] == 101 {
                let end: usize = cur + 1;
                proof {
                    assert(spec_encode(BencodeValue::List(items)) =~= s.subrange(
                        start as int, end as int));
                }
                return Ok((BencodeValue::List(items), end));
            }
            match decode_value(bytes, cur) {
                Err(e) => {
                    return Err(e);
                },
                Ok((v, end2)) => {
                    proof {
                        lemma_encode_list_push(items@, v);
                        assert(s.subrange(start as int + 1, cur as int) + s.subrange(
                            cur as int, end2 as int) =~= s.subrange(start as int + 1, end2 as int));
                    }
                    items.push(v);
                    cur = end2;
                },
            }
        }
    } else if b == 100 {
        let mut pairs: Vec<(Vec<u8>, BencodeValue)> = Vec::new();
        let mut cur: usize = start + 1;
        proof {
            assert(spec_encode_pairs(pairs@) =~= s.subrange(start as int + 1, cur as int));
        }
        loop
            invariant
                start < cur <= len,
                len == s.len(),
                s == bytes@,
                s[start as int] == 100,
                spec_encode_pairs(pairs@) == s.subrange(start as int + 1, cur as int),
                spec_pairs_end(s, cur as int) == spec_pairs_end(s, start as int + 1),
                spec_pairs_fault(s, cur as int) == spec_pairs_fault(s, start as int + 1),
            decreases len - cur,
        {
            if cur >= len {
                return Err(BencodeError { kind: BencodeErrorKind::UnterminatedContainer, offset: cur });
            }
            let c: u8 = bytes[cur];
            if c == 101 {
                let end: usize = cur + 1;
                proof {
                    assert(spec_encode(BencodeValue::Dict(pairs)) =~= s.subrange(
                        start as int, end as int));
                }
                return Ok((BencodeValue::Dict(pairs), end));
            }
            if !(48 <= c && c <= 57) {
                return Err(BencodeError { kind: BencodeErrorKind::NonStringDictKey, offset: cur });
            }
            match decode_string(bytes, cur) {
                Err(e) => {
                    return Err(e);
                },
                Ok((k, kend)) => {
                    match decode_value(bytes, kend) {
                        Err(e) => {
                            return Err(e);
                        },
                        Ok((v, vend)) => {
                            proof {
                                lemma_encode_pairs_push(pairs@, k, v);
                                assert(s.subrange(start as int + 1, cur as int) + s.subrange(
                                    cur as int, kend as int) + s.subrange(kend as int, vend as int)
                                    =~= s.subrange(start as int + 1, vend as int));
                            }
                            pairs.push((k, v));
                            cur = vend;
                        },
                    }
                },
            }
        }
    } else {
        Err(BencodeError { kind: BencodeErrorKind::InvalidPrefix, offset: start })
    }
}

/// Decodes the value that begins the buffer, as `decode_value` at
/// offset zero.
pub fn decode_bencoded_value(bytes: &[u8]) -> (r: Result<(BencodeValue, usize), BencodeError>)
    ensures
        r matches Ok(p) ==> 0 < p.1 <= bytes@.len() && spec_encode(p.0) == bytes@.subrange(
            0, p.1 as int) && spec_span(bytes@, 0) == Some(p.1 as int),
        r is Err ==> spec_span(bytes@, 0) is None,
        r matches Err(e) ==> spec_fault(bytes@, 0) == Some((e.kind, e.offset as int)),
{
    decode_value(bytes, 0)
}

/// The offset just past the value that begins the buffer, computed
/// without keeping the decoded value.
pub fn bencode_ending_index(bytes: &[u8]) -> (r: Result<usize, BencodeError>)
    ensures
        r matches Ok(e) ==> spec_span(bytes@, 0) == Some(e as int),
        r is Err ==> spec_span(bytes@, 0) is None,
        r matches Err(e) ==> spec_fault(bytes@, 0) == Some((e.kind, e.offset as int)),
{
    match decode_value(bytes, 0) {
        Ok((_, end)) => Ok(end),
        Err(e) => Err(e),
    }
}

/// True when the two byte slices hold the same bytes.
pub fn bytes_eq(a: &[u8], b: &[u8]) -> (r: bool)
    ensures
        r == (a@ == b@),
{
    if a.len() != b.len() {
        return false;
    }
    let mut i: usize = 0;
    while i < a.len()
        invariant
            0 <= i <= a@.len(),
            a@.len() == b@.len(),
            forall|k: int| 0 <= k < i ==> a@[k] == b@[k],
        decreases a@.len() - i,
    {
        if a[i] != b[i] {
            return false;
        }
        i += 1;
    }
    proof {
        assert(a@ =~= b@);
    }
    true
}

/// Strict lexicographic comparison of two byte slices.
pub fn lex_less_bytes(a: &[u8], b: &[u8]) -> (r: bool)
    ensures
        r == lex_less(a@, b@),
{
    let mut i: usize = 0;
    proof {
        assert(a@.skip(0) =~= a@);
        assert(b@.skip(0) =~= b@);
    }
    loop
        invariant
            0 <= i <= a@.len(),
            i <= b@.len(),
            lex_less(a@, b@) == lex_less(a@.skip(i as int), b@.skip(i as int)),
        decreases a@.len() - i,
    {
        if i >= b.len() {
            assert(b@.skip(i as int).len() == 0);
            return false;
        }
        if i >= a.len() {
            assert(a@.skip(i as int).len() == 0);
            assert(b@.skip(i as int).len() > 0);
            return true;
        }
        if a[i] < b[i] {
            assert(a@.skip(i as int)[0] == a@[i as int]);
            return true;
        }
        if a[i] > b[i] {
            return false;
        }
        proof {
            assert(a@.skip(i as int).drop_first() =~= a@.skip(i as int + 1));
            assert(b@.skip(i as int).drop_first() =~= b@.skip(i as int + 1));
        }
        i += 1;
    }
}

/// Strict lexicographic order is asymmetric.
proof fn lemma_lex_asym(a: Seq<u8>, b: Seq<u8>)
    ensures
        !(lex_less(a, b) && lex_less(b, a)),
    decreases a.len(),
{
    if a.len() > 0 && b.len() > 0 && a[0] == b[0] {
        lemma_lex_asym(a.drop_first(), b.drop_first());
    }
}

/// The order in which the entries of `d` are emitted: a permutation of
/// the entry indices, sorted by key; entries already in canonical order
/// keep their own positions.
fn sorted_order(d: &Vec<(Vec<u8>, BencodeValue)>) -> (idx: Vec<usize>)
    ensures
        idx@.len() == d@.len(),
        forall|k: int| 0 <= k < idx@.len() ==> (#[trigger] idx@[k]) < d@.len(),
        keys_sorted(d@) ==> forall|k: int| 0 <= k < idx@.len() ==> (#[trigger] idx@[k]) as int
            == k,
{
    let mut idx: Vec<usize> = Vec::new();
    let mut i: usize = 0;
    while i < d.len()
        invariant
            0 <= i <= d@.len(),
            idx@.len() == i,
            forall|k: int| 0 <= k < i ==> (#[trigger] idx@[k]) as int == k,
        decreases d@.len() - i,
    {
        idx.push(i);
        i += 1;
    }
    let mut j: usize = 1;
    while j < idx.len()
        invariant
            j >= 1,
            idx@.len() == d@.len(),
            forall|k: int| 0 <= k < idx@.len() ==> (#[trigger] idx@[k]) < d@.len(),
            keys_sorted(d@) ==> forall|k: int| 0 <= k < idx@.len() ==> (#[trigger] idx@[k]) as int
                == k,
        decreases idx@.len() - j,
    {
        let mut pos: usize = j;
        loop
            invariant
                0 <= pos <= j < idx@.len(),
                idx@.len() == d@.len(),
                forall|k: int| 0 <= k < idx@.len() ==> (#[trigger] idx@[k]) < d@.len(),
                keys_sorted(d@) ==> (forall|k: int| 0 <= k < idx@.len() ==> (
                    #[trigger] idx@[k]) as int == k) && pos == j,
            decreases pos,
        {
            if pos == 0 {
                break;
            }
            let moved: usize = idx[j];
            let there: usize = idx[pos - 1];
            if !lex_less_bytes(d[moved].0.as_slice(), d[there].0.as_slice()) {
                break;
            }
            proof {
                if keys_sorted(d@) {
                    lemma_lex_asym(d@[j as int].0@, d@[pos as int - 1].0@);
                    assert(false);
                }
            }
            pos -= 1;
        }
        let x = idx.remove(j);
        idx.insert(pos, x);
        proof {
            if keys_sorted(d@) {
                assert(idx@ =~= idx@.remove(pos as int).insert(pos as int, x));
            }
        }
        j += 1;
    }
    idx
}

/// The canonical decimal digits of `n`.
pub(crate) fn encode_u64_digits(n: u64) -> (r: Vec<u8>)
    ensures
        r@ == dec_digits(n as nat),
    decreases n,
{
    if n < 10 {
        let mut out: Vec<u8> = Vec::new();
        out.push(48 + n as u8);
        proof {
            assert(out@ =~= dec_digits(n as nat));
        }
        out
    } else {
        let mut out = encode_u64_digits(n / 10);
        out.push(48 + (n % 10) as u8);
        out
    }
}

proof fn lemma_dsl_index(l: Seq<BencodeValue>, i: int)
    requires
        dicts_sorted_list(l),
        0 <= i < l.len(),
    ensures
        dicts_sorted(l[i]),
    decreases i,
{
    if i > 0 {
        lemma_dsl_index(l.drop_first(), i - 1);
    }
}

proof fn lemma_dsp_index(d: Seq<(Vec<u8>, BencodeValue)>, i: int)
    requires
        dicts_sorted_pairs(d),
        0 <= i < d.len(),
    ensures
        dicts_sorted(d[i].1),
    decreases i,
{
    if i > 0 {
        lemma_dsp_index(d.drop_first(), i - 1);
    }
}

/// Emits the wire form of `v`. Dictionary entries are put into
/// lexicographic key order as they are emitted; a value whose
/// dictionaries are already canonical emits exactly `spec_encode`.
#[verifier::loop_isolation(false)]
pub fn encode(v: &BencodeValue) -> (r: Vec<u8>)
    ensures
        dicts_sorted(*v) ==> r@ == spec_encode(*v),
    decreases *v,
{
    match v {
        BencodeValue::Integer(n) => {
            let m: u64 = if *n >= 0 {
                *n as u64
            } else {
                (-(*n as i128)) as u64
            };
            let mut out: Vec<u8> = Vec::new();
            out.push(105);
            if *n < 0 {
                out.push(45);
            }
            let mut digits = encode_u64_digits(m);
            out.append(&mut digits);
            out.push(101);
            proof {
                assert(out@ =~= spec_encode(*v));
            }
            out
        },
        BencodeValue::ByteString(s) => {
            let mut out: Vec<u8> = encode_u64_digits(s.len() as u64);
            out.push(58);
            out.extend_from_slice(s.as_slice());
            proof {
                assert(out@ =~= spec_encode(*v));
            }
            out
        },
        BencodeValue::List(l) => {
            let mut out: Vec<u8> = Vec::new();
            out.push(108);
            let mut i: usize = 0;
            while i < l.len()
                invariant
                    0 <= i <= l@.len(),
                    dicts_sorted_list(l@) ==> out@ == seq![108u8] + spec_encode_list(
                        l@.take(i as int)),
                decreases l@.len() - i,
            {
                proof {
                    if dicts_sorted_list(l@) {
                        lemma_dsl_index(l@, i as int);
                    }
                }
                proof {
                    assert(decreases_to!(*v => *l));
                    assert(decreases_to!(*l => l@[i as int]));
                }
                let mut piece = encode(&l[i]);
                proof {
                    if dicts_sorted_list(l@) {
                        lemma_encode_list_push(l@.take(i as int), l@[i as int]);
                        assert(l@.take(i as int).push(l@[i as int]) =~= l@.take(i as int + 1));
                    }
                }
                out.append(&mut piece);
                i += 1;
            }
            out.push(101);
            proof {
                if dicts_sorted(*v) {
                    assert(l@.take(l@.len() as int) =~= l@);
                    assert(out@ =~= spec_encode(*v));
                }
            }
            out
        },
        BencodeValue::Dict(d) => {
            proof {
                if dicts_sorted(*v) {
                    assert(keys_sorted(d@) && dicts_sorted_pairs(d@));
                }
            }
            let order: Vec<usize> = sorted_order(d);
            let mut out: Vec<u8> = Vec::new();
            out.push(100);
            let mut j: usize = 0;
            while j < order.len()
                invariant
                    0 <= j <= order@.len(),
                    order@.len() == d@.len(),
                    forall|k: int| 0 <= k < order@.len() ==> (#[trigger] order@[k]) < d@.len(),
                    dicts_sorted(*v) ==> (forall|k: int| 0 <= k < order@.len() ==> (
                        #[trigger] order@[k]) as int == k) && out@ == seq![100u8]
                        + spec_encode_pairs(d@.take(j as int)),
                decreases order@.len() - j,
            {
                let e: usize = order[j];
                proof {
                    if dicts_sorted(*v) {
                        lemma_dsp_index(d@, j as int);
                        assert(e as int == j as int);
                    }
                }
                let mut klen = encode_u64_digits(d[e].0.len() as u64);
                out.append(&mut klen);
                out.push(58);
                out.extend_from_slice(d[e].0.as_slice());
                proof {
                    assert(decreases_to!(*v => *d));
                    assert(decreases_to!(*d => d@[e as int]));
                    assert(decreases_to!(d@[e as int] => d@[e as int].1));
                }
                let mut piece = encode(&d[e].1);
                proof {
                    if dicts_sorted(*v) {
                        lemma_encode_pairs_push(d@.take(j as int), d@[j as int].0, d@[j as int].1);
                        assert(d@.take(j as int).push((d@[j as int].0, d@[j as int].1)) =~= d@.take(
                            j as int + 1));
                    }
                }
                out.append(&mut piece);
                proof {
                    if dicts_sorted(*v) {
                        assert(out@ =~= seq![100u8] + spec_encode_pairs(d@.take(j as int + 1)));
                    }
                }
                j += 1;
            }
            out.push(101);
            proof {
                if dicts_sorted(*v) {
                    assert(d@.take(d@.len() as int) =~= d@);
                    assert(out@ =~= spec_encode(*v));
                }
            }
            out
        },
    }
}

/// A fresh vector holding the same bytes.
pub fn copy_bytes(s: &Vec<u8>) -> (r: Vec<u8>)
    ensures
        r@ == s@,
{
    vstd::slice::slice_to_vec(s.as_slice())
}

/// Appends the wire form of a byte string to `out`.
pub(crate) fn emit_str_field(out: &mut Vec<u8>, data: &[u8])
    ensures
        final(out)@ == old(out)@ + spec_encode_str(data@),
{
    let mut digits = encode_u64_digits(data.len() as u64);
    out.append(&mut digits);
    out.push(58);
    out.extend_from_slice(data);
    proof {
        assert(out@ =~= old(out)@ + spec_encode_str(data@));
    }
}

/// Appends the wire form of an unsigned integer to `out`.
pub(crate) fn emit_uint_field(out: &mut Vec<u8>, n: u64)
    ensures
        final(out)@ == old(out)@ + seq![105u8] + dec_digits(n as nat) + seq![101u8],
{
    out.push(105);
    let mut digits = encode_u64_digits(n);
    out.append(&mut digits);
    out.push(101);
    proof {
        assert(out@ =~= old(out)@ + seq![105u8] + dec_digits(n as nat) + seq![101u8]);
    }
}

/// Equality of what two values hold: the same integers, the same
/// bytes, the same structure. This is the equality that `==` on the
/// type observes; it does not care which allocation holds the bytes.
pub open spec fn value_eq(a: BencodeValue, b: BencodeValue) -> bool
    decreases a,
{
    match (a, b) {
        (BencodeValue::Integer(n), BencodeValue::Integer(m)) => n == m,
        (BencodeValue::ByteString(p), BencodeValue::ByteString(q)) => p@ == q@,
        (BencodeValue::List(u), BencodeValue::List(w)) => value_eq_list(u@, w@),
        (BencodeValue::Dict(c), BencodeValue::Dict(d)) => value_eq_pairs(c@, d@),
        _ => false,
    }
}

pub open spec fn value_eq_list(u: Seq<BencodeValue>, w: Seq<BencodeValue>) -> bool
    decreases u,
{
    if u.len() == 0 || w.len() == 0 {
        u.len() == w.len()
    } else {
        value_eq(u[0], w[0]) && value_eq_list(u.drop_first(), w.drop_first())
    }
}

pub open spec fn value_eq_pairs(
    c: Seq<(Vec<u8>, BencodeValue)>,
    d: Seq<(Vec<u8>, BencodeValue)>,
) -> bool
    decreases c,
{
    if c.len() == 0 || d.len() == 0 {
        c.len() == d.len()
    } else {
        c[0].0@ == d[0].0@ && value_eq(c[0].1, d[0].1) && value_eq_pairs(
            c.drop_first(), d.drop_first())
    }
}

/// Cutting the same front off two equal sequences leaves equal rests.
proof fn lemma_add_cancel_left(a: Seq<u8>, x: Seq<u8>, y: Seq<u8>)
    requires
        a + x == a + y,
    ensures
        x == y,
{
    assert((a + x).len() == a.len() + x.len());
    assert((a + y).len() == a.len() + y.len());
    assert(x.len() == y.len());
    assert forall|i: int| 0 <= i < x.len() implies x[i] == y[i] by {
        assert((a + x)[a.len() + i] == x[i]);
        assert((a + y)[a.len() + i] == y[i]);
    }
    assert(x =~= y);
}

proof fn lemma_emit_shape(v: BencodeValue)
    ensures
        spec_encode(v).len() >= 2,
        v matches BencodeValue::Integer(_) ==> spec_encode(v)[0] == 105,
        v matches BencodeValue::ByteString(_) ==> is_digit_byte(spec_encode(v)[0]),
        v matches BencodeValue::List(_) ==> spec_encode(v)[0] == 108,
        v matches BencodeValue::Dict(_) ==> spec_encode(v)[0] == 100,
{
    match v {
        BencodeValue::Integer(n) => {
            if n < 0 {
                lemma_dec_digits_props((-(n as int)) as nat);
            } else {
                lemma_dec_digits_props(n as nat);
            }
        },
        BencodeValue::ByteString(s) => {
            lemma_dec_digits_props(s@.len());
        },
        BencodeValue::List(_) => {},
        BencodeValue::Dict(_) => {},
    }
}

/// Two runs of digits closed by non-digit terminators split one
/// sequence the same way.
proof fn lemma_digit_run_split(s: Seq<u8>, d1: Seq<u8>, r1: Seq<u8>, d2: Seq<u8>, r2: Seq<u8>)
    requires
        s == d1 + r1,
        s == d2 + r2,
        forall|i: int| 0 <= i < d1.len() ==> is_digit_byte(#[trigger] d1[i]),
        forall|i: int| 0 <= i < d2.len() ==> is_digit_byte(#[trigger] d2[i]),
        r1.len() > 0 && !is_digit_byte(r1[0]),
        r2.len() > 0 && !is_digit_byte(r2[0]),
    ensures
        d1 == d2,
        r1 == r2,
{
    if d1.len() < d2.len() {
        assert(s[d1.len() as int] == r1[0]);
        assert(s[d1.len() as int] == d2[d1.len() as int]);
        assert(false);
    } else if d2.len() < d1.len() {
        assert(s[d2.len() as int] == r2[0]);
        assert(s[d2.len() as int] == d1[d2.len() as int]);
        assert(false);
    } else {
        assert forall|i: int| 0 <= i < d1.len() implies d1[i] == d2[i] by {
            assert((d1 + r1)[i] == d1[i]);
            assert((d2 + r2)[i] == d2[i]);
        }
        assert(d1 =~= d2);
        lemma_add_cancel_left(d1, r1, r2);
    }
}

/// The wire form is prefix-determined: whenever two emissions open the
/// same byte sequence, they are emissions of the same value and are
/// followed by the same rest. With the contracts of `encode` and
/// `decode_value` this is the round-trip law: a canonical value,
/// encoded and decoded again, comes back as it was.
pub proof fn lemma_emit_prefix_free(a: BencodeValue, b: BencodeValue, x: Seq<u8>, y: Seq<u8>)
    requires
        spec_encode(a) + x == spec_encode(b) + y,
    ensures
        value_eq(a, b),
        x == y,
    decreases spec_encode(a).len(), 0int,
{
    lemma_emit_shape(a);
    lemma_emit_shape(b);
    let s = spec_encode(a) + x;
    match (a, b) {
        (BencodeValue::Integer(n), BencodeValue::Integer(m)) => {
            let na = if n < 0 { (-(n as int)) as nat } else { n as nat };
            let nb = if m < 0 { (-(m as int)) as nat } else { m as nat };
            lemma_dec_digits_props(na);
            lemma_dec_digits_props(nb);
            assert(s[1] == dec_int(n as int)[0]);
            assert(s[1] == dec_int(m as int)[0]);
            assert((n < 0) <==> s[1] == 45);
            assert((m < 0) <==> s[1] == 45);
            let off: int = if n < 0 { 2 } else { 1 };
            assert(s.skip(off) =~= dec_digits(na) + (seq![101u8] + x));
            assert(s.skip(off) =~= dec_digits(nb) + (seq![101u8] + y));
            lemma_digit_run_split(
                s.skip(off), dec_digits(na), seq![101u8] + x, dec_digits(nb), seq![101u8] + y);
            lemma_digits_val_dec(na);
            lemma_digits_val_dec(nb);
            assert(na == nb);
            lemma_add_cancel_left(seq![101u8], x, y);
        },
        (BencodeValue::ByteString(p), BencodeValue::ByteString(q)) => {
            lemma_dec_digits_props(p@.len());
            lemma_dec_digits_props(q@.len());
            assert(s =~= dec_digits(p@.len()) + (seq![58u8] + p@ + x));
            assert(s =~= dec_digits(q@.len()) + (seq![58u8] + q@ + y));
            lemma_digit_run_split(
                s, dec_digits(p@.len()), seq![58u8] + p@ + x, dec_digits(q@.len()),
                seq![58u8] + q@ + y);
            lemma_digits_val_dec(p@.len());
            lemma_digits_val_dec(q@.len());
            assert(p@.len() == q@.len());
            assert forall|i: int| 0 <= i < p@.len() implies p@[i] == q@[i] by {
                assert((seq![58u8] + p@ + x)[1 + i] == p@[i]);
                assert((seq![58u8] + q@ + y)[1 + i] == q@[i]);
            }
            assert(p@ =~= q@);
            assert(seq![58u8] + p@ + x =~= (seq![58u8] + p@) + x);
            assert(seq![58u8] + q@ + y =~= (seq![58u8] + p@) + y);
            lemma_add_cancel_left(seq![58u8] + p@, x, y);
        },
        (BencodeValue::List(u), BencodeValue::List(w)) => {
            assert(s.skip(1) =~= spec_encode_list(u@) + seq![101u8] + x);
            assert(s.skip(1) =~= spec_encode_list(w@) + seq![101u8] + y);
            lemma_items_prefix(u@, w@, x, y);
        },
        (BencodeValue::Dict(c), BencodeValue::Dict(d)) => {
            assert(s.skip(1) =~= spec_encode_pairs(c@) + seq![101u8] + x);
            assert(s.skip(1) =~= spec_encode_pairs(d@) + seq![101u8] + y);
            lemma_pairs_prefix(c@, d@, x, y);
        },
        _ => {
            assert(s[0] == spec_encode(a)[0]);
            assert(s[0] == spec_encode(b)[0]);
            assert(false);
        },
    }
}

proof fn lemma_items_prefix(u: Seq<BencodeValue>, w: Seq<BencodeValue>, x: Seq<u8>, y: Seq<u8>)
    requires
        spec_encode_list(u) + seq![101u8] + x == spec_encode_list(w) + seq![101u8] + y,
    ensures
        value_eq_list(u, w),
        x == y,
    decreases spec_encode_list(u).len(), 1int,
{
    let s = spec_encode_list(u) + seq![101u8] + x;
    if u.len() == 0 && w.len() == 0 {
        lemma_add_cancel_left(seq![101u8], x, y);
    } else if u.len() == 0 {
        lemma_emit_shape(w[0]);
        assert(s[0] == 101);
        assert(s[0] == spec_encode(w[0])[0]);
        assert(false);
    } else if w.len() == 0 {
        lemma_emit_shape(u[0]);
        assert(s[0] == 101);
        assert(s[0] == spec_encode(u[0])[0]);
        assert(false);
    } else {
        lemma_emit_shape(u[0]);
        assert(s =~= spec_encode(u[0]) + (spec_encode_list(u.drop_first()) + seq![101u8] + x));
        assert(s =~= spec_encode(w[0]) + (spec_encode_list(w.drop_first()) + seq![101u8] + y));
        lemma_emit_prefix_free(
            u[0], w[0], spec_encode_list(u.drop_first()) + seq![101u8] + x,
            spec_encode_list(w.drop_first()) + seq![101u8] + y);
        lemma_items_prefix(u.drop_first(), w.drop_first(), x, y);
    }
}

#[verifier::rlimit(60)]
proof fn lemma_pairs_prefix(
    c: Seq<(Vec<u8>, BencodeValue)>,
    d: Seq<(Vec<u8>, BencodeValue)>,
    x: Seq<u8>,
    y: Seq<u8>,
)
    requires
        spec_encode_pairs(c) + seq![101u8] + x == spec_encode_pairs(d) + seq![101u8] + y,
    ensures
        value_eq_pairs(c, d),
        x == y,
    decreases spec_encode_pairs(c).len(), 1int,
{
    let s = spec_encode_pairs(c) + seq![101u8] + x;
    if c.len() == 0 && d.len() == 0 {
        lemma_add_cancel_left(seq![101u8], x, y);
    } else if c.len() == 0 {
        lemma_dec_digits_props(d[0].0@.len());
        assert(s[0] == 101);
        assert(s[0] == dec_digits(d[0].0@.len())[0]);
        assert(false);
    } else if d.len() == 0 {
        lemma_dec_digits_props(c[0].0@.len());
        assert(s[0] == 101);
        assert(s[0] == dec_digits(c[0].0@.len())[0]);
        assert(false);
    } else {
        let k1 = c[0].0@;
        let k2 = d[0].0@;
        lemma_dec_digits_props(k1.len());
        lemma_dec_digits_props(k2.len());
        let rest1 = spec_encode(c[0].1) + spec_encode_pairs(c.drop_first()) + seq![101u8] + x;
        let rest2 = spec_encode(d[0].1) + spec_encode_pairs(d.drop_first()) + seq![101u8] + y;
        assert(s =~= dec_digits(k1.len()) + (seq![58u8] + k1 + rest1));
        assert(s =~= dec_digits(k2.len()) + (seq![58u8] + k2 + rest2));
        lemma_digit_run_split(
            s, dec_digits(k1.len()), seq![58u8] + k1 + rest1, dec_digits(k2.len()),
            seq![58u8] + k2 + rest2);
        lemma_digits_val_dec(k1.len());
        lemma_digits_val_dec(k2.len());
        assert(k1.len() == k2.len());
        assert forall|i: int| 0 <= i < k1.len() implies k1[i] == k2[i] by {
            assert((seq![58u8] + k1 + rest1)[1 + i] == k1[i]);
            assert((seq![58u8] + k2 + rest2)[1 + i] == k2[i]);
        }
        assert(k1 =~= k2);
        assert(seq![58u8] + k1 + rest1 =~= (seq![58u8] + k1) + rest1);
        assert(seq![58u8] + k2 + rest2 =~= (seq![58u8] + k1) + rest2);
        lemma_add_cancel_left(seq![58u8] + k1, rest1, rest2);
        lemma_emit_shape(c[0].1);
        assert(rest1 =~= spec_encode(c[0].1) + (spec_encode_pairs(c.drop_first()) + seq![101u8]
            + x));
        assert(rest2 =~= spec_encode(d[0].1) + (spec_encode_pairs(d.drop_first()) + seq![101u8]
            + y));
        lemma_emit_prefix_free(
            c[0].1, d[0].1, spec_encode_pairs(c.drop_first()) + seq![101u8] + x,
            spec_encode_pairs(d.drop_first()) + seq![101u8] + y);
        lemma_pairs_prefix(c.drop_first(), d.drop_first(), x, y);
    }
}

/// The wire form names one value: equal emissions come from values
/// that hold the same content.
pub proof fn lemma_encode_injective(a: BencodeValue, b: BencodeValue)
    requires
        spec_encode(a) == spec_encode(b),
    ensures
        value_eq(a, b),
{
    assert(spec_encode(a) + Seq::<u8>::empty() =~= spec_encode(b) + Seq::<u8>::empty());
    lemma_emit_prefix_free(a, b, Seq::empty(), Seq::empty());
}

/// Canonical order is content alone: a set of entries has exactly one
/// strictly sorted arrangement, so the emitted key order of a
/// canonical dictionary does not depend on the order in which its
/// entries were put in.
pub proof fn lemma_canonical_order_unique(
    a: Seq<(Vec<u8>, BencodeValue)>,
    b: Seq<(Vec<u8>, BencodeValue)>,
)
    requires
        keys_sorted(a),
        keys_sorted(b),
        a.to_multiset() == b.to_multiset(),
    ensures
        a == b,
    decreases a.len(),
{
    broadcast use vstd::seq_lib::group_to_multiset_ensures;

    if a.len() == 0 {
        assert(b.to_multiset().len() == 0);
        assert(a =~= b);
    } else {
        assert(a.len() == a.to_multiset().len());
        assert(b.len() == b.to_multiset().len());
        assert(b.len() == a.len());
        assert(a.contains(a[0]));
        assert(b.to_multiset().count(a[0]) > 0);
        assert(b.contains(a[0]));
        let j = choose|j: int| 0 <= j < b.len() && b[j] == a[0];
        assert(a.to_multiset().count(b[0]) > 0);
        assert(a.contains(b[0]));
        let i = choose|i: int| 0 <= i < a.len() && a[i] == b[0];
        if i > 0 && j > 0 {
            assert(lex_less(a[0].0@, a[i].0@));
            assert(lex_less(b[0].0@, b[j].0@));
            lemma_lex_asym(a[0].0@, b[0].0@);
            assert(false);
        }
        assert(a[0] == b[0]);
        assert(a.remove(0).to_multiset() =~= a.to_multiset().remove(a[0]));
        assert(b.remove(0).to_multiset() =~= b.to_multiset().remove(b[0]));
        assert forall|m: int, n: int| 0 <= m < n < a.remove(0).len() implies lex_less(
            #[trigger] a.remove(0)[m].0@, #[trigger] a.remove(0)[n].0@) by {
            assert(a.remove(0)[m] == a[m + 1]);
            assert(a.remove(0)[n] == a[n + 1]);
        }
        assert forall|m: int, n: int| 0 <= m < n < b.remove(0).len() implies lex_less(
            #[trigger] b.remove(0)[m].0@, #[trigger] b.remove(0)[n].0@) by {
            assert(b.remove(0)[m] == b[m + 1]);
            assert(b.remove(0)[n] == b[n + 1]);
        }
        lemma_canonical_order_unique(a.remove(0), b.remove(0));
        assert forall|k: int| 0 <= k < a.len() implies a[k] == b[k] by {
            if k > 0 {
                assert(a.remove(0)[k - 1] == a[k]);
                assert(b.remove(0)[k - 1] == b[k]);
            }
        }
        assert(a =~= b);
    }
}

proof fn lemma_digit_run_exact(s: Seq<u8>, b: int, k: int)
    requires
        0 <= b,
        0 <= k,
        b + k < s.len(),
        forall|m: int| b <= m < b + k ==> is_digit_byte(#[trigger] s[m]),
        !is_digit_byte(s[b + k]),
    ensures
        digit_run_end(s, b) == b + k,
    decreases k,
{
    if k > 0 {
        lemma_digit_run_exact(s, b + 1, k - 1);
    }
}

/// The emission of a byte string, wherever it stands in a buffer,
/// parses as one value that spans exactly itself.
proof fn lemma_str_emission_span(p: Seq<u8>, s: Seq<u8>, i: int)
    requires
        0 <= i,
        i + spec_encode_str(p).len() <= s.len(),
        s.subrange(i, i + spec_encode_str(p).len()) == spec_encode_str(p),
    ensures
        spec_span(s, i) == Some(i + spec_encode_str(p).len()),
        is_digit_byte(s[i]),
    decreases 0int,
{
    let e = spec_encode_str(p);
    let d = dec_digits(p.len());
    lemma_dec_digits_props(p.len());
    assert forall|m: int| i <= m < i + d.len() implies is_digit_byte(#[trigger] s[m]) by {
        assert(s.subrange(i, i + e.len())[m - i] == s[m]);
        assert(e[m - i] == d[m - i]);
    }
    assert(s[i + d.len()] == 58) by {
        assert(s.subrange(i, i + e.len())[d.len() as int] == s[i + d.len()]);
    }
    lemma_digit_run_exact(s, i, d.len() as int);
    let dend = i + d.len();
    assert(s.subrange(i, dend) =~= d);
    lemma_digits_val_dec(p.len());
    assert(s[i] == d[0]) by {
        assert(s.subrange(i, i + e.len())[0] == s[i]);
    }
    if s[i] == 48 {
        assert(p.len() == 0);
    }
}

/// The emission of any value, wherever it stands in a buffer, parses
/// as one value that spans exactly itself: encode's output is
/// well-formed input for decode.
pub proof fn lemma_span_of_emission(v: BencodeValue, s: Seq<u8>, i: int)
    requires
        0 <= i,
        i + spec_encode(v).len() <= s.len(),
        s.subrange(i, i + spec_encode(v).len()) == spec_encode(v),
    ensures
        spec_span(s, i) == Some(i + spec_encode(v).len()),
    decreases spec_encode(v).len(), 0int,
{
    let e = spec_encode(v);
    lemma_emit_shape(v);
    assert(s[i] == e[0]) by {
        assert(s.subrange(i, i + e.len())[0] == s[i]);
    }
    match v {
        BencodeValue::Integer(n) => {
            let m = if n < 0 { (-(n as int)) as nat } else { n as nat };
            let d = dec_digits(m);
            lemma_dec_digits_props(m);
            assert(s[i + 1] == e[1]) by {
                assert(s.subrange(i, i + e.len())[1] == s[i + 1]);
            }
            let body = if n < 0 { i + 2 } else { i + 1 };
            assert forall|k: int| body <= k < body + d.len() implies is_digit_byte(
                #[trigger] s[k]) by {
                assert(s.subrange(i, i + e.len())[k - i] == s[k]);
            }
            assert(s[body + d.len()] == 101) by {
                assert(s.subrange(i, i + e.len())[body + d.len() - i] == s[body + d.len()]);
            }
            lemma_digit_run_exact(s, body, d.len() as int);
            let dend = body + d.len();
            if n < 0 {
                assert(e =~= seq![105u8, 45u8] + d + seq![101u8]);
            } else {
                assert(e =~= seq![105u8] + d + seq![101u8]);
            }
            assert forall|k: int| 0 <= k < d.len() implies s.subrange(body, dend)[k] == d[k] by {
                assert(s.subrange(i, i + e.len())[body - i + k] == s[body + k]);
                if n < 0 {
                    assert((seq![105u8, 45u8] + d + seq![101u8])[body - i + k] == d[k]);
                } else {
                    assert((seq![105u8] + d + seq![101u8])[body - i + k] == d[k]);
                }
            }
            assert(s.subrange(body, dend) =~= d);
            lemma_digits_val_dec(m);
            assert(s[body] == d[0]) by {
                assert(s.subrange(i, i + e.len())[body - i] == s[body]);
            }
            if n < 0 {
                assert(m >= 1);
                assert(s[body] != 48);
            } else if s[body] == 48 {
                assert(m == 0);
            }
            assert(spec_span(s, i) == Some(i + e.len() as int));
        },
        BencodeValue::ByteString(p) => {
            lemma_str_emission_span(p@, s, i);
        },
        BencodeValue::List(l) => {
            let el = spec_encode_list(l@);
            assert(e =~= seq![108u8] + (el + seq![101u8]));
            assert forall|k: int| 0 <= k < el.len() + 1 implies s.subrange(i + 1, i + e.len())[k]
                == (el + seq![101u8])[k] by {
                assert(s.subrange(i, i + e.len())[1 + k] == s[i + 1 + k]);
                assert((seq![108u8] + (el + seq![101u8]))[1 + k] == (el + seq![101u8])[k]);
            }
            assert(s.subrange(i + 1, i + e.len()) =~= el + seq![101u8]);
            lemma_items_span(l@, s, i + 1);
        },
        BencodeValue::Dict(d) => {
            let ep = spec_encode_pairs(d@);
            assert(e =~= seq![100u8] + (ep + seq![101u8]));
            assert forall|k: int| 0 <= k < ep.len() + 1 implies s.subrange(i + 1, i + e.len())[k]
                == (ep + seq![101u8])[k] by {
                assert(s.subrange(i, i + e.len())[1 + k] == s[i + 1 + k]);
                assert((seq![100u8] + (ep + seq![101u8]))[1 + k] == (ep + seq![101u8])[k]);
            }
            assert(s.subrange(i + 1, i + e.len()) =~= ep + seq![101u8]);
            lemma_pairs_span(d@, s, i + 1);
        },
    }
}

proof fn lemma_items_span(l: Seq<BencodeValue>, s: Seq<u8>, j: int)
    requires
        0 <= j,
        j + spec_encode_list(l).len() + 1 <= s.len(),
        s.subrange(j, j + spec_encode_list(l).len() + 1) == spec_encode_list(l) + seq![101u8],
    ensures
        spec_items_end(s, j) == Some(j + spec_encode_list(l).len() + 1),
    decreases spec_encode_list(l).len(), 1int,
{
    let el = spec_encode_list(l);
    if l.len() == 0 {
        assert(s[j] == 101) by {
            assert(s.subrange(j, j + el.len() + 1)[0] == s[j]);
        }
    } else {
        let e0 = spec_encode(l[0]);
        lemma_emit_shape(l[0]);
        assert(s.subrange(j, j + e0.len()) =~= e0) by {
            assert forall|k: int| 0 <= k < e0.len() implies s.subrange(j, j + e0.len())[k]
                == e0[k] by {
                assert(s.subrange(j, j + el.len() + 1)[k] == s[j + k]);
                assert((e0 + (spec_encode_list(l.drop_first()) + seq![101u8]))[k] == e0[k]);
                assert(el + seq![101u8] =~= e0 + (spec_encode_list(l.drop_first()) + seq![101u8]));
            }
        }
        lemma_span_of_emission(l[0], s, j);
        let end = j + e0.len();
        assert(s[j] == e0[0]) by {
            assert(s.subrange(j, j + e0.len())[0] == s[j]);
        }
        assert(s[j] != 101);
        assert(s.subrange(end, end + spec_encode_list(l.drop_first()).len() + 1) =~= spec_encode_list(
            l.drop_first()) + seq![101u8]) by {
            assert forall|k: int| 0 <= k < spec_encode_list(l.drop_first()).len() + 1 implies s.subrange(
                end, end + spec_encode_list(l.drop_first()).len() + 1)[k] == (spec_encode_list(
                l.drop_first()) + seq![101u8])[k] by {
                assert(s.subrange(j, j + el.len() + 1)[e0.len() + k] == s[end + k]);
                assert(el + seq![101u8] =~= e0 + (spec_encode_list(l.drop_first()) + seq![101u8]));
            }
        }
        lemma_items_span(l.drop_first(), s, end);
    }
}

proof fn lemma_pairs_span(d: Seq<(Vec<u8>, BencodeValue)>, s: Seq<u8>, j: int)
    requires
        0 <= j,
        j + spec_encode_pairs(d).len() + 1 <= s.len(),
        s.subrange(j, j + spec_encode_pairs(d).len() + 1) == spec_encode_pairs(d) + seq![101u8],
    ensures
        spec_pairs_end(s, j) == Some(j + spec_encode_pairs(d).len() + 1),
    decreases spec_encode_pairs(d).len(), 1int,
{
    let ep = spec_encode_pairs(d);
    if d.len() == 0 {
        assert(s[j] == 101) by {
            assert(s.subrange(j, j + ep.len() + 1)[0] == s[j]);
        }
    } else {
        let ke = spec_encode_str(d[0].0@);
        let ve = spec_encode(d[0].1);
        let tail = spec_encode_pairs(d.drop_first());
        lemma_emit_shape(d[0].1);
        lemma_dec_digits_props(d[0].0@.len());
        assert(ep + seq![101u8] =~= ke + (ve + (tail + seq![101u8])));
        assert(s.subrange(j, j + ke.len()) =~= ke) by {
            assert forall|k: int| 0 <= k < ke.len() implies s.subrange(j, j + ke.len())[k]
                == ke[k] by {
                assert(s.subrange(j, j + ep.len() + 1)[k] == s[j + k]);
                assert((ke + (ve + (tail + seq![101u8])))[k] == ke[k]);
            }
        }
        lemma_str_emission_span(d[0].0@, s, j);
        let kend = j + ke.len();
        assert(s[j] != 101);
        assert(s.subrange(kend, kend + ve.len()) =~= ve) by {
            assert forall|k: int| 0 <= k < ve.len() implies s.subrange(kend, kend + ve.len())[k]
                == ve[k] by {
                assert(s.subrange(j, j + ep.len() + 1)[ke.len() + k] == s[kend + k]);
                assert((ke + (ve + (tail + seq![101u8])))[ke.len() + k] == ve[k]);
            }
        }
        lemma_span_of_emission(d[0].1, s, kend);
        let vend = kend + ve.len();
        assert(s.subrange(vend, vend + tail.len() + 1) =~= tail + seq![101u8]) by {
            assert forall|k: int| 0 <= k < tail.len() + 1 implies s.subrange(
                vend, vend + tail.len() + 1)[k] == (tail + seq![101u8])[k] by {
                assert(s.subrange(j, j + ep.len() + 1)[ke.len() + ve.len() + k] == s[vend + k]);
                assert((ke + (ve + (tail + seq![101u8])))[ke.len() + ve.len() + k] == (tail
                    + seq![101u8])[k]);
            }
        }
        lemma_pairs_span(d.drop_first(), s, vend);
    }
}

/// Round trip: the emission of any value is a whole well-formed
/// document. With `decode_value`'s contract this makes decoding
/// succeed on exactly `encode`'s output and consume all of it, and
/// with `lemma_encode_injective` the decoded value holds the same
/// content as the one encoded.
pub proof fn lemma_round_trip(v: BencodeValue)
    ensures
        spec_span(spec_encode(v), 0) == Some(spec_encode(v).len() as int),
{
    let s = spec_encode(v);
    assert(s.subrange(0, s.len() as int) =~= s);
    lemma_span_of_emission(v, s, 0);
}

/// Equivalent entry lists answer every lookup equivalently.
pub(crate) proof fn lemma_value_eq_lookup(
    c: Seq<(Vec<u8>, BencodeValue)>,
    d: Seq<(Vec<u8>, BencodeValue)>,
    k: Seq<u8>,
)
    requires
        value_eq_pairs(c, d),
    ensures
        dict_lookup(c, k) is None <==> dict_lookup(d, k) is None,
        dict_lookup(c, k) matches Some(a) ==> (dict_lookup(d, k) matches Some(b) && value_eq(
            a, b)),
    decreases c.len(),
{
    if c.len() == 0 {
    } else if c[0].0@ == k {
    } else {
        lemma_value_eq_lookup(c.drop_first(), d.drop_first(), k);
    }
}

/// Looks the key up among the entries, first occurrence first.
pub fn dict_get<'a>(pairs: &'a Vec<(Vec<u8>, BencodeValue)>, key: &[u8]) -> (r: Option<
    &'a BencodeValue>)
    ensures
        match r {
            Some(v) => dict_lookup(pairs@, key@) == Some(*v),
            None => dict_lookup(pairs@, key@) is None,
        },
{
    let mut i: usize = 0;
    proof {
        assert(pairs@.skip(0) =~= pairs@);
    }
    while i < pairs.len()
        invariant
            0 <= i <= pairs@.len(),
            dict_lookup(pairs@, key@) == dict_lookup(pairs@.skip(i as int), key@),
        decreases pairs@.len() - i,
    {
        proof {
            assert(pairs@.skip(i as int)[0] == pairs@[i as int]);
            assert(pairs@.skip(i as int).drop_first() =~= pairs@.skip(i as int + 1));
        }
        if bytes_eq(pairs[i].0.as_slice(), key) {
            return Some(&pairs[i].1);
        }
        i += 1;
    }
    proof {
        assert(pairs@.skip(pairs@.len() as int).len() == 0);
    }
    None
}

/// Round trip, end to end: decoding `encode`'s output gives the
/// encoded value back. The hypotheses are exactly what `encode`
/// ensures of its output on a canonical value and what `decode_value`
/// ensures of any `Ok` result on that output; the conclusion is that
/// the whole buffer was consumed and the decoded value holds the same
/// content. `lemma_round_trip` rules the `Err` case out.
pub proof fn lemma_decode_of_encode(
    v: BencodeValue,
    w: BencodeValue,
    end: int,
    bytes: Seq<u8>,
)
    requires
        dicts_sorted(v),
        bytes == spec_encode(v),
        0 < end <= bytes.len(),
        spec_encode(w) == bytes.subrange(0, end),
        spec_span(bytes, 0) == Some(end),
    ensures
        end == bytes.len(),
        value_eq(w, v),
{
    lemma_round_trip(v);
    assert(end == bytes.len() as int);
    assert(bytes.subrange(0, bytes.len() as int) =~= bytes);
    lemma_encode_injective(w, v);
}

} // verus!
