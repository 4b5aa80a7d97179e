use vstd::prelude::*;

use crate::error::ClientError;

verus! {

/// A bencode value in the mathematical world: the four kinds of the format,
/// with unbounded integers, byte sequences, and ordered entry lists for
/// dictionaries.
pub enum SpecBencode {
    Int(int),
    Bytes(Seq<u8>),
    List(Seq<SpecBencode>),
    Dict(Seq<(Seq<u8>, SpecBencode)>),
}

/// A decoded bencode value: integer, byte string, list, or dictionary.
/// A dictionary is an ordered list of key/value entries; a well-formed one
/// (see [`spec_wf`]) keeps its keys unique and in ascending byte order, the
/// canonical form that encoding emits.
#[derive(Debug, PartialEq)]
pub enum BencodeValue {
    Int(i64),
    Bytes(Vec<u8>),
    List(Vec<BencodeValue>),
    Dict(Vec<(Vec<u8>, BencodeValue)>),
}

/// The views of a sequence of decoded values, index by index.
pub open spec fn seq_views(items: Seq<BencodeValue>) -> Seq<SpecBencode>
    decreases items, 0int,
{
    Seq::new(
        items.len(),
        |i: int|
            if 0 <= i < items.len() {
                items[i]@
            } else {
                SpecBencode::Int(0)
            },
    )
}

/// The views of a sequence of decoded dictionary entries, index by index.
pub open spec fn entry_views(entries: Seq<(Vec<u8>, BencodeValue)>) -> Seq<(Seq<u8>, SpecBencode)>
    decreases entries, 0int,
{
    Seq::new(
        entries.len(),
        |i: int|
            if 0 <= i < entries.len() {
                (entries[i].0@, entries[i].1@)
            } else {
                (Seq::empty(), SpecBencode::Int(0))
            },
    )
}

impl View for BencodeValue {
    type V = SpecBencode;

    open spec fn view(&self) -> SpecBencode
        decreases self, 1int,
    {
        match self {
            BencodeValue::Int(i) => SpecBencode::Int(*i as int),
            BencodeValue::Bytes(b) => SpecBencode::Bytes(b@),
            BencodeValue::List(items) => SpecBencode::List(seq_views(items@)),
            BencodeValue::Dict(entries) => SpecBencode::Dict(entry_views(entries@)),
        }
    }
}

/// Strict lexicographic order on byte sequences: `a` comes before `b`.
pub open spec fn lex_lt(a: Seq<u8>, b: Seq<u8>) -> bool
    decreases a.len(),
{
    if b.len() == 0 {
        false
    } else if a.len() == 0 {
        true
    } else if a[0] < b[0] {
        true
    } else if a[0] > b[0] {
        false
    } else {
        lex_lt(a.drop_first(), b.drop_first())
    }
}

/// Whether a dictionary's entries list their keys in strictly ascending
/// byte order (each key before the next).
pub open spec fn entries_sorted(es: Seq<(Seq<u8>, SpecBencode)>) -> bool {
    forall|i: int| 0 <= i < es.len() - 1 ==> lex_lt(#[trigger] es[i].0, es[i + 1].0)
}

/// Well-formedness of a bencode value: every integer fits a 64-bit signed
/// machine word, and every dictionary lists its keys in strictly ascending
/// byte order, which also makes them unique.
pub open spec fn spec_wf(v: SpecBencode) -> bool
    decreases v,
{
    match v {
        SpecBencode::Int(i) => i64::MIN <= i <= i64::MAX,
        SpecBencode::Bytes(b) => true,
        SpecBencode::List(items) => forall|i: int|
            0 <= i < items.len() ==> spec_wf(#[trigger] items[i]),
        SpecBencode::Dict(entries) => (forall|i: int|
            0 <= i < entries.len() ==> spec_wf(#[trigger] entries[i].1)) && entries_sorted(
            entries,
        ),
    }
}

/// The decimal digits of `n`, most significant first, as ASCII bytes.
pub open spec fn spec_digits(n: int) -> Seq<u8>
    decreases n,
{
    if n < 10 {
        seq![(48 + if n >= 0 { n } else { 0 }) as u8]
    } else {
        spec_digits(n / 10) + seq![(48 + n % 10) as u8]
    }
}

/// The bencode encoding of an integer's value part: an optional minus sign
/// followed by the decimal digits of its magnitude.
pub open spec fn spec_int_bytes(i: int) -> Seq<u8> {
    if i < 0 {
        seq![45u8] + spec_digits(-i)
    } else {
        spec_digits(i)
    }
}

/// The length-prefixed encoding of a byte string: `<len>:<bytes>`.
pub open spec fn spec_str_bytes(b: Seq<u8>) -> Seq<u8> {
    spec_digits(b.len() as int) + seq![58u8] + b
}

/// The canonical bencode encoding of a value.
pub open spec fn spec_encode(v: SpecBencode) -> Seq<u8>
    decreases v, 0int, 0int,
{
    match v {
        SpecBencode::Int(i) => seq![105u8] + spec_int_bytes(i) + seq![101u8],
        SpecBencode::Bytes(b) => spec_str_bytes(b),
        SpecBencode::List(items) => seq![108u8] + spec_encode_items(items, 0) + seq![101u8],
        SpecBencode::Dict(entries) => seq![100u8] + spec_encode_entries(entries, 0) + seq![
            101u8,
        ],
    }
}

/// The concatenated encodings of the list items from index `i` on.
pub open spec fn spec_encode_items(items: Seq<SpecBencode>, i: int) -> Seq<u8>
    decreases items, 1int, items.len() - i,
{
    if i < 0 || i >= items.len() {
        Seq::empty()
    } else {
        spec_encode(items[i]) + spec_encode_items(items, i + 1)
    }
}

/// The concatenated encodings of the dictionary entries from index `i` on,
/// each a byte-string key followed by its value.
pub open spec fn spec_encode_entries(entries: Seq<(Seq<u8>, SpecBencode)>, i: int) -> Seq<u8>
    decreases entries, 1int, entries.len() - i,
{
    if i < 0 || i >= entries.len() {
        Seq::empty()
    } else {
        spec_str_bytes(entries[i].0) + spec_encode(entries[i].1) + spec_encode_entries(
            entries,
            i + 1,
        )
    }
}

/// Whether `b` is an ASCII decimal digit.
pub open spec fn is_digit(b: u8) -> bool {
    48 <= b && b <= 57
}

/// Scan a maximal run of decimal digits starting at `pos`, folding each onto
/// `acc`; yields the folded value and the index just past the run.
pub open spec fn spec_scan_digits(s: Seq<u8>, pos: int, acc: int) -> (int, int)
    decreases s.len() - pos,
{
    if 0 <= pos < s.len() && is_digit(s[pos]) {
        spec_scan_digits(s, pos + 1, acc * 10 + (s[pos] - 48))
    } else {
        (acc, pos)
    }
}

/// Decode a length-prefixed byte string at `pos`: `<len>:<bytes>`. Yields the
/// bytes and the index just past them; `None` when `pos` does not start with
/// a digit, the colon is missing, or fewer than `len` bytes remain.
pub open spec fn spec_decode_str(s: Seq<u8>, pos: int) -> Option<(Seq<u8>, int)> {
    if 0 <= pos < s.len() && is_digit(s[pos]) {
        let (len, dpos) = spec_scan_digits(s, pos, 0);
        if dpos < s.len() && s[dpos] == 58 && dpos + 1 + len <= s.len() {
            Some((s.subrange(dpos + 1, dpos + 1 + len), dpos + 1 + len))
        } else {
            None
        }
    } else {
        None
    }
}

/// Decode an integer at `pos`: `i`, an optional minus sign, at least one
/// digit, then `e`. Values outside the 64-bit signed range are rejected.
pub open spec fn spec_decode_int(s: Seq<u8>, pos: int) -> Option<(SpecBencode, int)> {
    let neg = pos + 1 < s.len() && s[pos + 1] == 45;
    let dstart = if neg {
        pos + 2
    } else {
        pos + 1
    };
    if dstart < s.len() && is_digit(s[dstart]) {
        let (mag, dpos) = spec_scan_digits(s, dstart, 0);
        let value = if neg {
            -mag
        } else {
            mag
        };
        if dpos < s.len() && s[dpos] == 101 && i64::MIN <= value <= i64::MAX {
            Some((SpecBencode::Int(value), dpos + 1))
        } else {
            None
        }
    } else {
        None
    }
}

/// Decode the value starting at `pos`: dispatch on the leading byte as the
/// format prescribes. Yields the value and the index just past it.
pub open spec fn spec_decode_at(s: Seq<u8>, pos: int) -> Option<(SpecBencode, int)>
    decreases s.len() - pos, 0int,
{
    if !(0 <= pos < s.len()) {
        None
    } else if s[pos] == 105 {
        spec_decode_int(s, pos)
    } else if s[pos] == 108 {
        match spec_decode_items(s, pos + 1) {
            Some((items, end)) => Some((SpecBencode::List(items), end)),
            None => None,
        }
    } else if s[pos] == 100 {
        match spec_decode_entries(s, pos + 1) {
            Some((entries, end)) => Some((SpecBencode::Dict(entries), end)),
            None => None,
        }
    } else if is_digit(s[pos]) {
        match spec_decode_str(s, pos) {
            Some((b, end)) => Some((SpecBencode::Bytes(b), end)),
            None => None,
        }
    } else {
        None
    }
}

/// Decode list items from `pos` until a terminating `e`.
pub open spec fn spec_decode_items(s: Seq<u8>, pos: int) -> Option<(Seq<SpecBencode>, int)>
    decreases s.len() - pos, 1int,
{
    if !(0 <= pos < s.len()) {
        None
    } else if s[pos] == 101 {
        Some((Seq::empty(), pos + 1))
    } else {
        match spec_decode_at(s, pos) {
            Some((v, vend)) => if pos < vend <= s.len() {
                match spec_decode_items(s, vend) {
                    Some((rest, end)) => Some((seq![v] + rest, end)),
                    None => None,
                }
            } else {
                None
            },
            None => None,
        }
    }
}

/// Decode dictionary entries from `pos` until a terminating `e`: alternating
/// byte-string keys and values.
pub open spec fn spec_decode_entries(s: Seq<u8>, pos: int) -> Option<
    (Seq<(Seq<u8>, SpecBencode)>, int),
>
    decreases s.len() - pos, 1int,
{
    if !(0 <= pos < s.len()) {
        None
    } else if s[pos] == 101 {
        Some((Seq::empty(), pos + 1))
    } else {
        match spec_decode_str(s, pos) {
            Some((k, kend)) => if pos < kend <= s.len() {
                match spec_decode_at(s, kend) {
                    Some((v, vend)) => if kend < vend <= s.len() {
                        match spec_decode_entries(s, vend) {
                            Some((rest, end)) => Some((seq![(k, v)] + rest, end)),
                            None => None,
                        }
                    } else {
                        None
                    },
                    None => None,
                }
            } else {
                None
            },
            None => None,
        }
    }
}

/// Folding further digits onto a non-negative accumulator never shrinks it.
proof fn lemma_scan_ge(s: Seq<u8>, pos: int, acc: int)
    requires
        acc >= 0,
    ensures
        spec_scan_digits(s, pos, acc).0 >= acc,
    decreases s.len() - pos,
{
    if 0 <= pos < s.len() && is_digit(s[pos]) {
        let acc2 = acc * 10 + (s[pos] - 48);
        assert(acc2 >= acc) by (nonlinear_arith)
            requires
                acc >= 0,
                acc2 == acc * 10 + (s[pos] - 48),
                48 <= s[pos] <= 57,
        ;
        lemma_scan_ge(s, pos + 1, acc2);
    }
}

/// Exec counterpart of [`spec_scan_digits`] started with accumulator zero;
/// reports `None` for a run whose value does not fit a `u64`.
fn scan_digits(input: &Vec<u8>, pos: usize) -> (r: (Option<u64>, usize))
    requires
        pos <= input@.len(),
    ensures
        r.1 as int == spec_scan_digits(input@, pos as int, 0).1,
        pos <= r.1 <= input@.len(),
        match r.0 {
            Some(a) => a as int == spec_scan_digits(input@, pos as int, 0).0,
            None => spec_scan_digits(input@, pos as int, 0).0 > u64::MAX,
        },
{
    let ghost s = input@;
    let mut cur = pos;
    let mut acc: Option<u64> = Some(0);
    let ghost mut gacc: int = 0;
    loop
        invariant
            pos <= cur <= s.len(),
            input@ == s,
            gacc >= 0,
            spec_scan_digits(s, pos as int, 0) == spec_scan_digits(s, cur as int, gacc),
            match acc {
                Some(a) => a as int == gacc,
                None => gacc > u64::MAX,
            },
        ensures
            cur as int == spec_scan_digits(s, pos as int, 0).1,
            match acc {
                Some(a) => a as int == spec_scan_digits(s, pos as int, 0).0,
                None => spec_scan_digits(s, pos as int, 0).0 > u64::MAX,
            },
        decreases s.len() - cur,
    {
        if cur >= input.len() || input[cur] < 48 || input[cur] > 57 {
            proof {
                if gacc > u64::MAX {
                    lemma_scan_ge(s, cur as int, gacc);
                }
            }
            break ;
        }
        let d = input[cur] - 48;
        let ghost gacc0 = gacc;
        proof {
            gacc = gacc * 10 + d;
        }
        acc = match acc {
            Some(a) => {
                match a.checked_mul(10) {
                    Some(m10) => m10.checked_add(d as u64),
                    None => None,
                }
            },
            None => None,
        };
        proof {
            if acc is None {
                assert(gacc > u64::MAX) by (nonlinear_arith)
                    requires
                        gacc == gacc0 * 10 + d,
                        gacc0 >= 0,
                        0 <= d <= 9,
                        gacc0 * 10 > u64::MAX || gacc0 * 10 + d > u64::MAX || gacc0 > u64::MAX,
                ;
            }
        }
        cur = cur + 1;
    }
    (acc, cur)
}

/// Exec counterpart of [`spec_decode_str`].
fn decode_str(input: &Vec<u8>, pos: usize) -> (r: Result<(Vec<u8>, usize), ClientError>)
    requires
        pos < input@.len(),
        is_digit(input@[pos as int]),
    ensures
        match r {
            Ok((b, end)) => spec_decode_str(input@, pos as int) == Some(
                (b@, end as int),
            ) && pos < end <= input@.len(),
            Err(e) => spec_decode_str(input@, pos as int) is None && e
                == ClientError::MalformedEncoding,
        },
{
    let (len_opt, dpos) = scan_digits(input, pos);
    if dpos >= input.len() || input[dpos] != 58 {
        return Err(ClientError::MalformedEncoding);
    }
    let remaining = input.len() - (dpos + 1);
    let len = match len_opt {
        Some(l) => l,
        None => {
            proof {
                assert(spec_scan_digits(input@, pos as int, 0).0 > remaining as int);
            }
            return Err(ClientError::MalformedEncoding);
        },
    };
    if len > remaining as u64 {
        return Err(ClientError::MalformedEncoding);
    }
    let blen: usize = len as usize;
    let start = dpos + 1;
    assert(start + blen <= input.len());
    let mut b: Vec<u8> = Vec::new();
    for j in 0..blen
        invariant
            start + blen <= input@.len(),
            start + blen <= usize::MAX,
            b@ =~= input@.subrange(start as int, start as int + j as int),
    {
        b.push(input[start + j]);
    }
    proof {
        assert(b@ =~= input@.subrange(start as int, start as int + blen as int));
    }
    Ok((b, start + blen))
}

/// Exec counterpart of [`spec_decode_int`]; `pos` points at the leading `i`.
fn decode_int(input: &Vec<u8>, pos: usize) -> (r: Result<(i64, usize), ClientError>)
    requires
        pos < input@.len(),
    ensures
        match r {
            Ok((v, end)) => spec_decode_int(input@, pos as int) == Some(
                (SpecBencode::Int(v as int), end as int),
            ) && pos < end <= input@.len(),
            Err(e) => spec_decode_int(input@, pos as int) is None && e
                == ClientError::MalformedEncoding,
        },
{
    let n = input.len();
    let neg = pos + 1 < n && input[pos + 1] == 45;
    let dstart = if neg {
        pos + 2
    } else {
        pos + 1
    };
    if dstart >= input.len() || input[dstart] < 48 || input[dstart] > 57 {
        return Err(ClientError::MalformedEncoding);
    }
    let (mag_opt, dpos) = scan_digits(input, dstart);
    if dpos >= input.len() || input[dpos] != 101 {
        return Err(ClientError::MalformedEncoding);
    }
    let mag = match mag_opt {
        Some(m) => m,
        None => {
            return Err(ClientError::MalformedEncoding);
        },
    };
    if neg {
        if mag > 9223372036854775808u64 {
            return Err(ClientError::MalformedEncoding);
        }
        let v: i64 = if mag == 9223372036854775808u64 {
            i64::MIN
        } else {
            -(mag as i64)
        };
        Ok((v, dpos + 1))
    } else {
        if mag > i64::MAX as u64 {
            return Err(ClientError::MalformedEncoding);
        }
        Ok((mag as i64, dpos + 1))
    }
}

/// Exec counterpart of [`spec_decode_at`]: decode one value at `pos`.
fn decode_at(input: &Vec<u8>, pos: usize) -> (r: Result<(BencodeValue, usize), ClientError>)
    requires
        pos <= input@.len(),
    ensures
        match r {
            Ok((v, end)) => spec_decode_at(input@, pos as int) == Some(
                (v@, end as int),
            ) && pos < end <= input@.len(),
            Err(e) => spec_decode_at(input@, pos as int) is None && e
                == ClientError::MalformedEncoding,
        },
    decreases input@.len() - pos,
{
    let n = input.len();
    if pos >= n {
        return Err(ClientError::MalformedEncoding);
    }
    let b = input[pos];
    if b == 105 {
        match decode_int(input, pos) {
            Ok((v, end)) => Ok((BencodeValue::Int(v), end)),
            Err(e) => Err(e),
        }
    } else if b == 108 {
        let mut items: Vec<BencodeValue> = Vec::new();
        let mut cur = pos + 1;
        proof {
            if let Some((rest, end)) = spec_decode_items(input@, cur as int) {
                assert(seq_views(items@) + rest =~= rest);
            }
        }
        loop
            invariant
                pos < cur <= n,
                n == input@.len(),
                pos <= input@.len(),
                input@[pos as int] == 108,
                match spec_decode_items(input@, cur as int) {
                    Some((rest, end)) => spec_decode_items(input@, pos + 1) == Some(
                        (seq_views(items@) + rest, end),
                    ),
                    None => spec_decode_items(input@, pos + 1) is None,
                },
            decreases n - cur,
        {
            if cur >= n {
                return Err(ClientError::MalformedEncoding);
            }
            if input[cur] == 101 {
                proof {
                    assert(seq_views(items@) + Seq::<SpecBencode>::empty() =~= seq_views(
                        items@,
                    ));
                }
                return Ok((BencodeValue::List(items), cur + 1));
            }
            let (v, vend) = match decode_at(input, cur) {
                Ok(p) => p,
                Err(e) => {
                    return Err(e);
                },
            };
            proof {
                let s = input@;
                let a = seq_views(items@);
                assert(seq_views(items@.push(v)) =~= a + seq![v@]);
                assert(spec_decode_items(s, cur as int) == (match spec_decode_items(
                    s,
                    vend as int,
                ) {
                    Some((rest, end)) => Some::<(Seq<SpecBencode>, int)>(
                        (seq![v@] + rest, end),
                    ),
                    None => None::<(Seq<SpecBencode>, int)>,
                }));
                if let Some((rest, end)) = spec_decode_items(s, vend as int) {
                    assert(a + (seq![v@] + rest) =~= (a + seq![v@]) + rest);
                }
            }
            items.push(v);
            cur = vend;
        }
    } else if b == 100 {
        let mut entries: Vec<(Vec<u8>, BencodeValue)> = Vec::new();
        let mut cur = pos + 1;
        proof {
            if let Some((rest, end)) = spec_decode_entries(input@, cur as int) {
                assert(entry_views(entries@) + rest =~= rest);
            }
        }
        loop
            invariant
                pos < cur <= n,
                n == input@.len(),
                pos <= input@.len(),
                input@[pos as int] == 100,
                match spec_decode_entries(input@, cur as int) {
                    Some((rest, end)) => spec_decode_entries(input@, pos + 1) == Some(
                        (entry_views(entries@) + rest, end),
                    ),
                    None => spec_decode_entries(input@, pos + 1) is None,
                },
            decreases n - cur,
        {
            if cur >= n {
                return Err(ClientError::MalformedEncoding);
            }
            if input[cur] == 101 {
                proof {
                    assert(entry_views(entries@) + Seq::<(Seq<u8>, SpecBencode)>::empty()
                        =~= entry_views(entries@));
                }
                return Ok((BencodeValue::Dict(entries), cur + 1));
            }
            if input[cur] < 48 || input[cur] > 57 {
                return Err(ClientError::MalformedEncoding);
            }
            let (k, kend) = match decode_str(input, cur) {
                Ok(p) => p,
                Err(e) => {
                    return Err(e);
                },
            };
            let (v, vend) = match decode_at(input, kend) {
                Ok(p) => p,
                Err(e) => {
                    return Err(e);
                },
            };
            proof {
                let s = input@;
                let a = entry_views(entries@);
                assert(entry_views(entries@.push((k, v))) =~= a + seq![(k@, v@)]);
                assert(spec_decode_entries(s, cur as int) == (match spec_decode_entries(
                    s,
                    vend as int,
                ) {
                    Some((rest, end)) => Some::<(Seq<(Seq<u8>, SpecBencode)>, int)>(
                        (seq![(k@, v@)] + rest, end),
                    ),
                    None => None::<(Seq<(Seq<u8>, SpecBencode)>, int)>,
                }));
                if let Some((rest, end)) = spec_decode_entries(s, vend as int) {
                    assert(a + (seq![(k@, v@)] + rest) =~= (a + seq![(k@, v@)]) + rest);
                }
            }
            entries.push((k, v));
            cur = vend;
        }
    } else if b >= 48 && b <= 57 {
        match decode_str(input, pos) {
            Ok((bytes, end)) => Ok((BencodeValue::Bytes(bytes), end)),
            Err(e) => Err(e),
        }
    } else {
        Err(ClientError::MalformedEncoding)
    }
}

/// Decode the bencode value starting at the first byte of `input`. On
/// success, yields the value and the index of the first byte past it (the
/// remainder of the input starts there). Any syntax fault yields
/// `MalformedEncoding`, exactly when [`spec_decode_at`] is `None`.
pub fn decode(input: &Vec<u8>) -> (r: Result<(BencodeValue, usize), ClientError>)
    ensures
        match r {
            Ok((v, end)) => spec_decode_at(input@, 0) == Some((v@, end as int)) && 0 < end
                <= input@.len(),
            Err(e) => spec_decode_at(input@, 0) is None && e == ClientError::MalformedEncoding,
        },
{
    decode_at(input, 0)
}

/// Append the decimal digits of `n`, most significant first.
fn push_digits(n: u64, out: &mut Vec<u8>)
    ensures
        final(out)@ == old(out)@ + spec_digits(n as int),
    decreases n,
{
    if n < 10 {
        out.push(48 + n as u8);
        assert(out@ =~= old(out)@ + spec_digits(n as int));
    } else {
        push_digits(n / 10, out);
        out.push(48 + (n % 10) as u8);
        assert(out@ =~= old(out)@ + spec_digits(n as int));
    }
}

/// Append the length-prefixed encoding of a byte string: `<len>:<bytes>`.
fn push_str_bytes(b: &Vec<u8>, out: &mut Vec<u8>)
    ensures
        final(out)@ == old(out)@ + spec_str_bytes(b@),
{
    push_digits(b.len() as u64, out);
    out.push(58);
    let ghost mid = out@;
    for j in 0..b.len()
        invariant
            out@ =~= mid + b@.subrange(0, j as int),
            b@.len() == b.len(),
    {
        out.push(b[j]);
        proof {
            assert(out@ =~= mid + b@.subrange(0, j + 1));
        }
    }
    proof {
        assert(b@.subrange(0, b@.len() as int) =~= b@);
        assert(out@ =~= old(out)@ + spec_str_bytes(b@));
    }
}

/// Append the canonical encoding of `v`.
#[verifier::loop_isolation(false)]
#[verifier::rlimit(30)]
fn encode_into(v: &BencodeValue, out: &mut Vec<u8>)
    ensures
        final(out)@ == old(out)@ + spec_encode(v@),
    decreases v,
{
    match v {
        BencodeValue::Int(i) => {
            out.push(105);
            if *i < 0 {
                out.push(45);
                let mag: u64 = if *i == i64::MIN {
                    9223372036854775808u64
                } else {
                    (-*i) as u64
                };
                push_digits(mag, out);
            } else {
                push_digits(*i as u64, out);
            }
            out.push(101);
            assert(out@ =~= old(out)@ + spec_encode(v@));
        },
        BencodeValue::Bytes(b) => {
            push_str_bytes(b, out);
        },
        BencodeValue::List(items) => {
            out.push(108);
            let ghost vs = seq_views(items@);
            let ghost mid = out@;
            for idx in 0..items.len()
                invariant
                    items@.len() == items.len(),
                    vs == seq_views(items@),
                    mid == old(out)@ + seq![108u8],
                    out@ + spec_encode_items(vs, idx as int) =~= mid + spec_encode_items(vs, 0),
                decreases items.len() - idx,
            {
                let ghost before = out@;
                encode_into(&items[idx], out);
                proof {
                    assert(vs[idx as int] == items@[idx as int]@);
                    assert(out@ + spec_encode_items(vs, idx + 1) =~= mid + spec_encode_items(
                        vs,
                        0,
                    ));
                }
            }
            out.push(101);
            proof {
                assert(spec_encode_items(vs, items@.len() as int) =~= Seq::<u8>::empty());
                assert(out@ =~= old(out)@ + spec_encode(v@));
            }
        },
        BencodeValue::Dict(entries) => {
            out.push(100);
            let ghost es = entry_views(entries@);
            let ghost mid = out@;
            for idx in 0..entries.len()
                invariant
                    entries@.len() == entries.len(),
                    es == entry_views(entries@),
                    mid == old(out)@ + seq![100u8],
                    out@ + spec_encode_entries(es, idx as int) =~= mid + spec_encode_entries(
                        es,
                        0,
                    ),
                decreases entries.len() - idx,
            {
                push_str_bytes(&entries[idx].0, out);
                encode_into(&entries[idx].1, out);
                proof {
                    assert(es[idx as int] == (entries@[idx as int].0@, entries@[idx as int].1@));
                    assert(out@ + spec_encode_entries(es, idx + 1) =~= mid + spec_encode_entries(
                        es,
                        0,
                    ));
                }
            }
            out.push(101);
            proof {
                assert(spec_encode_entries(es, entries@.len() as int) =~= Seq::<u8>::empty());
                assert(out@ =~= old(out)@ + spec_encode(v@));
            }
        },
    }
}

/// Encode `v` canonically. A dictionary's entries are emitted in the order
/// the value holds them; a well-formed value (see [`spec_wf`]) therefore
/// emits its keys in ascending byte order.
pub fn encode(v: &BencodeValue) -> (r: Vec<u8>)
    ensures
        r@ == spec_encode(v@),
{
    let mut out: Vec<u8> = Vec::new();
    encode_into(v, &mut out);
    proof {
        assert(Seq::<u8>::empty() + spec_encode(v@) =~= spec_encode(v@));
    }
    out
}

/// Ten to the power `k`.
pub open spec fn pow10(k: nat) -> int
    decreases k,
{
    if k == 0 {
        1
    } else {
        10 * pow10((k - 1) as nat)
    }
}

/// A non-negative number's digit run is non-empty and starts with a digit.
proof fn lemma_digits_first(n: int)
    requires
        n >= 0,
    ensures
        spec_digits(n).len() >= 1,
        is_digit(spec_digits(n)[0]),
    decreases n,
{
    if n >= 10 {
        lemma_digits_first(n / 10);
    }
}

/// Scanning across the digit run of `n` consumes exactly that run and folds
/// `n` onto the accumulator.
proof fn lemma_scan_digits_of(n: int, s: Seq<u8>, pos: int, acc: int)
    requires
        n >= 0,
        0 <= pos,
        pos + spec_digits(n).len() <= s.len(),
        s.subrange(pos, pos + spec_digits(n).len()) == spec_digits(n),
    ensures
        spec_scan_digits(s, pos, acc) == spec_scan_digits(
            s,
            pos + spec_digits(n).len(),
            acc * pow10(spec_digits(n).len()) + n,
        ),
    decreases n,
{
    let ds = spec_digits(n);
    if n < 10 {
        assert(s[pos] == ds[0]);
        assert(is_digit(s[pos]));
        assert(s[pos] - 48 == n);
        assert(pow10(1) == 10) by {
            reveal_with_fuel(pow10, 2);
        }
    } else {
        let d1 = spec_digits(n / 10);
        let l1 = d1.len();
        assert(ds == d1 + seq![(48 + n % 10) as u8]);
        assert(s.subrange(pos, pos + l1) == d1) by {
            assert forall|i: int| 0 <= i < l1 implies s.subrange(pos, pos + l1)[i] == d1[i] by {
                assert(s.subrange(pos, pos + ds.len() as int)[i] == ds[i]);
                assert(ds[i] == d1[i]);
            }
            assert(s.subrange(pos, pos + l1) =~= d1);
        }
        lemma_scan_digits_of(n / 10, s, pos, acc);
        let acc1 = acc * pow10(l1) + n / 10;
        assert(s[pos + l1] == ds[l1 as int]);
        assert(s[pos + l1] == (48 + n % 10) as u8);
        assert(is_digit(s[pos + l1]));
        assert(spec_scan_digits(s, pos + l1, acc1) == spec_scan_digits(
            s,
            pos + l1 + 1,
            acc1 * 10 + (n % 10),
        ));
        vstd::arithmetic::div_mod::lemma_fundamental_div_mod(n, 10);
        assert(acc1 * 10 + (n % 10) == acc * (10 * pow10(l1)) + n) by (nonlinear_arith)
            requires
                acc1 == acc * pow10(l1) + n / 10,
                n == 10 * (n / 10) + n % 10,
        ;
        assert(pow10(ds.len()) == 10 * pow10(l1));
    }
}

/// Splitting a subrange known to equal a concatenation into its two halves.
proof fn lemma_subrange_concat(s: Seq<u8>, pos: int, a: Seq<u8>, b: Seq<u8>)
    requires
        0 <= pos,
        pos + a.len() + b.len() <= s.len(),
        s.subrange(pos, pos + a.len() + b.len()) == a + b,
    ensures
        s.subrange(pos, pos + a.len()) == a,
        s.subrange(pos + a.len(), pos + a.len() + b.len()) == b,
{
    let whole = s.subrange(pos, pos + a.len() + b.len());
    assert forall|i: int| 0 <= i < a.len() implies s.subrange(pos, pos + a.len() as int)[i]
        == a[i] by {
        assert(whole[i] == (a + b)[i]);
    }
    assert(s.subrange(pos, pos + a.len()) =~= a);
    assert forall|i: int| 0 <= i < b.len() implies s.subrange(
        pos + a.len(),
        pos + a.len() + b.len(),
    )[i] == b[i] by {
        assert(whole[a.len() + i] == (a + b)[a.len() + i]);
    }
    assert(s.subrange(pos + a.len(), pos + a.len() + b.len()) =~= b);
}

/// Every encoding is at least two bytes long and starts with `i`, `l`, `d`,
/// or a digit; in particular it never starts with the terminator `e`.
proof fn lemma_encode_first(v: SpecBencode)
    ensures
        spec_encode(v).len() >= 2,
        spec_encode(v)[0] == 105 || spec_encode(v)[0] == 108 || spec_encode(v)[0] == 100
            || is_digit(spec_encode(v)[0]),
{
    match v {
        SpecBencode::Int(i) => {
            if i < 0 {
                lemma_digits_first(-i);
            } else {
                lemma_digits_first(i);
            }
        },
        SpecBencode::Bytes(b) => {
            lemma_digits_first(b.len() as int);
            assert(spec_encode(v)[0] == spec_digits(b.len() as int)[0]);
        },
        SpecBencode::List(items) => {},
        SpecBencode::Dict(entries) => {},
    }
}

/// Decoding the encoding of a byte string, embedded at `pos`, yields the
/// string back and stops right after it.
proof fn lemma_decode_str_encode(b: Seq<u8>, s: Seq<u8>, pos: int)
    requires
        0 <= pos,
        pos + spec_str_bytes(b).len() <= s.len(),
        s.subrange(pos, pos + spec_str_bytes(b).len()) == spec_str_bytes(b),
    ensures
        spec_decode_str(s, pos) == Some((b, pos + spec_str_bytes(b).len())),
{
    let l = b.len() as int;
    let ds = spec_digits(l);
    let dl = ds.len();
    lemma_digits_first(l);
    let enc = spec_str_bytes(b);
    assert(enc == (ds + seq![58u8]) + b) by {
        assert(ds + seq![58u8] + b =~= (ds + seq![58u8]) + b);
    }
    lemma_subrange_concat(s, pos, ds + seq![58u8], b);
    lemma_subrange_concat(s, pos, ds, seq![58u8]);
    assert(s[pos] == ds[0]);
    assert(is_digit(s[pos]));
    assert(s[pos + dl] == 58) by {
        assert(s.subrange(pos + dl, pos + dl + 1)[0] == seq![58u8][0]);
    }
    lemma_scan_digits_of(l, s, pos, 0);
    assert(!is_digit(58u8));
    assert(spec_scan_digits(s, pos + dl, 0 * pow10(dl) + l) == (0 * pow10(dl) + l, pos + dl));
    assert(0 * pow10(dl) + l == l) by (nonlinear_arith);
    assert(spec_scan_digits(s, pos, 0) == (l, pos + dl));
    assert(s.subrange(pos + dl + 1, pos + dl + 1 + l) == b);
}

/// Decoding the encoding of a well-formed value, embedded at `pos`, yields
/// the value back and stops right after it: the round-trip law at any
/// position, with any bytes around the embedding.
pub proof fn lemma_decode_encode_at(v: SpecBencode, s: Seq<u8>, pos: int)
    requires
        spec_wf(v),
        0 <= pos,
        pos + spec_encode(v).len() <= s.len(),
        s.subrange(pos, pos + spec_encode(v).len()) == spec_encode(v),
    ensures
        spec_decode_at(s, pos) == Some((v, pos + spec_encode(v).len())),
    decreases v, 0int, 0int,
{
    let enc = spec_encode(v);
    assert(s[pos] == enc[0]);
    match v {
        SpecBencode::Int(i) => {
            let ib = spec_int_bytes(i);
            assert(enc == (seq![105u8] + ib) + seq![101u8]) by {
                assert(seq![105u8] + ib + seq![101u8] =~= (seq![105u8] + ib) + seq![101u8]);
            }
            lemma_subrange_concat(s, pos, seq![105u8] + ib, seq![101u8]);
            lemma_subrange_concat(s, pos, seq![105u8], ib);
            assert(s[pos] == 105);
            assert(s[pos + 1 + ib.len()] == 101) by {
                assert(s.subrange(pos + 1 + ib.len(), pos + 1 + ib.len() + 1)[0]
                    == seq![101u8][0]);
            }
            if i < 0 {
                let ds = spec_digits(-i);
                lemma_digits_first(-i);
                assert(ib == seq![45u8] + ds);
                lemma_subrange_concat(s, pos + 1, seq![45u8], ds);
                assert(s[pos + 1] == 45) by {
                    assert(s.subrange(pos + 1, pos + 2)[0] == seq![45u8][0]);
                }
                assert(s[pos + 2] == ds[0]);
                lemma_scan_digits_of(-i, s, pos + 2, 0);
                assert(0 * pow10(ds.len()) + (-i) == -i) by (nonlinear_arith);
                assert(!is_digit(101u8));
                assert(spec_scan_digits(s, pos + 2, 0) == (-i, pos + 2 + ds.len()));
                assert(spec_decode_int(s, pos) == Some(
                    (SpecBencode::Int(i), pos + enc.len()),
                ));
            } else {
                let ds = spec_digits(i);
                lemma_digits_first(i);
                assert(ib == ds);
                assert(s[pos + 1] == ds[0]);
                assert(is_digit(s[pos + 1]));
                assert(s[pos + 1] != 45);
                lemma_scan_digits_of(i, s, pos + 1, 0);
                assert(0 * pow10(ds.len()) + i == i) by (nonlinear_arith);
                assert(!is_digit(101u8));
                assert(spec_scan_digits(s, pos + 1, 0) == (i, pos + 1 + ds.len()));
                assert(spec_decode_int(s, pos) == Some(
                    (SpecBencode::Int(i), pos + enc.len()),
                ));
            }
        },
        SpecBencode::Bytes(b) => {
            lemma_digits_first(b.len() as int);
            assert(s[pos] == spec_digits(b.len() as int)[0]);
            assert(is_digit(s[pos]));
            lemma_decode_str_encode(b, s, pos);
        },
        SpecBencode::List(items) => {
            let body = spec_encode_items(items, 0);
            assert(enc == (seq![108u8] + body) + seq![101u8]) by {
                assert(seq![108u8] + body + seq![101u8] =~= (seq![108u8] + body) + seq![101u8]);
            }
            lemma_subrange_concat(s, pos, seq![108u8] + body, seq![101u8]);
            lemma_subrange_concat(s, pos, seq![108u8], body);
            assert(s[pos] == 108);
            assert(s[pos + 1 + body.len()] == 101) by {
                assert(s.subrange(pos + 1 + body.len(), pos + 1 + body.len() + 1)[0]
                    == seq![101u8][0]);
            }
            lemma_decode_items_encode(items, 0, s, pos + 1);
            assert(items.skip(0) =~= items);
        },
        SpecBencode::Dict(entries) => {
            let body = spec_encode_entries(entries, 0);
            assert(enc == (seq![100u8] + body) + seq![101u8]) by {
                assert(seq![100u8] + body + seq![101u8] =~= (seq![100u8] + body) + seq![101u8]);
            }
            lemma_subrange_concat(s, pos, seq![100u8] + body, seq![101u8]);
            lemma_subrange_concat(s, pos, seq![100u8], body);
            assert(s[pos] == 100);
            assert(s[pos + 1 + body.len()] == 101) by {
                assert(s.subrange(pos + 1 + body.len(), pos + 1 + body.len() + 1)[0]
                    == seq![101u8][0]);
            }
            lemma_decode_entries_encode(entries, 0, s, pos + 1);
            assert(entries.skip(0) =~= entries);
        },
    }
}

/// Decoding the concatenated encodings of items `k..` followed by the list
/// terminator yields exactly those items.
proof fn lemma_decode_items_encode(items: Seq<SpecBencode>, k: int, s: Seq<u8>, pos: int)
    requires
        0 <= k <= items.len(),
        forall|j: int| 0 <= j < items.len() ==> spec_wf(#[trigger] items[j]),
        0 <= pos,
        pos + spec_encode_items(items, k).len() + 1 <= s.len(),
        s.subrange(pos, pos + spec_encode_items(items, k).len()) == spec_encode_items(items, k),
        s[pos + spec_encode_items(items, k).len()] == 101,
    ensures
        spec_decode_items(s, pos) == Some(
            (items.skip(k), pos + spec_encode_items(items, k).len() + 1),
        ),
    decreases items, 1int, items.len() - k,
{
    let body = spec_encode_items(items, k);
    if k == items.len() {
        assert(body.len() == 0);
        assert(s[pos] == 101);
        assert(items.skip(k) =~= Seq::empty());
    } else {
        let head = spec_encode(items[k]);
        let tail = spec_encode_items(items, k + 1);
        assert(body == head + tail);
        lemma_subrange_concat(s, pos, head, tail);
        lemma_encode_first(items[k]);
        assert(s[pos] == head[0]);
        assert(s[pos] != 101);
        lemma_decode_encode_at(items[k], s, pos);
        let vend = pos + head.len();
        assert(s.subrange(vend, vend + tail.len()) == tail);
        assert(s[vend + tail.len()] == 101);
        lemma_decode_items_encode(items, k + 1, s, vend);
        assert(seq![items[k]] + items.skip(k + 1) =~= items.skip(k));
    }
}

/// Decoding the concatenated encodings of entries `k..` followed by the
/// dictionary terminator yields exactly those entries.
proof fn lemma_decode_entries_encode(
    entries: Seq<(Seq<u8>, SpecBencode)>,
    k: int,
    s: Seq<u8>,
    pos: int,
)
    requires
        0 <= k <= entries.len(),
        forall|j: int| 0 <= j < entries.len() ==> spec_wf(#[trigger] entries[j].1),
        0 <= pos,
        pos + spec_encode_entries(entries, k).len() + 1 <= s.len(),
        s.subrange(pos, pos + spec_encode_entries(entries, k).len()) == spec_encode_entries(
            entries,
            k,
        ),
        s[pos + spec_encode_entries(entries, k).len()] == 101,
    ensures
        spec_decode_entries(s, pos) == Some(
            (entries.skip(k), pos + spec_encode_entries(entries, k).len() + 1),
        ),
    decreases entries, 1int, entries.len() - k,
{
    let body = spec_encode_entries(entries, k);
    if k == entries.len() {
        assert(body.len() == 0);
        assert(s[pos] == 101);
        assert(entries.skip(k) =~= Seq::empty());
    } else {
        let kb = spec_str_bytes(entries[k].0);
        let vb = spec_encode(entries[k].1);
        let tail = spec_encode_entries(entries, k + 1);
        assert(body == kb + vb + tail);
        assert(body == (kb + vb) + tail) by {
            assert(kb + vb + tail =~= (kb + vb) + tail);
        }
        lemma_subrange_concat(s, pos, kb + vb, tail);
        lemma_subrange_concat(s, pos, kb, vb);
        lemma_digits_first(entries[k].0.len() as int);
        assert(s[pos] == kb[0]);
        assert(kb[0] == spec_digits(entries[k].0.len() as int)[0]);
        assert(is_digit(s[pos]));
        assert(s[pos] != 101);
        lemma_decode_str_encode(entries[k].0, s, pos);
        let kend = pos + kb.len();
        lemma_decode_encode_at(entries[k].1, s, kend);
        let vend = kend + vb.len();
        assert(s.subrange(vend, vend + tail.len()) == tail);
        assert(s[vend + tail.len()] == 101);
        lemma_decode_entries_encode(entries, k + 1, s, vend);
        assert(seq![(entries[k].0, entries[k].1)] + entries.skip(k + 1) =~= entries.skip(k));
    }
}

/// Round-trip law: for every valid bencode value, decoding its encoding
/// yields the value back, consuming exactly the encoded bytes.
pub proof fn lemma_round_trip(v: SpecBencode)
    requires
        spec_wf(v),
    ensures
        spec_decode_at(spec_encode(v), 0) == Some((v, spec_encode(v).len() as int)),
{
    let enc = spec_encode(v);
    assert(enc.subrange(0, enc.len() as int) =~= enc);
    lemma_decode_encode_at(v, enc, 0);
}

/// The value bound to `key` from entry `i` on: the first match wins.
pub open spec fn spec_dict_get_from(
    entries: Seq<(Seq<u8>, SpecBencode)>,
    key: Seq<u8>,
    i: int,
) -> Option<SpecBencode>
    decreases entries.len() - i,
{
    if i < 0 || i >= entries.len() {
        None
    } else if entries[i].0 == key {
        Some(entries[i].1)
    } else {
        spec_dict_get_from(entries, key, i + 1)
    }
}

/// The value bound to `key` in a dictionary's entries, if any.
pub open spec fn spec_dict_get(entries: Seq<(Seq<u8>, SpecBencode)>, key: Seq<u8>) -> Option<
    SpecBencode,
> {
    spec_dict_get_from(entries, key, 0)
}

/// Byte-for-byte equality of two vectors.
pub fn bytes_eq(a: &Vec<u8>, b: &Vec<u8>) -> (r: bool)
    ensures
        r == (a@ == b@),
{
    let n = a.len();
    if n != b.len() {
        proof {
            if a@ == b@ {
                assert(a@.len() == b@.len());
            }
        }
        return false;
    }
    for i in 0..n
        invariant
            n == a@.len(),
            n == b@.len(),
            forall|j: int| 0 <= j < i ==> a@[j] == b@[j],
    {
        if a[i] != b[i] {
            return false;
        }
    }
    proof {
        assert(a@ =~= b@);
    }
    true
}

/// Look `key` up in a dictionary's entries; the first match wins.
pub fn dict_get<'a>(entries: &'a Vec<(Vec<u8>, BencodeValue)>, key: &Vec<u8>) -> (r: Option<
    &'a BencodeValue,
>)
    ensures
        match r {
            Some(v) => spec_dict_get(entry_views(entries@), key@) == Some(v@),
            None => spec_dict_get(entry_views(entries@), key@) is None,
        },
{
    let ghost ev = entry_views(entries@);
    let n = entries.len();
    for i in 0..n
        invariant
            n == entries@.len(),
            ev == entry_views(entries@),
            ev.len() == n,
            spec_dict_get_from(ev, key@, 0) == spec_dict_get_from(ev, key@, i as int),
    {
        if bytes_eq(&entries[i].0, key) {
            proof {
                assert(ev[i as int].0 == entries@[i as int].0@);
            }
            return Some(&entries[i].1);
        }
        proof {
            assert(ev[i as int].0 == entries@[i as int].0@);
        }
    }
    None
}

/// No byte sequence comes before itself.
pub proof fn lemma_lex_irrefl(a: Seq<u8>)
    ensures
        !lex_lt(a, a),
    decreases a.len(),
{
    if a.len() > 0 {
        lemma_lex_irrefl(a.drop_first());
    }
}

/// The order runs one way only.
pub proof fn lemma_lex_asym(a: Seq<u8>, b: Seq<u8>)
    requires
        lex_lt(a, b),
    ensures
        !lex_lt(b, a),
        a != b,
    decreases a.len(),
{
    lemma_lex_irrefl(a);
    if a.len() > 0 && b.len() > 0 && a[0] == b[0] {
        lemma_lex_asym(a.drop_first(), b.drop_first());
        assert(a.drop_first() != b.drop_first());
    }
}

/// The order is transitive.
pub proof fn lemma_lex_trans(a: Seq<u8>, b: Seq<u8>, c: Seq<u8>)
    requires
        lex_lt(a, b),
        lex_lt(b, c),
    ensures
        lex_lt(a, c),
    decreases a.len(),
{
    if a.len() > 0 && b.len() > 0 && c.len() > 0 && a[0] == b[0] && b[0] == c[0] {
        lemma_lex_trans(a.drop_first(), b.drop_first(), c.drop_first());
    }
}

/// Any two byte sequences are ordered or equal.
pub proof fn lemma_lex_total(a: Seq<u8>, b: Seq<u8>)
    ensures
        lex_lt(a, b) || lex_lt(b, a) || a == b,
    decreases a.len(),
{
    if a.len() > 0 && b.len() > 0 && a[0] == b[0] {
        lemma_lex_total(a.drop_first(), b.drop_first());
        if a.drop_first() == b.drop_first() {
            assert(a =~= b) by {
                assert forall|i: int| 0 <= i < a.len() implies a[i] == b[i] by {
                    if i > 0 {
                        assert(a[i] == a.drop_first()[i - 1]);
                        assert(b[i] == b.drop_first()[i - 1]);
                    }
                }
            }
        }
    }
}

/// In a sorted entry list, every earlier key comes before every later one;
/// in particular, the canonical encoding, which emits the entries in list
/// order, emits the keys in strictly ascending byte order.
pub proof fn lemma_dict_keys_ascending(es: Seq<(Seq<u8>, SpecBencode)>, i: int, j: int)
    requires
        entries_sorted(es),
        0 <= i < j < es.len(),
    ensures
        lex_lt(es[i].0, es[j].0),
    decreases j - i,
{
    if i + 1 == j {
    } else {
        lemma_dict_keys_ascending(es, i + 1, j);
        lemma_lex_trans(es[i].0, es[i + 1].0, es[j].0);
    }
}

/// The mapping a dictionary's entries represent; an earlier entry wins over
/// a later one with the same key, as lookup does.
pub open spec fn entries_map(es: Seq<(Seq<u8>, SpecBencode)>) -> Map<Seq<u8>, SpecBencode>
    decreases es.len(),
{
    if es.len() == 0 {
        Map::empty()
    } else {
        entries_map(es.drop_first()).insert(es[0].0, es[0].1)
    }
}

/// A key is in the mapping exactly when some entry binds it.
pub proof fn lemma_entries_map_dom(es: Seq<(Seq<u8>, SpecBencode)>, k: Seq<u8>)
    ensures
        entries_map(es).contains_key(k) <==> exists|i: int| 0 <= i < es.len() && es[i].0 == k,
    decreases es.len(),
{
    if es.len() > 0 {
        lemma_entries_map_dom(es.drop_first(), k);
        if es[0].0 == k {
            assert(es[0].0 == k && 0 <= 0 < es.len());
        } else if entries_map(es).contains_key(k) {
            let i = choose|i: int| 0 <= i < es.drop_first().len() && es.drop_first()[i].0 == k;
            assert(es[i + 1].0 == k);
        } else {
            if exists|i: int| 0 <= i < es.len() && es[i].0 == k {
                let i = choose|i: int| 0 <= i < es.len() && es[i].0 == k;
                assert(es.drop_first()[i - 1].0 == k);
            }
        }
    }
}

/// In a sorted entry list, the head's key is not bound again later.
proof fn lemma_sorted_head_fresh(es: Seq<(Seq<u8>, SpecBencode)>)
    requires
        entries_sorted(es),
        es.len() > 0,
    ensures
        !entries_map(es.drop_first()).contains_key(es[0].0),
        entries_sorted(es.drop_first()),
{
    let tail = es.drop_first();
    assert forall|i: int| 0 <= i < tail.len() - 1 implies lex_lt(
        #[trigger] tail[i].0,
        tail[i + 1].0,
    ) by {
        assert(tail[i] == es[i + 1]);
        assert(tail[i + 1] == es[i + 2]);
    }
    lemma_entries_map_dom(tail, es[0].0);
    if entries_map(tail).contains_key(es[0].0) {
        let i = choose|i: int| 0 <= i < tail.len() && tail[i].0 == es[0].0;
        lemma_dict_keys_ascending(es, 0, i + 1);
        lemma_lex_irrefl(es[0].0);
    }
}

/// Two sorted entry lists that represent the same mapping are the same
/// list: the canonical form of a dictionary is unique.
pub proof fn lemma_sorted_same_map(
    a: Seq<(Seq<u8>, SpecBencode)>,
    b: Seq<(Seq<u8>, SpecBencode)>,
)
    requires
        entries_sorted(a),
        entries_sorted(b),
        entries_map(a) == entries_map(b),
    ensures
        a == b,
    decreases a.len(),
{
    if a.len() == 0 && b.len() == 0 {
        assert(a =~= b);
    } else if a.len() == 0 {
        lemma_entries_map_dom(a, b[0].0);
        lemma_entries_map_dom(b, b[0].0);
    } else if b.len() == 0 {
        lemma_entries_map_dom(a, a[0].0);
        lemma_entries_map_dom(b, a[0].0);
    } else {
        let ka = a[0].0;
        let kb = b[0].0;
        lemma_entries_map_dom(a, ka);
        lemma_entries_map_dom(b, ka);
        lemma_entries_map_dom(a, kb);
        lemma_entries_map_dom(b, kb);
        let ia = choose|i: int| 0 <= i < a.len() && a[i].0 == kb;
        let ib = choose|i: int| 0 <= i < b.len() && b[i].0 == ka;
        if ia > 0 {
            lemma_dict_keys_ascending(a, 0, ia);
        }
        if ib > 0 {
            lemma_dict_keys_ascending(b, 0, ib);
        }
        lemma_lex_total(ka, kb);
        if lex_lt(ka, kb) {
            lemma_lex_asym(ka, kb);
            if ib > 0 {
                lemma_lex_trans(ka, kb, ka);
                lemma_lex_irrefl(ka);
            }
            assert(false);
        } else if lex_lt(kb, ka) {
            lemma_lex_asym(kb, ka);
            if ia > 0 {
                lemma_lex_trans(kb, ka, kb);
                lemma_lex_irrefl(kb);
            }
            assert(false);
        }
        assert(ka == kb);
        lemma_sorted_head_fresh(a);
        lemma_sorted_head_fresh(b);
        assert(entries_map(a)[ka] == a[0].1);
        assert(entries_map(b)[ka] == b[0].1);
        assert(entries_map(a.drop_first()) =~= entries_map(a).remove(ka));
        assert(entries_map(b.drop_first()) =~= entries_map(b).remove(ka));
        lemma_sorted_same_map(a.drop_first(), b.drop_first());
        assert(a[0] == (a[0].0, a[0].1));
        assert(b[0] == (b[0].0, b[0].1));
        assert(a =~= b) by {
            assert forall|i: int| 0 <= i < a.len() implies a[i] == b[i] by {
                if i > 0 {
                    assert(a.drop_first()[i - 1] == b.drop_first()[i - 1]);
                }
            }
        }
    }
}

/// A well-formed dictionary's encoding depends only on the mapping it
/// represents: two well-formed dictionaries with the same mapping encode to
/// the same bytes, whatever order their entries were put in.
pub proof fn lemma_encode_same_map(
    a: Seq<(Seq<u8>, SpecBencode)>,
    b: Seq<(Seq<u8>, SpecBencode)>,
)
    requires
        spec_wf(SpecBencode::Dict(a)),
        spec_wf(SpecBencode::Dict(b)),
        entries_map(a) == entries_map(b),
    ensures
        spec_encode(SpecBencode::Dict(a)) == spec_encode(SpecBencode::Dict(b)),
{
    assert(entries_sorted(a));
    assert(entries_sorted(b));
    lemma_sorted_same_map(a, b);
}

/// Where `key` lands in an entry list: the canonical insertion, keeping
/// ascending order and replacing the value of an equal key.
pub open spec fn spec_dict_insert(
    es: Seq<(Seq<u8>, SpecBencode)>,
    k: Seq<u8>,
    v: SpecBencode,
) -> Seq<(Seq<u8>, SpecBencode)>
    decreases es.len(),
{
    if es.len() == 0 {
        seq![(k, v)]
    } else if lex_lt(k, es[0].0) {
        seq![(k, v)] + es
    } else if k == es[0].0 {
        seq![(k, v)] + es.drop_first()
    } else {
        seq![es[0]] + spec_dict_insert(es.drop_first(), k, v)
    }
}

/// Insertion keeps an entry list sorted.
pub proof fn lemma_dict_insert_sorted(es: Seq<(Seq<u8>, SpecBencode)>, k: Seq<u8>, v: SpecBencode)
    requires
        entries_sorted(es),
    ensures
        entries_sorted(spec_dict_insert(es, k, v)),
    decreases es.len(),
{
    let r = spec_dict_insert(es, k, v);
    if es.len() == 0 {
    } else if lex_lt(k, es[0].0) {
        assert forall|i: int| 0 <= i < r.len() - 1 implies lex_lt(#[trigger] r[i].0, r[i + 1].0) by {
            if i > 0 {
                assert(r[i] == es[i - 1]);
                assert(r[i + 1] == es[i]);
            }
        }
    } else if k == es[0].0 {
        assert forall|i: int| 0 <= i < r.len() - 1 implies lex_lt(#[trigger] r[i].0, r[i + 1].0) by {
            if i > 0 {
                assert(r[i] == es[i]);
                assert(r[i + 1] == es[i + 1]);
            } else {
                assert(r[1] == es[1]);
            }
        }
    } else {
        lemma_lex_total(k, es[0].0);
        assert(lex_lt(es[0].0, k));
        lemma_sorted_head_fresh_order(es);
        lemma_dict_insert_sorted(es.drop_first(), k, v);
        let rt = spec_dict_insert(es.drop_first(), k, v);
        assert(r == seq![es[0]] + rt);
        assert forall|i: int| 0 <= i < r.len() - 1 implies lex_lt(#[trigger] r[i].0, r[i + 1].0) by {
            if i == 0 {
                assert(r[1] == rt[0]);
                if es.len() == 1 {
                    assert(rt[0] == (k, v));
                } else if lex_lt(k, es[1].0) {
                    assert(rt[0] == (k, v));
                } else if k == es[1].0 {
                    assert(rt[0] == (k, v));
                } else {
                    assert(rt[0] == es[1]);
                }
            } else {
                assert(r[i] == rt[i - 1]);
                assert(r[i + 1] == rt[i]);
            }
        }
    }
}

/// The tail of a sorted entry list is sorted.
proof fn lemma_sorted_head_fresh_order(es: Seq<(Seq<u8>, SpecBencode)>)
    requires
        entries_sorted(es),
        es.len() > 0,
    ensures
        entries_sorted(es.drop_first()),
{
    let tail = es.drop_first();
    assert forall|i: int| 0 <= i < tail.len() - 1 implies lex_lt(
        #[trigger] tail[i].0,
        tail[i + 1].0,
    ) by {
        assert(tail[i] == es[i + 1]);
        assert(tail[i + 1] == es[i + 2]);
    }
}

/// Insertion updates the mapping an entry list represents, and nothing
/// else.
pub proof fn lemma_dict_insert_map(es: Seq<(Seq<u8>, SpecBencode)>, k: Seq<u8>, v: SpecBencode)
    ensures
        entries_map(spec_dict_insert(es, k, v)) == entries_map(es).insert(k, v),
    decreases es.len(),
{
    let r = spec_dict_insert(es, k, v);
    if es.len() == 0 {
        assert(r == seq![(k, v)]);
        assert(r.drop_first() =~= Seq::<(Seq<u8>, SpecBencode)>::empty());
        assert(r.len() == 1);
        assert(r[0] == (k, v));
        assert(entries_map(r) == entries_map(r.drop_first()).insert(k, v));
        assert(entries_map(r.drop_first()) == Map::<Seq<u8>, SpecBencode>::empty());
        assert(entries_map(es) == Map::<Seq<u8>, SpecBencode>::empty());
        assert(entries_map(r) == entries_map(es).insert(k, v));
    } else if lex_lt(k, es[0].0) {
        assert((seq![(k, v)] + es).drop_first() =~= es);
        assert(entries_map(r) =~= entries_map(es).insert(k, v));
    } else if k == es[0].0 {
        assert((seq![(k, v)] + es.drop_first()).drop_first() =~= es.drop_first());
        assert(r[0] == (k, v));
        let lhs = entries_map(r);
        let rhs = entries_map(es).insert(k, v);
        assert(lhs == entries_map(es.drop_first()).insert(k, v));
        assert(entries_map(es) == entries_map(es.drop_first()).insert(es[0].0, es[0].1));
        assert(lhs.dom() =~= rhs.dom());
        assert forall|w: Seq<u8>| #[trigger] lhs.dom().contains(w) implies lhs[w] == rhs[w] by {
            if w != k {
                assert(lhs[w] == entries_map(es.drop_first())[w]);
                assert(rhs[w] == entries_map(es)[w]);
                assert(entries_map(es)[w] == entries_map(es.drop_first())[w]);
            }
        }
        assert(lhs =~= rhs);
    } else {
        lemma_lex_total(k, es[0].0);
        lemma_lex_irrefl(k);
        assert(k != es[0].0);
        lemma_dict_insert_map(es.drop_first(), k, v);
        let rt = spec_dict_insert(es.drop_first(), k, v);
        assert((seq![es[0]] + rt).drop_first() =~= rt);
        assert(r[0] == es[0]);
        assert(entries_map(r) == entries_map(rt).insert(es[0].0, es[0].1));
        assert(entries_map(rt) == entries_map(es.drop_first()).insert(k, v));
        assert(entries_map(es) == entries_map(es.drop_first()).insert(es[0].0, es[0].1));
        let lhs = entries_map(r);
        let rhs = entries_map(es).insert(k, v);
        assert(lhs.dom() =~= rhs.dom());
        assert forall|w: Seq<u8>| #[trigger] lhs.dom().contains(w) implies lhs[w] == rhs[w] by {
            if w == es[0].0 {
                assert(lhs[w] == es[0].1);
                assert(rhs[w] == entries_map(es)[w]);
                assert(entries_map(es)[w] == es[0].1);
            } else if w == k {
                assert(lhs[w] == entries_map(rt)[w]);
                assert(entries_map(rt)[w] == v);
                assert(rhs[w] == v);
            } else {
                assert(lhs[w] == entries_map(rt)[w]);
                assert(entries_map(rt)[w] == entries_map(es.drop_first())[w]);
                assert(rhs[w] == entries_map(es)[w]);
                assert(entries_map(es)[w] == entries_map(es.drop_first())[w]);
            }
        }
        assert(lhs =~= rhs);
    }
}

/// Byte-wise strict comparison, the exec counterpart of [`lex_lt`].
pub fn lex_less(a: &Vec<u8>, b: &Vec<u8>) -> (r: bool)
    ensures
        r == lex_lt(a@, b@),
{
    let na = a.len();
    let nb = b.len();
    let mut i: usize = 0;
    proof {
        assert(a@.skip(0int) =~= a@);
        assert(b@.skip(0int) =~= b@);
    }
    loop
        invariant
            na == a@.len(),
            nb == b@.len(),
            i <= na,
            i <= nb,
            lex_lt(a@, b@) == lex_lt(a@.skip(i as int), b@.skip(i as int)),
        decreases na - i,
    {
        if i >= nb {
            return false;
        }
        if i >= na {
            return true;
        }
        if a[i] < b[i] {
            return true;
        }
        if a[i] > b[i] {
            return false;
        }
        proof {
            assert(a@.skip(i as int).drop_first() =~= a@.skip(i + 1));
            assert(b@.skip(i as int).drop_first() =~= b@.skip(i + 1));
        }
        i = i + 1;
    }
}

/// Put `key` into a dictionary's entries at its ordered place, replacing
/// the value of an equal key: however the callers order their insertions,
/// the entry list stays sorted and the encoding ascending.
#[verifier::rlimit(60)]
pub fn dict_insert(entries: &mut Vec<(Vec<u8>, BencodeValue)>, key: Vec<u8>, value: BencodeValue)
    ensures
        entry_views(final(entries)@) == spec_dict_insert(
            entry_views(old(entries)@),
            key@,
            value@,
        ),
{
    let ghost es = entry_views(old(entries)@);
    let n = entries.len();
    let mut i: usize = 0;
    proof {
        assert(es.skip(0int) =~= es);
        assert(es.take(0int) + spec_dict_insert(es.skip(0int), key@, value@) =~= spec_dict_insert(
            es,
            key@,
            value@,
        ));
    }
    loop
        invariant
            n == entries@.len(),
            entries@ == old(entries)@,
            es == entry_views(entries@),
            i <= n,
            spec_dict_insert(es, key@, value@) == es.take(i as int) + spec_dict_insert(
                es.skip(i as int),
                key@,
                value@,
            ),
            forall|j: int| 0 <= j < i ==> lex_lt((#[trigger] es[j]).0, key@),
        ensures
            i <= n,
            n == entries@.len(),
            entries@ == old(entries)@,
            es == entry_views(entries@),
            spec_dict_insert(es, key@, value@) == es.take(i as int) + spec_dict_insert(
                es.skip(i as int),
                key@,
                value@,
            ),
            i < n ==> !lex_lt(es[i as int].0, key@),
        decreases n - i,
    {
        if i >= n {
            break ;
        }
        proof {
            assert(es[i as int] == (entries@[i as int].0@, entries@[i as int].1@));
        }
        if !lex_less(&entries[i].0, &key) {
            proof {
                assert(es[i as int].0 == entries@[i as int].0@);
            }
            break ;
        }
        proof {
            let tail = es.skip(i as int);
            assert(tail[0] == es[i as int]);
            assert(lex_lt(tail[0].0, key@));
            lemma_lex_asym(tail[0].0, key@);
            assert(spec_dict_insert(tail, key@, value@) == seq![tail[0]] + spec_dict_insert(
                tail.drop_first(),
                key@,
                value@,
            ));
            assert(tail.drop_first() =~= es.skip(i + 1));
            assert(es.take(i as int) + (seq![tail[0]] + spec_dict_insert(
                es.skip(i + 1),
                key@,
                value@,
            )) =~= es.take(i + 1) + spec_dict_insert(es.skip(i + 1), key@, value@));
        }
        i = i + 1;
    }
    let ghost tail = es.skip(i as int);
    if i < n {
        proof {
            assert(es[i as int] == (entries@[i as int].0@, entries@[i as int].1@));
            assert(tail[0] == es[i as int]);
        }
        if bytes_eq(&entries[i].0, &key) {
            proof {
                lemma_lex_irrefl(key@);
                assert(spec_dict_insert(tail, key@, value@) == seq![(key@, value@)]
                    + tail.drop_first());
            }
            entries.set(i, (key, value));
            proof {
                assert(entry_views(entries@) =~= es.take(i as int) + (seq![(key@, value@)]
                    + es.skip(i as int).drop_first()));
            }
            return ;
        }
        proof {
            lemma_lex_total(key@, tail[0].0);
            assert(lex_lt(key@, tail[0].0));
            assert(spec_dict_insert(tail, key@, value@) == seq![(key@, value@)] + tail);
        }
        entries.insert(i, (key, value));
        proof {
            assert(entry_views(entries@) =~= es.take(i as int) + (seq![(key@, value@)] + es.skip(
                i as int,
            )));
        }
    } else {
        proof {
            assert(tail =~= Seq::<(Seq<u8>, SpecBencode)>::empty());
            assert(spec_dict_insert(tail, key@, value@) == seq![(key@, value@)]);
        }
        entries.push((key, value));
        proof {
            assert(entry_views(entries@) =~= es.take(i as int) + seq![(key@, value@)]);
        }
    }
}

} // verus!
