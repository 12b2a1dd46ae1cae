//! Bencode values and their canonical binary codec.
//!
//! A bencode document is one of: an integer `i<digits>e`, a byte string
//! `<len>:<bytes>`, a list `l<items>e`, or a dictionary `d<key value ...>e`
//! whose keys are byte strings in strictly ascending byte-lexicographic
//! order.  Decoding rejects every non-canonical form (leading zeros,
//! negative zero, unordered or duplicate keys, trailing bytes); encoding
//! emits dictionary entries in ascending key order whatever order they were
//! constructed in.
use vstd::prelude::*;

verus! {

/// A bencode value.  Dictionaries are kept as an association list; encoding
/// sorts entries by key, and decoding only ever produces entries that are
/// already in strictly ascending key order.
#[derive(Debug, PartialEq)]
pub enum Value {
    BString(Vec<u8>),
    Integer(i64),
    List(Vec<Value>),
    Dict(Vec<(Vec<u8>, Value)>),
}

/// Why a bencode document was rejected.
#[derive(Debug, PartialEq, Eq, Clone, Copy)]
pub enum DecodeError {
    /// The document is not any bencode form, or has trailing bytes.
    InvalidValue,
    /// A byte string header or body is malformed or truncated.
    InvalidString,
    /// An integer is malformed: no digits, leading zero, negative zero,
    /// out of the signed 64-bit range, or unterminated.
    InvalidInteger,
    /// A list is unterminated.
    InvalidList,
    /// A dictionary is unterminated, or its keys are not strictly ascending.
    InvalidDict,
}

/// The mathematical shape of a `Value`: sequences in place of vectors and an
/// unbounded integer, so that contracts and laws quantify over it freely.
pub enum ValueView {
    BString(Seq<u8>),
    Integer(int),
    List(Seq<ValueView>),
    Dict(Seq<(Seq<u8>, ValueView)>),
}

pub open spec fn view_of_list(s: Seq<Value>) -> Seq<ValueView>
    decreases s,
{
    if s.len() == 0 {
        Seq::empty()
    } else {
        view_of_list(s.drop_last()).push(s.last().view())
    }
}

pub open spec fn view_of_pairs(s: Seq<(Vec<u8>, Value)>) -> Seq<(Seq<u8>, ValueView)>
    decreases s,
{
    if s.len() == 0 {
        Seq::empty()
    } else {
        view_of_pairs(s.drop_last()).push((s.last().0@, s.last().1.view()))
    }
}

impl View for Value {
    type V = ValueView;

    open spec fn view(&self) -> ValueView
        decreases self,
    {
        match self {
            Value::BString(s) => ValueView::BString(s@),
            Value::Integer(i) => ValueView::Integer(*i as int),
            Value::List(vs) => ValueView::List(view_of_list(vs@)),
            Value::Dict(ps) => ValueView::Dict(view_of_pairs(ps@)),
        }
    }
}

/// Strict byte-lexicographic order: compare byte by byte; a strict prefix
/// sorts before the longer sequence.
pub open spec fn bytes_lt(a: Seq<u8>, b: Seq<u8>) -> bool
    decreases a.len(),
{
    if b.len() == 0 {
        false
    } else if a.len() == 0 {
        true
    } else if a[0] != b[0] {
        a[0] < b[0]
    } else {
        bytes_lt(a.skip(1), b.skip(1))
    }
}

pub open spec fn bytes_le(a: Seq<u8>, b: Seq<u8>) -> bool {
    bytes_lt(a, b) || a == b
}

pub open spec fn is_digit(b: u8) -> bool {
    0x30 <= b && b <= 0x39
}

/// The decimal digits of a non-negative number, most significant first.
pub open spec fn spec_digits(n: int) -> Seq<u8>
    recommends
        n >= 0,
    decreases n,
{
    if n < 10 {
        seq![(0x30 + (if n < 0 { 0int } else { n })) as u8]
    } else {
        spec_digits(n / 10).push((0x30 + n % 10) as u8)
    }
}

/// The bencode digits of a signed number: a minus sign for negatives, then
/// the decimal digits of the magnitude.
pub open spec fn spec_int_digits(i: int) -> Seq<u8> {
    if i < 0 {
        seq![0x2du8] + spec_digits(-i)
    } else {
        spec_digits(i)
    }
}

/// The bencode encoding of a value, emitting dictionary entries in the
/// stored order.  `Value::encode` first sorts every dictionary (`deep_sort`),
/// so its output is `spec_encode(deep_sort(v))`.
pub open spec fn spec_encode(v: ValueView) -> Seq<u8>
    decreases v, 0int,
{
    match v {
        ValueView::BString(s) => spec_digits(s.len() as int) + seq![0x3au8] + s,
        ValueView::Integer(i) => seq![0x69u8] + spec_int_digits(i) + seq![0x65u8],
        ValueView::List(vs) => seq![0x6cu8] + spec_encode_items(vs) + seq![0x65u8],
        ValueView::Dict(ps) => seq![0x64u8] + spec_encode_pairs(ps) + seq![0x65u8],
    }
}

pub open spec fn spec_encode_items(vs: Seq<ValueView>) -> Seq<u8>
    decreases vs, 1int,
{
    if vs.len() == 0 {
        Seq::empty()
    } else {
        spec_encode_items(vs.drop_last()) + spec_encode(vs.last())
    }
}

pub open spec fn spec_encode_pairs(ps: Seq<(Seq<u8>, ValueView)>) -> Seq<u8>
    decreases ps, 1int,
{
    if ps.len() == 0 {
        Seq::empty()
    } else {
        spec_encode_pairs(ps.drop_last()) + spec_digits(ps.last().0.len() as int)
            + seq![0x3au8] + ps.last().0 + spec_encode(ps.last().1)
    }
}

/// Insertion of one entry into a key-sorted run of entries, before the first
/// entry whose key is not smaller.
pub open spec fn insert_pair(
    p: (Seq<u8>, ValueView),
    s: Seq<(Seq<u8>, ValueView)>,
) -> Seq<(Seq<u8>, ValueView)>
    decreases s.len(),
{
    if s.len() == 0 {
        seq![p]
    } else if bytes_le(p.0, s[0].0) {
        seq![p] + s
    } else {
        seq![s[0]] + insert_pair(p, s.skip(1))
    }
}

/// Insertion sort of dictionary entries by key.
pub open spec fn sort_pairs(s: Seq<(Seq<u8>, ValueView)>) -> Seq<(Seq<u8>, ValueView)>
    decreases s.len(),
{
    if s.len() == 0 {
        Seq::empty()
    } else {
        insert_pair(s[0], sort_pairs(s.skip(1)))
    }
}

/// The value with every dictionary in it sorted by key: the form `encode`
/// actually emits.
pub open spec fn deep_sort(v: ValueView) -> ValueView
    decreases v, 0int,
{
    match v {
        ValueView::BString(s) => ValueView::BString(s),
        ValueView::Integer(i) => ValueView::Integer(i),
        ValueView::List(vs) => ValueView::List(deep_sort_items(vs)),
        ValueView::Dict(ps) => ValueView::Dict(sort_pairs(deep_sort_entries(ps))),
    }
}

pub open spec fn deep_sort_items(vs: Seq<ValueView>) -> Seq<ValueView>
    decreases vs, 1int,
{
    if vs.len() == 0 {
        Seq::empty()
    } else {
        deep_sort_items(vs.drop_last()).push(deep_sort(vs.last()))
    }
}

pub open spec fn deep_sort_entries(ps: Seq<(Seq<u8>, ValueView)>) -> Seq<(Seq<u8>, ValueView)>
    decreases ps, 1int,
{
    if ps.len() == 0 {
        Seq::empty()
    } else {
        deep_sort_entries(ps.drop_last()).push((ps.last().0, deep_sort(ps.last().1)))
    }
}

/// A value in the form that decoding produces: integers within the signed
/// 64-bit range and every dictionary's keys strictly ascending.
pub open spec fn canonical(v: ValueView) -> bool
    decreases v,
{
    match v {
        ValueView::BString(s) => true,
        ValueView::Integer(i) => i64::MIN <= i <= i64::MAX,
        ValueView::List(vs) => forall|i: int|
            0 <= i < vs.len() ==> canonical(#[trigger] vs[i]),
        ValueView::Dict(ps) => (forall|i: int|
            0 <= i < ps.len() ==> canonical(#[trigger] ps[i].1)) && (forall|i: int|
            0 <= i < ps.len() - 1 ==> bytes_lt(#[trigger] ps[i].0, ps[i + 1].0)),
    }
}

/// Number of leading decimal-digit bytes.
pub open spec fn digits_len(b: Seq<u8>) -> int
    decreases b.len(),
{
    if b.len() == 0 || !is_digit(b[0]) {
        0
    } else {
        1 + digits_len(b.skip(1))
    }
}

/// The number written by a run of decimal digits, most significant first.
pub open spec fn digits_val(d: Seq<u8>) -> int
    decreases d.len(),
{
    if d.len() == 0 {
        0
    } else {
        digits_val(d.drop_last()) * 10 + (d.last() - 0x30)
    }
}

/// The integer form at the head of `b`: `i`, an optional minus sign, digits
/// with no leading zero and no negative zero, then `e`; the value must fit a
/// signed 64-bit integer.  Returns the value and the number of bytes read.
pub open spec fn spec_parse_integer(b: Seq<u8>) -> Result<(ValueView, int), DecodeError> {
    if b.len() < 2 || b[0] != 0x69 {
        Err(DecodeError::InvalidInteger)
    } else {
        let neg = b[1] == 0x2d;
        let sk: int = if neg {
            2
        } else {
            1
        };
        let t = b.skip(sk);
        if t.len() == 0 {
            Err(DecodeError::InvalidInteger)
        } else if t[0] == 0x30 {
            if neg || t.len() < 2 || t[1] != 0x65 {
                Err(DecodeError::InvalidInteger)
            } else {
                Ok((ValueView::Integer(0), 3))
            }
        } else {
            let dl = digits_len(t);
            if dl == 0 {
                Err(DecodeError::InvalidInteger)
            } else if dl >= t.len() || t[dl] != 0x65 {
                Err(DecodeError::InvalidInteger)
            } else {
                let m = digits_val(t.take(dl));
                let vi: int = if neg {
                    -m
                } else {
                    m
                };
                if vi < i64::MIN || vi > i64::MAX {
                    Err(DecodeError::InvalidInteger)
                } else {
                    Ok((ValueView::Integer(vi), sk + dl + 1))
                }
            }
        }
    }
}

/// The byte-string form at the head of `b`: a decimal length with no
/// superfluous leading zero, `:`, then that many raw bytes.  Returns the
/// bytes and the number of bytes read.
pub open spec fn spec_parse_bstring(b: Seq<u8>) -> Result<(Seq<u8>, int), DecodeError> {
    let dl = digits_len(b);
    if dl == 0 {
        Err(DecodeError::InvalidInteger)
    } else if b[0] == 0x30 && dl > 1 {
        Err(DecodeError::InvalidString)
    } else {
        let n = digits_val(b.take(dl));
        if dl >= b.len() || b[dl] != 0x3a {
            Err(DecodeError::InvalidString)
        } else if n > b.len() - dl - 1 {
            Err(DecodeError::InvalidString)
        } else {
            Ok((b.subrange(dl + 1, dl + 1 + n), dl + 1 + n))
        }
    }
}

/// The value form at the head of `b`, dispatched on the lead byte, and the
/// number of bytes read.  This is the reference meaning of decoding; the
/// executable parser returns exactly this.
pub open spec fn spec_parse(b: Seq<u8>) -> Result<(ValueView, int), DecodeError>
    decreases b.len(), 0int,
{
    if b.len() == 0 {
        Err(DecodeError::InvalidValue)
    } else if b[0] == 0x69 {
        spec_parse_integer(b)
    } else if b[0] == 0x6c {
        match spec_parse_items(b.skip(1)) {
            Ok((vs, n)) => Ok((ValueView::List(vs), 1 + n)),
            Err(e) => Err(e),
        }
    } else if b[0] == 0x64 {
        match spec_parse_pairs(b.skip(1), Option::None) {
            Ok((ps, n)) => Ok((ValueView::Dict(ps), 1 + n)),
            Err(e) => Err(e),
        }
    } else if is_digit(b[0]) {
        match spec_parse_bstring(b) {
            Ok((s, n)) => Ok((ValueView::BString(s), n)),
            Err(e) => Err(e),
        }
    } else {
        Err(DecodeError::InvalidValue)
    }
}

/// Zero or more values terminated by `e` (the body of a list after its `l`).
/// Returns the values and the number of bytes read, the `e` included.
pub open spec fn spec_parse_items(b: Seq<u8>) -> Result<(Seq<ValueView>, int), DecodeError>
    decreases b.len(), 1int,
{
    if b.len() == 0 {
        Err(DecodeError::InvalidList)
    } else if b[0] == 0x65 {
        Ok((Seq::empty(), 1))
    } else {
        match spec_parse(b) {
            Ok((v, n)) => if 1 <= n <= b.len() {
                match spec_parse_items(b.skip(n)) {
                    Ok((vs, m)) => Ok((seq![v] + vs, n + m)),
                    Err(e) => Err(e),
                }
            } else {
                Err(DecodeError::InvalidList)
            },
            Err(e) => Err(e),
        }
    }
}

/// Zero or more key-value pairs terminated by `e` (the body of a dictionary
/// after its `d`).  Each key must be a byte string comparing strictly greater
/// than the preceding key (`prev`).  Returns the entries and the number of
/// bytes read, the `e` included.
pub open spec fn spec_parse_pairs(b: Seq<u8>, prev: Option<Seq<u8>>) -> Result<
    (Seq<(Seq<u8>, ValueView)>, int),
    DecodeError,
>
    decreases b.len(), 1int,
{
    if b.len() == 0 {
        Err(DecodeError::InvalidDict)
    } else if b[0] == 0x65 {
        Ok((Seq::empty(), 1))
    } else {
        match spec_parse_bstring(b) {
            Ok((key, kn)) => if prev matches Option::Some(p) && !bytes_lt(p, key) {
                Err(DecodeError::InvalidDict)
            } else if 1 <= kn && kn <= b.len() {
                match spec_parse(b.skip(kn)) {
                    Ok((v, vn)) => if 1 <= vn <= b.len() - kn {
                        match spec_parse_pairs(b.skip(kn + vn), Option::Some(key)) {
                            Ok((ps, m)) => Ok((seq![(key, v)] + ps, kn + vn + m)),
                            Err(e) => Err(e),
                        }
                    } else {
                        Err(DecodeError::InvalidDict)
                    },
                    Err(e) => Err(e),
                }
            } else {
                Err(DecodeError::InvalidDict)
            },
            Err(e) => Err(e),
        }
    }
}

/// The meaning of decoding a whole document: the value form must span the
/// input exactly.
pub open spec fn spec_decode(b: Seq<u8>) -> Result<ValueView, DecodeError> {
    match spec_parse(b) {
        Ok((v, n)) => if n == b.len() {
            Ok(v)
        } else {
            Err(DecodeError::InvalidValue)
        },
        Err(e) => Err(e),
    }
}

/// Byte-lexicographic order ignores a common prefix.
pub proof fn lemma_bytes_lt_skip(a: Seq<u8>, b: Seq<u8>, i: int)
    requires
        0 <= i <= a.len(),
        i <= b.len(),
        forall|k: int| 0 <= k < i ==> a[k] == b[k],
    ensures
        bytes_lt(a, b) == bytes_lt(a.skip(i), b.skip(i)),
    decreases i,
{
    if i > 0 {
        lemma_bytes_lt_skip(a.skip(1), b.skip(1), i - 1);
        assert(a.skip(1).skip(i - 1) =~= a.skip(i));
        assert(b.skip(1).skip(i - 1) =~= b.skip(i));
    } else {
        assert(a.skip(0) =~= a);
        assert(b.skip(0) =~= b);
    }
}

/// Three-way byte-lexicographic comparison of two byte slices, the order in
/// which dictionary keys are required to ascend.
pub fn compare_bytes_slice(a: &[u8], b: &[u8]) -> (r: core::cmp::Ordering)
    ensures
        r == core::cmp::Ordering::Equal <==> a@ == b@,
        r == core::cmp::Ordering::Less <==> bytes_lt(a@, b@),
        r == core::cmp::Ordering::Greater <==> bytes_lt(b@, a@),
{
    let a_len = a.len();
    let b_len = b.len();
    let len = if a_len < b_len {
        a_len
    } else {
        b_len
    };
    let mut i: usize = 0;
    while i < len
        invariant
            0 <= i <= len,
            len <= a@.len(),
            len <= b@.len(),
            len == if a@.len() < b@.len() {
                a@.len()
            } else {
                b@.len()
            },
            forall|k: int| 0 <= k < i ==> a@[k] == b@[k],
        decreases len - i,
    {
        if a[i] < b[i] {
            proof {
                lemma_bytes_lt_skip(a@, b@, i as int);
                lemma_bytes_lt_skip(b@, a@, i as int);
                assert(a@ != b@) by {
                    assert(a@[i as int] != b@[i as int]);
                }
            }
            return core::cmp::Ordering::Less;
        }
        if a[i] > b[i] {
            proof {
                lemma_bytes_lt_skip(a@, b@, i as int);
                lemma_bytes_lt_skip(b@, a@, i as int);
                assert(a@ != b@) by {
                    assert(a@[i as int] != b@[i as int]);
                }
            }
            return core::cmp::Ordering::Greater;
        }
        i = i + 1;
    }
    proof {
        lemma_bytes_lt_skip(a@, b@, len as int);
        lemma_bytes_lt_skip(b@, a@, len as int);
    }
    if a_len < b_len {
        return core::cmp::Ordering::Less;
    }
    if a_len > b_len {
        proof {
            assert(a@ != b@) by {
                assert(a@.len() != b@.len());
            }
        }
        return core::cmp::Ordering::Greater;
    }
    proof {
        assert(a@ =~= b@);
    }
    core::cmp::Ordering::Equal
}

/// A run of digits can be counted from any point inside it.
proof fn lemma_digits_len_skip(s: Seq<u8>, k: int)
    requires
        0 <= k <= s.len(),
        forall|j: int| 0 <= j < k ==> is_digit(s[j]),
    ensures
        digits_len(s) == k + digits_len(s.skip(k)),
    decreases k,
{
    if k > 0 {
        lemma_digits_len_skip(s.skip(1), k - 1);
        assert(s.skip(1).skip(k - 1) =~= s.skip(k));
    } else {
        assert(s.skip(0) =~= s);
    }
}

/// The value of a digit run is non-negative.
proof fn lemma_digits_val_nonneg(d: Seq<u8>)
    requires
        forall|j: int| 0 <= j < d.len() ==> is_digit(d[j]),
    ensures
        digits_val(d) >= 0,
    decreases d.len(),
{
    if d.len() > 0 {
        lemma_digits_val_nonneg(d.drop_last());
    }
}

/// Extending a digit run never shrinks its value.
proof fn lemma_digits_val_mono(d: Seq<u8>, k: int)
    requires
        forall|j: int| 0 <= j < d.len() ==> is_digit(d[j]),
        0 <= k <= d.len(),
    ensures
        digits_val(d.take(k)) <= digits_val(d),
    decreases d.len() - k,
{
    if k < d.len() {
        lemma_digits_val_mono(d, k + 1);
        assert(d.take(k + 1).drop_last() =~= d.take(k));
        lemma_digits_val_nonneg(d.take(k));
    } else {
        assert(d.take(k) =~= d);
    }
}

/// Scan the run of decimal digits starting at `pos`: its end, and its value
/// where that value fits a 64-bit unsigned number.
fn scan_digits(bytes: &[u8], pos: usize) -> (r: (usize, Option<u64>))
    requires
        pos <= bytes@.len(),
    ensures
        pos <= r.0 <= bytes@.len(),
        r.0 - pos == digits_len(bytes@.skip(pos as int)),
        forall|j: int| pos <= j < r.0 ==> is_digit(bytes@[j]),
        (match r.1 {
            Some(v) => v == digits_val(bytes@.subrange(pos as int, r.0 as int)),
            None => digits_val(bytes@.subrange(pos as int, r.0 as int)) > u64::MAX,
        }),
{
    let len = bytes.len();
    let mut i: usize = pos;
    let mut acc: u64 = 0;
    let mut overflowed = false;
    while i < len && 0x30 <= bytes[i] && bytes[i] <= 0x39
        invariant
            pos <= i <= len,
            len == bytes@.len(),
            forall|j: int| pos <= j < i ==> is_digit(bytes@[j]),
            !overflowed ==> acc == digits_val(bytes@.subrange(pos as int, i as int)),
            overflowed ==> digits_val(bytes@.subrange(pos as int, i as int)) > u64::MAX,
        decreases len - i,
    {
        let d: u64 = (bytes[i] - 0x30) as u64;
        proof {
            assert(bytes@.subrange(pos as int, i + 1 as int).drop_last() =~= bytes@.subrange(
                pos as int,
                i as int,
            ));
            assert(forall|j: int|
                0 <= j < bytes@.subrange(pos as int, i + 1 as int).len() ==> is_digit(
                    #[trigger] bytes@.subrange(pos as int, i + 1 as int)[j],
                ));
            lemma_digits_val_nonneg(bytes@.subrange(pos as int, i + 1 as int));
        }
        if !overflowed {
            match acc.checked_mul(10) {
                Some(m) => match m.checked_add(d) {
                    Some(s) => {
                        acc = s;
                    },
                    None => {
                        overflowed = true;
                    },
                },
                None => {
                    overflowed = true;
                },
            }
        } else {
            proof {
                lemma_digits_val_nonneg(bytes@.subrange(pos as int, i as int));
            }
        }
        i = i + 1;
    }
    proof {
        lemma_digits_len_skip(bytes@.skip(pos as int), i - pos);
        assert(bytes@.skip(pos as int).skip(i - pos) =~= bytes@.skip(i as int));
        assert(digits_len(bytes@.skip(i as int)) == 0);
    }
    if overflowed {
        (i, None)
    } else {
        (i, Some(acc))
    }
}

/// Parse the integer form at `pos`, returning the value and the position
/// just past its `e`.
fn parse_integer_at(bytes: &[u8], pos: usize) -> (r: Result<(i64, usize), DecodeError>)
    requires
        pos <= bytes@.len(),
    ensures
        (match r {
            Ok(t) => pos < t.1 <= bytes@.len() && spec_parse_integer(bytes@.skip(pos as int))
                == Ok::<(ValueView, int), DecodeError>((ValueView::Integer(t.0 as int), t.1 - pos)),
            Err(e) => spec_parse_integer(bytes@.skip(pos as int)) == Err::<
                (ValueView, int),
                DecodeError,
            >(e),
        }),
{
    let ghost b = bytes@.skip(pos as int);
    let len = bytes.len();
    if len - pos < 2 || bytes[pos] != 0x69 {
        return Err(DecodeError::InvalidInteger);
    }
    let neg = bytes[pos + 1] == 0x2d;
    let sk: usize = if neg {
        2
    } else {
        1
    };
    let ghost t = b.skip(sk as int);
    proof {
        assert(t =~= bytes@.skip((pos + sk) as int));
    }
    if pos + sk >= len {
        return Err(DecodeError::InvalidInteger);
    }
    if bytes[pos + sk] == 0x30 {
        if neg || pos + sk + 1 >= len || bytes[pos + sk + 1] != 0x65 {
            return Err(DecodeError::InvalidInteger);
        }
        return Ok((0i64, pos + 3));
    }
    let (dend, maybe) = scan_digits(bytes, pos + sk);
    let ghost dl = dend - (pos + sk) as int;
    proof {
        assert(t.take(dl) =~= bytes@.subrange((pos + sk) as int, dend as int));
    }
    if dend == pos + sk {
        return Err(DecodeError::InvalidInteger);
    }
    if dend >= len || bytes[dend] != 0x65 {
        proof {
            if dl < t.len() {
                assert(t[dl] == bytes@[dend as int]);
            }
        }
        return Err(DecodeError::InvalidInteger);
    }
    proof {
        assert(t[dl] == bytes@[dend as int]);
    }
    match maybe {
        None => {
            // The digits name a number beyond the unsigned 64-bit range, so
            // it is outside the signed 64-bit range either way.
            Err(DecodeError::InvalidInteger)
        },
        Some(m) => {
            if neg {
                if m > 0x8000_0000_0000_0000u64 {
                    Err(DecodeError::InvalidInteger)
                } else if m == 0x8000_0000_0000_0000u64 {
                    Ok((i64::MIN, dend + 1))
                } else {
                    Ok((-(m as i64), dend + 1))
                }
            } else {
                if m > i64::MAX as u64 {
                    Err(DecodeError::InvalidInteger)
                } else {
                    Ok((m as i64, dend + 1))
                }
            }
        },
    }
}

/// Parse the byte-string form at `pos`, returning the bytes and the position
/// just past them.
fn parse_bstring_at(bytes: &[u8], pos: usize) -> (r: Result<(Vec<u8>, usize), DecodeError>)
    requires
        pos <= bytes@.len(),
    ensures
        (match r {
            Ok(t) => pos < t.1 <= bytes@.len() && spec_parse_bstring(bytes@.skip(pos as int))
                == Ok::<(Seq<u8>, int), DecodeError>((t.0@, t.1 - pos)),
            Err(e) => spec_parse_bstring(bytes@.skip(pos as int)) == Err::<
                (Seq<u8>, int),
                DecodeError,
            >(e),
        }),
{
    let ghost b = bytes@.skip(pos as int);
    let len = bytes.len();
    let (dend, maybe) = scan_digits(bytes, pos);
    let ghost dl = dend - pos as int;
    proof {
        assert(b.take(dl) =~= bytes@.subrange(pos as int, dend as int));
    }
    if dend == pos {
        return Err(DecodeError::InvalidInteger);
    }
    if bytes[pos] == 0x30 && dend - pos > 1 {
        return Err(DecodeError::InvalidString);
    }
    if dend >= len || bytes[dend] != 0x3a {
        proof {
            if dl < b.len() {
                assert(b[dl] == bytes@[dend as int]);
            }
        }
        return Err(DecodeError::InvalidString);
    }
    proof {
        assert(b[dl] == bytes@[dend as int]);
    }
    let remaining = len - dend - 1;
    match maybe {
        None => {
            // The length names a number beyond the unsigned 64-bit range, so
            // it exceeds whatever remains of the input.
            Err(DecodeError::InvalidString)
        },
        Some(m) => {
            if m > remaining as u64 {
                Err(DecodeError::InvalidString)
            } else {
                let n = m as usize;
                let start = dend + 1;
                let mut out: Vec<u8> = Vec::new();
                let mut j: usize = 0;
                while j < n
                    invariant
                        0 <= j <= n,
                        len == bytes@.len(),
                        start + n <= len,
                        out@ == bytes@.subrange(start as int, start + j as int),
                    decreases n - j,
                {
                    out.push(bytes[start + j]);
                    proof {
                        assert(out@ =~= bytes@.subrange(start as int, start + j + 1 as int));
                    }
                    j = j + 1;
                }
                proof {
                    assert(b.subrange(dl + 1, dl + 1 + m as int) =~= bytes@.subrange(
                        start as int,
                        start + n as int,
                    ));
                }
                Ok((out, start + n))
            }
        },
    }
}

pub proof fn lemma_view_of_list_push(s: Seq<Value>, v: Value)
    ensures
        view_of_list(s.push(v)) == view_of_list(s).push(v@),
{
    assert(s.push(v).drop_last() =~= s);
    assert(s.push(v).last() == v);
}

pub proof fn lemma_view_of_pairs_push(s: Seq<(Vec<u8>, Value)>, k: Vec<u8>, v: Value)
    ensures
        view_of_pairs(s.push((k, v))) == view_of_pairs(s).push((k@, v@)),
{
    assert(s.push((k, v)).drop_last() =~= s);
    assert(s.push((k, v)).last() == (k, v));
}

/// While a list's items are being read one by one, what has been read so far
/// plus whatever the rest of the body means equals what the whole body means.
pub open spec fn items_unwind(b: Seq<u8>, start: int, cur: int, done: Seq<ValueView>) -> bool {
    match spec_parse_items(b.skip(cur)) {
        Ok((vs, m)) => spec_parse_items(b.skip(start)) == Ok::<(Seq<ValueView>, int), DecodeError>(
            (done + vs, (cur - start) + m),
        ),
        Err(e) => spec_parse_items(b.skip(start)) == Err::<(Seq<ValueView>, int), DecodeError>(e),
    }
}

proof fn lemma_items_unwind_init(b: Seq<u8>, start: int)
    ensures
        items_unwind(b, start, start, Seq::empty()),
{
    match spec_parse_items(b.skip(start)) {
        Ok((vs, m)) => {
            assert(Seq::<ValueView>::empty() + vs =~= vs);
        },
        Err(e) => {},
    }
}

proof fn lemma_items_unwind_step(b: Seq<u8>, start: int, cur: int, done: Seq<ValueView>, v: ValueView, n: int)
    requires
        0 <= start <= cur < b.len(),
        items_unwind(b, start, cur, done),
        b[cur] != 0x65,
        spec_parse(b.skip(cur)) == Ok::<(ValueView, int), DecodeError>((v, n)),
        1 <= n,
        cur + n <= b.len(),
    ensures
        items_unwind(b, start, cur + n, done.push(v)),
{
    let s = b.skip(cur);
    assert(s[0] == b[cur]);
    assert(s.skip(n) =~= b.skip(cur + n));
    match spec_parse_items(b.skip(cur + n)) {
        Ok((vs, m)) => {
            assert(spec_parse_items(s) == Ok::<(Seq<ValueView>, int), DecodeError>(
                (seq![v] + vs, n + m),
            ));
            assert(done + (seq![v] + vs) =~= done.push(v) + vs);
        },
        Err(e) => {
            assert(spec_parse_items(s) == Err::<(Seq<ValueView>, int), DecodeError>(e));
        },
    }
}

pub open spec fn key_view(p: Option<Vec<u8>>) -> Option<Seq<u8>> {
    match p {
        Option::Some(k) => Option::Some(k@),
        Option::None => Option::None,
    }
}

/// The dictionary analogue of `items_unwind`, carrying the key that the next
/// key must exceed.
pub open spec fn pairs_unwind(
    b: Seq<u8>,
    start: int,
    cur: int,
    done: Seq<(Seq<u8>, ValueView)>,
    prev: Option<Seq<u8>>,
) -> bool {
    match spec_parse_pairs(b.skip(cur), prev) {
        Ok((ps, m)) => spec_parse_pairs(b.skip(start), Option::None) == Ok::<
            (Seq<(Seq<u8>, ValueView)>, int),
            DecodeError,
        >((done + ps, (cur - start) + m)),
        Err(e) => spec_parse_pairs(b.skip(start), Option::None) == Err::<
            (Seq<(Seq<u8>, ValueView)>, int),
            DecodeError,
        >(e),
    }
}

proof fn lemma_pairs_unwind_init(b: Seq<u8>, start: int)
    ensures
        pairs_unwind(b, start, start, Seq::empty(), Option::None),
{
    match spec_parse_pairs(b.skip(start), Option::<Seq<u8>>::None) {
        Ok((ps, m)) => {
            assert(Seq::<(Seq<u8>, ValueView)>::empty() + ps =~= ps);
        },
        Err(e) => {},
    }
}

proof fn lemma_pairs_unwind_step(
    b: Seq<u8>,
    start: int,
    cur: int,
    done: Seq<(Seq<u8>, ValueView)>,
    prev: Option<Seq<u8>>,
    key: Seq<u8>,
    kn: int,
    v: ValueView,
    vn: int,
)
    requires
        0 <= start <= cur < b.len(),
        pairs_unwind(b, start, cur, done, prev),
        b[cur] != 0x65,
        spec_parse_bstring(b.skip(cur)) == Ok::<(Seq<u8>, int), DecodeError>((key, kn)),
        (prev matches Option::Some(p) ==> bytes_lt(p, key)),
        1 <= kn,
        cur + kn <= b.len(),
        spec_parse(b.skip(cur + kn)) == Ok::<(ValueView, int), DecodeError>((v, vn)),
        1 <= vn,
        cur + kn + vn <= b.len(),
    ensures
        pairs_unwind(b, start, cur + kn + vn, done.push((key, v)), Option::Some(key)),
{
    let s = b.skip(cur);
    assert(s[0] == b[cur]);
    assert(s.skip(kn) =~= b.skip(cur + kn));
    assert(s.skip(kn + vn) =~= b.skip(cur + kn + vn));
    match spec_parse_pairs(b.skip(cur + kn + vn), Option::Some(key)) {
        Ok((ps, m)) => {
            assert(spec_parse_pairs(s, prev) == Ok::<(Seq<(Seq<u8>, ValueView)>, int), DecodeError>(
                (seq![(key, v)] + ps, kn + vn + m),
            ));
            assert(done + (seq![(key, v)] + ps) =~= done.push((key, v)) + ps);
        },
        Err(e) => {
            assert(spec_parse_pairs(s, prev) == Err::<
                (Seq<(Seq<u8>, ValueView)>, int),
                DecodeError,
            >(e));
        },
    }
}

/// A copy of a byte vector.
pub(crate) fn clone_bytes(v: &[u8]) -> (r: Vec<u8>)
    ensures
        r@ == v@,
{
    let mut out: Vec<u8> = Vec::new();
    let mut i: usize = 0;
    while i < v.len()
        invariant
            0 <= i <= v@.len(),
            out@ == v@.subrange(0, i as int),
        decreases v@.len() - i,
    {
        out.push(v[i]);
        proof {
            assert(out@ =~= v@.subrange(0, i + 1 as int));
        }
        i = i + 1;
    }
    proof {
        assert(out@ =~= v@);
    }
    out
}

/// Parse the value form at `pos`, returning the value and the position just
/// past it: exactly what `spec_parse` names there.
fn parse_val_at(bytes: &[u8], pos: usize) -> (r: Result<(Value, usize), DecodeError>)
    requires
        pos <= bytes@.len(),
    ensures
        (match r {
            Ok(t) => pos < t.1 <= bytes@.len() && spec_parse(bytes@.skip(pos as int)) == Ok::<
                (ValueView, int),
                DecodeError,
            >((t.0@, t.1 - pos)),
            Err(e) => spec_parse(bytes@.skip(pos as int)) == Err::<(ValueView, int), DecodeError>(
                e,
            ),
        }),
    decreases bytes@.len() - pos,
{
    let ghost b = bytes@.skip(pos as int);
    let len = bytes.len();
    if pos >= len {
        return Err(DecodeError::InvalidValue);
    }
    assert(b[0] == bytes@[pos as int]);
    let lead = bytes[pos];
    if lead == 0x69 {
        match parse_integer_at(bytes, pos) {
            Ok(t) => Ok((Value::Integer(t.0), t.1)),
            Err(e) => Err(e),
        }
    } else if lead == 0x6c {
        let mut items: Vec<Value> = Vec::new();
        let mut cur = pos + 1;
        proof {
            lemma_items_unwind_init(bytes@, (pos + 1) as int);
            assert(b.skip(1) =~= bytes@.skip(pos + 1 as int));
        }
        loop
            invariant
                pos + 1 <= cur <= len,
                len == bytes@.len(),
                pos < len,
                bytes@[pos as int] == 0x6c,
                items_unwind(bytes@, pos + 1 as int, cur as int, view_of_list(items@)),
            decreases len - cur,
        {
            if cur >= len {
                proof {
                    assert(bytes@.skip(cur as int).len() == 0);
                    assert(bytes@.skip(pos as int)[0] == bytes@[pos as int]);
                    assert(bytes@.skip(pos as int).skip(1) =~= bytes@.skip(pos + 1 as int));
                }
                return Err(DecodeError::InvalidList);
            }
            proof {
                assert(bytes@.skip(cur as int)[0] == bytes@[cur as int]);
            }
            if bytes[cur] == 0x65 {
                proof {
                    assert(view_of_list(items@) + Seq::<ValueView>::empty() =~= view_of_list(
                        items@,
                    ));
                    assert(bytes@.skip(pos as int)[0] == bytes@[pos as int]);
                    assert(bytes@.skip(pos as int).skip(1) =~= bytes@.skip(pos + 1 as int));
                }
                return Ok((Value::List(items), cur + 1));
            }
            match parse_val_at(bytes, cur) {
                Ok(t) => {
                    proof {
                        lemma_items_unwind_step(
                            bytes@,
                            pos + 1 as int,
                            cur as int,
                            view_of_list(items@),
                            t.0@,
                            t.1 - cur,
                        );
                        lemma_view_of_list_push(items@, t.0);
                    }
                    let (v, end) = t;
                    items.push(v);
                    cur = end;
                },
                Err(e) => {
                    proof {
                        assert(bytes@.skip(pos as int)[0] == bytes@[pos as int]);
                        assert(bytes@.skip(pos as int).skip(1) =~= bytes@.skip(pos + 1 as int));
                    }
                    return Err(e);
                },
            }
        }
    } else if lead == 0x64 {
        let mut entries: Vec<(Vec<u8>, Value)> = Vec::new();
        let mut prev: Option<Vec<u8>> = None;
        let mut cur = pos + 1;
        proof {
            lemma_pairs_unwind_init(bytes@, (pos + 1) as int);
            assert(b.skip(1) =~= bytes@.skip(pos + 1 as int));
        }
        loop
            invariant
                pos + 1 <= cur <= len,
                len == bytes@.len(),
                pos < len,
                bytes@[pos as int] == 0x64,
                pairs_unwind(
                    bytes@,
                    pos + 1 as int,
                    cur as int,
                    view_of_pairs(entries@),
                    key_view(prev),
                ),
            decreases len - cur,
        {
            if cur >= len {
                proof {
                    assert(bytes@.skip(cur as int).len() == 0);
                    assert(bytes@.skip(pos as int)[0] == bytes@[pos as int]);
                    assert(bytes@.skip(pos as int).skip(1) =~= bytes@.skip(pos + 1 as int));
                }
                return Err(DecodeError::InvalidDict);
            }
            proof {
                assert(bytes@.skip(cur as int)[0] == bytes@[cur as int]);
            }
            if bytes[cur] == 0x65 {
                proof {
                    assert(view_of_pairs(entries@) + Seq::<(Seq<u8>, ValueView)>::empty()
                        =~= view_of_pairs(entries@));
                    assert(bytes@.skip(pos as int)[0] == bytes@[pos as int]);
                    assert(bytes@.skip(pos as int).skip(1) =~= bytes@.skip(pos + 1 as int));
                }
                return Ok((Value::Dict(entries), cur + 1));
            }
            match parse_bstring_at(bytes, cur) {
                Err(e) => {
                    proof {
                        assert(bytes@.skip(pos as int)[0] == bytes@[pos as int]);
                        assert(bytes@.skip(pos as int).skip(1) =~= bytes@.skip(pos + 1 as int));
                    }
                    return Err(e);
                },
                Ok(kt) => {
                    let in_order = match &prev {
                        Some(p) => matches!(
                            compare_bytes_slice(p.as_slice(), kt.0.as_slice()),
                            core::cmp::Ordering::Less
                        ),
                        None => true,
                    };
                    if !in_order {
                        proof {
                            assert(bytes@.skip(pos as int)[0] == bytes@[pos as int]);
                            assert(bytes@.skip(pos as int).skip(1) =~= bytes@.skip(pos + 1 as int));
                        }
                        return Err(DecodeError::InvalidDict);
                    }
                    let (key, kend) = kt;
                    match parse_val_at(bytes, kend) {
                        Err(e) => {
                            proof {
                                assert(bytes@.skip(cur as int).skip(kend - cur) =~= bytes@.skip(
                                    kend as int,
                                ));
                                assert(bytes@.skip(pos as int)[0] == bytes@[pos as int]);
                            assert(bytes@.skip(pos as int).skip(1) =~= bytes@.skip(pos + 1 as int));
                            }
                            return Err(e);
                        },
                        Ok(vt) => {
                            proof {
                                lemma_pairs_unwind_step(
                                    bytes@,
                                    pos + 1 as int,
                                    cur as int,
                                    view_of_pairs(entries@),
                                    key_view(prev),
                                    key@,
                                    kend - cur,
                                    vt.0@,
                                    vt.1 - kend,
                                );
                                lemma_view_of_pairs_push(entries@, key, vt.0);
                            }
                            let (v, vend) = vt;
                            prev = Some(clone_bytes(key.as_slice()));
                            entries.push((key, v));
                            cur = vend;
                        },
                    }
                },
            }
        }
    } else if 0x30 <= lead && lead <= 0x39 {
        match parse_bstring_at(bytes, pos) {
            Ok(t) => Ok((Value::BString(t.0), t.1)),
            Err(e) => Err(e),
        }
    } else {
        Err(DecodeError::InvalidValue)
    }
}


/// `view_of_list` is the element-wise view.
pub proof fn lemma_view_of_list_index(s: Seq<Value>)
    ensures
        view_of_list(s).len() == s.len(),
        forall|i: int| 0 <= i < s.len() ==> view_of_list(s)[i] == s[i]@,
    decreases s,
{
    if s.len() > 0 {
        lemma_view_of_list_index(s.drop_last());
        assert(view_of_list(s) == view_of_list(s.drop_last()).push(s.last().view()));
        assert forall|i: int| 0 <= i < s.len() implies view_of_list(s)[i] == s[i]@ by {
            if i < s.len() - 1 {
                assert(view_of_list(s)[i] == view_of_list(s.drop_last())[i]);
                assert(s.drop_last()[i] == s[i]);
            } else {
                assert(s.last() == s[i]);
            }
        }
    }
}

/// `view_of_pairs` is the entry-wise view.
pub proof fn lemma_view_of_pairs_index(s: Seq<(Vec<u8>, Value)>)
    ensures
        view_of_pairs(s).len() == s.len(),
        forall|i: int|
            0 <= i < s.len() ==> view_of_pairs(s)[i] == (s[i].0@, s[i].1@),
    decreases s,
{
    if s.len() > 0 {
        lemma_view_of_pairs_index(s.drop_last());
        assert(view_of_pairs(s) == view_of_pairs(s.drop_last()).push(
            (s.last().0@, s.last().1.view()),
        ));
        assert forall|i: int| 0 <= i < s.len() implies view_of_pairs(s)[i] == (
            s[i].0@,
            s[i].1@,
        ) by {
            if i < s.len() - 1 {
                assert(view_of_pairs(s)[i] == view_of_pairs(s.drop_last())[i]);
                assert(s.drop_last()[i] == s[i]);
            } else {
                assert(s.last() == s[i]);
            }
        }
    }
}

/// Append the decimal digits of `n`, most significant first.
pub(crate) fn push_digits(out: &mut Vec<u8>, n: u64)
    ensures
        final(out)@ == old(out)@ + spec_digits(n as int),
    decreases n,
{
    if n < 10 {
        out.push((0x30 + n) as u8);
        proof {
            assert(out@ =~= old(out)@ + spec_digits(n as int));
        }
    } else {
        proof {
            assert(n / 10 < n) by (nonlinear_arith)
                requires n >= 10;
        }
        push_digits(out, n / 10);
        out.push((0x30 + (n % 10)) as u8);
        proof {
            assert(out@ =~= old(out)@ + spec_digits(n as int));
        }
    }
}

/// Append the bencode digits of a signed number.
fn push_int_digits(out: &mut Vec<u8>, i: i64)
    ensures
        final(out)@ == old(out)@ + spec_int_digits(i as int),
{
    if i < 0 {
        out.push(0x2d);
        let mag: u64 = if i == i64::MIN {
            9223372036854775808u64
        } else {
            (-i) as u64
        };
        proof {
            assert(mag as int == -(i as int));
        }
        push_digits(out, mag);
        proof {
            assert(out@ =~= old(out)@ + spec_int_digits(i as int));
        }
    } else {
        push_digits(out, i as u64);
    }
}

/// `insert_pair` puts the new entry exactly at the first position whose key
/// is not smaller.
proof fn lemma_insert_pair_at(s: Seq<(Seq<u8>, ValueView)>, p: (Seq<u8>, ValueView), j: int)
    requires
        0 <= j <= s.len(),
        forall|k: int| 0 <= k < j ==> !bytes_le(p.0, #[trigger] s[k].0),
        j < s.len() ==> bytes_le(p.0, s[j].0),
    ensures
        insert_pair(p, s) == s.take(j) + seq![p] + s.skip(j),
    decreases j,
{
    if j == 0 {
        assert(s.take(0) + seq![p] + s.skip(0) =~= seq![p] + s);
        if s.len() == 0 {
            assert(seq![p] + s =~= seq![p]);
        }
    } else {
        lemma_insert_pair_at(s.skip(1), p, j - 1);
        assert(s.skip(1).take(j - 1) =~= s.take(j).skip(1));
        assert(s.skip(1).skip(j - 1) =~= s.skip(j));
        assert(seq![s[0]] + (s.skip(1).take(j - 1) + seq![p] + s.skip(1).skip(j - 1)) =~= s.take(j)
            + seq![p] + s.skip(j));
    }
}

/// Insert one entry into a key-sorted vector of entries, keeping it sorted.
#[verifier::loop_isolation(false)]
fn insert_entry(entries: &mut Vec<(Vec<u8>, Value)>, p: (Vec<u8>, Value))
    ensures
        view_of_pairs(final(entries)@) == insert_pair(
            (p.0@, p.1@),
            view_of_pairs(old(entries)@),
        ),
{
    let len = entries.len();
    let mut j: usize = 0;
    let mut found = false;
    proof {
        lemma_view_of_pairs_index(entries@);
    }
    while j < len && !found
        invariant
            0 <= j <= len,
            forall|k: int| 0 <= k < j ==> !bytes_le(p.0@, #[trigger] entries@[k].0@),
            found ==> j < len && bytes_le(p.0@, entries@[j as int].0@),
        decreases len - j, (if found { 0int } else { 1int }),
    {
        match compare_bytes_slice(p.0.as_slice(), entries[j].0.as_slice()) {
            core::cmp::Ordering::Greater => {
                j = j + 1;
            },
            _ => {
                found = true;
            },
        }
    }
    proof {
        let pv = (p.0@, p.1@);
        let sv = view_of_pairs(entries@);
        lemma_insert_pair_at(sv, pv, j as int);
    }
    let ghost oldview = view_of_pairs(entries@);
    let ghost pv = (p.0@, p.1@);
    let ghost jg = j as int;
    entries.insert(j, p);
    proof {
        lemma_view_of_pairs_index(entries@);
        assert(view_of_pairs(entries@) =~= oldview.take(jg) + seq![pv] + oldview.skip(jg));
    }
}

/// Sort a vector of dictionary entries by key, as `sort_pairs` describes.
#[verifier::loop_isolation(false)]
fn sort_entries(entries: Vec<(Vec<u8>, Value)>) -> (r: Vec<(Vec<u8>, Value)>)
    ensures
        view_of_pairs(r@) == sort_pairs(view_of_pairs(entries@)),
{
    let ghost orig = entries@;
    let mut rest = entries;
    let mut acc: Vec<(Vec<u8>, Value)> = Vec::new();
    proof {
        lemma_view_of_pairs_index(orig);
    }
    while rest.len() > 0
        invariant
            rest@ == orig.take(rest@.len() as int),
            rest@.len() <= orig.len(),
            view_of_pairs(acc@) == sort_pairs(view_of_pairs(orig).skip(rest@.len() as int)),
        decreases rest@.len(),
    {
        let ghost n = rest@.len() as int;
        match rest.pop() {
            None => {},
            Some(p) => {
                proof {
                    assert(rest@ =~= orig.take(n - 1));
                    assert(p == orig[n - 1]);
                    let sv = view_of_pairs(orig);
                    assert(sv.skip(n - 1)[0] == sv[n - 1]);
                    assert(sv.skip(n - 1).skip(1) =~= sv.skip(n));
                }
                insert_entry(&mut acc, p);
            },
        }
    }
    proof {
        assert(view_of_pairs(orig).skip(0) =~= view_of_pairs(orig));
        assert(view_of_pairs(acc@) == sort_pairs(view_of_pairs(entries@)));
    }
    acc
}

impl Value {
    /// The same value with every dictionary in it sorted by key.
    #[verifier::loop_isolation(false)]
    fn deep_sorted(&self) -> (r: Value)
        ensures
            r@ == deep_sort(self@),
        decreases self,
    {
        match self {
            Value::BString(s) => Value::BString(clone_bytes(s.as_slice())),
            Value::Integer(i) => Value::Integer(*i),
            Value::List(vs) => {
                let mut out: Vec<Value> = Vec::new();
                let mut i: usize = 0;
                let len = vs.len();
                proof {
                    lemma_view_of_list_index(vs@);
                }
                while i < len
                    invariant
                        0 <= i <= len,
                        len == vs@.len(),
                        view_of_list(vs@).len() == len,
                        forall|k: int|
                            0 <= k < len ==> view_of_list(vs@)[k] == vs@[k]@,
                        view_of_list(out@) == deep_sort_items(view_of_list(vs@).take(i as int)),
                    decreases len - i,
                {
                    let s = vs[i].deep_sorted();
                    proof {
                        let lv = view_of_list(vs@);
                        assert(lv.take(i + 1).drop_last() =~= lv.take(i as int));
                        assert(lv.take(i + 1).last() == lv[i as int]);
                        lemma_view_of_list_push(out@, s);
                    }
                    out.push(s);
                    i = i + 1;
                }
                proof {
                    assert(view_of_list(vs@).take(len as int) =~= view_of_list(vs@));
                }
                Value::List(out)
            },
            Value::Dict(ps) => {
                let mut out: Vec<(Vec<u8>, Value)> = Vec::new();
                let mut i: usize = 0;
                let len = ps.len();
                proof {
                    lemma_view_of_pairs_index(ps@);
                }
                while i < len
                    invariant
                        0 <= i <= len,
                        len == ps@.len(),
                        view_of_pairs(ps@).len() == len,
                        forall|k: int|
                            0 <= k < len ==> view_of_pairs(ps@)[k] == (ps@[k].0@, ps@[k].1@),
                        view_of_pairs(out@) == deep_sort_entries(
                            view_of_pairs(ps@).take(i as int),
                        ),
                    decreases len - i,
                {
                    let key = clone_bytes(ps[i].0.as_slice());
                    let s = ps[i].1.deep_sorted();
                    proof {
                        let pv = view_of_pairs(ps@);
                        assert(pv.take(i + 1).drop_last() =~= pv.take(i as int));
                        assert(pv.take(i + 1).last() == pv[i as int]);
                        lemma_view_of_pairs_push(out@, key, s);
                    }
                    out.push((key, s));
                    i = i + 1;
                }
                proof {
                    assert(view_of_pairs(ps@).take(len as int) =~= view_of_pairs(ps@));
                }
                Value::Dict(sort_entries(out))
            },
        }
    }

    /// Append the bencode encoding of this value, dictionary entries in the
    /// stored order.
    #[verifier::loop_isolation(false)]
    #[verifier::rlimit(50)]
    fn encode_into(&self, out: &mut Vec<u8>)
        ensures
            final(out)@ == old(out)@ + spec_encode(self@),
        decreases self,
    {
        match self {
            Value::BString(s) => {
                push_digits(out, s.len() as u64);
                out.push(0x3a);
                let mut j: usize = 0;
                let len = s.len();
                let ghost mid = out@;
                while j < len
                    invariant
                        0 <= j <= len,
                        len == s@.len(),
                        out@ == mid + s@.take(j as int),
                    decreases len - j,
                {
                    out.push(s[j]);
                    proof {
                        assert(mid + s@.take(j + 1) =~= (mid + s@.take(j as int)).push(s@[j as int]));
                    }
                    j = j + 1;
                }
                proof {
                    assert(s@.take(len as int) =~= s@);
                    assert(out@ =~= old(out)@ + spec_encode(self@));
                }
            },
            Value::Integer(i) => {
                out.push(0x69);
                push_int_digits(out, *i);
                out.push(0x65);
                proof {
                    assert(out@ =~= old(out)@ + spec_encode(self@));
                }
            },
            Value::List(vs) => {
                out.push(0x6c);
                let mut i: usize = 0;
                let len = vs.len();
                let ghost mid = out@;
                proof {
                    lemma_view_of_list_index(vs@);
                }
                while i < len
                    invariant
                        0 <= i <= len,
                        len == vs@.len(),
                        view_of_list(vs@).len() == len,
                        forall|k: int|
                            0 <= k < len ==> view_of_list(vs@)[k] == vs@[k]@,
                        out@ == mid + spec_encode_items(view_of_list(vs@).take(i as int)),
                    decreases len - i,
                {
                    vs[i].encode_into(out);
                    proof {
                        let lv = view_of_list(vs@);
                        assert(lv.take(i + 1).drop_last() =~= lv.take(i as int));
                        assert(lv.take(i + 1).last() == lv[i as int]);
                        assert(out@ =~= mid + spec_encode_items(lv.take(i + 1)));
                    }
                    i = i + 1;
                }
                out.push(0x65);
                proof {
                    assert(view_of_list(vs@).take(len as int) =~= view_of_list(vs@));
                    assert(out@ =~= old(out)@ + spec_encode(self@));
                }
            },
            Value::Dict(ps) => {
                out.push(0x64);
                let mut i: usize = 0;
                let len = ps.len();
                let ghost mid = out@;
                proof {
                    lemma_view_of_pairs_index(ps@);
                }
                while i < len
                    invariant
                        0 <= i <= len,
                        len == ps@.len(),
                        view_of_pairs(ps@).len() == len,
                        forall|k: int|
                            0 <= k < len ==> view_of_pairs(ps@)[k] == (ps@[k].0@, ps@[k].1@),
                        out@ == mid + spec_encode_pairs(view_of_pairs(ps@).take(i as int)),
                    decreases len - i,
                {
                    let ghost before = out@;
                    push_digits(out, ps[i].0.len() as u64);
                    out.push(0x3a);
                    let key = &ps[i].0;
                    let mut j: usize = 0;
                    let klen = key.len();
                    let ghost kmid = out@;
                    while j < klen
                        invariant
                            0 <= j <= klen,
                            klen == key@.len(),
                            out@ == kmid + key@.take(j as int),
                        decreases klen - j,
                    {
                        out.push(key[j]);
                        proof {
                            assert(kmid + key@.take(j + 1) =~= (kmid + key@.take(j as int)).push(
                                key@[j as int],
                            ));
                        }
                        j = j + 1;
                    }
                    proof {
                        assert(key@.take(klen as int) =~= key@);
                    }
                    ps[i].1.encode_into(out);
                    proof {
                        let pv = view_of_pairs(ps@);
                        assert(pv.take(i + 1).drop_last() =~= pv.take(i as int));
                        assert(pv.take(i + 1).last() == pv[i as int]);
                        assert(out@ =~= mid + spec_encode_pairs(pv.take(i + 1)));
                    }
                    i = i + 1;
                }
                out.push(0x65);
                proof {
                    assert(view_of_pairs(ps@).take(len as int) =~= view_of_pairs(ps@));
                    assert(out@ =~= old(out)@ + spec_encode(self@));
                }
            },
        }
    }
}


/// Remove the first `n` bytes of a vector.
pub(crate) fn drain_front(bytes: &mut Vec<u8>, n: usize)
    requires
        n <= old(bytes)@.len(),
    ensures
        final(bytes)@ == old(bytes)@.skip(n as int),
{
    let len = bytes.len();
    let mut out: Vec<u8> = Vec::new();
    let mut i: usize = n;
    while i < len
        invariant
            n <= i <= len,
            len == bytes@.len(),
            bytes@ == old(bytes)@,
            out@ == bytes@.subrange(n as int, i as int),
        decreases len - i,
    {
        out.push(bytes[i]);
        proof {
            assert(out@ =~= bytes@.subrange(n as int, i + 1 as int));
        }
        i = i + 1;
    }
    proof {
        assert(out@ =~= old(bytes)@.skip(n as int));
    }
    *bytes = out;
}

/// Relies on `String::from_utf8`: it succeeds exactly on valid UTF-8 input
/// and returns the string of the bytes' decoded characters.
#[verifier::external_body]
pub(crate) fn utf8_to_string(bytes: Vec<u8>) -> (r: Option<String>)
    ensures
        r is Some <==> vstd::utf8::valid_utf8(bytes@),
        (r matches Some(s) ==> s@ == vstd::utf8::decode_utf8(bytes@)),
{
    String::from_utf8(bytes).ok()
}

impl Value {
    /// Decode a whole bencode document; the value must span the input
    /// exactly.  Returns `Ok` if and only if the input is the canonical
    /// encoding of some value, and then returns that value.
    pub fn decode(bytes: &[u8]) -> (r: Result<Value, DecodeError>)
        ensures
            (match r {
                Ok(v) => spec_decode(bytes@) == Ok::<ValueView, DecodeError>(v@),
                Err(e) => spec_decode(bytes@) == Err::<ValueView, DecodeError>(e),
            }),
    {
        proof {
            assert(bytes@.skip(0) =~= bytes@);
        }
        match parse_val_at(bytes, 0) {
            Ok(t) => {
                if t.1 == bytes.len() {
                    Ok(t.0)
                } else {
                    Err(DecodeError::InvalidValue)
                }
            },
            Err(e) => Err(e),
        }
    }

    /// Encode this value canonically: every dictionary's entries are emitted
    /// in strictly ascending key order, whatever order they are stored in.
    pub fn encode(&self) -> (r: Vec<u8>)
        ensures
            r@ == spec_encode(deep_sort(self@)),
    {
        let sorted = self.deep_sorted();
        let mut out: Vec<u8> = Vec::new();
        sorted.encode_into(&mut out);
        proof {
            assert(Seq::<u8>::empty() + spec_encode(deep_sort(self@)) =~= spec_encode(
                deep_sort(self@),
            ));
        }
        out
    }

    /// The integer held by an `Integer` value.
    pub fn integer(&self) -> (r: Option<&i64>)
        ensures
            (match self {
                Value::Integer(i) => r matches Some(x) && x == i,
                _ => r is None,
            }),
    {
        if let Value::Integer(i) = self {
            return Some(i);
        }
        None
    }

    /// The bytes held by a `BString` value.
    pub fn bstring(&self) -> (r: Option<&Vec<u8>>)
        ensures
            (match self {
                Value::BString(s) => r matches Some(x) && x == s,
                _ => r is None,
            }),
    {
        if let Value::BString(s) = self {
            return Some(s);
        }
        None
    }

    /// The bytes of a `BString` value read as UTF-8, where they are valid.
    pub fn bstring_utf8(&self) -> (r: Option<String>)
        ensures
            (match self {
                Value::BString(s) => (r is Some <==> vstd::utf8::valid_utf8(s@)) && (r matches Some(
                    x,
                ) ==> x@ == vstd::utf8::decode_utf8(s@)),
                _ => r is None,
            }),
    {
        if let Value::BString(s) = self {
            return utf8_to_string(clone_bytes(s.as_slice()));
        }
        None
    }

    /// The items held by a `List` value.
    pub fn list(&self) -> (r: Option<&Vec<Value>>)
        ensures
            (match self {
                Value::List(vs) => r matches Some(x) && x == vs,
                _ => r is None,
            }),
    {
        if let Value::List(vs) = self {
            return Some(vs);
        }
        None
    }

    /// The entries held by a `Dict` value, in stored order.
    pub fn dict(&self) -> (r: Option<&Vec<(Vec<u8>, Value)>>)
        ensures
            (match self {
                Value::Dict(ps) => r matches Some(x) && x == ps,
                _ => r is None,
            }),
    {
        if let Value::Dict(ps) = self {
            return Some(ps);
        }
        None
    }
}

/// Parse the value form at the head of the buffer, consuming exactly its
/// bytes on success and leaving the buffer unchanged on failure.
pub fn parse_val(bytes: &mut Vec<u8>) -> (r: Result<Value, DecodeError>)
    ensures
        (match r {
            Ok(v) => spec_parse(old(bytes)@) matches Ok(t) && t.0 == v@ && final(bytes)@ == old(bytes)@.skip(t.1),
            Err(e) => spec_parse(old(bytes)@) == Err::<(ValueView, int), DecodeError>(e) && final(bytes)@ == old(bytes)@,
        }),
{
    proof {
        assert(bytes@.skip(0) =~= bytes@);
    }
    let rr = parse_val_at(bytes.as_slice(), 0);
    match rr {
        Ok(t) => {
            let (v, end) = t;
            drain_front(bytes, end);
            Ok(v)
        },
        Err(e) => Err(e),
    }
}

/// Parse the byte-string form at the head of the buffer, consuming exactly
/// its bytes on success and leaving the buffer unchanged on failure.
pub fn parse_bstring(bytes: &mut Vec<u8>) -> (r: Result<Value, DecodeError>)
    ensures
        (match r {
            Ok(v) => spec_parse_bstring(old(bytes)@) matches Ok(t) && v@ == ValueView::BString(t.0)
                && final(bytes)@ == old(bytes)@.skip(t.1),
            Err(e) => spec_parse_bstring(old(bytes)@) == Err::<(Seq<u8>, int), DecodeError>(e)
                && final(bytes)@ == old(bytes)@,
        }),
{
    proof {
        assert(bytes@.skip(0) =~= bytes@);
    }
    let rr = parse_bstring_at(bytes.as_slice(), 0);
    match rr {
        Ok(t) => {
            let (s, end) = t;
            drain_front(bytes, end);
            Ok(Value::BString(s))
        },
        Err(e) => Err(e),
    }
}

/// Parse the integer form at the head of the buffer, consuming exactly its
/// bytes on success and leaving the buffer unchanged on failure.
pub fn parse_integer(bytes: &mut Vec<u8>) -> (r: Result<Value, DecodeError>)
    ensures
        (match r {
            Ok(v) => spec_parse_integer(old(bytes)@) matches Ok(t) && v@ == t.0 && final(bytes)@
                == old(bytes)@.skip(t.1),
            Err(e) => spec_parse_integer(old(bytes)@) == Err::<(ValueView, int), DecodeError>(e)
                && final(bytes)@ == old(bytes)@,
        }),
{
    proof {
        assert(bytes@.skip(0) =~= bytes@);
    }
    let rr = parse_integer_at(bytes.as_slice(), 0);
    match rr {
        Ok(t) => {
            let (i, end) = t;
            drain_front(bytes, end);
            Ok(Value::Integer(i))
        },
        Err(e) => Err(e),
    }
}

/// Parse the list form at the head of the buffer, consuming exactly its
/// bytes on success and leaving the buffer unchanged on failure.
pub fn parse_list(bytes: &mut Vec<u8>) -> (r: Result<Value, DecodeError>)
    ensures
        (match r {
            Ok(v) => old(bytes)@.len() > 0 && old(bytes)@[0] == 0x6c && (spec_parse(old(bytes)@)
                matches Ok(t) && t.0 == v@ && final(bytes)@ == old(bytes)@.skip(t.1)),
            Err(e) => final(bytes)@ == old(bytes)@ && if old(bytes)@.len() == 0 || old(bytes)@[0]
                != 0x6c {
                e == DecodeError::InvalidList
            } else {
                spec_parse(old(bytes)@) == Err::<(ValueView, int), DecodeError>(e)
            },
        }),
{
    if bytes.len() == 0 || bytes[0] != 0x6c {
        return Err(DecodeError::InvalidList);
    }
    parse_val(bytes)
}

/// Parse the dictionary form at the head of the buffer, consuming exactly
/// its bytes on success and leaving the buffer unchanged on failure.
pub fn parse_dict(bytes: &mut Vec<u8>) -> (r: Result<Value, DecodeError>)
    ensures
        (match r {
            Ok(v) => old(bytes)@.len() > 0 && old(bytes)@[0] == 0x64 && (spec_parse(old(bytes)@)
                matches Ok(t) && t.0 == v@ && final(bytes)@ == old(bytes)@.skip(t.1)),
            Err(e) => final(bytes)@ == old(bytes)@ && if old(bytes)@.len() == 0 || old(bytes)@[0]
                != 0x64 {
                e == DecodeError::InvalidDict
            } else {
                spec_parse(old(bytes)@) == Err::<(ValueView, int), DecodeError>(e)
            },
        }),
{
    if bytes.len() == 0 || bytes[0] != 0x64 {
        return Err(DecodeError::InvalidDict);
    }
    parse_val(bytes)
}

/// Parse the run of decimal digits at the head of the buffer as a length,
/// consuming exactly the digits on success and leaving the buffer unchanged
/// on failure.  Fails when there is no digit or the number does not fit.
pub fn parse_integer_literal(bytes: &mut Vec<u8>) -> (r: Result<usize, DecodeError>)
    ensures
        (match r {
            Ok(n) => digits_len(old(bytes)@) >= 1 && n == digits_val(
                old(bytes)@.take(digits_len(old(bytes)@)),
            ) && final(bytes)@ == old(bytes)@.skip(digits_len(old(bytes)@)),
            Err(e) => e == DecodeError::InvalidInteger && (digits_len(old(bytes)@) == 0
                || digits_val(old(bytes)@.take(digits_len(old(bytes)@))) > usize::MAX) && final(bytes)@ == old(bytes)@,
        }),
{
    proof {
        assert(bytes@.skip(0) =~= bytes@);
    }
    let (end, maybe) = scan_digits(bytes.as_slice(), 0);
    proof {
        assert(bytes@.subrange(0, end as int) =~= bytes@.take(digits_len(bytes@)));
    }
    if end == 0 {
        return Err(DecodeError::InvalidInteger);
    }
    match maybe {
        None => Err(DecodeError::InvalidInteger),
        Some(m) => {
            if m > usize::MAX as u64 {
                Err(DecodeError::InvalidInteger)
            } else {
                drain_front(bytes, end);
                Ok(m as usize)
            }
        },
    }
}


/// The digits of a non-negative number are decimal digits, at least one.
pub(crate) proof fn lemma_spec_digits_digits(n: int)
    requires
        n >= 0,
    ensures
        spec_digits(n).len() >= 1,
        forall|i: int| 0 <= i < spec_digits(n).len() ==> is_digit(#[trigger] spec_digits(n)[i]),
    decreases n,
{
    if n >= 10 {
        lemma_spec_digits_digits(n / 10);
    }
}

/// The digits of a non-negative number read back as that number.
proof fn lemma_spec_digits_val(n: int)
    requires
        n >= 0,
    ensures
        digits_val(spec_digits(n)) == n,
    decreases n,
{
    if n < 10 {
        assert(spec_digits(n) =~= seq![(0x30 + n) as u8]);
        assert((0x30 + n) as u8 == 0x30 + n);
        assert(spec_digits(n).drop_last() =~= Seq::<u8>::empty());
        assert(digits_val(spec_digits(n)) == digits_val(Seq::<u8>::empty()) * 10 + ((0x30 + n)
            - 0x30));
    } else {
        lemma_spec_digits_val(n / 10);
        assert(spec_digits(n).drop_last() =~= spec_digits(n / 10));
        assert((0x30 + n % 10) as u8 == 0x30 + n % 10);
        assert(spec_digits(n).last() == (0x30 + n % 10) as u8);
        assert(digits_val(spec_digits(n)) == n / 10 * 10 + n % 10);
        assert(n / 10 * 10 + n % 10 == n);
    }
}

/// Only zero's digits start with the zero digit.
proof fn lemma_spec_digits_lead(n: int)
    requires
        n >= 1,
    ensures
        spec_digits(n)[0] != 0x30,
    decreases n,
{
    if n >= 10 {
        lemma_spec_digits_lead(n / 10);
        assert(spec_digits(n)[0] == spec_digits(n / 10)[0]);
    }
}

/// A run of digits followed by a non-digit scans as exactly that run.
proof fn lemma_digits_len_concat(d: Seq<u8>, rest: Seq<u8>)
    requires
        forall|i: int| 0 <= i < d.len() ==> is_digit(#[trigger] d[i]),
        rest.len() == 0 || !is_digit(rest[0]),
    ensures
        digits_len(d + rest) == d.len(),
    decreases d.len(),
{
    if d.len() == 0 {
        assert(d + rest =~= rest);
    } else {
        lemma_digits_len_concat(d.skip(1), rest);
        assert((d + rest).skip(1) =~= d.skip(1) + rest);
    }
}

/// The encoding of a byte string's header and body parses back to the body,
/// whatever follows it.
proof fn lemma_parse_bstring_of_encoding(s: Seq<u8>, rest: Seq<u8>)
    ensures
        spec_parse_bstring((spec_digits(s.len() as int) + seq![0x3au8] + s) + rest) == Ok::<
            (Seq<u8>, int),
            DecodeError,
        >((s, spec_digits(s.len() as int).len() + 1 + s.len() as int)),
{
    let d = spec_digits(s.len() as int);
    let b = (d + seq![0x3au8] + s) + rest;
    lemma_spec_digits_digits(s.len() as int);
    assert(b =~= d + (seq![0x3au8] + s + rest));
    lemma_digits_len_concat(d, seq![0x3au8] + s + rest);
    let dl = digits_len(b);
    assert(dl == d.len());
    assert(b.take(dl) =~= d);
    lemma_spec_digits_val(s.len() as int);
    if s.len() >= 1 {
        lemma_spec_digits_lead(s.len() as int);
        assert(b[0] == d[0]);
    } else {
        assert(dl == 1);
    }
    assert(b[dl] == 0x3a);
    assert(b.len() - dl - 1 == s.len() + rest.len());
    assert(b.subrange(dl + 1, dl + 1 + s.len()) =~= s);
}

/// The encoding of an integer parses back to the integer, whatever follows.
#[verifier::rlimit(50)]
proof fn lemma_parse_integer_of_encoding(i: int, rest: Seq<u8>)
    requires
        i64::MIN <= i <= i64::MAX,
    ensures
        spec_parse_integer((seq![0x69u8] + spec_int_digits(i) + seq![0x65u8]) + rest) == Ok::<
            (ValueView, int),
            DecodeError,
        >((ValueView::Integer(i), 2 + spec_int_digits(i).len() as int)),
{
    let enc = seq![0x69u8] + spec_int_digits(i) + seq![0x65u8];
    let b = enc + rest;
    if i == 0 {
        assert(spec_int_digits(0) =~= seq![0x30u8]);
        assert(b.len() >= 3);
        assert(b[0] == 0x69);
        assert(b[1] == 0x30);
        let t = b.skip(1);
        assert(t[0] == b[1]);
        assert(t[1] == b[2]);
        assert(b[2] == 0x65);
    } else if i > 0 {
        let d = spec_digits(i);
        lemma_spec_digits_digits(i);
        lemma_spec_digits_lead(i);
        lemma_spec_digits_val(i);
        assert(b[0] == 0x69);
        assert(b[1] == d[0]);
        assert(is_digit(d[0]));
        let t = b.skip(1);
        assert(t =~= d + (seq![0x65u8] + rest));
        lemma_digits_len_concat(d, seq![0x65u8] + rest);
        let dl = digits_len(t);
        assert(dl == d.len());
        assert(t[0] == d[0]);
        assert(t[0] != 0x30);
        assert(t[dl] == 0x65);
        assert(t.take(dl) =~= d);
    } else {
        let m = -i;
        let d = spec_digits(m);
        lemma_spec_digits_digits(m);
        lemma_spec_digits_lead(m);
        lemma_spec_digits_val(m);
        assert(spec_int_digits(i) =~= seq![0x2du8] + d);
        assert(b[0] == 0x69);
        assert(b[1] == 0x2d);
        let t = b.skip(2);
        assert(t =~= d + (seq![0x65u8] + rest));
        lemma_digits_len_concat(d, seq![0x65u8] + rest);
        let dl = digits_len(t);
        assert(dl == d.len());
        assert(t[0] == d[0]);
        assert(t[0] != 0x30);
        assert(t[dl] == 0x65);
        assert(t.take(dl) =~= d);
        assert(b.skip(1)[0] == b[1]);
    }
}


/// Every encoding is non-empty and starts with the byte that identifies its
/// form; none starts with the terminator `e`.
proof fn lemma_encode_lead(v: ValueView)
    ensures
        spec_encode(v).len() >= 1,
        (match v {
            ValueView::BString(s) => is_digit(spec_encode(v)[0]),
            ValueView::Integer(_) => spec_encode(v)[0] == 0x69,
            ValueView::List(_) => spec_encode(v)[0] == 0x6c,
            ValueView::Dict(_) => spec_encode(v)[0] == 0x64,
        }),
        spec_encode(v)[0] != 0x65,
{
    match v {
        ValueView::BString(s) => {
            lemma_spec_digits_digits(s.len() as int);
            assert(spec_encode(v)[0] == spec_digits(s.len() as int)[0]);
        },
        _ => {},
    }
}

/// A list body's encoding can be read off its first item.
proof fn lemma_encode_items_front(vs: Seq<ValueView>)
    requires
        vs.len() > 0,
    ensures
        spec_encode_items(vs) == spec_encode(vs[0]) + spec_encode_items(vs.skip(1)),
    decreases vs.len(),
{
    if vs.len() == 1 {
        assert(vs.drop_last() =~= Seq::<ValueView>::empty());
        assert(vs.skip(1) =~= Seq::<ValueView>::empty());
        assert(vs.last() == vs[0]);
        assert(Seq::<u8>::empty() + spec_encode(vs[0]) =~= spec_encode(vs[0]));
        assert(spec_encode(vs[0]) + Seq::<u8>::empty() =~= spec_encode(vs[0]));
    } else {
        let dl = vs.drop_last();
        lemma_encode_items_front(dl);
        assert(dl[0] == vs[0]);
        assert(dl.skip(1) =~= vs.skip(1).drop_last());
        assert(vs.skip(1).last() == vs.last());
        assert(spec_encode_items(vs) =~= spec_encode(vs[0]) + spec_encode_items(vs.skip(1)));
    }
}

/// A dictionary body's encoding can be read off its first entry.
proof fn lemma_encode_pairs_front(ps: Seq<(Seq<u8>, ValueView)>)
    requires
        ps.len() > 0,
    ensures
        spec_encode_pairs(ps) == (spec_digits(ps[0].0.len() as int) + seq![0x3au8] + ps[0].0)
            + spec_encode(ps[0].1) + spec_encode_pairs(ps.skip(1)),
    decreases ps.len(),
{
    let kenc = spec_digits(ps[0].0.len() as int) + seq![0x3au8] + ps[0].0;
    if ps.len() == 1 {
        assert(ps.drop_last() =~= Seq::<(Seq<u8>, ValueView)>::empty());
        assert(ps.skip(1) =~= Seq::<(Seq<u8>, ValueView)>::empty());
        assert(ps.last() == ps[0]);
        assert(spec_encode_pairs(ps) =~= kenc + spec_encode(ps[0].1) + spec_encode_pairs(
            ps.skip(1),
        ));
    } else {
        let dl = ps.drop_last();
        lemma_encode_pairs_front(dl);
        assert(dl[0] == ps[0]);
        assert(dl.skip(1) =~= ps.skip(1).drop_last());
        assert(ps.skip(1).last() == ps.last());
        assert(spec_encode_pairs(ps) =~= kenc + spec_encode(ps[0].1) + spec_encode_pairs(
            ps.skip(1),
        ));
    }
}

/// Parsing inverts encoding.  The encoding of a canonical value, followed by
/// anything, parses back to exactly that value, consuming exactly the
/// encoding.
pub proof fn lemma_parse_of_encoding(v: ValueView, rest: Seq<u8>)
    requires
        canonical(v),
    ensures
        spec_parse(spec_encode(v) + rest) == Ok::<(ValueView, int), DecodeError>(
            (v, spec_encode(v).len() as int),
        ),
    decreases v, 0int,
{
    let b = spec_encode(v) + rest;
    lemma_encode_lead(v);
    assert(b[0] == spec_encode(v)[0]);
    match v {
        ValueView::BString(s) => {
            assert(b =~= (spec_digits(s.len() as int) + seq![0x3au8] + s) + rest);
            lemma_parse_bstring_of_encoding(s, rest);
        },
        ValueView::Integer(i) => {
            assert(b =~= (seq![0x69u8] + spec_int_digits(i) + seq![0x65u8]) + rest);
            lemma_parse_integer_of_encoding(i, rest);
        },
        ValueView::List(vs) => {
            assert(b.skip(1) =~= spec_encode_items(vs) + seq![0x65u8] + rest);
            lemma_parse_items_of_encoding(vs, rest);
        },
        ValueView::Dict(ps) => {
            assert(b.skip(1) =~= spec_encode_pairs(ps) + seq![0x65u8] + rest);
            lemma_parse_pairs_of_encoding(ps, rest, Option::None);
        },
    }
}

/// The items of a list body parse back one by one.
proof fn lemma_parse_items_of_encoding(vs: Seq<ValueView>, rest: Seq<u8>)
    requires
        forall|i: int| 0 <= i < vs.len() ==> canonical(#[trigger] vs[i]),
    ensures
        spec_parse_items(spec_encode_items(vs) + seq![0x65u8] + rest) == Ok::<
            (Seq<ValueView>, int),
            DecodeError,
        >((vs, spec_encode_items(vs).len() as int + 1)),
    decreases vs, 1int,
{
    let b = spec_encode_items(vs) + seq![0x65u8] + rest;
    if vs.len() == 0 {
        assert(spec_encode_items(vs) =~= Seq::<u8>::empty());
        assert(b[0] == 0x65);
        assert(vs =~= Seq::<ValueView>::empty());
    } else {
        lemma_encode_items_front(vs);
        let e0 = spec_encode(vs[0]);
        let tail = spec_encode_items(vs.skip(1)) + seq![0x65u8] + rest;
        lemma_encode_lead(vs[0]);
        assert(b[0] == e0[0]);
        assert(b =~= e0 + tail);
        lemma_parse_of_encoding(vs[0], tail);
        assert(b.skip(e0.len() as int) =~= tail);
        lemma_parse_items_of_encoding(vs.skip(1), rest);
        assert(seq![vs[0]] + vs.skip(1) =~= vs);
    }
}

/// The entries of a dictionary body parse back one by one, each key found to
/// exceed the one before it.
#[verifier::rlimit(80)]
#[verifier::spinoff_prover]
proof fn lemma_parse_pairs_of_encoding(
    ps: Seq<(Seq<u8>, ValueView)>,
    rest: Seq<u8>,
    prev: Option<Seq<u8>>,
)
    requires
        forall|i: int| 0 <= i < ps.len() ==> canonical(#[trigger] ps[i].1),
        forall|i: int| 0 <= i < ps.len() - 1 ==> bytes_lt(#[trigger] ps[i].0, ps[i + 1].0),
        (prev matches Option::Some(p) ==> ps.len() == 0 || bytes_lt(p, ps[0].0)),
    ensures
        spec_parse_pairs(spec_encode_pairs(ps) + seq![0x65u8] + rest, prev) == Ok::<
            (Seq<(Seq<u8>, ValueView)>, int),
            DecodeError,
        >((ps, spec_encode_pairs(ps).len() as int + 1)),
    decreases ps, 1int,
{
    let b = spec_encode_pairs(ps) + seq![0x65u8] + rest;
    if ps.len() == 0 {
        assert(spec_encode_pairs(ps) =~= Seq::<u8>::empty());
        assert(b[0] == 0x65);
        assert(ps =~= Seq::<(Seq<u8>, ValueView)>::empty());
    } else {
        lemma_encode_pairs_front(ps);
        let k0 = ps[0].0;
        let v0 = ps[0].1;
        let kenc = spec_digits(k0.len() as int) + seq![0x3au8] + k0;
        let venc = spec_encode(v0);
        let tail1 = venc + spec_encode_pairs(ps.skip(1)) + seq![0x65u8] + rest;
        let tail2 = spec_encode_pairs(ps.skip(1)) + seq![0x65u8] + rest;
        lemma_spec_digits_digits(k0.len() as int);
        assert(b =~= kenc + tail1);
        assert(b[0] == kenc[0]);
        lemma_parse_bstring_of_encoding(k0, tail1);
        assert(b.skip(kenc.len() as int) =~= venc + tail2);
        lemma_parse_of_encoding(v0, tail2);
        assert(b.skip(kenc.len() as int + venc.len() as int) =~= tail2);
        lemma_parse_pairs_of_encoding(ps.skip(1), rest, Option::Some(k0));
        assert(seq![(k0, v0)] + ps.skip(1) =~= ps);
    }
}


/// Two byte strings are equal, or one is strictly below the other.
proof fn lemma_bytes_lt_total(a: Seq<u8>, b: Seq<u8>)
    ensures
        a == b || bytes_lt(a, b) || bytes_lt(b, a),
    decreases a.len(),
{
    if b.len() == 0 {
        if a.len() == 0 {
            assert(a =~= b);
        }
    } else if a.len() == 0 {
    } else if a[0] == b[0] {
        lemma_bytes_lt_total(a.skip(1), b.skip(1));
        if a.skip(1) == b.skip(1) {
            assert(a.skip(1).len() == b.skip(1).len());
            assert forall|i: int| 0 <= i < a.len() implies a[i] == b[i] by {
                if i > 0 {
                    assert(a.skip(1)[i - 1] == a[i]);
                    assert(b.skip(1)[i - 1] == b[i]);
                }
            }
            assert(a =~= b);
        }
    }
}

/// Some entry of the run is this entry.
pub open spec fn pair_in(p: (Seq<u8>, ValueView), s: Seq<(Seq<u8>, ValueView)>) -> bool {
    exists|i: int| 0 <= i < s.len() && s[i] == p
}

/// Some entry of the run has this key.
pub open spec fn key_in(k: Seq<u8>, s: Seq<(Seq<u8>, ValueView)>) -> bool {
    exists|i: int| 0 <= i < s.len() && s[i].0 == k
}

/// Inserting an entry with a fresh key into a strictly ascending run keeps
/// it strictly ascending and adds exactly that entry.
proof fn lemma_insert_pair_props(p: (Seq<u8>, ValueView), s: Seq<(Seq<u8>, ValueView)>)
    requires
        forall|i: int| 0 <= i < s.len() - 1 ==> bytes_lt(#[trigger] s[i].0, s[i + 1].0),
        !key_in(p.0, s),
    ensures
        insert_pair(p, s).len() == s.len() + 1,
        forall|i: int|
            0 <= i < insert_pair(p, s).len() - 1 ==> bytes_lt(
                #[trigger] insert_pair(p, s)[i].0,
                insert_pair(p, s)[i + 1].0,
            ),
        forall|q: (Seq<u8>, ValueView)|
            #[trigger] pair_in(q, insert_pair(p, s)) <==> q == p || pair_in(q, s),
        forall|k: Seq<u8>| #[trigger] key_in(k, insert_pair(p, s)) <==> k == p.0 || key_in(k, s),
    decreases s.len(),
{
    let r = insert_pair(p, s);
    if s.len() == 0 {
        assert(r =~= seq![p]);
        assert forall|q: (Seq<u8>, ValueView)| #[trigger]
            pair_in(q, r) <==> q == p || pair_in(q, s) by {
            if q == p {
                assert(r[0] == p);
            }
        }
        assert forall|k: Seq<u8>| #[trigger] key_in(k, r) <==> k == p.0 || key_in(k, s) by {
            if k == p.0 {
                assert(r[0].0 == p.0);
            }
        }
    } else if bytes_le(p.0, s[0].0) {
        assert(!(s[0].0 == p.0)) by {
            assert(key_in(p.0, s) ==> false);
            if s[0].0 == p.0 {
                assert(s[0].0 == p.0);
            }
        }
        assert(bytes_lt(p.0, s[0].0));
        assert(r =~= seq![p] + s);
        assert forall|i: int| 0 <= i < r.len() - 1 implies bytes_lt(
            #[trigger] r[i].0,
            r[i + 1].0,
        ) by {
            if i == 0 {
                assert(r[0] == p && r[1] == s[0]);
            } else {
                assert(r[i] == s[i - 1] && r[i + 1] == s[i]);
            }
        }
        assert forall|q: (Seq<u8>, ValueView)| #[trigger]
            pair_in(q, r) <==> q == p || pair_in(q, s) by {
            if pair_in(q, r) {
                let i = choose|i: int| 0 <= i < r.len() && r[i] == q;
                if i > 0 {
                    assert(s[i - 1] == q);
                }
            }
            if q == p {
                assert(r[0] == p);
            }
            if pair_in(q, s) {
                let i = choose|i: int| 0 <= i < s.len() && s[i] == q;
                assert(r[i + 1] == q);
            }
        }
        assert forall|k: Seq<u8>| #[trigger] key_in(k, r) <==> k == p.0 || key_in(k, s) by {
            if key_in(k, r) {
                let i = choose|i: int| 0 <= i < r.len() && r[i].0 == k;
                if i > 0 {
                    assert(s[i - 1].0 == k);
                }
            }
            if k == p.0 {
                assert(r[0].0 == k);
            }
            if key_in(k, s) {
                let i = choose|i: int| 0 <= i < s.len() && s[i].0 == k;
                assert(r[i + 1].0 == k);
            }
        }
    } else {
        assert(!(s[0].0 == p.0)) by {
            if s[0].0 == p.0 {
                assert(key_in(p.0, s));
            }
        }
        lemma_bytes_lt_total(p.0, s[0].0);
        assert(bytes_lt(s[0].0, p.0));
        assert(!key_in(p.0, s.skip(1))) by {
            if key_in(p.0, s.skip(1)) {
                let i = choose|i: int| 0 <= i < s.skip(1).len() && s.skip(1)[i].0 == p.0;
                assert(s[i + 1].0 == p.0);
                assert(key_in(p.0, s));
            }
        }
        assert(forall|i: int|
            0 <= i < s.skip(1).len() - 1 ==> bytes_lt(#[trigger] s.skip(1)[i].0, s.skip(1)[i
                + 1].0)) by {
            assert(forall|i: int|
                0 <= i < s.skip(1).len() ==> #[trigger] s.skip(1)[i] == s[i + 1]);
        }
        lemma_insert_pair_props(p, s.skip(1));
        let ir = insert_pair(p, s.skip(1));
        assert(r =~= seq![s[0]] + ir);
        assert(ir[0] == p || ir[0] == s.skip(1)[0]) by {
            if s.skip(1).len() == 0 {
                assert(ir =~= seq![p]);
            } else if bytes_le(p.0, s.skip(1)[0].0) {
                assert(ir =~= seq![p] + s.skip(1));
            } else {
                assert(ir =~= seq![s.skip(1)[0]] + insert_pair(p, s.skip(1).skip(1)));
            }
        }
        assert(bytes_lt(r[0].0, r[1].0)) by {
            assert(r[1] == ir[0]);
            if ir[0] == p {
            } else {
                assert(s.skip(1)[0] == s[1]);
            }
        }
        assert forall|i: int| 0 <= i < r.len() - 1 implies bytes_lt(
            #[trigger] r[i].0,
            r[i + 1].0,
        ) by {
            if i > 0 {
                assert(r[i] == ir[i - 1] && r[i + 1] == ir[i]);
            }
        }
        assert forall|q: (Seq<u8>, ValueView)| #[trigger]
            pair_in(q, r) <==> q == p || pair_in(q, s) by {
            if pair_in(q, r) {
                let i = choose|i: int| 0 <= i < r.len() && r[i] == q;
                if i == 0 {
                    assert(s[0] == q);
                } else {
                    assert(ir[i - 1] == q);
                    assert(pair_in(q, ir));
                    if pair_in(q, s.skip(1)) {
                        let j = choose|j: int| 0 <= j < s.skip(1).len() && s.skip(1)[j] == q;
                        assert(s[j + 1] == q);
                    }
                }
            }
            if q == p {
                assert(pair_in(q, ir));
                let i = choose|i: int| 0 <= i < ir.len() && ir[i] == q;
                assert(r[i + 1] == q);
            }
            if pair_in(q, s) {
                let i = choose|i: int| 0 <= i < s.len() && s[i] == q;
                if i == 0 {
                    assert(r[0] == q);
                } else {
                    assert(s.skip(1)[i - 1] == q);
                    assert(pair_in(q, s.skip(1)));
                    assert(pair_in(q, ir));
                    let j = choose|j: int| 0 <= j < ir.len() && ir[j] == q;
                    assert(r[j + 1] == q);
                }
            }
        }
        assert forall|k: Seq<u8>| #[trigger] key_in(k, r) <==> k == p.0 || key_in(k, s) by {
            if key_in(k, r) {
                let i = choose|i: int| 0 <= i < r.len() && r[i].0 == k;
                if i == 0 {
                    assert(s[0].0 == k);
                } else {
                    assert(ir[i - 1].0 == k);
                    assert(key_in(k, ir));
                    if key_in(k, s.skip(1)) {
                        let j = choose|j: int| 0 <= j < s.skip(1).len() && s.skip(1)[j].0 == k;
                        assert(s[j + 1].0 == k);
                    }
                }
            }
            if k == p.0 {
                assert(key_in(k, ir));
                let i = choose|i: int| 0 <= i < ir.len() && ir[i].0 == k;
                assert(r[i + 1].0 == k);
            }
            if key_in(k, s) {
                let i = choose|i: int| 0 <= i < s.len() && s[i].0 == k;
                if i == 0 {
                    assert(r[0].0 == k);
                } else {
                    assert(s.skip(1)[i - 1].0 == k);
                    assert(key_in(k, s.skip(1)));
                    assert(key_in(k, ir));
                    let j = choose|j: int| 0 <= j < ir.len() && ir[j].0 == k;
                    assert(r[j + 1].0 == k);
                }
            }
        }
    }
}

/// Sorting entries with pairwise distinct keys yields a strictly ascending
/// run of exactly the same entries.
proof fn lemma_sort_pairs_props(s: Seq<(Seq<u8>, ValueView)>)
    requires
        forall|i: int, j: int| 0 <= i < j < s.len() ==> (#[trigger] s[i].0) != (#[trigger] s[j].0),
    ensures
        sort_pairs(s).len() == s.len(),
        forall|i: int|
            0 <= i < sort_pairs(s).len() - 1 ==> bytes_lt(
                #[trigger] sort_pairs(s)[i].0,
                sort_pairs(s)[i + 1].0,
            ),
        forall|q: (Seq<u8>, ValueView)| #[trigger] pair_in(q, sort_pairs(s)) <==> pair_in(q, s),
        forall|k: Seq<u8>| #[trigger] key_in(k, sort_pairs(s)) <==> key_in(k, s),
    decreases s.len(),
{
    if s.len() > 0 {
        let s1 = s.skip(1);
        assert(forall|i: int| 0 <= i < s1.len() ==> #[trigger] s1[i] == s[i + 1]);
        lemma_sort_pairs_props(s1);
        let sorted1 = sort_pairs(s1);
        assert(!key_in(s[0].0, sorted1)) by {
            if key_in(s[0].0, sorted1) {
                assert(key_in(s[0].0, s1));
                let j = choose|j: int| 0 <= j < s1.len() && s1[j].0 == s[0].0;
                assert(s[j + 1].0 == s[0].0);
            }
        }
        lemma_insert_pair_props(s[0], sorted1);
        assert(sort_pairs(s) == insert_pair(s[0], sorted1));
        assert forall|q: (Seq<u8>, ValueView)| #[trigger]
            pair_in(q, sort_pairs(s)) <==> pair_in(q, s) by {
            if pair_in(q, sort_pairs(s)) {
                if q == s[0] {
                    assert(s[0] == q);
                    assert(pair_in(q, s));
                } else {
                    assert(pair_in(q, s1));
                    let j = choose|j: int| 0 <= j < s1.len() && s1[j] == q;
                    assert(s[j + 1] == q);
                }
            }
            if pair_in(q, s) {
                let i = choose|i: int| 0 <= i < s.len() && s[i] == q;
                if i == 0 {
                } else {
                    assert(s1[i - 1] == q);
                    assert(pair_in(q, s1));
                }
            }
        }
        assert forall|k: Seq<u8>| #[trigger] key_in(k, sort_pairs(s)) <==> key_in(k, s) by {
            if key_in(k, sort_pairs(s)) {
                if k == s[0].0 {
                    assert(key_in(k, s));
                } else {
                    assert(key_in(k, s1));
                    let j = choose|j: int| 0 <= j < s1.len() && s1[j].0 == k;
                    assert(s[j + 1].0 == k);
                }
            }
            if key_in(k, s) {
                let i = choose|i: int| 0 <= i < s.len() && s[i].0 == k;
                if i == 0 {
                } else {
                    assert(s1[i - 1].0 == k);
                    assert(key_in(k, s1));
                }
            }
        }
    }
}

/// A value whose integers fit the signed 64-bit range and whose
/// dictionaries' keys are pairwise distinct, in whatever order.  This is
/// everything `encode` needs to emit a canonical document.
pub open spec fn well_formed(v: ValueView) -> bool
    decreases v,
{
    match v {
        ValueView::BString(s) => true,
        ValueView::Integer(i) => i64::MIN <= i <= i64::MAX,
        ValueView::List(vs) => forall|i: int|
            0 <= i < vs.len() ==> well_formed(#[trigger] vs[i]),
        ValueView::Dict(ps) => (forall|i: int|
            0 <= i < ps.len() ==> well_formed(#[trigger] ps[i].1)) && (forall|i: int, j: int|
            0 <= i < j < ps.len() ==> (#[trigger] ps[i].0) != (#[trigger] ps[j].0)),
    }
}

proof fn lemma_deep_sort_items_index(vs: Seq<ValueView>)
    ensures
        deep_sort_items(vs).len() == vs.len(),
        forall|i: int|
            0 <= i < vs.len() ==> #[trigger] deep_sort_items(vs)[i] == deep_sort(vs[i]),
    decreases vs,
{
    if vs.len() > 0 {
        lemma_deep_sort_items_index(vs.drop_last());
        assert forall|i: int| 0 <= i < vs.len() implies #[trigger] deep_sort_items(vs)[i]
            == deep_sort(vs[i]) by {
            if i < vs.len() - 1 {
                assert(deep_sort_items(vs)[i] == deep_sort_items(vs.drop_last())[i]);
                assert(vs.drop_last()[i] == vs[i]);
            } else {
                assert(vs.last() == vs[i]);
            }
        }
    }
}

proof fn lemma_deep_sort_entries_index(ps: Seq<(Seq<u8>, ValueView)>)
    ensures
        deep_sort_entries(ps).len() == ps.len(),
        forall|i: int|
            0 <= i < ps.len() ==> #[trigger] deep_sort_entries(ps)[i] == (
                ps[i].0,
                deep_sort(ps[i].1),
            ),
    decreases ps,
{
    if ps.len() > 0 {
        lemma_deep_sort_entries_index(ps.drop_last());
        assert forall|i: int| 0 <= i < ps.len() implies #[trigger] deep_sort_entries(ps)[i] == (
            ps[i].0,
            deep_sort(ps[i].1),
        ) by {
            if i < ps.len() - 1 {
                assert(deep_sort_entries(ps)[i] == deep_sort_entries(ps.drop_last())[i]);
                assert(ps.drop_last()[i] == ps[i]);
            } else {
                assert(ps.last() == ps[i]);
            }
        }
    }
}

/// Law: encoding canonicalizes.  The form that `encode` emits for any
/// well-formed value — its deep sort — is canonical: in particular, every
/// dictionary's keys come out in strictly ascending byte-lexicographic
/// order, whatever order the value was built in.
pub proof fn lemma_encode_canonical(v: ValueView)
    requires
        well_formed(v),
    ensures
        canonical(deep_sort(v)),
    decreases v,
{
    match v {
        ValueView::BString(_) => {},
        ValueView::Integer(_) => {},
        ValueView::List(vs) => {
            lemma_deep_sort_items_index(vs);
            assert forall|i: int| 0 <= i < deep_sort_items(vs).len() implies canonical(
                #[trigger] deep_sort_items(vs)[i],
            ) by {
                lemma_encode_canonical(vs[i]);
            }
        },
        ValueView::Dict(ps) => {
            lemma_deep_sort_entries_index(ps);
            let entries = deep_sort_entries(ps);
            assert(forall|i: int, j: int|
                0 <= i < j < entries.len() ==> (#[trigger] entries[i].0) != (
                #[trigger] entries[j].0));
            lemma_sort_pairs_props(entries);
            let sorted = sort_pairs(entries);
            assert forall|i: int| 0 <= i < sorted.len() implies canonical(
                #[trigger] sorted[i].1,
            ) by {
                assert(pair_in(sorted[i], sorted)) by {
                    assert(sorted[i] == sorted[i]);
                }
                assert(pair_in(sorted[i], entries));
                let j = choose|j: int| 0 <= j < entries.len() && entries[j] == sorted[i];
                lemma_encode_canonical(ps[j].1);
            }
        },
    }
}

/// Sorting a strictly ascending run changes nothing.
proof fn lemma_sort_of_sorted(s: Seq<(Seq<u8>, ValueView)>)
    requires
        forall|i: int| 0 <= i < s.len() - 1 ==> bytes_lt(#[trigger] s[i].0, s[i + 1].0),
    ensures
        sort_pairs(s) == s,
    decreases s.len(),
{
    if s.len() > 0 {
        let s1 = s.skip(1);
        assert(forall|i: int| 0 <= i < s1.len() ==> #[trigger] s1[i] == s[i + 1]);
        lemma_sort_of_sorted(s1);
        if s1.len() == 0 {
            assert(insert_pair(s[0], s1) =~= seq![s[0]]);
            assert(sort_pairs(s) =~= s);
        } else {
            assert(bytes_lt(s[0].0, s1[0].0));
            assert(insert_pair(s[0], s1) =~= seq![s[0]] + s1);
            assert(sort_pairs(s) =~= s);
        }
    }
}

/// A canonical value is already deeply sorted.
pub proof fn lemma_deep_sort_of_canonical(v: ValueView)
    requires
        canonical(v),
    ensures
        deep_sort(v) == v,
    decreases v,
{
    match v {
        ValueView::BString(_) => {},
        ValueView::Integer(_) => {},
        ValueView::List(vs) => {
            lemma_deep_sort_items_index(vs);
            assert forall|i: int| 0 <= i < vs.len() implies #[trigger] deep_sort_items(vs)[i]
                == vs[i] by {
                lemma_deep_sort_of_canonical(vs[i]);
            }
            assert(deep_sort_items(vs) =~= vs);
        },
        ValueView::Dict(ps) => {
            lemma_deep_sort_entries_index(ps);
            assert forall|i: int| 0 <= i < ps.len() implies #[trigger] deep_sort_entries(ps)[i]
                == ps[i] by {
                lemma_deep_sort_of_canonical(ps[i].1);
            }
            assert(deep_sort_entries(ps) =~= ps);
            lemma_sort_of_sorted(ps);
        },
    }
}

/// Law: decoding inverts encoding.  A canonical value is unchanged by the
/// deep sort that `encode` applies, and decoding its encoding yields exactly
/// the value back.
pub proof fn lemma_round_trip(v: ValueView)
    requires
        canonical(v),
    ensures
        deep_sort(v) == v,
        spec_decode(spec_encode(v)) == Ok::<ValueView, DecodeError>(v),
{
    lemma_deep_sort_of_canonical(v);
    lemma_parse_of_encoding(v, Seq::empty());
    assert(spec_encode(v) + Seq::<u8>::empty() =~= spec_encode(v));
}


/// The value of the first entry with this key, if any.
pub open spec fn spec_dict_get(ps: Seq<(Seq<u8>, ValueView)>, key: Seq<u8>) -> Option<ValueView>
    decreases ps.len(),
{
    if ps.len() == 0 {
        Option::None
    } else if ps[0].0 == key {
        Option::Some(ps[0].1)
    } else {
        spec_dict_get(ps.skip(1), key)
    }
}

proof fn lemma_dict_get_skip(ps: Seq<(Seq<u8>, ValueView)>, key: Seq<u8>, i: int)
    requires
        0 <= i <= ps.len(),
        forall|k: int| 0 <= k < i ==> (#[trigger] ps[k].0) != key,
    ensures
        spec_dict_get(ps, key) == spec_dict_get(ps.skip(i), key),
    decreases i,
{
    if i > 0 {
        lemma_dict_get_skip(ps.skip(1), key, i - 1);
        assert(ps.skip(1).skip(i - 1) =~= ps.skip(i));
    } else {
        assert(ps.skip(0) =~= ps);
    }
}

/// Look a key up among a dictionary's entries.
#[verifier::loop_isolation(false)]
pub fn dict_get<'a>(ps: &'a Vec<(Vec<u8>, Value)>, key: &[u8]) -> (r: Option<&'a Value>)
    ensures
        (match r {
            Some(v) => spec_dict_get(view_of_pairs(ps@), key@) == Option::Some(v@),
            None => spec_dict_get(view_of_pairs(ps@), key@) is None,
        }),
{
    let len = ps.len();
    let mut i: usize = 0;
    proof {
        lemma_view_of_pairs_index(ps@);
    }
    while i < len
        invariant
            0 <= i <= len,
            forall|k: int| 0 <= k < i ==> (#[trigger] view_of_pairs(ps@)[k].0) != key@,
        decreases len - i,
    {
        match compare_bytes_slice(ps[i].0.as_slice(), key) {
            core::cmp::Ordering::Equal => {
                proof {
                    lemma_dict_get_skip(view_of_pairs(ps@), key@, i as int);
                    assert(view_of_pairs(ps@).skip(i as int)[0] == view_of_pairs(ps@)[i as int]);
                }
                return Some(&ps[i].1);
            },
            _ => {
                i = i + 1;
            },
        }
    }
    proof {
        lemma_dict_get_skip(view_of_pairs(ps@), key@, len as int);
        assert(view_of_pairs(ps@).skip(len as int).len() == 0);
    }
    None
}



/// The scanned digit run lies within the buffer and is digits throughout.
proof fn lemma_digits_len_facts(b: Seq<u8>)
    ensures
        0 <= digits_len(b) <= b.len(),
        forall|j: int| 0 <= j < digits_len(b) ==> is_digit(#[trigger] b[j]),
    decreases b.len(),
{
    if b.len() > 0 && is_digit(b[0]) {
        lemma_digits_len_facts(b.skip(1));
        assert forall|j: int| 0 <= j < digits_len(b) implies is_digit(#[trigger] b[j]) by {
            if j > 0 {
                assert(b.skip(1)[j - 1] == b[j]);
            }
        }
    }
}

/// Digits with no superfluous leading zero are the canonical digits of the
/// number they write.
proof fn lemma_digits_val_lead_pos(d: Seq<u8>)
    requires
        forall|j: int| 0 <= j < d.len() ==> is_digit(#[trigger] d[j]),
        d.len() >= 1,
        d[0] != 0x30,
    ensures
        digits_val(d) >= 1,
    decreases d.len(),
{
    if d.len() == 1 {
        assert(d.drop_last() =~= Seq::<u8>::empty());
        assert(digits_val(d) == digits_val(Seq::<u8>::empty()) * 10 + (d.last() - 0x30));
    } else {
        let dl = d.drop_last();
        assert(dl[0] == d[0]);
        assert(forall|j: int| 0 <= j < dl.len() ==> dl[j] == d[j]);
        lemma_digits_val_lead_pos(dl);
    }
}

proof fn lemma_digits_canonical(d: Seq<u8>)
    requires
        forall|j: int| 0 <= j < d.len() ==> is_digit(#[trigger] d[j]),
        d.len() >= 1,
        d[0] != 0x30 || d.len() == 1,
    ensures
        spec_digits(digits_val(d)) == d,
    decreases d.len(),
{
    lemma_digits_val_nonneg(d);
    if d.len() == 1 {
        assert(d.drop_last() =~= Seq::<u8>::empty());
        assert(digits_val(d) == digits_val(Seq::<u8>::empty()) * 10 + (d.last() - 0x30));
        assert(d.last() == d[0]);
        assert(spec_digits(digits_val(d)) =~= d);
    } else {
        let dl = d.drop_last();
        assert(dl[0] == d[0]);
        lemma_digits_canonical(dl);
        lemma_digits_val_lead_pos(dl);
        lemma_digits_val_nonneg(dl);
        let m = digits_val(d);
        assert(m == digits_val(dl) * 10 + (d.last() - 0x30));
        assert(m >= 10);
        assert(m / 10 == digits_val(dl) && m % 10 == d.last() - 0x30) by (nonlinear_arith)
            requires
                m == digits_val(dl) * 10 + (d.last() - 0x30),
                0 <= d.last() - 0x30 < 10,
                digits_val(dl) >= 0,
        ;
        assert(spec_digits(m) == spec_digits(digits_val(dl)).push((0x30 + m % 10) as u8));
        assert(spec_digits(m) =~= d);
    }
}

/// Whatever the byte-string form accepts is spelled exactly as its canonical
/// header and body.
proof fn lemma_parse_bstring_sound(b: Seq<u8>)
    ensures
        (spec_parse_bstring(b) matches Ok(t) ==> 1 <= t.1 <= b.len() && b.take(t.1) == spec_digits(
            t.0.len() as int,
        ) + seq![0x3au8] + t.0),
{
    match spec_parse_bstring(b) {
        Err(_) => {},
        Ok(t) => {
        let s = t.0;
        let n = t.1;
        let dl = digits_len(b);
        lemma_digits_len_facts(b);
        assert(forall|j: int| 0 <= j < dl ==> b.take(dl)[j] == b[j]);
        assert(b.take(dl)[0] == b[0]);
        lemma_digits_val_nonneg(b.take(dl));
        lemma_digits_canonical(b.take(dl));
        assert(s.len() == digits_val(b.take(dl)));
        let rhs = spec_digits(s.len() as int) + seq![0x3au8] + s;
        assert(rhs.len() == dl + 1 + s.len());
        assert forall|i: int| 0 <= i < n implies b.take(n)[i] == rhs[i] by {
            if i < dl {
                assert(rhs[i] == b.take(dl)[i]);
            } else if i == dl {
            } else {
                assert(rhs[i] == s[i - dl - 1]);
                assert(s[i - dl - 1] == b[i]);
            }
        }
        assert(b.take(n) =~= rhs);
        },
    }
}

/// Whatever the integer form accepts is spelled exactly as its canonical
/// digits between `i` and `e`.
#[verifier::rlimit(50)]
proof fn lemma_parse_integer_sound(b: Seq<u8>)
    ensures
        (spec_parse_integer(b) matches Ok(t) ==> 1 <= t.1 <= b.len() && (t.0 matches
            ValueView::Integer(i) && i64::MIN <= i <= i64::MAX && b.take(t.1) == seq![0x69u8]
            + spec_int_digits(i) + seq![0x65u8])),
{
    match spec_parse_integer(b) {
        Err(_) => {},
        Ok(t) => {
        let n = t.1;
        let neg = b[1] == 0x2d;
        let sk: int = if neg {
            2
        } else {
            1
        };
        let t = b.skip(sk);
        if t[0] == 0x30 {
            assert(spec_int_digits(0) =~= seq![0x30u8]);
            assert(b.take(3) =~= seq![0x69u8] + spec_int_digits(0) + seq![0x65u8]);
        } else {
            let dl = digits_len(t);
            lemma_digits_len_facts(t);
            assert(forall|j: int| 0 <= j < dl ==> t.take(dl)[j] == t[j]);
            assert(t.take(dl)[0] == t[0]);
            lemma_digits_canonical(t.take(dl));
            let m = digits_val(t.take(dl));
            lemma_digits_val_lead_pos(t.take(dl));
            let i: int = if neg {
                -m
            } else {
                m
            };
            assert(spec_digits(m) == t.take(dl));
            if neg {
                assert(spec_int_digits(i) =~= seq![0x2du8] + t.take(dl));
            } else {
                assert(spec_int_digits(i) == t.take(dl));
            }
            assert(b.take(n) =~= seq![0x69u8] + spec_int_digits(i) + seq![0x65u8]);
        }
        },
    }
}

/// Whatever the value form accepts is canonical and is spelled exactly as
/// that value's encoding.
pub proof fn lemma_parse_sound(b: Seq<u8>)
    ensures
        (spec_parse(b) matches Ok(t) ==> canonical(t.0) && 1 <= t.1 <= b.len() && b.take(t.1)
            == spec_encode(t.0)),
    decreases b.len(), 0int,
{
    match spec_parse(b) {
        Err(_) => {},
        Ok(t) => {
        let n = t.1;
        if b[0] == 0x69 {
            lemma_parse_integer_sound(b);
        } else if b[0] == 0x6c {
            lemma_parse_items_sound(b.skip(1));
            let vs = spec_parse_items(b.skip(1)).unwrap().0;
            let m = spec_parse_items(b.skip(1)).unwrap().1;
            assert(b.skip(1).take(m) == spec_encode_items(vs) + seq![0x65u8]);
            assert(b.take(1 + m) =~= seq![0x6cu8] + b.skip(1).take(m));
            assert(b.take(n) =~= seq![0x6cu8] + spec_encode_items(vs) + seq![0x65u8]);
        } else if b[0] == 0x64 {
            lemma_parse_pairs_sound(b.skip(1), Option::None);
            let ps = spec_parse_pairs(b.skip(1), Option::None).unwrap().0;
            let m = spec_parse_pairs(b.skip(1), Option::None).unwrap().1;
            assert(b.skip(1).take(m) == spec_encode_pairs(ps) + seq![0x65u8]);
            assert(b.take(1 + m) =~= seq![0x64u8] + b.skip(1).take(m));
            assert(b.take(n) =~= seq![0x64u8] + spec_encode_pairs(ps) + seq![0x65u8]);
        } else {
            lemma_parse_bstring_sound(b);
        }
        },
    }
}

/// Whatever a list body accepts is canonical items spelled exactly as their
/// encodings, the terminator included.
proof fn lemma_parse_items_sound(b: Seq<u8>)
    ensures
        (spec_parse_items(b) matches Ok(t) ==> (forall|i: int|
            0 <= i < t.0.len() ==> canonical(#[trigger] t.0[i])) && 1 <= t.1 <= b.len() && b.take(
            t.1,
        ) == spec_encode_items(t.0) + seq![0x65u8]),
    decreases b.len(), 1int,
{
    match spec_parse_items(b) {
        Err(_) => {},
        Ok(t) => {
        let vs = t.0;
        let n = t.1;
        if b[0] == 0x65 {
            assert(spec_encode_items(vs) =~= Seq::<u8>::empty());
            assert(b.take(1) =~= spec_encode_items(vs) + seq![0x65u8]);
        } else {
            lemma_parse_sound(b);
            let v = spec_parse(b).unwrap().0;
            let n1 = spec_parse(b).unwrap().1;
            lemma_parse_items_sound(b.skip(n1));
            let vs1 = spec_parse_items(b.skip(n1)).unwrap().0;
            let m = spec_parse_items(b.skip(n1)).unwrap().1;
            assert(vs == seq![v] + vs1);
            assert(vs[0] == v);
            assert(forall|i: int| 0 <= i < vs1.len() ==> #[trigger] vs1[i] == vs[i + 1]);
            assert(vs.skip(1) =~= vs1);
            lemma_encode_items_front(vs);
            assert(b.take(n) =~= b.take(n1) + b.skip(n1).take(m));
            assert(b.take(n) =~= spec_encode_items(vs) + seq![0x65u8]);
        }
        },
    }
}

/// Whatever a dictionary body accepts is canonical entries with strictly
/// ascending keys (all above `prev`), spelled exactly as their encodings,
/// the terminator included.
#[verifier::rlimit(80)]
#[verifier::spinoff_prover]
proof fn lemma_parse_pairs_sound(b: Seq<u8>, prev: Option<Seq<u8>>)
    ensures
        (spec_parse_pairs(b, prev) matches Ok(t) ==> (forall|i: int|
            0 <= i < t.0.len() ==> canonical(#[trigger] t.0[i].1)) && (forall|i: int|
            0 <= i < t.0.len() - 1 ==> bytes_lt(#[trigger] t.0[i].0, t.0[i + 1].0)) && (prev
            matches Option::Some(p) ==> t.0.len() == 0 || bytes_lt(p, t.0[0].0)) && 1 <= t.1
            <= b.len() && b.take(t.1) == spec_encode_pairs(t.0) + seq![0x65u8]),
    decreases b.len(), 1int,
{
    match spec_parse_pairs(b, prev) {
        Err(_) => {},
        Ok(t) => {
        let ps = t.0;
        let n = t.1;
        if b[0] == 0x65 {
            assert(spec_encode_pairs(ps) =~= Seq::<u8>::empty());
            assert(b.take(1) =~= spec_encode_pairs(ps) + seq![0x65u8]);
        } else {
            lemma_parse_bstring_sound(b);
            let key = spec_parse_bstring(b).unwrap().0;
            let kn = spec_parse_bstring(b).unwrap().1;
            lemma_parse_sound(b.skip(kn));
            let v = spec_parse(b.skip(kn)).unwrap().0;
            let vn = spec_parse(b.skip(kn)).unwrap().1;
            lemma_parse_pairs_sound(b.skip(kn + vn), Option::Some(key));
            let ps1 = spec_parse_pairs(b.skip(kn + vn), Option::Some(key)).unwrap().0;
            let m = spec_parse_pairs(b.skip(kn + vn), Option::Some(key)).unwrap().1;
            assert(ps == seq![(key, v)] + ps1);
            assert(ps[0] == (key, v));
            assert(forall|i: int| 0 <= i < ps1.len() ==> #[trigger] ps1[i] == ps[i + 1]);
            assert(ps.skip(1) =~= ps1);
            assert forall|i: int| 0 <= i < ps.len() - 1 implies bytes_lt(
                #[trigger] ps[i].0,
                ps[i + 1].0,
            ) by {
                if i == 0 {
                    assert(ps1.len() > 0);
                    assert(ps1[0] == ps[1]);
                } else {
                    assert(ps1[i - 1] == ps[i] && ps1[i] == ps[i + 1]);
                }
            }
            lemma_encode_pairs_front(ps);
            assert(b.skip(kn).skip(vn) =~= b.skip(kn + vn));
            assert(b.take(n) =~= b.take(kn) + b.skip(kn).take(vn) + b.skip(kn + vn).take(m));
            assert(b.take(n) =~= spec_encode_pairs(ps) + seq![0x65u8]);
        }
        },
    }
}

/// Law: the round trip for any well-formed value, sorted or not.  Encoding
/// first deep-sorts, so decoding the encoding yields the value's canonical
/// arrangement: the same dictionaries as mappings, every key run ascending.
pub proof fn lemma_round_trip_well_formed(v: ValueView)
    requires
        well_formed(v),
    ensures
        spec_decode(spec_encode(deep_sort(v))) == Ok::<ValueView, DecodeError>(deep_sort(v)),
{
    lemma_encode_canonical(v);
    lemma_round_trip(deep_sort(v));
}

/// Law: decoding accepts only canonical documents, and what it accepts
/// re-encodes to exactly the bytes it was decoded from.  Hashing a decoded
/// value's re-encoding is therefore hashing the verbatim source bytes.
pub proof fn lemma_decode_sound(b: Seq<u8>)
    ensures
        (spec_decode(b) matches Ok(v) ==> canonical(v) && deep_sort(v) == v && spec_encode(v)
            == b),
{
    match spec_decode(b) {
        Err(_) => {},
        Ok(v) => {
            lemma_parse_sound(b);
            assert(b.take(b.len() as int) =~= b);
            lemma_deep_sort_of_canonical(v);
        },
    }
}

} // verus!
