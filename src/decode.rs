//! The tag grammar and the recursive decoder over a byte buffer.
use vstd::prelude::*;
use crate::value::{
    Doc, Entries, Number, Value, entries_view, has_key, keys_unique, lemma_put_unique, lookup, lemma_contents_well_keyed,
    lemma_put_well_keyed, lemma_view_entries, put, table_put, well_keyed,
};
use crate::text::{dec, decimal, json_of, json_text};

verus! {

/// Failures of the byte source.
#[derive(Clone, Copy, Debug, PartialEq, Eq, Structural)]
pub enum IoError {
    /// Fewer bytes remained than the format required.
    Truncated,
    /// The start offset lies past the end of the source.
    InvalidSeek,
}

/// Why a stream could not be decoded.
#[derive(Clone, Copy, Debug, PartialEq, Eq, Structural)]
pub enum DecodeError {
    Io(IoError),
    /// A tag byte outside the format, with the offset just past it.
    UnknownTag(u8, u64),
    /// A string payload that is not valid UTF-8.
    Encoding,
    /// A 64-bit float whose bit pattern is NaN or infinite.
    Numeric,
    /// A table key with no canonical text.
    KeyConversion,
}

/// The error for a source that ended too soon.
pub open spec fn truncated() -> DecodeError {
    DecodeError::Io(IoError::Truncated)
}

/// The little-endian unsigned value of a byte sequence.
pub open spec fn le_uint(b: Seq<u8>) -> nat
    decreases b.len(),
{
    if b.len() == 0 {
        0
    } else {
        b[0] as nat + 256 * le_uint(b.drop_first())
    }
}

pub open spec fn pow256(k: nat) -> nat
    decreases k,
{
    if k == 0 { 1 } else { 256 * pow256((k - 1) as nat) }
}

/// The unsigned integer of `w` bytes at `p`, and the position after it.
pub open spec fn uint_at(d: Seq<u8>, p: int, w: int) -> Result<(nat, int), DecodeError> {
    if p + w > d.len() {
        Err(truncated())
    } else {
        Ok((le_uint(d.subrange(p, p + w)), p + w))
    }
}

/// Whether a double's bit pattern is finite (not NaN, not infinite).
pub open spec fn is_finite_bits(bits: u64) -> bool {
    (bits >> 52u64) & 0x7ffu64 != 0x7ffu64
}

/// The text that the bytes encode in UTF-8, or `None` where they are not
/// valid UTF-8.
pub uninterp spec fn utf8_text(b: Seq<u8>) -> Option<Seq<char>>;

/// Relies on std::str::from_utf8: it accepts exactly the valid UTF-8 byte
/// sequences and yields their text.
#[verifier::external_body]
fn utf8_decode(d: &[u8], start: usize, end: usize) -> (r: Option<String>)
    requires
        start <= end <= d@.len(),
    ensures
        match utf8_text(d@.subrange(start as int, end as int)) {
            Some(t) => r is Some && r->0@ == t,
            None => r is None,
        },
{
    std::str::from_utf8(&d[start..end]).ok().map(|s| s.to_string())
}

/// The width in bytes of the integer that follows an integer tag.
pub open spec fn uint_width(tag: u8) -> int {
    if tag == 0x03 || tag == 0x0e { 1 }
    else if tag == 0x04 || tag == 0x0f { 2 }
    else if tag == 0x05 || tag == 0x10 { 4 }
    else if tag == 0x06 { 8 }
    else { 0 }
}

/// The tags that the format defines.
pub open spec fn is_known_tag(tag: u8) -> bool {
    tag <= 0x09 || tag == 0x0b || tag == 0x0d || tag == 0x0e || tag == 0x0f || tag == 0x10
}

/// A length-prefixed string at `p`, its prefix `w` bytes wide.
pub open spec fn parse_str(d: Seq<u8>, p: int, w: int) -> Result<(Doc, int), DecodeError> {
    match uint_at(d, p, w) {
        Err(x) => Err(x),
        Ok((n, q)) => if q + n > d.len() {
            Err(truncated())
        } else {
            match utf8_text(d.subrange(q, q + n)) {
                None => Err(DecodeError::Encoding),
                Some(s) => Ok((Doc::Str(s), q + n)),
            }
        },
    }
}

/// The canonical text of a key in a table's hash part.
pub open spec fn hash_key(k: Doc) -> Result<Seq<char>, DecodeError> {
    match k {
        Doc::Number(Number::UInt(n)) => Ok(dec(n as nat)),
        Doc::Number(Number::Float(_)) => Err(DecodeError::KeyConversion),
        Doc::Str(s) => Ok(s),
        _ => match json_of(k) {
            Some(t) => Ok(t),
            None => Err(DecodeError::KeyConversion),
        },
    }
}

/// The value encoded at `p`: its tag, its model and the position after it.
pub open spec fn parse_value(d: Seq<u8>, p: int) -> Result<(u8, Doc, int), DecodeError>
    decreases d.len() - p, 0int,
{
    if p < 0 || p >= d.len() {
        Err(truncated())
    } else {
        let tag = d[p];
        let q = p + 1;
        if tag == 0x00 {
            Ok((tag, Doc::Null, q))
        } else if tag == 0x01 {
            Ok((tag, Doc::Bool(true), q))
        } else if tag == 0x02 {
            Ok((tag, Doc::Bool(false), q))
        } else if uint_width(tag) > 0 {
            match uint_at(d, q, uint_width(tag)) {
                Err(x) => Err(x),
                Ok((n, e)) => Ok((tag, Doc::Number(Number::UInt(n as u64)), e)),
            }
        } else if tag == 0x07 {
            match uint_at(d, q, 8) {
                Err(x) => Err(x),
                Ok((n, e)) => if is_finite_bits(n as u64) {
                    Ok((tag, Doc::Number(Number::Float(n as u64)), e))
                } else {
                    Err(DecodeError::Numeric)
                },
            }
        } else if tag == 0x08 || tag == 0x09 {
            match parse_str(d, q, if tag == 0x08 { 1 } else { 2 }) {
                Err(x) => Err(x),
                Ok((s, e)) => Ok((tag, s, e)),
            }
        } else if tag == 0x0b {
            match uint_at(d, q, 4) {
                Err(x) => Err(x),
                Ok((n, e)) => match parse_array(d, e, 0, n, Seq::empty()) {
                    Err(x) => Err(x),
                    Ok((t, e2)) => Ok((tag, Doc::Table(t), e2)),
                },
            }
        } else if tag == 0x0d {
            match parse_value(d, q) {
                Err(x) => Err(x),
                Ok((_, k, e)) => if !(p < e <= d.len()) {
                    Err(truncated())
                } else {
                    match parse_value(d, e) {
                        Err(x) => Err(x),
                        Ok((_, v, e2)) => match json_of(k) {
                            None => Err(DecodeError::KeyConversion),
                            Some(ks) => Ok((tag, Doc::Table(seq![(ks, v)]), e2)),
                        },
                    }
                },
            }
        } else {
            Err(DecodeError::UnknownTag(tag, q as u64))
        }
    }
}

/// The array part of a table from its `i`-th element on (of `n`), into `t`,
/// followed by the hash part.
pub open spec fn parse_array(d: Seq<u8>, p: int, i: nat, n: nat, t: Entries) -> Result<
    (Entries, int),
    DecodeError,
>
    decreases d.len() - p, 2int,
{
    if i >= n {
        parse_hash(d, p, t)
    } else {
        match parse_value(d, p) {
            Err(x) => Err(x),
            Ok((_, v, e)) => if !(p < e <= d.len()) {
                Err(truncated())
            } else {
                parse_array(d, e, i + 1, n, put(t, dec(i + 1), v))
            },
        }
    }
}

/// The hash part of a table at `p`, into `t`: key and content pairs up to a
/// key with tag zero.
pub open spec fn parse_hash(d: Seq<u8>, p: int, t: Entries) -> Result<(Entries, int), DecodeError>
    decreases d.len() - p, 1int,
{
    match parse_value(d, p) {
        Err(x) => Err(x),
        Ok((tag, k, e)) => if tag == 0 {
            Ok((t, e))
        } else if !(p < e <= d.len()) {
            Err(truncated())
        } else {
            match parse_value(d, e) {
                Err(x) => Err(x),
                Ok((_, v, e2)) => if !(p < e2 <= d.len()) {
                    Err(truncated())
                } else {
                    match hash_key(k) {
                        Err(x) => Err(x),
                        Ok(ks) => parse_hash(d, e2, put(t, ks, v)),
                    }
                },
            }
        },
    }
}

/// The document at offset `skip` of a source.
pub open spec fn document(d: Seq<u8>, skip: u64) -> Result<Doc, DecodeError> {
    if skip > d.len() {
        Err(DecodeError::Io(IoError::InvalidSeek))
    } else {
        match parse_value(d, skip as int) {
            Err(x) => Err(x),
            Ok((_, v, _)) => Ok(v),
        }
    }
}


proof fn lemma_pow256_bound(k: nat)
    requires
        k <= 8,
    ensures
        pow256(k) <= 0x1_0000_0000_0000_0000,
    decreases 8 - k,
{
    if k < 8 {
        lemma_pow256_bound(k + 1);
        assert(pow256(k + 1) == 256 * pow256(k));
    } else {
        reveal_with_fuel(pow256, 9);
    }
}

proof fn lemma_le_step(b: Seq<u8>, i: int, w: int)
    requires
        0 <= i < w <= b.len(),
    ensures
        le_uint(b.subrange(i, w)) == b[i] as nat + 256 * le_uint(b.subrange(i + 1, w)),
{
    assert(b.subrange(i, w).drop_first() =~= b.subrange(i + 1, w));
}

/// Reads the little-endian unsigned integer of `w` bytes at `p`.
fn read_uint(d: &[u8], p: usize, w: usize) -> (r: Result<(u64, usize), DecodeError>)
    requires
        p <= d@.len(),
        1 <= w <= 8,
    ensures
        match uint_at(d@, p as int, w as int) {
            Ok((n, e)) => r matches Ok((v, e2)) && v as nat == n && e2 as int == e,
            Err(x) => r == Err::<(u64, usize), DecodeError>(x),
        },
{
    if w > d.len() - p {
        return Err(DecodeError::Io(IoError::Truncated));
    }
    let ghost b = d@.subrange(p as int, (p + w) as int);
    let mut acc: u64 = 0;
    let mut i: usize = w;
    proof {
        assert(b.subrange(w as int, w as int) =~= Seq::<u8>::empty());
    }
    while i > 0
        invariant
            i <= w <= 8,
            p + w <= d@.len(),
            d@.len() == d.len(),
            b == d@.subrange(p as int, (p + w) as int),
            acc as nat == le_uint(b.subrange(i as int, w as int)),
            (acc as nat) < pow256((w - i) as nat),
        decreases i,
    {
        proof {
            let k = (w - i) as nat;
            lemma_pow256_bound(k + 1);
            assert(pow256(k + 1) == 256 * pow256(k));
            assert(acc * 256 + 255 < 256 * pow256(k)) by (nonlinear_arith)
                requires
                    (acc as nat) < pow256(k),
            ;
            lemma_le_step(b, i - 1, w as int);
        }
        i = i - 1;
        acc = acc * 256 + d[p + i] as u64;
    }
    proof {
        assert(b.subrange(0, w as int) =~= b);
    }
    Ok((acc, p + w))
}

fn int_width(tag: u8) -> (w: usize)
    ensures
        w == uint_width(tag),
{
    if tag == 0x03 || tag == 0x0e { 1 }
    else if tag == 0x04 || tag == 0x0f { 2 }
    else if tag == 0x05 || tag == 0x10 { 4 }
    else if tag == 0x06 { 8 }
    else { 0 }
}

/// Reads a string whose byte length is given by a `w`-byte prefix at `p`.
fn read_str(d: &[u8], p: usize, w: usize) -> (r: Result<(Value, usize), DecodeError>)
    requires
        p <= d@.len(),
        w == 1 || w == 2,
    ensures
        match r {
            Ok((v, e)) => parse_str(d@, p as int, w as int) == Ok::<(Doc, int), DecodeError>((v@, e as int))
                && e <= d@.len(),
            Err(x) => parse_str(d@, p as int, w as int) == Err::<(Doc, int), DecodeError>(x),
        },
{
    match read_uint(d, p, w) {
        Err(x) => Err(x),
        Ok((n, q)) => {
            if n > (d.len() - q) as u64 {
                Err(DecodeError::Io(IoError::Truncated))
            } else {
                let end = q + n as usize;
                match utf8_decode(d, q, end) {
                    None => Err(DecodeError::Encoding),
                    Some(s) => Ok((Value::String(s), end)),
                }
            }
        },
    }
}

/// The canonical text of a hash-part key.
fn key_string(k: Value) -> (r: Result<String, DecodeError>)
    ensures
        match hash_key(k@) {
            Ok(s) => r matches Ok(t) && t@ == s,
            Err(x) => r == Err::<String, DecodeError>(x),
        },
{
    match k {
        Value::Number(Number::UInt(n)) => Ok(decimal(n)),
        Value::Number(Number::Float(_)) => Err(DecodeError::KeyConversion),
        Value::String(s) => Ok(s),
        _ => match json_text(&k) {
            Some(t) => Ok(t),
            None => Err(DecodeError::KeyConversion),
        },
    }
}

/// Decodes the value at `p`: its tag, the value, and the position after it.
pub fn read_value(d: &[u8], p: usize) -> (r: Result<(u8, Value, usize), DecodeError>)
    requires
        p <= d@.len(),
    ensures
        match r {
            Ok((t, v, e)) => parse_value(d@, p as int) == Ok::<(u8, Doc, int), DecodeError>((t, v@, e as int))
                && p < e <= d@.len() && well_keyed(v@),
            Err(x) => parse_value(d@, p as int) == Err::<(u8, Doc, int), DecodeError>(x),
        },
    decreases d@.len() - p, 0int,
{
    if p >= d.len() {
        return Err(DecodeError::Io(IoError::Truncated));
    }
    let tag = d[p];
    let q = p + 1;
    let w = int_width(tag);
    if tag == 0x00 {
        Ok((tag, Value::Null, q))
    } else if tag == 0x01 {
        Ok((tag, Value::Bool(true), q))
    } else if tag == 0x02 {
        Ok((tag, Value::Bool(false), q))
    } else if w > 0 {
        match read_uint(d, q, w) {
            Err(x) => Err(x),
            Ok((n, e)) => Ok((tag, Value::Number(Number::UInt(n)), e)),
        }
    } else if tag == 0x07 {
        match read_uint(d, q, 8) {
            Err(x) => Err(x),
            Ok((n, e)) => {
                if (n >> 52u64) & 0x7ffu64 != 0x7ffu64 {
                    Ok((tag, Value::Number(Number::Float(n)), e))
                } else {
                    Err(DecodeError::Numeric)
                }
            },
        }
    } else if tag == 0x08 || tag == 0x09 {
        match read_str(d, q, if tag == 0x08 { 1 } else { 2 }) {
            Err(x) => Err(x),
            Ok((s, e)) => Ok((tag, s, e)),
        }
    } else if tag == 0x0b {
        match read_uint(d, q, 4) {
            Err(x) => Err(x),
            Ok((n, e)) => match read_table(d, e, n) {
                Err(x) => Err(x),
                Ok((es, e2)) => Ok((tag, Value::Table(es), e2)),
            },
        }
    } else if tag == 0x0d {
        match read_value(d, q) {
            Err(x) => Err(x),
            Ok((_, k, e)) => match read_value(d, e) {
                Err(x) => Err(x),
                Ok((_, v, e2)) => match json_text(&k) {
                    None => Err(DecodeError::KeyConversion),
                    Some(ks) => {
                        let mut es: Vec<(String, Value)> = Vec::new();
                        es.push((ks, v));
                        proof {
                            lemma_view_entries(&es, 1);
                            assert(entries_view(&es) =~= seq![(es[0].0@, es[0].1@)]);
                            lemma_contents_well_keyed(entries_view(&es), 1);
                        }
                        Ok((tag, Value::Table(es), e2))
                    },
                },
            },
        }
    } else {
        Err(DecodeError::UnknownTag(tag, q as u64))
    }
}

/// Decodes a table body at `p` whose array part has `n` elements.
fn read_table(d: &[u8], p: usize, n: u64) -> (r: Result<(Vec<(String, Value)>, usize), DecodeError>)
    requires
        p <= d@.len(),
    ensures
        match r {
            Ok((es, e)) => parse_array(d@, p as int, 0, n as nat, Seq::empty())
                == Ok::<(Entries, int), DecodeError>((entries_view(&es), e as int))
                && p <= e <= d@.len() && well_keyed(Doc::Table(entries_view(&es))),
            Err(x) => parse_array(d@, p as int, 0, n as nat, Seq::empty())
                == Err::<(Entries, int), DecodeError>(x),
        },
    decreases d@.len() - p, 2int,
{
    let mut es: Vec<(String, Value)> = Vec::new();
    let mut cur = p;
    let mut i: u64 = 0;
    proof {
        assert(entries_view(&es) =~= Seq::<(Seq<char>, Doc)>::empty());
    }
    while i < n
        invariant
            p <= cur <= d@.len(),
            i <= n,
            keys_unique(entries_view(&es)),
            forall|j: int| 0 <= j < entries_view(&es).len() ==> #[trigger] well_keyed(entries_view(&es)[j].1),
            parse_array(d@, p as int, 0, n as nat, Seq::empty())
                == parse_array(d@, cur as int, i as nat, n as nat, entries_view(&es)),
        decreases n - i,
    {
        match read_value(d, cur) {
            Err(x) => return Err(x),
            Ok((_, v, e)) => {
                let k = decimal(i + 1);
                let ghost t0 = entries_view(&es);
                proof { lemma_put_well_keyed(t0, k@, v@); }
                table_put(&mut es, k, v);
                proof { lemma_contents_well_keyed(entries_view(&es), entries_view(&es).len() as int); }
                cur = e;
                i = i + 1;
            },
        }
    }
    loop
        invariant
            p <= cur <= d@.len(),
            keys_unique(entries_view(&es)),
            forall|j: int| 0 <= j < entries_view(&es).len() ==> #[trigger] well_keyed(entries_view(&es)[j].1),
            parse_array(d@, p as int, 0, n as nat, Seq::empty())
                == parse_hash(d@, cur as int, entries_view(&es)),
        decreases d@.len() - cur,
    {
        match read_value(d, cur) {
            Err(x) => return Err(x),
            Ok((tag, k, e)) => {
                if tag == 0 {
                    proof { lemma_contents_well_keyed(entries_view(&es), entries_view(&es).len() as int); }
                    return Ok((es, e));
                }
                match read_value(d, e) {
                    Err(x) => return Err(x),
                    Ok((_, v, e2)) => match key_string(k) {
                        Err(x) => return Err(x),
                        Ok(ks) => {
                            let ghost t0 = entries_view(&es);
                            proof { lemma_put_well_keyed(t0, ks@, v@); }
                            table_put(&mut es, ks, v);
                            proof { lemma_contents_well_keyed(entries_view(&es), entries_view(&es).len() as int); }
                            cur = e2;
                        },
                    },
                }
            },
        }
    }
}


/// Decodes the document that starts `skipbyte` bytes into `data`.
pub fn unpickle(data: &[u8], skipbyte: u64) -> (r: Result<Value, DecodeError>)
    ensures
        match r {
            Ok(v) => document(data@, skipbyte) == Ok::<Doc, DecodeError>(v@) && well_keyed(v@),
            Err(x) => document(data@, skipbyte) == Err::<Doc, DecodeError>(x),
        },
{
    if skipbyte > data.len() as u64 {
        return Err(DecodeError::Io(IoError::InvalidSeek));
    }
    match read_value(data, skipbyte as usize) {
        Err(x) => Err(x),
        Ok((_, v, _)) => Ok(v),
    }
}

/// Decoding is deterministic: a source and an offset have one outcome, so
/// two decodings of the same stream give structurally identical trees.
pub proof fn law_decoding_is_deterministic(data: Seq<u8>, skip: u64, a: Doc, b: Doc)
    requires
        document(data, skip) == Ok::<Doc, DecodeError>(a),
        document(data, skip) == Ok::<Doc, DecodeError>(b),
    ensures
        a == b,
{
}

/// A hash-part entry whose key is the decimal text of an array index that is
/// already present replaces that element's content in place: the table keeps
/// its length, its keys stay unique, and the key now holds the new content.
pub proof fn law_hash_entry_overrides_index(t: Entries, i: nat, v: Doc)
    requires
        keys_unique(t),
        has_key(t, dec(i)),
    ensures
        put(t, dec(i), v).len() == t.len(),
        keys_unique(put(t, dec(i), v)),
        lookup(put(t, dec(i), v), dec(i)) == Some(v),
        forall|j: int| 0 <= j < t.len() && t[j].0 != dec(i) ==> #[trigger] put(t, dec(i), v)[j] == t[j],
{
    lemma_put_unique(t, dec(i), v);
}

/// A string consumes its length prefix and exactly the declared number of
/// payload bytes; where they are there and form valid UTF-8, it decodes to
/// their text.
pub proof fn law_string_length_is_exact(d: Seq<u8>, p: int)
    requires
        0 <= p < d.len(),
        d[p] == 0x08 || d[p] == 0x09,
    ensures
        ({
            let w: int = if d[p] == 0x08 { 1 } else { 2 };
            let n = le_uint(d.subrange(p + 1, p + 1 + w));
            &&& parse_value(d, p) matches Ok((_, _, e)) ==> e == p + 1 + w + n
            &&& (p + 1 + w + n <= d.len() && utf8_text(d.subrange(p + 1 + w, p + 1 + w + n)) is Some)
                ==> parse_value(d, p) == Ok::<(u8, Doc, int), DecodeError>(
                    (d[p], Doc::Str(utf8_text(d.subrange(p + 1 + w, p + 1 + w + n))->0), p + 1 + w + n),
                )
        }),
{
}

/// A tag byte outside the format is reported as such, with the offset just
/// past it, and yields no value.
pub proof fn law_unknown_tag_is_an_error(d: Seq<u8>, p: int)
    requires
        0 <= p < d.len(),
        !is_known_tag(d[p]),
    ensures
        parse_value(d, p) == Err::<(u8, Doc, int), DecodeError>(DecodeError::UnknownTag(d[p], (p + 1) as u64)),
        p <= u64::MAX ==> document(d, p as u64) == Err::<Doc, DecodeError>(
            DecodeError::UnknownTag(d[p], (p + 1) as u64),
        ),
{
}

} // verus!
