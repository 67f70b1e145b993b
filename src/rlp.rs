//! Recursive Length Prefix: canonical encoding of byte strings, unsigned
//! integers and list headers, and their strict decoders.
use vstd::prelude::*;

verus! {

/// The number that a big-endian byte string denotes.
pub open spec fn be_value(s: Seq<u8>) -> nat
    decreases s.len(),
{
    if s.len() == 0 {
        0
    } else {
        be_value(s.drop_last()) * 256 + s.last() as nat
    }
}

/// The minimal big-endian bytes of `v`: zero is the empty string.
pub open spec fn be_bytes(v: nat) -> Seq<u8>
    decreases v,
{
    if v == 0 {
        Seq::empty()
    } else {
        be_bytes(v / 256).push((v % 256) as u8)
    }
}

/// `256` raised to `n`.
pub open spec fn pow256(n: nat) -> nat
    decreases n,
{
    if n == 0 {
        1
    } else {
        256 * pow256((n - 1) as nat)
    }
}

/// A byte string with no leading zero byte.
pub open spec fn canonical(s: Seq<u8>) -> bool {
    s.len() == 0 || s[0] != 0
}

/// The header of a string (`list == false`) or list payload of `len` bytes.
pub open spec fn header_bytes(list: bool, len: nat) -> Seq<u8> {
    let short: nat = if list { 0xc0 } else { 0x80 };
    if len < 56 {
        seq![(short + len) as u8]
    } else {
        seq![(short + 55 + be_bytes(len).len()) as u8] + be_bytes(len)
    }
}

/// The encoding of the byte string `b`.
pub open spec fn rlp_string(b: Seq<u8>) -> Seq<u8> {
    if b.len() == 1 && b[0] < 0x80 {
        b
    } else {
        header_bytes(false, b.len()) + b
    }
}

/// The encoding of the unsigned integer `v`.
pub open spec fn rlp_uint(v: nat) -> Seq<u8> {
    rlp_string(be_bytes(v))
}

/// The encoding of a list whose items, already encoded, make up `payload`.
pub open spec fn rlp_list(payload: Seq<u8>) -> Seq<u8> {
    header_bytes(true, payload.len()) + payload
}

/// `be_bytes` unfolds one digit at a time.
pub proof fn lemma_be_bytes_step(v: nat)
    requires
        v > 0,
    ensures
        be_bytes(v) == be_bytes(v / 256).push((v % 256) as u8),
{
}

/// Reading back the minimal bytes of `v` gives `v`.
pub proof fn lemma_be_value_of_bytes(v: nat)
    ensures
        be_value(be_bytes(v)) == v,
        canonical(be_bytes(v)),
    decreases v,
{
    if v > 0 {
        lemma_be_value_of_bytes(v / 256);
        let s = be_bytes(v);
        assert(s.drop_last() == be_bytes(v / 256));
        if v / 256 == 0 {
            assert(s.len() == 1);
            assert(s[0] == (v % 256) as u8);
        } else {
            assert(s[0] == be_bytes(v / 256)[0]);
        }
    }
}

/// A value of a string is below `256` to the string's length.
pub proof fn lemma_be_value_bound(s: Seq<u8>)
    ensures
        be_value(s) < pow256(s.len()),
    decreases s.len(),
{
    if s.len() > 0 {
        lemma_be_value_bound(s.drop_last());
        let a = be_value(s.drop_last());
        let p = pow256((s.len() - 1) as nat);
        let x = s.last() as nat;
        assert(a * 256 + x < 256 * p) by (nonlinear_arith)
            requires
                a < p,
                x < 256,
        ;
    }
}

/// A canonical non-empty string denotes at least `256` to its length less one.
pub proof fn lemma_be_value_lower(s: Seq<u8>)
    requires
        s.len() > 0,
        s[0] != 0,
    ensures
        be_value(s) >= pow256((s.len() - 1) as nat),
    decreases s.len(),
{
    if s.len() > 1 {
        let t = s.drop_last();
        assert(t[0] == s[0]);
        lemma_be_value_lower(t);
        let a = be_value(t);
        let p = pow256((t.len() - 1) as nat);
        assert(a * 256 + (s.last() as nat) >= 256 * p) by (nonlinear_arith)
            requires
                a >= p,
        ;
    }
}

/// A canonical string is the minimal encoding of the value it denotes.
pub proof fn lemma_bytes_of_be_value(s: Seq<u8>)
    requires
        canonical(s),
    ensures
        be_bytes(be_value(s)) == s,
    decreases s.len(),
{
    if s.len() > 0 {
        let t = s.drop_last();
        let v = be_value(s);
        let x = s.last() as nat;
        lemma_be_value_lower(s);
        assert(v > 0) by {
            assert(pow256((s.len() - 1) as nat) >= 1) by {
                lemma_pow256_positive((s.len() - 1) as nat);
            }
        }
        assert(v / 256 == be_value(t) && v % 256 == x) by (nonlinear_arith)
            requires
                v == be_value(t) * 256 + x,
                x < 256,
        ;
        if t.len() > 0 {
            assert(t[0] == s[0]);
        }
        lemma_bytes_of_be_value(t);
        assert(s == t.push(s.last()));
    }
}

/// Every power of `256` is positive.
pub proof fn lemma_pow256_positive(n: nat)
    ensures
        pow256(n) >= 1,
    decreases n,
{
    if n > 0 {
        lemma_pow256_positive((n - 1) as nat);
    }
}

/// The minimal bytes of a value below `256` to `k` take at most `k` bytes.
pub proof fn lemma_be_bytes_len(v: nat, k: nat)
    requires
        v < pow256(k),
    ensures
        be_bytes(v).len() <= k,
    decreases v,
{
    if v > 0 {
        assert(k > 0) by {
            if k == 0 {
                assert(pow256(0) == 1);
            }
        }
        let p = pow256((k - 1) as nat);
        assert(v / 256 < p) by (nonlinear_arith)
            requires
                v < 256 * p,
        ;
        lemma_be_bytes_len(v / 256, (k - 1) as nat);
    }
}

/// `256` to the eighth is `2` to the sixty-fourth.
pub proof fn lemma_pow256_8()
    ensures
        pow256(8) == 0x1_0000_0000_0000_0000,
        pow256(16) == 0x1_0000_0000_0000_0000_0000_0000_0000_0000,
{
    reveal_with_fuel(pow256, 17);
}

/// A value with one minimal byte is that byte.
pub proof fn lemma_single_byte_value(v: nat)
    requires
        be_bytes(v).len() == 1,
    ensures
        be_bytes(v)[0] as nat == v,
{
    let s = be_bytes(v);
    lemma_be_value_of_bytes(v);
    assert(s.drop_last().len() == 0);
    assert(be_value(s.drop_last()) == 0);
}

/// The minimal big-endian bytes of `v`.
pub fn uint_to_be(v: u128) -> (r: Vec<u8>)
    ensures
        r@ == be_bytes(v as nat),
{
    let mut acc: Vec<u8> = Vec::new();
    let mut x: u128 = v;
    while x > 0
        invariant
            be_bytes(v as nat) == be_bytes(x as nat) + acc@,
        decreases x,
    {
        let d = (x % 256) as u8;
        proof {
            lemma_be_bytes_step(x as nat);
        }
        let ghost old_acc = acc@;
        acc.insert(0, d);
        assert(be_bytes(x as nat) + old_acc == be_bytes((x / 256) as nat) + acc@);
        x = x / 256;
    }
    acc
}

/// The number of minimal big-endian bytes of `v`.
pub fn uint_byte_len(v: u128) -> (r: usize)
    ensures
        r == be_bytes(v as nat).len(),
        r <= 16,
{
    let mut n: usize = 0;
    let mut x: u128 = v;
    proof {
        lemma_pow256_8();
        lemma_be_bytes_len(v as nat, 16);
    }
    while x > 0
        invariant
            be_bytes(v as nat).len() == be_bytes(x as nat).len() + n,
            be_bytes(v as nat).len() <= 16,
        decreases x,
    {
        proof {
            lemma_be_bytes_step(x as nat);
        }
        n = n + 1;
        x = x / 256;
    }
    n
}

/// A length held in a `usize` needs at most eight bytes.
pub proof fn lemma_len_bytes(len: nat)
    requires
        len <= usize::MAX,
    ensures
        be_bytes(len).len() <= 8,
        header_bytes(true, len).len() <= 9,
        header_bytes(false, len).len() <= 9,
{
    lemma_pow256_8();
    lemma_be_bytes_len(len, 8);
}

/// Appends the bytes of `b` to `out`.
pub fn append_bytes(out: &mut Vec<u8>, b: &[u8])
    ensures
        final(out)@ == old(out)@ + b@,
{
    let mut i: usize = 0;
    while i < b.len()
        invariant
            i <= b.len(),
            out@ == old(out)@ + b@.subrange(0, i as int),
        decreases b.len() - i,
    {
        out.push(b[i]);
        i = i + 1;
        assert(out@ == old(out)@ + b@.subrange(0, i as int));
    }
    assert(b@.subrange(0, b.len() as int) == b@);
}

/// Writes the header of a string or list payload of `len` bytes.
pub fn encode_header(list: bool, len: usize, out: &mut Vec<u8>)
    ensures
        final(out)@ == old(out)@ + header_bytes(list, len as nat),
{
    let short: u8 = if list { 0xc0 } else { 0x80 };
    if len < 56 {
        out.push(short + len as u8);
    } else {
        proof {
            lemma_len_bytes(len as nat);
        }
        let lb = uint_to_be(len as u128);
        out.push(short + 55 + lb.len() as u8);
        append_bytes(out, lb.as_slice());
        assert(final(out)@ == old(out)@ + header_bytes(list, len as nat));
    }
}

/// The length of the header of a payload of `len` bytes.
pub fn header_len(len: usize) -> (r: usize)
    ensures
        r == header_bytes(true, len as nat).len(),
        r == header_bytes(false, len as nat).len(),
        r <= 9,
{
    proof {
        lemma_len_bytes(len as nat);
    }
    if len < 56 {
        1
    } else {
        1 + uint_byte_len(len as u128)
    }
}

/// Writes the encoding of the byte string `b`.
pub fn encode_bytes(b: &[u8], out: &mut Vec<u8>)
    ensures
        final(out)@ == old(out)@ + rlp_string(b@),
{
    if b.len() == 1 && b[0] < 0x80 {
        out.push(b[0]);
        assert(b@ == seq![b[0]]);
    } else {
        encode_header(false, b.len(), out);
        append_bytes(out, b);
        assert(final(out)@ == old(out)@ + rlp_string(b@));
    }
}

/// The length of the encoding of the byte string `b`.
pub fn bytes_len(b: &[u8]) -> (r: usize)
    requires
        b.len() + 9 <= usize::MAX,
    ensures
        r == rlp_string(b@).len(),
{
    if b.len() == 1 && b[0] < 0x80 {
        1
    } else {
        header_len(b.len()) + b.len()
    }
}

/// Writes the encoding of the unsigned integer `v`.
pub fn encode_uint(v: u128, out: &mut Vec<u8>)
    ensures
        final(out)@ == old(out)@ + rlp_uint(v as nat),
{
    let b = uint_to_be(v);
    encode_bytes(b.as_slice(), out);
}

/// The length of the encoding of the unsigned integer `v`.
pub fn uint_len(v: u128) -> (r: usize)
    ensures
        r == rlp_uint(v as nat).len(),
        r <= 17,
{
    let n = uint_byte_len(v);
    if n == 0 {
        1
    } else if n == 1 && v < 0x80 {
        proof {
            lemma_single_byte_value(v as nat);
        }
        1
    } else {
        proof {
            if n == 1 {
                lemma_single_byte_value(v as nat);
            }
        }
        1 + n
    }
}

/// Why a byte string is not a canonical encoding of what was asked for.
#[derive(Debug, Clone, Copy, PartialEq, Eq, Structural)]
pub enum RlpError {
    /// The input ends before the item that its header declares.
    InputTooShort,
    /// A length prefix that is not the shortest one for its length.
    MalformedHeader,
    /// An integer whose bytes begin with a zero byte.
    NonCanonicalInt,
    /// An integer too large for the field that receives it.
    Overflow,
    /// A string where a list was expected.
    UnexpectedString,
    /// A list where a string was expected.
    UnexpectedList,
    /// A string of the wrong length for a fixed-size field.
    UnexpectedLength,
    /// A list whose items do not end where its header says.
    ListLengthMismatch,
    /// A signature parity value that no convention gives.
    InvalidParity,
    /// A leading byte of `0xc0` or more: an untyped legacy transaction,
    /// whose schema this library does not read.
    LegacyTransaction,
    /// A leading type byte that names no known transaction type.
    UnsupportedTransactionType,
}

/// At `pos` stands a long-form header (first byte `base + k`, `k` from 1
/// to 8) whose `k` length bytes are present but not minimal: they begin
/// with a zero byte, or give a length below 56 that the short form holds.
pub open spec fn long_header_malformed(buf: Seq<u8>, pos: int, base: int) -> bool {
    &&& 0 <= pos < buf.len()
    &&& base < buf[pos] <= base + 8
    &&& pos + 1 + (buf[pos] - base) <= buf.len()
    &&& (buf[pos + 1] == 0 || be_value(buf.subrange(pos + 1, pos + 1 + (buf[pos] - base))) < 56)
}

/// At `pos` stands a one-byte string below `0x80` written with a prefix,
/// where the byte alone is its encoding.
pub open spec fn single_byte_malformed(buf: Seq<u8>, pos: int) -> bool {
    0 <= pos && pos + 1 < buf.len() && buf[pos] == 0x81 && buf[pos + 1] < 0x80
}

/// `buf` from `pos` on is a strict beginning of `e`.
pub open spec fn truncated(buf: Seq<u8>, pos: int, e: Seq<u8>) -> bool {
    0 <= pos <= buf.len() && buf.len() - pos < e.len() && buf.subrange(pos, buf.len() as int) == e.subrange(0, buf.len() - pos)
}

/// `e` stands in `buf` from position `pos` on.
pub open spec fn at(buf: Seq<u8>, pos: int, e: Seq<u8>) -> bool {
    0 <= pos && pos + e.len() <= buf.len() && buf.subrange(pos, pos + e.len()) == e
}

/// The bytes of `buf` from `pos` on agree with `h` as far as both go.
pub open spec fn agrees(buf: Seq<u8>, pos: int, h: Seq<u8>) -> bool {
    forall|i: int| 0 <= i < h.len() && pos + i < buf.len() ==> buf[pos + i] == #[trigger] h[i]
}

/// Powers of `256` grow with the exponent.
pub proof fn lemma_pow256_mono(a: nat, b: nat)
    requires
        a <= b,
    ensures
        pow256(a) <= pow256(b),
    decreases b,
{
    if a < b {
        lemma_pow256_mono(a, (b - 1) as nat);
        lemma_pow256_positive((b - 1) as nat);
    }
}

/// The number that the big-endian bytes `buf[start..end]` denote.
pub fn read_be(buf: &[u8], start: usize, end: usize) -> (r: u128)
    requires
        start <= end <= buf.len(),
        end - start <= 16,
    ensures
        r == be_value(buf@.subrange(start as int, end as int)),
{
    let mut acc: u128 = 0;
    let mut i: usize = start;
    while i < end
        invariant
            start <= i <= end <= buf.len(),
            end - start <= 16,
            acc == be_value(buf@.subrange(start as int, i as int)),
        decreases end - i,
    {
        let ghost t = buf@.subrange(start as int, i as int + 1);
        proof {
            assert(t.drop_last() == buf@.subrange(start as int, i as int));
            lemma_be_value_bound(t);
            lemma_pow256_mono(t.len(), 16);
            lemma_pow256_8();
        }
        acc = acc * 256 + buf[i] as u128;
        i = i + 1;
    }
    acc
}

/// Reads the length of a long-form header whose first byte, at `pos`, says
/// that `k` length bytes follow.
fn decode_long_len(buf: &[u8], pos: usize, list: bool, k: usize) -> (r: Result<usize, RlpError>)
    requires
        pos < buf.len(),
        1 <= k <= 8,
        buf[pos as int] == (if list { 0xf7int } else { 0xb7int }) + k,
    ensures
        r is Ok ==> {
            let len = r->Ok_0;
            &&& len >= 56
            &&& pos + 1 + k + len <= buf.len()
            &&& buf@.subrange(pos as int, pos + 1 + k) == header_bytes(list, len as nat)
        },
        forall|len: nat|
            56 <= len <= usize::MAX && agrees(buf@, pos as int, #[trigger] header_bytes(list, len)) ==> if pos
                + header_bytes(list, len).len() + len <= buf.len() {
                r == Ok::<usize, RlpError>(len as usize)
            } else {
                r == Err::<usize, RlpError>(RlpError::InputTooShort)
            },
        long_header_malformed(buf@, pos as int, if list { 0xf7int } else { 0xb7int }) ==> r
            == Err::<usize, RlpError>(RlpError::MalformedHeader),
{
    let short: u8 = if list { 0xc0 } else { 0x80 };
    proof {
        assert forall|len: nat|
            56 <= len <= usize::MAX && agrees(buf@, pos as int, #[trigger] header_bytes(list, len)) implies
                be_bytes(len).len() == k by {
            let h = header_bytes(list, len);
            lemma_len_bytes(len);
            assert(h[0] == buf[pos as int]);
        }
    }
    if buf.len() - (pos + 1) < k {
        return Err(RlpError::InputTooShort);
    }
    let ghost lb = buf@.subrange(pos + 1, pos + 1 + k);
    proof {
        assert forall|len: nat|
            56 <= len <= usize::MAX && agrees(buf@, pos as int, #[trigger] header_bytes(list, len)) implies
                be_bytes(len) == lb by {
            let h = header_bytes(list, len);
            assert forall|i: int| 0 <= i < k implies lb[i] == be_bytes(len)[i] by {
                assert(h[i + 1] == be_bytes(len)[i]);
                assert(buf[pos + i + 1] == h[i + 1]);
            }
            assert(lb =~= be_bytes(len));
        }
    }
    if buf[pos + 1] == 0 {
        proof {
            assert forall|len: nat|
                56 <= len <= usize::MAX && agrees(buf@, pos as int, #[trigger] header_bytes(list, len)) implies
                    false by {
                lemma_be_value_of_bytes(len);
                assert(lb[0] == buf[pos + 1]);
            }
        }
        return Err(RlpError::MalformedHeader);
    }
    let v = read_be(buf, pos + 1, pos + 1 + k);
    proof {
        lemma_bytes_of_be_value(lb);
        lemma_be_value_bound(lb);
        lemma_pow256_mono(k as nat, 8);
        lemma_pow256_8();
        assert forall|len: nat|
            56 <= len <= usize::MAX && agrees(buf@, pos as int, #[trigger] header_bytes(list, len)) implies
                len == v by {
            lemma_be_value_of_bytes(len);
        }
    }
    if v < 56 {
        return Err(RlpError::MalformedHeader);
    }
    if ((buf.len() - (pos + 1 + k)) as u128) < v {
        return Err(RlpError::InputTooShort);
    }
    let len = v as usize;
    proof {
        let h = header_bytes(list, len as nat);
        assert(buf@.subrange(pos as int, pos + 1 + k) =~= seq![buf[pos as int]] + lb);
        assert(h == seq![buf[pos as int]] + lb);
    }
    Ok(len)
}

/// Reads a list header at `pos`, giving where its payload starts and ends.
pub fn decode_list_header(buf: &[u8], pos: usize) -> (r: Result<(usize, usize), RlpError>)
    requires
        pos <= buf.len(),
    ensures
        r is Ok ==> {
            let (s, e) = r->Ok_0;
            &&& pos < s <= e <= buf.len()
            &&& buf@.subrange(pos as int, s as int) == header_bytes(true, (e - s) as nat)
        },
        forall|len: nat|
            len <= usize::MAX && agrees(buf@, pos as int, #[trigger] header_bytes(true, len)) ==> if pos
                + header_bytes(true, len).len() + len <= buf.len() {
                r == Ok::<(usize, usize), RlpError>(
                    ((pos + header_bytes(true, len).len()) as usize, (pos + header_bytes(
                        true,
                        len,
                    ).len() + len) as usize),
                )
            } else {
                r == Err::<(usize, usize), RlpError>(RlpError::InputTooShort)
            },
        pos < buf.len() && buf[pos as int] < 0xc0 ==> r == Err::<(usize, usize), RlpError>(
            RlpError::UnexpectedString,
        ),
        long_header_malformed(buf@, pos as int, 0xf7) ==> r == Err::<(usize, usize), RlpError>(
            RlpError::MalformedHeader,
        ),
{
    if pos >= buf.len() {
        return Err(RlpError::InputTooShort);
    }
    let b0 = buf[pos];
    proof {
        assert forall|len: nat|
            len <= usize::MAX && agrees(buf@, pos as int, #[trigger] header_bytes(true, len)) implies
                (len < 56 <==> b0 < 0xf8) && (len < 56 ==> len == b0 - 0xc0) by {
            let h = header_bytes(true, len);
            lemma_len_bytes(len);
            assert(h[0] == buf[pos as int]);
        }
    }
    if b0 < 0xc0 {
        return Err(RlpError::UnexpectedString);
    }
    if b0 < 0xf8 {
        let len = (b0 - 0xc0) as usize;
        if buf.len() - (pos + 1) < len {
            return Err(RlpError::InputTooShort);
        }
        return Ok((pos + 1, pos + 1 + len));
    }
    let k = (b0 - 0xf7) as usize;
    let len = decode_long_len(buf, pos, true, k)?;
    Ok((pos + 1 + k, pos + 1 + k + len))
}

/// Reads a byte string at `pos`, giving where its bytes start and end.
pub fn decode_string(buf: &[u8], pos: usize) -> (r: Result<(usize, usize), RlpError>)
    requires
        pos <= buf.len(),
    ensures
        r is Ok ==> {
            let (s, e) = r->Ok_0;
            &&& pos <= s <= e <= buf.len()
            &&& buf@.subrange(pos as int, e as int) == rlp_string(buf@.subrange(s as int, e as int))
        },
        forall|b: Seq<u8>|
            #[trigger] at(buf@, pos as int, rlp_string(b)) ==> r == Ok::<(usize, usize), RlpError>(
                ((pos + rlp_string(b).len() - b.len()) as usize, (pos + rlp_string(b).len()) as usize),
            ),
        pos == buf.len() ==> r == Err::<(usize, usize), RlpError>(RlpError::InputTooShort),
        pos < buf.len() && buf[pos as int] >= 0xc0 ==> r == Err::<(usize, usize), RlpError>(
            RlpError::UnexpectedList,
        ),
        long_header_malformed(buf@, pos as int, 0xb7) || single_byte_malformed(buf@, pos as int)
            ==> r == Err::<(usize, usize), RlpError>(RlpError::MalformedHeader),
        forall|b: Seq<u8>| b.len() <= usize::MAX && #[trigger] truncated(buf@, pos as int, rlp_string(b))
            ==> r == Err::<(usize, usize), RlpError>(RlpError::InputTooShort),
{
    proof {
        assert forall|b: Seq<u8>| b.len() <= usize::MAX && #[trigger] truncated(buf@, pos as int, rlp_string(b)) && !(b.len() == 1 && b[0] < 0x80)
            implies agrees(buf@, pos as int, header_bytes(false, b.len())) && buf.len() - pos < header_bytes(false, b.len()).len() + b.len() by {
            let h = header_bytes(false, b.len());
            let e = rlp_string(b);
            let n = buf.len() - pos;
            assert(e == h + b);
            assert forall|i: int| 0 <= i < h.len() && pos + i < buf.len() implies buf@[pos + i] == #[trigger] h[i] by {
                assert(buf@[pos + i] == buf@.subrange(pos as int, buf.len() as int)[i]);
                assert(e[i] == e.subrange(0, n)[i]);
            }
        }
        assert forall|b: Seq<u8>| b.len() <= usize::MAX && #[trigger] truncated(buf@, pos as int, rlp_string(b)) && pos < buf.len()
            implies !(b.len() == 1 && b[0] < 0x80) && (b.len() < 56 ==> buf[pos as int] == 0x80 + b.len()) && (b.len() >= 56 ==> 0xb8 <= buf[pos as int] <= 0xbf) by {
            let e = rlp_string(b);
            let n = buf.len() - pos;
            lemma_len_bytes(b.len());
            assert(buf@[pos as int] == buf@.subrange(pos as int, buf.len() as int)[0]);
            assert(e[0] == e.subrange(0, n)[0]);
        }
    }
    if pos >= buf.len() {
        return Err(RlpError::InputTooShort);
    }
    let b0 = buf[pos];
    proof {
        assert forall|b: Seq<u8>| #[trigger] at(buf@, pos as int, rlp_string(b)) implies {
            &&& (b.len() == 1 && b[0] < 0x80) <==> b0 < 0x80
            &&& b.len() < 56 && !(b.len() == 1 && b[0] < 0x80) <==> 0x80 <= b0 < 0xb8
            &&& (b.len() < 56 && !(b.len() == 1 && b[0] < 0x80)) ==> b.len() == b0 - 0x80
            &&& b0 < 0xc0
        } by {
            let e = rlp_string(b);
            lemma_len_bytes(b.len());
            assert(e[0] == buf@.subrange(pos as int, pos + e.len())[0]);
        }
    }
    if b0 < 0x80 {
        proof {
            assert forall|b: Seq<u8>| #[trigger] at(buf@, pos as int, rlp_string(b)) implies
                rlp_string(b).len() == 1 && b.len() == 1 by {}
            assert(buf@.subrange(pos as int, pos + 1) =~= seq![b0]);
        }
        return Ok((pos, pos + 1));
    }
    if b0 < 0xb8 {
        let len = (b0 - 0x80) as usize;
        if buf.len() - (pos + 1) < len {
            return Err(RlpError::InputTooShort);
        }
        if len == 1 && buf[pos + 1] < 0x80 {
            proof {
                assert forall|b: Seq<u8>| #[trigger] at(buf@, pos as int, rlp_string(b)) implies
                    false by {
                    let e = rlp_string(b);
                    assert(e[1] == buf@.subrange(pos as int, pos + e.len())[1]);
                    assert(e[1] == b[0]);
                }
            }
            return Err(RlpError::MalformedHeader);
        }
        proof {
            let pl = buf@.subrange(pos + 1, pos + 1 + len);
            assert(buf@.subrange(pos as int, pos + 1 + len) =~= seq![b0] + pl);
            assert(rlp_string(pl) == seq![b0] + pl);
        }
        return Ok((pos + 1, pos + 1 + len));
    }
    if b0 >= 0xc0 {
        return Err(RlpError::UnexpectedList);
    }
    let k = (b0 - 0xb7) as usize;
    proof {
        assert forall|b: Seq<u8>| #[trigger] at(buf@, pos as int, rlp_string(b)) implies b.len()
            >= 56 && agrees(buf@, pos as int, header_bytes(false, b.len())) && pos
            + header_bytes(false, b.len()).len() + b.len() <= buf.len() by {
            let h = header_bytes(false, b.len());
            let e = rlp_string(b);
            assert(e == h + b);
            assert forall|i: int| 0 <= i < h.len() && pos + i < buf.len() implies buf[pos + i]
                == #[trigger] h[i] by {
                assert(e[i] == buf@.subrange(pos as int, pos + e.len())[i]);
            }
        }
    }
    let len = decode_long_len(buf, pos, false, k)?;
    proof {
        let pl = buf@.subrange(pos + 1 + k, pos + 1 + k + len);
        assert(buf@.subrange(pos as int, pos + 1 + k + len) =~= buf@.subrange(
            pos as int,
            pos + 1 + k,
        ) + pl);
        assert forall|b: Seq<u8>| #[trigger] at(buf@, pos as int, rlp_string(b)) implies b.len()
            == len && header_bytes(false, b.len()).len() == 1 + k by {
            assert(header_bytes(false, b.len()).len() == 1 + be_bytes(b.len()).len());
        }
    }
    Ok((pos + 1 + k, pos + 1 + k + len))
}

/// The bytes of a string close its encoding.
pub proof fn lemma_rlp_string_tail(c: Seq<u8>)
    ensures
        rlp_string(c).len() >= c.len(),
        rlp_string(c).subrange(rlp_string(c).len() - c.len(), rlp_string(c).len() as int) == c,
{
    let e = rlp_string(c);
    if !(c.len() == 1 && c[0] < 0x80) {
        assert(e.subrange(e.len() - c.len(), e.len() as int) =~= c);
    } else {
        assert(e.subrange(0, e.len() as int) =~= c);
    }
}

/// Reads an unsigned integer of at most `max` bytes at `pos`, giving it and
/// the position after it.
pub fn decode_uint(buf: &[u8], pos: usize, max: usize) -> (r: Result<(u128, usize), RlpError>)
    requires
        pos <= buf.len(),
        max <= 16,
    ensures
        r is Ok ==> {
            let (v, e) = r->Ok_0;
            &&& pos <= e <= buf.len()
            &&& (v as nat) < pow256(max as nat)
            &&& buf@.subrange(pos as int, e as int) == rlp_uint(v as nat)
        },
        forall|v: nat|
            v < pow256(max as nat) && #[trigger] at(buf@, pos as int, rlp_uint(v)) ==> r == Ok::<
                (u128, usize),
                RlpError,
            >((v as u128, (pos + rlp_uint(v).len()) as usize)),
        forall|b: Seq<u8>|
            #[trigger] at(buf@, pos as int, rlp_string(b)) && b.len() > 0 && b[0] == 0 ==> r
                == Err::<(u128, usize), RlpError>(RlpError::NonCanonicalInt),
        forall|b: Seq<u8>|
            #[trigger] at(buf@, pos as int, rlp_string(b)) && canonical(b) && b.len() > max ==> r
                == Err::<(u128, usize), RlpError>(RlpError::Overflow),
        pos == buf.len() ==> r == Err::<(u128, usize), RlpError>(RlpError::InputTooShort),
        forall|b: Seq<u8>| b.len() <= usize::MAX && #[trigger] truncated(buf@, pos as int, rlp_string(b))
            ==> r == Err::<(u128, usize), RlpError>(RlpError::InputTooShort),
{
    let (s, e) = decode_string(buf, pos)?;
    let ghost b = buf@.subrange(s as int, e as int);
    proof {
        assert forall|c: Seq<u8>| #[trigger] at(buf@, pos as int, rlp_string(c)) implies c == b by {
            lemma_rlp_string_tail(c);
            let w = buf@.subrange(pos as int, e as int);
            assert(b =~= w.subrange(s - pos, e - pos));
        }
    }
    if e > s && buf[s] == 0 {
        proof {
            assert forall|v: nat| v < pow256(max as nat) && #[trigger] at(buf@, pos as int, rlp_uint(v)) implies false by {
                lemma_be_value_of_bytes(v);
                assert(be_bytes(v) == b);
            }
        }
        return Err(RlpError::NonCanonicalInt);
    }
    if e - s > max {
        proof {
            assert forall|v: nat| v < pow256(max as nat) && #[trigger] at(buf@, pos as int, rlp_uint(v)) implies false by {
                lemma_be_bytes_len(v, max as nat);
                assert(be_bytes(v) == b);
            }
        }
        return Err(RlpError::Overflow);
    }
    let v = read_be(buf, s, e);
    proof {
        lemma_bytes_of_be_value(b);
        lemma_be_value_bound(b);
        lemma_pow256_mono(b.len(), max as nat);
        assert forall|w: nat| w < pow256(max as nat) && #[trigger] at(buf@, pos as int, rlp_uint(w)) implies w == v by {
            lemma_be_value_of_bytes(w);
            assert(be_bytes(w) == b);
        }
    }
    Ok((v, e))
}

/// A list that stands in `buf` gives its header what the list decoder needs.
pub proof fn lemma_at_list(buf: Seq<u8>, pos: int, payload: Seq<u8>)
    requires
        at(buf, pos, rlp_list(payload)),
        buf.len() <= usize::MAX,
    ensures
        payload.len() <= usize::MAX,
        agrees(buf, pos, header_bytes(true, payload.len())),
        pos + header_bytes(true, payload.len()).len() + payload.len() <= buf.len(),
        buf.subrange(pos + header_bytes(true, payload.len()).len(), pos + rlp_list(payload).len()) == payload,
{
    let h = header_bytes(true, payload.len());
    let e = rlp_list(payload);
    assert forall|i: int| 0 <= i < h.len() && pos + i < buf.len() implies buf[pos + i] == #[trigger] h[i] by {
        assert(e[i] == buf.subrange(pos, pos + e.len())[i]);
    }
    assert(buf.subrange(pos + h.len(), pos + e.len()) =~= buf.subrange(pos, pos + e.len()).subrange(h.len() as int, e.len() as int));
    assert(e.subrange(h.len() as int, e.len() as int) =~= payload);
}

/// The concatenation of the encodings `f(x)` of the items `x` of `s`.
pub open spec fn concat_enc<T>(s: Seq<T>, f: spec_fn(T) -> Seq<u8>) -> Seq<u8>
    decreases s.len(),
{
    if s.len() == 0 {
        Seq::empty()
    } else {
        concat_enc(s.drop_last(), f) + f(s.last())
    }
}

/// One more item adds its encoding at the end.
pub proof fn lemma_concat_take<T>(s: Seq<T>, f: spec_fn(T) -> Seq<u8>, i: int)
    requires
        0 <= i < s.len(),
    ensures
        concat_enc(s.take(i + 1), f) == concat_enc(s.take(i), f) + f(s[i]),
{
    assert(s.take(i + 1).drop_last() =~= s.take(i));
}

/// The encoding of the first `i` items begins the encoding of them all.
pub proof fn lemma_concat_prefix<T>(s: Seq<T>, f: spec_fn(T) -> Seq<u8>, i: int)
    requires
        0 <= i <= s.len(),
    ensures
        concat_enc(s.take(i), f).len() <= concat_enc(s, f).len(),
        concat_enc(s, f).subrange(0, concat_enc(s.take(i), f).len() as int) == concat_enc(s.take(i), f),
    decreases s.len(),
{
    if i == s.len() {
        assert(s.take(i) =~= s);
        assert(concat_enc(s, f).subrange(0, concat_enc(s, f).len() as int) =~= concat_enc(s, f));
    } else {
        let t = s.drop_last();
        lemma_concat_prefix(t, f, i);
        assert(t.take(i) =~= s.take(i));
        let a = concat_enc(t, f);
        let c = concat_enc(s.take(i), f);
        assert(concat_enc(s, f).subrange(0, c.len() as int) =~= a.subrange(0, c.len() as int));
    }
}

/// What stands at `pos` as `a + b` stands there as `a`, then `b`.
pub proof fn lemma_at_split(buf: Seq<u8>, pos: int, a: Seq<u8>, b: Seq<u8>)
    requires
        at(buf, pos, a + b),
    ensures
        at(buf, pos, a),
        at(buf, pos + a.len(), b),
{
    let w = buf.subrange(pos, pos + a.len() + b.len());
    assert(buf.subrange(pos, pos + a.len()) =~= w.subrange(0, a.len() as int));
    assert(buf.subrange(pos + a.len(), pos + a.len() + b.len()) =~= w.subrange(a.len() as int, (a.len() + b.len()) as int));
    assert((a + b).subrange(0, a.len() as int) =~= a);
    assert((a + b).subrange(a.len() as int, (a.len() + b.len()) as int) =~= b);
}

/// Zero is written as the empty string, and no integer is written with a
/// leading zero byte.
pub proof fn lemma_zero_encodes_empty(v: nat)
    ensures
        be_bytes(0) == Seq::<u8>::empty(),
        rlp_uint(0) == seq![0x80u8],
        canonical(be_bytes(v)),
{
    assert(rlp_uint(0) =~= seq![0x80u8]);
    lemma_be_value_of_bytes(v);
}

/// A strict beginning of `a + b` is a strict beginning of `a`, or `a`
/// followed by a strict beginning of `b`.
pub proof fn lemma_truncated_split(buf: Seq<u8>, pos: int, a: Seq<u8>, b: Seq<u8>)
    requires
        truncated(buf, pos, a + b),
    ensures
        truncated(buf, pos, a) || (at(buf, pos, a) && truncated(buf, pos + a.len(), b)),
{
    let n = buf.len() - pos;
    let w = buf.subrange(pos, buf.len() as int);
    if n < a.len() {
        assert(w =~= (a + b).subrange(0, n));
        assert(w =~= a.subrange(0, n));
    } else {
        assert(buf.subrange(pos, pos + a.len()) =~= w.subrange(0, a.len() as int));
        assert((a + b).subrange(0, n).subrange(0, a.len() as int) =~= a);
        assert(buf.subrange(pos + a.len(), buf.len() as int) =~= w.subrange(a.len() as int, n));
        assert((a + b).subrange(0, n).subrange(a.len() as int, n) =~= b.subrange(0, n - a.len()));
    }
}

} // verus!
