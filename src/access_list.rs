//! Access lists: the addresses and storage keys that a transaction declares
//! it will touch, and their nested RLP encoding.
use vstd::prelude::*;
use crate::rlp::{
    RlpError, at, agrees, truncated, rlp_list, rlp_string, header_bytes, concat_enc, decode_list_header,
    encode_header, encode_bytes, header_len, lemma_at_list, lemma_concat_take, lemma_concat_prefix,
    lemma_len_bytes,
};
use crate::primitives::{Address, B256, decode_fixed};

verus! {

/// The encoding of a storage key.
pub open spec fn enc_key(k: B256) -> Seq<u8> {
    rlp_string(k.0@)
}

/// `enc_key` as a function value.
pub open spec fn key_enc_fn() -> spec_fn(B256) -> Seq<u8> {
    |k: B256| enc_key(k)
}

/// The encodings of storage keys, one after another.
pub open spec fn enc_keys(keys: Seq<B256>) -> Seq<u8> {
    concat_enc(keys, key_enc_fn())
}

/// Each storage key takes 33 bytes.
pub proof fn lemma_enc_keys_len(keys: Seq<B256>)
    ensures
        enc_keys(keys).len() == 33 * keys.len(),
    decreases keys.len(),
{
    if keys.len() > 0 {
        lemma_enc_keys_len(keys.drop_last());
        lemma_len_bytes(32);
    }
}

/// Reads the storage keys that make up `buf[s..e]`.
pub fn decode_keys(buf: &[u8], s: usize, e: usize) -> (r: Result<Vec<B256>, RlpError>)
    requires
        s <= e <= buf.len(),
    ensures
        r is Ok ==> buf@.subrange(s as int, e as int) == enc_keys(r->Ok_0@),
        forall|ks: Seq<B256>| buf@.subrange(s as int, e as int) == #[trigger] enc_keys(ks) ==> r is Ok && r->Ok_0@ == ks,
{
    let mut keys: Vec<B256> = Vec::new();
    let mut p: usize = s;
    let ghost f = key_enc_fn();
    while p < e
        invariant
            s <= p <= e <= buf.len(),
            f == key_enc_fn(),
            buf@.subrange(s as int, p as int) == enc_keys(keys@),
            forall|ks: Seq<B256>| buf@.subrange(s as int, e as int) == #[trigger] enc_keys(ks) ==> keys@.len() <= ks.len() && keys@ == ks.take(keys@.len() as int),
        decreases e - p,
    {
        proof {
            assert forall|ks: Seq<B256>| buf@.subrange(s as int, e as int) == #[trigger] enc_keys(ks) implies keys@.len() < ks.len() && at(buf@, p as int, enc_key(ks[keys@.len() as int])) && p + enc_key(ks[keys@.len() as int]).len() <= e by {
                let k = keys@.len() as int;
                if k >= ks.len() {
                    assert(ks.take(k) =~= ks);
                    assert(enc_keys(keys@) == enc_keys(ks));
                    assert(buf@.subrange(s as int, p as int).len() == p - s);
                    assert(buf@.subrange(s as int, e as int).len() == e - s);
                    assert(false);
                }
                lemma_concat_take(ks, f, k);
                lemma_concat_prefix(ks, f, k + 1);
                let a = concat_enc(ks.take(k), f);
                let b = concat_enc(ks.take(k + 1), f);
                let c = enc_key(ks[k]);
                assert(enc_keys(keys@) == a);
                let w = enc_keys(ks);
                assert(w.subrange(a.len() as int, b.len() as int) =~= w.subrange(0, b.len() as int).subrange(a.len() as int, b.len() as int));
                assert(buf@.subrange(p as int, p + c.len()) =~= buf@.subrange(s as int, e as int).subrange(a.len() as int, b.len() as int));
                assert(b.subrange(a.len() as int, b.len() as int) =~= c);
            }
        }
        let (arr, q) = decode_fixed::<32>(buf, p)?;
        if q > e {
            return Err(RlpError::ListLengthMismatch);
        }
        let ghost old_keys = keys@;
        keys.push(B256(arr));
        proof {
            let k = old_keys.len() as int;
            lemma_concat_take(keys@, f, k);
            assert(keys@.take(k) =~= old_keys);
            assert(keys@.take(k + 1) =~= keys@);
            assert(buf@.subrange(s as int, q as int) =~= buf@.subrange(s as int, p as int) + buf@.subrange(p as int, q as int));
            assert forall|ks: Seq<B256>| buf@.subrange(s as int, e as int) == #[trigger] enc_keys(ks) implies keys@.len() <= ks.len() && keys@ == ks.take(keys@.len() as int) by {
                assert(at(buf@, p as int, rlp_string(ks[k].0@)));
                assert(arr@ == ks[k].0@);
                assert(arr =~= ks[k].0);
                assert(B256(arr) == ks[k]);
                assert(keys@ =~= ks.take(k + 1));
            }
        }
        p = q;
    }
    proof {
        assert forall|ks: Seq<B256>| buf@.subrange(s as int, e as int) == #[trigger] enc_keys(ks) implies keys@ == ks by {
            let k = keys@.len() as int;
            if k < ks.len() {
                lemma_concat_take(ks, f, k);
                lemma_concat_prefix(ks, f, k + 1);
                assert(enc_key(ks[k]).len() > 0);
            }
            assert(ks.take(k) =~= ks);
        }
    }
    Ok(keys)
}

/// An address and the storage keys of it that a transaction will touch.
#[derive(Debug, Clone, PartialEq, Eq, Hash, Default)]
pub struct AccessListItem {
    pub address: Address,
    pub storage_keys: Vec<B256>,
}

/// What an access-list item holds.
pub open spec fn item_view(it: AccessListItem) -> (Address, Seq<B256>) {
    (it.address, it.storage_keys@)
}

/// The encoding of an access-list item: a list of its address and the
/// list of its keys.
pub open spec fn enc_item(m: (Address, Seq<B256>)) -> Seq<u8> {
    rlp_list(rlp_string(m.0.0@) + rlp_list(enc_keys(m.1)))
}

/// `enc_item` as a function value.
pub open spec fn item_enc_fn() -> spec_fn((Address, Seq<B256>)) -> Seq<u8> {
    |m: (Address, Seq<B256>)| enc_item(m)
}

/// The encodings of access-list items, one after another.
pub open spec fn enc_items(ms: Seq<(Address, Seq<B256>)>) -> Seq<u8> {
    concat_enc(ms, item_enc_fn())
}

impl AccessListItem {
    /// The length of the item's payload, without its own header.
    fn payload_len(&self) -> (r: usize)
        requires
            enc_item(item_view(*self)).len() <= usize::MAX,
        ensures
            r == (rlp_string(self.address.0@) + rlp_list(enc_keys(self.storage_keys@))).len(),
    {
        proof {
            lemma_enc_keys_len(self.storage_keys@);
            lemma_len_bytes(20);
        }
        let n = self.storage_keys.len();
        let keys_len = 33 * n;
        21 + header_len(keys_len) + keys_len
    }

    /// The length of the item's encoding.
    pub fn length(&self) -> (r: usize)
        requires
            enc_item(item_view(*self)).len() <= usize::MAX,
        ensures
            r == enc_item(item_view(*self)).len(),
    {
        let p = self.payload_len();
        header_len(p) + p
    }

    /// Writes the item's encoding.
    pub fn encode(&self, out: &mut Vec<u8>)
        requires
            enc_item(item_view(*self)).len() <= usize::MAX,
        ensures
            final(out)@ == old(out)@ + enc_item(item_view(*self)),
    {
        proof {
            lemma_enc_keys_len(self.storage_keys@);
        }
        let p = self.payload_len();
        encode_header(true, p, out);
        encode_bytes(self.address.0.as_slice(), out);
        let n = self.storage_keys.len();
        encode_header(true, 33 * n, out);
        let ghost start = out@;
        let ghost f = key_enc_fn();
        let mut i: usize = 0;
        while i < n
            invariant
                i <= n == self.storage_keys@.len(),
                f == key_enc_fn(),
                out@ == start + enc_keys(self.storage_keys@.take(i as int)),
            decreases n - i,
        {
            proof {
                lemma_concat_take(self.storage_keys@, f, i as int);
            }
            encode_bytes(self.storage_keys[i].0.as_slice(), out);
            i = i + 1;
        }
        assert(self.storage_keys@.take(n as int) =~= self.storage_keys@);
        assert(final(out)@ =~= old(out)@ + enc_item(item_view(*self)));
    }

    /// Reads the encoding of an access-list item at `pos`.
    #[verifier::rlimit(100)]
    #[verifier::spinoff_prover]
    pub fn decode(buf: &[u8], pos: usize) -> (r: Result<(AccessListItem, usize), RlpError>)
        requires
            pos <= buf.len(),
        ensures
            r is Ok ==> {
                let (it, e) = r->Ok_0;
                &&& pos <= e <= buf.len()
                &&& buf@.subrange(pos as int, e as int) == enc_item(item_view(it))
            },
            forall|m: (Address, Seq<B256>)| #[trigger] at(buf@, pos as int, enc_item(m)) ==> r is Ok && item_view(r->Ok_0.0) == m && r->Ok_0.1 == pos + enc_item(m).len(),
    {
        proof {
            assert forall|m: (Address, Seq<B256>)| #[trigger] at(buf@, pos as int, enc_item(m)) implies
                at(buf@, (pos + header_bytes(true, (rlp_string(m.0.0@) + rlp_list(enc_keys(m.1))).len()).len()) as int, rlp_string(m.0.0@))
                && (rlp_string(m.0.0@) + rlp_list(enc_keys(m.1))).len() <= usize::MAX
                && agrees(buf@, pos as int, header_bytes(true, (rlp_string(m.0.0@) + rlp_list(enc_keys(m.1))).len()))
                && pos + header_bytes(true, (rlp_string(m.0.0@) + rlp_list(enc_keys(m.1))).len()).len() + (rlp_string(m.0.0@) + rlp_list(enc_keys(m.1))).len() <= buf.len() by {
                let x = rlp_string(m.0.0@) + rlp_list(enc_keys(m.1));
                lemma_at_list(buf@, pos as int, x);
                let h = header_bytes(true, x.len());
                let a = rlp_string(m.0.0@);
                assert(buf@.subrange(pos + h.len(), pos + h.len() + a.len()) =~= buf@.subrange(pos + h.len(), pos + rlp_list(x).len()).subrange(0, a.len() as int));
                assert(x.subrange(0, a.len() as int) =~= a);
            }
        }
        let (s1, e1) = decode_list_header(buf, pos)?;
        let (addr, p2) = decode_fixed::<20>(buf, s1)?;
        if p2 > e1 {
            return Err(RlpError::ListLengthMismatch);
        }
        proof {
            assert forall|m: (Address, Seq<B256>)| #[trigger] at(buf@, pos as int, enc_item(m)) implies
                m.0 == Address(addr) && at(buf@, p2 as int, rlp_list(enc_keys(m.1))) && p2 + rlp_list(enc_keys(m.1)).len() == e1
                && enc_keys(m.1).len() <= usize::MAX
                && agrees(buf@, p2 as int, header_bytes(true, enc_keys(m.1).len()))
                && p2 + header_bytes(true, enc_keys(m.1).len()).len() + enc_keys(m.1).len() <= buf.len() by {
                let x = rlp_string(m.0.0@) + rlp_list(enc_keys(m.1));
                lemma_at_list(buf@, pos as int, x);
                let a = rlp_string(m.0.0@);
                let k = rlp_list(enc_keys(m.1));
                assert(addr =~= m.0.0);
                assert(buf@.subrange(p2 as int, p2 + k.len()) =~= buf@.subrange(s1 as int, e1 as int).subrange(a.len() as int, x.len() as int));
                assert(x.subrange(a.len() as int, x.len() as int) =~= k);
                lemma_at_list(buf@, p2 as int, enc_keys(m.1));
            }
        }
        let (s3, e3) = decode_list_header(buf, p2)?;
        if e3 != e1 {
            proof {
                assert forall|m: (Address, Seq<B256>)| #[trigger] at(buf@, pos as int, enc_item(m)) implies false by {
                    lemma_at_list(buf@, p2 as int, enc_keys(m.1));
                }
            }
            return Err(RlpError::ListLengthMismatch);
        }
        proof {
            assert forall|m: (Address, Seq<B256>)| #[trigger] at(buf@, pos as int, enc_item(m)) implies
                buf@.subrange(s3 as int, e3 as int) == enc_keys(m.1) by {
                lemma_at_list(buf@, p2 as int, enc_keys(m.1));
            }
        }
        let keys = decode_keys(buf, s3, e3)?;
        let it = AccessListItem { address: Address(addr), storage_keys: keys };
        proof {
            let x = buf@.subrange(s1 as int, e1 as int);
            assert(x =~= buf@.subrange(s1 as int, p2 as int) + buf@.subrange(p2 as int, s3 as int) + buf@.subrange(s3 as int, e3 as int));
            assert(buf@.subrange(pos as int, e1 as int) =~= buf@.subrange(pos as int, s1 as int) + x);
            assert(buf@.subrange(p2 as int, e3 as int) =~= buf@.subrange(p2 as int, s3 as int) + buf@.subrange(s3 as int, e3 as int));
            assert(x =~= rlp_string(addr@) + rlp_list(enc_keys(keys@)));
            assert forall|m: (Address, Seq<B256>)| #[trigger] at(buf@, pos as int, enc_item(m)) implies item_view(it) == m by {
                assert(keys@ == m.1);
            }
        }
        Ok((it, e1))
    }
}

/// What a sequence of access-list items holds.
pub open spec fn items_view(items: Seq<AccessListItem>) -> Seq<(Address, Seq<B256>)> {
    items.map_values(|it: AccessListItem| item_view(it))
}

/// Reads the access-list items that make up `buf[s..e]`.
#[verifier::rlimit(40)]
pub fn decode_items(buf: &[u8], s: usize, e: usize) -> (r: Result<Vec<AccessListItem>, RlpError>)
    requires
        s <= e <= buf.len(),
    ensures
        r is Ok ==> buf@.subrange(s as int, e as int) == enc_items(items_view(r->Ok_0@)),
        forall|ms: Seq<(Address, Seq<B256>)>| buf@.subrange(s as int, e as int) == #[trigger] enc_items(ms) ==> r is Ok && items_view(r->Ok_0@) == ms,
{
    let mut items: Vec<AccessListItem> = Vec::new();
    let mut p: usize = s;
    let ghost f = item_enc_fn();
    while p < e
        invariant
            s <= p <= e <= buf.len(),
            f == item_enc_fn(),
            buf@.subrange(s as int, p as int) == enc_items(items_view(items@)),
            forall|ms: Seq<(Address, Seq<B256>)>| buf@.subrange(s as int, e as int) == #[trigger] enc_items(ms) ==> items@.len() <= ms.len() && items_view(items@) == ms.take(items@.len() as int),
        decreases e - p,
    {
        proof {
            assert forall|ms: Seq<(Address, Seq<B256>)>| buf@.subrange(s as int, e as int) == #[trigger] enc_items(ms) implies items@.len() < ms.len() && at(buf@, p as int, enc_item(ms[items@.len() as int])) && p + enc_item(ms[items@.len() as int]).len() <= e by {
                let k = items@.len() as int;
                if k >= ms.len() {
                    assert(ms.take(k) =~= ms);
                    assert(enc_items(items_view(items@)) == enc_items(ms));
                    assert(buf@.subrange(s as int, p as int).len() == p - s);
                    assert(buf@.subrange(s as int, e as int).len() == e - s);
                    assert(false);
                }
                lemma_concat_take(ms, f, k);
                lemma_concat_prefix(ms, f, k + 1);
                let a = concat_enc(ms.take(k), f);
                let b = concat_enc(ms.take(k + 1), f);
                let c = enc_item(ms[k]);
                assert(enc_items(items_view(items@)) == a);
                let w = enc_items(ms);
                assert(w.subrange(a.len() as int, b.len() as int) =~= w.subrange(0, b.len() as int).subrange(a.len() as int, b.len() as int));
                assert(buf@.subrange(p as int, p + c.len()) =~= buf@.subrange(s as int, e as int).subrange(a.len() as int, b.len() as int));
                assert(b.subrange(a.len() as int, b.len() as int) =~= c);
            }
        }
        let (it, q) = AccessListItem::decode(buf, p)?;
        if q > e {
            return Err(RlpError::ListLengthMismatch);
        }
        let ghost old_items = items@;
        items.push(it);
        proof {
            let k = old_items.len() as int;
            let v = items_view(items@);
            assert(items_view(old_items) =~= v.take(k));
            assert(v.take(k + 1) =~= v);
            lemma_concat_take(v, f, k);
            assert(buf@.subrange(s as int, q as int) =~= buf@.subrange(s as int, p as int) + buf@.subrange(p as int, q as int));
            assert forall|ms: Seq<(Address, Seq<B256>)>| buf@.subrange(s as int, e as int) == #[trigger] enc_items(ms) implies items@.len() <= ms.len() && items_view(items@) == ms.take(items@.len() as int) by {
                assert(at(buf@, p as int, enc_item(ms[k])));
                assert(item_view(it) == ms[k]);
                assert(items_view(items@) =~= ms.take(k + 1));
            }
        }
        p = q;
    }
    proof {
        assert forall|ms: Seq<(Address, Seq<B256>)>| buf@.subrange(s as int, e as int) == #[trigger] enc_items(ms) implies items_view(items@) == ms by {
            let k = items@.len() as int;
            if k < ms.len() {
                lemma_concat_take(ms, f, k);
                lemma_concat_prefix(ms, f, k + 1);
                assert(enc_item(ms[k]).len() > 0);
            }
            assert(ms.take(k) =~= ms);
        }
    }
    Ok(items)
}

/// The addresses and storage keys that a transaction declares it will touch.
#[derive(Debug, Clone, PartialEq, Eq, Hash, Default)]
pub struct AccessList(pub Vec<AccessListItem>);

impl View for AccessList {
    type V = Seq<(Address, Seq<B256>)>;

    open spec fn view(&self) -> Seq<(Address, Seq<B256>)> {
        items_view(self.0@)
    }
}

/// The encoding of an access list: the list of its items.
pub open spec fn enc_access_list(m: Seq<(Address, Seq<B256>)>) -> Seq<u8> {
    rlp_list(enc_items(m))
}

impl AccessList {
    /// The empty access list.
    pub fn new() -> (r: AccessList)
        ensures
            r@ == Seq::<(Address, Seq<B256>)>::empty(),
    {
        let r = AccessList(Vec::new());
        assert(r@ =~= Seq::<(Address, Seq<B256>)>::empty());
        r
    }

    /// The length of the items' encodings, without the list header.
    fn payload_len(&self) -> (r: usize)
        requires
            enc_access_list(self@).len() <= usize::MAX,
        ensures
            r == enc_items(self@).len(),
    {
        let ghost f = item_enc_fn();
        let ghost v = self@;
        let mut total: usize = 0;
        let mut i: usize = 0;
        while i < self.0.len()
            invariant
                i <= self.0@.len() == v.len(),
                v == self@,
                f == item_enc_fn(),
                enc_access_list(v).len() <= usize::MAX,
                total == enc_items(v.take(i as int)).len(),
            decreases self.0.len() - i,
        {
            proof {
                lemma_concat_take(v, f, i as int);
                lemma_concat_prefix(v, f, i + 1);
            }
            total = total + self.0[i].length();
            i = i + 1;
        }
        assert(v.take(i as int) =~= v);
        total
    }

    /// The length of the access list's encoding.
    pub fn length(&self) -> (r: usize)
        requires
            enc_access_list(self@).len() <= usize::MAX,
        ensures
            r == enc_access_list(self@).len(),
    {
        let p = self.payload_len();
        header_len(p) + p
    }

    /// Writes the access list's encoding.
    pub fn encode(&self, out: &mut Vec<u8>)
        requires
            enc_access_list(self@).len() <= usize::MAX,
        ensures
            final(out)@ == old(out)@ + enc_access_list(self@),
    {
        let p = self.payload_len();
        encode_header(true, p, out);
        let ghost start = out@;
        let ghost f = item_enc_fn();
        let ghost v = self@;
        let mut i: usize = 0;
        while i < self.0.len()
            invariant
                i <= self.0@.len() == v.len(),
                v == self@,
                f == item_enc_fn(),
                enc_access_list(v).len() <= usize::MAX,
                out@ == start + enc_items(v.take(i as int)),
            decreases self.0.len() - i,
        {
            proof {
                lemma_concat_take(v, f, i as int);
                lemma_concat_prefix(v, f, i + 1);
            }
            self.0[i].encode(out);
            i = i + 1;
        }
        assert(v.take(i as int) =~= v);
    }

    /// Reads the encoding of an access list at `pos`.
    pub fn decode(buf: &[u8], pos: usize) -> (r: Result<(AccessList, usize), RlpError>)
        requires
            pos <= buf.len(),
        ensures
            r is Ok ==> {
                let (al, e) = r->Ok_0;
                &&& pos <= e <= buf.len()
                &&& buf@.subrange(pos as int, e as int) == enc_access_list(al@)
            },
            forall|m: Seq<(Address, Seq<B256>)>| #[trigger] at(buf@, pos as int, enc_access_list(m)) ==> r is Ok && r->Ok_0.0@ == m && r->Ok_0.1 == pos + enc_access_list(m).len(),
            forall|m: Seq<(Address, Seq<B256>)>| enc_items(m).len() <= usize::MAX && #[trigger] truncated(buf@, pos as int, enc_access_list(m)) ==> r == Err::<(AccessList, usize), RlpError>(RlpError::InputTooShort),
    {
        proof {
            assert forall|m: Seq<(Address, Seq<B256>)>| enc_items(m).len() <= usize::MAX && #[trigger] truncated(buf@, pos as int, enc_access_list(m)) implies
                agrees(buf@, pos as int, header_bytes(true, enc_items(m).len()))
                && buf.len() - pos < header_bytes(true, enc_items(m).len()).len() + enc_items(m).len() by {
                let h = header_bytes(true, enc_items(m).len());
                let e = enc_access_list(m);
                let n = buf.len() - pos;
                assert forall|i: int| 0 <= i < h.len() && pos + i < buf.len() implies buf@[pos + i] == #[trigger] h[i] by {
                    assert(buf@[pos + i] == buf@.subrange(pos as int, buf.len() as int)[i]);
                    assert(e[i] == e.subrange(0, n)[i]);
                }
            }
            assert forall|m: Seq<(Address, Seq<B256>)>| #[trigger] at(buf@, pos as int, enc_access_list(m)) implies
                enc_items(m).len() <= usize::MAX
                && agrees(buf@, pos as int, header_bytes(true, enc_items(m).len()))
                && pos + header_bytes(true, enc_items(m).len()).len() + enc_items(m).len() <= buf.len()
                && buf@.subrange(pos + header_bytes(true, enc_items(m).len()).len(), pos + enc_access_list(m).len()) == enc_items(m) by {
                lemma_at_list(buf@, pos as int, enc_items(m));
            }
        }
        let (s, e) = decode_list_header(buf, pos)?;
        let items = decode_items(buf, s, e)?;
        let al = AccessList(items);
        assert(buf@.subrange(pos as int, e as int) =~= buf@.subrange(pos as int, s as int) + buf@.subrange(s as int, e as int));
        Ok((al, e))
    }
}

/// The bytes that an item's address and keys take in memory.
pub open spec fn item_size(m: (Address, Seq<B256>)) -> nat {
    20 + 32 * m.1.len()
}

/// The bytes that the items' addresses and keys take in memory.
pub open spec fn items_size(ms: Seq<(Address, Seq<B256>)>) -> nat
    decreases ms.len(),
{
    if ms.len() == 0 {
        0
    } else {
        items_size(ms.drop_last()) + item_size(ms.last())
    }
}

/// The items take no more bytes in memory than their encoding.
pub proof fn lemma_items_size(ms: Seq<(Address, Seq<B256>)>)
    ensures
        items_size(ms) <= enc_items(ms).len(),
    decreases ms.len(),
{
    if ms.len() > 0 {
        lemma_items_size(ms.drop_last());
        lemma_enc_keys_len(ms.last().1);
    }
}

impl AccessListItem {
    /// The bytes that the address and keys take in memory.
    pub fn size(&self) -> (r: usize)
        requires
            enc_item(item_view(*self)).len() <= usize::MAX,
        ensures
            r == item_size(item_view(*self)),
    {
        proof {
            lemma_enc_keys_len(self.storage_keys@);
        }
        20 + 32 * self.storage_keys.len()
    }
}

impl AccessList {
    /// The bytes that the items' addresses and keys take in memory.
    pub fn size(&self) -> (r: usize)
        requires
            enc_access_list(self@).len() <= usize::MAX,
        ensures
            r == items_size(self@),
    {
        let ghost f = item_enc_fn();
        let ghost v = self@;
        let mut total: usize = 0;
        let mut i: usize = 0;
        while i < self.0.len()
            invariant
                i <= self.0@.len() == v.len(),
                v == self@,
                f == item_enc_fn(),
                enc_access_list(v).len() <= usize::MAX,
                total == items_size(v.take(i as int)),
            decreases self.0.len() - i,
        {
            proof {
                lemma_concat_take(v, f, i as int);
                lemma_concat_prefix(v, f, i + 1);
                lemma_items_size(v.take(i + 1));
                assert(v.take(i + 1).drop_last() =~= v.take(i as int));
            }
            total = total + self.0[i].size();
            i = i + 1;
        }
        assert(v.take(i as int) =~= v);
        total
    }
}

} // verus!
