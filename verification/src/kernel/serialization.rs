//! The canonical CBOR form of a transition receipt: a map of its five
//! fields in declaration order, text keys, each hash an array of 32
//! unsigned integers, the kernel version an unsigned integer and the kind
//! its variant name, every integer in its shortest form. Decoding accepts
//! exactly these bytes, so equal receipts have equal bytes and the bytes
//! determine the receipt.
use vstd::prelude::*;
use vstd::string::*;
use crate::kernel::types::{TransitionReceipt, TransitionKind, TransitionError, StateHash};

verus! {

/// The shortest CBOR head of an unsigned integer below 65536.
pub open spec fn cbor_uint(v: nat) -> Seq<u8> {
    if v <= 23 {
        seq![v as u8]
    } else if v <= 255 {
        seq![24u8, v as u8]
    } else {
        seq![25u8, (v / 256) as u8, (v % 256) as u8]
    }
}

/// A CBOR text string of at most 23 bytes.
pub open spec fn cbor_text(s: Seq<u8>) -> Seq<u8> {
    seq![(96 + s.len()) as u8] + s
}

/// The CBOR items of the bytes of `a`, in order.
pub open spec fn cbor_u8s(a: Seq<u8>) -> Seq<u8>
    decreases a.len(),
{
    if a.len() == 0 {
        Seq::empty()
    } else {
        cbor_uint(a[0] as nat) + cbor_u8s(a.drop_first())
    }
}

/// A 32-byte hash as a CBOR array of 32 integers.
pub open spec fn cbor_hash(a: Seq<u8>) -> Seq<u8> {
    seq![152u8, 32u8] + cbor_u8s(a)
}

pub open spec fn key_parent() -> Seq<u8> {
    seq![112u8, 97, 114, 101, 110, 116, 95, 115, 116, 97, 116, 101, 95, 104, 97, 115, 104]
}

pub open spec fn key_event() -> Seq<u8> {
    seq![101u8, 118, 101, 110, 116, 95, 104, 97, 115, 104]
}

pub open spec fn key_child() -> Seq<u8> {
    seq![99u8, 104, 105, 108, 100, 95, 115, 116, 97, 116, 101, 95, 104, 97, 115, 104]
}

pub open spec fn key_version() -> Seq<u8> {
    seq![107u8, 101, 114, 110, 101, 108, 95, 118, 101, 114, 115, 105, 111, 110]
}

pub open spec fn key_kind() -> Seq<u8> {
    seq![107u8, 105, 110, 100]
}

/// The name of a kind: `ClaimCreated` or `ClaimVerified`.
pub open spec fn kind_name(k: TransitionKind) -> Seq<u8> {
    match k {
        TransitionKind::ClaimCreated => seq![67u8, 108, 97, 105, 109, 67, 114, 101, 97, 116, 101, 100],
        TransitionKind::ClaimVerified => seq![67u8, 108, 97, 105, 109, 86, 101, 114, 105, 102, 105, 101, 100],
    }
}

/// The canonical encoding of a receipt.
pub open spec fn encode_receipt(r: TransitionReceipt) -> Seq<u8> {
    seq![165u8] + cbor_text(key_parent()) + cbor_hash(r.parent_state_hash@) + cbor_text(key_event()) + cbor_hash(
        r.event_hash@,
    ) + cbor_text(key_child()) + cbor_hash(r.child_state_hash@) + cbor_text(key_version()) + cbor_uint(
        r.kernel_version as nat,
    ) + cbor_text(key_kind()) + cbor_text(kind_name(r.kind))
}

/// `b[pos..p]` is the encoding of `v`, at most `max`.
pub open spec fn uint_at(b: Seq<u8>, pos: int, p: int, v: nat, max: nat) -> bool {
    &&& 0 <= pos <= p <= b.len()
    &&& v <= max
    &&& b.subrange(pos, p) == cbor_uint(v)
}

fn push_uint(out: &mut Vec<u8>, v: u16)
    ensures
        final(out)@ == old(out)@ + cbor_uint(v as nat),
{
    if v <= 23 {
        out.push(v as u8);
    } else if v <= 255 {
        out.push(24);
        out.push(v as u8);
    } else {
        out.push(25);
        out.push((v / 256) as u8);
        out.push((v % 256) as u8);
    }
    assert(final(out)@ =~= old(out)@ + cbor_uint(v as nat));
}

pub(crate) fn push_bytes(out: &mut Vec<u8>, s: &[u8])
    ensures
        final(out)@ == old(out)@ + s@,
{
    let ghost start = out@;
    let mut i: usize = 0;
    while i < s.len()
        invariant
            i <= s@.len(),
            out@ == start + s@.take(i as int),
        decreases s@.len() - i,
    {
        out.push(s[i]);
        assert(s@.take(i as int + 1) =~= s@.take(i as int).push(s@[i as int]));
        i = i + 1;
    }
    assert(s@.take(s@.len() as int) =~= s@);
}

proof fn lemma_cbor_u8s_push(a: Seq<u8>, v: u8)
    ensures
        cbor_u8s(a.push(v)) == cbor_u8s(a) + cbor_uint(v as nat),
    decreases a.len(),
{
    if a.len() == 0 {
        assert(a.push(v).drop_first() =~= Seq::<u8>::empty());
        assert(cbor_u8s(a.push(v)) =~= cbor_uint(v as nat) + cbor_u8s(Seq::<u8>::empty()));
    } else {
        assert(a.push(v).drop_first() =~= a.drop_first().push(v));
        lemma_cbor_u8s_push(a.drop_first(), v);
        assert(cbor_u8s(a.push(v)) =~= cbor_uint(a[0] as nat) + cbor_u8s(a.drop_first().push(v)));
    }
}

pub(crate) fn push_hash(out: &mut Vec<u8>, h: &StateHash)
    ensures
        final(out)@ == old(out)@ + cbor_hash(h@),
{
    let ghost start = out@;
    out.push(152);
    out.push(32);
    let mut i: usize = 0;
    while i < 32
        invariant
            i <= 32,
            out@ == start + seq![152u8, 32u8] + cbor_u8s(h@.take(i as int)),
        decreases 32 - i,
    {
        let ghost before = out@;
        push_uint(out, h[i] as u16);
        proof {
            assert(h@.take(i as int + 1) =~= h@.take(i as int).push(h@[i as int]));
            lemma_cbor_u8s_push(h@.take(i as int), h@[i as int]);
        }
        i = i + 1;
    }
    assert(h@.take(32) =~= h@);
}

fn push_text(out: &mut Vec<u8>, s: &[u8])
    requires
        s@.len() <= 23,
    ensures
        final(out)@ == old(out)@ + cbor_text(s@),
{
    out.push(96 + s.len() as u8);
    push_bytes(out, s);
    assert(final(out)@ =~= old(out)@ + cbor_text(s@));
}

fn key_parent_exec() -> (k: [u8; 17])
    ensures
        k@ == key_parent(),
{
    let k = [112u8, 97, 114, 101, 110, 116, 95, 115, 116, 97, 116, 101, 95, 104, 97, 115, 104];
    assert(k@ =~= key_parent());
    k
}

fn key_event_exec() -> (k: [u8; 10])
    ensures
        k@ == key_event(),
{
    let k = [101u8, 118, 101, 110, 116, 95, 104, 97, 115, 104];
    assert(k@ =~= key_event());
    k
}

fn key_child_exec() -> (k: [u8; 16])
    ensures
        k@ == key_child(),
{
    let k = [99u8, 104, 105, 108, 100, 95, 115, 116, 97, 116, 101, 95, 104, 97, 115, 104];
    assert(k@ =~= key_child());
    k
}

fn key_version_exec() -> (k: [u8; 14])
    ensures
        k@ == key_version(),
{
    let k = [107u8, 101, 114, 110, 101, 108, 95, 118, 101, 114, 115, 105, 111, 110];
    assert(k@ =~= key_version());
    k
}

fn key_kind_exec() -> (k: [u8; 4])
    ensures
        k@ == key_kind(),
{
    let k = [107u8, 105, 110, 100];
    assert(k@ =~= key_kind());
    k
}

fn kind_name_exec(kind: TransitionKind) -> (k: Vec<u8>)
    ensures
        k@ == kind_name(kind),
{
    match kind {
        TransitionKind::ClaimCreated => {
            let k = vec![67u8, 108, 97, 105, 109, 67, 114, 101, 97, 116, 101, 100];
            assert(k@ =~= kind_name(kind));
            k
        },
        TransitionKind::ClaimVerified => {
            let k = vec![67u8, 108, 97, 105, 109, 86, 101, 114, 105, 102, 105, 101, 100];
            assert(k@ =~= kind_name(kind));
            k
        },
    }
}

/// The canonical CBOR bytes of a receipt.
pub fn to_canonical_cbor(r: &TransitionReceipt) -> (out: Result<Vec<u8>, TransitionError>)
    ensures
        out matches Ok(b) && b@ == encode_receipt(*r),
{
    let mut out: Vec<u8> = Vec::new();
    out.push(165);
    push_text(&mut out, &key_parent_exec());
    push_hash(&mut out, &r.parent_state_hash);
    push_text(&mut out, &key_event_exec());
    push_hash(&mut out, &r.event_hash);
    push_text(&mut out, &key_child_exec());
    push_hash(&mut out, &r.child_state_hash);
    push_text(&mut out, &key_version_exec());
    push_uint(&mut out, r.kernel_version);
    push_text(&mut out, &key_kind_exec());
    let name = kind_name_exec(r.kind);
    push_text(&mut out, name.as_slice());
    assert(out@ =~= encode_receipt(*r));
    Ok(out)
}

/// The canonical CBOR bytes of a receipt (the same as
/// `to_canonical_cbor`).
pub fn to_cbor(r: &TransitionReceipt) -> (out: Result<Vec<u8>, TransitionError>)
    ensures
        out matches Ok(b) && b@ == encode_receipt(*r),
{
    to_canonical_cbor(r)
}

proof fn lemma_cbor_u8s_append(a: Seq<u8>, c: Seq<u8>)
    ensures
        cbor_u8s(a + c) == cbor_u8s(a) + cbor_u8s(c),
    decreases a.len(),
{
    if a.len() == 0 {
        assert(a + c =~= c);
        assert(cbor_u8s(a) =~= Seq::<u8>::empty());
        assert(cbor_u8s(a) + cbor_u8s(c) =~= cbor_u8s(c));
    } else {
        assert((a + c).drop_first() =~= a.drop_first() + c);
        lemma_cbor_u8s_append(a.drop_first(), c);
        assert((a + c)[0] == a[0]);
        assert(cbor_u8s(a + c) =~= cbor_uint(a[0] as nat) + (cbor_u8s(a.drop_first()) + cbor_u8s(c)));
    }
}

/// Read a literal at `pos`.
fn expect_lit(b: &[u8], pos: usize, lit: &[u8]) -> (r: Option<usize>)
    requires
        pos <= b@.len(),
    ensures
        r is Some <==> (pos + lit@.len() <= b@.len() && b@.subrange(pos as int, pos + lit@.len()) == lit@),
        r matches Some(p) ==> p == pos + lit@.len(),
{
    if lit.len() > b.len() - pos {
        return None;
    }
    let end: usize = pos + lit.len();
    let mut i: usize = 0;
    while i < lit.len()
        invariant
            end == pos + lit@.len(),
            end <= b@.len(),
            i <= lit@.len(),
            forall|k: int| 0 <= k < i ==> b@[pos + k] == lit@[k],
        decreases lit@.len() - i,
    {
        if b[pos + i] != lit[i] {
            assert(b@.subrange(pos as int, pos + lit@.len())[i as int] != lit@[i as int]);
            return None;
        }
        i = i + 1;
    }
    assert(b@.subrange(pos as int, pos + lit@.len()) =~= lit@);
    Some(end)
}

proof fn lemma_uint_at_facts(b: Seq<u8>, pos: int, p: int, v: nat, max: nat)
    requires
        uint_at(b, pos, p, v, max),
        max <= 65535,
    ensures
        v <= 23 ==> p == pos + 1 && b[pos] == v,
        24 <= v <= 255 ==> p == pos + 2 && b[pos] == 24 && b[pos + 1] == v,
        v >= 256 ==> p == pos + 3 && b[pos] == 25 && b[pos + 1] == v / 256 && b[pos + 2] == v % 256,
{
    assert(b.subrange(pos, p).len() == cbor_uint(v).len());
    if v <= 23 {
        assert(b.subrange(pos, p)[0] == b[pos]);
    } else if v <= 255 {
        assert(b.subrange(pos, p)[0] == b[pos]);
        assert(b.subrange(pos, p)[1] == b[pos + 1]);
    } else {
        let hi: nat = v / 256;
        let lo: nat = v % 256;
        assert(hi <= 255);
        assert(lo <= 255);
        assert(hi as u8 == hi);
        assert(lo as u8 == lo);
        assert(cbor_uint(v) == seq![25u8, hi as u8, lo as u8]);
        assert(b.subrange(pos, p)[0] == b[pos]);
        assert(b.subrange(pos, p)[1] == b[pos + 1]);
        assert(b.subrange(pos, p)[2] == b[pos + 2]);
    }
}

/// The encoding of an integer is determined by where it starts.
proof fn lemma_uint_at_unique(b: Seq<u8>, pos: int, p1: int, v1: nat, p2: int, v2: nat, max: nat)
    requires
        uint_at(b, pos, p1, v1, max),
        uint_at(b, pos, p2, v2, max),
        max <= 65535,
    ensures
        p1 == p2,
        v1 == v2,
{
    lemma_uint_at_facts(b, pos, p1, v1, max);
    lemma_uint_at_facts(b, pos, p2, v2, max);
    if v1 >= 256 && v2 >= 256 {
        assert(v1 == (v1 / 256) * 256 + v1 % 256);
        assert(v2 == (v2 / 256) * 256 + v2 % 256);
    }
}

/// Read a canonical unsigned integer of at most `max` at `pos`.
fn read_uint(b: &[u8], pos: usize, max: u16) -> (r: Option<(u16, usize)>)
    requires
        pos <= b@.len(),
    ensures
        r matches Some((v, p)) ==> uint_at(b@, pos as int, p as int, v as nat, max as nat),
        r is None ==> forall|v: nat, p: int| !uint_at(b@, pos as int, p, v, max as nat),
{
    proof {
        assert forall|v: nat, p: int| uint_at(b@, pos as int, p, v, max as nat) implies {
            &&& v <= 23 ==> p == pos + 1 && b@[pos as int] == v
            &&& 24 <= v <= 255 ==> p == pos + 2 && b@[pos as int] == 24 && b@[pos + 1] == v
            &&& v >= 256 ==> p == pos + 3 && b@[pos as int] == 25 && b@[pos + 1] == v / 256 && b@[pos + 2] == v % 256
        } by {
            lemma_uint_at_facts(b@, pos as int, p, v, max as nat);
        }
    }
    if pos >= b.len() {
        return None;
    }
    let x = b[pos];
    if x <= 23 {
        if (x as u16) <= max {
            assert(b@.subrange(pos as int, pos + 1) =~= cbor_uint(x as nat));
            return Some((x as u16, pos + 1));
        }
        return None;
    } else if x == 24 {
        if pos + 1 >= b.len() {
            return None;
        }
        let v = b[pos + 1];
        if v >= 24 && (v as u16) <= max {
            assert(b@.subrange(pos as int, pos + 2) =~= cbor_uint(v as nat));
            return Some((v as u16, pos + 2));
        }
        return None;
    } else if x == 25 {
        if b.len() - pos <= 2 {
            return None;
        }
        let hi = b[pos + 1];
        let lo = b[pos + 2];
        let v: u16 = (hi as u16) * 256 + (lo as u16);
        assert((v as nat) / 256 == hi as nat);
        assert((v as nat) % 256 == lo as nat);
        if v >= 256 && v <= max {
            assert(b@.subrange(pos as int, pos + 3) =~= cbor_uint(v as nat));
            return Some((v, pos + 3));
        }
        return None;
    }
    None
}


/// `b[pos..]` starts with `piece`, followed by `rest`.
proof fn lemma_starts(b: Seq<u8>, pos: int, piece: Seq<u8>, rest: Seq<u8>)
    requires
        0 <= pos <= b.len(),
        b.subrange(pos, b.len() as int) == piece + rest,
    ensures
        pos + piece.len() <= b.len(),
        b.subrange(pos, pos + piece.len()) == piece,
        b.subrange(pos + piece.len(), b.len() as int) == rest,
{
    assert(b.subrange(pos, pos + piece.len()) =~= (piece + rest).subrange(0, piece.len() as int));
    assert(b.subrange(pos + piece.len(), b.len() as int) =~= (piece + rest).subrange(
        piece.len() as int,
        (piece + rest).len() as int,
    ));
}

/// Read a short text string at `pos`.
fn expect_text(b: &[u8], pos: usize, t: &[u8]) -> (r: Option<usize>)
    requires
        pos <= b@.len(),
        t@.len() <= 23,
    ensures
        r is Some <==> (pos + 1 + t@.len() <= b@.len() && b@.subrange(pos as int, pos + 1 + t@.len())
            == cbor_text(t@)),
        r matches Some(p) ==> p == pos + 1 + t@.len(),
{
    let ghost want = cbor_text(t@);
    if pos >= b.len() {
        return None;
    }
    if b[pos] != 96 + t.len() as u8 {
        proof {
            if pos + 1 + t@.len() <= b@.len() && b@.subrange(pos as int, pos + 1 + t@.len()) == want {
                assert(b@.subrange(pos as int, pos + 1 + t@.len())[0] == b@[pos as int]);
            }
        }
        return None;
    }
    let r = expect_lit(b, pos + 1, t);
    proof {
        if pos + 1 + t@.len() <= b@.len() {
            assert(b@.subrange(pos as int, pos + 1 + t@.len()) =~= seq![b@[pos as int]] + b@.subrange(
                pos + 1,
                pos + 1 + t@.len(),
            ));
            if b@.subrange(pos as int, pos + 1 + t@.len()) == want {
                assert(b@.subrange(pos + 1, pos + 1 + t@.len()) =~= want.subrange(1, want.len() as int));
                assert(want.subrange(1, want.len() as int) =~= t@);
            }
        }
    }
    r
}

/// `b[pos..]` begins with the encoding of the hash `h`.
pub open spec fn hash_prefix_at(b: Seq<u8>, pos: int, h: Seq<u8>) -> bool {
    &&& h.len() == 32
    &&& 0 <= pos
    &&& pos + cbor_hash(h).len() <= b.len()
    &&& b.subrange(pos, pos + cbor_hash(h).len()) == cbor_hash(h)
}

proof fn lemma_cbor_u8s_single(x: u8)
    ensures
        cbor_u8s(seq![x]) == cbor_uint(x as nat),
{
    assert(seq![x].drop_first() =~= Seq::<u8>::empty());
    assert(cbor_u8s(seq![x]) =~= cbor_uint(x as nat) + cbor_u8s(Seq::<u8>::empty()));
}

/// Inside the encoding of `h`, after its first `i` bytes, comes the
/// encoding of `h[i]`.
proof fn lemma_hash_step(b: Seq<u8>, pos: int, q: int, h: Seq<u8>, i: int)
    requires
        hash_prefix_at(b, pos, h),
        0 <= i < 32,
        pos <= q <= b.len(),
        b.subrange(pos, q) == seq![152u8, 32u8] + cbor_u8s(h.take(i)),
    ensures
        uint_at(b, q, q + cbor_uint(h[i] as nat).len(), h[i] as nat, 255),
{
    let a = h.take(i);
    let m = seq![h[i]];
    let c = h.skip(i + 1);
    assert(h =~= a + m + c);
    lemma_cbor_u8s_append(a + m, c);
    lemma_cbor_u8s_append(a, m);
    lemma_cbor_u8s_single(h[i]);
    let head = seq![152u8, 32u8] + cbor_u8s(a);
    let u = cbor_uint(h[i] as nat);
    assert(cbor_hash(h) =~= head + u + cbor_u8s(c));
    let len = cbor_hash(h).len();
    assert(q - pos == head.len());
    assert(b.subrange(q, q + u.len()) =~= b.subrange(pos, pos + len).subrange(head.len() as int, (head.len() + u.len()) as int));
    assert((head + u + cbor_u8s(c)).subrange(head.len() as int, (head.len() + u.len()) as int) =~= u);
}

/// Read the encoding of a 32-byte hash at `pos`.
fn read_hash(b: &[u8], pos: usize) -> (r: Option<([u8; 32], usize)>)
    requires
        pos <= b@.len(),
    ensures
        r matches Some((h, p)) ==> p == pos + cbor_hash(h@).len() && hash_prefix_at(b@, pos as int, h@),
        forall|h: Seq<u8>| #[trigger] hash_prefix_at(b@, pos as int, h) ==> (r matches Some((g, p)) && g@ == h),
{
    let head = [152u8, 32u8];
    let q0 = match expect_lit(b, pos, &head) {
        Some(q) => q,
        None => {
            proof {
                assert forall|h: Seq<u8>| #[trigger] hash_prefix_at(b@, pos as int, h) implies false by {
                    let len = cbor_hash(h).len();
                    assert(b@.subrange(pos as int, pos + 2) =~= b@.subrange(pos as int, pos + len).subrange(0, 2));
                    assert(cbor_hash(h).subrange(0, 2) =~= head@);
                }
            }
            return None;
        },
    };
    let mut out: [u8; 32] = [0u8; 32];
    let mut q: usize = q0;
    let mut i: usize = 0;
    assert(out@.take(0) =~= Seq::<u8>::empty());
    assert(b@.subrange(pos as int, q as int) =~= seq![152u8, 32u8] + cbor_u8s(out@.take(0)));
    while i < 32
        invariant
            pos <= q <= b@.len(),
            i <= 32,
            out@.len() == 32,
            b@.subrange(pos as int, q as int) == seq![152u8, 32u8] + cbor_u8s(out@.take(i as int)),
            forall|h: Seq<u8>| #[trigger] hash_prefix_at(b@, pos as int, h) ==> out@.take(i as int) == h.take(i as int),
        decreases 32 - i,
    {
        match read_uint(b, q, 255) {
            None => {
                proof {
                    assert forall|h: Seq<u8>| #[trigger] hash_prefix_at(b@, pos as int, h) implies false by {
                        lemma_hash_step(b@, pos as int, q as int, h, i as int);
                    }
                }
                return None;
            },
            Some((v, q2)) => {
                let ghost before = out@;
                out[i] = v as u8;
                proof {
                    assert(out@.take(i as int) =~= before.take(i as int));
                    assert(out@.take(i as int + 1) =~= out@.take(i as int).push(v as u8));
                    lemma_cbor_u8s_push(out@.take(i as int), v as u8);
                    assert(b@.subrange(pos as int, q2 as int) =~= b@.subrange(pos as int, q as int) + b@.subrange(
                        q as int,
                        q2 as int,
                    ));
                    assert forall|h: Seq<u8>| #[trigger] hash_prefix_at(b@, pos as int, h) implies out@.take(i as int + 1) == h.take(i as int + 1) by {
                        lemma_hash_step(b@, pos as int, q as int, h, i as int);
                        lemma_uint_at_unique(
                            b@,
                            q as int,
                            q2 as int,
                            v as nat,
                            q + cbor_uint(h[i as int] as nat).len(),
                            h[i as int] as nat,
                            255,
                        );
                        assert(h.take(i as int + 1) =~= h.take(i as int).push(h[i as int]));
                    }
                }
                q = q2;
                i = i + 1;
            },
        }
    }
    assert(out@.take(32) =~= out@);
    proof {
        assert forall|h: Seq<u8>| #[trigger] hash_prefix_at(b@, pos as int, h) implies out@ == h by {
            assert(h.take(32) =~= h);
        }
    }
    Some((out, q))
}


/// The `k`-th of the eleven pieces of a receipt's encoding.
pub open spec fn receipt_piece(r: TransitionReceipt, k: int) -> Seq<u8> {
    if k == 0 {
        seq![165u8]
    } else if k == 1 {
        cbor_text(key_parent())
    } else if k == 2 {
        cbor_hash(r.parent_state_hash@)
    } else if k == 3 {
        cbor_text(key_event())
    } else if k == 4 {
        cbor_hash(r.event_hash@)
    } else if k == 5 {
        cbor_text(key_child())
    } else if k == 6 {
        cbor_hash(r.child_state_hash@)
    } else if k == 7 {
        cbor_text(key_version())
    } else if k == 8 {
        cbor_uint(r.kernel_version as nat)
    } else if k == 9 {
        cbor_text(key_kind())
    } else {
        cbor_text(kind_name(r.kind))
    }
}

/// The pieces of a receipt's encoding from the `k`-th on.
pub open spec fn receipt_suffix(r: TransitionReceipt, k: int) -> Seq<u8>
    decreases 11 - k,
{
    if k >= 11 || k < 0 {
        Seq::empty()
    } else {
        receipt_piece(r, k) + receipt_suffix(r, k + 1)
    }
}

proof fn lemma_receipt_suffix(r: TransitionReceipt)
    ensures
        encode_receipt(r) == receipt_suffix(r, 0),
{
    reveal_with_fuel(receipt_suffix, 12);
    assert(encode_receipt(r) =~= receipt_suffix(r, 0));
}

proof fn lemma_join(b: Seq<u8>, p: int, q: int, piece: Seq<u8>, rest: Seq<u8>)
    requires
        0 <= p <= q <= b.len(),
        b.subrange(p, q) == piece,
        b.subrange(q, b.len() as int) == rest,
    ensures
        b.subrange(p, b.len() as int) == piece + rest,
{
    assert(b.subrange(p, b.len() as int) =~= b.subrange(p, q) + b.subrange(q, b.len() as int));
}

fn kind_created_exec() -> (k: [u8; 12])
    ensures
        k@ == kind_name(TransitionKind::ClaimCreated),
{
    let k = [67u8, 108, 97, 105, 109, 67, 114, 101, 97, 116, 101, 100];
    assert(k@ =~= kind_name(TransitionKind::ClaimCreated));
    k
}

fn kind_verified_exec() -> (k: [u8; 13])
    ensures
        k@ == kind_name(TransitionKind::ClaimVerified),
{
    let k = [67u8, 108, 97, 105, 109, 86, 101, 114, 105, 102, 105, 101, 100];
    assert(k@ =~= kind_name(TransitionKind::ClaimVerified));
    k
}

fn malformed() -> (e: TransitionError)
    ensures
        e matches TransitionError::Serialization(m) && m@ == "malformed canonical CBOR receipt"@,
{
    TransitionError::Serialization(String::from_str("malformed canonical CBOR receipt"))
}

/// Decode a receipt from its canonical CBOR bytes. Exactly the encodings
/// of receipts are accepted, each giving back the receipt it encodes;
/// anything else (truncated, altered, reordered or trailing bytes) is a
/// serialization error.
#[verifier::rlimit(30)]
pub fn from_cbor(bytes: &[u8]) -> (r: Result<TransitionReceipt, TransitionError>)
    ensures
        r matches Ok(x) ==> bytes@ == encode_receipt(x),
        r is Ok <==> exists|x: TransitionReceipt| bytes@ == #[trigger] encode_receipt(x),
        forall|x: TransitionReceipt| bytes@ == #[trigger] encode_receipt(x) ==> (r matches Ok(y) && y == x),
        r matches Err(e) ==> e is Serialization,
{
    let ghost good = exists|x: TransitionReceipt| bytes@ == #[trigger] encode_receipt(x);
    let ghost x = choose|x: TransitionReceipt| bytes@ == #[trigger] encode_receipt(x);
    let ghost n = bytes@.len() as int;
    proof {
        if good {
            lemma_receipt_suffix(x);
            assert(bytes@.subrange(0, n) =~= bytes@);
        }
    }
    // map header
    let hdr = [165u8];
    assert(hdr@ =~= receipt_piece(x, 0));
    let p1 = match expect_lit(bytes, 0, &hdr) {
        Some(p) => p,
        None => {
            proof {
                if good {
                    lemma_starts(bytes@, 0, receipt_piece(x, 0), receipt_suffix(x, 1));
                }
            }
            return Err(malformed());
        },
    };
    proof {
        if good {
            lemma_starts(bytes@, 0, receipt_piece(x, 0), receipt_suffix(x, 1));
        }
    }
    // parent_state_hash
    let kp = key_parent_exec();
    let p2 = match expect_text(bytes, p1, &kp) {
        Some(p) => p,
        None => {
            proof {
                if good {
                    lemma_starts(bytes@, p1 as int, receipt_piece(x, 1), receipt_suffix(x, 2));
                }
            }
            return Err(malformed());
        },
    };
    proof {
        if good {
            lemma_starts(bytes@, p1 as int, receipt_piece(x, 1), receipt_suffix(x, 2));
        }
    }
    let (parent, p3) = match read_hash(bytes, p2) {
        Some(hp) => hp,
        None => {
            proof {
                if good {
                    lemma_starts(bytes@, p2 as int, receipt_piece(x, 2), receipt_suffix(x, 3));
                    assert(hash_prefix_at(bytes@, p2 as int, x.parent_state_hash@));
                }
            }
            return Err(malformed());
        },
    };
    proof {
        if good {
            lemma_starts(bytes@, p2 as int, receipt_piece(x, 2), receipt_suffix(x, 3));
            assert(hash_prefix_at(bytes@, p2 as int, x.parent_state_hash@));
        }
    }
    // event_hash
    let ke = key_event_exec();
    let p4 = match expect_text(bytes, p3, &ke) {
        Some(p) => p,
        None => {
            proof {
                if good {
                    lemma_starts(bytes@, p3 as int, receipt_piece(x, 3), receipt_suffix(x, 4));
                }
            }
            return Err(malformed());
        },
    };
    proof {
        if good {
            lemma_starts(bytes@, p3 as int, receipt_piece(x, 3), receipt_suffix(x, 4));
        }
    }
    let (event, p5) = match read_hash(bytes, p4) {
        Some(hp) => hp,
        None => {
            proof {
                if good {
                    lemma_starts(bytes@, p4 as int, receipt_piece(x, 4), receipt_suffix(x, 5));
                    assert(hash_prefix_at(bytes@, p4 as int, x.event_hash@));
                }
            }
            return Err(malformed());
        },
    };
    proof {
        if good {
            lemma_starts(bytes@, p4 as int, receipt_piece(x, 4), receipt_suffix(x, 5));
            assert(hash_prefix_at(bytes@, p4 as int, x.event_hash@));
        }
    }
    // child_state_hash
    let kc = key_child_exec();
    let p6 = match expect_text(bytes, p5, &kc) {
        Some(p) => p,
        None => {
            proof {
                if good {
                    lemma_starts(bytes@, p5 as int, receipt_piece(x, 5), receipt_suffix(x, 6));
                }
            }
            return Err(malformed());
        },
    };
    proof {
        if good {
            lemma_starts(bytes@, p5 as int, receipt_piece(x, 5), receipt_suffix(x, 6));
        }
    }
    let (child, p7) = match read_hash(bytes, p6) {
        Some(hp) => hp,
        None => {
            proof {
                if good {
                    lemma_starts(bytes@, p6 as int, receipt_piece(x, 6), receipt_suffix(x, 7));
                    assert(hash_prefix_at(bytes@, p6 as int, x.child_state_hash@));
                }
            }
            return Err(malformed());
        },
    };
    proof {
        if good {
            lemma_starts(bytes@, p6 as int, receipt_piece(x, 6), receipt_suffix(x, 7));
            assert(hash_prefix_at(bytes@, p6 as int, x.child_state_hash@));
        }
    }
    // kernel_version
    let kv = key_version_exec();
    let p8 = match expect_text(bytes, p7, &kv) {
        Some(p) => p,
        None => {
            proof {
                if good {
                    lemma_starts(bytes@, p7 as int, receipt_piece(x, 7), receipt_suffix(x, 8));
                }
            }
            return Err(malformed());
        },
    };
    proof {
        if good {
            lemma_starts(bytes@, p7 as int, receipt_piece(x, 7), receipt_suffix(x, 8));
        }
    }
    let (version, p9) = match read_uint(bytes, p8, 65535) {
        Some(vp) => vp,
        None => {
            proof {
                if good {
                    lemma_starts(bytes@, p8 as int, receipt_piece(x, 8), receipt_suffix(x, 9));
                    assert(uint_at(
                        bytes@,
                        p8 as int,
                        p8 + receipt_piece(x, 8).len(),
                        x.kernel_version as nat,
                        65535,
                    ));
                }
            }
            return Err(malformed());
        },
    };
    proof {
        if good {
            lemma_starts(bytes@, p8 as int, receipt_piece(x, 8), receipt_suffix(x, 9));
            assert(uint_at(bytes@, p8 as int, p8 + receipt_piece(x, 8).len(), x.kernel_version as nat, 65535));
            lemma_uint_at_unique(
                bytes@,
                p8 as int,
                p9 as int,
                version as nat,
                p8 + receipt_piece(x, 8).len(),
                x.kernel_version as nat,
                65535,
            );
        }
    }
    // kind
    let kk = key_kind_exec();
    let p10 = match expect_text(bytes, p9, &kk) {
        Some(p) => p,
        None => {
            proof {
                if good {
                    lemma_starts(bytes@, p9 as int, receipt_piece(x, 9), receipt_suffix(x, 10));
                }
            }
            return Err(malformed());
        },
    };
    proof {
        if good {
            lemma_starts(bytes@, p9 as int, receipt_piece(x, 9), receipt_suffix(x, 10));
            lemma_starts(bytes@, p10 as int, receipt_piece(x, 10), receipt_suffix(x, 11));
        }
    }
    let created = kind_created_exec();
    let verified = kind_verified_exec();
    let (kind, p11) = match expect_text(bytes, p10, &created) {
        Some(p) => (TransitionKind::ClaimCreated, p),
        None => match expect_text(bytes, p10, &verified) {
            Some(p) => (TransitionKind::ClaimVerified, p),
            None => {
                return Err(malformed());
            },
        },
    };
    proof {
        if good {
            assert(receipt_suffix(x, 11) =~= Seq::<u8>::empty());
            let w = receipt_piece(x, 10);
            assert(bytes@.subrange(p10 as int, p10 + w.len())[0] == bytes@[p10 as int]);
            assert(bytes@.subrange(p10 as int, p11 as int)[0] == bytes@[p10 as int]);
            assert(x.kind == kind);
        }
    }
    if p11 != bytes.len() {
        return Err(malformed());
    }
    let y = TransitionReceipt {
        parent_state_hash: parent,
        event_hash: event,
        child_state_hash: child,
        kernel_version: version,
        kind,
    };
    proof {
        let b = bytes@;
        assert(receipt_suffix(y, 11) =~= Seq::<u8>::empty());
        assert(b.subrange(n, n) =~= Seq::<u8>::empty());
        lemma_join(b, p10 as int, p11 as int, receipt_piece(y, 10), receipt_suffix(y, 11));
        lemma_join(b, p9 as int, p10 as int, receipt_piece(y, 9), receipt_suffix(y, 10));
        lemma_join(b, p8 as int, p9 as int, receipt_piece(y, 8), receipt_suffix(y, 9));
        lemma_join(b, p7 as int, p8 as int, receipt_piece(y, 7), receipt_suffix(y, 8));
        lemma_join(b, p6 as int, p7 as int, receipt_piece(y, 6), receipt_suffix(y, 7));
        lemma_join(b, p5 as int, p6 as int, receipt_piece(y, 5), receipt_suffix(y, 6));
        lemma_join(b, p4 as int, p5 as int, receipt_piece(y, 4), receipt_suffix(y, 5));
        lemma_join(b, p3 as int, p4 as int, receipt_piece(y, 3), receipt_suffix(y, 4));
        lemma_join(b, p2 as int, p3 as int, receipt_piece(y, 2), receipt_suffix(y, 3));
        lemma_join(b, p1 as int, p2 as int, receipt_piece(y, 1), receipt_suffix(y, 2));
        lemma_join(b, 0, p1 as int, receipt_piece(y, 0), receipt_suffix(y, 1));
        lemma_receipt_suffix(y);
        assert(b.subrange(0, n) =~= b);
        assert forall|z: TransitionReceipt| bytes@ == #[trigger] encode_receipt(z) implies y == z by {
            lemma_encode_receipt_injective(y, z);
        }
    }
    Ok(y)
}


proof fn lemma_hash_prefix(b: Seq<u8>, pos: int, h: Seq<u8>, i: int)
    requires
        hash_prefix_at(b, pos, h),
        0 <= i <= 32,
    ensures
        pos + 2 + cbor_u8s(h.take(i)).len() <= b.len(),
        b.subrange(pos, pos + 2 + cbor_u8s(h.take(i)).len()) == seq![152u8, 32u8] + cbor_u8s(h.take(i)),
{
    let head = seq![152u8, 32u8] + cbor_u8s(h.take(i));
    assert(h =~= h.take(i) + h.skip(i));
    lemma_cbor_u8s_append(h.take(i), h.skip(i));
    assert(cbor_hash(h) =~= head + cbor_u8s(h.skip(i)));
    let len = cbor_hash(h).len();
    assert(b.subrange(pos, pos + head.len()) =~= b.subrange(pos, pos + len).subrange(0, head.len() as int));
    assert((head + cbor_u8s(h.skip(i))).subrange(0, head.len() as int) =~= head);
}

proof fn lemma_hash_unique_upto(b: Seq<u8>, pos: int, h1: Seq<u8>, h2: Seq<u8>, i: int)
    requires
        hash_prefix_at(b, pos, h1),
        hash_prefix_at(b, pos, h2),
        0 <= i <= 32,
    ensures
        h1.take(i) == h2.take(i),
    decreases i,
{
    if i == 0 {
        assert(h1.take(0) =~= h2.take(0));
    } else {
        lemma_hash_unique_upto(b, pos, h1, h2, i - 1);
        lemma_hash_prefix(b, pos, h1, i - 1);
        let q = pos + 2 + cbor_u8s(h1.take(i - 1)).len();
        lemma_hash_step(b, pos, q, h1, i - 1);
        lemma_hash_step(b, pos, q, h2, i - 1);
        lemma_uint_at_unique(
            b,
            q,
            q + cbor_uint(h1[i - 1] as nat).len(),
            h1[i - 1] as nat,
            q + cbor_uint(h2[i - 1] as nat).len(),
            h2[i - 1] as nat,
            255,
        );
        assert(h1.take(i) =~= h1.take(i - 1).push(h1[i - 1]));
        assert(h2.take(i) =~= h2.take(i - 1).push(h2[i - 1]));
    }
}

/// Two hashes encoded at one place are the same hash.
proof fn lemma_hash_unique(b: Seq<u8>, pos: int, h1: Seq<u8>, h2: Seq<u8>)
    requires
        hash_prefix_at(b, pos, h1),
        hash_prefix_at(b, pos, h2),
    ensures
        h1 == h2,
{
    lemma_hash_unique_upto(b, pos, h1, h2, 32);
    assert(h1.take(32) =~= h1);
    assert(h2.take(32) =~= h2);
}

/// Where `e` from `p` on is the encoding of `a` from its `k`-th piece, and
/// begins with the encoding of `c` from its `k`-th piece, the two agree on
/// the `k`-th piece, provided they agree on those before it.
proof fn lemma_same_piece(e: Seq<u8>, p: int, a: TransitionReceipt, c: TransitionReceipt, k: int)
    requires
        0 <= k < 11,
        0 <= p <= e.len(),
        e.subrange(p, e.len() as int) == receipt_suffix(a, k),
        p + receipt_suffix(c, k).len() <= e.len(),
        e.subrange(p, p + receipt_suffix(c, k).len()) == receipt_suffix(c, k),
    ensures
        receipt_piece(a, k) == receipt_piece(c, k),
        p + receipt_piece(a, k).len() <= e.len(),
        e.subrange(p + receipt_piece(a, k).len(), e.len() as int) == receipt_suffix(a, k + 1),
        p + receipt_piece(a, k).len() + receipt_suffix(c, k + 1).len() <= e.len(),
        e.subrange(
            p + receipt_piece(a, k).len(),
            p + receipt_piece(a, k).len() + receipt_suffix(c, k + 1).len(),
        ) == receipt_suffix(c, k + 1),
        k == 2 ==> a.parent_state_hash@ == c.parent_state_hash@,
        k == 4 ==> a.event_hash@ == c.event_hash@,
        k == 6 ==> a.child_state_hash@ == c.child_state_hash@,
        k == 8 ==> a.kernel_version == c.kernel_version,
        k == 10 ==> a.kind == c.kind,
{
    let lc = receipt_suffix(c, k).len();
    let pc = receipt_piece(c, k);
    let t = e.subrange(0, p + lc);
    assert(t.subrange(p, t.len() as int) =~= e.subrange(p, p + lc));
    lemma_starts(e, p, receipt_piece(a, k), receipt_suffix(a, k + 1));
    lemma_starts(t, p, pc, receipt_suffix(c, k + 1));
    assert(e.subrange(p, p + pc.len()) =~= t.subrange(p, p + pc.len()));
    assert(e.subrange(p + pc.len(), p + lc) =~= t.subrange(p + pc.len(), t.len() as int));
    if k == 2 {
        lemma_hash_unique(e, p, a.parent_state_hash@, c.parent_state_hash@);
    } else if k == 4 {
        lemma_hash_unique(e, p, a.event_hash@, c.event_hash@);
    } else if k == 6 {
        lemma_hash_unique(e, p, a.child_state_hash@, c.child_state_hash@);
    } else if k == 8 {
        lemma_uint_at_unique(
            e,
            p,
            p + receipt_piece(a, k).len(),
            a.kernel_version as nat,
            p + pc.len(),
            c.kernel_version as nat,
            65535,
        );
    } else if k == 10 {
        assert(e.subrange(p, p + receipt_piece(a, k).len())[0] == e[p]);
        assert(e.subrange(p, p + pc.len())[0] == e[p]);
    }
}

proof fn lemma_same_from(e: Seq<u8>, p: int, a: TransitionReceipt, c: TransitionReceipt, k: int)
    requires
        0 <= k <= 11,
        0 <= p <= e.len(),
        e.subrange(p, e.len() as int) == receipt_suffix(a, k),
        p + receipt_suffix(c, k).len() <= e.len(),
        e.subrange(p, p + receipt_suffix(c, k).len()) == receipt_suffix(c, k),
    ensures
        k <= 2 ==> a.parent_state_hash@ == c.parent_state_hash@,
        k <= 4 ==> a.event_hash@ == c.event_hash@,
        k <= 6 ==> a.child_state_hash@ == c.child_state_hash@,
        k <= 8 ==> a.kernel_version == c.kernel_version,
        k <= 10 ==> a.kind == c.kind,
    decreases 11 - k,
{
    if k < 11 {
        lemma_same_piece(e, p, a, c, k);
        lemma_same_from(e, p + receipt_piece(a, k).len(), a, c, k + 1);
    }
}

/// The encodings are prefix-free: when the encoding of `c` is a prefix of
/// the encoding of `a`, the two receipts are the same.
pub proof fn lemma_encoding_prefix_free(a: TransitionReceipt, c: TransitionReceipt)
    requires
        encode_receipt(c).len() <= encode_receipt(a).len(),
        encode_receipt(a).subrange(0, encode_receipt(c).len() as int) == encode_receipt(c),
    ensures
        a == c,
{
    let e = encode_receipt(a);
    lemma_receipt_suffix(a);
    lemma_receipt_suffix(c);
    assert(e.subrange(0, e.len() as int) =~= e);
    lemma_same_from(e, 0, a, c, 0);
    assert(a.parent_state_hash =~= c.parent_state_hash);
    assert(a.event_hash =~= c.event_hash);
    assert(a.child_state_hash =~= c.child_state_hash);
}

/// A cut encoding is no encoding: no proper prefix of the encoding of a
/// receipt is the encoding of any receipt, so `from_cbor` refuses every
/// truncation of canonical bytes with a serialization error.
pub proof fn lemma_truncation_rejected(a: TransitionReceipt, k: int)
    requires
        0 <= k < encode_receipt(a).len(),
    ensures
        forall|c: TransitionReceipt| #[trigger] encode_receipt(c) != encode_receipt(a).subrange(0, k),
{
    assert forall|c: TransitionReceipt| #[trigger] encode_receipt(c) != encode_receipt(a).subrange(0, k) by {
        if encode_receipt(c) == encode_receipt(a).subrange(0, k) {
            lemma_encoding_prefix_free(a, c);
        }
    }
}

/// Different receipts have different encodings: the canonical bytes
/// determine the receipt.
pub proof fn lemma_encode_receipt_injective(a: TransitionReceipt, c: TransitionReceipt)
    requires
        encode_receipt(a) == encode_receipt(c),
    ensures
        a == c,
{
    assert(encode_receipt(a).subrange(0, encode_receipt(c).len() as int) =~= encode_receipt(c));
    lemma_encoding_prefix_free(a, c);
}

} // verus!
