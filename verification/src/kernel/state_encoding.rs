//! The canonical CBOR form of the kernel state, the bytes its hash is taken
//! over: a map of `version` and `claims`; the claims a map from identifier
//! to claim in increasing byte order of the identifiers; each claim a map
//! of `content_hash`, `status`, `verified_by` and `score`, absent values
//! written as null; every integer and length in its shortest head.
use vstd::prelude::*;
use vstd::utf8::encode_utf8;
use crate::kernel::serialization::{cbor_hash, push_bytes, push_hash};
use crate::kernel::state::{
    ClaimEntry, ClaimState, ClaimStatus, ClaimView, State, claims_map, unique_ids, lemma_claims_map_at,
    lemma_claims_map_absent,
};

verus! {

/// The shortest CBOR head of major type `major` with argument `v`.
pub open spec fn cbor_head(major: u8, v: nat) -> Seq<u8> {
    let m = major * 32;
    if v <= 23 {
        seq![(m + v) as u8]
    } else if v <= 0xff {
        seq![(m + 24) as u8, v as u8]
    } else if v <= 0xffff {
        seq![(m + 25) as u8, (v / 0x100) as u8, (v % 0x100) as u8]
    } else if v <= 0xffff_ffff {
        seq![
            (m + 26) as u8,
            (v / 0x100_0000) as u8,
            (v / 0x1_0000 % 0x100) as u8,
            (v / 0x100 % 0x100) as u8,
            (v % 0x100) as u8,
        ]
    } else {
        seq![
            (m + 27) as u8,
            (v / 0x100_0000_0000_0000 % 0x100) as u8,
            (v / 0x1_0000_0000_0000 % 0x100) as u8,
            (v / 0x100_0000_0000 % 0x100) as u8,
            (v / 0x1_0000_0000 % 0x100) as u8,
            (v / 0x100_0000 % 0x100) as u8,
            (v / 0x1_0000 % 0x100) as u8,
            (v / 0x100 % 0x100) as u8,
            (v % 0x100) as u8,
        ]
    }
}

/// A CBOR text string holding the bytes `b`.
pub open spec fn cbor_bytes_text(b: Seq<u8>) -> Seq<u8> {
    cbor_head(3, b.len()) + b
}

/// A CBOR text string holding the UTF-8 form of `s`.
pub open spec fn cbor_str(s: Seq<char>) -> Seq<u8> {
    cbor_bytes_text(encode_utf8(s))
}

/// The CBOR null.
pub open spec fn cbor_null() -> Seq<u8> {
    seq![0xf6u8]
}

pub open spec fn key_content_hash() -> Seq<u8> {
    seq![99u8, 111, 110, 116, 101, 110, 116, 95, 104, 97, 115, 104]
}

pub open spec fn key_status() -> Seq<u8> {
    seq![115u8, 116, 97, 116, 117, 115]
}

pub open spec fn key_verified_by() -> Seq<u8> {
    seq![118u8, 101, 114, 105, 102, 105, 101, 100, 95, 98, 121]
}

pub open spec fn key_score() -> Seq<u8> {
    seq![115u8, 99, 111, 114, 101]
}

pub open spec fn key_state_version() -> Seq<u8> {
    seq![118u8, 101, 114, 115, 105, 111, 110]
}

pub open spec fn key_claims() -> Seq<u8> {
    seq![99u8, 108, 97, 105, 109, 115]
}

/// The name of a status: `Created` or `Verified`.
pub open spec fn status_name(s: ClaimStatus) -> Seq<u8> {
    match s {
        ClaimStatus::Created => seq![67u8, 114, 101, 97, 116, 101, 100],
        ClaimStatus::Verified => seq![86u8, 101, 114, 105, 102, 105, 101, 100],
    }
}

/// The encoding of one claim.
pub open spec fn cbor_claim(c: ClaimView) -> Seq<u8> {
    cbor_head(5, 4) + cbor_bytes_text(key_content_hash()) + cbor_hash(c.content_hash)
        + cbor_bytes_text(key_status()) + cbor_bytes_text(status_name(c.status))
        + cbor_bytes_text(key_verified_by()) + match c.verified_by {
        Some(v) => cbor_str(v),
        None => cbor_null(),
    } + cbor_bytes_text(key_score()) + match c.score {
        Some(x) => cbor_head(0, x as nat),
        None => cbor_null(),
    }
}

/// Byte strings in lexicographic order: `a` comes strictly before `b`.
pub open spec fn bytes_lt(a: Seq<u8>, b: Seq<u8>) -> bool
    decreases a.len(),
{
    if a.len() == 0 {
        b.len() > 0
    } else if b.len() == 0 {
        false
    } else if a[0] != b[0] {
        a[0] < b[0]
    } else {
        bytes_lt(a.drop_first(), b.drop_first())
    }
}

/// The UTF-8 bytes of an entry's identifier, by which entries are ordered.
pub open spec fn key_bytes(e: ClaimEntry) -> Seq<u8> {
    encode_utf8(e.claim_id@)
}

/// The position in `idx` of the entry of `es` with the least identifier
/// (the first such).
pub open spec fn least_pos(es: Seq<ClaimEntry>, idx: Seq<usize>) -> int
    decreases idx.len(),
{
    if idx.len() <= 1 {
        0
    } else {
        let j = least_pos(es, idx.drop_last());
        if bytes_lt(key_bytes(es[idx.last() as int]), key_bytes(es[idx[j] as int])) {
            idx.len() - 1
        } else {
            j
        }
    }
}

/// The least position is a position of `idx`.
pub proof fn lemma_least_pos_range(es: Seq<ClaimEntry>, idx: Seq<usize>)
    requires
        idx.len() > 0,
    ensures
        0 <= least_pos(es, idx) < idx.len(),
    decreases idx.len(),
{
    if idx.len() > 1 {
        lemma_least_pos_range(es, idx.drop_last());
    }
}

/// The entries of `es` at the indices `idx`, each as identifier and claim,
/// in increasing order of identifier.
pub open spec fn cbor_entries(es: Seq<ClaimEntry>, idx: Seq<usize>) -> Seq<u8>
    decreases idx.len(),
{
    if idx.len() == 0 {
        Seq::empty()
    } else {
        let p = least_pos(es, idx);
        proof {
            lemma_least_pos_range(es, idx);
        }
        let e = es[idx[p] as int];
        cbor_str(e.claim_id@) + cbor_claim(e.claim@) + cbor_entries(es, idx.remove(p))
    }
}

/// The canonical encoding of a state.
pub open spec fn cbor_state(s: State) -> Seq<u8> {
    cbor_head(5, 2) + cbor_bytes_text(key_state_version()) + cbor_head(0, s.version as nat)
        + cbor_bytes_text(key_claims()) + cbor_head(5, s.claims@.len()) + cbor_entries(
        s.claims@,
        all_positions(s.claims@.len()),
    )
}

proof fn lemma_bytes_lt_irrefl(a: Seq<u8>)
    ensures
        !bytes_lt(a, a),
    decreases a.len(),
{
    if a.len() > 0 {
        lemma_bytes_lt_irrefl(a.drop_first());
    }
}

proof fn lemma_bytes_lt_trans(a: Seq<u8>, b: Seq<u8>, c: Seq<u8>)
    requires
        bytes_lt(a, b),
        bytes_lt(b, c),
    ensures
        bytes_lt(a, c),
    decreases a.len(),
{
    if a.len() > 0 && b.len() > 0 && c.len() > 0 && a[0] == b[0] && b[0] == c[0] {
        lemma_bytes_lt_trans(a.drop_first(), b.drop_first(), c.drop_first());
    }
}

proof fn lemma_bytes_lt_total(a: Seq<u8>, b: Seq<u8>)
    requires
        a != b,
    ensures
        bytes_lt(a, b) || bytes_lt(b, a),
    decreases a.len(),
{
    if a.len() == 0 && b.len() == 0 {
        assert(a =~= b);
    }
    if a.len() > 0 && b.len() > 0 && a[0] == b[0] {
        if a.drop_first() == b.drop_first() {
            assert(a =~= seq![a[0]] + a.drop_first());
            assert(b =~= seq![b[0]] + b.drop_first());
        }
        lemma_bytes_lt_total(a.drop_first(), b.drop_first());
    }
}

/// The identifier bytes of the entry at position `j` of `idx`.
pub open spec fn key_at(es: Seq<ClaimEntry>, idx: Seq<usize>, j: int) -> Seq<u8> {
    key_bytes(es[idx[j] as int])
}

/// No least position has an identifier below it.
proof fn lemma_least_pos_min(es: Seq<ClaimEntry>, idx: Seq<usize>)
    requires
        idx.len() > 0,
    ensures
        forall|j: int| 0 <= j < idx.len() ==> !bytes_lt(#[trigger] key_at(es, idx, j), key_at(es, idx, least_pos(es, idx))),
    decreases idx.len(),
{
    lemma_least_pos_range(es, idx);
    let p = least_pos(es, idx);
    if idx.len() == 1 {
        lemma_bytes_lt_irrefl(key_at(es, idx, 0));
    } else {
        let t = idx.drop_last();
        lemma_least_pos_min(es, t);
        lemma_least_pos_range(es, t);
        let q = least_pos(es, t);
        let last = idx.len() - 1;
        assert forall|j: int| 0 <= j < idx.len() implies !bytes_lt(#[trigger] key_at(es, idx, j), key_at(es, idx, p)) by {
            if j < last {
                assert(key_at(es, idx, j) == key_at(es, t, j));
                assert(key_at(es, idx, q) == key_at(es, t, q));
                if p == last {
                    if bytes_lt(key_at(es, idx, j), key_at(es, idx, last)) {
                        lemma_bytes_lt_trans(key_at(es, idx, j), key_at(es, idx, last), key_at(es, idx, q));
                    }
                }
            } else if p == last {
                lemma_bytes_lt_irrefl(key_at(es, idx, last));
            }
        }
    }
}

/// The entries at `idx1` of `es1` each have an entry at `idx2` of `es2`
/// with the same identifier bytes and the same claim.
pub open spec fn covered(es1: Seq<ClaimEntry>, idx1: Seq<usize>, es2: Seq<ClaimEntry>, idx2: Seq<usize>) -> bool {
    forall|j: int| 0 <= j < idx1.len() ==> #[trigger] has_match(es1, idx1, j, es2, idx2)
}

/// The entry at position `j` of `idx1` has an entry at `idx2` with the
/// same identifier bytes and the same claim.
pub open spec fn has_match(es1: Seq<ClaimEntry>, idx1: Seq<usize>, j: int, es2: Seq<ClaimEntry>, idx2: Seq<usize>) -> bool {
    exists|k: int| 0 <= k < idx2.len() && #[trigger] key_at(es2, idx2, k) == key_at(es1, idx1, j)
        && es2[idx2[k] as int].claim@ == es1[idx1[j] as int].claim@
}

/// No two positions of `idx` carry the same identifier bytes.
pub open spec fn distinct_keys(es: Seq<ClaimEntry>, idx: Seq<usize>) -> bool {
    forall|i: int, j: int| 0 <= i < idx.len() && 0 <= j < idx.len() && i != j ==> #[trigger] key_at(es, idx, i) != #[trigger] key_at(es, idx, j)
}

proof fn lemma_remove_keeps(es1: Seq<ClaimEntry>, idx1: Seq<usize>, es2: Seq<ClaimEntry>, idx2: Seq<usize>, p1: int, p2: int)
    requires
        0 <= p1 < idx1.len(),
        0 <= p2 < idx2.len(),
        key_at(es1, idx1, p1) == key_at(es2, idx2, p2),
        distinct_keys(es1, idx1),
        distinct_keys(es2, idx2),
        covered(es1, idx1, es2, idx2),
    ensures
        covered(es1, idx1.remove(p1), es2, idx2.remove(p2)),
        distinct_keys(es1, idx1.remove(p1)),
{
    let r1 = idx1.remove(p1);
    let r2 = idx2.remove(p2);
    assert forall|j: int| 0 <= j < r1.len() implies #[trigger] has_match(es1, r1, j, es2, r2) by {
        let jj = if j < p1 { j } else { j + 1 };
        assert(r1[j] == idx1[jj]);
        assert(key_at(es1, r1, j) == key_at(es1, idx1, jj));
        assert(has_match(es1, idx1, jj, es2, idx2));
        let k = choose|k: int| 0 <= k < idx2.len() && #[trigger] key_at(es2, idx2, k) == key_at(es1, idx1, jj)
            && es2[idx2[k] as int].claim@ == es1[idx1[jj] as int].claim@;
        assert(key_at(es1, idx1, jj) != key_at(es1, idx1, p1));
        assert(k != p2);
        let kk = if k < p2 { k } else { k - 1 };
        assert(r2[kk] == idx2[k]);
        assert(key_at(es2, r2, kk) == key_at(es2, idx2, k));
        assert(0 <= kk < r2.len() && key_at(es2, r2, kk) == key_at(es1, r1, j) && es2[r2[kk] as int].claim@
            == es1[r1[j] as int].claim@);
    }
    assert(covered(es1, r1, es2, r2));
    assert forall|i: int, j: int| 0 <= i < r1.len() && 0 <= j < r1.len() && i != j implies #[trigger] key_at(es1, r1, i) != #[trigger] key_at(es1, r1, j) by {
        let ii = if i < p1 { i } else { i + 1 };
        let jj = if j < p1 { j } else { j + 1 };
        assert(key_at(es1, r1, i) == key_at(es1, idx1, ii));
        assert(key_at(es1, r1, j) == key_at(es1, idx1, jj));
    }
}

/// The encoding depends only on the identifiers and claims selected, not
/// on where they sit: index lists that select the same identifier bytes
/// with the same claims, each without repetition, encode alike.
proof fn lemma_cbor_entries_canonical(es1: Seq<ClaimEntry>, idx1: Seq<usize>, es2: Seq<ClaimEntry>, idx2: Seq<usize>)
    requires
        distinct_keys(es1, idx1),
        distinct_keys(es2, idx2),
        covered(es1, idx1, es2, idx2),
        covered(es2, idx2, es1, idx1),
    ensures
        cbor_entries(es1, idx1) == cbor_entries(es2, idx2),
        idx1.len() == idx2.len(),
    decreases idx1.len(),
{
    if idx1.len() == 0 {
        if idx2.len() > 0 {
            assert(has_match(es2, idx2, 0, es1, idx1));
        }
    } else {
        if idx2.len() == 0 {
            assert(has_match(es1, idx1, 0, es2, idx2));
        }
        lemma_least_pos_range(es1, idx1);
        lemma_least_pos_range(es2, idx2);
        lemma_least_pos_min(es1, idx1);
        lemma_least_pos_min(es2, idx2);
        let p1 = least_pos(es1, idx1);
        let p2 = least_pos(es2, idx2);
        assert(has_match(es1, idx1, p1, es2, idx2));
        assert(has_match(es2, idx2, p2, es1, idx1));
        let k = choose|k: int| 0 <= k < idx2.len() && #[trigger] key_at(es2, idx2, k) == key_at(es1, idx1, p1)
            && es2[idx2[k] as int].claim@ == es1[idx1[p1] as int].claim@;
        let j = choose|j: int| 0 <= j < idx1.len() && #[trigger] key_at(es1, idx1, j) == key_at(es2, idx2, p2)
            && es1[idx1[j] as int].claim@ == es2[idx2[p2] as int].claim@;
        assert(!bytes_lt(key_at(es2, idx2, k), key_at(es2, idx2, p2)));
        assert(!bytes_lt(key_at(es1, idx1, j), key_at(es1, idx1, p1)));
        if key_at(es1, idx1, p1) != key_at(es2, idx2, p2) {
            lemma_bytes_lt_total(key_at(es1, idx1, p1), key_at(es2, idx2, p2));
        }
        assert(k == p2);
        lemma_remove_keeps(es1, idx1, es2, idx2, p1, p2);
        lemma_remove_keeps(es2, idx2, es1, idx1, p2, p1);
        lemma_cbor_entries_canonical(es1, idx1.remove(p1), es2, idx2.remove(p2));
    }
}

/// The positions of every entry of `es`, in order.
pub open spec fn all_positions(n: nat) -> Seq<usize> {
    Seq::new(n, |i: int| i as usize)
}

proof fn lemma_state_covered(s1: State, s2: State)
    requires
        s1.wf(),
        s2.wf(),
        s1.claims_view() == s2.claims_view(),
        s1.claims@.len() <= usize::MAX,
        s2.claims@.len() <= usize::MAX,
    ensures
        covered(s1.claims@, all_positions(s1.claims@.len()), s2.claims@, all_positions(s2.claims@.len())),
{
    let (es1, es2) = (s1.claims@, s2.claims@);
    let (i1, i2) = (all_positions(es1.len()), all_positions(es2.len()));
    assert forall|j: int| 0 <= j < i1.len() implies #[trigger] has_match(es1, i1, j, es2, i2) by {
        assert(i1[j] as int == j);
        lemma_claims_map_at(es1, j);
        let id = es1[j].claim_id@;
        if forall|k: int| 0 <= k < es2.len() ==> #[trigger] es2[k].claim_id@ != id {
            lemma_claims_map_absent(es2, id);
        }
        let k = choose|k: int| 0 <= k < es2.len() && #[trigger] es2[k].claim_id@ == id;
        lemma_claims_map_at(es2, k);
        assert(i2[k] as int == k);
        assert(key_at(es2, i2, k) == key_at(es1, i1, j));
        assert(0 <= k < i2.len() && key_at(es2, i2, k) == key_at(es1, i1, j) && es2[i2[k] as int].claim@
            == es1[i1[j] as int].claim@);
    }
    assert(covered(es1, i1, es2, i2));
}

proof fn lemma_state_distinct(s: State)
    requires
        s.wf(),
        s.claims@.len() <= usize::MAX,
    ensures
        distinct_keys(s.claims@, all_positions(s.claims@.len())),
{
    let es = s.claims@;
    let idx = all_positions(es.len());
    assert forall|i: int, j: int| 0 <= i < idx.len() && 0 <= j < idx.len() && i != j implies #[trigger] key_at(es, idx, i) != #[trigger] key_at(es, idx, j) by {
        assert(idx[i] as int == i && idx[j] as int == j);
        vstd::utf8::encode_utf8_decode_utf8(es[i].claim_id@);
        vstd::utf8::encode_utf8_decode_utf8(es[j].claim_id@);
        if i < j {
            assert(es[i].claim_id@ != es[j].claim_id@);
        } else {
            assert(es[j].claim_id@ != es[i].claim_id@);
        }
    }
}

/// The encoding is canonical: two well-formed states with the same version
/// and the same claims (by identifier) encode to the same bytes, whatever
/// the order in which their claims were recorded, and so hash alike.
pub proof fn lemma_cbor_state_canonical(s1: State, s2: State)
    requires
        s1.wf(),
        s2.wf(),
        s1.version == s2.version,
        s1.claims_view() == s2.claims_view(),
        s1.claims@.len() <= usize::MAX,
        s2.claims@.len() <= usize::MAX,
    ensures
        cbor_state(s1) == cbor_state(s2),
{
    lemma_state_covered(s1, s2);
    lemma_state_covered(s2, s1);
    lemma_state_distinct(s1);
    lemma_state_distinct(s2);
    lemma_cbor_entries_canonical(
        s1.claims@,
        all_positions(s1.claims@.len()),
        s2.claims@,
        all_positions(s2.claims@.len()),
    );
}

/// Appends the shortest head of major type `major` with argument `v`.
fn push_head(out: &mut Vec<u8>, major: u8, v: u64)
    requires
        major < 8,
    ensures
        final(out)@ == old(out)@ + cbor_head(major, v as nat),
{
    let m: u8 = major * 32;
    if v <= 23 {
        out.push(m + v as u8);
    } else if v <= 0xff {
        out.push(m + 24);
        out.push(v as u8);
    } else if v <= 0xffff {
        out.push(m + 25);
        out.push((v / 0x100) as u8);
        out.push((v % 0x100) as u8);
    } else if v <= 0xffff_ffff {
        out.push(m + 26);
        out.push((v / 0x100_0000) as u8);
        out.push((v / 0x1_0000 % 0x100) as u8);
        out.push((v / 0x100 % 0x100) as u8);
        out.push((v % 0x100) as u8);
    } else {
        out.push(m + 27);
        out.push((v / 0x100_0000_0000_0000 % 0x100) as u8);
        out.push((v / 0x1_0000_0000_0000 % 0x100) as u8);
        out.push((v / 0x100_0000_0000 % 0x100) as u8);
        out.push((v / 0x1_0000_0000 % 0x100) as u8);
        out.push((v / 0x100_0000 % 0x100) as u8);
        out.push((v / 0x1_0000 % 0x100) as u8);
        out.push((v / 0x100 % 0x100) as u8);
        out.push((v % 0x100) as u8);
    }
    assert(final(out)@ =~= old(out)@ + cbor_head(major, v as nat));
}

/// Appends a text string holding the bytes `b`.
fn push_bytes_text(out: &mut Vec<u8>, b: &[u8])
    ensures
        final(out)@ == old(out)@ + cbor_bytes_text(b@),
{
    push_head(out, 3, b.len() as u64);
    push_bytes(out, b);
    assert(final(out)@ =~= old(out)@ + cbor_bytes_text(b@));
}

/// Appends a text string holding `s`.
fn push_str(out: &mut Vec<u8>, s: &String)
    ensures
        final(out)@ == old(out)@ + cbor_str(s@),
{
    push_bytes_text(out, s.as_str().as_bytes());
}

fn status_name_exec(st: ClaimStatus) -> (k: Vec<u8>)
    ensures
        k@ == status_name(st),
{
    match st {
        ClaimStatus::Created => {
            let k = vec![67u8, 114, 101, 97, 116, 101, 100];
            assert(k@ =~= status_name(st));
            k
        },
        ClaimStatus::Verified => {
            let k = vec![86u8, 101, 114, 105, 102, 105, 101, 100];
            assert(k@ =~= status_name(st));
            k
        },
    }
}

/// Appends the encoding of a claim.
#[verifier::rlimit(30)]
fn push_claim(out: &mut Vec<u8>, c: &ClaimState)
    ensures
        final(out)@ == old(out)@ + cbor_claim(c@),
{
    let ghost start = out@;
    push_head(out, 5, 4);
    let k = [99u8, 111, 110, 116, 101, 110, 116, 95, 104, 97, 115, 104];
    assert(k@ =~= key_content_hash());
    push_bytes_text(out, &k);
    push_hash(out, &c.content_hash);
    let k = [115u8, 116, 97, 116, 117, 115];
    assert(k@ =~= key_status());
    push_bytes_text(out, &k);
    let name = status_name_exec(c.status);
    push_bytes_text(out, name.as_slice());
    let k = [118u8, 101, 114, 105, 102, 105, 101, 100, 95, 98, 121];
    assert(k@ =~= key_verified_by());
    push_bytes_text(out, &k);
    let ghost p1 = cbor_head(5, 4) + cbor_bytes_text(key_content_hash()) + cbor_hash(c@.content_hash)
        + cbor_bytes_text(key_status()) + cbor_bytes_text(status_name(c@.status))
        + cbor_bytes_text(key_verified_by());
    assert(out@ =~= start + p1);
    let ghost mid = out@;
    match &c.verified_by {
        Some(v) => push_str(out, v),
        None => out.push(0xf6),
    }
    let ghost vb = match c@.verified_by {
        Some(v) => cbor_str(v),
        None => cbor_null(),
    };
    assert(out@ =~= mid + vb);
    let ghost mid2 = out@;
    let k = [115u8, 99, 111, 114, 101];
    assert(k@ =~= key_score());
    push_bytes_text(out, &k);
    match c.score {
        Some(x) => push_head(out, 0, x as u64),
        None => out.push(0xf6),
    }
    let ghost sc = match c@.score {
        Some(x) => cbor_head(0, x as nat),
        None => cbor_null(),
    };
    assert(out@ =~= mid2 + (cbor_bytes_text(key_score()) + sc));
    assert(cbor_claim(c@) == p1 + vb + cbor_bytes_text(key_score()) + sc);
    assert(final(out)@ =~= old(out)@ + cbor_claim(c@));
}

/// Whether the bytes `a` come strictly before the bytes `b`.
fn bytes_less(a: &[u8], b: &[u8]) -> (r: bool)
    ensures
        r == bytes_lt(a@, b@),
{
    let mut i: usize = 0;
    proof {
        assert(a@.skip(0) =~= a@ && b@.skip(0) =~= b@);
    }
    while i < a.len() && i < b.len()
        invariant
            i <= a@.len(),
            i <= b@.len(),
            bytes_lt(a@, b@) == bytes_lt(a@.skip(i as int), b@.skip(i as int)),
        decreases a@.len() - i,
    {
        if a[i] != b[i] {
            return a[i] < b[i];
        }
        proof {
            assert(a@.skip(i as int).drop_first() =~= a@.skip(i + 1));
            assert(b@.skip(i as int).drop_first() =~= b@.skip(i + 1));
        }
        i = i + 1;
    }
    i == a.len() && i < b.len()
}

/// The position in `idx` of the entry with the least identifier.
fn least_position(es: &Vec<ClaimEntry>, idx: &Vec<usize>) -> (p: usize)
    requires
        idx@.len() > 0,
        forall|j: int| 0 <= j < idx@.len() ==> #[trigger] idx@[j] < es@.len(),
    ensures
        p == least_pos(es@, idx@),
        p < idx@.len(),
{
    let mut best: usize = 0;
    let mut q: usize = 1;
    proof {
        assert(idx@.take(1).len() == 1);
    }
    while q < idx.len()
        invariant
            1 <= q <= idx@.len(),
            best < q,
            best == least_pos(es@, idx@.take(q as int)),
            forall|j: int| 0 <= j < idx@.len() ==> #[trigger] idx@[j] < es@.len(),
        decreases idx@.len() - q,
    {
        let kq = es[idx[q]].claim_id.as_str().as_bytes();
        let kb = es[idx[best]].claim_id.as_str().as_bytes();
        let less = bytes_less(kq, kb);
        proof {
            let t = idx@.take(q + 1);
            assert(t.drop_last() =~= idx@.take(q as int));
            assert(t.last() == idx@[q as int]);
            assert(idx@.take(q as int)[best as int] == idx@[best as int]);
        }
        if less {
            best = q;
        }
        q = q + 1;
    }
    assert(idx@.take(idx@.len() as int) =~= idx@);
    best
}

/// The canonical CBOR bytes of a state.
pub fn encode_state(s: &State) -> (out: Vec<u8>)
    ensures
        out@ == cbor_state(*s),
{
    let mut out: Vec<u8> = Vec::new();
    push_head(&mut out, 5, 2);
    let k = [118u8, 101, 114, 115, 105, 111, 110];
    assert(k@ =~= key_state_version());
    push_bytes_text(&mut out, &k);
    push_head(&mut out, 0, s.version);
    let k = [99u8, 108, 97, 105, 109, 115];
    assert(k@ =~= key_claims());
    push_bytes_text(&mut out, &k);
    let n = s.claims.len();
    push_head(&mut out, 5, n as u64);
    let mut idx: Vec<usize> = Vec::new();
    let mut i: usize = 0;
    while i < n
        invariant
            i <= n,
            n == s.claims@.len(),
            idx@ =~= Seq::new(i as nat, |j: int| j as usize),
        decreases n - i,
    {
        idx.push(i);
        i = i + 1;
    }
    let ghost es = s.claims@;
    let ghost target = cbor_state(*s);
    proof {
        assert(idx@ =~= Seq::new(es.len(), |j: int| j as usize));
    }
    while idx.len() > 0
        invariant
            es == s.claims@,
            forall|j: int| 0 <= j < idx@.len() ==> #[trigger] idx@[j] < es.len(),
            out@ + cbor_entries(es, idx@) == target,
        decreases idx@.len(),
    {
        let p = least_position(&s.claims, &idx);
        let e = &s.claims[idx[p]];
        let ghost before = out@;
        let ghost old_idx = idx@;
        push_str(&mut out, &e.claim_id);
        push_claim(&mut out, &e.claim);
        idx.remove(p);
        proof {
            assert forall|j: int| 0 <= j < idx@.len() implies #[trigger] idx@[j] < es.len() by {
                if j < p {
                    assert(idx@[j] == old_idx[j]);
                } else {
                    assert(idx@[j] == old_idx[j + 1]);
                }
            }
            let enc = cbor_str(e.claim_id@) + cbor_claim(e.claim@);
            assert(cbor_entries(es, old_idx) == enc + cbor_entries(es, idx@));
            assert(out@ =~= before + enc);
            assert(out@ + cbor_entries(es, idx@) =~= before + cbor_entries(es, old_idx));
        }
    }
    assert(out@ + Seq::<u8>::empty() =~= out@);
    out
}

} // verus!
