use vstd::prelude::*;

verus! {

use crate::{ByteOrd, InvalidByteError, CHAR_MAX, ORD_EMPTY};
use vstd::set_lib::set_int_range;

broadcast use vstd::set::group_set_axioms;

/// A byte value the alphabet may contain.
pub open spec fn byte_valid(b: u8) -> bool {
    (b as int) < CHAR_MAX as int
}

/// Every byte of the pattern is below the alphabet bound.
pub open spec fn pat_valid(p: Seq<u8>) -> bool {
    forall|j: int| 0 <= j < p.len() ==> byte_valid(#[trigger] p[j])
}

/// Every byte of every pattern is below the alphabet bound.
pub open spec fn pats_valid(ps: Seq<Seq<u8>>) -> bool {
    forall|i: int| 0 <= i < ps.len() ==> pat_valid(#[trigger] ps[i])
}

/// The byte sequences of a list of byte vectors.
pub open spec fn pats_of(ws: Seq<Vec<u8>>) -> Seq<Seq<u8>> {
    ws.map_values(|w: Vec<u8>| w@)
}

/// The byte sequences of the keys of a pair list.
pub open spec fn keys_of<V>(ws: Seq<(Vec<u8>, V)>) -> Seq<Seq<u8>> {
    ws.map_values(|p: (Vec<u8>, V)| p.0@)
}

/// The payloads of a pair list.
pub open spec fn vals_of<V>(ws: Seq<(Vec<u8>, V)>) -> Seq<V> {
    ws.map_values(|p: (Vec<u8>, V)| p.1)
}

/// `ps[i][j]` is the first byte at or above the alphabet bound, in scan order.
pub open spec fn first_invalid_at(ps: Seq<Seq<u8>>, i: int, j: int) -> bool {
    &&& 0 <= i < ps.len()
    &&& 0 <= j < ps[i].len()
    &&& !byte_valid(ps[i][j])
    &&& pats_valid(ps.take(i))
    &&& pat_valid(ps[i].take(j))
}

/// The code table assigns `c` to some byte below the bound.
pub open spec fn code_assigned(ord: Seq<ByteOrd>, c: int) -> bool {
    exists|b: u8| byte_valid(b) && (#[trigger] ord[b as int]).0 == c
}

/// The byte to which the code table assigns `c`.
pub open spec fn byte_of(ord: Seq<ByteOrd>, c: int) -> u8 {
    choose|b: u8| byte_valid(b) && (#[trigger] ord[b as int]).0 == c
}

/// Assigned codes are distinct.
pub open spec fn ord_inj(ord: Seq<ByteOrd>) -> bool {
    forall|b1: int, b2: int|
        0 <= b1 < CHAR_MAX as int && 0 <= b2 < CHAR_MAX as int && (#[trigger] ord[b1]).0
            != ORD_EMPTY && ord[b1].0 == (#[trigger] ord[b2]).0 ==> b1 == b2
}

/// Well-formed code table with `count` assigned codes.
pub open spec fn ord_wf(ord: Seq<ByteOrd>, count: int) -> bool {
    &&& ord.len() == CHAR_MAX as int
    &&& 0 <= count <= CHAR_MAX as int
    &&& forall|b: int|
        0 <= b < CHAR_MAX as int && (#[trigger] ord[b]).0 != ORD_EMPTY ==> (ord[b].0 as int) < count
    &&& ord_inj(ord)
    &&& forall|c: int| 0 <= c < count ==> #[trigger] code_assigned(ord, c)
}

/// Every byte of every word has a code in the table.
pub open spec fn all_assigned(ord: Seq<ByteOrd>, ps: Seq<Seq<u8>>) -> bool {
    forall|i: int, j: int|
        0 <= i < ps.len() && 0 <= j < ps[i].len() ==> byte_valid(#[trigger] ps[i][j])
            && ord[ps[i][j] as int].0 != ORD_EMPTY
}

/// When a byte has a code, it is the byte recorded for that code.
pub proof fn lemma_byte_of_code(ord: Seq<ByteOrd>, b: u8)
    requires
        ord.len() == CHAR_MAX as int,
        ord_inj(ord),
        byte_valid(b),
        ord[b as int].0 != ORD_EMPTY,
    ensures
        code_assigned(ord, ord[b as int].0 as int),
        byte_of(ord, ord[b as int].0 as int) == b,
{
    let c = ord[b as int].0 as int;
    assert(code_assigned(ord, c));
    let b2 = byte_of(ord, c);
    assert(byte_valid(b2) && ord[b2 as int].0 == c);
    assert(b2 as int == b as int);
}

/// Total byte count of a pattern list.
pub open spec fn total_len(ps: Seq<Seq<u8>>) -> int
    decreases ps.len(),
{
    if ps.len() == 0 {
        0
    } else {
        total_len(ps.drop_last()) + ps.last().len()
    }
}

pub proof fn lemma_total_len_nonneg(ps: Seq<Seq<u8>>)
    ensures
        total_len(ps) >= 0,
    decreases ps.len(),
{
    if ps.len() > 0 {
        lemma_total_len_nonneg(ps.drop_last());
    }
}

pub proof fn lemma_total_len_take_step(ps: Seq<Seq<u8>>, i: int)
    requires
        0 <= i < ps.len(),
    ensures
        total_len(ps.take(i + 1)) == total_len(ps.take(i)) + ps[i].len(),
{
    assert(ps.take(i + 1).drop_last() =~= ps.take(i));
    assert(ps.take(i + 1).last() == ps[i]);
}

pub proof fn lemma_total_len_mono(ps: Seq<Seq<u8>>, i: int)
    requires
        0 <= i <= ps.len(),
    ensures
        total_len(ps.take(i)) <= total_len(ps),
    decreases ps.len() - i,
{
    if i == ps.len() {
        assert(ps.take(i) =~= ps);
    } else {
        lemma_total_len_take_step(ps, i);
        lemma_total_len_mono(ps, i + 1);
    }
}

/// With no empty pattern, there are at most as many patterns as bytes.
pub proof fn lemma_total_len_ge_count(ps: Seq<Seq<u8>>)
    requires
        forall|i: int| 0 <= i < ps.len() ==> (#[trigger] ps[i]).len() >= 1,
    ensures
        total_len(ps) >= ps.len(),
    decreases ps.len(),
{
    if ps.len() > 0 {
        assert(forall|i: int|
            0 <= i < ps.drop_last().len() ==> (#[trigger] ps.drop_last()[i]).len() >= 1);
        lemma_total_len_ge_count(ps.drop_last());
    }
}

/// The index of the last pattern equal to `q`, if any.
pub open spec fn last_match(ps: Seq<Seq<u8>>, q: Seq<u8>) -> Option<int>
    decreases ps.len(),
{
    if ps.len() == 0 {
        None
    } else if ps.last() == q {
        Some(ps.len() - 1)
    } else {
        last_match(ps.drop_last(), q)
    }
}

/// `last_match` returns the greatest index holding `q`, or nothing when no
/// pattern equals `q`.
pub proof fn lemma_last_match(ps: Seq<Seq<u8>>, q: Seq<u8>)
    ensures
        match last_match(ps, q) {
            Some(i) => 0 <= i < ps.len() && ps[i] == q && (forall|j: int|
                i < j < ps.len() ==> ps[j] != q),
            None => forall|j: int| 0 <= j < ps.len() ==> ps[j] != q,
        },
    decreases ps.len(),
{
    if ps.len() > 0 && ps.last() != q {
        lemma_last_match(ps.drop_last(), q);
        match last_match(ps.drop_last(), q) {
            Some(i) => {
                assert(ps.drop_last()[i] == ps[i]);
                assert forall|j: int| i < j < ps.len() implies ps[j] != q by {
                    if j < ps.len() - 1 {
                        assert(ps.drop_last()[j] != q);
                    }
                }
            },
            None => {
                assert forall|j: int| 0 <= j < ps.len() implies ps[j] != q by {
                    if j < ps.len() - 1 {
                        assert(ps.drop_last()[j] != q);
                    }
                }
            },
        }
    }
}

/// Some occurrence of `p` ends at position `k` of `text`.
pub open spec fn ends_at(p: Seq<u8>, text: Seq<u8>, k: int) -> bool {
    0 <= k < text.len() && is_suffix_of(p, text.take(k + 1))
}

/// `a` is a suffix of `b`.
pub open spec fn is_suffix_of(a: Seq<u8>, b: Seq<u8>) -> bool {
    a.len() <= b.len() && a == b.subrange(b.len() - a.len(), b.len() as int)
}

/// The byte value `b` occurs somewhere in the pattern list.
pub open spec fn appears(ps: Seq<Seq<u8>>, b: u8) -> bool {
    exists|i: int, j: int|
        0 <= i < ps.len() && 0 <= j < ps[i].len() && (#[trigger] ps[i][j]) == b
}

/// `b` occurs in the patterns strictly before scan position (`i`, `j`):
/// in an earlier pattern, or earlier within pattern `i`.
pub open spec fn appears_before(ps: Seq<Seq<u8>>, i: int, j: int, b: u8) -> bool {
    exists|i2: int, j2: int|
        0 <= i2 < ps.len() && 0 <= j2 < ps[i2].len() && (i2 < i || (i2 == i && j2 < j)) && (
        #[trigger] ps[i2][j2]) == b
}

/// Some occurrence of `b1` lies strictly before every occurrence of `b2`
/// in scan order: `b1` is seen before `b2` is first seen.
pub open spec fn first_seen_before(ps: Seq<Seq<u8>>, b1: u8, b2: u8) -> bool {
    exists|i: int, j: int|
        0 <= i < ps.len() && 0 <= j < ps[i].len() && (#[trigger] ps[i][j]) == b1
            && !appears_before(ps, i, j + 1, b2)
}

/// Of two suffixes of the same sequence, the shorter is a suffix of the
/// longer.
pub proof fn lemma_suffix_compare(s1: Seq<u8>, s2: Seq<u8>, t: Seq<u8>)
    requires
        is_suffix_of(s1, t),
        is_suffix_of(s2, t),
        s1.len() <= s2.len(),
    ensures
        is_suffix_of(s1, s2),
{
    assert forall|k: int| 0 <= k < s1.len() implies s1[k] == s2.subrange(
        s2.len() - s1.len(),
        s2.len() as int,
    )[k] by {
        assert(s1[k] == t[t.len() - s1.len() + k]);
        assert(s2[s2.len() - s1.len() + k] == t[t.len() - s2.len() + (s2.len() - s1.len() + k)]);
    }
    assert(s1 =~= s2.subrange(s2.len() - s1.len(), s2.len() as int));
}

/// A non-empty suffix of `t.push(b)` ends in `b`, and dropping that last
/// byte leaves a suffix of `t`.
pub proof fn lemma_suffix_pop(s: Seq<u8>, t: Seq<u8>, b: u8)
    requires
        is_suffix_of(s, t.push(b)),
        s.len() >= 1,
    ensures
        s.last() == b,
        is_suffix_of(s.drop_last(), t),
        s == s.drop_last().push(b),
{
    let tp = t.push(b);
    assert(s[s.len() - 1] == tp[tp.len() - s.len() + (s.len() - 1)]);
    assert forall|k: int| 0 <= k < s.len() - 1 implies s.drop_last()[k] == t.subrange(
        t.len() - (s.len() - 1),
        t.len() as int,
    )[k] by {
        assert(s[k] == tp[tp.len() - s.len() + k]);
        assert(tp[tp.len() - s.len() + k] == t[t.len() - (s.len() - 1) + k]);
    }
    assert(s.drop_last() =~= t.subrange(t.len() - (s.len() - 1), t.len() as int));
    assert(s =~= s.drop_last().push(b));
}

/// Two sequences with equal pushes are equal, byte included.
pub proof fn lemma_push_inj(s1: Seq<u8>, s2: Seq<u8>, x: u8, y: u8)
    requires
        s1.push(x) == s2.push(y),
    ensures
        s1 == s2,
        x == y,
{
    assert(s1 =~= s1.push(x).drop_last());
    assert(s2 =~= s2.push(y).drop_last());
    assert(x == s1.push(x).last());
    assert(y == s2.push(y).last());
}

pub proof fn lemma_empty_suffix(b: Seq<u8>)
    ensures
        is_suffix_of(Seq::<u8>::empty(), b),
{
    assert(Seq::<u8>::empty() =~= b.subrange(b.len() as int, b.len() as int));
}

pub proof fn lemma_suffix_refl(a: Seq<u8>)
    ensures
        is_suffix_of(a, a),
{
    assert(a =~= a.subrange(0, a.len() as int));
}

pub proof fn lemma_suffix_trans(a: Seq<u8>, b: Seq<u8>, c: Seq<u8>)
    requires
        is_suffix_of(a, b),
        is_suffix_of(b, c),
    ensures
        is_suffix_of(a, c),
{
    assert forall|k: int| 0 <= k < a.len() implies a[k] == c.subrange(
        c.len() - a.len(),
        c.len() as int,
    )[k] by {
        assert(a[k] == b[b.len() - a.len() + k]);
        assert(b[b.len() - a.len() + k] == c[c.len() - b.len() + (b.len() - a.len() + k)]);
    }
    assert(a =~= c.subrange(c.len() - a.len(), c.len() as int));
}

pub proof fn lemma_suffix_push(a: Seq<u8>, b: Seq<u8>, x: u8)
    requires
        is_suffix_of(a, b),
    ensures
        is_suffix_of(a.push(x), b.push(x)),
{
    let bp = b.push(x);
    assert forall|k: int| 0 <= k < a.len() + 1 implies a.push(x)[k] == bp.subrange(
        bp.len() - a.len() - 1,
        bp.len() as int,
    )[k] by {
        if k < a.len() {
            assert(a[k] == b[b.len() - a.len() + k]);
        }
    }
    assert(a.push(x) =~= bp.subrange(bp.len() - a.len() - 1, bp.len() as int));
}

/// Assign each distinct byte of `words` a dense compact code, in order of
/// first appearance; reject the first byte at or above the alphabet bound.
#[verifier::loop_isolation(false)]
pub fn ordering(words: &Vec<Vec<u8>>) -> (r: Result<(Vec<ByteOrd>, ByteOrd), InvalidByteError>)
    ensures
        match r {
            Ok(oc) => {
                &&& pats_valid(pats_of(words@))
                &&& ord_wf(oc.0@, oc.1.0 as int)
                &&& all_assigned(oc.0@, pats_of(words@))
                &&& forall|b: u8|
                    byte_valid(b) ==> (((#[trigger] oc.0@[b as int]).0 != ORD_EMPTY) <==> appears(
                        pats_of(words@),
                        b,
                    ))
                &&& forall|b1: u8, b2: u8|
                    byte_valid(b1) && byte_valid(b2) && oc.0@[b1 as int].0 != ORD_EMPTY
                        && oc.0@[b2 as int].0 != ORD_EMPTY && oc.0@[b1 as int].0
                        < oc.0@[b2 as int].0 ==> #[trigger] first_seen_before(
                        pats_of(words@),
                        b1,
                        b2,
                    )
            },
            Err(e) => exists|i: int, j: int|
                #[trigger] first_invalid_at(pats_of(words@), i, j) && pats_of(words@)[i][j]
                    == e.0,
        },
{
    let ghost ps = pats_of(words@);
    let mut ord: Vec<ByteOrd> = Vec::new();
    let mut k: usize = 0;
    while k < CHAR_MAX
        invariant
            ord@.len() == k as int,
            k <= CHAR_MAX,
            forall|b: int| 0 <= b < k as int ==> (#[trigger] ord@[b]).0 == ORD_EMPTY,
        decreases CHAR_MAX - k,
    {
        ord.push(ByteOrd(ORD_EMPTY));
        k += 1;
    }
    let mut count: u8 = 0;
    let ghost mut assigned: Set<int> = Set::empty();
    let mut i: usize = 0;
    while i < words.len()
        invariant
            i <= words@.len(),
            ord@.len() == CHAR_MAX as int,
            count as int <= CHAR_MAX as int,
            assigned.finite(),
            assigned.subset_of(set_int_range(0, CHAR_MAX as int)),
            assigned.len() == count as nat,
            forall|b: int|
                0 <= b < CHAR_MAX as int ==> (assigned.contains(b) <==> (#[trigger] ord@[b]).0
                    != ORD_EMPTY),
            forall|b: int|
                0 <= b < CHAR_MAX as int && (#[trigger] ord@[b]).0 != ORD_EMPTY ==> (
                ord@[b].0 as int) < count as int,
            ord_inj(ord@),
            forall|c: int| 0 <= c < count as int ==> #[trigger] code_assigned(ord@, c),
            forall|b: int|
                0 <= b < CHAR_MAX as int && (#[trigger] ord@[b]).0 != ORD_EMPTY ==> appears(
                    ps,
                    b as u8,
                ),
            forall|b: u8|
                byte_valid(b) && #[trigger] appears_before(ps, i as int, 0, b) ==> ord@[b as int].0
                    != ORD_EMPTY,
            forall|b: u8|
                byte_valid(b) && ord@[b as int].0 != ORD_EMPTY ==> #[trigger] appears_before(
                    ps,
                    i as int,
                    0,
                    b,
                ),
            forall|b1: u8, b2: u8|
                byte_valid(b1) && byte_valid(b2) && ord@[b1 as int].0 != ORD_EMPTY
                    && ord@[b2 as int].0 != ORD_EMPTY && ord@[b1 as int].0 < ord@[b2 as int].0
                    ==> #[trigger] first_seen_before(ps, b1, b2),
            pats_valid(ps.take(i as int)),
            all_assigned(ord@, ps.take(i as int)),
        decreases words@.len() - i,
    {
        let word = &words[i];
        let mut j: usize = 0;
        while j < word.len()
            invariant
                j <= word@.len(),
                ord@.len() == CHAR_MAX as int,
                count as int <= CHAR_MAX as int,
                assigned.finite(),
                assigned.subset_of(set_int_range(0, CHAR_MAX as int)),
                assigned.len() == count as nat,
                forall|b: int|
                    0 <= b < CHAR_MAX as int ==> (assigned.contains(b) <==> (#[trigger] ord@[b]).0
                        != ORD_EMPTY),
                forall|b: int|
                    0 <= b < CHAR_MAX as int && (#[trigger] ord@[b]).0 != ORD_EMPTY ==> (
                    ord@[b].0 as int) < count as int,
                ord_inj(ord@),
                forall|c: int| 0 <= c < count as int ==> #[trigger] code_assigned(ord@, c),
                forall|b: int|
                    0 <= b < CHAR_MAX as int && (#[trigger] ord@[b]).0 != ORD_EMPTY ==> appears(
                        ps,
                        b as u8,
                    ),
                forall|b: u8|
                    byte_valid(b) && #[trigger] appears_before(ps, i as int, j as int, b)
                        ==> ord@[b as int].0 != ORD_EMPTY,
                forall|b: u8|
                    byte_valid(b) && ord@[b as int].0 != ORD_EMPTY ==> #[trigger] appears_before(
                        ps,
                        i as int,
                        j as int,
                        b,
                    ),
                forall|b1: u8, b2: u8|
                    byte_valid(b1) && byte_valid(b2) && ord@[b1 as int].0 != ORD_EMPTY
                        && ord@[b2 as int].0 != ORD_EMPTY && ord@[b1 as int].0
                        < ord@[b2 as int].0 ==> #[trigger] first_seen_before(ps, b1, b2),
                forall|jj: int| 0 <= jj < j as int ==> byte_valid(#[trigger] word@[jj]),
                forall|jj: int|
                    0 <= jj < j as int ==> ord@[#[trigger] word@[jj] as int].0 != ORD_EMPTY,
                pats_valid(ps.take(i as int)),
                all_assigned(ord@, ps.take(i as int)),
            decreases word@.len() - j,
        {
            let b = word[j];
            let ghost ord_at = ord@;
            if b as usize >= CHAR_MAX {
                proof {
                    assert(ps[i as int] == word@);
                    assert(pat_valid(ps[i as int].take(j as int)));
                    assert(first_invalid_at(ps, i as int, j as int));
                }
                return Err(InvalidByteError(b));
            }
            if ord[b as usize].is_empty() {
                proof {
                    assert(!assigned.contains(b as int));
                    vstd::set_lib::lemma_int_range(0, CHAR_MAX as int);
                    assert(assigned.insert(b as int).subset_of(set_int_range(0, CHAR_MAX as int)));
                    vstd::set_lib::lemma_len_subset(
                        assigned.insert(b as int),
                        set_int_range(0, CHAR_MAX as int),
                    );
                    assert(assigned.insert(b as int).len() == count as nat + 1);
                }
                let ghost old_ord = ord@;
                ord[b as usize] = ByteOrd(count);
                count = count + 1;
                proof {
                    assigned = assigned.insert(b as int);
                    assert(ps[i as int][j as int] == b);
                    assert(appears(ps, b));
                    assert forall|c: int| 0 <= c < count as int implies #[trigger] code_assigned(
                        ord@,
                        c,
                    ) by {
                        if c < count as int - 1 {
                            assert(code_assigned(old_ord, c));
                            let bw = choose|bb: u8|
                                byte_valid(bb) && (#[trigger] old_ord[bb as int]).0 == c;
                            assert(ord@[bw as int].0 == c);
                        } else {
                            assert(ord@[b as int].0 == c);
                        }
                    }
                    assert(ord@[b as int].0 != ORD_EMPTY);
                    assert forall|b1: u8, b2: u8|
                        byte_valid(b1) && byte_valid(b2) && ord@[b1 as int].0 != ORD_EMPTY
                            && ord@[b2 as int].0 != ORD_EMPTY && ord@[b1 as int].0
                            < ord@[b2 as int].0 implies #[trigger] first_seen_before(
                        ps,
                        b1,
                        b2,
                    ) by {
                        if b2 == b {
                            assert(b1 != b);
                            assert(old_ord[b1 as int].0 != ORD_EMPTY);
                            assert(appears_before(ps, i as int, j as int, b1));
                            let (ia, ja) = choose|ia: int, ja: int|
                                0 <= ia < ps.len() && 0 <= ja < ps[ia].len() && (ia < i as int || (
                                ia == i as int && ja < j as int)) && (#[trigger] ps[ia][ja]) == b1;
                            if appears_before(ps, ia, ja + 1, b) {
                                let (ib, jb) = choose|ib: int, jb: int|
                                    0 <= ib < ps.len() && 0 <= jb < ps[ib].len() && (ib < ia || (ib
                                        == ia && jb < ja + 1)) && (#[trigger] ps[ib][jb]) == b;
                                assert(appears_before(ps, i as int, j as int, b));
                                assert(old_ord[b as int].0 != ORD_EMPTY);
                                assert(false);
                            }
                            assert(first_seen_before(ps, b1, b2));
                        } else if b1 == b {
                            assert(old_ord[b2 as int].0 != ORD_EMPTY);
                            assert((old_ord[b2 as int].0 as int) < count as int - 1);
                            assert(false);
                        } else {
                            assert(old_ord[b1 as int].0 != ORD_EMPTY);
                            assert(old_ord[b2 as int].0 != ORD_EMPTY);
                            assert(first_seen_before(ps, b1, b2));
                        }
                    }
                }
            }
            proof {
                let jn = j as int + 1;
                assert(ps[i as int] == word@);
                assert(ps[i as int][j as int] == b);
                assert(ord@[b as int].0 != ORD_EMPTY);
                assert(forall|x: int|
                    0 <= x < CHAR_MAX as int && x != b as int ==> ord@[x] == ord_at[x]);
                assert forall|bb: u8|
                    byte_valid(bb) && #[trigger] appears_before(ps, i as int, jn, bb) implies
                    ord@[bb as int].0 != ORD_EMPTY by {
                    let (i2, j2) = choose|i2: int, j2: int|
                        0 <= i2 < ps.len() && 0 <= j2 < ps[i2].len() && (i2 < i as int || (i2
                            == i as int && j2 < jn)) && (#[trigger] ps[i2][j2]) == bb;
                    if i2 < i as int || (i2 == i as int && j2 < j as int) {
                        assert(appears_before(ps, i as int, j as int, bb));
                        assert(ord_at[bb as int].0 != ORD_EMPTY);
                        if bb != b {
                            assert(ord@[bb as int] == ord_at[bb as int]);
                        }
                    } else {
                        assert(bb == b);
                    }
                }
                assert forall|bb: u8|
                    byte_valid(bb) && ord@[bb as int].0 != ORD_EMPTY implies #[trigger]
                    appears_before(ps, i as int, jn, bb) by {
                    if bb == b {
                    } else {
                        assert(ord_at[bb as int].0 != ORD_EMPTY);
                        assert(appears_before(ps, i as int, j as int, bb));
                        let (i2, j2) = choose|i2: int, j2: int|
                            0 <= i2 < ps.len() && 0 <= j2 < ps[i2].len() && (i2 < i as int || (i2
                                == i as int && j2 < j as int)) && (#[trigger] ps[i2][j2]) == bb;
                        assert((#[trigger] ps[i2][j2]) == bb && (i2 < i as int || (i2 == i as int
                            && j2 < jn)));
                    }
                }
            }
            j += 1;
        }
        i += 1;
        proof {
            assert(ps[i as int - 1] == word@);
            assert forall|bb: u8|
                byte_valid(bb) && #[trigger] appears_before(ps, i as int, 0, bb) implies
                ord@[bb as int].0 != ORD_EMPTY by {
                let (i2, j2) = choose|i2: int, j2: int|
                    0 <= i2 < ps.len() && 0 <= j2 < ps[i2].len() && (i2 < i as int || (i2
                        == i as int && j2 < 0)) && (#[trigger] ps[i2][j2]) == bb;
                assert(i2 < i as int);
                if i2 == i as int - 1 {
                    assert(j2 < ps[i as int - 1].len());
                    assert(appears_before(ps, i as int - 1, word@.len() as int, bb));
                } else {
                    assert(appears_before(ps, i as int - 1, word@.len() as int, bb));
                }
            }
            assert forall|bb: u8|
                byte_valid(bb) && ord@[bb as int].0 != ORD_EMPTY implies #[trigger] appears_before(
                ps,
                i as int,
                0,
                bb,
            ) by {
                assert(appears_before(ps, i as int - 1, word@.len() as int, bb));
                let (i2, j2) = choose|i2: int, j2: int|
                    0 <= i2 < ps.len() && 0 <= j2 < ps[i2].len() && (i2 < i as int - 1 || (i2
                        == i as int - 1 && j2 < word@.len() as int)) && (#[trigger] ps[i2][j2])
                        == bb;
                assert((#[trigger] ps[i2][j2]) == bb && i2 < i as int);
            }
            assert forall|ii: int| 0 <= ii < i as int implies pat_valid(
                #[trigger] ps.take(i as int)[ii],
            ) by {
                if ii < i as int - 1 {
                    assert(pat_valid(ps.take(i as int - 1)[ii]));
                }
            }
            assert forall|ii: int, jj: int|
                0 <= ii < ps.take(i as int).len() && 0 <= jj < ps.take(i as int)[ii].len()
                implies byte_valid(#[trigger] ps.take(i as int)[ii][jj]) && ord@[ps.take(
                i as int,
            )[ii][jj] as int].0 != ORD_EMPTY by {
                if ii < i as int - 1 {
                    assert(all_assigned(ord@, ps.take(i as int - 1)));
                    assert(ps.take(i as int - 1)[ii] == ps.take(i as int)[ii]);
                }
            }
        }
    }
    proof {
        assert(ps.take(words@.len() as int) =~= ps);
        assert forall|b: u8|
            byte_valid(b) && appears(ps, b) implies (#[trigger] ord@[b as int]).0 != ORD_EMPTY by {
            let (bi, bj) = choose|bi: int, bj: int|
                0 <= bi < ps.len() && 0 <= bj < ps[bi].len() && (#[trigger] ps[bi][bj]) == b;
            assert(ord@[ps[bi][bj] as int].0 != ORD_EMPTY);
        }
    }
    Ok((ord, ByteOrd(count)))
}

/// Record which byte values start at least one word.
#[verifier::loop_isolation(false)]
pub fn initial_bytes(words: &Vec<Vec<u8>>) -> (r: Vec<u8>)
    requires
        forall|i: int| 0 <= i < words@.len() ==> (#[trigger] words@[i]@).len() >= 1,
        forall|i: int| 0 <= i < words@.len() ==> byte_valid(#[trigger] words@[i]@[0]),
    ensures
        forall|b: u8|
            #[trigger] r@.contains(b) <==> exists|i: int|
                0 <= i < words@.len() && (#[trigger] words@[i]@)[0] == b,
        forall|x: int, y: int| 0 <= x < y < r@.len() ==> (#[trigger] r@[x]) < (#[trigger] r@[y]),
{
    let mut seen: Vec<bool> = Vec::new();
    let mut k: usize = 0;
    while k < CHAR_MAX
        invariant
            seen@.len() == k as int,
            k <= CHAR_MAX,
            forall|u: int| 0 <= u < k as int ==> !(#[trigger] seen@[u]),
        decreases CHAR_MAX - k,
    {
        seen.push(false);
        k += 1;
    }
    let mut i: usize = 0;
    while i < words.len()
        invariant
            i <= words@.len(),
            seen@.len() == CHAR_MAX as int,
            forall|u: int|
                0 <= u < CHAR_MAX as int ==> ((#[trigger] seen@[u]) <==> exists|ii: int|
                    0 <= ii < i as int && (#[trigger] words@[ii]@)[0] == u),
        decreases words@.len() - i,
    {
        let b = words[i][0];
        seen[b as usize] = true;
        i += 1;
        proof {
            assert forall|u: int|
                0 <= u < CHAR_MAX as int && (#[trigger] seen@[u]) implies exists|ii: int|
                0 <= ii < i as int && (#[trigger] words@[ii]@)[0] == u by {
                if u == b as int {
                    assert(words@[i as int - 1]@[0] == u);
                }
            }
        }
    }
    let mut r: Vec<u8> = Vec::new();
    let mut u: usize = 0;
    while u < CHAR_MAX
        invariant
            u <= CHAR_MAX,
            seen@.len() == CHAR_MAX as int,
            forall|b: u8|
                #[trigger] r@.contains(b) <==> ((b as int) < u as int && seen@[b as int]),
            forall|x: int| 0 <= x < r@.len() ==> (#[trigger] r@[x] as int) < u as int,
            forall|x: int, y: int|
                0 <= x < y < r@.len() ==> (#[trigger] r@[x]) < (#[trigger] r@[y]),
        decreases CHAR_MAX - u,
    {
        if seen[u] {
            let ghost r0 = r@;
            r.push(u as u8);
            proof {
                assert(r@[r@.len() - 1] == u as u8);
                assert forall|b: u8| #[trigger]
                    r@.contains(b) implies ((b as int) < u as int + 1 && seen@[b as int]) by {
                    let t = choose|t: int| 0 <= t < r@.len() && r@[t] == b;
                    if t < r@.len() - 1 {
                        assert(r0[t] == b);
                        assert(r0.contains(b));
                    }
                }
                assert forall|b: u8|
                    ((b as int) < u as int + 1 && seen@[b as int]) implies #[trigger] r@.contains(
                    b,
                ) by {
                    if (b as int) < u as int {
                        assert(r0.contains(b));
                        let t = choose|t: int| 0 <= t < r0.len() && r0[t] == b;
                        assert(r@[t] == b);
                    }
                }
            }
        }
        u += 1;
    }
    proof {
        assert forall|b: u8| #[trigger] r@.contains(b) implies exists|i: int|
            0 <= i < words@.len() && (#[trigger] words@[i]@)[0] == b by {
            assert(seen@[b as int]);
        }
        assert forall|b: u8| (exists|i: int|
            0 <= i < words@.len() && (#[trigger] words@[i]@)[0] == b) implies #[trigger]
            r@.contains(b) by {
            let ii = choose|i: int| 0 <= i < words@.len() && (#[trigger] words@[i]@)[0] == b;
            assert(byte_valid(words@[ii]@[0]));
            assert(seen@[b as int]);
        }
    }
    r
}

/// Whether `v` holds `b`.
#[verifier::loop_isolation(false)]
pub fn contains_byte(v: &Vec<u8>, b: u8) -> (r: bool)
    ensures
        r == v@.contains(b),
{
    let mut t: usize = 0;
    while t < v.len()
        invariant
            t <= v@.len(),
            forall|x: int| 0 <= x < t as int ==> v@[x] != b,
        decreases v@.len() - t,
    {
        if v[t] == b {
            return true;
        }
        t += 1;
    }
    false
}

} // verus!
