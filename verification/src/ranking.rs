//! The orders in which indexed files are listed: by score, by how recently
//! their note changed, with ties settled by path or by their given position.

use vstd::prelude::*;
use crate::text::chars_of;

verus! {

/// Lexicographic order on texts by code point (the order of `str::cmp`, since
/// UTF-8 preserves the order of code points).
pub open spec fn text_lt(a: Seq<char>, b: Seq<char>) -> bool
    decreases a.len(),
{
    if a.len() == 0 {
        b.len() > 0
    } else if b.len() == 0 {
        false
    } else if a[0] != b[0] {
        a[0] < b[0]
    } else {
        text_lt(a.drop_first(), b.drop_first())
    }
}

proof fn lemma_text_lt_irrefl(a: Seq<char>)
    ensures
        !text_lt(a, a),
    decreases a.len(),
{
    if a.len() > 0 {
        lemma_text_lt_irrefl(a.drop_first());
    }
}

proof fn lemma_text_lt_total(a: Seq<char>, b: Seq<char>)
    ensures
        a != b ==> (text_lt(a, b) || text_lt(b, a)),
        !(text_lt(a, b) && text_lt(b, a)),
    decreases a.len(),
{
    if a.len() > 0 && b.len() > 0 {
        if a[0] == b[0] {
            lemma_text_lt_total(a.drop_first(), b.drop_first());
            if a.drop_first() == b.drop_first() {
                assert(a =~= seq![a[0]] + a.drop_first());
                assert(b =~= seq![b[0]] + b.drop_first());
            }
        } else {
        }
    } else if a.len() == 0 && b.len() == 0 {
        assert(a =~= b);
    }
}

proof fn lemma_text_lt_trans(a: Seq<char>, b: Seq<char>, c: Seq<char>)
    requires
        text_lt(a, b),
        text_lt(b, c),
    ensures
        text_lt(a, c),
    decreases a.len(),
{
    if a.len() > 0 && b.len() > 0 && c.len() > 0 {
        if a[0] == b[0] && b[0] == c[0] {
            lemma_text_lt_trans(a.drop_first(), b.drop_first(), c.drop_first());
        } else {
        }
    }
}

/// What a file is ordered by: files with a `primary` value come before those
/// without, larger values first; then, when paths are compared, the smaller
/// path first.
pub struct RankKey {
    pub primary: Option<i128>,
    pub path: String,
}

pub struct RankKeySpec {
    pub primary: Option<i128>,
    pub path: Seq<char>,
}

impl View for RankKey {
    type V = RankKeySpec;

    open spec fn view(&self) -> RankKeySpec {
        RankKeySpec { primary: self.primary, path: self.path@ }
    }
}

pub open spec fn keys_view(v: Seq<RankKey>) -> Seq<RankKeySpec> {
    v.map_values(|k: RankKey| k@)
}

/// `a` goes before `b` by the primary values alone.
pub open spec fn primary_lt(a: Option<i128>, b: Option<i128>) -> bool {
    match (a, b) {
        (Some(x), Some(y)) => x > y,
        (Some(_), None) => true,
        _ => false,
    }
}

/// `a` goes strictly before `b`.
pub open spec fn key_lt(a: RankKeySpec, b: RankKeySpec, by_path: bool) -> bool {
    primary_lt(a.primary, b.primary) || (a.primary == b.primary && by_path && text_lt(a.path, b.path))
}

/// `a` and `b` are tied.
pub open spec fn key_tied(a: RankKeySpec, b: RankKeySpec, by_path: bool) -> bool {
    a.primary == b.primary && (!by_path || a.path == b.path)
}

/// Entry `i` is listed before entry `j`: its key goes first, or the keys tie
/// and `i` came first (the order is stable).
pub open spec fn ranks_before(keys: Seq<RankKeySpec>, by_path: bool, i: int, j: int) -> bool {
    key_lt(keys[i], keys[j], by_path) || (key_tied(keys[i], keys[j], by_path) && i < j)
}

/// `order` lists every position of `keys` exactly once, each before all those
/// it ranks before.
pub open spec fn is_ranking(keys: Seq<RankKeySpec>, by_path: bool, order: Seq<usize>) -> bool {
    &&& order.len() == keys.len()
    &&& forall|p: int| 0 <= p < order.len() ==> 0 <= #[trigger] order[p] < keys.len()
    &&& forall|p: int, q: int| 0 <= p < q < order.len() ==> order[p] != order[q]
    &&& forall|p: int, q: int|
        0 <= p < q < order.len() ==> ranks_before(keys, by_path, #[trigger] order[p] as int, #[trigger] order[q] as int)
}

proof fn lemma_ranks_total(keys: Seq<RankKeySpec>, by_path: bool, i: int, j: int)
    requires
        i != j,
    ensures
        ranks_before(keys, by_path, i, j) != ranks_before(keys, by_path, j, i),
{
    lemma_text_lt_total(keys[i].path, keys[j].path);
    lemma_text_lt_irrefl(keys[i].path);
}

proof fn lemma_ranks_trans(keys: Seq<RankKeySpec>, by_path: bool, i: int, j: int, k: int)
    requires
        ranks_before(keys, by_path, i, j),
        ranks_before(keys, by_path, j, k),
    ensures
        ranks_before(keys, by_path, i, k),
{
    let (a, b, c) = (keys[i].path, keys[j].path, keys[k].path);
    if text_lt(a, b) && text_lt(b, c) {
        lemma_text_lt_trans(a, b, c);
    }
    lemma_text_lt_irrefl(a);
    lemma_text_lt_total(a, c);
}

fn text_less(a: &Vec<char>, b: &Vec<char>) -> (r: bool)
    ensures
        r == text_lt(a@, b@),
{
    let mut i: usize = 0;
    assert(a@.skip(0) =~= a@);
    assert(b@.skip(0) =~= b@);
    while i < a.len() && i < b.len()
        invariant
            i <= a@.len(),
            i <= b@.len(),
            forall|k: int| 0 <= k < i ==> a@[k] == b@[k],
            text_lt(a@, b@) == text_lt(a@.skip(i as int), b@.skip(i as int)),
        decreases a@.len() - i,
    {
        if a[i] != b[i] {
            assert(a@.skip(i as int)[0] == a@[i as int]);
            assert(b@.skip(i as int)[0] == b@[i as int]);
            return a[i] < b[i];
        }
        assert(a@.skip(i as int).drop_first() =~= a@.skip(i + 1));
        assert(b@.skip(i as int).drop_first() =~= b@.skip(i + 1));
        i = i + 1;
    }
    i == a.len() && i < b.len()
}

fn key_less(a: &RankKey, b: &RankKey, a_path: &Vec<char>, b_path: &Vec<char>, by_path: bool) -> (r: bool)
    requires
        a_path@ == a.path@,
        b_path@ == b.path@,
    ensures
        r == key_lt(a@, b@, by_path),
{
    let p = match (a.primary, b.primary) {
        (Some(x), Some(y)) => x > y,
        (Some(_), None) => true,
        _ => false,
    };
    if p {
        return true;
    }
    a.primary == b.primary && by_path && text_less(a_path, b_path)
}

/// The positions of `keys` in listing order: keys with a primary value first,
/// larger values first; ties by path when `by_path` holds; remaining ties in
/// their given order.
pub fn rank(keys: &Vec<RankKey>, by_path: bool) -> (order: Vec<usize>)
    ensures
        is_ranking(keys_view(keys@), by_path, order@),
{
    let ghost ks = keys_view(keys@);
    let mut paths: Vec<Vec<char>> = Vec::new();
    let mut t: usize = 0;
    while t < keys.len()
        invariant
            t <= keys@.len(),
            paths@.len() == t,
            forall|m: int| 0 <= m < t ==> (#[trigger] paths@[m])@ == keys@[m].path@,
        decreases keys@.len() - t,
    {
        paths.push(chars_of(keys[t].path.as_str()));
        t = t + 1;
    }
    let mut order: Vec<usize> = Vec::new();
    let mut n: usize = 0;
    while n < keys.len()
        invariant
            n <= keys@.len(),
            ks == keys_view(keys@),
            paths@.len() == keys@.len(),
            forall|m: int| 0 <= m < keys@.len() ==> (#[trigger] paths@[m])@ == keys@[m].path@,
            order@.len() == n,
            forall|p: int| 0 <= p < n ==> 0 <= #[trigger] order@[p] < n,
            forall|p: int, q: int| 0 <= p < q < n ==> order@[p] != order@[q],
            forall|p: int, q: int|
                0 <= p < q < n ==> ranks_before(ks, by_path, #[trigger] order@[p] as int, #[trigger] order@[q] as int),
        decreases keys@.len() - n,
    {
        // Find where entry `n` goes: after every entry that ranks before it.
        let mut pos: usize = n;
        while pos > 0 && key_less(&keys[n], &keys[order[pos - 1]], &paths[n], &paths[order[pos - 1]], by_path)
            invariant
                pos <= n,
                n < keys@.len(),
                ks == keys_view(keys@),
                paths@.len() == keys@.len(),
                forall|m: int| 0 <= m < keys@.len() ==> (#[trigger] paths@[m])@ == keys@[m].path@,
                order@.len() == n,
                forall|p: int| 0 <= p < n ==> 0 <= #[trigger] order@[p] < n,
                forall|p: int| pos <= p < n ==> ranks_before(ks, by_path, n as int, #[trigger] order@[p] as int),
            decreases pos,
        {
            assert(ks[n as int] == keys@[n as int]@);
            assert(ks[order@[pos - 1] as int] == keys@[order@[pos - 1] as int]@);
            pos = pos - 1;
        }
        proof {
            if pos > 0 {
                let e = order@[pos - 1] as int;
                assert(ks[n as int] == keys@[n as int]@);
                assert(ks[e] == keys@[e]@);
                assert(!key_lt(ks[n as int], ks[e], by_path));
                assert(!ranks_before(ks, by_path, n as int, e));
                lemma_ranks_total(ks, by_path, n as int, e);
                assert forall|p: int| 0 <= p < pos implies ranks_before(ks, by_path, #[trigger] order@[p] as int, n as int) by {
                    if p < pos - 1 {
                        lemma_ranks_trans(ks, by_path, order@[p] as int, e, n as int);
                    }
                }
            }
        }
        let ghost old_order = order@;
        order.insert(pos, n);
        proof {
            assert forall|p: int| 0 <= p < n + 1 implies 0 <= #[trigger] order@[p] < n + 1 by {
                if p < pos {
                    assert(order@[p] == old_order[p]);
                } else if p > pos {
                    assert(order@[p] == old_order[p - 1]);
                }
            }
            assert forall|p: int, q: int| 0 <= p < q < n + 1 implies order@[p] != order@[q] by {
                if p < pos {
                    assert(order@[p] == old_order[p]);
                } else if p > pos {
                    assert(order@[p] == old_order[p - 1]);
                }
                if q < pos {
                    assert(order@[q] == old_order[q]);
                } else if q > pos {
                    assert(order@[q] == old_order[q - 1]);
                }
            }
            assert forall|p: int, q: int| 0 <= p < q < n + 1 implies ranks_before(ks, by_path, #[trigger] order@[p] as int, #[trigger] order@[q] as int) by {
                if p < pos {
                    assert(order@[p] == old_order[p]);
                } else if p > pos {
                    assert(order@[p] == old_order[p - 1]);
                }
                if q < pos {
                    assert(order@[q] == old_order[q]);
                } else if q > pos {
                    assert(order@[q] == old_order[q - 1]);
                }
            }
        }
        n = n + 1;
    }
    order
}

} // verus!

verus! {

/// How `list` orders the files: by score, or by the time their note last
/// changed.
#[derive(Clone, Copy, Debug, PartialEq, Eq)]
pub enum SortOrder {
    Score,
    Recent,
}

pub open spec fn min_nat(a: nat, b: nat) -> nat {
    if a <= b { a } else { b }
}

/// The entries of a page: at most `n` entries starting at `offset`, both
/// clipped to the listing.
pub open spec fn page_of<T>(order: Seq<T>, offset: nat, n: nat) -> Seq<T> {
    let start = min_nat(offset, order.len());
    let end = min_nat(start + n, order.len());
    order.subrange(start as int, end as int)
}

/// The page of a listing that starts at `offset` and holds at most `n`
/// entries. The end of the page, `min(offset, len) + n`, fits in a `usize`.
pub fn page(order: &Vec<usize>, offset: usize, n: usize) -> (r: Vec<usize>)
    requires
        min_nat(offset as nat, order@.len()) + n <= usize::MAX,
    ensures
        r@ == page_of(order@, offset as nat, n as nat),
{
    let len = order.len();
    let start = if offset < len { offset } else { len };
    let end = if start + n < len { start + n } else { len };
    let mut r: Vec<usize> = Vec::new();
    let mut k: usize = start;
    while k < end
        invariant
            start <= k <= end <= order@.len(),
            r@ == order@.subrange(start as int, k as int),
        decreases end - k,
    {
        r.push(order[k]);
        k = k + 1;
        assert(r@ =~= order@.subrange(start as int, k as int));
    }
    r
}

/// A page holds `n` entries, or as many as remain after the offset when fewer
/// do, and they are the entries of the listing from the (clipped) offset on,
/// in listing order.
pub proof fn page_entries<T>(order: Seq<T>, offset: nat, n: nat)
    ensures
        page_of(order, offset, n).len() == min_nat(n, (order.len() - min_nat(offset, order.len())) as nat),
        forall|k: int|
            0 <= k < page_of(order, offset, n).len() ==> #[trigger] page_of(order, offset, n)[k]
                == order[min_nat(offset, order.len()) + k],
{
}

/// Two consecutive pages, the second starting where the first ends, make up
/// the page of their combined size.
pub proof fn pages_concatenate<T>(order: Seq<T>, offset: nat, n1: nat, n2: nat)
    ensures
        page_of(order, offset, n1) + page_of(order, offset + n1, n2) == page_of(order, offset, n1 + n2),
{
    assert(page_of(order, offset, n1) + page_of(order, offset + n1, n2) =~= page_of(order, offset, n1 + n2));
}

/// A page from the start as long as the listing is the whole listing.
pub proof fn first_full_page_is_listing<T>(order: Seq<T>)
    ensures
        page_of(order, 0, order.len()) == order,
{
    assert(page_of(order, 0, order.len()) =~= order);
}

} // verus!

verus! {

proof fn lemma_ranking_covers(keys: Seq<RankKeySpec>, by_path: bool, o: Seq<usize>, k: int)
    requires
        is_ranking(keys, by_path, o),
        0 <= k < keys.len(),
    ensures
        exists|p: int| 0 <= p < o.len() && o[p] == k,
{
    let oi = o.map_values(|x: usize| x as int);
    assert(oi.no_duplicates()) by {
        assert forall|p: int, q: int| 0 <= p < oi.len() && 0 <= q < oi.len() && p != q implies oi[p] != oi[q] by {
            if p < q {
                assert(o[p] != o[q]);
            } else {
                assert(o[q] != o[p]);
            }
        }
    }
    oi.unique_seq_to_set();
    let range = vstd::set_lib::set_int_range(0, keys.len() as int);
    vstd::set_lib::lemma_int_range(0, keys.len() as int);
    assert(oi.to_set().subset_of(range)) by {
        assert forall|x: int| oi.to_set().contains(x) implies range.contains(x) by {
            let p = choose|p: int| 0 <= p < oi.len() && oi[p] == x;
            assert(0 <= o[p] < keys.len());
        }
    }
    vstd::set_lib::lemma_subset_equality(oi.to_set(), range);
    assert(range.contains(k));
    assert(oi.to_set().contains(k));
    let p = choose|p: int| 0 <= p < oi.len() && oi[p] == k;
    assert(o[p] == k);
}

proof fn lemma_rankings_agree_upto(keys: Seq<RankKeySpec>, by_path: bool, o1: Seq<usize>, o2: Seq<usize>, p: int)
    requires
        is_ranking(keys, by_path, o1),
        is_ranking(keys, by_path, o2),
        0 <= p <= keys.len(),
    ensures
        forall|q: int| 0 <= q < p ==> o1[q] == o2[q],
    decreases p,
{
    if p > 0 {
        let m = p - 1;
        lemma_rankings_agree_upto(keys, by_path, o1, o2, m);
        let x = o1[m] as int;
        let y = o2[m] as int;
        if x != y {
            lemma_ranking_covers(keys, by_path, o1, y);
            lemma_ranking_covers(keys, by_path, o2, x);
            let p1 = choose|i: int| 0 <= i < o1.len() && o1[i] == y;
            let p2 = choose|i: int| 0 <= i < o2.len() && o2[i] == x;
            if p1 < m {
                assert(o2[p1] == o1[p1]);
                assert(o2[p1] != o2[m]);
            }
            if p2 < m {
                assert(o1[p2] == o2[p2]);
                assert(o1[p2] != o1[m]);
            }
            assert(m < p1);
            assert(m < p2);
            assert(ranks_before(keys, by_path, o1[m] as int, o1[p1] as int));
            assert(ranks_before(keys, by_path, o2[m] as int, o2[p2] as int));
            lemma_ranks_total(keys, by_path, x, y);
        }
    }
}

/// The listing order is fixed by the keys alone: any two orders that list
/// every entry once, each before those it ranks before, are the same.
pub proof fn ranking_unique(keys: Seq<RankKeySpec>, by_path: bool, o1: Seq<usize>, o2: Seq<usize>)
    requires
        is_ranking(keys, by_path, o1),
        is_ranking(keys, by_path, o2),
    ensures
        o1 == o2,
{
    lemma_rankings_agree_upto(keys, by_path, o1, o2, keys.len() as int);
    assert(o1 =~= o2);
}

} // verus!

verus! {

/// The positions, in order, of the paths that start with `prefix`.
pub open spec fn indices_with_prefix(paths: Seq<Seq<char>>, prefix: Seq<char>) -> Seq<usize>
    decreases paths.len(),
{
    if paths.len() == 0 {
        Seq::<usize>::empty()
    } else {
        let earlier = indices_with_prefix(paths.drop_last(), prefix);
        if crate::text::has_prefix(paths.last(), prefix) {
            earlier.push((paths.len() - 1) as usize)
        } else {
            earlier
        }
    }
}

/// The positions of the paths under a directory prefix (a text prefix of the
/// path), in their given order.
pub fn paths_with_prefix(paths: &Vec<String>, prefix: &str) -> (r: Vec<usize>)
    ensures
        r@ == indices_with_prefix(crate::text::strings_view(paths@), prefix@),
{
    let ghost pv = crate::text::strings_view(paths@);
    let mut r: Vec<usize> = Vec::new();
    let mut i: usize = 0;
    while i < paths.len()
        invariant
            i <= paths@.len(),
            pv == crate::text::strings_view(paths@),
            r@ == indices_with_prefix(pv.take(i as int), prefix@),
        decreases paths@.len() - i,
    {
        assert(pv.take(i + 1).drop_last() =~= pv.take(i as int));
        assert(pv.take(i + 1).last() == paths@[i as int]@);
        if crate::text::starts_with(paths[i].as_str(), prefix) {
            r.push(i);
        }
        i = i + 1;
    }
    assert(pv.take(paths@.len() as int) =~= pv);
    r
}

} // verus!
