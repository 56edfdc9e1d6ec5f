//! The order of texts (as `String`'s `Ord` compares them) and sorting by it.
//!
//! `String` compares the UTF-8 bytes lexicographically; for valid UTF-8 that
//! is the lexicographic order of the code points, which is what `text_less`
//! states.
use vstd::prelude::*;
use crate::text::{chars_of, chars_view, texts_view};

verus! {

/// `a` comes strictly before `b`.
pub open spec fn text_less(a: Seq<char>, b: Seq<char>) -> bool
    decreases a.len(),
{
    if a.len() == 0 {
        b.len() > 0
    } else if b.len() == 0 {
        false
    } else if (a[0] as int) < (b[0] as int) {
        true
    } else if a[0] != b[0] {
        false
    } else {
        text_less(a.drop_first(), b.drop_first())
    }
}

pub proof fn lemma_text_less_irreflexive(a: Seq<char>)
    ensures
        !text_less(a, a),
    decreases a.len(),
{
    if a.len() > 0 {
        lemma_text_less_irreflexive(a.drop_first());
    }
}

pub proof fn lemma_text_less_total(a: Seq<char>, b: Seq<char>)
    ensures
        a == b || text_less(a, b) || text_less(b, a),
        !(text_less(a, b) && text_less(b, a)),
    decreases a.len(),
{
    if a.len() > 0 && b.len() > 0 {
        lemma_text_less_total(a.drop_first(), b.drop_first());
        assert((a[0] as int) == (b[0] as int) ==> a[0] == b[0]);
        if a[0] == b[0] && a.drop_first() == b.drop_first() {
            assert(a =~= b) by {
                assert forall|i: int| 0 <= i < a.len() implies a[i] == b[i] by {
                    if i > 0 {
                        assert(a[i] == a.drop_first()[i - 1]);
                        assert(b[i] == b.drop_first()[i - 1]);
                    }
                }
            }
        }
    } else if a.len() == 0 && b.len() == 0 {
        assert(a =~= b);
    }
}

pub proof fn lemma_text_less_transitive(a: Seq<char>, b: Seq<char>, c: Seq<char>)
    requires
        text_less(a, b),
        text_less(b, c),
    ensures
        text_less(a, c),
    decreases a.len(),
{
    if a.len() > 0 && b.len() > 0 && c.len() > 0 {
        if a[0] == b[0] && b[0] == c[0] {
            lemma_text_less_transitive(a.drop_first(), b.drop_first(), c.drop_first());
        }
    }
}

/// Texts that agree up to a first differing character are ordered by the
/// code points of those two characters, whatever follows them.
pub proof fn lemma_text_less_first_difference(
    p: Seq<char>,
    x: char,
    y: char,
    a: Seq<char>,
    b: Seq<char>,
)
    requires
        x != y,
    ensures
        text_less(p + seq![x] + a, p + seq![y] + b) == ((x as u32) < (y as u32)),
    decreases p.len(),
{
    let l = p + seq![x] + a;
    let r = p + seq![y] + b;
    if p.len() == 0 {
        assert(l[0] == x);
        assert(r[0] == y);
        assert((x as int) == (y as int) ==> x == y);
    } else {
        lemma_text_less_first_difference(p.drop_first(), x, y, a, b);
        assert(l.drop_first() =~= p.drop_first() + seq![x] + a);
        assert(r.drop_first() =~= p.drop_first() + seq![y] + b);
        assert(l[0] == p[0]);
        assert(r[0] == p[0]);
    }
}

/// A text comes before every longer text that it begins.
pub proof fn lemma_text_less_proper_prefix(a: Seq<char>, b: Seq<char>)
    requires
        b.len() > 0,
    ensures
        text_less(a, a + b),
        !text_less(a + b, a),
    decreases a.len(),
{
    if a.len() > 0 {
        lemma_text_less_proper_prefix(a.drop_first(), b);
        assert((a + b).drop_first() =~= a.drop_first() + b);
        assert((a + b)[0] == a[0]);
    } else {
        assert(a + b =~= b);
    }
}

/// Whether `a` comes strictly before `b`.
pub fn text_lt(a: &Vec<char>, b: &Vec<char>) -> (res: bool)
    ensures
        res == text_less(a@, b@),
{
    let mut i: usize = 0;
    assert(a@.skip(0) =~= a@);
    assert(b@.skip(0) =~= b@);
    while i < a.len() && i < b.len() && a[i] == b[i]
        invariant
            i <= a.len(),
            i <= b.len(),
            text_less(a@, b@) == text_less(a@.skip(i as int), b@.skip(i as int)),
        decreases a.len() - i,
    {
        assert(a@.skip(i as int).drop_first() =~= a@.skip(i + 1));
        assert(b@.skip(i as int).drop_first() =~= b@.skip(i + 1));
        i = i + 1;
    }
    if i == a.len() {
        i < b.len()
    } else if i == b.len() {
        false
    } else {
        a[i] < b[i]
    }
}

/// The character sequences of a list of strings, as vectors.
fn keys_of(items: &Vec<String>) -> (res: Vec<Vec<char>>)
    ensures
        chars_view(res@) == texts_view(items@),
{
    let mut res: Vec<Vec<char>> = Vec::new();
    let mut i: usize = 0;
    while i < items.len()
        invariant
            i <= items@.len(),
            res@.len() == i,
            chars_view(res@) == texts_view(items@).take(i as int),
        decreases items@.len() - i,
    {
        res.push(chars_of(items[i].as_str()));
        i = i + 1;
        assert(chars_view(res@) =~= texts_view(items@).take(i as int));
    }
    assert(texts_view(items@).take(items@.len() as int) =~= texts_view(items@));
    res
}

/// `order` lists each position of `keys` exactly once, by ascending key,
/// and positions with equal keys in increasing order.
pub open spec fn is_stable_order(keys: Seq<Seq<char>>, order: Seq<usize>) -> bool {
    &&& order.len() == keys.len()
    &&& forall|i: int| 0 <= i < order.len() ==> #[trigger] order[i] < keys.len()
    &&& forall|i: int, j: int| 0 <= i < j < order.len() ==> order[i] != order[j]
    &&& forall|i: int, j: int|
        0 <= i < j < order.len() ==> !text_less(keys[order[j] as int], keys[order[i] as int])
    &&& forall|i: int, j: int|
        0 <= i < j < order.len() && keys[order[i] as int] == keys[order[j] as int] ==> order[i]
            < order[j]
}

/// The positions of `keys` sorted by ascending key, keeping the given
/// order among equal keys (what a stable sort of the positions gives).
pub fn stable_order(keys: &Vec<String>) -> (order: Vec<usize>)
    ensures
        is_stable_order(texts_view(keys@), order@),
{
    let ks = keys_of(keys);
    let ghost kv = texts_view(keys@);
    let n = ks.len();
    let mut order: Vec<usize> = Vec::new();
    let mut k: usize = 0;
    while k < n
        invariant
            k <= n == ks@.len() == kv.len(),
            chars_view(ks@) == kv,
            order@.len() == k,
            forall|i: int| 0 <= i < order@.len() ==> #[trigger] order@[i] < k,
            forall|i: int, j: int| 0 <= i < j < order@.len() ==> order@[i] != order@[j],
            forall|i: int, j: int|
                0 <= i < j < order@.len() ==> !text_less(
                    kv[order@[j] as int],
                    kv[order@[i] as int],
                ),
            forall|i: int, j: int|
                0 <= i < j < order@.len() && kv[order@[i] as int] == kv[order@[j] as int]
                    ==> order@[i] < order@[j],
        decreases n - k,
    {
        assert(ks@[k as int]@ == kv[k as int]);
        let mut pos: usize = 0;
        while pos < order.len() && !text_lt(&ks[k], &ks[order[pos]])
            invariant
                pos <= order@.len(),
                k < n == ks@.len() == kv.len(),
                chars_view(ks@) == kv,
                forall|i: int| 0 <= i < order@.len() ==> #[trigger] order@[i] < k,
                forall|i: int| 0 <= i < pos ==> !text_less(kv[k as int], kv[#[trigger] order@[i] as int]),
            decreases order@.len() - pos,
        {
            assert(ks@[order@[pos as int] as int]@ == kv[order@[pos as int] as int]);
            pos = pos + 1;
        }
        if pos < order.len() {
            assert(ks@[order@[pos as int] as int]@ == kv[order@[pos as int] as int]);
        }
        let ghost old_order = order@;
        order.insert(pos, k);
        assert(order@ == old_order.insert(pos as int, k));
        assert forall|i: int, j: int| 0 <= i < j < order@.len() implies !text_less(
            kv[order@[j] as int],
            kv[order@[i] as int],
        ) by {
            if i < pos && j == pos {
            } else if i == pos && j > pos {
                // old_order[pos] is after the key, and so is everything later
                let a = kv[k as int];
                let b = kv[old_order[pos as int] as int];
                let c = kv[old_order[j - 1] as int];
                assert(text_less(a, b));
                lemma_text_less_total(b, c);
                if j - 1 > pos {
                    assert(!text_less(c, b));
                }
                lemma_text_less_total(a, c);
                if text_less(c, a) {
                    if c != b {
                        lemma_text_less_transitive(c, a, b);
                    }
                    lemma_text_less_total(c, b);
                }
            } else if i < pos && j > pos {
            } else if j < pos {
            } else {
            }
        }
        assert forall|i: int, j: int|
            0 <= i < j < order@.len() && kv[order@[i] as int] == kv[order@[j] as int] implies order@[i]
            < order@[j] by {
            if i == pos && j > pos {
                let a = kv[k as int];
                let b = kv[old_order[pos as int] as int];
                let c = kv[old_order[j - 1] as int];
                lemma_text_less_total(b, c);
                if j - 1 > pos {
                    assert(!text_less(c, b));
                }
                if a == c {
                    lemma_text_less_irreflexive(a);
                    if b != c {
                        lemma_text_less_transitive(c, b, c);
                    }
                }
            }
        }
        k = k + 1;
    }
    order
}

/// `s` is in descending text order.
pub open spec fn is_descending(s: Seq<Seq<char>>) -> bool {
    forall|i: int, j: int| 0 <= i < j < s.len() ==> !text_less(s[i], s[j])
}

/// `items` sorted into descending text order.
pub fn sort_descending(items: &Vec<String>) -> (res: Vec<String>)
    ensures
        is_descending(texts_view(res@)),
        texts_view(res@).to_multiset() == texts_view(items@).to_multiset(),
{
    let ks = keys_of(items);
    let ghost all = texts_view(items@);
    let mut res: Vec<String> = Vec::new();
    let mut rk: Vec<Vec<char>> = Vec::new();
    let mut k: usize = 0;
    assert(all.len() == items@.len());
    assert(ks@.len() == chars_view(ks@).len());
    assert(texts_view(res@) =~= all.take(0));
    assert(chars_view(rk@) =~= texts_view(res@));
    while k < items.len()
        invariant
            k <= items@.len() == ks@.len() == all.len(),
            all == texts_view(items@),
            chars_view(ks@) == all,
            chars_view(rk@) == texts_view(res@),
            rk@.len() == res@.len(),
            is_descending(texts_view(res@)),
            texts_view(res@).to_multiset() == all.take(k as int).to_multiset(),
        decreases items@.len() - k,
    {
        let ghost x = all[k as int];
        assert(ks@[k as int]@ == x);
        let mut pos: usize = 0;
        while pos < rk.len() && !text_lt(&rk[pos], &ks[k])
            invariant
                pos <= rk@.len(),
                k < ks@.len(),
                x == chars_view(ks@)[k as int],
                forall|i: int| 0 <= i < pos ==> !text_less(#[trigger] chars_view(rk@)[i], x),
            decreases rk@.len() - pos,
        {
            assert(rk@[pos as int]@ == chars_view(rk@)[pos as int]);
            pos = pos + 1;
        }
        if pos < rk.len() {
            assert(rk@[pos as int]@ == chars_view(rk@)[pos as int]);
        }
        let ghost old_view = texts_view(res@);
        let ghost old_rk = rk@;
        let ghost old_res = res@;
        rk.insert(pos, chars_of(items[k].as_str()));
        res.insert(pos, items[k].clone());
        assert(texts_view(res@) =~= old_view.insert(pos as int, x));
        assert(chars_view(rk@) =~= chars_view(old_rk).insert(pos as int, x));
        let ghost nv = texts_view(res@);
        assert forall|i: int, j: int| 0 <= i < j < nv.len() implies !text_less(nv[i], nv[j]) by {
            if i < pos && j == pos {
            } else if i == pos && j > pos {
                let b = old_view[pos as int];
                let c = old_view[j - 1];
                assert(text_less(b, x));
                lemma_text_less_total(b, c);
                if j - 1 > pos {
                    assert(!text_less(b, c));
                }
                lemma_text_less_total(x, c);
                if text_less(x, c) {
                    lemma_text_less_transitive(b, x, c);
                    if b == c {
                        lemma_text_less_irreflexive(b);
                    }
                }
            }
        }
        proof {
            vstd::seq_lib::to_multiset_insert(old_view, pos as int, x);
            assert(all.take(k + 1) =~= all.take(k as int).push(x));
            vstd::seq_lib::to_multiset_build(all.take(k as int), x);
        }
        k = k + 1;
    }
    assert(all.take(items@.len() as int) =~= all);
    res
}

} // verus!
