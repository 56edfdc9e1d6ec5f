//! Finding the contents of table elements in an HTML account statement.
//!
//! An element is written `OPEN attributes > content CLOSE` where `OPEN` is
//! the start of the opening tag (such as `<tr`), the attributes hold no `>`,
//! the content may span lines and ends at the first `CLOSE` (such as
//! `</tr>`).  Elements are taken from left to right without overlapping: this
//! is the pattern `(?s)OPEN[^>]*>(.*?)CLOSE` searched repeatedly, leftmost
//! first, so a table row may be written over several lines.
use vstd::prelude::*;
use crate::text::{
    chars_view, copy_range, find_char, index_of, lemma_index_of, lemma_index_of_at, matches_at,
    occurs_at,
};

verus! {

/// The position of the first occurrence of `p` in `t`, or a position past
/// the last one where `p` could start when it does not occur.
pub open spec fn text_index(t: Seq<char>, p: Seq<char>) -> int
    decreases t.len(),
{
    if t.len() < p.len() {
        t.len() as int
    } else if occurs_at(t, p, 0) || t.len() == 0 {
        0
    } else {
        1 + text_index(t.drop_first(), p)
    }
}

pub proof fn lemma_text_index(t: Seq<char>, p: Seq<char>)
    ensures
        0 <= text_index(t, p) <= t.len(),
        forall|k: int| 0 <= k < text_index(t, p) ==> !#[trigger] occurs_at(t, p, k),
    decreases t.len(),
{
    if t.len() >= p.len() && !occurs_at(t, p, 0) && t.len() > 0 {
        lemma_text_index(t.drop_first(), p);
        assert forall|k: int| 0 <= k < text_index(t, p) implies !#[trigger] occurs_at(t, p, k) by {
            if k > 0 {
                if occurs_at(t, p, k) {
                    assert(t.drop_first().subrange(k - 1, k - 1 + p.len()) =~= t.subrange(
                        k,
                        k + p.len(),
                    ));
                    assert(occurs_at(t.drop_first(), p, k - 1));
                }
            }
        }
    }
}

/// The element whose opening tag starts at `s`, if there is one: the bounds
/// `(c, k)` of its content `t[c..k]`.
pub open spec fn element_at(t: Seq<char>, open: Seq<char>, close: Seq<char>, s: int) -> Option<
    (int, int),
> {
    if !occurs_at(t, open, s) {
        None
    } else {
        let after = s + open.len();
        let g = after + index_of(t.skip(after), '>');
        let c = g + 1;
        let k = c + text_index(t.skip(c), close);
        if g < t.len() && occurs_at(t, close, k) {
            Some((c, k))
        } else {
            None
        }
    }
}

/// The contents of the elements found from position `pos` on.
pub open spec fn elements_from(t: Seq<char>, open: Seq<char>, close: Seq<char>, pos: int) -> Seq<
    Seq<char>,
>
    decreases t.len() - pos,
{
    if pos < 0 || pos >= t.len() {
        seq![]
    } else {
        match element_at(t, open, close, pos) {
            Some((c, k)) => {
                proof {
                    lemma_index_of(t.skip(pos + open.len()), '>');
                    lemma_text_index(t.skip(c), close);
                }
                seq![t.subrange(c, k)] + elements_from(t, open, close, k + close.len())
            },
            None => elements_from(t, open, close, pos + 1),
        }
    }
}

/// The contents of all elements of `t`, from left to right.
pub open spec fn elements(t: Seq<char>, open: Seq<char>, close: Seq<char>) -> Seq<Seq<char>> {
    elements_from(t, open, close, 0)
}

/// The position of the first occurrence of `p` in `t` at or after `from`,
/// or `t.len()` when there is none.
pub fn find_text(t: &Vec<char>, p: &Vec<char>, from: usize) -> (res: usize)
    requires
        from <= t.len(),
    ensures
        res == from + text_index(t@.skip(from as int), p@),
        res <= t.len(),
{
    let mut i = from;
    proof {
        lemma_text_index(t@.skip(from as int), p@);
    }
    loop
        invariant
            from <= i <= t.len(),
            text_index(t@.skip(from as int), p@) == (i - from) + text_index(
                t@.skip(i as int),
                p@,
            ),
        decreases t.len() - i,
    {
        let ghost u = t@.skip(i as int);
        if p.len() == 0 {
            assert(u.subrange(0, 0) =~= p@);
            return i;
        }
        if t.len() - i < p.len() {
            return t.len();
        }
        if matches_at(t, p, i) {
            assert(u.subrange(0, p@.len() as int) =~= t@.subrange(i as int, i + p@.len()));
            return i;
        }
        assert(!occurs_at(u, p@, 0)) by {
            assert(u.subrange(0, p@.len() as int) =~= t@.subrange(i as int, i + p@.len()));
        }
        assert(u.drop_first() =~= t@.skip(i + 1));
        i = i + 1;
    }
}

/// The element whose opening tag starts at `s`, if there is one.
pub fn element_at_pos(t: &Vec<char>, open: &Vec<char>, close: &Vec<char>, s: usize) -> (res:
    Option<(usize, usize)>)
    ensures
        match res {
            Some((c, k)) => element_at(t@, open@, close@, s as int) == Some((c as int, k as int)),
            None => element_at(t@, open@, close@, s as int) is None,
        },
{
    let found = matches_at(t, open, s);
    if !found {
        return None;
    }
    let n = t.len();
    let m = open.len();
    assert(s + m <= n);
    let after = s + open.len();
    let g = find_char(t, '>', after);
    if g == t.len() {
        return None;
    }
    let c = g + 1;
    let k = find_text(t, close, c);
    if !matches_at(t, close, k) {
        return None;
    }
    Some((c, k))
}

/// The contents of all elements of `t`, from left to right.
pub fn find_elements(t: &Vec<char>, open: &Vec<char>, close: &Vec<char>) -> (res: Vec<Vec<char>>)
    ensures
        chars_view(res@) == elements(t@, open@, close@),
{
    let mut out: Vec<Vec<char>> = Vec::new();
    let mut pos: usize = 0;
    while pos < t.len()
        invariant
            pos <= t.len(),
            elements(t@, open@, close@) == chars_view(out@) + elements_from(
                t@,
                open@,
                close@,
                pos as int,
            ),
        decreases t.len() - pos,
    {
        match element_at_pos(t, open, close, pos) {
            Some((c, k)) => {
                proof {
                    lemma_index_of(t@.skip(pos + open@.len()), '>');
                    lemma_text_index(t@.skip(c as int), close@);
                }
                let piece = copy_range(t, c, k);
                let ghost before = out@;
                out.push(piece);
                assert(chars_view(out@) =~= chars_view(before).push(piece@));
                pos = k + close.len();
            },
            None => {
                pos = pos + 1;
            },
        }
    }
    assert(chars_view(out@) + Seq::<Seq<char>>::empty() =~= chars_view(out@));
    out
}

// ---------------------------------------------------------------------------
// Removing tags
// ---------------------------------------------------------------------------

/// `s` with every tag removed: a tag is a `<`, one or more characters other
/// than `>`, and the `>` that ends them.  Tags are taken from left to right
/// (the replacement of the pattern `<[^>]+>` by nothing).
pub open spec fn strip_tags(s: Seq<char>) -> Seq<char>
    decreases s.len(),
{
    if s.len() == 0 {
        seq![]
    } else {
        let g = index_of(s.drop_first(), '>');
        if s[0] == '<' && 0 < g < s.len() - 1 {
            proof {
                lemma_index_of(s.drop_first(), '>');
            }
            strip_tags(s.skip(g + 2))
        } else {
            seq![s[0]] + strip_tags(s.drop_first())
        }
    }
}

/// Removes every tag from `s`.
pub fn remove_tags(s: &Vec<char>) -> (res: Vec<char>)
    ensures
        res@ == strip_tags(s@),
{
    let n = s.len();
    let mut out: Vec<char> = Vec::new();
    let mut i: usize = 0;
    assert(s@.skip(0) =~= s@);
    while i < n
        invariant
            i <= n == s@.len(),
            strip_tags(s@) == out@ + strip_tags(s@.skip(i as int)),
        decreases n - i,
    {
        let ghost t = s@.skip(i as int);
        assert(t.drop_first() =~= s@.skip(i + 1));
        let g = find_char(s, '>', i + 1);
        proof {
            lemma_index_of(t.drop_first(), '>');
        }
        if s[i] == '<' && g > i + 1 && g < n {
            assert(t.skip(g - i + 1) =~= s@.skip(g + 1));
            i = g + 1;
        } else {
            let ghost before = out@;
            out.push(s[i]);
            i = i + 1;
            assert(out@ + strip_tags(s@.skip(i as int)) =~= before + (seq![t[0]] + strip_tags(
                t.drop_first(),
            )));
        }
    }
    assert(out@ + strip_tags(s@.skip(n as int)) =~= out@);
    out
}

proof fn lemma_element_at_shift(
    p: Seq<char>,
    rest: Seq<char>,
    open: Seq<char>,
    close: Seq<char>,
    s: int,
)
    requires
        s >= p.len(),
    ensures
        element_at(p + rest, open, close, s) == match element_at(rest, open, close, s - p.len()) {
            Some((c, k)) => Some((c + p.len(), k + p.len())),
            None => None,
        },
{
    let t = p + rest;
    let n = p.len() as int;
    assert(t.skip(n) =~= rest);
    assert forall|i: int, m: int| n <= i <= m <= t.len() implies t.subrange(i, m) =~= rest.subrange(
        i - n,
        m - n,
    ) by {}
    assert forall|i: int| n <= i <= t.len() implies #[trigger] t.skip(i) =~= rest.skip(i - n) by {}
    assert(occurs_at(t, open, s) == occurs_at(rest, open, s - n)) by {
        if s + open.len() <= t.len() {
            assert(t.subrange(s, s + open.len()) =~= rest.subrange(s - n, s - n + open.len()));
        }
    }
    if occurs_at(t, open, s) {
        let after = s + open.len();
        assert(t.skip(after) == rest.skip(after - n));
        lemma_index_of(t.skip(after), '>');
        let g = after + index_of(t.skip(after), '>');
        let c = g + 1;
        if g < t.len() {
            assert(t.skip(c) == rest.skip(c - n));
            lemma_text_index(t.skip(c), close);
            let k = c + text_index(t.skip(c), close);
            assert(occurs_at(t, close, k) == occurs_at(rest, close, k - n)) by {
                if k + close.len() <= t.len() {
                    assert(t.subrange(k, k + close.len()) =~= rest.subrange(
                        k - n,
                        k - n + close.len(),
                    ));
                }
            }
        }
    }
}

proof fn lemma_elements_from_shift(
    p: Seq<char>,
    rest: Seq<char>,
    open: Seq<char>,
    close: Seq<char>,
    pos: int,
)
    requires
        pos >= p.len(),
    ensures
        elements_from(p + rest, open, close, pos) == elements_from(rest, open, close, pos - p.len()),
    decreases (p + rest).len() - pos,
{
    let t = p + rest;
    let n = p.len() as int;
    if pos < t.len() {
        lemma_element_at_shift(p, rest, open, close, pos);
        match element_at(t, open, close, pos) {
            Some((c, k)) => {
                lemma_index_of(t.skip(pos + open.len()), '>');
                lemma_text_index(t.skip(c), close);
                lemma_elements_from_shift(p, rest, open, close, k + close.len());
                assert(t.subrange(c, k) =~= rest.subrange(c - n, k - n));
            },
            None => {
                lemma_elements_from_shift(p, rest, open, close, pos + 1);
            },
        }
    }
}

/// The elements of a text: an element `OPEN attributes > content CLOSE`
/// standing first gives its content, ahead of the elements of what follows
/// it; text before it that holds no `<` is passed over; and an empty text has
/// none.
pub proof fn lemma_elements_first(
    pre: Seq<char>,
    open: Seq<char>,
    attrs: Seq<char>,
    body: Seq<char>,
    close: Seq<char>,
    rest: Seq<char>,
)
    requires
        open.len() > 0,
        open[0] == '<',
        !pre.contains('<'),
        !attrs.contains('>'),
        forall|k: int| 0 <= k < body.len() ==> !occurs_at(body + close, close, k),
    ensures
        elements(Seq::<char>::empty(), open, close).len() == 0,
        elements(pre + rest, open, close) == elements(rest, open, close),
        elements(open + attrs + seq!['>'] + body + close + rest, open, close) == seq![body]
            + elements(rest, open, close),
{
    // text before the element
    lemma_skip_plain(pre, rest, open, close, 0);
    lemma_elements_from_shift(pre, rest, open, close, pre.len() as int);
    // the element itself
    let head = open + attrs + seq!['>'] + body + close;
    let t = head + rest;
    let after = open.len() as int;
    assert(t.subrange(0, after) =~= open);
    assert(t.skip(after) =~= attrs + seq!['>'] + (body + close + rest));
    assert forall|j: int| 0 <= j < attrs.len() implies (attrs + seq!['>'] + (body + close
        + rest))[j] != '>' by {
        assert((attrs + seq!['>'] + (body + close + rest))[j] == attrs[j]);
        if attrs[j] == '>' {
            assert(attrs.contains('>'));
        }
    }
    lemma_index_of_at(attrs + seq!['>'] + (body + close + rest), '>', attrs.len() as int);
    let c = after + attrs.len() + 1;
    let u = t.skip(c);
    assert(u =~= body + close + rest);
    assert(occurs_at(u, close, body.len() as int)) by {
        assert(u.subrange(body.len() as int, body.len() + close.len() as int) =~= close);
    }
    assert forall|k: int| 0 <= k < body.len() implies !occurs_at(u, close, k) by {
        if occurs_at(u, close, k) {
            assert(u.subrange(k, k + close.len()) =~= (body + close).subrange(k, k + close.len()));
            assert(occurs_at(body + close, close, k));
        }
    }
    lemma_text_index(u, close);
    lemma_text_index_first(u, close, body.len() as int);
    let k = c + body.len();
    assert(t.subrange(k, k + close.len()) =~= close);
    assert(t.subrange(c, k) =~= body);
    assert(t =~= head + rest);
    lemma_elements_from_shift(head, rest, open, close, head.len() as int);
    assert(k + close.len() == head.len());
}

/// No element starts in text that holds no `<`, when elements open with `<`.
proof fn lemma_skip_plain(pre: Seq<char>, rest: Seq<char>, open: Seq<char>, close: Seq<char>, pos: int)
    requires
        open.len() > 0,
        open[0] == '<',
        !pre.contains('<'),
        0 <= pos <= pre.len(),
    ensures
        elements_from(pre + rest, open, close, pos) == elements_from(pre + rest, open, close, pre.len() as int),
    decreases pre.len() - pos,
{
    let t = pre + rest;
    if pos < pre.len() {
        assert(t[pos] == pre[pos]);
        if pre[pos] == '<' {
            assert(pre.contains('<'));
        }
        assert(!occurs_at(t, open, pos)) by {
            if occurs_at(t, open, pos) {
                assert(t.subrange(pos, pos + open.len())[0] == t[pos]);
            }
        }
        lemma_skip_plain(pre, rest, open, close, pos + 1);
    }
}

/// Where `p` occurs at `k` and nowhere before, its first occurrence is at `k`.
proof fn lemma_text_index_first(t: Seq<char>, p: Seq<char>, k: int)
    requires
        occurs_at(t, p, k),
        forall|j: int| 0 <= j < k ==> !occurs_at(t, p, j),
    ensures
        text_index(t, p) == k,
    decreases k,
{
    if k > 0 {
        assert(!occurs_at(t, p, 0));
        assert(t.len() >= p.len());
        assert forall|j: int| 0 <= j < k - 1 implies !occurs_at(t.drop_first(), p, j) by {
            if occurs_at(t.drop_first(), p, j) {
                assert(t.drop_first().subrange(j, j + p.len()) =~= t.subrange(j + 1, j + 1 + p.len()));
                assert(occurs_at(t, p, j + 1));
            }
        }
        assert(t.drop_first().subrange(k - 1, k - 1 + p.len()) =~= t.subrange(k, k + p.len()));
        lemma_text_index_first(t.drop_first(), p, k - 1);
    } else {
        assert(t.len() >= p.len());
    }
}

/// Text before the first `<` is kept as it stands.
pub proof fn lemma_strip_tags_plain(a: Seq<char>, y: Seq<char>)
    requires
        !a.contains('<'),
    ensures
        strip_tags(a + y) == a + strip_tags(y),
    decreases a.len(),
{
    if a.len() > 0 {
        let t = a + y;
        assert(t[0] == a[0]);
        assert(a[0] != '<');
        let a2 = a.drop_first();
        assert(!a2.contains('<')) by {
            if a2.contains('<') {
                let j = choose|j: int| 0 <= j < a2.len() && a2[j] == '<';
                assert(a[j + 1] == '<');
            }
        }
        lemma_strip_tags_plain(a2, y);
        assert(t.drop_first() =~= a2 + y);
        assert(seq![a[0]] + (a2 + strip_tags(y)) =~= a + strip_tags(y));
    } else {
        assert(a + y =~= y);
        assert(a + strip_tags(y) =~= strip_tags(y));
    }
}

/// A tag, `<`, one or more characters other than `>`, and `>`, is removed
/// whole; a `<` that no `>` closes is kept.
pub proof fn lemma_strip_tags_tag(x: Seq<char>, y: Seq<char>)
    requires
        !x.contains('>'),
    ensures
        x.len() > 0 ==> strip_tags(seq!['<'] + x + seq!['>'] + y) == strip_tags(y),
        strip_tags(seq!['<'] + x) == seq!['<'] + strip_tags(x),
{
    let t = seq!['<'] + x + seq!['>'] + y;
    assert(t.drop_first() =~= x + seq!['>'] + y);
    assert forall|j: int| 0 <= j < x.len() implies (x + seq!['>'] + y)[j] != '>' by {
        assert((x + seq!['>'] + y)[j] == x[j]);
        if x[j] == '>' {
            assert(x.contains('>'));
        }
    }
    lemma_index_of_at(x + seq!['>'] + y, '>', x.len() as int);
    assert(t[0] == '<');
    assert(t.skip(x.len() as int + 2) =~= y);
    let u = seq!['<'] + x;
    assert(u.drop_first() =~= x);
    assert forall|j: int| 0 <= j < x.len() implies x[j] != '>' by {
        if x[j] == '>' {
            assert(x.contains('>'));
        }
    }
    lemma_index_of_at(x, '>', x.len() as int);
    assert(u[0] == '<');
}

} // verus!
